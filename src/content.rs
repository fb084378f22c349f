//! Content slots, the requirement draft of a template, and its resolution
//! into the full content a template is filled out with.

use crate::chars::push_text;
use crate::ident_map::IdentMap;
use crate::token::{token_model, token_wf, ContentToken, ContentTokens, Ident, Token};
use vstd::prelude::*;

verus! {

pub type Content = String;

/// The namespace of a content slot.
#[derive(Debug, Clone, Copy, PartialEq, Eq, Hash, Structural)]
pub enum ContentType {
    Key,
    Constant,
    Option,
}

/// The model of a content slot: its namespace and identifier.
pub type Slot = (ContentType, Seq<char>);

/// The identity of one content slot. Slots of different namespaces never
/// collide, even under the same identifier.
#[derive(Debug, PartialEq, Eq, Hash)]
pub struct ContentIndex(pub ContentType, pub Ident);

impl View for ContentIndex {
    type V = Slot;

    open spec fn view(&self) -> Slot {
        (self.0, self.1@)
    }
}

impl Clone for ContentIndex {
    fn clone(&self) -> (r: Self)
        ensures
            r == *self,
    {
        ContentIndex(self.0, self.1.clone())
    }
}

/// The name of a namespace.
pub open spec fn namespace_name(ty: ContentType) -> Seq<char> {
    match ty {
        ContentType::Key => "Key"@,
        ContentType::Constant => "Constant"@,
        ContentType::Option => "Option"@,
    }
}

impl ContentType {
    /// The name of the namespace.
    pub fn name(&self) -> (r: &'static str)
        ensures
            r@ == namespace_name(*self),
    {
        match self {
            ContentType::Key => "Key",
            ContentType::Constant => "Constant",
            ContentType::Option => "Option",
        }
    }
}

/// How a slot reads in messages.
pub open spec fn slot_text(k: Slot) -> Seq<char> {
    "Type: "@ + namespace_name(k.0) + ", Ident: "@ + k.1
}

impl ContentIndex {
    /// The slot as a message.
    pub fn message(&self) -> (r: String)
        ensures
            r@ == slot_text(self@),
    {
        let mut m = String::new();
        push_text(&mut m, "Type: ");
        push_text(&mut m, self.0.name());
        push_text(&mut m, ", Ident: ");
        push_text(&mut m, self.1.as_str());
        assert(m@ =~= slot_text(self@));
        m
    }

    pub fn new(content_type: ContentType, ident: &str) -> (r: Self)
        ensures
            r@ == (content_type, ident@),
    {
        ContentIndex(content_type, ident.to_owned())
    }

    /// Whether both indices name the same slot.
    pub fn same_slot(&self, other: &ContentIndex) -> (r: bool)
        ensures
            r == (self@ == other@),
    {
        self.0 == other.0 && self.1 == other.1
    }
}

/// What is known of one slot before resolution.
#[derive(Debug, PartialEq, Eq, Hash)]
pub enum ContentRequirement {
    /// A concrete value.
    Literal(Content),
    /// Take the resolved value of another slot.
    Default(ContentIndex),
    /// No value is known yet.
    Unset,
}

/// The model of a `ContentRequirement`.
pub enum Requirement {
    Literal(Seq<char>),
    Default(Slot),
    Unset,
}

impl View for ContentRequirement {
    type V = Requirement;

    open spec fn view(&self) -> Requirement {
        match self {
            ContentRequirement::Literal(c) => Requirement::Literal(c@),
            ContentRequirement::Default(idx) => Requirement::Default(idx@),
            ContentRequirement::Unset => Requirement::Unset,
        }
    }
}

impl Clone for ContentRequirement {
    fn clone(&self) -> (r: Self)
        ensures
            r == *self,
    {
        match self {
            ContentRequirement::Literal(c) => ContentRequirement::Literal(c.clone()),
            ContentRequirement::Default(idx) => ContentRequirement::Default(idx.clone()),
            ContentRequirement::Unset => ContentRequirement::Unset,
        }
    }
}

impl ContentRequirement {
    /// Whether both requirements are the same.
    pub fn same(&self, other: &ContentRequirement) -> (r: bool)
        ensures
            r == (self@ == other@),
    {
        match (self, other) {
            (ContentRequirement::Literal(a), ContentRequirement::Literal(b)) => *a == *b,
            (ContentRequirement::Default(a), ContentRequirement::Default(b)) => a.same_slot(b),
            (ContentRequirement::Unset, ContentRequirement::Unset) => true,
            _ => false,
        }
    }
}

// ---------------------------------------------------------------------------
// Slot-keyed sequences: the first entry of a slot is the one that counts.

/// The index of the first entry for slot `k` from `i` on, or -1.
pub open spec fn find_from<T>(e: Seq<(Slot, T)>, k: Slot, i: int) -> int
    decreases e.len() - i,
{
    if i < 0 || i >= e.len() {
        -1
    } else if e[i].0 == k {
        i
    } else {
        find_from(e, k, i + 1)
    }
}

pub open spec fn slot_index<T>(e: Seq<(Slot, T)>, k: Slot) -> int {
    find_from(e, k, 0)
}

pub open spec fn has_slot<T>(e: Seq<(Slot, T)>, k: Slot) -> bool {
    slot_index(e, k) >= 0
}

pub open spec fn value_of<T>(e: Seq<(Slot, T)>, k: Slot) -> T {
    e[slot_index(e, k)].1
}

/// The entries with `k` mapped to `v`: the entry of `k` is replaced in
/// place, or a new one is appended.
pub open spec fn put<T>(e: Seq<(Slot, T)>, k: Slot, v: T) -> Seq<(Slot, T)> {
    if has_slot(e, k) {
        e.update(slot_index(e, k), (k, v))
    } else {
        e.push((k, v))
    }
}

/// The entries seen as a map from slots to values.
pub open spec fn slot_map<T>(e: Seq<(Slot, T)>) -> Map<Slot, T> {
    Map::new(|k: Slot| has_slot(e, k), |k: Slot| value_of(e, k))
}

pub proof fn lemma_find_from<T>(e: Seq<(Slot, T)>, k: Slot, i: int)
    requires
        0 <= i <= e.len(),
    ensures
        find_from(e, k, i) == -1 || (i <= find_from(e, k, i) < e.len() && e[find_from(e, k, i)].0
            == k),
        forall|j: int|
            i <= j < e.len() && (find_from(e, k, i) == -1 || j < find_from(e, k, i)) ==> e[j].0
                != k,
    decreases e.len() - i,
{
    if i < e.len() && e[i].0 != k {
        lemma_find_from(e, k, i + 1);
    }
}

/// No slot occurs twice.
pub open spec fn slots_unique<T>(e: Seq<(Slot, T)>) -> bool {
    forall|i: int, j: int| 0 <= i < j < e.len() ==> e[i].0 != e[j].0
}

/// Whether namespace `ty` holds any slot.
pub open spec fn has_type<T>(e: Seq<(Slot, T)>, ty: ContentType) -> bool {
    exists|i: int| 0 <= i < e.len() && e[i].0.0 == ty
}

// ---------------------------------------------------------------------------
// Drafting: the requirements a template declares.

/// Draft one token into `e`: returns what a slot defaulting to this token
/// requires, and the entries with the token's own slots added.
pub open spec fn draft_token(t: Token, e: Seq<(Slot, Requirement)>) -> (
    Requirement,
    Seq<(Slot, Requirement)>,
)
    decreases t,
{
    match t {
        Token::Text(text) => (Requirement::Literal(text), e),
        Token::Constant(id) => {
            let k = (ContentType::Constant, id);
            (Requirement::Default(k), put(e, k, Requirement::Unset))
        },
        Token::Key(id, default) => {
            let k = (ContentType::Key, id);
            let (d, e2) = match default {
                Some(b) => draft_token(*b, e),
                None => (Requirement::Unset, e),
            };
            (Requirement::Default(k), put(e2, k, d))
        },
        Token::Option(key) => match *key {
            Token::Key(id, default) => {
                let k = (ContentType::Option, id);
                let (d, e2) = match default {
                    Some(b) => draft_token(*b, e),
                    None => (Requirement::Unset, e),
                };
                (Requirement::Default(k), put(e2, k, d))
            },
            _ => (Requirement::Unset, e),
        },
    }
}

/// The draft of a token sequence: each token drafted in order into the
/// entries of the ones before it.
pub open spec fn draft_all(ts: Seq<Token>) -> Seq<(Slot, Requirement)>
    decreases ts.len(),
{
    if ts.len() == 0 {
        Seq::empty()
    } else {
        draft_token(ts.last(), draft_all(ts.drop_last())).1
    }
}

// ---------------------------------------------------------------------------
// The requirement draft.

/// The requirements of every slot a template declares, in the order the
/// slots were first declared.
#[derive(Debug)]
pub struct RequiredContent {
    entries: Vec<(ContentIndex, ContentRequirement)>,
}

impl View for RequiredContent {
    type V = Seq<(Slot, Requirement)>;

    closed spec fn view(&self) -> Seq<(Slot, Requirement)> {
        self.entries@.map_values(|e: (ContentIndex, ContentRequirement)| (e.0@, e.1@))
    }
}

impl RequiredContent {
    #[verifier::type_invariant]
    spec fn each_slot_once(&self) -> bool {
        slots_unique(self@)
    }

    /// No slots.
    pub fn new() -> (r: Self)
        ensures
            r@ == Seq::<(Slot, Requirement)>::empty(),
    {
        let r = RequiredContent { entries: Vec::new() };
        assert(r@ =~= Seq::<(Slot, Requirement)>::empty());
        r
    }

    /// The number of entries.
    pub fn len(&self) -> (r: usize)
        ensures
            r == self@.len(),
    {
        self.entries.len()
    }

    /// The slot of entry `i`.
    pub(crate) fn index_at(&self, i: usize) -> (r: ContentIndex)
        requires
            i < self@.len(),
        ensures
            r@ == self@[i as int].0,
    {
        self.entries[i].0.clone()
    }

    /// Replace the requirement of entry `i`.
    pub(crate) fn set_at(&mut self, i: usize, content: ContentRequirement)
        requires
            i < old(self)@.len(),
        ensures
            final(self)@ == old(self)@.update(i as int, (old(self)@[i as int].0, content@)),
    {
        proof {
            use_type_invariant(&*self);
        }
        let mut taken = RequiredContent { entries: Vec::new() };
        core::mem::swap(self, &mut taken);
        let RequiredContent { entries: mut entries } = taken;
        let idx = entries[i].0.clone();
        entries.set(i, (idx, content));
        let ghost v = entries@.map_values(|e: (ContentIndex, ContentRequirement)| (e.0@, e.1@));
        proof {
            assert(v =~= old(self)@.update(i as int, (old(self)@[i as int].0, content@)));
            assert forall|a: int, b: int| 0 <= a < b < v.len() implies v[a].0 != v[b].0 by {
                assert(v[a].0 == old(self)@[a].0);
                assert(v[b].0 == old(self)@[b].0);
            }
        }
        *self = RequiredContent { entries };
    }

    /// Append an entry for a slot that is not present.
    fn push_new(&mut self, idx: &ContentIndex, content: ContentRequirement)
        requires
            !has_slot(old(self)@, idx@),
        ensures
            final(self)@ == old(self)@.push((idx@, content@)),
    {
        proof {
            use_type_invariant(&*self);
            lemma_find_from(old(self)@, idx@, 0);
        }
        let mut taken = RequiredContent { entries: Vec::new() };
        core::mem::swap(self, &mut taken);
        let RequiredContent { entries: mut entries } = taken;
        entries.push((idx.clone(), content));
        let ghost v = entries@.map_values(|e: (ContentIndex, ContentRequirement)| (e.0@, e.1@));
        proof {
            assert(v =~= old(self)@.push((idx@, content@)));
            assert forall|a: int, b: int| 0 <= a < b < v.len() implies v[a].0 != v[b].0 by {
                assert(v[a].0 == old(self)@[a].0 || a == old(self)@.len());
            }
        }
        *self = RequiredContent { entries };
    }

    /// The position of the first entry of slot `idx`, if any.
    fn find(&self, idx: &ContentIndex) -> (r: Option<usize>)
        ensures
            match r {
                Some(i) => {
                    &&& i as int == slot_index(self@, idx@)
                    &&& i < self@.len()
                    &&& self@[i as int].0 == idx@
                },
                None => !has_slot(self@, idx@),
            },
    {
        proof {
            lemma_find_from(self@, idx@, 0);
        }
        let mut i: usize = 0;
        while i < self.entries.len()
            invariant
                i <= self@.len(),
                self@.len() == self.entries@.len(),
                find_from(self@, idx@, 0) == find_from(self@, idx@, i as int),
            decreases self@.len() - i,
        {
            if self.entries[i].0.same_slot(idx) {
                return Some(i);
            }
            i = i + 1;
        }
        None
    }

    /// Whether any slot of namespace `ty` is present.
    fn has_type(&self, ty: ContentType) -> (r: bool)
        ensures
            r == has_type(self@, ty),
    {
        let mut i: usize = 0;
        while i < self.entries.len()
            invariant
                i <= self@.len(),
                self@.len() == self.entries@.len(),
                forall|j: int| 0 <= j < i ==> self@[j].0.0 != ty,
            decreases self@.len() - i,
        {
            if self.entries[i].0.0 == ty {
                assert(self@[i as int].0.0 == ty);
                return true;
            }
            i = i + 1;
        }
        false
    }

    /// Set the requirement of slot `idx`, replacing the one it had.
    pub fn insert(&mut self, idx: &ContentIndex, content: ContentRequirement)
        ensures
            final(self)@ == put(old(self)@, idx@, content@),
    {
        match self.find(idx) {
            Some(i) => {
                self.set_at(i, content);
            },
            None => {
                self.push_new(idx, content);
            },
        }
        assert(final(self)@ =~= put(old(self)@, idx@, content@));
    }
}

impl PartialEq for RequiredContent {
    /// Equal when both map the same slots to the same requirements.
    fn eq(&self, other: &RequiredContent) -> (r: bool)
        ensures
            r == (slot_map(self@) == slot_map(other@)),
    {
        let r = self.covered_by(other) && other.covered_by(self);
        proof {
            if r {
                assert(slot_map(self@) =~= slot_map(other@));
            } else {
                if slot_map(self@) == slot_map(other@) {
                    assert forall|k: Slot| has_slot(self@, k) implies has_slot(other@, k)
                        && value_of(self@, k) == value_of(other@, k) by {
                        assert(slot_map(self@).contains_key(k));
                        assert(slot_map(other@).contains_key(k));
                        assert(slot_map(self@)[k] == slot_map(other@)[k]);
                    }
                    assert forall|k: Slot| has_slot(other@, k) implies has_slot(self@, k)
                        && value_of(other@, k) == value_of(self@, k) by {
                        assert(slot_map(other@).contains_key(k));
                        assert(slot_map(self@).contains_key(k));
                        assert(slot_map(self@)[k] == slot_map(other@)[k]);
                    }
                }
            }
        }
        r
    }
}

impl vstd::std_specs::cmp::PartialEqSpecImpl for RequiredContent {
    open spec fn obeys_eq_spec() -> bool {
        true
    }

    open spec fn eq_spec(&self, other: &RequiredContent) -> bool {
        slot_map(self@) == slot_map(other@)
    }
}

impl RequiredContent {
    /// Whether every slot here is present in `other` with the same requirement.
    fn covered_by(&self, other: &RequiredContent) -> (r: bool)
        ensures
            r == forall|k: Slot|
                has_slot(self@, k) ==> has_slot(other@, k) && value_of(self@, k) == value_of(
                    other@,
                    k,
                ),
    {
        let mut i: usize = 0;
        while i < self.entries.len()
            invariant
                i <= self@.len(),
                self@.len() == self.entries@.len(),
                forall|j: int|
                    0 <= j < i ==> has_slot(other@, #[trigger] self@[j].0) && value_of(
                        self@,
                        self@[j].0,
                    ) == value_of(other@, self@[j].0),
            decreases self@.len() - i,
        {
            let idx = &self.entries[i].0;
            let first = self.find(idx);
            let there = other.find(idx);
            proof {
                lemma_find_from(self@, idx@, 0);
                assert(self@[i as int].0 == idx@);
            }
            match (first, there) {
                (Some(a), Some(b)) => {
                    if !self.entries[a].1.same(&other.entries[b].1) {
                        proof {
                            assert(has_slot(self@, idx@));
                            assert(value_of(self@, idx@) == self@[a as int].1);
                        }
                        return false;
                    }
                },
                _ => {
                    proof {
                        assert(has_slot(self@, idx@));
                    }
                    return false;
                },
            }
            i = i + 1;
        }
        proof {
            assert forall|k: Slot| has_slot(self@, k) implies has_slot(other@, k) && value_of(
                self@,
                k,
            ) == value_of(other@, k) by {
                lemma_find_from(self@, k, 0);
                let j = slot_index(self@, k);
                assert(self@[j].0 == k);
            }
        }
        true
    }
}

/// Draft `token` into `map`; returns what a slot defaulting to it requires.
fn draft_token_into(token: &ContentToken, map: &mut RequiredContent) -> (r: ContentRequirement)
    requires
        token_wf(token@),
    ensures
        (r@, final(map)@) == draft_token(token@, old(map)@),
    decreases token,
{
    match token {
        ContentToken::Text(text) => {
            let r = ContentRequirement::Literal(text.clone());
            assert(token@ == Token::Text(text@));
            r
        },
        ContentToken::Constant(ident) => {
            let token_idx = ContentIndex(ContentType::Constant, ident.clone());
            map.insert(&token_idx, ContentRequirement::Unset);
            ContentRequirement::Default(token_idx)
        },
        ContentToken::Key(ident, default) => {
            let token_idx = ContentIndex(ContentType::Key, ident.clone());
            match default {
                Some(default_box) => {
                    let default = draft_token_into(&**default_box, map);
                    map.insert(&token_idx, default);
                },
                None => map.insert(&token_idx, ContentRequirement::Unset),
            }
            ContentRequirement::Default(token_idx)
        },
        ContentToken::Option(key_box) => {
            proof {
                        assert(token_wf((**key_box)@));
            }
            match &**key_box {
                ContentToken::Key(ident, default) => {
                    let token_idx = ContentIndex(ContentType::Option, ident.clone());
                    match default {
                        Some(default_box) => {
                            let default = draft_token_into(&**default_box, map);
                            map.insert(&token_idx, default);
                        },
                        None => map.insert(&token_idx, ContentRequirement::Unset),
                    }
                    ContentRequirement::Default(token_idx)
                },
                _ => ContentRequirement::Unset,
            }
        },
    }
}

impl ContentTokens {
    /// The requirements this template declares. A key or option with a
    /// default requires what its default resolves to; one without requires a
    /// value. A slot declared twice keeps its last declaration.
    pub fn draft(&self) -> (r: RequiredContent)
        requires
            self.wf(),
        ensures
            r@ == draft_all(self.tokens()),
    {
        let mut map = RequiredContent::new();
        let tokens = self.tokens_ref();
        let mut i: usize = 0;
        while i < tokens.len()
            invariant
                self.wf(),
                tokens@.map_values(|t: ContentToken| t@) == self.tokens(),
                i <= tokens@.len(),
                map@ == draft_all(self.tokens().take(i as int)),
            decreases tokens@.len() - i,
        {
            proof {
                assert(self.tokens()[i as int] == tokens@[i as int]@);
                assert(self.tokens().take(i as int + 1).drop_last() =~= self.tokens().take(i as int));
            }
            draft_token_into(&tokens[i], &mut map);
            i = i + 1;
        }
        proof {
            assert(self.tokens().take(i as int) =~= self.tokens());
        }
        map
    }
}

// ---------------------------------------------------------------------------
// Content tables supplied from outside.

/// The author's fixed configuration: constants, and for each option the
/// content of each of its choices.
#[derive(Debug)]
pub struct ContentState {
    /// Constant identifiers to content.
    pub constants: IdentMap<Content>,
    /// Option identifiers to choice identifiers to content.
    pub options: IdentMap<IdentMap<Content>>,
}

impl ContentState {
    /// Empty tables.
    pub fn new() -> (r: Self)
        ensures
            r.constants@ == Map::<Seq<char>, Seq<char>>::empty(),
            r.options@ == Map::<Seq<char>, Map<Seq<char>, Seq<char>>>::empty(),
    {
        ContentState { constants: IdentMap::new(), options: IdentMap::new() }
    }

    /// Map constant `ident` to `content`.
    pub fn map_constant(&mut self, ident: &str, content: &str)
        ensures
            final(self).constants@ == old(self).constants@.insert(ident@, content@),
            final(self).options@ == old(self).options@,
    {
        self.constants.insert(ident.to_owned(), content.to_owned());
    }

    /// Add `choice`, a pair of choice identifier and content, to option `option`.
    pub fn map_option(&mut self, option: &str, choice: (Ident, Content))
        ensures
            final(self).constants@ == old(self).constants@,
            final(self).options@ == old(self).options@.insert(
                option@,
                if old(self).options@.contains_key(option@) {
                    old(self).options@[option@]
                } else {
                    Map::empty()
                }.insert(choice.0@, choice.1@),
            ),
    {
        let option = option.to_owned();
        let (ident, content) = choice;
        let mut choices = match self.options.remove(&option) {
            Some(choices) => choices,
            None => IdentMap::new(),
        };
        choices.insert(ident, content);
        self.options.insert(option, choices);
        proof {
            assert(final(self).options@ =~= old(self).options@.insert(
                option@,
                if old(self).options@.contains_key(option@) {
                    old(self).options@[option@]
                } else {
                    Map::empty()
                }.insert(choice.0@, choice.1@),
            ));
        }
    }
}

impl Default for ContentState {
    fn default() -> (r: Self)
        ensures
            r.constants@ == Map::<Seq<char>, Seq<char>>::empty(),
            r.options@ == Map::<Seq<char>, Map<Seq<char>, Seq<char>>>::empty(),
    {
        Self::new()
    }
}

/// A pair of choice identifier and content, as `ContentState::map_option` takes it.
pub fn new_choice(ident: &str, content: &str) -> (r: (Ident, Content))
    ensures
        r.0@ == ident@,
        r.1@ == content@,
{
    (ident.to_owned(), content.to_owned())
}

/// The end user's input: values of keys, and the choice made for each option.
#[derive(Debug, PartialEq)]
pub struct VolatileContent {
    /// Key identifiers to content.
    pub keys: IdentMap<Content>,
    /// Option identifiers to choice identifiers.
    pub choices: IdentMap<Ident>,
}

impl VolatileContent {
    /// Empty tables.
    pub fn new() -> (r: Self)
        ensures
            r.keys@ == Map::<Seq<char>, Seq<char>>::empty(),
            r.choices@ == Map::<Seq<char>, Seq<char>>::empty(),
    {
        VolatileContent { keys: IdentMap::new(), choices: IdentMap::new() }
    }

    /// Map key `ident` to `content`.
    pub fn map_key(&mut self, ident: &str, content: &str)
        ensures
            final(self).keys@ == old(self).keys@.insert(ident@, content@),
            final(self).choices@ == old(self).choices@,
    {
        self.keys.insert(ident.to_owned(), content.to_owned());
    }

    /// Choose `choice` for option `option`.
    pub fn map_choice(&mut self, option: &str, choice: &str)
        ensures
            final(self).keys@ == old(self).keys@,
            final(self).choices@ == old(self).choices@.insert(option@, choice@),
    {
        self.choices.insert(option.to_owned(), choice.to_owned());
    }
}

impl Default for VolatileContent {
    fn default() -> (r: Self)
        ensures
            r.keys@ == Map::<Seq<char>, Seq<char>>::empty(),
            r.choices@ == Map::<Seq<char>, Seq<char>>::empty(),
    {
        Self::new()
    }
}

// ---------------------------------------------------------------------------
// Merging the tables into the draft.

/// The requirement of entry `entry` once the table `table` of namespace `ty`
/// has been merged: a slot of that namespace whose identifier the table
/// maps takes the mapped value.
pub open spec fn merged_entry(
    entry: (Slot, Requirement),
    ty: ContentType,
    table: Map<Seq<char>, Seq<char>>,
) -> (Slot, Requirement) {
    if entry.0.0 == ty && table.contains_key(entry.0.1) {
        (entry.0, Requirement::Literal(table[entry.0.1]))
    } else {
        entry
    }
}

/// The entries with the table of namespace `ty` merged.
pub open spec fn merge_table(
    e: Seq<(Slot, Requirement)>,
    ty: ContentType,
    table: Map<Seq<char>, Seq<char>>,
) -> Seq<(Slot, Requirement)> {
    e.map_values(|entry: (Slot, Requirement)| merged_entry(entry, ty, table))
}

/// The content chosen for each option: the choice's content where a choice
/// is made for the option and the option offers it.
pub open spec fn chosen_contents(
    choices: Map<Seq<char>, Seq<char>>,
    options: Map<Seq<char>, Map<Seq<char>, Seq<char>>>,
) -> Map<Seq<char>, Seq<char>> {
    Map::new(
        |id: Seq<char>|
            choices.contains_key(id) && options.contains_key(id) && options[id].contains_key(
                choices[id],
            ),
        |id: Seq<char>| options[id][choices[id]],
    )
}

impl RequiredContent {
    /// Merge the value table of namespace `ty` into the entries of that namespace.
    fn merge_values(&mut self, ty: ContentType, table: &IdentMap<Content>)
        ensures
            final(self)@ == merge_table(old(self)@, ty, table@),
    {
        let n = self.entries.len();
        let mut i: usize = 0;
        while i < n
            invariant
                n == self@.len() == old(self)@.len(),
                self@.len() == self.entries@.len(),
                i <= n,
                forall|j: int|
                    0 <= j < i ==> self@[j] == merged_entry(#[trigger] old(self)@[j], ty, table@),
                forall|j: int| i <= j < n ==> self@[j] == old(self)@[j],
            decreases n - i,
        {
            if self.entries[i].0.0 == ty {
                match table.get(&self.entries[i].0.1) {
                    Some(value) => {
                        self.set_at(i, ContentRequirement::Literal(value.clone()));
                    },
                    None => {},
                }
            }
            proof {
                assert(self@[i as int] == merged_entry(old(self)@[i as int], ty, table@));
            }
            i = i + 1;
        }
        assert(final(self)@ =~= merge_table(old(self)@, ty, table@));
    }

    /// Take the value of every constant slot that `constants` maps.
    pub fn add_constants(&mut self, constants: IdentMap<Content>)
        ensures
            final(self)@ == merge_table(old(self)@, ContentType::Constant, constants@),
    {
        self.merge_values(ContentType::Constant, &constants);
    }

    /// Take the value of every key slot that `keys` maps.
    pub fn add_keys(&mut self, keys: IdentMap<Content>)
        ensures
            final(self)@ == merge_table(old(self)@, ContentType::Key, keys@),
    {
        self.merge_values(ContentType::Key, &keys);
    }

    /// Take, for every option slot, the content of the choice made for it,
    /// where a choice is made and the option offers it.
    pub fn add_options(&mut self, choices: IdentMap<Ident>, options: IdentMap<IdentMap<Content>>)
        ensures
            final(self)@ == merge_table(
                old(self)@,
                ContentType::Option,
                chosen_contents(choices@, options@),
            ),
    {
        let n = self.entries.len();
        let ghost table = chosen_contents(choices@, options@);
        let mut i: usize = 0;
        while i < n
            invariant
                n == self@.len() == old(self)@.len(),
                self@.len() == self.entries@.len(),
                i <= n,
                table == chosen_contents(choices@, options@),
                forall|j: int|
                    0 <= j < i ==> self@[j] == merged_entry(#[trigger] old(self)@[j], ContentType::Option, table),
                forall|j: int| i <= j < n ==> self@[j] == old(self)@[j],
            decreases n - i,
        {
            if self.entries[i].0.0 == ContentType::Option {
                let ident = &self.entries[i].0.1;
                match (options.get(ident), choices.get(ident)) {
                    (Some(option), Some(choice)) => {
                        match option.get(choice) {
                            Some(content) => {
                                self.set_at(i, ContentRequirement::Literal(content.clone()));
                            },
                            None => {},
                        }
                    },
                    _ => {},
                }
            }
            proof {
                assert(self@[i as int] == merged_entry(old(self)@[i as int], ContentType::Option, table));
            }
            i = i + 1;
        }
        assert(final(self)@ =~= merge_table(old(self)@, ContentType::Option, table));
    }
}

// ---------------------------------------------------------------------------
// Resolution.

/// Why a draft could not be resolved, with the slot concerned.
#[derive(Debug)]
pub enum FillOutError {
    /// The slot has no value and no default.
    MissingElement(ContentIndex),
    /// The slot's value is empty.
    EmptyContent(ContentIndex),
    /// A default names a slot whose namespace holds no slot at all.
    MissingDefaultType(ContentIndex),
    /// A default names a slot that is not declared.
    MissingDefault(ContentIndex),
    /// A chain of defaults leads back to a slot it already passed.
    CyclicDefault(ContentIndex),
}

/// How a resolution failure reads in messages.
pub open spec fn failure_text(f: Failure) -> Seq<char> {
    match f {
        Failure::MissingElement(k) => "The given content is missing an element "@ + slot_text(k),
        Failure::EmptyContent(k) => "The given content for the entry "@ + slot_text(k) + " is empty"@,
        Failure::MissingDefaultType(k) => "The type of a requested default "@ + slot_text(k)
            + " does not exist"@,
        Failure::MissingDefault(k) => "The identifier of a requested default "@ + slot_text(k)
            + " does not exist"@,
        Failure::CyclicDefault(k) => "The chain of defaults through "@ + slot_text(k)
            + " leads back to itself"@,
    }
}

impl FillOutError {
    /// The failure as a message.
    pub fn message(&self) -> (r: String)
        ensures
            r@ == failure_text(self@),
    {
        let mut m = String::new();
        match self {
            FillOutError::MissingElement(k) => {
                push_text(&mut m, "The given content is missing an element ");
                let slot = k.message();
                push_text(&mut m, slot.as_str());
            },
            FillOutError::EmptyContent(k) => {
                push_text(&mut m, "The given content for the entry ");
                let slot = k.message();
                push_text(&mut m, slot.as_str());
                push_text(&mut m, " is empty");
            },
            FillOutError::MissingDefaultType(k) => {
                push_text(&mut m, "The type of a requested default ");
                let slot = k.message();
                push_text(&mut m, slot.as_str());
                push_text(&mut m, " does not exist");
            },
            FillOutError::MissingDefault(k) => {
                push_text(&mut m, "The identifier of a requested default ");
                let slot = k.message();
                push_text(&mut m, slot.as_str());
                push_text(&mut m, " does not exist");
            },
            FillOutError::CyclicDefault(k) => {
                push_text(&mut m, "The chain of defaults through ");
                let slot = k.message();
                push_text(&mut m, slot.as_str());
                push_text(&mut m, " leads back to itself");
            },
        }
        assert(m@ =~= failure_text(self@));
        m
    }
}

/// The model of a `FillOutError`.
pub enum Failure {
    MissingElement(Slot),
    EmptyContent(Slot),
    MissingDefaultType(Slot),
    MissingDefault(Slot),
    CyclicDefault(Slot),
}

impl View for FillOutError {
    type V = Failure;

    open spec fn view(&self) -> Failure {
        match self {
            FillOutError::MissingElement(i) => Failure::MissingElement(i@),
            FillOutError::EmptyContent(i) => Failure::EmptyContent(i@),
            FillOutError::MissingDefaultType(i) => Failure::MissingDefaultType(i@),
            FillOutError::MissingDefault(i) => Failure::MissingDefault(i@),
            FillOutError::CyclicDefault(i) => Failure::CyclicDefault(i@),
        }
    }
}

/// The value that requirement `r` of slot `k` resolves to, following at
/// most `fuel` defaults. A chain longer than the number of slots must pass
/// some slot twice, so with that many steps only a cyclic chain runs out.
pub open spec fn resolve_requirement(
    e: Seq<(Slot, Requirement)>,
    k: Slot,
    r: Requirement,
    fuel: nat,
) -> Result<Seq<char>, Failure>
    decreases fuel,
{
    match r {
        Requirement::Unset => Err(Failure::MissingElement(k)),
        Requirement::Literal(text) => if text.len() == 0 {
            Err(Failure::EmptyContent(k))
        } else {
            Ok(text)
        },
        Requirement::Default(t) => if !has_type(e, t.0) {
            Err(Failure::MissingDefaultType(t))
        } else if !has_slot(e, t) {
            Err(Failure::MissingDefault(t))
        } else if fuel == 0 {
            Err(Failure::CyclicDefault(t))
        } else {
            resolve_requirement(e, t, value_of(e, t), (fuel - 1) as nat)
        },
    }
}

/// The value entry `i` resolves to.
pub open spec fn resolve_entry(e: Seq<(Slot, Requirement)>, i: int) -> Result<Seq<char>, Failure> {
    resolve_requirement(e, e[i].0, e[i].1, e.len())
}

/// The resolved values of the first `n` entries, or the failure of the
/// first of them that does not resolve.
pub open spec fn resolve_prefix(e: Seq<(Slot, Requirement)>, n: nat) -> Result<
    Seq<(Slot, Seq<char>)>,
    Failure,
>
    decreases n,
{
    if n == 0 {
        Ok(Seq::empty())
    } else {
        match resolve_prefix(e, (n - 1) as nat) {
            Err(f) => Err(f),
            Ok(done) => match resolve_entry(e, n - 1) {
                Ok(v) => Ok(done.push((e[n - 1].0, v))),
                Err(f) => Err(f),
            },
        }
    }
}

/// Every entry resolved, in order; or the failure of the first entry that
/// does not resolve.
pub open spec fn resolve(e: Seq<(Slot, Requirement)>) -> Result<Seq<(Slot, Seq<char>)>, Failure> {
    resolve_prefix(e, e.len())
}

/// The fully resolved content of every slot of a template.
#[derive(Debug)]
pub struct FullContent {
    entries: Vec<(ContentIndex, Content)>,
}

impl View for FullContent {
    type V = Seq<(Slot, Seq<char>)>;

    closed spec fn view(&self) -> Seq<(Slot, Seq<char>)> {
        self.entries@.map_values(|e: (ContentIndex, Content)| (e.0@, e.1@))
    }
}

impl FullContent {
    #[verifier::type_invariant]
    spec fn each_slot_once(&self) -> bool {
        slots_unique(self@)
    }

    /// The content of slot `idx`.
    pub fn get(&self, idx: ContentIndex) -> (r: &Content)
        requires
            has_slot(self@, idx@),
        ensures
            r@ == value_of(self@, idx@),
    {
        proof {
            lemma_find_from(self@, idx@, 0);
        }
        let mut i: usize = 0;
        while i < self.entries.len()
            invariant
                i <= self@.len(),
                self@.len() == self.entries@.len(),
                has_slot(self@, idx@),
                find_from(self@, idx@, 0) == find_from(self@, idx@, i as int),
            decreases self@.len() - i,
        {
            if self.entries[i].0.same_slot(&idx) {
                return &self.entries[i].1;
            }
            i = i + 1;
        }
        proof {
            lemma_find_from(self@, idx@, i as int);
        }
        &self.entries[0].1
    }
}

impl RequiredContent {
    /// The value entry `i` resolves to.
    fn resolve_at(&self, i: usize) -> (r: Result<Content, FillOutError>)
        requires
            i < self@.len(),
        ensures
            match r {
                Ok(v) => resolve_entry(self@, i as int) == Ok::<Seq<char>, Failure>(v@),
                Err(f) => resolve_entry(self@, i as int) == Err::<Seq<char>, Failure>(f@),
            },
    {
        let n = self.entries.len();
        let mut j: usize = i;
        let mut fuel: usize = n;
        loop
            invariant
                n == self@.len() == self.entries@.len(),
                j < n,
                i < n,
                resolve_requirement(self@, self@[j as int].0, self@[j as int].1, fuel as nat)
                    == resolve_entry(self@, i as int),
            decreases fuel,
        {
            match &self.entries[j].1 {
                ContentRequirement::Unset => {
                    return Err(FillOutError::MissingElement(self.entries[j].0.clone()));
                },
                ContentRequirement::Literal(text) => {
                    if text.as_str().is_empty() {
                        return Err(FillOutError::EmptyContent(self.entries[j].0.clone()));
                    } else {
                        return Ok(text.clone());
                    }
                },
                ContentRequirement::Default(target) => {
                    if !self.has_type(target.0) {
                        return Err(FillOutError::MissingDefaultType(target.clone()));
                    }
                    match self.find(target) {
                        None => {
                            return Err(FillOutError::MissingDefault(target.clone()));
                        },
                        Some(m) => {
                            if fuel == 0 {
                                return Err(FillOutError::CyclicDefault(target.clone()));
                            }
                            j = m;
                            fuel = fuel - 1;
                        },
                    }
                },
            }
        }
    }

    /// Resolve every slot: a literal resolves to itself unless it is empty,
    /// a default to what its target slot resolves to. Fails with the failure
    /// of the first slot, in order, that does not resolve.
    pub fn try_resolve(&self) -> (r: Result<FullContent, FillOutError>)
        ensures
            match r {
                Ok(full) => resolve(self@) == Ok::<Seq<(Slot, Seq<char>)>, Failure>(full@),
                Err(f) => resolve(self@) == Err::<Seq<(Slot, Seq<char>)>, Failure>(f@),
            },
    {
        proof {
            use_type_invariant(self);
        }
        let n = self.entries.len();
        let mut entries: Vec<(ContentIndex, Content)> = Vec::new();
        let mut i: usize = 0;
        assert(entries@.map_values(|e: (ContentIndex, Content)| (e.0@, e.1@)) =~= Seq::empty());
        while i < n
            invariant
                n == self@.len() == self.entries@.len(),
                i <= n,
                slots_unique(self@),
                entries@.len() == i,
                forall|j: int| 0 <= j < i ==> (#[trigger] entries@[j]).0@ == self@[j].0,
                resolve_prefix(self@, i as nat) == Ok::<Seq<(Slot, Seq<char>)>, Failure>(
                    entries@.map_values(|e: (ContentIndex, Content)| (e.0@, e.1@)),
                ),
            decreases n - i,
        {
            match self.resolve_at(i) {
                Ok(value) => {
                    let ghost before = entries@.map_values(|e: (ContentIndex, Content)| (e.0@, e.1@));
                    entries.push((self.entries[i].0.clone(), value));
                    proof {
                        assert(entries@.map_values(|e: (ContentIndex, Content)| (e.0@, e.1@))
                            =~= before.push((self@[i as int].0, value@)));
                    }
                },
                Err(f) => {
                    proof {
                        lemma_resolve_prefix_fails(self@, i as nat + 1, n as nat);
                    }
                    return Err(f);
                },
            }
            i = i + 1;
        }
        proof {
            let v = entries@.map_values(|e: (ContentIndex, Content)| (e.0@, e.1@));
            assert forall|a: int, b: int| 0 <= a < b < v.len() implies v[a].0 != v[b].0 by {
                assert(v[a].0 == entries@[a].0@);
                assert(v[b].0 == entries@[b].0@);
            }
        }
        Ok(FullContent { entries })
    }
}

proof fn lemma_resolve_prefix_fails(e: Seq<(Slot, Requirement)>, m: nat, n: nat)
    requires
        m <= n <= e.len(),
        resolve_prefix(e, m) is Err,
    ensures
        resolve_prefix(e, n) == resolve_prefix(e, m),
    decreases n - m,
{
    if n > m {
        lemma_resolve_prefix_fails(e, m, (n - 1) as nat);
    }
}

// ---------------------------------------------------------------------------
// Rendering.

/// The slot whose content a top-level token renders, if any.
pub open spec fn token_slot(t: Token) -> Option<Slot> {
    match t {
        Token::Text(_) => None,
        Token::Constant(id) => Some((ContentType::Constant, id)),
        Token::Key(id, _) => Some((ContentType::Key, id)),
        Token::Option(key) => match *key {
            Token::Key(id, _) => Some((ContentType::Option, id)),
            _ => None,
        },
    }
}

/// What one token renders to: text verbatim, a placeholder as its slot's content.
pub open spec fn render_token(t: Token, full: Seq<(Slot, Seq<char>)>) -> Seq<char> {
    match t {
        Token::Text(text) => text,
        _ => match token_slot(t) {
            Some(k) => value_of(full, k),
            None => Seq::empty(),
        },
    }
}

/// The rendering of a token sequence: the renderings of its tokens, concatenated.
pub open spec fn render(ts: Seq<Token>, full: Seq<(Slot, Seq<char>)>) -> Seq<char>
    decreases ts.len(),
{
    if ts.len() == 0 {
        Seq::empty()
    } else {
        render(ts.drop_last(), full) + render_token(ts.last(), full)
    }
}

/// Every slot that a top-level token renders is present in `full`.
pub open spec fn renders_from<T>(ts: Seq<Token>, full: Seq<(Slot, T)>) -> bool {
    forall|i: int|
        0 <= i < ts.len() && (#[trigger] token_slot(ts[i])) is Some ==> has_slot(
            full,
            token_slot(ts[i])->0,
        )
}

impl ContentTokens {
    /// Substitute every placeholder with its content from `content`.
    pub fn fill_out(&self, content: FullContent) -> (r: String)
        requires
            self.wf(),
            renders_from(self.tokens(), content@),
        ensures
            r@ == render(self.tokens(), content@),
    {
        let tokens = self.tokens_ref();
        let mut output = String::new();
        let mut i: usize = 0;
        while i < tokens.len()
            invariant
                self.wf(),
                renders_from(self.tokens(), content@),
                tokens@.map_values(|t: ContentToken| t@) == self.tokens(),
                i <= tokens@.len(),
                output@ == render(self.tokens().take(i as int), content@),
            decreases tokens@.len() - i,
        {
            let ghost t = self.tokens()[i as int];
            proof {
                assert(t == tokens@[i as int]@);
                assert(token_wf(t));
                assert(self.tokens().take(i as int + 1).drop_last() =~= self.tokens().take(i as int));
            }
            match &tokens[i] {
                ContentToken::Text(text) => push_text(&mut output, text.as_str()),
                ContentToken::Constant(ident) => {
                    proof {
                        assert(token_slot(t) == Some((ContentType::Constant, ident@)));
                    }
                    let value = content.get(ContentIndex(ContentType::Constant, ident.clone()));
                    push_text(&mut output, value.as_str());
                },
                ContentToken::Key(ident, _) => {
                    proof {
                        assert(t is Key);
                        assert(token_slot(t) == Some((ContentType::Key, ident@)));
                    }
                    let value = content.get(ContentIndex(ContentType::Key, ident.clone()));
                    push_text(&mut output, value.as_str());
                },
                ContentToken::Option(key_box) => {
                    match &**key_box {
                        ContentToken::Key(ident, _) => {
                            proof {
                                assert((**key_box)@ == token_model(&**key_box));
                                assert(token_model(&**key_box) is Key);
                                assert(token_model(&**key_box)->Key_0 == ident@);
                                assert(t == Token::Option(Box::new(token_model(&**key_box))));
                                assert(token_slot(t) == Some((ContentType::Option, ident@)));
                            }
                            let value = content.get(ContentIndex(ContentType::Option, ident.clone()));
                            push_text(&mut output, value.as_str());
                        },
                        _ => {},
                    }
                },
            }
            proof {
                assert(output@ == render(self.tokens().take(i as int), content@) + render_token(t, content@));
            }
            i = i + 1;
        }
        proof {
            assert(self.tokens().take(i as int) =~= self.tokens());
        }
        output
    }
}

// ---------------------------------------------------------------------------
// Pre-filling the end user's tables.

/// The literal that requirement `r` leads to, following at most `fuel`
/// defaults; empty where there is none.
pub open spec fn literal_of(e: Seq<(Slot, Requirement)>, r: Requirement, fuel: nat) -> Seq<char>
    decreases fuel,
{
    match r {
        Requirement::Unset => Seq::empty(),
        Requirement::Literal(text) => text,
        Requirement::Default(t) => if has_slot(e, t) && fuel > 0 {
            literal_of(e, value_of(e, t), (fuel - 1) as nat)
        } else {
            Seq::empty()
        },
    }
}

/// The table of namespace `ty` pre-filled from the first `n` entries: each
/// identifier of that namespace mapped to the literal its requirement leads to.
pub open spec fn drafted_table(e: Seq<(Slot, Requirement)>, ty: ContentType, n: nat) -> Map<
    Seq<char>,
    Seq<char>,
>
    decreases n,
{
    if n == 0 {
        Map::empty()
    } else {
        let m = drafted_table(e, ty, (n - 1) as nat);
        if e[n - 1].0.0 == ty {
            m.insert(e[n - 1].0.1, literal_of(e, e[n - 1].1, e.len()))
        } else {
            m
        }
    }
}

impl RequiredContent {
    /// The literal that entry `i` leads to.
    fn literal_at(&self, i: usize) -> (r: String)
        requires
            i < self@.len(),
        ensures
            r@ == literal_of(self@, self@[i as int].1, self@.len()),
    {
        let n = self.entries.len();
        let mut j: usize = i;
        let mut fuel: usize = n;
        loop
            invariant
                n == self@.len() == self.entries@.len(),
                j < n,
                i < n,
                literal_of(self@, self@[j as int].1, fuel as nat) == literal_of(
                    self@,
                    self@[i as int].1,
                    n as nat,
                ),
            decreases fuel,
        {
            match &self.entries[j].1 {
                ContentRequirement::Unset => {
                    return String::new();
                },
                ContentRequirement::Literal(text) => {
                    return text.clone();
                },
                ContentRequirement::Default(target) => {
                    match self.find(target) {
                        Some(m) => {
                            if fuel == 0 {
                                return String::new();
                            }
                            j = m;
                            fuel = fuel - 1;
                        },
                        None => {
                            return String::new();
                        },
                    }
                },
            }
        }
    }

    /// Tables for the end user to fill in: every key and every option this
    /// draft declares, with the literal its default leads to, or empty.
    pub fn draft_volatile_content(&self) -> (r: VolatileContent)
        ensures
            r.keys@ == drafted_table(self@, ContentType::Key, self@.len()),
            r.choices@ == drafted_table(self@, ContentType::Option, self@.len()),
    {
        let mut vc = VolatileContent::new();
        let n = self.entries.len();
        let mut i: usize = 0;
        while i < n
            invariant
                n == self@.len() == self.entries@.len(),
                i <= n,
                vc.keys@ == drafted_table(self@, ContentType::Key, i as nat),
                vc.choices@ == drafted_table(self@, ContentType::Option, i as nat),
            decreases n - i,
        {
            let ty = self.entries[i].0.0;
            match ty {
                ContentType::Key => {
                    let literal = self.literal_at(i);
                    vc.keys.insert(self.entries[i].0.1.clone(), literal);
                },
                ContentType::Option => {
                    let literal = self.literal_at(i);
                    vc.choices.insert(self.entries[i].0.1.clone(), literal);
                },
                ContentType::Constant => {},
            }
            i = i + 1;
        }
        vc
    }
}

// ---------------------------------------------------------------------------
// Which slots are present.

/// Both sequences have the same slots at the same positions.
pub open spec fn same_slots<A, B>(e1: Seq<(Slot, A)>, e2: Seq<(Slot, B)>) -> bool {
    &&& e1.len() == e2.len()
    &&& forall|j: int| 0 <= j < e1.len() ==> (#[trigger] e1[j]).0 == e2[j].0
}

pub proof fn lemma_same_slots_find<A, B>(e1: Seq<(Slot, A)>, e2: Seq<(Slot, B)>, k: Slot, i: int)
    requires
        same_slots(e1, e2),
    ensures
        find_from(e1, k, i) == find_from(e2, k, i),
    decreases e1.len() - i,
{
    if 0 <= i < e1.len() {
        assert(e1[i].0 == e2[i].0);
        lemma_same_slots_find(e1, e2, k, i + 1);
    }
}

/// `put` keeps every slot present and adds its own.
pub proof fn lemma_put_slots<T>(e: Seq<(Slot, T)>, k: Slot, v: T)
    ensures
        has_slot(put(e, k, v), k),
        forall|k2: Slot| has_slot(e, k2) ==> has_slot(put(e, k, v), k2),
{
    lemma_find_from(e, k, 0);
    let e2 = put(e, k, v);
    if has_slot(e, k) {
        let i = slot_index(e, k);
        assert forall|k2: Slot| has_slot(e, k2) implies has_slot(e2, k2) by {
            assert(same_slots(e, e2));
            lemma_same_slots_find(e, e2, k2, 0);
        }
        assert(same_slots(e, e2));
        lemma_same_slots_find(e, e2, k, 0);
    } else {
        assert forall|k2: Slot| has_slot(e, k2) implies has_slot(e2, k2) by {
            lemma_find_from(e, k2, 0);
            lemma_find_from(e2, k2, 0);
            let i = slot_index(e, k2);
            assert(e2[i].0 == k2);
        }
        lemma_find_from(e2, k, 0);
        assert(e2[e.len() as int].0 == k);
    }
}

/// Drafting a token keeps every slot present and adds the token's own.
pub proof fn lemma_draft_token_slots(t: Token, e: Seq<(Slot, Requirement)>)
    ensures
        forall|k: Slot| has_slot(e, k) ==> has_slot(draft_token(t, e).1, k),
        token_slot(t) is Some ==> has_slot(draft_token(t, e).1, token_slot(t)->0),
    decreases t,
{
    match t {
        Token::Text(_) => {},
        Token::Constant(id) => {
            lemma_put_slots(e, (ContentType::Constant, id), Requirement::Unset);
        },
        Token::Key(id, default) => {
            let (d, e2) = match default {
                Some(b) => {
                    lemma_draft_token_slots(*b, e);
                    draft_token(*b, e)
                },
                None => (Requirement::Unset, e),
            };
            lemma_put_slots(e2, (ContentType::Key, id), d);
        },
        Token::Option(key) => match *key {
            Token::Key(id, default) => {
                let (d, e2) = match default {
                    Some(b) => {
                        lemma_draft_token_slots(*b, e);
                        draft_token(*b, e)
                    },
                    None => (Requirement::Unset, e),
                };
                lemma_put_slots(e2, (ContentType::Option, id), d);
            },
            _ => {},
        },
    }
}

/// The draft holds the slot of every top-level token.
pub proof fn lemma_draft_all_slots(ts: Seq<Token>)
    ensures
        renders_from(ts, draft_all(ts)),
    decreases ts.len(),
{
    if ts.len() > 0 {
        let init = ts.drop_last();
        lemma_draft_all_slots(init);
        lemma_draft_token_slots(ts.last(), draft_all(init));
        assert forall|i: int|
            0 <= i < ts.len() && (#[trigger] token_slot(ts[i])) is Some implies has_slot(
            draft_all(ts),
            token_slot(ts[i])->0,
        ) by {
            if i < ts.len() - 1 {
                assert(ts[i] == init[i]);
            }
        }
    }
}

/// Merging a table keeps the slots.
pub proof fn lemma_merge_slots(
    e: Seq<(Slot, Requirement)>,
    ty: ContentType,
    table: Map<Seq<char>, Seq<char>>,
)
    ensures
        same_slots(e, merge_table(e, ty, table)),
{
}

/// Resolution keeps the slots.
pub proof fn lemma_resolve_slots(e: Seq<(Slot, Requirement)>, n: nat)
    requires
        n <= e.len(),
        resolve_prefix(e, n) is Ok,
    ensures
        same_slots(e.take(n as int), resolve_prefix(e, n)->Ok_0),
    decreases n,
{
    if n > 0 {
        lemma_resolve_slots(e, (n - 1) as nat);
        let done = resolve_prefix(e, (n - 1) as nat)->Ok_0;
        assert forall|j: int| 0 <= j < n implies (#[trigger] e.take(n as int)[j]).0
            == resolve_prefix(e, n)->Ok_0[j].0 by {
            if j < n - 1 {
                assert(e.take(n as int)[j] == e.take(n - 1)[j]);
            }
        }
    }
}

/// Rendering only needs the slots of the tokens, which slot-preserving
/// steps keep.
pub proof fn lemma_renders_from_same_slots<A, B>(
    ts: Seq<Token>,
    e1: Seq<(Slot, A)>,
    e2: Seq<(Slot, B)>,
)
    requires
        renders_from(ts, e1),
        same_slots(e1, e2),
    ensures
        renders_from(ts, e2),
{
    assert forall|i: int|
        0 <= i < ts.len() && (#[trigger] token_slot(ts[i])) is Some implies has_slot(
        e2,
        token_slot(ts[i])->0,
    ) by {
        lemma_same_slots_find(e1, e2, token_slot(ts[i])->0, 0);
    }
}

} // verus!
