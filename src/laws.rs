//! Properties of filling out templates, stated over the models that the
//! functions' contracts use.

use crate::content::{
    chosen_contents, draft_all, draft_token, find_from, has_slot, has_type, lemma_find_from,
    lemma_same_slots_find, merge_table, merged_entry, put, render, render_token, resolve,
    resolve_entry, resolve_prefix, resolve_requirement, same_slots, slot_index, slots_unique,
    value_of, ContentType, Failure, Requirement, Slot,
};
use crate::template::{filled_out, merged_draft};
use crate::token::Token;
use vstd::prelude::*;

verus! {

/// Keys, options and constants are separate namespaces: where all three
/// tables supply a value for identifier `id`, each slot named `id` takes the
/// value of its own namespace's table, whatever the others hold.
pub proof fn lemma_namespaces_independent(
    draft: Seq<(Slot, Requirement)>,
    id: Seq<char>,
    keys: Map<Seq<char>, Seq<char>>,
    choices: Map<Seq<char>, Seq<char>>,
    constants: Map<Seq<char>, Seq<char>>,
    options: Map<Seq<char>, Map<Seq<char>, Seq<char>>>,
)
    requires
        keys.contains_key(id),
        constants.contains_key(id),
        choices.contains_key(id),
        options.contains_key(id),
        options[id].contains_key(choices[id]),
    ensures
        ({
            let merged = merged_draft(draft, keys, choices, constants, options);
            forall|i: int|
                0 <= i < merged.len() && (#[trigger] merged[i]).0.1 == id ==> merged[i].1
                    == Requirement::Literal(
                    match merged[i].0.0 {
                        ContentType::Key => keys[id],
                        ContentType::Constant => constants[id],
                        ContentType::Option => options[id][choices[id]],
                    },
                )
        }),
{
    let m1 = merge_table(draft, ContentType::Constant, constants);
    let chosen = chosen_contents(choices, options);
    let m2 = merge_table(m1, ContentType::Option, chosen);
    let merged = merged_draft(draft, keys, choices, constants, options);
    assert(chosen.contains_key(id));
    assert forall|i: int|
        0 <= i < merged.len() && (#[trigger] merged[i]).0.1 == id implies merged[i].1
        == Requirement::Literal(
        match merged[i].0.0 {
            ContentType::Key => keys[id],
            ContentType::Constant => constants[id],
            ContentType::Option => options[id][choices[id]],
        },
    ) by {
        assert(m1[i] == merged_entry(draft[i], ContentType::Constant, constants));
        assert(m2[i] == merged_entry(m1[i], ContentType::Option, chosen));
        assert(merged[i] == merged_entry(m2[i], ContentType::Key, keys));
    }
}

/// A key with a literal default renders the default where no value is
/// supplied for it, and the supplied value where one is.
pub proof fn lemma_default_precedence(
    key: Seq<char>,
    default: Seq<char>,
    keys: Map<Seq<char>, Seq<char>>,
    choices: Map<Seq<char>, Seq<char>>,
    constants: Map<Seq<char>, Seq<char>>,
    options: Map<Seq<char>, Map<Seq<char>, Seq<char>>>,
)
    requires
        default.len() > 0,
        keys.contains_key(key) ==> keys[key].len() > 0,
    ensures
        ({
            let ts = seq![Token::Key(key, Some(Box::new(Token::Text(default))))];
            filled_out(ts, keys, choices, constants, options) == Ok::<Seq<char>, Failure>(
                if keys.contains_key(key) {
                    keys[key]
                } else {
                    default
                },
            )
        }),
{
    let ts = seq![Token::Key(key, Some(Box::new(Token::Text(default))))];
    let k = (ContentType::Key, key);
    let d = draft_all(ts);
    let none = Seq::<(Slot, Requirement)>::empty();
    assert(ts.drop_last() =~= Seq::<Token>::empty());
    assert(draft_all(Seq::<Token>::empty()) == none);
    assert(draft_token(Token::Text(default), none) == (Requirement::Literal(default), none));
    assert(find_from(none, k, 0) == -1);
    assert(put(none, k, Requirement::Literal(default)) =~= seq![(k, Requirement::Literal(default))]);
    assert(d == seq![(k, Requirement::Literal(default))]);
    let merged = merged_draft(d, keys, choices, constants, options);
    let value = if keys.contains_key(key) {
        keys[key]
    } else {
        default
    };
    assert(merged =~= seq![(k, Requirement::Literal(value))]);
    assert(resolve_entry(merged, 0) == Ok::<Seq<char>, Failure>(value));
    assert(resolve_prefix(merged, 0) == Ok::<Seq<(Slot, Seq<char>)>, Failure>(Seq::empty()));
    assert(resolve(merged) == Ok::<Seq<(Slot, Seq<char>)>, Failure>(seq![(k, value)]));
    let full = seq![(k, value)];
    assert(value_of(full, k) == value);
    assert(render(Seq::<Token>::empty(), full) == Seq::<char>::empty());
    assert(render_token(ts.last(), full) == value);
    assert(render(ts, full) =~= value);
}

/// A placeholder of namespace `ty` named `id`, without a default.
pub open spec fn placeholder(ty: ContentType, id: Seq<char>) -> Token {
    match ty {
        ContentType::Key => Token::Key(id, None),
        ContentType::Constant => Token::Constant(id),
        ContentType::Option => Token::Option(Box::new(Token::Key(id, None))),
    }
}

/// The table that supplies values to namespace `ty`.
pub open spec fn table_of(
    ty: ContentType,
    keys: Map<Seq<char>, Seq<char>>,
    choices: Map<Seq<char>, Seq<char>>,
    constants: Map<Seq<char>, Seq<char>>,
    options: Map<Seq<char>, Map<Seq<char>, Seq<char>>>,
) -> Map<Seq<char>, Seq<char>> {
    match ty {
        ContentType::Key => keys,
        ContentType::Constant => constants,
        ContentType::Option => chosen_contents(choices, options),
    }
}

/// A key whose default is another placeholder, of any namespace, renders
/// that placeholder's value where no value is supplied for the key:
/// defaults are followed to their end.
pub proof fn lemma_default_followed(
    key: Seq<char>,
    ty: ContentType,
    id: Seq<char>,
    keys: Map<Seq<char>, Seq<char>>,
    choices: Map<Seq<char>, Seq<char>>,
    constants: Map<Seq<char>, Seq<char>>,
    options: Map<Seq<char>, Map<Seq<char>, Seq<char>>>,
)
    requires
        (ty, id) != (ContentType::Key, key),
        !keys.contains_key(key),
        table_of(ty, keys, choices, constants, options).contains_key(id),
        table_of(ty, keys, choices, constants, options)[id].len() > 0,
    ensures
        filled_out(
            seq![Token::Key(key, Some(Box::new(placeholder(ty, id))))],
            keys,
            choices,
            constants,
            options,
        ) == Ok::<Seq<char>, Failure>(table_of(ty, keys, choices, constants, options)[id]),
{
    let ts = seq![Token::Key(key, Some(Box::new(placeholder(ty, id))))];
    let k = (ContentType::Key, key);
    let c = (ty, id);
    let value = table_of(ty, keys, choices, constants, options)[id];
    assert(ts.drop_last() =~= Seq::<Token>::empty());
    let d = draft_all(ts);
    let none = Seq::<(Slot, Requirement)>::empty();
    assert(draft_all(Seq::<Token>::empty()) == none);
    assert(find_from(none, c, 0) == -1);
    let e1 = seq![(c, Requirement::Unset)];
    assert(put(none, c, Requirement::Unset) =~= e1);
    assert(draft_token(placeholder(ty, id), none) == (Requirement::Default(c), e1));
    assert(find_from(e1, k, 1) == -1);
    assert(find_from(e1, k, 0) == -1);
    assert(put(e1, k, Requirement::Default(c)) =~= seq![(c, Requirement::Unset), (k, Requirement::Default(c))]);
    assert(d == seq![(c, Requirement::Unset), (k, Requirement::Default(c))]);
    let merged = merged_draft(d, keys, choices, constants, options);
    assert(merged =~= seq![(c, Requirement::Literal(value)), (k, Requirement::Default(c))]);
    assert(merged[0].0.0 == ty);
    assert(has_type(merged, ty));
    assert(resolve_entry(merged, 0) == Ok::<Seq<char>, Failure>(value));
    assert(resolve_requirement(merged, c, merged[0].1, 1) == Ok::<Seq<char>, Failure>(value));
    assert(resolve_entry(merged, 1) == Ok::<Seq<char>, Failure>(value));
    assert(resolve_prefix(merged, 0) == Ok::<Seq<(Slot, Seq<char>)>, Failure>(Seq::empty()));
    assert(resolve_prefix(merged, 1) == Ok::<Seq<(Slot, Seq<char>)>, Failure>(seq![(c, value)]));
    assert(seq![(c, value)].push((k, value)) =~= seq![(c, value), (k, value)]);
    let full = seq![(c, value), (k, value)];
    assert(resolve(merged) == Ok::<Seq<(Slot, Seq<char>)>, Failure>(full));
    assert(find_from(full, k, 1) == 1);
    assert(value_of(full, k) == value);
    assert(render(Seq::<Token>::empty(), full) == Seq::<char>::empty());
    assert(render_token(ts.last(), full) == value);
    assert(render(ts, full) =~= value);
}

/// The tokens of `{key:${opt1:${opt2:{key:default}}}}`.
pub open spec fn chain_template(
    key: Seq<char>,
    opt1: Seq<char>,
    opt2: Seq<char>,
    default: Seq<char>,
) -> Seq<Token> {
    let inner = Token::Key(key, Some(Box::new(Token::Text(default))));
    let second = Token::Key(opt2, Some(Box::new(inner)));
    let first = Token::Key(opt1, Some(Box::new(Token::Option(Box::new(second)))));
    seq![Token::Key(key, Some(Box::new(Token::Option(Box::new(first)))))]
}

/// A chain of defaults stops at the first slot that has a value: in
/// `{key:${opt1:${opt2:{key:default}}}}` with a choice made for `opt2` only,
/// the key renders that choice's content, and the rest of the chain is not
/// followed.
pub proof fn lemma_chain_interrupted(
    key: Seq<char>,
    opt1: Seq<char>,
    opt2: Seq<char>,
    default: Seq<char>,
    keys: Map<Seq<char>, Seq<char>>,
    choices: Map<Seq<char>, Seq<char>>,
    constants: Map<Seq<char>, Seq<char>>,
    options: Map<Seq<char>, Map<Seq<char>, Seq<char>>>,
)
    requires
        opt1 != opt2,
        !keys.contains_key(key),
        !chosen_contents(choices, options).contains_key(opt1),
        chosen_contents(choices, options).contains_key(opt2),
        chosen_contents(choices, options)[opt2].len() > 0,
    ensures
        filled_out(
            chain_template(key, opt1, opt2, default),
            keys,
            choices,
            constants,
            options,
        ) == Ok::<Seq<char>, Failure>(chosen_contents(choices, options)[opt2]),
{
    let chosen = chosen_contents(choices, options);
    let c = chosen[opt2];
    let k = (ContentType::Key, key);
    let o1 = (ContentType::Option, opt1);
    let o2 = (ContentType::Option, opt2);
    let inner = Token::Key(key, Some(Box::new(Token::Text(default))));
    let second = Token::Key(opt2, Some(Box::new(inner)));
    let first = Token::Key(opt1, Some(Box::new(Token::Option(Box::new(second)))));
    let outer = Token::Key(key, Some(Box::new(Token::Option(Box::new(first)))));
    let ts = chain_template(key, opt1, opt2, default);
    assert(ts == seq![outer]);
    let none = Seq::<(Slot, Requirement)>::empty();
    assert(ts.drop_last() =~= Seq::<Token>::empty());
    assert(draft_all(Seq::<Token>::empty()) == none);
    // The innermost key.
    assert(draft_token(Token::Text(default), none) == (Requirement::Literal(default), none));
    assert(find_from(none, k, 0) == -1);
    let e1 = seq![(k, Requirement::Literal(default))];
    assert(put(none, k, Requirement::Literal(default)) =~= e1);
    assert(draft_token(inner, none) == (Requirement::Default(k), e1));
    // The option `opt2`.
    assert(find_from(e1, o2, 1) == -1);
    assert(find_from(e1, o2, 0) == -1);
    let e2 = seq![(k, Requirement::Literal(default)), (o2, Requirement::Default(k))];
    assert(put(e1, o2, Requirement::Default(k)) =~= e2);
    assert(draft_token(Token::Option(Box::new(second)), none) == (Requirement::Default(o2), e2));
    // The option `opt1`.
    assert(find_from(e2, o1, 2) == -1);
    assert(find_from(e2, o1, 1) == -1);
    assert(find_from(e2, o1, 0) == -1);
    let e3 = seq![
        (k, Requirement::Literal(default)),
        (o2, Requirement::Default(k)),
        (o1, Requirement::Default(o2)),
    ];
    assert(put(e2, o1, Requirement::Default(o2)) =~= e3);
    assert(draft_token(Token::Option(Box::new(first)), none) == (Requirement::Default(o1), e3));
    // The outer key replaces the innermost one's entry.
    assert(find_from(e3, k, 0) == 0);
    let e4 = seq![
        (k, Requirement::Default(o1)),
        (o2, Requirement::Default(k)),
        (o1, Requirement::Default(o2)),
    ];
    assert(put(e3, k, Requirement::Default(o1)) =~= e4);
    assert(draft_all(ts) == e4);
    // Merging gives `opt2` its content and leaves the rest.
    let merged = merged_draft(e4, keys, choices, constants, options);
    let m = seq![
        (k, Requirement::Default(o1)),
        (o2, Requirement::Literal(c)),
        (o1, Requirement::Default(o2)),
    ];
    assert(merged =~= m);
    // Resolution.
    assert(m[1].0.0 == ContentType::Option);
    assert(has_type(m, ContentType::Option));
    assert(find_from(m, o2, 1) == 1);
    assert(find_from(m, o2, 0) == 1);
    assert(find_from(m, o1, 2) == 2);
    assert(find_from(m, o1, 1) == 2);
    assert(find_from(m, o1, 0) == 2);
    assert(resolve_requirement(m, o2, Requirement::Literal(c), 1) == Ok::<Seq<char>, Failure>(c));
    assert(resolve_requirement(m, o1, Requirement::Default(o2), 2) == Ok::<Seq<char>, Failure>(c));
    assert(resolve_requirement(m, o2, Requirement::Literal(c), 2) == Ok::<Seq<char>, Failure>(c));
    assert(resolve_requirement(m, o1, Requirement::Default(o2), 3) == Ok::<Seq<char>, Failure>(c));
    assert(resolve_entry(m, 0) == Ok::<Seq<char>, Failure>(c));
    assert(resolve_entry(m, 1) == Ok::<Seq<char>, Failure>(c));
    assert(resolve_entry(m, 2) == Ok::<Seq<char>, Failure>(c));
    assert(resolve_prefix(m, 0) == Ok::<Seq<(Slot, Seq<char>)>, Failure>(Seq::empty()));
    assert(seq![(k, c)] =~= Seq::<(Slot, Seq<char>)>::empty().push((k, c)));
    assert(resolve_prefix(m, 1) == Ok::<Seq<(Slot, Seq<char>)>, Failure>(seq![(k, c)]));
    assert(seq![(k, c)].push((o2, c)) =~= seq![(k, c), (o2, c)]);
    assert(resolve_prefix(m, 2) == Ok::<Seq<(Slot, Seq<char>)>, Failure>(seq![(k, c), (o2, c)]));
    let full = seq![(k, c), (o2, c), (o1, c)];
    assert(seq![(k, c), (o2, c)].push((o1, c)) =~= full);
    assert(resolve(m) == Ok::<Seq<(Slot, Seq<char>)>, Failure>(full));
    assert(find_from(full, k, 0) == 0);
    assert(value_of(full, k) == c);
    assert(render(Seq::<Token>::empty(), full) == Seq::<char>::empty());
    assert(render_token(ts.last(), full) == c);
    assert(render(ts, full) =~= c);
}

/// Of two values supplied in turn for one key, the last one counts: the
/// tables after both are the tables after the last alone, and every slot of
/// that key takes the last value.
pub proof fn lemma_last_write_wins(
    ts: Seq<Token>,
    id: Seq<char>,
    first: Seq<char>,
    last: Seq<char>,
    keys: Map<Seq<char>, Seq<char>>,
    choices: Map<Seq<char>, Seq<char>>,
    constants: Map<Seq<char>, Seq<char>>,
    options: Map<Seq<char>, Map<Seq<char>, Seq<char>>>,
)
    ensures
        filled_out(ts, keys.insert(id, first).insert(id, last), choices, constants, options)
            == filled_out(ts, keys.insert(id, last), choices, constants, options),
        ({
            let merged = merged_draft(
                draft_all(ts),
                keys.insert(id, first).insert(id, last),
                choices,
                constants,
                options,
            );
            forall|i: int|
                0 <= i < merged.len() && (#[trigger] merged[i]).0 == (ContentType::Key, id)
                    ==> merged[i].1 == Requirement::Literal(last)
        }),
{
    assert(keys.insert(id, first).insert(id, last) =~= keys.insert(id, last));
    let d = draft_all(ts);
    let m1 = merge_table(d, ContentType::Constant, constants);
    let m2 = merge_table(m1, ContentType::Option, chosen_contents(choices, options));
    let table = keys.insert(id, last);
    let merged = merged_draft(d, table, choices, constants, options);
    assert forall|i: int|
        0 <= i < merged.len() && (#[trigger] merged[i]).0 == (ContentType::Key, id) implies merged[i].1
        == Requirement::Literal(last) by {
        assert(merged[i] == merged_entry(m2[i], ContentType::Key, table));
    }
}

/// A key without a default and without a value fails as missing; one
/// whose supplied value is empty fails as empty.
pub proof fn lemma_missing_or_empty(
    key: Seq<char>,
    keys: Map<Seq<char>, Seq<char>>,
    choices: Map<Seq<char>, Seq<char>>,
    constants: Map<Seq<char>, Seq<char>>,
    options: Map<Seq<char>, Map<Seq<char>, Seq<char>>>,
)
    ensures
        !keys.contains_key(key) ==> filled_out(
            seq![Token::Key(key, None)],
            keys,
            choices,
            constants,
            options,
        ) == Err::<Seq<char>, Failure>(Failure::MissingElement((ContentType::Key, key))),
        keys.contains_key(key) && keys[key].len() == 0 ==> filled_out(
            seq![Token::Key(key, None)],
            keys,
            choices,
            constants,
            options,
        ) == Err::<Seq<char>, Failure>(Failure::EmptyContent((ContentType::Key, key))),
{
    let ts = seq![Token::Key(key, None)];
    let k = (ContentType::Key, key);
    let none = Seq::<(Slot, Requirement)>::empty();
    assert(ts.drop_last() =~= Seq::<Token>::empty());
    assert(draft_all(Seq::<Token>::empty()) == none);
    assert(find_from(none, k, 0) == -1);
    assert(put(none, k, Requirement::Unset) =~= seq![(k, Requirement::Unset)]);
    let d = draft_all(ts);
    assert(d == seq![(k, Requirement::Unset)]);
    let merged = merged_draft(d, keys, choices, constants, options);
    if !keys.contains_key(key) {
        assert(merged =~= seq![(k, Requirement::Unset)]);
        assert(resolve_prefix(merged, 0) == Ok::<Seq<(Slot, Seq<char>)>, Failure>(Seq::empty()));
        assert(resolve_entry(merged, 0) == Err::<Seq<char>, Failure>(Failure::MissingElement(k)));
    }
    if keys.contains_key(key) && keys[key].len() == 0 {
        assert(merged =~= seq![(k, Requirement::Literal(keys[key]))]);
        assert(resolve_prefix(merged, 0) == Ok::<Seq<(Slot, Seq<char>)>, Failure>(Seq::empty()));
        assert(resolve_entry(merged, 0) == Err::<Seq<char>, Failure>(Failure::EmptyContent(k)));
    }
}

// ---------------------------------------------------------------------------
// Laws over any draft.

/// With unique slots, the entry holding slot `k` is the one `slot_index` finds.
proof fn lemma_unique_index<T>(e: Seq<(Slot, T)>, k: Slot, i: int)
    requires
        slots_unique(e),
        0 <= i < e.len(),
        e[i].0 == k,
    ensures
        slot_index(e, k) == i,
        has_slot(e, k),
        value_of(e, k) == e[i].1,
{
    lemma_find_from(e, k, 0);
}

/// Setting the requirement of one slot leaves every other slot as it was,
/// in particular the slots of other namespaces under the same identifier.
pub proof fn lemma_put_touches_one_slot<T>(e: Seq<(Slot, T)>, k: Slot, v: T, other: Slot)
    requires
        other != k,
    ensures
        has_slot(put(e, k, v), k),
        value_of(put(e, k, v), k) == v,
        has_slot(put(e, k, v), other) == has_slot(e, other),
        has_slot(e, other) ==> value_of(put(e, k, v), other) == value_of(e, other),
{
    lemma_find_from(e, k, 0);
    lemma_find_from(e, other, 0);
    let e2 = put(e, k, v);
    lemma_find_from(e2, k, 0);
    lemma_find_from(e2, other, 0);
    if has_slot(e, k) {
        assert(same_slots(e, e2));
        lemma_same_slots_find(e, e2, k, 0);
        lemma_same_slots_find(e, e2, other, 0);
    } else {
        assert(e2[e.len() as int].0 == k);
        if has_slot(e, other) {
            assert(e2[slot_index(e, other)] == e[slot_index(e, other)]);
        }
        if has_slot(e2, other) {
            assert(slot_index(e2, other) < e.len());
            assert(e[slot_index(e2, other)].0 == other);
        }
    }
}

/// Resolving with more steps to spare gives the same value.
proof fn lemma_more_fuel(e: Seq<(Slot, Requirement)>, k: Slot, r: Requirement, fuel: nat)
    requires
        resolve_requirement(e, k, r, fuel) is Ok,
    ensures
        resolve_requirement(e, k, r, fuel + 1) == resolve_requirement(e, k, r, fuel),
    decreases fuel,
{
    if let Requirement::Default(t) = r {
        if fuel > 0 {
            lemma_more_fuel(e, t, value_of(e, t), (fuel - 1) as nat);
        }
    }
}

/// A resolved prefix holds every entry's slot and resolved value, in order.
proof fn lemma_resolved_values(e: Seq<(Slot, Requirement)>, n: nat)
    requires
        n <= e.len(),
        resolve_prefix(e, n) is Ok,
    ensures
        resolve_prefix(e, n)->Ok_0.len() == n,
        forall|j: int|
            0 <= j < n ==> (#[trigger] resolve_entry(e, j)) is Ok && resolve_prefix(e, n)->Ok_0[j]
                == (e[j].0, resolve_entry(e, j)->Ok_0),
    decreases n,
{
    if n > 0 {
        lemma_resolved_values(e, (n - 1) as nat);
        let done = resolve_prefix(e, (n - 1) as nat)->Ok_0;
        assert forall|j: int| 0 <= j < n implies (#[trigger] resolve_entry(e, j)) is Ok
            && resolve_prefix(e, n)->Ok_0[j] == (e[j].0, resolve_entry(e, j)->Ok_0) by {
            if j < n - 1 {
                assert(resolve_prefix(e, n)->Ok_0[j] == done[j]);
            }
        }
    }
}

/// A default of any namespace is followed to the end of its chain: where a
/// draft resolves, a slot that defaults to another takes that slot's value.
pub proof fn lemma_default_takes_target_value(e: Seq<(Slot, Requirement)>, i: int)
    requires
        slots_unique(e),
        0 <= i < e.len(),
        e[i].1 is Default,
        resolve(e) is Ok,
    ensures
        has_slot(resolve(e)->Ok_0, e[i].1->Default_0),
        value_of(resolve(e)->Ok_0, e[i].0) == value_of(resolve(e)->Ok_0, e[i].1->Default_0),
{
    let n = e.len();
    let full = resolve(e)->Ok_0;
    let s = e[i].0;
    let d = e[i].1->Default_0;
    lemma_resolved_values(e, n);
    assert(resolve_entry(e, i) is Ok);
    assert(has_slot(e, d));
    lemma_find_from(e, d, 0);
    let m = slot_index(e, d);
    assert(e[m].0 == d);
    lemma_more_fuel(e, d, value_of(e, d), (n - 1) as nat);
    assert(resolve_entry(e, m) == resolve_entry(e, i));
    assert forall|j: int| 0 <= j < e.len() implies (#[trigger] e[j]).0 == full[j].0 by {
        assert(resolve_entry(e, j) is Ok);
    }
    assert(same_slots(e, full));
    lemma_unique_index(e, s, i);
    lemma_unique_index(e, d, m);
    lemma_same_slots_find(e, full, s, 0);
    lemma_same_slots_find(e, full, d, 0);
    assert(full[i] == (s, resolve_entry(e, i)->Ok_0));
    assert(full[m] == (d, resolve_entry(e, m)->Ok_0));
}

/// A chain of defaults `chain[0] -> chain[1] -> ...` that reaches a
/// non-empty literal resolves to it: the entries after the literal, and all
/// slots off the chain, play no part.
pub proof fn lemma_chain_stops_at_literal(
    e: Seq<(Slot, Requirement)>,
    chain: Seq<Slot>,
    v: Seq<char>,
    fuel: nat,
)
    requires
        chain.len() >= 1,
        chain.len() - 1 <= fuel,
        v.len() > 0,
        forall|j: int| 0 <= j < chain.len() ==> has_slot(e, #[trigger] chain[j]),
        forall|j: int|
            0 <= j < chain.len() - 1 ==> value_of(e, #[trigger] chain[j]) == Requirement::Default(
                chain[j + 1],
            ),
        value_of(e, chain.last()) == Requirement::Literal(v),
    ensures
        resolve_requirement(e, chain[0], value_of(e, chain[0]), fuel) == Ok::<Seq<char>, Failure>(v),
    decreases chain.len(),
{
    if chain.len() > 1 {
        let rest = chain.drop_first();
        assert forall|j: int| 0 <= j < rest.len() implies has_slot(e, #[trigger] rest[j]) by {
            assert(rest[j] == chain[j + 1]);
        }
        assert forall|j: int| 0 <= j < rest.len() - 1 implies value_of(e, #[trigger] rest[j])
            == Requirement::Default(rest[j + 1]) by {
            assert(rest[j] == chain[j + 1]);
            assert(rest[j + 1] == chain[j + 2]);
        }
        assert(rest.last() == chain.last());
        lemma_chain_stops_at_literal(e, rest, v, (fuel - 1) as nat);
        let t = chain[1];
        assert(value_of(e, chain[0]) == Requirement::Default(t));
        lemma_find_from(e, t, 0);
        assert(e[slot_index(e, t)].0.0 == t.0);
        assert(has_type(e, t.0));
    }
}

/// Resolution fails with the failure `f` when some entry fails with it and
/// every other entry either resolves or fails with it too.
proof fn lemma_common_failure(e: Seq<(Slot, Requirement)>, f: Failure, n: nat)
    requires
        n <= e.len(),
        forall|j: int|
            0 <= j < e.len() ==> (#[trigger] resolve_entry(e, j)) is Ok || resolve_entry(e, j)
                == Err::<Seq<char>, Failure>(f),
    ensures
        resolve_prefix(e, n) is Ok || resolve_prefix(e, n) == Err::<Seq<(Slot, Seq<char>)>, Failure>(f),
        (exists|j: int| 0 <= j < n && resolve_entry(e, j) is Err) ==> resolve_prefix(e, n)
            == Err::<Seq<(Slot, Seq<char>)>, Failure>(f),
    decreases n,
{
    if n > 0 {
        lemma_common_failure(e, f, (n - 1) as nat);
        if exists|j: int| 0 <= j < n && resolve_entry(e, j) is Err {
            let j = choose|j: int| 0 <= j < n && resolve_entry(e, j) is Err;
            if j < n - 1 {
                assert(exists|j2: int| 0 <= j2 < n - 1 && resolve_entry(e, j2) is Err);
            }
        }
    }
}

/// A slot without a value and without a default fails resolution as
/// missing, and one whose value is empty fails as empty, wherever every
/// other slot resolves or fails the same way.
pub proof fn lemma_missing_or_empty_anywhere(e: Seq<(Slot, Requirement)>, i: int)
    requires
        0 <= i < e.len(),
        e[i].1 == Requirement::Unset || e[i].1 == Requirement::Literal(Seq::<char>::empty()),
        forall|j: int|
            0 <= j < e.len() ==> (#[trigger] resolve_entry(e, j)) is Ok || resolve_entry(e, j)
                == resolve_entry(e, i),
    ensures
        e[i].1 == Requirement::Unset ==> resolve(e) == Err::<Seq<(Slot, Seq<char>)>, Failure>(
            Failure::MissingElement(e[i].0),
        ),
        e[i].1 == Requirement::Literal(Seq::<char>::empty()) ==> resolve(e) == Err::<
            Seq<(Slot, Seq<char>)>,
            Failure,
        >(Failure::EmptyContent(e[i].0)),
{
    let f = if e[i].1 == Requirement::Unset {
        Failure::MissingElement(e[i].0)
    } else {
        Failure::EmptyContent(e[i].0)
    };
    assert(resolve_entry(e, i) == Err::<Seq<char>, Failure>(f));
    lemma_common_failure(e, f, e.len());
}

} // verus!
