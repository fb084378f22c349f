//! Templates: parsed once, with their requirement draft, and filled out
//! against content tables.

use crate::content::{
    chosen_contents, draft_all, failure_text, lemma_draft_all_slots, lemma_merge_slots,
    lemma_renders_from_same_slots, lemma_resolve_slots, merge_table, render, resolve,
    ContentState, ContentType, Failure, FillOutError, FullContent, Requirement, RequiredContent,
    Slot, VolatileContent,
};
use crate::grammar::{items_start, parse_items, parse_template};
use crate::meta::dyn_evaluated;
use crate::parse::{item_failure, template, UserError};
use crate::scan::Scanner;
use crate::token::{ContentTokens, Token};
use vstd::prelude::*;

verus! {

/// The draft with the author's constants and options and the end user's
/// keys and choices merged into it.
pub open spec fn merged_draft(
    draft: Seq<(Slot, Requirement)>,
    keys: Map<Seq<char>, Seq<char>>,
    choices: Map<Seq<char>, Seq<char>>,
    constants: Map<Seq<char>, Seq<char>>,
    options: Map<Seq<char>, Map<Seq<char>, Seq<char>>>,
) -> Seq<(Slot, Requirement)> {
    merge_table(
        merge_table(
            merge_table(draft, ContentType::Constant, constants),
            ContentType::Option,
            chosen_contents(choices, options),
        ),
        ContentType::Key,
        keys,
    )
}

/// The text a template renders to once its merged draft resolves, or the
/// failure of resolution.
pub open spec fn compiled(ts: Seq<Token>, merged: Seq<(Slot, Requirement)>) -> Result<
    Seq<char>,
    Failure,
> {
    match resolve(merged) {
        Ok(full) => Ok(render(ts, full)),
        Err(f) => Err(f),
    }
}

/// A template filled out against the given tables, with dynamic elements
/// left as they are.
pub open spec fn filled_out(
    ts: Seq<Token>,
    keys: Map<Seq<char>, Seq<char>>,
    choices: Map<Seq<char>, Seq<char>>,
    constants: Map<Seq<char>, Seq<char>>,
    options: Map<Seq<char>, Map<Seq<char>, Seq<char>>>,
) -> Result<Seq<char>, Failure> {
    compiled(ts, merged_draft(draft_all(ts), keys, choices, constants, options))
}

/// Whether the result of filling out is the compiled text or failure `c`.
pub open spec fn result_is(r: Result<String, TemplateError>, c: Result<Seq<char>, Failure>) -> bool {
    match r {
        Ok(text) => c == Ok::<Seq<char>, Failure>(text@),
        Err(TemplateError::FillOutError(f)) => c == Err::<Seq<char>, Failure>(f@),
        Err(TemplateError::UserError(_)) => false,
    }
}

/// A parsed template and the requirements it declares.
#[derive(Debug)]
pub struct Template {
    tokens: ContentTokens,
    required: RequiredContent,
}

/// A failure to parse or to fill out a template.
#[derive(Debug)]
pub enum TemplateError {
    UserError(UserError),
    FillOutError(FillOutError),
}

impl TemplateError {
    /// The failure as a message.
    pub fn message(&self) -> (r: String)
        ensures
            self matches TemplateError::FillOutError(f) ==> r@ == failure_text(f@),
    {
        match self {
            TemplateError::UserError(e) => e.message(),
            TemplateError::FillOutError(e) => e.message(),
        }
    }
}

/// Settings for filling out a template.
#[derive(Debug)]
pub struct CompilationSettings {
    /// Treat identifiers of meta constants as ordinary constants.
    pub ignore_dynamics: bool,
}

impl Default for CompilationSettings {
    fn default() -> (r: Self)
        ensures
            !r.ignore_dynamics,
    {
        CompilationSettings { ignore_dynamics: false }
    }
}

/// A template together with the settings to fill it out with.
#[derive(Debug)]
pub struct TemplateWithSettings {
    template: Template,
    settings: CompilationSettings,
}

impl Template {
    #[verifier::type_invariant]
    spec fn drafted(&self) -> bool {
        &&& self.tokens.wf()
        &&& self.required@ == draft_all(self.tokens.tokens())
    }

    /// The tokens of the template.
    pub closed spec fn tokens(&self) -> Seq<Token> {
        self.tokens.tokens()
    }

    /// Parse `s` and draft its requirements.
    pub fn parse(s: &str) -> (r: Result<Self, TemplateError>)
        requires
            s@.len() < usize::MAX,
        ensures
            match parse_template(s@, 0) {
                Some(ts) => r is Ok && r->Ok_0.tokens() == ts,
                None => r is Err && r->Err_0 is UserError,
            },
            r matches Err(TemplateError::UserError(e)) ==> e.context()@ == item_failure(
                s@,
                parse_items(s@, items_start(s@, 0)).1,
            ),
    {
        let mut scanner = Scanner::new(s);
        match template(&mut scanner) {
            Ok(tokens) => {
                let required = tokens.draft();
                Ok(Template { tokens, required })
            },
            Err(e) => Err(TemplateError::UserError(e)),
        }
    }

    /// The requirements the template declares, before any content is supplied.
    pub fn required(&self) -> (r: &RequiredContent)
        ensures
            r@ == draft_all(self.tokens()),
    {
        proof {
            use_type_invariant(self);
        }
        &self.required
    }

    /// Fill out the template with the default settings, which evaluate
    /// meta constants: their slots take the current date and time, the
    /// rest is as `filled_out` says.
    pub fn fill_out(self, volatile_content: VolatileContent, content_state: ContentState) -> (r:
        Result<String, TemplateError>)
        ensures
            exists|evaluated: Seq<(Slot, Requirement)>|
                dyn_evaluated(
                    merged_draft(
                        draft_all(self.tokens()),
                        volatile_content.keys@,
                        volatile_content.choices@,
                        content_state.constants@,
                        content_state.options@,
                    ),
                    evaluated,
                ) && result_is(r, compiled(self.tokens(), evaluated)),
    {
        let with_settings = TemplateWithSettings {
            template: self,
            settings: CompilationSettings::default(),
        };
        with_settings.fill_out(volatile_content, content_state)
    }

    /// This template with the given settings.
    pub fn with_settings(self, settings: CompilationSettings) -> (r: TemplateWithSettings)
        ensures
            r.tokens() == self.tokens(),
            r.ignores_dynamics() == settings.ignore_dynamics,
    {
        TemplateWithSettings { template: self, settings }
    }
}

impl TemplateWithSettings {
    pub closed spec fn tokens(&self) -> Seq<Token> {
        self.template.tokens()
    }

    pub closed spec fn ignores_dynamics(&self) -> bool {
        self.settings.ignore_dynamics
    }

    /// Merge the tables into the draft, evaluate meta constants unless the
    /// settings say otherwise, resolve every slot, and render the tokens.
    pub fn fill_out(self, volatile_content: VolatileContent, content_state: ContentState) -> (r:
        Result<String, TemplateError>)
        ensures
            ({
                let merged = merged_draft(
                    draft_all(self.tokens()),
                    volatile_content.keys@,
                    volatile_content.choices@,
                    content_state.constants@,
                    content_state.options@,
                );
                if self.ignores_dynamics() {
                    result_is(r, compiled(self.tokens(), merged))
                } else {
                    exists|evaluated: Seq<(Slot, Requirement)>|
                        dyn_evaluated(merged, evaluated) && result_is(
                            r,
                            compiled(self.tokens(), evaluated),
                        )
                }
            }),
    {
        let TemplateWithSettings { template, settings } = self;
        proof {
            use_type_invariant(&template);
        }
        let ghost ts = template.tokens();
        let Template { tokens, required } = template;
        let mut required = required;
        required.add_constants(content_state.constants);
        required.add_options(volatile_content.choices, content_state.options);
        required.add_keys(volatile_content.keys);
        let ghost merged = required@;
        proof {
            lemma_draft_all_slots(ts);
        }
        if !settings.ignore_dynamics {
            required.eval_dyn();
        }
        proof {
            let d = draft_all(ts);
            let m1 = merge_table(d, ContentType::Constant, content_state.constants@);
            let m2 = merge_table(
                m1,
                ContentType::Option,
                chosen_contents(volatile_content.choices@, content_state.options@),
            );
            lemma_merge_slots(d, ContentType::Constant, content_state.constants@);
            lemma_merge_slots(
                m1,
                ContentType::Option,
                chosen_contents(volatile_content.choices@, content_state.options@),
            );
            lemma_merge_slots(m2, ContentType::Key, volatile_content.keys@);
            lemma_renders_from_same_slots(ts, d, m1);
            lemma_renders_from_same_slots(ts, m1, m2);
            lemma_renders_from_same_slots(ts, m2, merged);
            lemma_renders_from_same_slots(ts, merged, required@);
        }
        match required.try_resolve() {
            Ok(content) => {
                proof {
                    lemma_resolve_slots(required@, required@.len());
                    assert(required@.take(required@.len() as int) =~= required@);
                    lemma_renders_from_same_slots(ts, required@, content@);
                }
                Ok(tokens.fill_out(content))
            },
            Err(e) => Err(TemplateError::FillOutError(e)),
        }
    }
}

} // verus!
