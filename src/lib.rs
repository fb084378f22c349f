//! Template compilation: a backtracking scanner, a recursive-descent parser
//! for templates with keys, constants and options, and a resolution engine
//! that turns parsed templates and content tables into text.

pub mod chars;
pub mod content;
pub mod grammar;
pub mod ident_map;
pub mod laws;
pub mod locale;
pub mod meta;
pub mod parse;
pub mod scan;
pub mod template;
pub mod token;

pub use content::{
    new_choice, Content, ContentIndex, ContentRequirement, ContentState, ContentType,
    FillOutError, FullContent, RequiredContent, VolatileContent,
};
pub use ident_map::IdentMap;
pub use parse::UserError;
pub use template::{CompilationSettings, Template, TemplateError, TemplateWithSettings};
pub use token::{ContentToken, ContentTokens, Ident};
