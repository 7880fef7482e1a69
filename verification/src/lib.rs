//! A lexer for CSS that reports tokens by their byte offsets, and on top of
//! it the analysis that finds what a bundler has to rewrite in a style
//! sheet: `@import` rules, URLs, and the names that CSS Modules make local.
//!
//! - `chars`, `scan`, `token`: where the lexical elements of CSS start and
//!   end, as definitions and as code.
//! - `lexer`: the cursor over a source, and the pass that tells a visitor
//!   the tokens.
//! - `model`: the analysis as a function of the source.
//! - `dependencies`: the analysis as a visitor, and what it collects.
//! - `order`, `steps`, `laws`: what holds of every state of the analysis,
//!   why, and what follows for all that it reports.

pub mod chars;
pub mod dependencies;
pub mod laws;
pub mod lexer;
pub mod model;
pub mod order;
pub mod scan;
pub mod steps;
pub mod text;
pub mod token;

pub use dependencies::collect_dependencies;
pub use dependencies::BalancedItem;
pub use dependencies::BalancedItemKind;
pub use dependencies::Collection;
pub use dependencies::CssModulesMode;
pub use dependencies::CssModulesModeData;
pub use dependencies::Dependency;
pub use dependencies::ImportData;
pub use dependencies::ImportDataLayer;
pub use dependencies::ImportDataSupports;
pub use dependencies::LexDependencies;
pub use dependencies::Range;
pub use dependencies::Scope;
pub use dependencies::UrlRangeKind;
pub use dependencies::Warning;
pub use lexer::Lexer;
pub use lexer::Pos;
pub use lexer::Visitor;
pub use token::Token;
pub use token::TokenKind;
