//! Locale fallback resolution: for a requested locale, the ordered list of
//! locales that a consumer may try when the exact one is unavailable.
//!
//! The list is the breadth-first closure of a rulebook's direct fallbacks,
//! widened by omitting optional subtags, without duplicates.

pub mod convergence;
pub mod default_rulebook;
pub mod getlang;
pub mod locale;
pub mod macros;
pub mod omit;
pub mod order;
pub mod per_lang_default_rules;
pub mod registry;
pub mod rulebook;
pub mod solver;

pub use default_rulebook::default_rulebook;
pub use locale::{LanguageIdentifier, LocaleView};
pub use rulebook::{PolyL10nRulebook, Rulebook};
pub use solver::LocaleFallbackSolver;
