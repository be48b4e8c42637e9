use vstd::prelude::*;

verus! {

/// A compile-time marker trait for language tags.
///
/// A language tag is a zero-size type that parameterizes [`crate::Token`],
/// [`crate::Word`] and [`crate::Document`]: tokens of two distinct tags are
/// values of two distinct types, so the type system rejects mixing corpora of
/// different languages. A tag carries no runtime data and has no effect on a
/// token's content or equality. To declare a new language, define a unit
/// struct and implement `Language` for it:
///
/// ```ignore
/// pub struct English;
/// impl Language for English {}
/// ```
pub trait Language {
}

/// The language tag used when a project does not distinguish languages.
pub struct DefaultLanguage;

impl Language for DefaultLanguage {
}

} // verus!
