//! The ways in which a specification of an enumeration can be rejected.

use vstd::prelude::*;

verus! {

/// A configuration error found while building the model of an enumeration
/// or choosing a converter for it. Names of alternatives and keys are carried
/// so that a caller can report them.
#[derive(Debug)]
pub enum ModelError {
    /// A declaration key appears twice on one alternative or on the enumeration.
    DuplicateAttributeKey(String),
    /// A declaration key that is not recognised.
    UnexpectedKey(String),
    /// A declaration value is not a boolean although its key asks for one.
    ExpectedBool(String),
    /// A declaration value is not a string although its key asks for one.
    ExpectedString(String),
    /// A style name that is not one of the accepted ones.
    InvalidCase(String),
    /// An alternative marked both case-sensitive and case-insensitive.
    BothCaseFlags(String),
    /// A second alternative marked as the catch-all.
    MultipleOther,
    /// A catch-all alternative that also has an explicit key.
    OtherWithName(String),
    /// A catch-all alternative that does not have exactly one field.
    OtherFieldCount(String),
    /// Two named alternatives with the same key.
    DuplicateName(String),
    /// A key whose uppercase fold collides with that of another key, where
    /// one of the two alternatives is case-insensitive.
    DuplicateFoldedName(String),
    /// A named alternative with fields.
    NamedWithFields(String),
    /// An enumeration without alternatives.
    EmptyEnum,
    /// The converter asked for cannot represent the catch-all alternative.
    OtherNotSupported(String),
    /// The converter asked for cannot represent the ignored alternative.
    IgnoreNotSupported(String),
    /// The converter asked for must accept every text, but there is no catch-all.
    OtherRequired,
}

/// A `ModelError` with its texts as character sequences.
pub enum ModelErrorView {
    DuplicateAttributeKey(Seq<char>),
    UnexpectedKey(Seq<char>),
    ExpectedBool(Seq<char>),
    ExpectedString(Seq<char>),
    InvalidCase(Seq<char>),
    BothCaseFlags(Seq<char>),
    MultipleOther,
    OtherWithName(Seq<char>),
    OtherFieldCount(Seq<char>),
    DuplicateName(Seq<char>),
    DuplicateFoldedName(Seq<char>),
    NamedWithFields(Seq<char>),
    EmptyEnum,
    OtherNotSupported(Seq<char>),
    IgnoreNotSupported(Seq<char>),
    OtherRequired,
}

impl View for ModelError {
    type V = ModelErrorView;

    open spec fn view(&self) -> ModelErrorView {
        match self {
            ModelError::DuplicateAttributeKey(s) => ModelErrorView::DuplicateAttributeKey(s@),
            ModelError::UnexpectedKey(s) => ModelErrorView::UnexpectedKey(s@),
            ModelError::ExpectedBool(s) => ModelErrorView::ExpectedBool(s@),
            ModelError::ExpectedString(s) => ModelErrorView::ExpectedString(s@),
            ModelError::InvalidCase(s) => ModelErrorView::InvalidCase(s@),
            ModelError::BothCaseFlags(s) => ModelErrorView::BothCaseFlags(s@),
            ModelError::MultipleOther => ModelErrorView::MultipleOther,
            ModelError::OtherWithName(s) => ModelErrorView::OtherWithName(s@),
            ModelError::OtherFieldCount(s) => ModelErrorView::OtherFieldCount(s@),
            ModelError::DuplicateName(s) => ModelErrorView::DuplicateName(s@),
            ModelError::DuplicateFoldedName(s) => ModelErrorView::DuplicateFoldedName(s@),
            ModelError::NamedWithFields(s) => ModelErrorView::NamedWithFields(s@),
            ModelError::EmptyEnum => ModelErrorView::EmptyEnum,
            ModelError::OtherNotSupported(s) => ModelErrorView::OtherNotSupported(s@),
            ModelError::IgnoreNotSupported(s) => ModelErrorView::IgnoreNotSupported(s@),
            ModelError::OtherRequired => ModelErrorView::OtherRequired,
        }
    }
}

} // verus!
