//! The conversions an enumeration can offer, for it to implement, typically
//! by delegating to the model of the enumeration.

use std::borrow::Cow;

use vstd::prelude::*;

verus! {

/// Conversion to a static string: every alternative has a key known in advance.
pub trait ScribeStaticStr {
    fn scribe(&self) -> &'static str;
}

/// Conversion to a static string, or `None` for an ignored alternative.
pub trait TryScribeStaticStr {
    fn try_scribe(&self) -> Option<&'static str>;
}

/// Conversion to an owned string; the catch-all gives the text it holds.
pub trait ScribeString {
    fn scribe(&self) -> String;
}

/// Conversion to an owned string, or `None` for an ignored alternative.
pub trait TryScribeString {
    fn try_scribe(&self) -> Option<String>;
}

/// Conversion to a string that is borrowed for a key and owned for the
/// text of the catch-all.
pub trait ScribeCowStr {
    fn scribe(&self) -> Cow<'static, str>;
}

/// As `ScribeCowStr`, or `None` for an ignored alternative.
pub trait TryScribeCowStr {
    fn try_scribe(&self) -> Option<Cow<'static, str>>;
}

/// Conversion from any text; unmatched text goes to the catch-all.
pub trait Unscribe: Sized {
    fn unscribe(to_unscribe: &str) -> Self;
}

/// Conversion from text, or `None` when it matches no alternative.
pub trait TryUnscribe: Sized {
    fn try_unscribe(to_unscribe: &str) -> Option<Self>;
}

} // verus!
