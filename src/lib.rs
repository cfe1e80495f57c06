//! Bidirectional conversion between the alternatives of an enumeration and
//! their text keys: validation of the declarations, a rename engine for
//! default keys, a bounded inline string with Unicode uppercase folding, and
//! the matching that turns text back into an alternative.

pub mod attribute;
pub mod capped_string;
pub mod enums;
pub mod error;
pub mod rename;
pub mod scribe;
pub mod text;
pub mod traits;

pub use attribute::{Dict, LitKind, Value};
pub use capped_string::{CappedString, CowCappedString};
pub use enums::{
    parse_enum, EnumDecl, Enum, Fields, NamedVariant, OtherVariant, Variant, VariantConstructor,
    VariantDecl, VariantType,
};
pub use error::ModelError;
pub use rename::{CharCase, RenameVariant, WordAwareCase};
pub use scribe::{Alternative, Derive, Flavor, MatchTable};
pub use traits::{
    ScribeCowStr, ScribeStaticStr, ScribeString, TryScribeCowStr, TryScribeStaticStr,
    TryScribeString, TryUnscribe, Unscribe,
};
