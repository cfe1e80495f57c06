//! The classification engine: turns the declarations of an enumeration into a
//! validated model of its alternatives.

use vstd::prelude::*;
use vstd::string::StringSliceAdditionalSpecFns;
use vstd::utf8::encode_utf8;

use crate::attribute::{
    first_unrecognised, lemma_first_unrecognised_without, lemma_without_key_contains, read_bool,
    read_string, without_key, Dict,
};
use crate::error::{ModelError, ModelErrorView};
use crate::rename::{style_named, RenameVariant};
use crate::text::{char_to_uppercase, fold_upper, str_eq, string_push};

verus! {

/// The fields of an alternative, as declared.
pub enum Fields {
    /// No fields and no brackets.
    Unit,
    /// Positional fields in parentheses, by count.
    Unnamed(usize),
    /// Named fields in braces, by name.
    Named(Vec<String>),
}

pub open spec fn field_count(f: Fields) -> nat {
    match f {
        Fields::Unit => 0,
        Fields::Unnamed(n) => n as nat,
        Fields::Named(names) => names@.len(),
    }
}

/// The name of the first field, when fields are named.
pub open spec fn first_field_name(f: Fields) -> Option<Seq<char>> {
    match f {
        Fields::Named(names) => if names@.len() > 0 {
            Some(names@[0]@)
        } else {
            None
        },
        _ => None,
    }
}

/// The brackets that an alternative without fields is written with.
#[derive(Clone, Copy, Debug, PartialEq, Eq, Structural)]
pub enum VariantConstructor {
    Unit,
    Paren,
    Brace,
}

pub open spec fn constructor_of(f: Fields) -> VariantConstructor {
    match f {
        Fields::Unit => VariantConstructor::Unit,
        Fields::Unnamed(_) => VariantConstructor::Paren,
        Fields::Named(_) => VariantConstructor::Brace,
    }
}

/// The declaration of one alternative: its identifier, its fields and its
/// key/value settings.
pub struct VariantDecl {
    pub ident: String,
    pub fields: Fields,
    pub attrs: Dict,
}

/// The declaration of an enumeration: its own settings and its alternatives,
/// in order.
pub struct EnumDecl {
    pub attrs: Dict,
    pub variants: Vec<VariantDecl>,
}

/// An alternative that maps to and from one key.
pub struct NamedVariant {
    name: String,
    name_upper: String,
    constructor: VariantConstructor,
    case_insensitive: bool,
}

pub struct NamedVariantView {
    pub name: Seq<char>,
    pub constructor: VariantConstructor,
    pub case_insensitive: bool,
}

impl View for NamedVariant {
    type V = NamedVariantView;

    closed spec fn view(&self) -> NamedVariantView {
        NamedVariantView {
            name: self.name@,
            constructor: self.constructor,
            case_insensitive: self.case_insensitive,
        }
    }
}

/// The catch-all alternative: its one field receives unmatched text.
pub struct OtherVariant {
    field_name: Option<String>,
}

impl View for OtherVariant {
    type V = Option<Seq<char>>;

    closed spec fn view(&self) -> Option<Seq<char>> {
        match self.field_name {
            Some(s) => Some(s@),
            None => None,
        }
    }
}

/// How an alternative is treated.
pub enum VariantType {
    Ignore,
    Named(NamedVariant),
    Other(OtherVariant),
}

pub enum VariantTypeView {
    Ignore,
    Named(NamedVariantView),
    Other(Option<Seq<char>>),
}

impl View for VariantType {
    type V = VariantTypeView;

    open spec fn view(&self) -> VariantTypeView {
        match self {
            VariantType::Ignore => VariantTypeView::Ignore,
            VariantType::Named(n) => VariantTypeView::Named(n@),
            VariantType::Other(o) => VariantTypeView::Other(o@),
        }
    }
}

/// A classified alternative.
pub struct Variant {
    pub ident: String,
    pub v_type: VariantType,
}

pub struct VariantView {
    pub ident: Seq<char>,
    pub v_type: VariantTypeView,
}

impl View for Variant {
    type V = VariantView;

    open spec fn view(&self) -> VariantView {
        VariantView { ident: self.ident@, v_type: self.v_type@ }
    }
}

pub open spec fn variants_view(vs: Seq<Variant>) -> Seq<VariantView> {
    vs.map_values(|v: Variant| v@)
}

impl NamedVariant {
    #[verifier::type_invariant]
    closed spec fn inv(self) -> bool {
        self.name_upper@ == fold_upper(self.name@)
    }

    /// A named alternative; the uppercase fold of its key is computed once here.
    pub fn new(name: String, constructor: VariantConstructor, case_insensitive: bool) -> (r: Self)
        ensures
            r@ == (NamedVariantView { name: name@, constructor, case_insensitive }),
    {
        let name_upper = char_wise_uppercase(name.as_str());
        NamedVariant { name, name_upper, constructor, case_insensitive }
    }

    pub fn name(&self) -> (r: &str)
        ensures
            r@ == self@.name,
    {
        self.name.as_str()
    }

    /// The uppercase fold of the key.
    pub fn name_upper(&self) -> (r: &str)
        ensures
            r@ == fold_upper(self@.name),
    {
        proof {
            use_type_invariant(self);
        }
        self.name_upper.as_str()
    }

    pub fn constructor(&self) -> (r: VariantConstructor)
        ensures
            r == self@.constructor,
    {
        self.constructor
    }

    pub fn case_insensitive(&self) -> (r: bool)
        ensures
            r == self@.case_insensitive,
    {
        self.case_insensitive
    }
}

impl OtherVariant {
    /// The name of the field that holds the text, when the field is named.
    pub fn field_name(&self) -> (r: Option<&str>)
        ensures
            r is Some <==> self@ is Some,
            r matches Some(s) ==> self@ == Some(s@),
    {
        match &self.field_name {
            Some(s) => Some(s.as_str()),
            None => None,
        }
    }
}

impl VariantType {
    pub fn as_named(&self) -> (r: Option<&NamedVariant>)
        ensures
            r is Some <==> self@ is Named,
            r matches Some(n) ==> self@ == VariantTypeView::Named(n@),
    {
        match self {
            VariantType::Named(named) => Some(named),
            _ => None,
        }
    }
}

/// The uppercase fold of a text, character by character.
pub fn char_wise_uppercase(s: &str) -> (r: String)
    ensures
        r@ == fold_upper(s@),
{
    let mut out = String::new();
    for c in it: s.chars()
        invariant
            it.seq() == s@,
            out@ == fold_upper(s@.take(it.index() as int)),
    {
        let ghost i = it.index() as int;
        assert(i < s@.len() && c == s@[i]);
        let upper = char_to_uppercase(c);
        let mut j: usize = 0;
        while j < upper.len()
            invariant
                j <= upper@.len(),
                out@ == fold_upper(s@.take(i)) + upper@.take(j as int),
            decreases upper@.len() - j,
        {
            string_push(&mut out, upper[j]);
            j = j + 1;
            proof {
                assert(out@ =~= fold_upper(s@.take(i)) + upper@.take(j as int));
            }
        }
        proof {
            assert(upper@.take(j as int) =~= upper@);
            assert(s@.take(i + 1).drop_last() =~= s@.take(i));
        }
    }
    proof {
        assert(s@.take(s@.len() as int) =~= s@);
    }
    out
}

/// The keys recognised on an alternative.
pub open spec fn is_variant_key(k: Seq<char>) -> bool {
    k == "str"@ || k == "other"@ || k == "ignore"@ || k == "case_insensitive"@ || k
        == "case_sensitive"@ || k == "rename"@
}

/// The keys recognised on the enumeration.
pub open spec fn is_enum_key(k: Seq<char>) -> bool {
    k == "case_insensitive"@ || k == "rename_all"@
}

/// The style that an optional style name selects.
pub open spec fn resolve_style(s: Option<Seq<char>>) -> Result<
    Option<RenameVariant>,
    ModelErrorView,
> {
    match s {
        None => Ok(None),
        Some(name) => match style_named(name) {
            Some(v) => Ok(Some(v)),
            None => Err(ModelErrorView::InvalidCase(name)),
        },
    }
}

/// The settings of the enumeration: the default case-insensitivity and the
/// default style.
pub open spec fn parse_global(attrs: Dict) -> Result<(bool, Option<RenameVariant>), ModelErrorView> {
    let m = attrs@;
    match read_bool(m, "case_insensitive"@) {
        Err(e) => Err(e),
        Ok(ci) => match read_string(m, "rename_all"@) {
            Err(e) => Err(e),
            Ok(name) => match resolve_style(name) {
                Err(e) => Err(e),
                Ok(style) => match first_unrecognised(attrs.key_order(), |k| is_enum_key(k)) {
                    Some(k) => Err(ModelErrorView::UnexpectedKey(k)),
                    None => Ok((ci == Some(true), style)),
                },
            },
        },
    }
}

/// The key of a named alternative: the explicit one, else its identifier in
/// the effective style.
pub open spec fn effective_name(
    ident: Seq<char>,
    explicit: Option<Seq<char>>,
    style: Option<RenameVariant>,
) -> Seq<char> {
    match explicit {
        Some(n) => n,
        None => match style {
            Some(r) => r.apply_spec(ident),
            None => ident,
        },
    }
}

/// Some earlier named alternative has this key.
pub open spec fn name_taken(prev: Seq<VariantView>, name: Seq<char>) -> bool {
    exists|i: int|
        0 <= i < prev.len() && ((#[trigger] prev[i]).v_type matches VariantTypeView::Named(n)
            && n.name == name)
}

/// Some earlier named alternative has this folded key, and it or the new one
/// is case-insensitive.
pub open spec fn folded_taken(prev: Seq<VariantView>, upper: Seq<char>, case_insensitive: bool) -> bool {
    exists|i: int|
        0 <= i < prev.len() && ((#[trigger] prev[i]).v_type matches VariantTypeView::Named(n)
            && fold_upper(n.name) == upper && (n.case_insensitive || case_insensitive))
}

/// Some earlier alternative is the catch-all.
pub open spec fn other_taken(prev: Seq<VariantView>) -> bool {
    exists|i: int| 0 <= i < prev.len() && (#[trigger] prev[i]).v_type is Other
}

/// The classification of one alternative once its settings are read.
pub open spec fn classify_kind(
    prev: Seq<VariantView>,
    d: VariantDecl,
    explicit: Option<Seq<char>>,
    other: bool,
    ignore: bool,
    case_insensitive: bool,
    style: Option<RenameVariant>,
) -> Result<VariantTypeView, ModelErrorView> {
    let ident = d.ident@;
    if ignore {
        Ok(VariantTypeView::Ignore)
    } else if other {
        if other_taken(prev) {
            Err(ModelErrorView::MultipleOther)
        } else if explicit is Some {
            Err(ModelErrorView::OtherWithName(ident))
        } else if field_count(d.fields) != 1 {
            Err(ModelErrorView::OtherFieldCount(ident))
        } else {
            Ok(VariantTypeView::Other(first_field_name(d.fields)))
        }
    } else {
        let name = effective_name(ident, explicit, style);
        if name_taken(prev, name) {
            Err(ModelErrorView::DuplicateName(name))
        } else if folded_taken(prev, fold_upper(name), case_insensitive) {
            Err(ModelErrorView::DuplicateFoldedName(name))
        } else if field_count(d.fields) != 0 {
            Err(ModelErrorView::NamedWithFields(ident))
        } else {
            Ok(
                VariantTypeView::Named(
                    NamedVariantView { name, constructor: constructor_of(d.fields), case_insensitive },
                ),
            )
        }
    }
}

/// The settings of one alternative, read from its declaration.
pub struct SettingsView {
    pub explicit: Option<Seq<char>>,
    pub other: bool,
    pub ignore: bool,
    pub case_insensitive: bool,
    pub style: Option<RenameVariant>,
}

/// Reads the settings of one alternative under the enumeration's defaults.
/// Keys are read in a fixed order, and the first problem found is reported.
pub open spec fn read_settings_spec(
    global_ci: bool,
    global_style: Option<RenameVariant>,
    attrs: Dict,
    ident: Seq<char>,
) -> Result<SettingsView, ModelErrorView> {
    let m = attrs@;
    match read_string(m, "str"@) {
        Err(e) => Err(e),
        Ok(explicit) => match read_bool(m, "other"@) {
            Err(e) => Err(e),
            Ok(other) => match read_bool(m, "ignore"@) {
                Err(e) => Err(e),
                Ok(ignore) => match read_bool(m, "case_insensitive"@) {
                    Err(e) => Err(e),
                    Ok(ci) => match read_bool(m, "case_sensitive"@) {
                        Err(e) => Err(e),
                        Ok(cs) => if ci == Some(true) && cs == Some(true) {
                            Err(ModelErrorView::BothCaseFlags(ident))
                        } else {
                            match read_string(m, "rename"@) {
                                Err(e) => Err(e),
                                Ok(name) => match resolve_style(name) {
                                    Err(e) => Err(e),
                                    Ok(style) => match first_unrecognised(
                                        attrs.key_order(),
                                        |k| is_variant_key(k),
                                    ) {
                                        Some(k) => Err(ModelErrorView::UnexpectedKey(k)),
                                        None => Ok(
                                            SettingsView {
                                                explicit,
                                                other: other == Some(true),
                                                ignore: ignore == Some(true),
                                                case_insensitive: if ci == Some(true) {
                                                    true
                                                } else if cs == Some(true) {
                                                    false
                                                } else {
                                                    global_ci
                                                },
                                                style: if style is Some {
                                                    style
                                                } else {
                                                    global_style
                                                },
                                            },
                                        ),
                                    },
                                },
                            }
                        },
                    },
                },
            },
        },
    }
}

/// The classification of one alternative after the earlier ones, under the
/// enumeration's defaults.
pub open spec fn classify(
    global_ci: bool,
    global_style: Option<RenameVariant>,
    prev: Seq<VariantView>,
    d: VariantDecl,
) -> Result<VariantTypeView, ModelErrorView> {
    match read_settings_spec(global_ci, global_style, d.attrs, d.ident@) {
        Err(e) => Err(e),
        Ok(st) => classify_kind(
            prev,
            d,
            st.explicit,
            st.other,
            st.ignore,
            st.case_insensitive,
            st.style,
        ),
    }
}

/// The alternatives classified in order, stopping at the first error.
pub open spec fn parse_variants(
    global_ci: bool,
    global_style: Option<RenameVariant>,
    ds: Seq<VariantDecl>,
) -> Result<Seq<VariantView>, ModelErrorView>
    decreases ds.len(),
{
    if ds.len() == 0 {
        Ok(Seq::empty())
    } else {
        match parse_variants(global_ci, global_style, ds.drop_last()) {
            Err(e) => Err(e),
            Ok(prev) => match classify(global_ci, global_style, prev, ds.last()) {
                Err(e) => Err(e),
                Ok(t) => Ok(prev.push(VariantView { ident: ds.last().ident@, v_type: t })),
            },
        }
    }
}

/// The model of a declared enumeration, or the first error in it.
pub open spec fn parse_spec(decl: EnumDecl) -> Result<Seq<VariantView>, ModelErrorView> {
    if decl.variants@.len() == 0 {
        Err(ModelErrorView::EmptyEnum)
    } else {
        match parse_global(decl.attrs) {
            Err(e) => Err(e),
            Ok((ci, style)) => parse_variants(ci, style, decl.variants@),
        }
    }
}

/// Whether some string of the list has this text.
pub open spec fn holds(v: Seq<String>, k: Seq<char>) -> bool {
    exists|i: int| 0 <= i < v.len() && (#[trigger] v[i])@ == k
}

/// Some earlier named alternative with the given case-insensitivity has this
/// folded key.
pub open spec fn folded_with(prev: Seq<VariantView>, upper: Seq<char>, case_insensitive: bool) -> bool {
    exists|i: int|
        0 <= i < prev.len() && ((#[trigger] prev[i]).v_type matches VariantTypeView::Named(n)
            && fold_upper(n.name) == upper && n.case_insensitive == case_insensitive)
}

/// The keys taken so far, as three lists (every key, the folded keys of
/// case-insensitive alternatives, those of the others), and whether the
/// catch-all has been seen.
struct Taken {
    names: Vec<String>,
    insensitive: Vec<String>,
    sensitive: Vec<String>,
    other: bool,
}

impl Taken {
    spec fn tracks(self, prev: Seq<VariantView>) -> bool {
        &&& forall|k: Seq<char>|
            #![trigger holds(self.names@, k)]
            #![trigger name_taken(prev, k)]
            holds(self.names@, k) == name_taken(prev, k)
        &&& forall|k: Seq<char>|
            #![trigger holds(self.insensitive@, k)]
            #![trigger folded_with(prev, k, true)]
            holds(self.insensitive@, k) == folded_with(prev, k, true)
        &&& forall|k: Seq<char>|
            #![trigger holds(self.sensitive@, k)]
            #![trigger folded_with(prev, k, false)]
            holds(self.sensitive@, k) == folded_with(prev, k, false)
        &&& self.other == other_taken(prev)
    }
}

/// Whether some string of the list equals `s`.
fn contains_str(v: &Vec<String>, s: &str) -> (r: bool)
    ensures
        r == holds(v@, s@),
{
    let mut i: usize = 0;
    while i < v.len()
        invariant
            i <= v@.len(),
            forall|j: int| 0 <= j < i ==> (#[trigger] v@[j])@ != s@,
        decreases v@.len() - i,
    {
        if str_eq(v[i].as_str(), s) {
            return true;
        }
        i = i + 1;
    }
    false
}

proof fn lemma_push_variant(prev: Seq<VariantView>, v: VariantView)
    ensures
        forall|k: Seq<char>|
            #[trigger] name_taken(prev.push(v), k) == (name_taken(prev, k) || (
            v.v_type matches VariantTypeView::Named(n) && n.name == k)),
        forall|k: Seq<char>, ci: bool|
            #[trigger] folded_with(prev.push(v), k, ci) == (folded_with(prev, k, ci) || (
            v.v_type matches VariantTypeView::Named(n) && fold_upper(n.name) == k
                && n.case_insensitive == ci)),
        other_taken(prev.push(v)) == (other_taken(prev) || v.v_type is Other),
{
    let p = prev.push(v);
    assert forall|k: Seq<char>|
        #[trigger] name_taken(p, k) == (name_taken(prev, k) || (
        v.v_type matches VariantTypeView::Named(n) && n.name == k)) by {
        if name_taken(prev, k) {
            let i = choose|i: int|
                0 <= i < prev.len() && ((#[trigger] prev[i]).v_type matches VariantTypeView::Named(
                    n,
                ) && n.name == k);
            assert(p[i] == prev[i]);
        }
        if v.v_type matches VariantTypeView::Named(n) && n.name == k {
            assert(p[prev.len() as int] == v);
        }
        if name_taken(p, k) {
            let i = choose|i: int|
                0 <= i < p.len() && ((#[trigger] p[i]).v_type matches VariantTypeView::Named(n)
                    && n.name == k);
            if i < prev.len() {
                assert(p[i] == prev[i]);
            }
        }
    }
    assert forall|k: Seq<char>, ci: bool|
        #[trigger] folded_with(p, k, ci) == (folded_with(prev, k, ci) || (
        v.v_type matches VariantTypeView::Named(n) && fold_upper(n.name) == k && n.case_insensitive
            == ci)) by {
        if folded_with(prev, k, ci) {
            let i = choose|i: int|
                0 <= i < prev.len() && ((#[trigger] prev[i]).v_type matches VariantTypeView::Named(
                    n,
                ) && fold_upper(n.name) == k && n.case_insensitive == ci);
            assert(p[i] == prev[i]);
        }
        if v.v_type matches VariantTypeView::Named(n) && fold_upper(n.name) == k
            && n.case_insensitive == ci {
            assert(p[prev.len() as int] == v);
        }
        if folded_with(p, k, ci) {
            let i = choose|i: int|
                0 <= i < p.len() && ((#[trigger] p[i]).v_type matches VariantTypeView::Named(n)
                    && fold_upper(n.name) == k && n.case_insensitive == ci);
            if i < prev.len() {
                assert(p[i] == prev[i]);
            }
        }
    }
    if other_taken(prev) {
        let i = choose|i: int| 0 <= i < prev.len() && (#[trigger] prev[i]).v_type is Other;
        assert(p[i] == prev[i]);
    }
    if v.v_type is Other {
        assert(p[prev.len() as int] == v);
    }
    if other_taken(p) {
        let i = choose|i: int| 0 <= i < p.len() && (#[trigger] p[i]).v_type is Other;
        if i < prev.len() {
            assert(p[i] == prev[i]);
        }
    }
}

proof fn lemma_folded_taken(prev: Seq<VariantView>, upper: Seq<char>, ci: bool)
    ensures
        folded_taken(prev, upper, ci) == (folded_with(prev, upper, true) || (ci && folded_with(
            prev,
            upper,
            false,
        ))),
{
    if folded_taken(prev, upper, ci) {
        let i = choose|i: int|
            0 <= i < prev.len() && ((#[trigger] prev[i]).v_type matches VariantTypeView::Named(n)
                && fold_upper(n.name) == upper && (n.case_insensitive || ci));
        assert(prev[i] == prev[i]);
    }
    if folded_with(prev, upper, true) {
        let i = choose|i: int|
            0 <= i < prev.len() && ((#[trigger] prev[i]).v_type matches VariantTypeView::Named(n)
                && fold_upper(n.name) == upper && n.case_insensitive == true);
        assert(prev[i] == prev[i]);
    }
    if ci && folded_with(prev, upper, false) {
        let i = choose|i: int|
            0 <= i < prev.len() && ((#[trigger] prev[i]).v_type matches VariantTypeView::Named(n)
                && fold_upper(n.name) == upper && n.case_insensitive == false);
        assert(prev[i] == prev[i]);
    }
}

/// Once the keys of an alternative are taken out, what is left starts with
/// its first unrecognised key, if any.
proof fn lemma_leftover_variant(order: Seq<Seq<char>>, left: Seq<Seq<char>>)
    requires
        left == without_key(
            without_key(
                without_key(
                    without_key(without_key(without_key(order, "str"@), "other"@), "ignore"@),
                    "case_insensitive"@,
                ),
                "case_sensitive"@,
            ),
            "rename"@,
        ),
    ensures
        first_unrecognised(order, |k| is_variant_key(k)) == (if left.len() > 0 {
            Some(left[0])
        } else {
            None
        }),
{
    let rec = |k| is_variant_key(k);
    let o1 = without_key(order, "str"@);
    let o2 = without_key(o1, "other"@);
    let o3 = without_key(o2, "ignore"@);
    let o4 = without_key(o3, "case_insensitive"@);
    let o5 = without_key(o4, "case_sensitive"@);
    lemma_first_unrecognised_without(order, "str"@, rec);
    lemma_first_unrecognised_without(o1, "other"@, rec);
    lemma_first_unrecognised_without(o2, "ignore"@, rec);
    lemma_first_unrecognised_without(o3, "case_insensitive"@, rec);
    lemma_first_unrecognised_without(o4, "case_sensitive"@, rec);
    lemma_first_unrecognised_without(o5, "rename"@, rec);
    if left.len() > 0 {
        let x = left[0];
        assert(left.contains(x));
        lemma_without_key_contains(o5, "rename"@, x);
        lemma_without_key_contains(o4, "case_sensitive"@, x);
        lemma_without_key_contains(o3, "case_insensitive"@, x);
        lemma_without_key_contains(o2, "ignore"@, x);
        lemma_without_key_contains(o1, "other"@, x);
        lemma_without_key_contains(order, "str"@, x);
    }
}

/// Once the keys of the enumeration are taken out, what is left starts with
/// its first unrecognised key, if any.
proof fn lemma_leftover_enum(order: Seq<Seq<char>>, left: Seq<Seq<char>>)
    requires
        left == without_key(without_key(order, "case_insensitive"@), "rename_all"@),
    ensures
        first_unrecognised(order, |k| is_enum_key(k)) == (if left.len() > 0 {
            Some(left[0])
        } else {
            None
        }),
{
    let rec = |k| is_enum_key(k);
    let o1 = without_key(order, "case_insensitive"@);
    lemma_first_unrecognised_without(order, "case_insensitive"@, rec);
    lemma_first_unrecognised_without(o1, "rename_all"@, rec);
    if left.len() > 0 {
        let x = left[0];
        assert(left.contains(x));
        lemma_without_key_contains(o1, "rename_all"@, x);
        lemma_without_key_contains(order, "case_insensitive"@, x);
    }
}

/// Once a prefix of the declarations fails, every longer prefix fails the same way.
proof fn lemma_parse_prefix_err(
    ci: bool,
    style: Option<RenameVariant>,
    ds: Seq<VariantDecl>,
    k: int,
    e: ModelErrorView,
)
    requires
        0 <= k <= ds.len(),
        parse_variants(ci, style, ds.take(k)) == Err::<Seq<VariantView>, _>(e),
    ensures
        parse_variants(ci, style, ds) == Err::<Seq<VariantView>, _>(e),
    decreases ds.len() - k,
{
    if k < ds.len() {
        assert(ds.take(k + 1).drop_last() =~= ds.take(k));
        lemma_parse_prefix_err(ci, style, ds, k + 1, e);
    } else {
        assert(ds.take(k) =~= ds);
    }
}

/// The settings of one alternative.
struct Settings {
    explicit: Option<String>,
    other: bool,
    ignore: bool,
    case_insensitive: bool,
    style: Option<RenameVariant>,
}

impl View for Settings {
    type V = SettingsView;

    closed spec fn view(&self) -> SettingsView {
        SettingsView {
            explicit: match self.explicit {
                Some(n) => Some(n@),
                None => None,
            },
            other: self.other,
            ignore: self.ignore,
            case_insensitive: self.case_insensitive,
            style: self.style,
        }
    }
}

/// Reads the settings of the alternative `ident` from its dictionary.
fn read_settings(
    global_ci: bool,
    global_style: Option<RenameVariant>,
    attrs: Dict,
    ident: &str,
) -> (r: Result<Settings, ModelError>)
    ensures
        r is Ok <==> read_settings_spec(global_ci, global_style, attrs, ident@) is Ok,
        r matches Ok(st) ==> read_settings_spec(global_ci, global_style, attrs, ident@)
            == Ok::<_, ModelErrorView>(st@),
        r matches Err(e) ==> read_settings_spec(global_ci, global_style, attrs, ident@)
            == Err::<SettingsView, _>(e@),
{
    proof {
        reveal_strlit("str");
        reveal_strlit("other");
        reveal_strlit("ignore");
        reveal_strlit("case_insensitive");
        reveal_strlit("case_sensitive");
        reveal_strlit("rename");
    }
    assert("str"@.len() == 3 && "other"@.len() == 5 && "ignore"@.len() == 6
        && "case_insensitive"@.len() == 16 && "case_sensitive"@.len() == 14 && "rename"@.len()
        == 6);
    assert("ignore"@ != "rename"@) by {
        assert("ignore"@[0] != "rename"@[0]);
    }
    let ghost order = attrs.key_order();
    let mut dict = attrs;
    let explicit = match dict.remove_string("str") {
        Ok(x) => x,
        Err(e) => return Err(e),
    };
    let other = match dict.remove_bool("other") {
        Ok(x) => x,
        Err(e) => return Err(e),
    };
    let ignore = match dict.remove_bool("ignore") {
        Ok(x) => x,
        Err(e) => return Err(e),
    };
    let ci = match dict.remove_bool("case_insensitive") {
        Ok(x) => x,
        Err(e) => return Err(e),
    };
    let cs = match dict.remove_bool("case_sensitive") {
        Ok(x) => x,
        Err(e) => return Err(e),
    };
    let ci_set = match ci {
        Some(b) => b,
        None => false,
    };
    let cs_set = match cs {
        Some(b) => b,
        None => false,
    };
    if ci_set && cs_set {
        return Err(ModelError::BothCaseFlags(ident.to_owned()));
    }
    let case_insensitive = if ci_set {
        true
    } else if cs_set {
        false
    } else {
        global_ci
    };
    let rename_name = match dict.remove_string("rename") {
        Ok(x) => x,
        Err(e) => return Err(e),
    };
    let style = match rename_name {
        None => global_style,
        Some(s) => match RenameVariant::from_str(s.as_str()) {
            Ok(v) => Some(v),
            Err(e) => return Err(e),
        },
    };
    proof {
        lemma_leftover_variant(order, dict.key_order());
    }
    match dict.assert_empty() {
        Ok(()) => {},
        Err(e) => return Err(e),
    }
    let other = match other {
        Some(b) => b,
        None => false,
    };
    let ignore = match ignore {
        Some(b) => b,
        None => false,
    };
    Ok(Settings { explicit, other, ignore, case_insensitive, style })
}

/// Pushing a string adds exactly its text to what the list holds.
proof fn lemma_holds_push(before: Seq<String>, s: String)
    ensures
        forall|k: Seq<char>| #[trigger] holds(before.push(s), k) == (holds(before, k) || k == s@),
{
    let after = before.push(s);
    assert forall|k: Seq<char>| #[trigger] holds(after, k) == (holds(before, k) || k == s@) by {
        if holds(after, k) {
            let i = choose|i: int| 0 <= i < after.len() && (#[trigger] after[i])@ == k;
            if i < before.len() {
                assert(after[i] == before[i]);
            }
        }
        if holds(before, k) {
            let i = choose|i: int| 0 <= i < before.len() && (#[trigger] before[i])@ == k;
            assert(after[i] == before[i]);
        }
        if k == s@ {
            assert(after[before.len() as int] == s);
        }
    }
}

/// Classifies one alternative, given the earlier ones as recorded in `taken`.
fn parse_variant(
    global_ci: bool,
    global_style: Option<RenameVariant>,
    d: VariantDecl,
    taken: &mut Taken,
    prev: Ghost<Seq<VariantView>>,
) -> (r: Result<Variant, ModelError>)
    requires
        old(taken).tracks(prev@),
    ensures
        r is Ok <==> classify(global_ci, global_style, prev@, d) is Ok,
        r matches Ok(v) ==> classify(global_ci, global_style, prev@, d) == Ok::<_, ModelErrorView>(
            v@.v_type,
        ) && v@.ident == d.ident@ && final(taken).tracks(prev@.push(v@)),
        r matches Err(e) ==> classify(global_ci, global_style, prev@, d) == Err::<VariantTypeView, _>(
            e@,
        ),
{
    let VariantDecl { ident, fields, attrs } = d;
    let st = match read_settings(global_ci, global_style, attrs, ident.as_str()) {
        Ok(st) => st,
        Err(e) => return Err(e),
    };
    let Settings { explicit, other, ignore, case_insensitive, style } = st;
    if ignore {
        let v = Variant { ident, v_type: VariantType::Ignore };
        proof {
            lemma_push_variant(prev@, v@);
        }
        return Ok(v);
    }
    if other {
        if taken.other {
            return Err(ModelError::MultipleOther);
        }
        if explicit.is_some() {
            return Err(ModelError::OtherWithName(ident));
        }
        let field_name = match fields {
            Fields::Named(names) => {
                if names.len() != 1 {
                    return Err(ModelError::OtherFieldCount(ident));
                }
                Some(names[0].clone())
            },
            Fields::Unnamed(n) => {
                if n != 1 {
                    return Err(ModelError::OtherFieldCount(ident));
                }
                None
            },
            Fields::Unit => {
                return Err(ModelError::OtherFieldCount(ident));
            },
        };
        taken.other = true;
        let v = Variant { ident, v_type: VariantType::Other(OtherVariant { field_name }) };
        proof {
            lemma_push_variant(prev@, v@);
        }
        return Ok(v);
    }
    let name = match explicit {
        Some(n) => n,
        None => match style {
            Some(r) => r.apply(ident.as_str()),
            None => ident.clone(),
        },
    };
    if contains_str(&taken.names, name.as_str()) {
        return Err(ModelError::DuplicateName(name));
    }
    let upper = char_wise_uppercase(name.as_str());
    proof {
        lemma_folded_taken(prev@, upper@, case_insensitive);
    }
    if contains_str(&taken.insensitive, upper.as_str()) || (case_insensitive && contains_str(
        &taken.sensitive,
        upper.as_str(),
    )) {
        return Err(ModelError::DuplicateFoldedName(name));
    }
    let constructor = match fields {
        Fields::Unit => VariantConstructor::Unit,
        Fields::Unnamed(n) => {
            if n != 0 {
                return Err(ModelError::NamedWithFields(ident));
            }
            VariantConstructor::Paren
        },
        Fields::Named(names) => {
            if names.len() != 0 {
                return Err(ModelError::NamedWithFields(ident));
            }
            VariantConstructor::Brace
        },
    };
    proof {
        lemma_holds_push(taken.names@, name);
        lemma_holds_push(taken.insensitive@, upper);
        lemma_holds_push(taken.sensitive@, upper);
    }
    taken.names.push(name.clone());
    if case_insensitive {
        taken.insensitive.push(upper);
    } else {
        taken.sensitive.push(upper);
    }
    let named = NamedVariant::new(name, constructor, case_insensitive);
    let v = Variant { ident, v_type: VariantType::Named(named) };
    proof {
        lemma_push_variant(prev@, v@);
    }
    Ok(v)
}

/// Validates and classifies the alternatives of a declared enumeration.
pub fn parse_enum(decl: EnumDecl) -> (r: Result<Enum, ModelError>)
    ensures
        r is Ok <==> parse_spec(decl) is Ok,
        r matches Ok(e) ==> parse_spec(decl) == Ok::<_, ModelErrorView>(e@) && valid_model(e@),
        r matches Err(x) ==> parse_spec(decl) == Err::<Seq<VariantView>, _>(x@),
{
    proof {
        reveal_strlit("case_insensitive");
        reveal_strlit("rename_all");
    }
    let ghost dd = decl;
    assert("case_insensitive"@ != "rename_all"@) by {
        assert("case_insensitive"@.len() != "rename_all"@.len());
    }
    let EnumDecl { attrs, variants } = decl;
    if variants.len() == 0 {
        return Err(ModelError::EmptyEnum);
    }
    let mut global = attrs;
    let ci = match global.remove_bool("case_insensitive") {
        Ok(x) => x,
        Err(e) => return Err(e),
    };
    let rename_name = match global.remove_string("rename_all") {
        Ok(x) => x,
        Err(e) => return Err(e),
    };
    let style = match rename_name {
        None => None,
        Some(s) => match RenameVariant::from_str(s.as_str()) {
            Ok(v) => Some(v),
            Err(e) => return Err(e),
        },
    };
    proof {
        lemma_leftover_enum(dd.attrs.key_order(), global.key_order());
    }
    match global.assert_empty() {
        Ok(()) => {},
        Err(e) => return Err(e),
    }
    let global_ci = match ci {
        Some(b) => b,
        None => false,
    };
    assert(read_bool(dd.attrs@, "case_insensitive"@) == Ok::<_, ModelErrorView>(ci));
    assert(resolve_style(read_string(dd.attrs@, "rename_all"@)->Ok_0) == Ok::<_, ModelErrorView>(style));
    assert(first_unrecognised(dd.attrs.key_order(), |k| is_enum_key(k)) is None);
    assert(parse_global(dd.attrs) == Ok::<_, ModelErrorView>((global_ci, style)));
    let ghost ds = variants@;
    let mut rest = variants;
    let mut out: Vec<Variant> = Vec::new();
    let mut taken = Taken {
        names: Vec::new(),
        insensitive: Vec::new(),
        sensitive: Vec::new(),
        other: false,
    };
    let ghost mut n: int = 0;
    proof {
        assert(ds.take(0) =~= Seq::<VariantDecl>::empty());
        assert(variants_view(out@) =~= Seq::<VariantView>::empty());
    }
    while rest.len() > 0
        invariant
            dd == decl,
            ds == dd.variants@,
            ds.len() > 0,
            parse_global(dd.attrs) == Ok::<_, ModelErrorView>((global_ci, style)),
            0 <= n <= ds.len(),
            rest@ == ds.skip(n),
            parse_variants(global_ci, style, ds.take(n)) == Ok::<_, ModelErrorView>(
                variants_view(out@),
            ),
            taken.tracks(variants_view(out@)),
        decreases rest@.len(),
    {
        let ghost before = rest@;
        let d = rest.remove(0);
        proof {
            assert(before[0] == ds[n]);
            assert(rest@ =~= ds.skip(n + 1));
            assert(ds.take(n + 1).drop_last() =~= ds.take(n));
            assert(ds.take(n + 1).last() == ds[n]);
        }
        let ghost prev = variants_view(out@);
        let ghost dg = d;
        assert(dg == ds[n]);
        match parse_variant(global_ci, style, d, &mut taken, Ghost(prev)) {
            Ok(v) => {
                out.push(v);
                proof {
                    assert(variants_view(out@) =~= prev.push(v@));
                    n = n + 1;
                }
            },
            Err(e) => {
                proof {
                    let x = classify(global_ci, style, prev, dg)->Err_0;
                    assert(parse_variants(global_ci, style, ds.take(n + 1))
                        == Err::<Seq<VariantView>, _>(x));
                    lemma_parse_prefix_err(global_ci, style, ds, n + 1, x);
                }
                return Err(e);
            },
        }
    }
    proof {
        assert(ds.take(n) =~= ds);
        lemma_parse_valid(dd);
    }
    Ok(Enum::new(out))
}

/// The invariant of a validated model: named keys are pairwise distinct;
/// where either of two named alternatives is case-insensitive, their folded
/// keys are distinct too; and at most one alternative is the catch-all.
pub open spec fn valid_model(vs: Seq<VariantView>) -> bool {
    &&& forall|i: int, j: int|
        #![trigger vs[i], vs[j]]
        0 <= i < vs.len() && 0 <= j < vs.len() && i != j && vs[i].v_type is Named && vs[j].v_type is Named
            ==> vs[i].v_type->Named_0.name != vs[j].v_type->Named_0.name
    &&& forall|i: int, j: int|
        #![trigger vs[i], vs[j]]
        0 <= i < vs.len() && 0 <= j < vs.len() && i != j && vs[i].v_type is Named && vs[j].v_type is Named
            && (vs[i].v_type->Named_0.case_insensitive || vs[j].v_type->Named_0.case_insensitive)
            ==> fold_upper(vs[i].v_type->Named_0.name) != fold_upper(vs[j].v_type->Named_0.name)
    &&& forall|i: int, j: int|
        #![trigger vs[i], vs[j]]
        0 <= i < vs.len() && 0 <= j < vs.len() && vs[i].v_type is Other && vs[j].v_type is Other ==> i
            == j
}

proof fn lemma_parse_variants_valid(ci: bool, style: Option<RenameVariant>, ds: Seq<VariantDecl>)
    requires
        parse_variants(ci, style, ds) is Ok,
    ensures
        valid_model(parse_variants(ci, style, ds)->Ok_0),
        parse_variants(ci, style, ds)->Ok_0.len() == ds.len(),
        forall|i: int|
            0 <= i < ds.len() ==> (#[trigger] parse_variants(ci, style, ds)->Ok_0[i]).ident
                == ds[i].ident@,
    decreases ds.len(),
{
    if ds.len() > 0 {
        lemma_parse_variants_valid(ci, style, ds.drop_last());
        let prev = parse_variants(ci, style, ds.drop_last())->Ok_0;
        let t = classify(ci, style, prev, ds.last())->Ok_0;
        let vs = parse_variants(ci, style, ds)->Ok_0;
        let n = prev.len() as int;
        assert(vs == prev.push(VariantView { ident: ds.last().ident@, v_type: t }));
        assert forall|i: int| 0 <= i < n implies #[trigger] vs[i] == prev[i] by {}
        assert forall|i: int, j: int|
            #![trigger vs[i], vs[j]]
            0 <= i < vs.len() && 0 <= j < vs.len() && i != j && vs[i].v_type is Named
                && vs[j].v_type is Named implies vs[i].v_type->Named_0.name
            != vs[j].v_type->Named_0.name by {
            if i == n {
                assert(!name_taken(prev, vs[i].v_type->Named_0.name));
                assert(prev[j] == vs[j]);
            } else if j == n {
                assert(!name_taken(prev, vs[j].v_type->Named_0.name));
                assert(prev[i] == vs[i]);
            } else {
                assert(prev[i] == vs[i] && prev[j] == vs[j]);
            }
        }
        assert forall|i: int, j: int|
            #![trigger vs[i], vs[j]]
            0 <= i < vs.len() && 0 <= j < vs.len() && i != j && vs[i].v_type is Named
                && vs[j].v_type is Named && (vs[i].v_type->Named_0.case_insensitive
                || vs[j].v_type->Named_0.case_insensitive) implies fold_upper(
            vs[i].v_type->Named_0.name,
        ) != fold_upper(vs[j].v_type->Named_0.name) by {
            if i == n {
                let nv = vs[i].v_type->Named_0;
                assert(!folded_taken(prev, fold_upper(nv.name), nv.case_insensitive));
                assert(prev[j] == vs[j]);
            } else if j == n {
                let nv = vs[j].v_type->Named_0;
                assert(!folded_taken(prev, fold_upper(nv.name), nv.case_insensitive));
                assert(prev[i] == vs[i]);
            } else {
                assert(prev[i] == vs[i] && prev[j] == vs[j]);
            }
        }
        assert forall|i: int, j: int|
            #![trigger vs[i], vs[j]]
            0 <= i < vs.len() && 0 <= j < vs.len() && vs[i].v_type is Other
                && vs[j].v_type is Other implies i == j by {
            if i == n && j != n {
                assert(!other_taken(prev));
                assert(prev[j] == vs[j]);
            } else if j == n && i != n {
                assert(!other_taken(prev));
                assert(prev[i] == vs[i]);
            } else if i != n && j != n {
                assert(prev[i] == vs[i] && prev[j] == vs[j]);
            }
        }
        assert forall|i: int| 0 <= i < ds.len() implies (#[trigger] vs[i]).ident == ds[i].ident@ by {
            if i < n {
                assert(ds.drop_last()[i] == ds[i]);
            }
        }
    }
}

/// A model is built only when its named keys are pairwise distinct, also
/// under uppercase folding wherever one of the two alternatives is
/// case-insensitive, and when at most one alternative is the catch-all; it
/// then has exactly one alternative per declared one, in order. Declarations
/// that would give two alternatives the same key, or two catch-alls, are
/// rejected rather than merged.
pub proof fn lemma_parse_valid(decl: EnumDecl)
    requires
        parse_spec(decl) is Ok,
    ensures
        valid_model(parse_spec(decl)->Ok_0),
        parse_spec(decl)->Ok_0.len() == decl.variants@.len(),
        forall|i: int|
            0 <= i < decl.variants@.len() ==> (#[trigger] parse_spec(decl)->Ok_0[i]).ident
                == decl.variants@[i].ident@,
{
    let (ci, style) = parse_global(decl.attrs)->Ok_0;
    lemma_parse_variants_valid(ci, style, decl.variants@);
}

/// The validated model of an enumeration: its alternatives in order, and the
/// longest key and longest folded key, in bytes.
pub struct Enum {
    variants: Vec<Variant>,
    name_capacity: usize,
    name_upper_capacity: usize,
}

impl View for Enum {
    type V = Seq<VariantView>;

    closed spec fn view(&self) -> Seq<VariantView> {
        variants_view(self.variants@)
    }
}

/// The longest encoded key (or folded key) among the named alternatives.
pub open spec fn max_name_len(vs: Seq<VariantView>, upper: bool) -> nat
    decreases vs.len(),
{
    if vs.len() == 0 {
        0
    } else {
        let m = max_name_len(vs.drop_last(), upper);
        match vs.last().v_type {
            VariantTypeView::Named(n) => {
                let len = encode_utf8(
                    if upper {
                        fold_upper(n.name)
                    } else {
                        n.name
                    },
                ).len();
                if len > m {
                    len
                } else {
                    m
                }
            },
            _ => m,
        }
    }
}

/// Every named key (or folded key) is at most the maximum long.
pub proof fn lemma_max_name_len(vs: Seq<VariantView>, upper: bool, i: int)
    requires
        0 <= i < vs.len(),
        vs[i].v_type is Named,
    ensures
        encode_utf8(
            if upper {
                fold_upper(vs[i].v_type->Named_0.name)
            } else {
                vs[i].v_type->Named_0.name
            },
        ).len() <= max_name_len(vs, upper),
    decreases vs.len(),
{
    if i < vs.len() - 1 {
        assert(vs.drop_last()[i] == vs[i]);
        lemma_max_name_len(vs.drop_last(), upper, i);
    }
}

impl Enum {
    #[verifier::type_invariant]
    closed spec fn inv(self) -> bool {
        &&& self.name_capacity == max_name_len(variants_view(self.variants@), false)
        &&& self.name_upper_capacity == max_name_len(variants_view(self.variants@), true)
    }

    /// The model of a list of classified alternatives.
    pub fn new(variants: Vec<Variant>) -> (r: Self)
        ensures
            r@ == variants_view(variants@),
    {
        let mut name_capacity: usize = 0;
        let mut name_upper_capacity: usize = 0;
        let mut i: usize = 0;
        while i < variants.len()
            invariant
                i <= variants@.len(),
                name_capacity == max_name_len(variants_view(variants@).take(i as int), false),
                name_upper_capacity == max_name_len(variants_view(variants@).take(i as int), true),
            decreases variants@.len() - i,
        {
            let ghost vv = variants_view(variants@);
            proof {
                assert(vv.take(i + 1).drop_last() =~= vv.take(i as int));
                assert(vv[i as int] == variants@[i as int]@);
                assert(vv.take(i + 1).last() == variants@[i as int]@);
            }
            if let Some(named) = variants[i].v_type.as_named() {
                let len = named.name().as_bytes().len();
                proof {
                    assert(len == encode_utf8(named@.name).len());
                }
                if len > name_capacity {
                    name_capacity = len;
                }
                let upper = named.name_upper();
                let upper_len = upper.as_bytes().len();
                proof {
                    assert(upper_len == encode_utf8(fold_upper(named@.name)).len());
                }
                if upper_len > name_upper_capacity {
                    name_upper_capacity = upper_len;
                }
            }
            i = i + 1;
        }
        proof {
            assert(variants_view(variants@).take(i as int) =~= variants_view(variants@));
        }
        Enum { variants, name_capacity, name_upper_capacity }
    }

    pub fn variants(&self) -> (r: &Vec<Variant>)
        ensures
            variants_view(r@) == self@,
    {
        &self.variants
    }

    /// The length in bytes of the longest key.
    pub fn name_capacity(&self) -> (r: usize)
        ensures
            r == max_name_len(self@, false),
    {
        proof {
            use_type_invariant(self);
        }
        self.name_capacity
    }

    /// The length in bytes of the longest folded key.
    pub fn name_upper_capacity(&self) -> (r: usize)
        ensures
            r == max_name_len(self@, true),
    {
        proof {
            use_type_invariant(self);
        }
        self.name_upper_capacity
    }
}

} // verus!
