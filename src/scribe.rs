//! The dispatch engine: conversion of alternatives to text, and of text back
//! to alternatives with a fixed precedence.

use vstd::prelude::*;
use vstd::utf8::encode_utf8;

use crate::capped_string::CappedString;
use crate::enums::{
    char_wise_uppercase, variants_view, Enum, VariantType, VariantTypeView, VariantView,
    lemma_max_name_len, max_name_len, valid_model,
};
use crate::error::{ModelError, ModelErrorView};
use crate::text::{fold_upper, str_eq};

verus! {

/// A value of an enumeration, as far as conversion is concerned: the
/// position of its alternative, and for the catch-all the text it holds.
#[derive(Debug, PartialEq, Eq)]
pub enum Alternative {
    Plain(usize),
    Other(usize, String),
}

pub enum AlternativeView {
    Plain(int),
    Other(int, Seq<char>),
}

impl View for Alternative {
    type V = AlternativeView;

    open spec fn view(&self) -> AlternativeView {
        match self {
            Alternative::Plain(i) => AlternativeView::Plain(*i as int),
            Alternative::Other(i, s) => AlternativeView::Other(*i as int, s@),
        }
    }
}

pub open spec fn option_view(a: Option<Alternative>) -> Option<AlternativeView> {
    match a {
        Some(x) => Some(x@),
        None => None,
    }
}

/// A list of keys, each with the position of its alternative.
pub open spec fn entries_view(v: Seq<(String, usize)>) -> Seq<(Seq<char>, int)> {
    v.map_values(|p: (String, usize)| (p.0@, p.1 as int))
}

/// The position that goes with the first entry whose key is `k`.
pub open spec fn first_key(entries: Seq<(Seq<char>, int)>, k: Seq<char>) -> Option<int>
    decreases entries.len(),
{
    if entries.len() == 0 {
        None
    } else if entries[0].0 == k {
        Some(entries[0].1)
    } else {
        first_key(entries.drop_first(), k)
    }
}

/// The three groups that backward conversion consults: exact keys, folded
/// keys of case-insensitive alternatives, and the catch-all.
pub struct TableView {
    pub sensitive: Seq<(Seq<char>, int)>,
    pub insensitive: Seq<(Seq<char>, int)>,
    pub other: Option<int>,
}

/// Backward conversion: an exact key first, then a folded key, then the
/// catch-all with the text as given, else no match.
pub open spec fn unscribe_spec(t: TableView, s: Seq<char>) -> Option<AlternativeView> {
    match first_key(t.sensitive, s) {
        Some(i) => Some(AlternativeView::Plain(i)),
        None => match first_key(t.insensitive, fold_upper(s)) {
            Some(i) => Some(AlternativeView::Plain(i)),
            None => match t.other {
                Some(o) => Some(AlternativeView::Other(o, s)),
                None => None,
            },
        },
    }
}

/// The exact keys of the case-sensitive named alternatives, in order.
pub open spec fn sensitive_entries(vs: Seq<VariantView>) -> Seq<(Seq<char>, int)>
    decreases vs.len(),
{
    if vs.len() == 0 {
        Seq::empty()
    } else {
        let p = sensitive_entries(vs.drop_last());
        match vs.last().v_type {
            VariantTypeView::Named(n) => if !n.case_insensitive {
                p.push((n.name, vs.len() - 1))
            } else {
                p
            },
            _ => p,
        }
    }
}

/// The folded keys of the case-insensitive named alternatives, in order.
pub open spec fn insensitive_entries(vs: Seq<VariantView>) -> Seq<(Seq<char>, int)>
    decreases vs.len(),
{
    if vs.len() == 0 {
        Seq::empty()
    } else {
        let p = insensitive_entries(vs.drop_last());
        match vs.last().v_type {
            VariantTypeView::Named(n) => if n.case_insensitive {
                p.push((fold_upper(n.name), vs.len() - 1))
            } else {
                p
            },
            _ => p,
        }
    }
}

/// The position of the catch-all (the last one, should there be several).
pub open spec fn other_index(vs: Seq<VariantView>) -> Option<int>
    decreases vs.len(),
{
    if vs.len() == 0 {
        None
    } else if vs.last().v_type is Other {
        Some(vs.len() - 1)
    } else {
        other_index(vs.drop_last())
    }
}

pub open spec fn table_of(vs: Seq<VariantView>) -> TableView {
    TableView {
        sensitive: sensitive_entries(vs),
        insensitive: insensitive_entries(vs),
        other: other_index(vs),
    }
}

/// Text back to an alternative of the model.
pub open spec fn from_text_spec(vs: Seq<VariantView>, s: Seq<char>) -> Option<AlternativeView> {
    unscribe_spec(table_of(vs), s)
}

/// An alternative to text: a named one gives its key, the catch-all the text
/// it holds, an ignored one nothing.
pub open spec fn to_text_spec(vs: Seq<VariantView>, a: AlternativeView) -> Option<Seq<char>> {
    match a {
        AlternativeView::Plain(i) => match vs[i].v_type {
            VariantTypeView::Named(n) => Some(n.name),
            _ => None,
        },
        AlternativeView::Other(_, s) => Some(s),
    }
}

/// The value is one that the model can hold: its position is in range, and
/// it carries text exactly when its alternative is the catch-all.
pub open spec fn admits(vs: Seq<VariantView>, a: AlternativeView) -> bool {
    match a {
        AlternativeView::Plain(i) => 0 <= i < vs.len() && !(vs[i].v_type is Other),
        AlternativeView::Other(i, _) => 0 <= i < vs.len() && vs[i].v_type is Other,
    }
}

/// The position that goes with the first entry whose key is `k`.
fn find_key(entries: &Vec<(String, usize)>, k: &str) -> (r: Option<usize>)
    ensures
        match r {
            Some(i) => first_key(entries_view(entries@), k@) == Some(i as int),
            None => first_key(entries_view(entries@), k@) is None,
        },
{
    let ghost all = entries_view(entries@);
    let mut i: usize = 0;
    assert(all.skip(0) =~= all);
    while i < entries.len()
        invariant
            all == entries_view(entries@),
            i <= entries@.len(),
            first_key(all, k@) == first_key(all.skip(i as int), k@),
        decreases entries@.len() - i,
    {
        proof {
            assert(all.skip(i as int)[0] == all[i as int]);
            assert(all.skip(i as int).drop_first() =~= all.skip(i + 1));
        }
        if str_eq(entries[i].0.as_str(), k) {
            return Some(entries[i].1);
        }
        i = i + 1;
    }
    proof {
        assert(all.skip(i as int).len() == 0);
    }
    None
}

/// The matching table of an enumeration, built once: the three groups that
/// backward conversion consults, and the longest folded key in bytes.
pub struct MatchTable {
    sensitive: Vec<(String, usize)>,
    insensitive: Vec<(String, usize)>,
    other: Option<usize>,
    upper_capacity: usize,
}

impl View for MatchTable {
    type V = TableView;

    closed spec fn view(&self) -> TableView {
        TableView {
            sensitive: entries_view(self.sensitive@),
            insensitive: entries_view(self.insensitive@),
            other: match self.other {
                Some(o) => Some(o as int),
                None => None,
            },
        }
    }
}

impl MatchTable {
    /// Every folded key fits in the capacity.
    #[verifier::type_invariant]
    closed spec fn inv(self) -> bool {
        forall|j: int|
            0 <= j < self.insensitive@.len() ==> encode_utf8((#[trigger] self.insensitive@[j]).0@).len()
                <= self.upper_capacity
    }

    /// Groups the named alternatives of a model by case-sensitivity, in
    /// order, and notes its catch-all.
    pub fn from_enum(e: &Enum) -> (r: Self)
        ensures
            r@ == table_of(e@),
            r.capacity() == max_name_len(e@, true),
    {
        let variants = e.variants();
        let ghost vv = e@;
        let mut sensitive: Vec<(String, usize)> = Vec::new();
        let mut insensitive: Vec<(String, usize)> = Vec::new();
        let mut other: Option<usize> = None;
        let mut i: usize = 0;
        proof {
            assert(vv.take(0) =~= Seq::<VariantView>::empty());
            assert(entries_view(sensitive@) =~= Seq::empty());
            assert(entries_view(insensitive@) =~= Seq::empty());
        }
        while i < variants.len()
            invariant
                vv == variants_view(variants@),
                i <= variants@.len(),
                entries_view(sensitive@) == sensitive_entries(vv.take(i as int)),
                entries_view(insensitive@) == insensitive_entries(vv.take(i as int)),
                match other {
                    Some(o) => other_index(vv.take(i as int)) == Some(o as int),
                    None => other_index(vv.take(i as int)) is None,
                },
                forall|j: int|
                    0 <= j < insensitive@.len() ==> encode_utf8(
                        (#[trigger] insensitive@[j]).0@,
                    ).len() <= max_name_len(vv, true),
            decreases variants@.len() - i,
        {
            proof {
                assert(vv.take(i + 1).drop_last() =~= vv.take(i as int));
                assert(vv[i as int] == variants@[i as int]@);
                assert(vv.take(i + 1).last() == vv[i as int]);
            }
            let ghost before_i = insensitive@;
            match &variants[i].v_type {
                VariantType::Named(named) => {
                    if named.case_insensitive() {
                        let upper = named.name_upper();
                        proof {
                            lemma_max_name_len(vv, true, i as int);
                        }
                        insensitive.push((upper.to_owned(), i));
                    } else {
                        sensitive.push((named.name().to_owned(), i));
                    }
                },
                VariantType::Other(_) => {
                    other = Some(i);
                },
                VariantType::Ignore => {},
            }
            proof {
                assert(entries_view(sensitive@) =~= sensitive_entries(vv.take(i + 1)));
                assert(entries_view(insensitive@) =~= insensitive_entries(vv.take(i + 1)));
                assert forall|j: int| 0 <= j < insensitive@.len() implies encode_utf8(
                    (#[trigger] insensitive@[j]).0@,
                ).len() <= max_name_len(vv, true) by {
                    if j < before_i.len() {
                        assert(insensitive@[j] == before_i[j]);
                    }
                }
            }
            i = i + 1;
        }
        proof {
            assert(vv.take(i as int) =~= vv);
        }
        let upper_capacity = e.name_upper_capacity();
        MatchTable { sensitive, insensitive, other, upper_capacity }
    }

    /// A table from explicit groups: exact keys, keys of case-insensitive
    /// alternatives (folded here), and the catch-all.
    pub fn new(
        sensitive: Vec<(String, usize)>,
        insensitive: Vec<(String, usize)>,
        other: Option<usize>,
    ) -> (r: Self)
        ensures
            r@.sensitive == entries_view(sensitive@),
            r@.insensitive == entries_view(insensitive@).map_values(
                |p: (Seq<char>, int)| (fold_upper(p.0), p.1),
            ),
            r@.other == match other {
                Some(o) => Some(o as int),
                None => None::<int>,
            },
    {
        let ghost given = entries_view(insensitive@);
        let mut folded: Vec<(String, usize)> = Vec::new();
        let mut upper_capacity: usize = 0;
        let mut i: usize = 0;
        while i < insensitive.len()
            invariant
                given == entries_view(insensitive@),
                i <= insensitive@.len(),
                folded@.len() == i,
                entries_view(folded@) == given.take(i as int).map_values(
                    |p: (Seq<char>, int)| (fold_upper(p.0), p.1),
                ),
                forall|j: int|
                    0 <= j < folded@.len() ==> encode_utf8((#[trigger] folded@[j]).0@).len()
                        <= upper_capacity,
            decreases insensitive@.len() - i,
        {
            let upper = char_wise_uppercase(insensitive[i].0.as_str());
            let len = upper.as_str().as_bytes().len();
            if len > upper_capacity {
                upper_capacity = len;
            }
            let ghost before = folded@;
            folded.push((upper, insensitive[i].1));
            proof {
                assert(given[i as int] == (insensitive@[i as int].0@, insensitive@[i as int].1 as int));
                let f = |p: (Seq<char>, int)| (fold_upper(p.0), p.1);
                assert forall|j: int| 0 <= j < i implies #[trigger] entries_view(folded@)[j]
                    == given.take(i + 1).map_values(f)[j] by {
                    assert(folded@[j] == before[j]);
                    assert(entries_view(before)[j] == given.take(i as int).map_values(f)[j]);
                }
                assert(entries_view(folded@)[i as int] == given.take(i + 1).map_values(f)[i as int]);
                assert(entries_view(folded@) =~= given.take(i + 1).map_values(f));
                assert forall|j: int| 0 <= j < folded@.len() implies encode_utf8(
                    (#[trigger] folded@[j]).0@,
                ).len() <= upper_capacity by {
                    if j < before.len() {
                        assert(folded@[j] == before[j]);
                    }
                }
            }
            i = i + 1;
        }
        proof {
            assert(given.take(i as int) =~= given);
        }
        MatchTable { sensitive, insensitive: folded, other, upper_capacity }
    }

    /// The length in bytes of the longest folded key.
    pub closed spec fn capacity(&self) -> nat {
        self.upper_capacity as nat
    }

    pub fn upper_capacity(&self) -> (r: usize)
        ensures
            r == self.capacity(),
    {
        self.upper_capacity
    }

    /// Converts text back to an alternative: an exact key first, then, with
    /// the text folded into a buffer of `CAP` bytes, a folded key, then the
    /// catch-all with the text as given. A text whose fold does not fit in
    /// the buffer cannot match a folded key, and goes on to the catch-all.
    pub fn try_unscribe<const CAP: usize>(&self, s: &str) -> (r: Option<Alternative>)
        requires
            self.capacity() <= CAP,
        ensures
            option_view(r) == unscribe_spec(self@, s@),
    {
        match find_key(&self.sensitive, s) {
            Some(i) => {
                return Some(Alternative::Plain(i));
            },
            None => {},
        }
        if self.insensitive.len() > 0 {
            match CappedString::<CAP>::uppercase_from_str(s) {
                Some(upper) => match find_key(&self.insensitive, upper.as_str()) {
                    Some(i) => {
                        return Some(Alternative::Plain(i));
                    },
                    None => {},
                },
                None => {
                    proof {
                        use_type_invariant(self);
                        self.lemma_no_long_key(fold_upper(s@), CAP as nat);
                    }
                },
            }
        } else {
            assert(entries_view(self.insensitive@).len() == 0);
        }
        match self.other {
            Some(o) => Some(Alternative::Other(o, s.to_owned())),
            None => None,
        }
    }

    /// A text longer than every folded key matches none of them.
    proof fn lemma_no_long_key(&self, k: Seq<char>, cap: nat)
        requires
            self.inv(),
            self.upper_capacity <= cap,
            encode_utf8(k).len() > cap,
        ensures
            first_key(entries_view(self.insensitive@), k) is None,
    {
        let all = entries_view(self.insensitive@);
        assert forall|j: int| 0 <= j < all.len() implies (#[trigger] all[j]).0 != k by {
            assert(all[j].0 == self.insensitive@[j].0@);
        }
        lemma_first_key_absent(all, k);
    }
}

/// Whether the model holds an alternative that the predicate picks.
pub open spec fn has_ignored(vs: Seq<VariantView>) -> bool {
    exists|i: int| 0 <= i < vs.len() && (#[trigger] vs[i]).v_type is Ignore
}

pub open spec fn has_other(vs: Seq<VariantView>) -> bool {
    exists|i: int| 0 <= i < vs.len() && (#[trigger] vs[i]).v_type is Other
}

/// The four shapes a converter can take, chosen by whether some alternative
/// is ignored (forward conversion can then fail) and whether there is a
/// catch-all (forward conversion then hands out owned text, and backward
/// conversion always succeeds).
#[derive(Clone, Copy, Debug, PartialEq, Eq, Structural)]
pub enum Flavor {
    /// Every alternative has a key known in advance.
    Static,
    /// Some alternative is ignored; none is a catch-all.
    TryStatic,
    /// There is a catch-all; none is ignored.
    Owned,
    /// Both an ignored alternative and a catch-all.
    TryOwned,
}

pub open spec fn flavor_spec(vs: Seq<VariantView>) -> Flavor {
    match (has_ignored(vs), has_other(vs)) {
        (false, false) => Flavor::Static,
        (true, false) => Flavor::TryStatic,
        (false, true) => Flavor::Owned,
        (true, true) => Flavor::TryOwned,
    }
}

/// The converters that can be asked for, one per derivable trait.
#[derive(Clone, Copy, Debug, PartialEq, Eq, Structural)]
pub enum Derive {
    ScribeStaticStr,
    TryScribeStaticStr,
    ScribeString,
    TryScribeString,
    ScribeCowStr,
    TryScribeCowStr,
    Unscribe,
    TryUnscribe,
}

/// What a converter cannot represent in an alternative of this kind.
pub open spec fn refuses(d: Derive, t: VariantTypeView) -> bool {
    match d {
        Derive::ScribeStaticStr => t is Other || t is Ignore,
        Derive::TryScribeStaticStr => t is Other,
        Derive::ScribeString | Derive::ScribeCowStr => t is Ignore,
        _ => false,
    }
}

/// The error a converter reports for an alternative it refuses.
pub open spec fn refusal(ident: Seq<char>, t: VariantTypeView) -> ModelErrorView {
    if t is Other {
        ModelErrorView::OtherNotSupported(ident)
    } else {
        ModelErrorView::IgnoreNotSupported(ident)
    }
}

/// Whether a converter can be derived for the model: the first alternative
/// it refuses, in order, is reported; backward conversion without failure
/// needs a catch-all.
pub open spec fn check_spec(vs: Seq<VariantView>, d: Derive) -> Result<(), ModelErrorView>
    decreases vs.len(),
{
    if vs.len() == 0 {
        if d == Derive::Unscribe {
            Err(ModelErrorView::OtherRequired)
        } else {
            Ok(())
        }
    } else {
        match check_spec(vs.drop_last(), d) {
            Err(e) => if d == Derive::Unscribe && vs.last().v_type is Other {
                Ok(())
            } else {
                Err(e)
            },
            Ok(()) => if refuses(d, vs.last().v_type) {
                Err(refusal(vs.last().ident, vs.last().v_type))
            } else {
                Ok(())
            },
        }
    }
}

/// The keys of the named alternatives, in order.
pub open spec fn named_keys_spec(vs: Seq<VariantView>) -> Seq<Seq<char>>
    decreases vs.len(),
{
    if vs.len() == 0 {
        Seq::empty()
    } else {
        let p = named_keys_spec(vs.drop_last());
        match vs.last().v_type {
            VariantTypeView::Named(n) => p.push(n.name),
            _ => p,
        }
    }
}

impl Enum {
    /// The keys of the named alternatives, in order: the texts that backward
    /// conversion can match exactly, for reporting.
    pub fn named_keys(&self) -> (r: Vec<&str>)
        ensures
            r@.map_values(|k: &str| k@) == named_keys_spec(self@),
    {
        let vs = self.variants();
        let mut keys: Vec<&str> = Vec::new();
        let mut i: usize = 0;
        while i < vs.len()
            invariant
                variants_view(vs@) == self@,
                i <= vs@.len(),
                keys@.map_values(|k: &str| k@) == named_keys_spec(self@.take(i as int)),
            decreases vs@.len() - i,
        {
            proof {
                assert(self@[i as int] == vs@[i as int]@);
                assert(self@.take(i + 1).drop_last() =~= self@.take(i as int));
                assert(self@.take(i + 1).last() == self@[i as int]);
            }
            if let Some(named) = vs[i].v_type.as_named() {
                keys.push(named.name());
            }
            proof {
                assert(keys@.map_values(|k: &str| k@) =~= named_keys_spec(self@.take(i + 1)));
            }
            i = i + 1;
        }
        proof {
            assert(self@.take(i as int) =~= self@);
        }
        keys
    }

    /// The matching table for backward conversion.
    pub fn match_table(&self) -> (r: MatchTable)
        ensures
            r@ == table_of(self@),
            r.capacity() == max_name_len(self@, true),
    {
        MatchTable::from_enum(self)
    }

    /// Converts text back to an alternative, or `None` when nothing matches.
    /// `CAP` must hold the longest folded key.
    pub fn try_unscribe<const CAP: usize>(&self, s: &str) -> (r: Option<Alternative>)
        requires
            max_name_len(self@, true) <= CAP,
        ensures
            option_view(r) == from_text_spec(self@, s@),
    {
        self.match_table().try_unscribe::<CAP>(s)
    }

    /// Converts text back to an alternative of a model with a catch-all,
    /// which takes whatever matches no key.
    pub fn unscribe<const CAP: usize>(&self, s: &str) -> (r: Alternative)
        requires
            max_name_len(self@, true) <= CAP,
            other_index(self@) is Some,
        ensures
            from_text_spec(self@, s@) == Some(r@),
    {
        match self.try_unscribe::<CAP>(s) {
            Some(a) => a,
            None => Alternative::Plain(0),
        }
    }

    /// The key of a named alternative; `None` for the others.
    pub fn scribe_str(&self, i: usize) -> (r: Option<&str>)
        requires
            i < self@.len(),
        ensures
            r is Some <==> self@[i as int].v_type is Named,
            r matches Some(k) ==> to_text_spec(self@, AlternativeView::Plain(i as int)) == Some(k@),
    {
        let vs = self.variants();
        proof {
            assert(self@[i as int] == vs@[i as int]@);
        }
        match vs[i].v_type.as_named() {
            Some(named) => Some(named.name()),
            None => None,
        }
    }

    /// Converts a value to text: a named alternative gives its key, the
    /// catch-all its text, an ignored alternative `None`.
    pub fn try_scribe(&self, a: &Alternative) -> (r: Option<String>)
        requires
            admits(self@, a@),
        ensures
            match r {
                Some(t) => to_text_spec(self@, a@) == Some(t@),
                None => to_text_spec(self@, a@) is None,
            },
    {
        match a {
            Alternative::Plain(i) => match self.scribe_str(*i) {
                Some(k) => Some(k.to_owned()),
                None => None,
            },
            Alternative::Other(_, s) => Some(s.clone()),
        }
    }

    /// Converts a value that is not of an ignored alternative to text.
    pub fn scribe(&self, a: &Alternative) -> (r: String)
        requires
            admits(self@, a@),
            a@ matches AlternativeView::Plain(i) ==> !(self@[i].v_type is Ignore),
        ensures
            to_text_spec(self@, a@) == Some(r@),
    {
        match self.try_scribe(a) {
            Some(t) => t,
            None => String::new(),
        }
    }

    /// Which of the four converter shapes the model calls for.
    pub fn flavor(&self) -> (r: Flavor)
        ensures
            r == flavor_spec(self@),
    {
        let vs = self.variants();
        let mut ignored = false;
        let mut other = false;
        let mut i: usize = 0;
        while i < vs.len()
            invariant
                variants_view(vs@) == self@,
                i <= vs@.len(),
                ignored == has_ignored(self@.take(i as int)),
                other == has_other(self@.take(i as int)),
            decreases vs@.len() - i,
        {
            proof {
                assert(self@[i as int] == vs@[i as int]@);
                assert(self@.take(i + 1)[i as int] == self@[i as int]);
                assert forall|j: int| 0 <= j < i implies self@.take(i + 1)[j] == #[trigger] self@.take(
                    i as int,
                )[j] by {}
            }
            match &vs[i].v_type {
                VariantType::Ignore => {
                    ignored = true;
                },
                VariantType::Other(_) => {
                    other = true;
                },
                VariantType::Named(_) => {},
            }
            i = i + 1;
        }
        proof {
            assert(self@.take(i as int) =~= self@);
        }
        match (ignored, other) {
            (false, false) => Flavor::Static,
            (true, false) => Flavor::TryStatic,
            (false, true) => Flavor::Owned,
            (true, true) => Flavor::TryOwned,
        }
    }

    /// Whether the converter `d` can be derived for this model.
    pub fn check_derive(&self, d: Derive) -> (r: Result<(), ModelError>)
        ensures
            match r {
                Ok(()) => check_spec(self@, d) is Ok,
                Err(e) => check_spec(self@, d) == Err::<(), _>(e@),
            },
    {
        let vs = self.variants();
        let mut i: usize = 0;
        let mut seen_other = false;
        while i < vs.len()
            invariant
                variants_view(vs@) == self@,
                i <= vs@.len(),
                seen_other == has_other(self@.take(i as int)),
                d == Derive::Unscribe ==> check_spec(self@.take(i as int), d) == (if seen_other {
                    Ok::<(), ModelErrorView>(())
                } else {
                    Err(ModelErrorView::OtherRequired)
                }),
                d != Derive::Unscribe ==> check_spec(self@.take(i as int), d) is Ok,
            decreases vs@.len() - i,
        {
            proof {
                assert(self@[i as int] == vs@[i as int]@);
                assert(self@.take(i + 1).drop_last() =~= self@.take(i as int));
                assert(self@.take(i + 1)[i as int] == self@[i as int]);
                assert forall|j: int| 0 <= j < i implies self@.take(i + 1)[j] == #[trigger] self@.take(
                    i as int,
                )[j] by {}
            }
            let refused = match (&vs[i].v_type, d) {
                (VariantType::Other(_), Derive::ScribeStaticStr) => true,
                (VariantType::Other(_), Derive::TryScribeStaticStr) => true,
                (VariantType::Ignore, Derive::ScribeStaticStr) => true,
                (VariantType::Ignore, Derive::ScribeString) => true,
                (VariantType::Ignore, Derive::ScribeCowStr) => true,
                _ => false,
            };
            if refused {
                proof {
                    lemma_check_prefix_err(self@, d, i + 1);
                }
                let ident = vs[i].ident.clone();
                return match &vs[i].v_type {
                    VariantType::Other(_) => Err(ModelError::OtherNotSupported(ident)),
                    _ => Err(ModelError::IgnoreNotSupported(ident)),
                };
            }
            if let VariantType::Other(_) = &vs[i].v_type {
                seen_other = true;
            }
            i = i + 1;
        }
        proof {
            assert(self@.take(i as int) =~= self@);
        }
        if d == Derive::Unscribe && !seen_other {
            return Err(ModelError::OtherRequired);
        }
        Ok(())
    }
}

/// Once a converter refuses an alternative, it refuses the whole model.
proof fn lemma_check_prefix_err(vs: Seq<VariantView>, d: Derive, k: int)
    requires
        0 <= k <= vs.len(),
        d != Derive::Unscribe,
    ensures
        check_spec(vs.take(k), d) is Err ==> check_spec(vs, d) == check_spec(vs.take(k), d),
    decreases vs.len() - k,
{
    if k < vs.len() {
        assert(vs.take(k + 1).drop_last() =~= vs.take(k));
        lemma_check_prefix_err(vs, d, k + 1);
    } else {
        assert(vs.take(k) =~= vs);
    }
}

/// When every entry keyed `k` goes with position `x`, and there is one, the
/// first one gives `x`.
proof fn lemma_first_key_only(entries: Seq<(Seq<char>, int)>, k: Seq<char>, x: int)
    requires
        exists|e: int| 0 <= e < entries.len() && entries[e].0 == k,
        forall|e: int| 0 <= e < entries.len() && (#[trigger] entries[e]).0 == k ==> entries[e].1 == x,
    ensures
        first_key(entries, k) == Some(x),
    decreases entries.len(),
{
    if entries[0].0 != k {
        let e = choose|e: int| 0 <= e < entries.len() && entries[e].0 == k;
        assert(entries.drop_first()[e - 1] == entries[e]);
        assert forall|f: int| 0 <= f < entries.len() - 1 && (#[trigger] entries.drop_first()[f]).0
            == k implies entries.drop_first()[f].1 == x by {
            assert(entries.drop_first()[f] == entries[f + 1]);
        }
        lemma_first_key_only(entries.drop_first(), k, x);
    }
}

/// The entries of each group are the named alternatives of that group, with
/// their (folded) keys and positions.
proof fn lemma_entries(vs: Seq<VariantView>)
    ensures
        forall|e: int|
            0 <= e < sensitive_entries(vs).len() ==> {
                let j = (#[trigger] sensitive_entries(vs)[e]).1;
                &&& 0 <= j < vs.len()
                &&& vs[j].v_type is Named
                &&& !vs[j].v_type->Named_0.case_insensitive
                &&& sensitive_entries(vs)[e].0 == vs[j].v_type->Named_0.name
            },
        forall|e: int|
            0 <= e < insensitive_entries(vs).len() ==> {
                let j = (#[trigger] insensitive_entries(vs)[e]).1;
                &&& 0 <= j < vs.len()
                &&& vs[j].v_type is Named
                &&& vs[j].v_type->Named_0.case_insensitive
                &&& insensitive_entries(vs)[e].0 == fold_upper(vs[j].v_type->Named_0.name)
            },
        forall|j: int|
            0 <= j < vs.len() && (#[trigger] vs[j]).v_type is Named
                && !vs[j].v_type->Named_0.case_insensitive ==> exists|e: int|
                0 <= e < sensitive_entries(vs).len() && sensitive_entries(vs)[e] == (
                    vs[j].v_type->Named_0.name,
                    j,
                ),
        forall|j: int|
            0 <= j < vs.len() && (#[trigger] vs[j]).v_type is Named
                && vs[j].v_type->Named_0.case_insensitive ==> exists|e: int|
                0 <= e < insensitive_entries(vs).len() && insensitive_entries(vs)[e] == (
                    fold_upper(vs[j].v_type->Named_0.name),
                    j,
                ),
    decreases vs.len(),
{
    if vs.len() > 0 {
        let init = vs.drop_last();
        lemma_entries(init);
        let n = init.len() as int;
        assert forall|j: int| 0 <= j < n implies #[trigger] vs[j] == init[j] by {}
        let s0 = sensitive_entries(init);
        let i0 = insensitive_entries(init);
        assert forall|j: int|
            0 <= j < vs.len() && (#[trigger] vs[j]).v_type is Named
                && !vs[j].v_type->Named_0.case_insensitive implies exists|e: int|
            0 <= e < sensitive_entries(vs).len() && sensitive_entries(vs)[e] == (
                vs[j].v_type->Named_0.name,
                j,
            ) by {
            if j < n {
                assert(init[j] == vs[j]);
                let e = choose|e: int|
                    0 <= e < s0.len() && s0[e] == (init[j].v_type->Named_0.name, j);
                assert(sensitive_entries(vs)[e] == s0[e]);
            } else {
                assert(sensitive_entries(vs)[s0.len() as int] == (vs[j].v_type->Named_0.name, j));
            }
        }
        assert forall|j: int|
            0 <= j < vs.len() && (#[trigger] vs[j]).v_type is Named
                && vs[j].v_type->Named_0.case_insensitive implies exists|e: int|
            0 <= e < insensitive_entries(vs).len() && insensitive_entries(vs)[e] == (
                fold_upper(vs[j].v_type->Named_0.name),
                j,
            ) by {
            if j < n {
                assert(init[j] == vs[j]);
                let e = choose|e: int|
                    0 <= e < i0.len() && i0[e] == (fold_upper(init[j].v_type->Named_0.name), j);
                assert(insensitive_entries(vs)[e] == i0[e]);
            } else {
                assert(insensitive_entries(vs)[i0.len() as int] == (
                    fold_upper(vs[j].v_type->Named_0.name),
                    j,
                ));
            }
        }
        assert forall|e: int| 0 <= e < sensitive_entries(vs).len() implies {
            let j = (#[trigger] sensitive_entries(vs)[e]).1;
            &&& 0 <= j < vs.len()
            &&& vs[j].v_type is Named
            &&& !vs[j].v_type->Named_0.case_insensitive
            &&& sensitive_entries(vs)[e].0 == vs[j].v_type->Named_0.name
        } by {
            if e < s0.len() {
                assert(sensitive_entries(vs)[e] == s0[e]);
                assert(vs[s0[e].1] == init[s0[e].1]);
            }
        }
        assert forall|e: int| 0 <= e < insensitive_entries(vs).len() implies {
            let j = (#[trigger] insensitive_entries(vs)[e]).1;
            &&& 0 <= j < vs.len()
            &&& vs[j].v_type is Named
            &&& vs[j].v_type->Named_0.case_insensitive
            &&& insensitive_entries(vs)[e].0 == fold_upper(vs[j].v_type->Named_0.name)
        } by {
            if e < i0.len() {
                assert(insensitive_entries(vs)[e] == i0[e]);
                assert(vs[i0[e].1] == init[i0[e].1]);
            }
        }
    }
}

/// Round trip: a named alternative's key converts back to that alternative,
/// and so does every text with the same uppercase fold as the key when the
/// alternative is case-insensitive.
pub proof fn lemma_round_trip(vs: Seq<VariantView>, i: int)
    requires
        valid_model(vs),
        0 <= i < vs.len(),
        vs[i].v_type is Named,
    ensures
        to_text_spec(vs, AlternativeView::Plain(i)) == Some(vs[i].v_type->Named_0.name),
        from_text_spec(vs, vs[i].v_type->Named_0.name) == Some(AlternativeView::Plain(i)),
        vs[i].v_type->Named_0.case_insensitive ==> forall|m: Seq<char>|
            fold_upper(m) == fold_upper(vs[i].v_type->Named_0.name) ==> #[trigger] from_text_spec(
                vs,
                m,
            ) == Some(AlternativeView::Plain(i)),
{
    lemma_entries(vs);
    let name = vs[i].v_type->Named_0.name;
    let sens = sensitive_entries(vs);
    let insens = insensitive_entries(vs);
    if !vs[i].v_type->Named_0.case_insensitive {
        assert forall|e: int| 0 <= e < sens.len() && (#[trigger] sens[e]).0 == name implies sens[e].1
            == i by {
            let j = sens[e].1;
            assert(vs[j] == vs[j] && vs[i] == vs[i]);
        }
        lemma_first_key_only(sens, name, i);
    } else {
        assert forall|m: Seq<char>| fold_upper(m) == fold_upper(name) implies #[trigger] from_text_spec(
            vs,
            m,
        ) == Some(AlternativeView::Plain(i)) by {
            assert forall|e: int| 0 <= e < sens.len() implies (#[trigger] sens[e]).0 != m by {
                let j = sens[e].1;
                assert(vs[j] == vs[j] && vs[i] == vs[i]);
            }
            lemma_first_key_absent(sens, m);
            assert forall|e: int| 0 <= e < insens.len() && (#[trigger] insens[e]).0 == fold_upper(m)
                implies insens[e].1 == i by {
                let j = insens[e].1;
                assert(vs[j] == vs[j] && vs[i] == vs[i]);
            }
            lemma_first_key_only(insens, fold_upper(m), i);
        }
        assert(from_text_spec(vs, name) == Some(AlternativeView::Plain(i)));
    }
}

/// Without an entry keyed `k`, there is no first one.
proof fn lemma_first_key_absent(entries: Seq<(Seq<char>, int)>, k: Seq<char>)
    requires
        forall|j: int| 0 <= j < entries.len() ==> (#[trigger] entries[j]).0 != k,
    ensures
        first_key(entries, k) is None,
    decreases entries.len(),
{
    if entries.len() > 0 {
        assert forall|j: int| 0 <= j < entries.len() - 1 implies (#[trigger] entries.drop_first()[j]).0
            != k by {
            assert(entries.drop_first()[j] == entries[j + 1]);
        }
        assert(entries[0].0 != k);
        lemma_first_key_absent(entries.drop_first(), k);
    }
}

} // verus!
