//! Declarations as key/value dictionaries, and the typed reading of their values.

use vstd::prelude::*;

use crate::error::{ModelError, ModelErrorView};
use crate::text::str_eq;

verus! {

/// The kind of a literal that is neither a string nor a boolean.
#[derive(Clone, Copy, Debug, PartialEq, Eq, Structural)]
pub enum LitKind {
    ByteStr,
    Byte,
    Char,
    Int,
    Float,
    Verbatim,
}

/// The value given to a key in a declaration.
#[derive(Debug)]
pub enum Value {
    /// A key written on its own, without `= value`.
    Flag,
    /// A boolean literal.
    Bool(bool),
    /// A string literal.
    Str(String),
    /// An identifier.
    Ident(String),
    /// Any other literal.
    Lit(LitKind),
}

/// The boolean that a value stands for: a bare key stands for `true`.
pub open spec fn bool_of(v: Value) -> Option<bool> {
    match v {
        Value::Flag => Some(true),
        Value::Bool(b) => Some(b),
        _ => None,
    }
}

/// The text that a value stands for, if it is a string literal.
pub open spec fn string_of(v: Value) -> Option<Seq<char>> {
    match v {
        Value::Str(s) => Some(s@),
        _ => None,
    }
}

/// A name for the kind of a value, as used in messages.
pub open spec fn kind_name_spec(v: Value) -> Seq<char> {
    match v {
        Value::Flag => "nothing"@,
        Value::Bool(_) => "boolean"@,
        Value::Str(_) => "string"@,
        Value::Ident(_) => "identifier"@,
        Value::Lit(LitKind::ByteStr) => "byte string"@,
        Value::Lit(LitKind::Byte) => "byte"@,
        Value::Lit(LitKind::Char) => "character"@,
        Value::Lit(LitKind::Int) => "integer"@,
        Value::Lit(LitKind::Float) => "float"@,
        Value::Lit(LitKind::Verbatim) => "verbatim literal"@,
    }
}

impl Value {
    /// A name for the kind of this value.
    pub fn kind_name(&self) -> (r: &'static str)
        ensures
            r@ == kind_name_spec(*self),
    {
        match self {
            Value::Flag => "nothing",
            Value::Bool(_) => "boolean",
            Value::Str(_) => "string",
            Value::Ident(_) => "identifier",
            Value::Lit(LitKind::ByteStr) => "byte string",
            Value::Lit(LitKind::Byte) => "byte",
            Value::Lit(LitKind::Char) => "character",
            Value::Lit(LitKind::Int) => "integer",
            Value::Lit(LitKind::Float) => "float",
            Value::Lit(LitKind::Verbatim) => "verbatim literal",
        }
    }

    /// The boolean this value stands for; a bare key is `true`.
    pub fn value_bool(&self) -> (r: Option<bool>)
        ensures
            r == bool_of(*self),
    {
        match self {
            Value::Flag => Some(true),
            Value::Bool(b) => Some(*b),
            _ => None,
        }
    }

    /// The text this value stands for, if it is a string literal.
    pub fn value_string(&self) -> (r: Option<String>)
        ensures
            r is Some <==> string_of(*self) is Some,
            r matches Some(s) ==> string_of(*self) == Some(s@),
    {
        match self {
            Value::Str(s) => Some(s.clone()),
            _ => None,
        }
    }
}

/// Reading an optional boolean: absent, the boolean it stands for, or an
/// error naming the key.
pub open spec fn read_bool(m: Map<Seq<char>, Value>, key: Seq<char>) -> Result<
    Option<bool>,
    ModelErrorView,
> {
    if !m.contains_key(key) {
        Ok(None)
    } else {
        match bool_of(m[key]) {
            Some(b) => Ok(Some(b)),
            None => Err(ModelErrorView::ExpectedBool(key)),
        }
    }
}

/// Reading an optional string: absent, its text, or an error naming the key.
pub open spec fn read_string(m: Map<Seq<char>, Value>, key: Seq<char>) -> Result<
    Option<Seq<char>>,
    ModelErrorView,
> {
    if !m.contains_key(key) {
        Ok(None)
    } else {
        match string_of(m[key]) {
            Some(s) => Ok(Some(s)),
            None => Err(ModelErrorView::ExpectedString(key)),
        }
    }
}

/// The map that a list of key/value pairs with distinct keys describes.
pub open spec fn map_of(entries: Seq<(Seq<char>, Value)>) -> Map<Seq<char>, Value>
    decreases entries.len(),
{
    if entries.len() == 0 {
        Map::empty()
    } else {
        map_of(entries.drop_last()).insert(entries.last().0, entries.last().1)
    }
}

/// No key occurs twice.
pub open spec fn distinct_keys(entries: Seq<(Seq<char>, Value)>) -> bool {
    forall|i: int, j: int|
        0 <= i < entries.len() && 0 <= j < entries.len() && i != j ==> entries[i].0 != entries[j].0
}

/// The keys of a list of pairs, as views.
pub open spec fn pairs_view(pairs: Seq<(String, Value)>) -> Seq<(Seq<char>, Value)> {
    pairs.map_values(|p: (String, Value)| (p.0@, p.1))
}

/// The keys of a list of pairs, in order.
pub open spec fn keys_of(entries: Seq<(Seq<char>, Value)>) -> Seq<Seq<char>> {
    entries.map_values(|p: (Seq<char>, Value)| p.0)
}

/// A list of keys with `k` left out.
pub open spec fn without_key(s: Seq<Seq<char>>, k: Seq<char>) -> Seq<Seq<char>>
    decreases s.len(),
{
    if s.len() == 0 {
        s
    } else if s[0] == k {
        without_key(s.drop_first(), k)
    } else {
        seq![s[0]] + without_key(s.drop_first(), k)
    }
}

/// The first key of the list that is not recognised.
pub open spec fn first_unrecognised(
    s: Seq<Seq<char>>,
    recognised: spec_fn(Seq<char>) -> bool,
) -> Option<Seq<char>>
    decreases s.len(),
{
    if s.len() == 0 {
        None
    } else if !recognised(s[0]) {
        Some(s[0])
    } else {
        first_unrecognised(s.drop_first(), recognised)
    }
}

/// Leaving out a recognised key does not change the first unrecognised one.
pub proof fn lemma_first_unrecognised_without(
    s: Seq<Seq<char>>,
    k: Seq<char>,
    recognised: spec_fn(Seq<char>) -> bool,
)
    requires
        recognised(k),
    ensures
        first_unrecognised(without_key(s, k), recognised) == first_unrecognised(s, recognised),
    decreases s.len(),
{
    if s.len() > 0 {
        lemma_first_unrecognised_without(s.drop_first(), k, recognised);
        if s[0] != k {
            let w = seq![s[0]] + without_key(s.drop_first(), k);
            assert(w[0] == s[0]);
            assert(w.drop_first() =~= without_key(s.drop_first(), k));
        }
    }
}

/// What is left after leaving out `k` was there before, and is not `k`.
pub proof fn lemma_without_key_contains(s: Seq<Seq<char>>, k: Seq<char>, x: Seq<char>)
    ensures
        without_key(s, k).contains(x) ==> s.contains(x) && x != k,
    decreases s.len(),
{
    if s.len() > 0 {
        lemma_without_key_contains(s.drop_first(), k, x);
        if without_key(s, k).contains(x) {
            if s[0] == k {
                let m = choose|m: int| 0 <= m < s.drop_first().len() && s.drop_first()[m] == x;
                assert(s[m + 1] == x);
            } else {
                let w = seq![s[0]] + without_key(s.drop_first(), k);
                let j = choose|j: int| 0 <= j < w.len() && w[j] == x;
                if j > 0 {
                    assert(w[j] == without_key(s.drop_first(), k)[j - 1]);
                    assert(without_key(s.drop_first(), k).contains(x));
                    let m = choose|m: int| 0 <= m < s.drop_first().len() && s.drop_first()[m] == x;
                    assert(s[m + 1] == x);
                } else {
                    assert(s[0] == x);
                }
            }
        }
    }
}

/// In a list without repeats, leaving out the key at `i` removes that position.
proof fn lemma_without_key_at(s: Seq<Seq<char>>, i: int)
    requires
        0 <= i < s.len(),
        forall|a: int, b: int| 0 <= a < s.len() && 0 <= b < s.len() && a != b ==> s[a] != s[b],
    ensures
        without_key(s, s[i]) == s.remove(i),
    decreases s.len(),
{
    let k = s[i];
    if i == 0 {
        lemma_without_key_absent(s.drop_first(), k);
        assert(s.remove(0) =~= s.drop_first());
    } else {
        let t = s.drop_first();
        assert(t[i - 1] == k);
        lemma_without_key_at(t, i - 1);
        assert(s.remove(i) =~= seq![s[0]] + t.remove(i - 1));
    }
}

/// Leaving out a key that is not there changes nothing.
proof fn lemma_without_key_absent(s: Seq<Seq<char>>, k: Seq<char>)
    requires
        !s.contains(k),
    ensures
        without_key(s, k) == s,
    decreases s.len(),
{
    if s.len() > 0 {
        assert(s[0] != k);
        assert(!s.drop_first().contains(k)) by {
            if s.drop_first().contains(k) {
                let j = choose|j: int| 0 <= j < s.drop_first().len() && s.drop_first()[j] == k;
                assert(s[j + 1] == k);
            }
        }
        lemma_without_key_absent(s.drop_first(), k);
        assert(seq![s[0]] + s.drop_first() =~= s);
    }
}

/// The position of the first pair whose key already occurred earlier.
pub open spec fn first_repeat(entries: Seq<(Seq<char>, Value)>) -> Option<int> {
    if distinct_keys(entries) {
        None
    } else {
        Some(
            choose|j: int|
                #![trigger entries[j]]
                0 <= j < entries.len() && (exists|i: int| 0 <= i < j && entries[i].0 == entries[j].0)
                    && distinct_keys(entries.take(j)),
        )
    }
}

proof fn lemma_first_repeat(all: Seq<(Seq<char>, Value)>, i: int, n: int)
    requires
        0 <= i < n < all.len(),
        all[i].0 == all[n].0,
        distinct_keys(all.take(n)),
    ensures
        first_repeat(all) == Some(n),
{
    assert(!distinct_keys(all));
    assert(all[n] == all[n] && exists|b: int| 0 <= b < n && all[b].0 == all[n].0);
    let j = first_repeat(all)->0;
    assert(0 <= j < all.len() && (exists|b: int| 0 <= b < j && all[b].0 == all[j].0) && distinct_keys(
        all.take(j),
    ));
    let b = choose|b: int| 0 <= b < j && all[b].0 == all[j].0;
    if j < n {
        assert(all.take(n)[b] == all[b] && all.take(n)[j] == all[j]);
    } else if j > n {
        assert(all.take(j)[i] == all[i] && all.take(j)[n] == all[n]);
    }
}

proof fn lemma_map_of_contains(entries: Seq<(Seq<char>, Value)>, k: Seq<char>)
    requires
        distinct_keys(entries),
    ensures
        map_of(entries).contains_key(k) <==> exists|i: int| 0 <= i < entries.len() && entries[i].0 == k,
        forall|i: int|
            0 <= i < entries.len() && entries[i].0 == k ==> map_of(entries)[k] == entries[i].1,
    decreases entries.len(),
{
    if entries.len() > 0 {
        let init = entries.drop_last();
        assert(distinct_keys(init));
        lemma_map_of_contains(init, k);
        if map_of(init).contains_key(k) {
            let i = choose|i: int| 0 <= i < init.len() && init[i].0 == k;
            assert(entries[i] == init[i]);
        }
        if exists|i: int| 0 <= i < entries.len() && entries[i].0 == k {
            let i = choose|i: int| 0 <= i < entries.len() && entries[i].0 == k;
            if i < entries.len() - 1 {
                assert(init[i] == entries[i]);
            }
        }
        assert forall|i: int| 0 <= i < entries.len() && entries[i].0 == k implies map_of(entries)[k]
            == entries[i].1 by {
            if i < entries.len() - 1 {
                assert(entries[i] == init[i]);
            }
        }
    }
}

proof fn lemma_map_of_remove(entries: Seq<(Seq<char>, Value)>, i: int)
    requires
        distinct_keys(entries),
        0 <= i < entries.len(),
    ensures
        distinct_keys(entries.remove(i)),
        map_of(entries.remove(i)) == map_of(entries).remove(entries[i].0),
{
    let rest = entries.remove(i);
    assert(distinct_keys(rest)) by {
        assert forall|a: int, b: int|
            0 <= a < rest.len() && 0 <= b < rest.len() && a != b implies rest[a].0 != rest[b].0 by {
            let a2 = if a < i { a } else { a + 1 };
            let b2 = if b < i { b } else { b + 1 };
            assert(rest[a] == entries[a2] && rest[b] == entries[b2]);
        }
    }
    assert forall|k: Seq<char>| #[trigger] map_of(rest).contains_key(k) == map_of(entries).remove(
        entries[i].0,
    ).contains_key(k) by {
        lemma_map_of_contains(rest, k);
        lemma_map_of_contains(entries, k);
        if map_of(rest).contains_key(k) {
            let a = choose|a: int| 0 <= a < rest.len() && rest[a].0 == k;
            let a2 = if a < i { a } else { a + 1 };
            assert(rest[a] == entries[a2]);
        }
        if map_of(entries).contains_key(k) && k != entries[i].0 {
            let a = choose|a: int| 0 <= a < entries.len() && entries[a].0 == k;
            let a2 = if a < i { a } else { a - 1 };
            assert(rest[a2] == entries[a]);
        }
    }
    assert forall|k: Seq<char>| #[trigger] map_of(rest).contains_key(k) implies map_of(rest)[k]
        == map_of(entries)[k] by {
        lemma_map_of_contains(rest, k);
        lemma_map_of_contains(entries, k);
        let a = choose|a: int| 0 <= a < rest.len() && rest[a].0 == k;
        let a2 = if a < i { a } else { a + 1 };
        assert(rest[a] == entries[a2]);
    }
    assert(map_of(rest) =~= map_of(entries).remove(entries[i].0));
}

/// The key/value pairs of one declaration, keys distinct.
pub struct Dict {
    entries: Vec<(String, Value)>,
}

impl View for Dict {
    type V = Map<Seq<char>, Value>;

    closed spec fn view(&self) -> Map<Seq<char>, Value> {
        map_of(pairs_view(self.entries@))
    }
}

impl Dict {
    #[verifier::type_invariant]
    closed spec fn inv(self) -> bool {
        distinct_keys(pairs_view(self.entries@))
    }

    /// The keys, in the order they were written.
    pub closed spec fn key_order(&self) -> Seq<Seq<char>> {
        keys_of(pairs_view(self.entries@))
    }

    /// An empty dictionary.
    pub fn new() -> (r: Self)
        ensures
            r@ == Map::<Seq<char>, Value>::empty(),
            r.key_order() == Seq::<Seq<char>>::empty(),
    {
        let d = Dict { entries: Vec::new() };
        assert(pairs_view(d.entries@) =~= Seq::empty());
        d
    }

    /// Collects the pairs of a declaration, in the order written; a key that
    /// occurs twice is rejected.
    pub fn from_pairs(pairs: Vec<(String, Value)>) -> (r: Result<Self, ModelError>)
        ensures
            first_repeat(pairs_view(pairs@)) is None <==> r is Ok,
            r matches Ok(d) ==> d@ == map_of(pairs_view(pairs@)) && d.key_order() == keys_of(
                pairs_view(pairs@),
            ),
            r matches Err(e) ==> e matches ModelError::DuplicateAttributeKey(k) && k@
                == pairs_view(pairs@)[first_repeat(pairs_view(pairs@))->0].0,
    {
        let ghost all = pairs_view(pairs@);
        let mut rest = pairs;
        let mut entries: Vec<(String, Value)> = Vec::new();
        let ghost mut n: int = 0;
        while rest.len() > 0
            invariant
                0 <= n <= all.len(),
                all == pairs_view(pairs@),
                pairs_view(entries@) == all.take(n),
                entries@.len() == n,
                pairs_view(rest@) == all.skip(n),
                rest@.len() == all.len() - n,
                distinct_keys(all.take(n)),
            decreases rest@.len(),
        {
            let ghost before = rest@;
            let (key, value) = rest.remove(0);
            proof {
                assert(pairs_view(before)[0] == all.skip(n)[0]);
                assert(all[n] == (key@, value));
                assert(pairs_view(rest@) =~= all.skip(n + 1)) by {
                    assert(rest@ =~= before.drop_first());
                    assert forall|a: int| 0 <= a < rest@.len() implies #[trigger] pairs_view(rest@)[a]
                        == all.skip(n + 1)[a] by {
                        assert(pairs_view(before)[a + 1] == all.skip(n)[a + 1]);
                    }
                }
            }
            let mut i: usize = 0;
            while i < entries.len()
                invariant
                    all == pairs_view(pairs@),
                    pairs_view(entries@) == all.take(n),
                    entries@.len() == n,
                    0 <= n < all.len(),
                    all[n] == (key@, value),
                    distinct_keys(all.take(n)),
                    i <= entries@.len(),
                    forall|a: int| 0 <= a < i ==> all[a].0 != key@,
                decreases entries@.len() - i,
            {
                if str_eq(entries[i].0.as_str(), key.as_str()) {
                    proof {
                        assert(all.take(n)[i as int] == all[i as int]);
                        lemma_first_repeat(all, i as int, n);
                    }
                    return Err(ModelError::DuplicateAttributeKey(key));
                }
                proof {
                    assert(all.take(n)[i as int] == all[i as int]);
                }
                i = i + 1;
            }
            let ghost shorter = entries@;
            entries.push((key, value));
            proof {
                assert(pairs_view(entries@) =~= all.take(n + 1)) by {
                    assert forall|a: int| 0 <= a < n implies #[trigger] pairs_view(entries@)[a]
                        == all.take(n + 1)[a] by {
                        assert(entries@[a] == shorter[a]);
                        assert(pairs_view(shorter)[a] == all.take(n)[a]);
                    }
                    assert(pairs_view(entries@)[n] == all[n]);
                }
                let t = all.take(n + 1);
                assert(distinct_keys(t)) by {
                    assert forall|a: int, b: int|
                        0 <= a < n + 1 && 0 <= b < n + 1 && a != b implies #[trigger] t[a].0
                        != #[trigger] t[b].0 by {
                        if a < n && b < n {
                            assert(all.take(n)[a] == all[a] && all.take(n)[b] == all[b]);
                        }
                    }
                }
                n = n + 1;
            }
        }
        proof {
            assert(all.take(n) =~= all);
        }
        Ok(Dict { entries })
    }

    /// The position of `key` among the entries.
    fn find(&self, key: &str) -> (r: Option<usize>)
        ensures
            r is None <==> !self@.contains_key(key@),
            r matches Some(i) ==> i < self.entries@.len() && self.entries@[i as int].0@ == key@,
    {
        proof {
            use_type_invariant(self);
            lemma_map_of_contains(pairs_view(self.entries@), key@);
        }
        let mut i: usize = 0;
        while i < self.entries.len()
            invariant
                i <= self.entries@.len(),
                forall|a: int| 0 <= a < i ==> self.entries@[a].0@ != key@,
            decreases self.entries@.len() - i,
        {
            if str_eq(self.entries[i].0.as_str(), key) {
                proof {
                    use_type_invariant(self);
                    lemma_map_of_contains(pairs_view(self.entries@), key@);
                    assert(pairs_view(self.entries@)[i as int].0 == key@);
                }
                return Some(i);
            }
            i = i + 1;
        }
        proof {
            if self@.contains_key(key@) {
                let a = choose|a: int|
                    0 <= a < pairs_view(self.entries@).len() && pairs_view(self.entries@)[a].0
                        == key@;
            }
        }
        None
    }

    /// Takes the value of `key` out of the dictionary, if it is there.
    pub fn remove(&mut self, key: &str) -> (r: Option<Value>)
        ensures
            r == (if old(self)@.contains_key(key@) {
                Some(old(self)@[key@])
            } else {
                None
            }),
            final(self)@ == old(self)@.remove(key@),
            final(self).key_order() == without_key(old(self).key_order(), key@),
    {
        proof {
            use_type_invariant(&*self);
        }
        match self.find(key) {
            None => {
                proof {
                    let pv = pairs_view(self.entries@);
                    lemma_map_of_contains(pv, key@);
                    let ko = keys_of(pv);
                    if ko.contains(key@) {
                        let j = choose|j: int| 0 <= j < ko.len() && ko[j] == key@;
                        assert(pv[j].0 == key@);
                    }
                    lemma_without_key_absent(ko, key@);
                    assert(old(self)@.remove(key@) =~= old(self)@);
                }
                None
            },
            Some(i) => {
                let ghost pv = pairs_view(self.entries@);
                proof {
                    lemma_map_of_contains(pv, key@);
                    lemma_map_of_remove(pv, i as int);
                }
                let mut taken = Dict::new();
                core::mem::swap(self, &mut taken);
                let mut entries = taken.entries;
                let (_, value) = entries.remove(i);
                proof {
                    assert(pairs_view(entries@) =~= pv.remove(i as int));
                    let ko = keys_of(pv);
                    assert forall|a: int, b: int|
                        0 <= a < ko.len() && 0 <= b < ko.len() && a != b implies #[trigger] ko[a]
                        != #[trigger] ko[b] by {
                        assert(ko[a] == pv[a].0 && ko[b] == pv[b].0);
                    }
                    assert(ko[i as int] == key@);
                    lemma_without_key_at(ko, i as int);
                    assert(keys_of(pairs_view(entries@)) =~= ko.remove(i as int));
                }
                *self = Dict { entries };
                Some(value)
            },
        }
    }

    /// Takes `key` out and reads its value as a boolean.
    pub fn remove_bool(&mut self, key: &str) -> (r: Result<Option<bool>, ModelError>)
        ensures
            final(self)@ == old(self)@.remove(key@),
            final(self).key_order() == without_key(old(self).key_order(), key@),
            r matches Ok(b) ==> read_bool(old(self)@, key@) == Ok::<_, ModelErrorView>(b),
            r matches Err(e) ==> read_bool(old(self)@, key@) == Err::<Option<bool>, _>(e@),
    {
        match self.remove(key) {
            None => Ok(None),
            Some(value) => match value.value_bool() {
                Some(b) => Ok(Some(b)),
                None => Err(ModelError::ExpectedBool(key.to_owned())),
            },
        }
    }

    /// Takes `key` out and reads its value as a string.
    pub fn remove_string(&mut self, key: &str) -> (r: Result<Option<String>, ModelError>)
        ensures
            final(self)@ == old(self)@.remove(key@),
            final(self).key_order() == without_key(old(self).key_order(), key@),
            r matches Ok(None) ==> read_string(old(self)@, key@) == Ok::<_, ModelErrorView>(
                None::<Seq<char>>,
            ),
            r matches Ok(Some(s)) ==> read_string(old(self)@, key@) == Ok::<_, ModelErrorView>(
                Some(s@),
            ),
            r matches Err(e) ==> read_string(old(self)@, key@) == Err::<Option<Seq<char>>, _>(e@),
    {
        match self.remove(key) {
            None => Ok(None),
            Some(value) => match value.value_string() {
                Some(s) => Ok(Some(s)),
                None => Err(ModelError::ExpectedString(key.to_owned())),
            },
        }
    }

    /// Whether nothing is left; an error naming a key that is left otherwise.
    pub fn assert_empty(&self) -> (r: Result<(), ModelError>)
        ensures
            r is Ok <==> self@.is_empty(),
            r is Ok <==> self.key_order().len() == 0,
            r matches Err(e) ==> e matches ModelError::UnexpectedKey(k) && self@.contains_key(k@)
                && k@ == self.key_order()[0],
    {
        proof {
            use_type_invariant(self);
        }
        if self.entries.len() == 0 {
            proof {
                assert(pairs_view(self.entries@) =~= Seq::empty());
                assert(self@ =~= Map::empty());
            }
            Ok(())
        } else {
            proof {
                lemma_map_of_contains(pairs_view(self.entries@), self.entries@[0].0@);
                assert(pairs_view(self.entries@)[0].0 == self.entries@[0].0@);
                assert(self@.dom().contains(self.entries@[0].0@));
            }
            Err(ModelError::UnexpectedKey(self.entries[0].0.clone()))
        }
    }
}

} // verus!
