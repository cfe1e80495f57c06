//! Character-level primitives taken from the standard library, and the
//! uppercase fold of a whole string built from them.

use vstd::prelude::*;
use vstd::string::StringSliceAdditionalSpecFns;
use vstd::utf8::*;

verus! {

/// What `char::to_uppercase` yields for a character: its full uppercase
/// mapping, one or more characters.
pub uninterp spec fn upper_of(c: char) -> Seq<char>;

/// The uppercase fold of a string: each character replaced, in order, by its
/// full uppercase mapping.
pub open spec fn fold_upper(s: Seq<char>) -> Seq<char>
    decreases s.len(),
{
    if s.len() == 0 {
        Seq::empty()
    } else {
        fold_upper(s.drop_last()) + upper_of(s.last())
    }
}

/// Relies on `char::to_uppercase`: the characters of the uppercase mapping of
/// `c`, which depend on `c` alone.
#[verifier::external_body]
pub(crate) fn char_to_uppercase(c: char) -> (r: Vec<char>)
    ensures
        r@ == upper_of(c),
{
    c.to_uppercase().collect()
}

/// What `char::is_uppercase` says of a character.
pub uninterp spec fn is_upper(c: char) -> bool;

/// What `char::is_lowercase` says of a character.
pub uninterp spec fn is_lower(c: char) -> bool;

/// What `str::to_lowercase` returns for a text.
pub uninterp spec fn lower_of(s: Seq<char>) -> Seq<char>;

/// What `str::to_uppercase` returns for a text.
pub uninterp spec fn upper_str_of(s: Seq<char>) -> Seq<char>;

/// Relies on `char::is_uppercase`: whether `c` has the Unicode property
/// Uppercase, which depends on `c` alone.
#[verifier::external_body]
pub(crate) fn char_is_uppercase(c: char) -> (r: bool)
    ensures
        r == is_upper(c),
{
    c.is_uppercase()
}

/// Relies on `char::is_lowercase`: whether `c` has the Unicode property
/// Lowercase, which depends on `c` alone.
#[verifier::external_body]
pub(crate) fn char_is_lowercase(c: char) -> (r: bool)
    ensures
        r == is_lower(c),
{
    c.is_lowercase()
}

/// Relies on `str::to_lowercase`: the lowercase equivalent of `s`, which
/// depends on the characters of `s` alone; an empty text stays empty.
#[verifier::external_body]
pub(crate) fn str_to_lowercase(s: &str) -> (r: String)
    ensures
        r@ == lower_of(s@),
        s@.len() == 0 ==> r@.len() == 0,
{
    s.to_lowercase()
}

/// Relies on `str::to_uppercase`: the uppercase equivalent of `s`, which
/// depends on the characters of `s` alone; an empty text stays empty.
#[verifier::external_body]
pub(crate) fn str_to_uppercase(s: &str) -> (r: String)
    ensures
        r@ == upper_str_of(s@),
        s@.len() == 0 ==> r@.len() == 0,
{
    s.to_uppercase()
}

/// Relies on `String::push`: appends one character.
#[verifier::external_body]
pub(crate) fn string_push(s: &mut String, c: char)
    ensures
        final(s)@ == old(s)@.push(c),
{
    s.push(c)
}

/// Relies on `char::len_utf8`: the number of bytes of the UTF-8 encoding of `c`.
#[verifier::external_body]
pub(crate) fn char_len_utf8(c: char) -> (r: usize)
    ensures
        r == encode_scalar(c as u32).len(),
{
    c.len_utf8()
}

/// Relies on `char::encode_utf8`: writes the UTF-8 encoding of `c` into `buf`
/// from position `at` on, leaves the other bytes alone, and returns how many
/// bytes it wrote. It panics when the room left is too small, which the
/// precondition rules out.
#[verifier::external_body]
pub(crate) fn char_encode_utf8_at<const N: usize>(buf: &mut [u8; N], at: usize, c: char) -> (r: usize)
    requires
        at + encode_scalar(c as u32).len() <= N,
    ensures
        r == encode_scalar(c as u32).len(),
        final(buf)@ == old(buf)@.subrange(0, at as int) + encode_scalar(c as u32) + old(
            buf,
        )@.subrange(at + r, N as int),
{
    c.encode_utf8(&mut buf[at..]).len()
}

/// Relies on `core::str::from_utf8`: succeeds exactly on valid UTF-8, and the
/// text it returns is made of the same bytes.
#[verifier::external_body]
pub(crate) fn str_from_utf8(b: &[u8]) -> (r: Option<&str>)
    ensures
        r is Some <==> valid_utf8(b@),
        r matches Some(s) ==> s.spec_bytes() == b@,
{
    core::str::from_utf8(b).ok()
}

/// The UTF-8 encoding of a concatenation is the concatenation of the encodings.
pub proof fn lemma_encode_utf8_concat(a: Seq<char>, b: Seq<char>)
    ensures
        encode_utf8(a + b) == encode_utf8(a) + encode_utf8(b),
    decreases a.len(),
{
    if a.len() == 0 {
        assert(a + b =~= b);
        assert(encode_utf8(a) + encode_utf8(b) =~= encode_utf8(b));
    } else {
        assert((a + b).drop_first() =~= a.drop_first() + b);
        lemma_encode_utf8_concat(a.drop_first(), b);
        assert(encode_utf8(a + b) =~= encode_utf8(a) + encode_utf8(b));
    }
}

/// The encoding of a single character.
pub proof fn lemma_encode_utf8_single(c: char)
    ensures
        encode_utf8(seq![c]) == encode_scalar(c as u32),
{
    assert(seq![c].drop_first() =~= Seq::<char>::empty());
    assert(encode_utf8(seq![c]) =~= encode_scalar(c as u32) + encode_utf8(Seq::<char>::empty()));
}

/// Two texts with the same UTF-8 encoding are the same text.
pub proof fn lemma_encode_utf8_injective(a: Seq<char>, b: Seq<char>)
    requires
        encode_utf8(a) == encode_utf8(b),
    ensures
        a == b,
{
    encode_utf8_decode_utf8(a);
    encode_utf8_decode_utf8(b);
}

/// The fold of a concatenation is the concatenation of the folds.
pub proof fn lemma_fold_upper_concat(a: Seq<char>, b: Seq<char>)
    ensures
        fold_upper(a + b) == fold_upper(a) + fold_upper(b),
    decreases b.len(),
{
    if b.len() == 0 {
        assert(a + b =~= a);
        assert(fold_upper(a) + fold_upper(b) =~= fold_upper(a));
    } else {
        assert((a + b).drop_last() =~= a + b.drop_last());
        assert((a + b).last() == b.last());
        lemma_fold_upper_concat(a, b.drop_last());
        assert(fold_upper(a + b) =~= fold_upper(a) + fold_upper(b));
    }
}

/// Compares two texts byte by byte.
pub fn str_eq(a: &str, b: &str) -> (r: bool)
    ensures
        r == (a@ == b@),
{
    let x = a.as_bytes();
    let y = b.as_bytes();
    if x.len() != y.len() {
        proof {
            if a@ == b@ {
                assert(x@ == y@);
            }
        }
        return false;
    }
    let mut i: usize = 0;
    while i < x.len()
        invariant
            x@ == encode_utf8(a@),
            y@ == encode_utf8(b@),
            x@.len() == y@.len(),
            i <= x@.len(),
            forall|k: int| 0 <= k < i ==> x@[k] == y@[k],
        decreases x@.len() - i,
    {
        if x[i] != y[i] {
            return false;
        }
        i = i + 1;
    }
    proof {
        assert(x@ =~= y@);
        lemma_encode_utf8_injective(a@, b@);
    }
    true
}

} // verus!
