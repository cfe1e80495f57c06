//! A string that always stores its data inline, in a fixed-size byte buffer.

use vstd::prelude::*;
use vstd::slice::slice_subrange;
use vstd::string::StringSliceAdditionalSpecFns;
use vstd::utf8::*;

use crate::text::{
    char_encode_utf8_at, char_len_utf8, char_to_uppercase, fold_upper, lemma_encode_utf8_concat,
    lemma_encode_utf8_single,
    lemma_fold_upper_concat, str_eq, str_from_utf8,
};

verus! {

broadcast use {encode_utf8_decode_utf8, decode_utf8_encode_utf8, encode_utf8_valid_utf8};

/// A string which stores up to `N` bytes of UTF-8 data inline.
pub struct CappedString<const N: usize> {
    buf: [u8; N],
    len: usize,
}

impl<const N: usize> View for CappedString<N> {
    type V = Seq<char>;

    closed spec fn view(&self) -> Seq<char> {
        decode_utf8(self.buf@.subrange(0, self.len as int))
    }
}

impl<const N: usize> CappedString<N> {
    /// The occupied prefix of the buffer is valid UTF-8 and fits in it.
    #[verifier::type_invariant]
    closed spec fn inv(self) -> bool {
        &&& self.len <= N
        &&& valid_utf8(self.buf@.subrange(0, self.len as int))
    }

    /// The occupied bytes: the UTF-8 encoding of the text.
    pub closed spec fn bytes(&self) -> Seq<u8> {
        self.buf@.subrange(0, self.len as int)
    }

    /// Returns a new `CappedString` containing a copy of the given string data. Returns `None` if
    /// the string data is larger than `N` bytes.
    pub fn from_str(s: &str) -> (r: Option<Self>)
        ensures
            r is Some <==> s.spec_bytes().len() <= N,
            r matches Some(c) ==> c@ == s@,
    {
        Self::from_utf8_unchecked(s.as_bytes())
    }

    /// Returns a new `CappedString` containing a copy of the given UTF-8 encoded string data.
    /// Returns `None` if more than `N` bytes of data are given.
    pub fn from_utf8_unchecked(bs: &[u8]) -> (r: Option<Self>)
        requires
            valid_utf8(bs@),
        ensures
            r is Some <==> bs@.len() <= N,
            r matches Some(c) ==> c.bytes() == bs@ && c@ == decode_utf8(bs@),
    {
        if bs.len() > N {
            return None;
        }
        let mut buf = [0u8; N];
        let mut i: usize = 0;
        while i < bs.len()
            invariant
                bs@.len() <= N,
                i <= bs@.len(),
                buf@.len() == N,
                forall|k: int| 0 <= k < i ==> buf@[k] == bs@[k],
            decreases bs@.len() - i,
        {
            buf[i] = bs[i];
            i = i + 1;
        }
        assert(buf@.subrange(0, bs@.len() as int) =~= bs@);
        Some(Self::from_raw_parts(buf, bs.len()))
    }

    /// Returns a new `CappedString` from a given buffer and length.
    pub fn from_raw_parts(buf: [u8; N], len: usize) -> (r: Self)
        requires
            len <= N,
            valid_utf8(buf@.subrange(0, len as int)),
        ensures
            r.bytes() == buf@.subrange(0, len as int),
            r@ == decode_utf8(buf@.subrange(0, len as int)),
    {
        CappedString { buf, len }
    }

    /// Consumes the `CappedString` and returns its buffer and length.
    pub fn into_raw_parts(self) -> (r: ([u8; N], usize))
        ensures
            r.1 <= N,
            r.0@.subrange(0, r.1 as int) == self.bytes(),
            valid_utf8(self.bytes()),
    {
        proof {
            use_type_invariant(&self);
        }
        (self.buf, self.len)
    }

    /// Returns the string data contained by this `CappedString`.
    pub fn as_str(&self) -> (r: &str)
        ensures
            r@ == self@,
            r.spec_bytes() == self.bytes(),
    {
        proof {
            use_type_invariant(self);
        }
        let occupied = slice_subrange(self.buf.as_slice(), 0, self.len);
        match str_from_utf8(occupied) {
            Some(s) => s,
            None => "",
        }
    }

    /// Returns a new `CappedString` containing an uppercase conversion of the given string data.
    /// Returns `None` if the converted string is larger than `N` bytes.
    pub fn uppercase_from_str(s: &str) -> (r: Option<Self>)
        ensures
            r is Some <==> encode_utf8(fold_upper(s@)).len() <= N,
            r matches Some(c) ==> c@ == fold_upper(s@),
    {
        let mut buf = [0u8; N];
        let mut cursor: usize = 0;
        for c_orig in it: s.chars()
            invariant
                buf@.len() == N,
                it.seq() == s@,
                cursor <= N,
                buf@.subrange(0, cursor as int) == encode_utf8(fold_upper(s@.take(it.index() as int))),
        {
            assert(it.index() < s@.len() && c_orig == s@[it.index() as int]);
            let ghost i = it.index() as int;
            let ghost done = fold_upper(s@.take(i));
            let upper = char_to_uppercase(c_orig);
            let mut j: usize = 0;
            while j < upper.len()
                invariant
                    buf@.len() == N,
                    cursor <= N,
                    j <= upper@.len(),
                    0 <= i < s@.len(),
                    upper@ == crate::text::upper_of(s@[i]),
                    done == fold_upper(s@.take(i)),
                    buf@.subrange(0, cursor as int) == encode_utf8(done + upper@.take(j as int)),
                decreases upper@.len() - j,
            {
                let c_upper = upper[j];
                let width = char_len_utf8(c_upper);
                proof {
                    lemma_encode_utf8_concat(done + upper@.take(j as int), seq![c_upper]);
                    assert(done + upper@.take(j + 1) =~= done + upper@.take(j as int) + seq![c_upper]);
                    lemma_encode_utf8_single(c_upper);
                }
                if width > N - cursor {
                    proof {
                        self::lemma_overflow(s@, i, upper@, j as int);
                    }
                    return None;
                }
                let ghost before = buf@;
                let written = char_encode_utf8_at(&mut buf, cursor, c_upper);
                proof {
                    assert(buf@.subrange(0, cursor as int) =~= before.subrange(0, cursor as int));
                    assert(buf@.subrange(0, (cursor + written) as int) =~= before.subrange(0, cursor as int) + encode_scalar(c_upper as u32));
                }
                cursor = cursor + written;
                j = j + 1;
            }
            proof {
                assert(upper@.take(j as int) =~= upper@);
                assert(s@.take(it.index() + 1).drop_last() =~= s@.take(it.index() as int));
            }
        }
        proof {
            assert(s@.take(s@.len() as int) =~= s@);
        }
        Some(Self::from_raw_parts(buf, cursor))
    }

    /// Returns a new `CappedString` with capacity `M` containing the string converted to
    /// uppercase. Returns `None` if the uppercase-converted string is longer than `M` bytes.
    pub fn to_uppercase<const M: usize>(&self) -> (r: Option<CappedString<M>>)
        ensures
            r is Some <==> encode_utf8(fold_upper(self@)).len() <= M,
            r matches Some(c) ==> c@ == fold_upper(self@),
    {
        CappedString::<M>::uppercase_from_str(self.as_str())
    }
}

impl<const N: usize> PartialEq for CappedString<N> {
    /// Compares the text, not the unused tail of the buffer.
    fn eq(&self, other: &Self) -> (r: bool) {
        str_eq(self.as_str(), other.as_str())
    }
}

impl<const N: usize> vstd::std_specs::cmp::PartialEqSpecImpl for CappedString<N> {
    open spec fn obeys_eq_spec() -> bool {
        true
    }

    open spec fn eq_spec(&self, other: &Self) -> bool {
        self@ == other@
    }
}

impl<const N: usize> Eq for CappedString<N> {

}

/// Lexicographic order of byte strings; on UTF-8 text it orders by characters.
pub open spec fn lex_cmp(a: Seq<u8>, b: Seq<u8>) -> core::cmp::Ordering
    decreases a.len(),
{
    if a.len() == 0 {
        if b.len() == 0 {
            core::cmp::Ordering::Equal
        } else {
            core::cmp::Ordering::Less
        }
    } else if b.len() == 0 {
        core::cmp::Ordering::Greater
    } else if a[0] < b[0] {
        core::cmp::Ordering::Less
    } else if a[0] > b[0] {
        core::cmp::Ordering::Greater
    } else {
        lex_cmp(a.drop_first(), b.drop_first())
    }
}

impl<const N: usize> PartialOrd for CappedString<N> {
    /// Orders by the text, not by the unused tail of the buffer.
    fn partial_cmp(&self, other: &Self) -> (r: Option<core::cmp::Ordering>) {
        let a = self.as_str().as_bytes();
        let b = other.as_str().as_bytes();
        let mut i: usize = 0;
        assert(a@.skip(0) =~= a@ && b@.skip(0) =~= b@);
        while i < a.len() && i < b.len() && a[i] == b[i]
            invariant
                i <= a@.len(),
                i <= b@.len(),
                lex_cmp(a@, b@) == lex_cmp(a@.skip(i as int), b@.skip(i as int)),
            decreases a@.len() - i,
        {
            proof {
                assert(a@.skip(i as int).drop_first() =~= a@.skip(i + 1));
                assert(b@.skip(i as int).drop_first() =~= b@.skip(i + 1));
            }
            i = i + 1;
        }
        proof {
            assert(a@.skip(i as int).len() == 0 || b@.skip(i as int).len() == 0 || a@.skip(
                i as int,
            )[0] != b@.skip(i as int)[0]);
        }
        if i == a.len() {
            if i == b.len() {
                Some(core::cmp::Ordering::Equal)
            } else {
                Some(core::cmp::Ordering::Less)
            }
        } else if i == b.len() {
            Some(core::cmp::Ordering::Greater)
        } else if a[i] < b[i] {
            Some(core::cmp::Ordering::Less)
        } else {
            Some(core::cmp::Ordering::Greater)
        }
    }
}

impl<const N: usize> vstd::std_specs::cmp::PartialOrdSpecImpl for CappedString<N> {
    open spec fn obeys_partial_cmp_spec() -> bool {
        true
    }

    open spec fn partial_cmp_spec(&self, other: &Self) -> Option<core::cmp::Ordering> {
        Some(lex_cmp(self.bytes(), other.bytes()))
    }
}

/// A string type which is either borrowed or stores up to `N` bytes of string data inline.
pub enum CowCappedString<'a, const N: usize> {
    /// A reference to string data stored elsewhere.
    Borrowed(&'a str),
    /// The string data is stored inline.
    Owned(CappedString<N>),
}

impl<'a, const N: usize> View for CowCappedString<'a, N> {
    type V = Seq<char>;

    open spec fn view(&self) -> Seq<char> {
        match self {
            CowCappedString::Borrowed(s) => s@,
            CowCappedString::Owned(c) => c@,
        }
    }
}

impl<'a, const N: usize> CowCappedString<'a, N> {
    /// Returns the string data contained by this `CowCappedString`.
    pub fn as_str(&self) -> (r: &str)
        ensures
            r@ == self@,
    {
        match self {
            CowCappedString::Borrowed(s) => s,
            CowCappedString::Owned(c) => c.as_str(),
        }
    }

    /// Returns a new `CappedString` with capacity `M` containing the string converted to
    /// uppercase. Returns `None` if the uppercase-converted string is longer than `M` bytes.
    pub fn to_uppercase<const M: usize>(&self) -> (r: Option<CappedString<M>>)
        ensures
            r is Some <==> encode_utf8(fold_upper(self@)).len() <= M,
            r matches Some(c) ==> c@ == fold_upper(self@),
    {
        CappedString::<M>::uppercase_from_str(self.as_str())
    }
}

/// When the folded prefix plus part of the next character's mapping already
/// exceeds the capacity, so does the fold of the whole text.
proof fn lemma_overflow(s: Seq<char>, i: int, upper: Seq<char>, j: int)
    requires
        0 <= i < s.len(),
        upper == crate::text::upper_of(s[i]),
        0 <= j < upper.len(),
    ensures
        encode_utf8(fold_upper(s.take(i)) + upper.take(j + 1)).len() <= encode_utf8(
            fold_upper(s),
        ).len(),
{
    let head = fold_upper(s.take(i)) + upper.take(j + 1);
    let rest = upper.skip(j + 1) + fold_upper(s.skip(i + 1));
    assert(s =~= s.take(i + 1) + s.skip(i + 1));
    lemma_fold_upper_concat(s.take(i + 1), s.skip(i + 1));
    assert(s.take(i + 1).drop_last() =~= s.take(i));
    assert(fold_upper(s) =~= head + rest);
    lemma_encode_utf8_concat(head, rest);
}

} // verus!
