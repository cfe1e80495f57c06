//! The rename engine: rewrites an identifier in one of eight case styles.

use vstd::prelude::*;
use vstd::string::{StrSliceExecFns, StringExecFns};

use crate::error::ModelError;
use crate::text::{
    char_is_lowercase, char_is_uppercase, char_to_uppercase, is_lower, is_upper, lower_of,
    str_eq, str_to_lowercase, str_to_uppercase, string_push, upper_of, upper_str_of,
};

verus! {

/// A case style that a default key can be derived in.
#[derive(Clone, Copy, Debug, PartialEq, Eq, Structural)]
pub enum RenameVariant {
    Lower,
    Upper,
    Pascal,
    Camel,
    Snake,
    ScreamingSnake,
    Kebab,
    ScreamingKebab,
}

/// The style that a style name denotes, if it is one of the eight accepted names.
pub open spec fn style_named(s: Seq<char>) -> Option<RenameVariant> {
    if s == "lowercase"@ {
        Some(RenameVariant::Lower)
    } else if s == "UPPERCASE"@ {
        Some(RenameVariant::Upper)
    } else if s == "PascalCase"@ {
        Some(RenameVariant::Pascal)
    } else if s == "camelCase"@ {
        Some(RenameVariant::Camel)
    } else if s == "snake_case"@ {
        Some(RenameVariant::Snake)
    } else if s == "SCREAMING_SNAKE_CASE"@ {
        Some(RenameVariant::ScreamingSnake)
    } else if s == "kebab-case"@ {
        Some(RenameVariant::Kebab)
    } else if s == "SCREAMING-KEBAB-CASE"@ {
        Some(RenameVariant::ScreamingKebab)
    } else {
        None
    }
}

/// The case of a character, when it has one.
#[derive(Clone, Copy, Debug, PartialEq, Eq, Structural)]
pub enum CharCase {
    Upper,
    Lower,
}

/// A style that works word by word.
#[derive(Clone, Copy, Debug, PartialEq, Eq, Structural)]
pub enum WordAwareCase {
    /// Each word capitalised, no separator.
    Pascal,
    /// As `Pascal`, but the first word entirely lowercase.
    Camel,
    /// Words in the given case joined by `_`.
    Snake(CharCase),
    /// Words in the given case joined by `-`.
    Kebab(CharCase),
}

pub open spec fn case_of(c: char) -> Option<CharCase> {
    if is_upper(c) {
        Some(CharCase::Upper)
    } else if is_lower(c) {
        Some(CharCase::Lower)
    } else {
        None
    }
}

/// A text rewritten wholly in one case.
pub open spec fn convert_spec(case: CharCase, s: Seq<char>) -> Seq<char> {
    match case {
        CharCase::Upper => upper_str_of(s),
        CharCase::Lower => lower_of(s),
    }
}

/// Appends a word in progress to the finished words, unless it is empty.
pub open spec fn flush(words: Seq<Seq<char>>, current: Seq<char>) -> Seq<Seq<char>> {
    if current.len() > 0 {
        words.push(current)
    } else {
        words
    }
}

/// Splitting a text into words, as far as its end: the finished words and
/// the word in progress. A `_` ends a word and is dropped; a lowercase
/// character followed by an uppercase one ends a word before the latter.
pub open spec fn segment(s: Seq<char>) -> (Seq<Seq<char>>, Seq<char>)
    decreases s.len(),
{
    if s.len() == 0 {
        (Seq::empty(), Seq::empty())
    } else {
        let (words, current) = segment(s.drop_last());
        let c = s.last();
        if s.len() >= 2 && case_of(s[s.len() - 2]) == Some(CharCase::Lower) && case_of(c) == Some(
            CharCase::Upper,
        ) {
            (flush(words, current), seq![c])
        } else if c == '_' {
            (flush(words, current), Seq::empty())
        } else {
            (words, current.push(c))
        }
    }
}

/// The words of a text: none of them is empty.
pub open spec fn words_of(s: Seq<char>) -> Seq<Seq<char>> {
    flush(segment(s).0, segment(s).1)
}

/// A word with its first character uppercased and the rest lowercased.
pub open spec fn capitalised(word: Seq<char>) -> Seq<char> {
    if word.len() > 0 {
        upper_of(word[0]) + lower_of(word.drop_first())
    } else {
        Seq::empty()
    }
}

impl WordAwareCase {
    /// The output so far, with one more word appended in this style.
    pub open spec fn push_word_spec(self, buf: Seq<char>, word: Seq<char>) -> Seq<char> {
        match self {
            WordAwareCase::Pascal => buf + capitalised(word),
            WordAwareCase::Camel => if buf.len() == 0 {
                lower_of(word)
            } else {
                buf + capitalised(word)
            },
            WordAwareCase::Snake(case) => (if buf.len() > 0 {
                buf.push('_')
            } else {
                buf
            }) + convert_spec(case, word),
            WordAwareCase::Kebab(case) => (if buf.len() > 0 {
                buf.push('-')
            } else {
                buf
            }) + convert_spec(case, word),
        }
    }

    /// The words appended one after the other, from an empty output.
    pub open spec fn join_spec(self, words: Seq<Seq<char>>) -> Seq<char>
        decreases words.len(),
    {
        if words.len() == 0 {
            Seq::empty()
        } else {
            self.push_word_spec(self.join_spec(words.drop_last()), words.last())
        }
    }

    /// An identifier rewritten in this style.
    pub open spec fn convert_enum_variant_spec(self, s: Seq<char>) -> Seq<char> {
        self.join_spec(words_of(s))
    }
}

impl RenameVariant {
    /// An identifier rewritten in this style: `Lower` and `Upper` case the
    /// whole text, the others work word by word.
    pub open spec fn apply_spec(self, s: Seq<char>) -> Seq<char> {
        match self {
            RenameVariant::Lower => lower_of(s),
            RenameVariant::Upper => upper_str_of(s),
            RenameVariant::Pascal => WordAwareCase::Pascal.convert_enum_variant_spec(s),
            RenameVariant::Camel => WordAwareCase::Camel.convert_enum_variant_spec(s),
            RenameVariant::Snake => WordAwareCase::Snake(CharCase::Lower).convert_enum_variant_spec(s),
            RenameVariant::ScreamingSnake => WordAwareCase::Snake(
                CharCase::Upper,
            ).convert_enum_variant_spec(s),
            RenameVariant::Kebab => WordAwareCase::Kebab(CharCase::Lower).convert_enum_variant_spec(s),
            RenameVariant::ScreamingKebab => WordAwareCase::Kebab(
                CharCase::Upper,
            ).convert_enum_variant_spec(s),
        }
    }

    /// Parses a style name; any other text is rejected.
    pub fn from_str(s: &str) -> (r: Result<Self, ModelError>)
        ensures
            style_named(s@) matches Some(v) ==> r == Ok::<Self, ModelError>(v),
            style_named(s@) is None ==> (r matches Err(ModelError::InvalidCase(name)) && name@ == s@),
    {
        proof {
            reveal_strlit("lowercase");
            reveal_strlit("UPPERCASE");
            reveal_strlit("PascalCase");
            reveal_strlit("camelCase");
            reveal_strlit("snake_case");
            reveal_strlit("SCREAMING_SNAKE_CASE");
            reveal_strlit("kebab-case");
            reveal_strlit("SCREAMING-KEBAB-CASE");
        }
        if str_eq(s, "lowercase") {
            Ok(RenameVariant::Lower)
        } else if str_eq(s, "UPPERCASE") {
            Ok(RenameVariant::Upper)
        } else if str_eq(s, "PascalCase") {
            Ok(RenameVariant::Pascal)
        } else if str_eq(s, "camelCase") {
            Ok(RenameVariant::Camel)
        } else if str_eq(s, "snake_case") {
            Ok(RenameVariant::Snake)
        } else if str_eq(s, "SCREAMING_SNAKE_CASE") {
            Ok(RenameVariant::ScreamingSnake)
        } else if str_eq(s, "kebab-case") {
            Ok(RenameVariant::Kebab)
        } else if str_eq(s, "SCREAMING-KEBAB-CASE") {
            Ok(RenameVariant::ScreamingKebab)
        } else {
            Err(ModelError::InvalidCase(s.to_owned()))
        }
    }

    /// Rewrites `s` in this style.
    pub fn apply(self, s: &str) -> (r: String)
        ensures
            r@ == self.apply_spec(s@),
            s@.len() == 0 ==> r@.len() == 0,
    {
        match self {
            RenameVariant::Lower => str_to_lowercase(s),
            RenameVariant::Upper => str_to_uppercase(s),
            RenameVariant::Pascal => WordAwareCase::Pascal.convert_enum_variant(s),
            RenameVariant::Camel => WordAwareCase::Camel.convert_enum_variant(s),
            RenameVariant::Snake => WordAwareCase::Snake(CharCase::Lower).convert_enum_variant(s),
            RenameVariant::ScreamingSnake => WordAwareCase::Snake(
                CharCase::Upper,
            ).convert_enum_variant(s),
            RenameVariant::Kebab => WordAwareCase::Kebab(CharCase::Lower).convert_enum_variant(s),
            RenameVariant::ScreamingKebab => WordAwareCase::Kebab(
                CharCase::Upper,
            ).convert_enum_variant(s),
        }
    }
}

impl WordAwareCase {
    /// Splits `s` into words and rejoins them in this style.
    pub fn convert_enum_variant(&self, s: &str) -> (r: String)
        ensures
            r@ == self.convert_enum_variant_spec(s@),
            s@.len() == 0 ==> r@.len() == 0,
    {
        let mut converted = String::new();
        let mut component = String::new();
        let mut prev_case: Option<CharCase> = None;
        for c in it: s.chars()
            invariant
                it.seq() == s@,
                converted@ == self.join_spec(segment(s@.take(it.index() as int)).0),
                component@ == segment(s@.take(it.index() as int)).1,
                prev_case == (if it.index() > 0 {
                    case_of(s@[it.index() - 1])
                } else {
                    None
                }),
        {
            let ghost i = it.index() as int;
            assert(i < s@.len() && c == s@[i]);
            let ghost words = segment(s@.take(i)).0;
            let case = CharCase::of(c);
            let boundary = match (prev_case, case) {
                (Some(CharCase::Lower), Some(CharCase::Upper)) => true,
                _ => false,
            };
            let (push_component, push_char) = if boundary {
                (true, true)
            } else if c == '_' {
                (true, false)
            } else {
                (false, true)
            };
            if push_component && !component.as_str().is_empty() {
                self.push_word(&mut converted, component.as_str());
                component = String::new();
                proof {
                    assert(words.push(segment(s@.take(i)).1).drop_last() =~= words);
                }
            }
            if push_char {
                string_push(&mut component, c);
            }
            prev_case = case;
            proof {
                assert(s@.take(i + 1).drop_last() =~= s@.take(i));
            }
        }
        proof {
            assert(s@.take(s@.len() as int) =~= s@);
        }
        if !component.as_str().is_empty() {
            let ghost words = segment(s@).0;
            self.push_word(&mut converted, component.as_str());
            proof {
                assert(words.push(segment(s@).1).drop_last() =~= words);
            }
        }
        converted
    }

    /// Appends one word to `buf` in this style.
    pub fn push_word(&self, buf: &mut String, word: &str)
        ensures
            final(buf)@ == self.push_word_spec(old(buf)@, word@),
    {
        match self {
            WordAwareCase::Pascal => {
                push_capitalised(buf, word);
            },
            WordAwareCase::Camel => {
                if buf.as_str().is_empty() {
                    let lower = str_to_lowercase(word);
                    buf.append(lower.as_str());
                } else {
                    push_capitalised(buf, word);
                }
            },
            WordAwareCase::Snake(case) => {
                if !buf.as_str().is_empty() {
                    string_push(buf, '_');
                }
                let converted = case.convert(word);
                buf.append(converted.as_str());
            },
            WordAwareCase::Kebab(case) => {
                if !buf.as_str().is_empty() {
                    string_push(buf, '-');
                }
                let converted = case.convert(word);
                buf.append(converted.as_str());
            },
        }
    }
}

/// Appends `word` with its first character uppercased and the rest lowercased.
fn push_capitalised(buf: &mut String, word: &str)
    ensures
        final(buf)@ == old(buf)@ + capitalised(word@),
{
    if let Some((head, tail)) = str_head_tail(word) {
        let upper = char_to_uppercase(head);
        let mut j: usize = 0;
        while j < upper.len()
            invariant
                j <= upper@.len(),
                buf@ == old(buf)@ + upper@.take(j as int),
            decreases upper@.len() - j,
        {
            string_push(buf, upper[j]);
            j = j + 1;
            proof {
                assert(buf@ =~= old(buf)@ + upper@.take(j as int));
            }
        }
        let lower = str_to_lowercase(tail);
        buf.append(lower.as_str());
        proof {
            assert(upper@.take(j as int) =~= upper@);
            assert(buf@ =~= old(buf)@ + capitalised(word@));
        }
    } else {
        proof {
            assert(old(buf)@ + capitalised(word@) =~= old(buf)@);
        }
    }
}

impl CharCase {
    /// The case of `c`: upper, lower, or none.
    pub fn of(c: char) -> (r: Option<Self>)
        ensures
            r == case_of(c),
    {
        if char_is_uppercase(c) {
            Some(CharCase::Upper)
        } else if char_is_lowercase(c) {
            Some(CharCase::Lower)
        } else {
            None
        }
    }

    /// Rewrites the whole of `s` in this case.
    pub fn convert(self, s: &str) -> (r: String)
        ensures
            r@ == convert_spec(self, s@),
    {
        match self {
            CharCase::Upper => str_to_uppercase(s),
            CharCase::Lower => str_to_lowercase(s),
        }
    }
}

/// Splits off the first character of `s`; `None` when `s` is empty.
pub fn str_head_tail(s: &str) -> (r: Option<(char, &str)>)
    ensures
        r is None <==> s@.len() == 0,
        r matches Some((head, tail)) ==> head == s@[0] && tail@ == s@.drop_first(),
{
    if s.is_empty() {
        None
    } else {
        let n = s.unicode_len();
        let head = s.get_char(0);
        let tail = s.substring_char(1, n);
        proof {
            assert(tail@ =~= s@.drop_first());
        }
        Some((head, tail))
    }
}

} // verus!
