//! The supported word-list languages and the corpus that holds their
//! buckets. The corpus is built once by the caller, from packed bucket data
//! produced offline, and is then read-only for its whole life.

use vstd::prelude::*;
use vstd::string::StrSliceExecFns;

use crate::chars::ascii_lower;
use crate::word_sequence::WordSequence;

verus! {

/// One of the built-in word lists. Languages whose words use non-ASCII
/// letters exist twice: once with the real letters (`..Umlauts`) and once
/// folded to ASCII digraphs.
#[derive(Copy, Clone, PartialEq, Eq, Structural, Debug, Hash)]
pub enum Language {
    De,
    DeBasic,
    DeBasicUmlauts,
    DeUmlauts,
    En,
}

/// How a character of a language code is normalized before the lookup:
/// ASCII uppercase letters are lowered and `-` becomes `_`.
pub open spec fn norm_code_char(c: char) -> char {
    if c == '-' {
        '_'
    } else {
        ascii_lower(c)
    }
}

/// A language code, normalized character by character.
pub open spec fn norm_code(s: Seq<char>) -> Seq<char> {
    s.map_values(|c: char| norm_code_char(c))
}

/// The language a normalized code denotes, if any.
pub open spec fn spec_language_from_code(s: Seq<char>) -> Option<Language> {
    let n = norm_code(s);
    if n == "de"@ {
        Some(Language::De)
    } else if n == "de_basic"@ {
        Some(Language::DeBasic)
    } else if n == "de_basic_umlauts"@ {
        Some(Language::DeBasicUmlauts)
    } else if n == "de_umlauts"@ {
        Some(Language::DeUmlauts)
    } else if n == "en"@ {
        Some(Language::En)
    } else {
        None
    }
}

/// The canonical code of a language.
pub open spec fn spec_language_code(lang: Language) -> Seq<char> {
    match lang {
        Language::De => "de"@,
        Language::DeBasic => "de_basic"@,
        Language::DeBasicUmlauts => "de_basic_umlauts"@,
        Language::DeUmlauts => "de_umlauts"@,
        Language::En => "en"@,
    }
}

impl Language {
    /// Parses a language code, ignoring case of ASCII letters and accepting
    /// `-` for `_`.
    pub fn from_string(string: &str) -> (r: Option<Language>)
        ensures
            r == spec_language_from_code(string@),
    {
        let n = string.unicode_len();
        let mut code: Vec<char> = Vec::new();
        let mut i: usize = 0;
        while i < n
            invariant
                n == string@.len(),
                i <= n,
                code@ == norm_code(string@.subrange(0, i as int)),
            decreases n - i,
        {
            let c = string.get_char(i);
            let lowered = if c == '-' {
                '_'
            } else if 'A' <= c && c <= 'Z' {
                (((c as u32) + 0x20) as u8) as char
            } else {
                c
            };
            proof {
                vstd::utf8::char_u32_cast(c, c as u32);
            }
            code.push(lowered);
            i = i + 1;
            proof {
                assert(code@ =~= norm_code(string@.subrange(0, i as int)));
            }
        }
        proof {
            assert(string@.subrange(0, n as int) =~= string@);
        }
        if crate::chars::chars_eq_str(&code, "de") {
            Some(Language::De)
        } else if crate::chars::chars_eq_str(&code, "de_basic") {
            Some(Language::DeBasic)
        } else if crate::chars::chars_eq_str(&code, "de_basic_umlauts") {
            Some(Language::DeBasicUmlauts)
        } else if crate::chars::chars_eq_str(&code, "de_umlauts") {
            Some(Language::DeUmlauts)
        } else if crate::chars::chars_eq_str(&code, "en") {
            Some(Language::En)
        } else {
            None
        }
    }

    /// The canonical code of this language.
    pub fn as_string(&self) -> (r: &'static str)
        ensures
            r@ == spec_language_code(*self),
    {
        match self {
            Language::De => "de",
            Language::DeBasic => "de_basic",
            Language::DeBasicUmlauts => "de_basic_umlauts",
            Language::DeUmlauts => "de_umlauts",
            Language::En => "en",
        }
    }

    /// The canonical code of this language; a synonym of [`Language::as_string`].
    pub fn name(&self) -> (r: &'static str)
        ensures
            r@ == spec_language_code(*self),
    {
        self.as_string()
    }

    /// Every supported language, in code order.
    pub fn all() -> (r: Vec<Language>)
        ensures
            r@ == seq![
                Language::De,
                Language::DeBasic,
                Language::DeBasicUmlauts,
                Language::DeUmlauts,
                Language::En,
            ],
    {
        let mut r: Vec<Language> = Vec::new();
        r.push(Language::De);
        r.push(Language::DeBasic);
        r.push(Language::DeBasicUmlauts);
        r.push(Language::DeUmlauts);
        r.push(Language::En);
        proof {
            assert(r@ =~= seq![
                Language::De,
                Language::DeBasic,
                Language::DeBasicUmlauts,
                Language::DeUmlauts,
                Language::En,
            ]);
        }
        r
    }

    /// The bucket of this language whose words have `length` characters, or
    /// `None` when the corpus has no such bucket.
    pub fn read_words<'a>(self, corpus: &'a Corpus, length: usize) -> (r: Option<&'a WordSequence>)
        requires
            corpus.wf(),
        ensures
            match r {
                Some(ws) => corpus.spec_lookup(self, length as int) == Some(*ws) && ws.wf()
                    && ws.spec_word_len() == length,
                None => corpus.spec_lookup(self, length as int) is None,
            },
    {
        corpus.read_words(self, length)
    }
}

/// The whole corpus: one bucket per language and word length, built once
/// before the first query and immutable afterwards.
pub struct Corpus {
    pub buckets: Vec<(Language, WordSequence)>,
}

impl Corpus {
    /// Every bucket is well-formed.
    pub open spec fn wf(self) -> bool {
        forall|i: int|
            0 <= i < self.buckets@.len() ==> (#[trigger] self.buckets@[i]).1.wf()
    }

    /// The first index at or after `i` holding the bucket of `lang` with
    /// words of `length` characters, if one exists.
    pub open spec fn spec_lookup_from(self, lang: Language, length: int, i: int) -> Option<int>
        decreases self.buckets@.len() - i,
    {
        if i < 0 || i >= self.buckets@.len() {
            None
        } else if self.buckets@[i].0 == lang && self.buckets@[i].1.spec_word_len() == length {
            Some(i)
        } else {
            self.spec_lookup_from(lang, length, i + 1)
        }
    }

    /// The bucket a lookup returns: the first one of `lang` whose words
    /// have `length` characters.
    pub open spec fn spec_lookup(self, lang: Language, length: int) -> Option<WordSequence> {
        match self.spec_lookup_from(lang, length, 0) {
            Some(i) => Some(self.buckets@[i].1),
            None => None,
        }
    }

    /// An empty corpus.
    pub fn new() -> (r: Corpus)
        ensures
            r.wf(),
            r.buckets@.len() == 0,
    {
        Corpus { buckets: Vec::new() }
    }

    /// Adds one bucket for a language.
    pub fn insert(&mut self, lang: Language, bucket: WordSequence)
        requires
            old(self).wf(),
            bucket.wf(),
        ensures
            final(self).wf(),
            final(self).buckets@ == old(self).buckets@.push((lang, bucket)),
    {
        self.buckets.push((lang, bucket));
    }

    /// Finds the first bucket of `lang` whose words have `length`
    /// characters.
    pub fn read_words<'a>(&'a self, lang: Language, length: usize) -> (r: Option<&'a WordSequence>)
        requires
            self.wf(),
        ensures
            match r {
                Some(ws) => self.spec_lookup(lang, length as int) == Some(*ws) && ws.wf()
                    && ws.spec_word_len() == length,
                None => self.spec_lookup(lang, length as int) is None,
            },
    {
        let n = self.buckets.len();
        let mut i: usize = 0;
        while i < n
            invariant
                self.wf(),
                n == self.buckets@.len(),
                i <= n,
                self.spec_lookup_from(lang, length as int, 0) == self.spec_lookup_from(
                    lang,
                    length as int,
                    i as int,
                ),
            decreases n - i,
        {
            let entry = &self.buckets[i];
            if entry.0 == lang && entry.1.word_char_count() == length {
                return Some(&self.buckets[i].1);
            }
            i = i + 1;
        }
        None
    }
}

} // verus!
