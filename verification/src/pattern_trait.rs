//! The byte (ASCII) specialization of the compiled pattern, the shared
//! query interface over both representations, and the entry point that
//! picks the representation per query.

use vstd::prelude::*;

use crate::chars::contains_char;
use crate::hangman_result::HangmanResult;
use crate::language::{Corpus, Language};
use crate::pattern::{
    ascii_seq, count_literals, invalid_spec, normalize_pattern, Pattern,
};
use crate::solver::{corpus_words, solve_post};

verus! {

/// The characters a run of single-byte values stands for.
pub open spec fn bytes_as_chars(s: Seq<u8>) -> Seq<char> {
    s.map_values(|b: u8| b as char)
}

/// True when every byte lies in the ASCII range.
pub open spec fn ascii_bytes(s: Seq<u8>) -> bool {
    forall|i: int| 0 <= i < s.len() ==> (#[trigger] s[i]) < 0x80
}

/// The byte of an ASCII character.
fn ascii_char_to_byte(c: char) -> (r: u8)
    requires
        (c as u32) < 0x80,
    ensures
        r < 0x80,
        (r as char) == c,
{
    let r = c as u8;
    proof {
        assert((r as char) as u32 == c as u32);
        vstd::utf8::char_u32_cast(c, c as u32);
        vstd::utf8::char_u32_cast((r as char), (r as char) as u32);
    }
    r
}

/// The bytes of a run of ASCII characters.
fn chars_to_ascii_bytes(v: &Vec<char>) -> (r: Vec<u8>)
    requires
        ascii_seq(v@),
    ensures
        ascii_bytes(r@),
        bytes_as_chars(r@) == v@,
{
    let n = v.len();
    let mut r: Vec<u8> = Vec::new();
    let mut i: usize = 0;
    while i < n
        invariant
            ascii_seq(v@),
            n == v@.len(),
            i <= n,
            r@.len() == i,
            forall|k: int| 0 <= k < i ==> (#[trigger] r@[k]) < 0x80 && (r@[k] as char) == v@[k],
        decreases n - i,
    {
        let b = ascii_char_to_byte(v[i]);
        r.push(b);
        i = i + 1;
    }
    proof {
        assert(bytes_as_chars(r@) =~= v@);
    }
    r
}

/// The characters of a run of single-byte values.
fn bytes_to_chars(v: &Vec<u8>) -> (r: Vec<char>)
    ensures
        r@ == bytes_as_chars(v@),
{
    let n = v.len();
    let mut r: Vec<char> = Vec::new();
    let mut i: usize = 0;
    while i < n
        invariant
            n == v@.len(),
            i <= n,
            r@.len() == i,
            forall|k: int| 0 <= k < i ==> (#[trigger] r@[k]) == (v@[k] as char),
        decreases n - i,
    {
        r.push(v[i] as char);
        i = i + 1;
    }
    proof {
        assert(r@ =~= bytes_as_chars(v@));
    }
    r
}

/// True when the byte vector holds the byte.
fn contains_byte(v: &Vec<u8>, b: u8) -> (r: bool)
    ensures
        r == v@.contains(b),
{
    let mut i: usize = 0;
    while i < v.len()
        invariant
            i <= v@.len(),
            forall|j: int| 0 <= j < i ==> v@[j] != b,
        decreases v@.len() - i,
    {
        if v[i] == b {
            return true;
        }
        i = i + 1;
    }
    proof {
        if v@.contains(b) {
            let j = choose|j: int| 0 <= j < v@.len() && v@[j] == b;
        }
    }
    false
}

/// A character is in the image of an ASCII byte run exactly when it is
/// ASCII itself and its byte is among the bytes.
proof fn lemma_image_contains(s: Seq<u8>, c: char)
    requires
        ascii_bytes(s),
    ensures
        bytes_as_chars(s).contains(c) <==> ((c as u32) < 0x80 && s.contains((c as u32) as u8)),
{
    if bytes_as_chars(s).contains(c) {
        let i = choose|i: int| 0 <= i < s.len() && bytes_as_chars(s)[i] == c;
        assert((s[i] as char) == c);
        assert((s[i] as char) as u32 == s[i]);
        assert(s[i] == (c as u32) as u8);
    }
    if (c as u32) < 0x80 && s.contains((c as u32) as u8) {
        let i = choose|i: int| 0 <= i < s.len() && s[i] == (c as u32) as u8;
        vstd::utf8::char_u32_cast(c, c as u32);
        assert(bytes_as_chars(s)[i] == (s[i] as char));
        assert((s[i] as char) == c);
    }
}

/// One slot of a compiled query, as callers see it.
#[derive(PartialEq, Eq, Debug, Clone, Copy)]
pub enum PatternLetter {
    Wildcard,
    Char(char),
}

/// The slot at `i`: the wildcard, the literal letter, or nothing past the
/// end.
pub open spec fn spec_get_letter(slots: Seq<char>, i: int) -> Option<PatternLetter> {
    if 0 <= i < slots.len() {
        if slots[i] == '_' {
            Some(PatternLetter::Wildcard)
        } else {
            Some(PatternLetter::Char(slots[i]))
        }
    } else {
        None
    }
}

/// The query interface shared by the Unicode and the byte representation
/// of a compiled pattern. Both must answer identically over the character
/// model.
pub trait PatternTrait: Sized {
    /// The slot sequence, in the character model.
    spec fn spec_slots(&self) -> Seq<char>;

    /// The effective excluded letters, in the character model.
    spec fn spec_invalid(&self) -> Seq<char>;

    /// The representation's own invariant.
    spec fn spec_wf(&self) -> bool;

    fn length(&self) -> (r: usize)
        requires
            self.spec_wf(),
        ensures
            r == self.spec_slots().len();

    fn get_letter(&self, index: usize) -> (r: Option<PatternLetter>)
        requires
            self.spec_wf(),
        ensures
            r == spec_get_letter(self.spec_slots(), index as int);

    fn is_allowed_letter(&self, ch: char) -> (r: bool)
        requires
            self.spec_wf(),
        ensures
            r == !self.spec_invalid().contains(ch);

    fn known_letters_count(&self) -> (r: usize)
        requires
            self.spec_wf(),
        ensures
            r == count_literals(self.spec_slots());
}

impl PatternTrait for Pattern {
    open spec fn spec_slots(&self) -> Seq<char> {
        self.pattern@
    }

    open spec fn spec_invalid(&self) -> Seq<char> {
        self.invalid_letters@
    }

    open spec fn spec_wf(&self) -> bool {
        self.wf()
    }

    fn length(&self) -> (r: usize) {
        self.pattern.len()
    }

    fn get_letter(&self, index: usize) -> (r: Option<PatternLetter>) {
        if index < self.pattern.len() {
            let c = self.pattern[index];
            if c == '_' {
                Some(PatternLetter::Wildcard)
            } else {
                Some(PatternLetter::Char(c))
            }
        } else {
            None
        }
    }

    fn is_allowed_letter(&self, ch: char) -> (r: bool) {
        !contains_char(&self.invalid_letters, ch)
    }

    fn known_letters_count(&self) -> (r: usize) {
        self.known_letters_count
    }
}

/// The all-byte specialization of a compiled query, usable when the
/// pattern text and the excluded letters are all ASCII. Its behavior over
/// the character model is identical to [`Pattern`]'s.
pub struct AsciiPattern {
    pub invalid_letters: Vec<u8>,
    pub pattern: Vec<u8>,
    pub first_letter: u8,
    /// True for classic hangman play, false for crossword mode.
    pub letters_in_pattern_have_no_other_occurrences: bool,
    pub known_letters_count: usize,
}

impl AsciiPattern {
    /// All bytes ASCII and the derived fields consistent with the
    /// character model.
    pub open spec fn wf(self) -> bool {
        &&& ascii_bytes(self.pattern@)
        &&& ascii_bytes(self.invalid_letters@)
        &&& self.first_letter == (if self.pattern@.len() == 0 {
            0x5fu8
        } else {
            self.pattern@[0]
        })
        &&& self.first_letter < 0x80
        &&& self.known_letters_count == count_literals(bytes_as_chars(self.pattern@))
        &&& bytes_as_chars(self.invalid_letters@).no_duplicates()
    }

    /// The relation to the texts the query was compiled from, stated over
    /// the character model.
    pub open spec fn is_compiled_from(self, s: Seq<char>, caller: Seq<char>, exact: bool) -> bool {
        &&& bytes_as_chars(self.pattern@) == normalize_pattern(s)
        &&& bytes_as_chars(self.invalid_letters@) == invalid_spec(
            normalize_pattern(s),
            caller,
            exact,
        )
        &&& self.letters_in_pattern_have_no_other_occurrences == exact
    }

    /// Compiles ASCII pattern text and excluded letters into the byte
    /// representation. The result is the byte image of what
    /// [`Pattern::new`] compiles from the same inputs.
    pub fn new(
        pattern: &str,
        invalid_letters: &[char],
        letters_in_pattern_have_no_other_occurrences: bool,
    ) -> (r: AsciiPattern)
        requires
            ascii_seq(pattern@),
            ascii_seq(invalid_letters@),
        ensures
            r.is_compiled_from(
                pattern@,
                invalid_letters@,
                letters_in_pattern_have_no_other_occurrences,
            ),
            r.wf(),
    {
        let p = Pattern::new(
            pattern,
            invalid_letters,
            letters_in_pattern_have_no_other_occurrences,
        );
        let pat_bytes = chars_to_ascii_bytes(&p.pattern);
        let inv_bytes = chars_to_ascii_bytes(&p.invalid_letters);
        let first: u8 = if pat_bytes.len() == 0 {
            0x5f
        } else {
            pat_bytes[0]
        };
        AsciiPattern {
            invalid_letters: inv_bytes,
            pattern: pat_bytes,
            first_letter: first,
            letters_in_pattern_have_no_other_occurrences,
            known_letters_count: p.known_letters_count,
        }
    }

    /// The general (Unicode) form of the same query.
    pub fn to_pattern(&self) -> (r: Pattern)
        requires
            self.wf(),
        ensures
            r.wf(),
            r.pattern@ == bytes_as_chars(self.pattern@),
            r.invalid_letters@ == bytes_as_chars(self.invalid_letters@),
            r.letters_in_pattern_have_no_other_occurrences
                == self.letters_in_pattern_have_no_other_occurrences,
    {
        let pattern = bytes_to_chars(&self.pattern);
        let invalid_letters = bytes_to_chars(&self.invalid_letters);
        let first_letter = self.first_letter as char;
        proof {
            if self.pattern@.len() == 0 {
                assert(('_' as u32) == 0x5f);
                vstd::utf8::char_u32_cast('_', 0x5f);
                assert((0x5fu8 as char) == '_');
            }
        }
        Pattern {
            invalid_letters,
            pattern,
            first_letter,
            letters_in_pattern_have_no_other_occurrences: self
                .letters_in_pattern_have_no_other_occurrences,
            known_letters_count: self.known_letters_count,
        }
    }

    /// The general form, consuming the byte form.
    pub fn into_pattern(self) -> (r: Pattern)
        requires
            self.wf(),
        ensures
            r.wf(),
            r.pattern@ == bytes_as_chars(self.pattern@),
            r.invalid_letters@ == bytes_as_chars(self.invalid_letters@),
            r.letters_in_pattern_have_no_other_occurrences
                == self.letters_in_pattern_have_no_other_occurrences,
    {
        self.to_pattern()
    }

    /// Answers the query; the result is what the general form of the same
    /// query answers.
    pub fn solve(
        &self,
        corpus: &Corpus,
        language: Language,
        max_words_to_collect: Option<usize>,
    ) -> (r: HangmanResult)
        requires
            self.wf(),
            corpus.wf(),
        ensures
            exists|p: Pattern|
                (#[trigger] p.pattern@) == bytes_as_chars(self.pattern@) && p.invalid_letters@
                    == bytes_as_chars(self.invalid_letters@)
                    && p.letters_in_pattern_have_no_other_occurrences
                    == self.letters_in_pattern_have_no_other_occurrences && solve_post(
                    p,
                    corpus_words(
                        *corpus,
                        language,
                        bytes_as_chars(self.pattern@).len() as int,
                    ),
                    language,
                    max_words_to_collect,
                    r,
                ),
    {
        let p = self.to_pattern();
        let r = p.solve(corpus, language, max_words_to_collect);
        proof {
            assert(p.pattern@ == bytes_as_chars(self.pattern@) && p.invalid_letters@
                == bytes_as_chars(self.invalid_letters@)
                && p.letters_in_pattern_have_no_other_occurrences
                == self.letters_in_pattern_have_no_other_occurrences && solve_post(
                p,
                corpus_words(*corpus, language, bytes_as_chars(self.pattern@).len() as int),
                language,
                max_words_to_collect,
                r,
            ));
        }
        r
    }
}

impl PatternTrait for AsciiPattern {
    open spec fn spec_slots(&self) -> Seq<char> {
        bytes_as_chars(self.pattern@)
    }

    open spec fn spec_invalid(&self) -> Seq<char> {
        bytes_as_chars(self.invalid_letters@)
    }

    open spec fn spec_wf(&self) -> bool {
        self.wf()
    }

    fn length(&self) -> (r: usize) {
        self.pattern.len()
    }

    fn get_letter(&self, index: usize) -> (r: Option<PatternLetter>) {
        if index < self.pattern.len() {
            let b = self.pattern[index];
            proof {
                assert(bytes_as_chars(self.pattern@)[index as int] == (b as char));
                assert((b as char) as u32 == b);
                assert(('_' as u32) == 0x5f);
                vstd::utf8::char_u32_cast('_', 0x5f);
                vstd::utf8::char_u32_cast((b as char), (b as char) as u32);
            }
            if b == 0x5f {
                Some(PatternLetter::Wildcard)
            } else {
                Some(PatternLetter::Char(b as char))
            }
        } else {
            None
        }
    }

    fn is_allowed_letter(&self, ch: char) -> (r: bool) {
        proof {
            lemma_image_contains(self.invalid_letters@, ch);
        }
        if (ch as u32) < 0x80 {
            !contains_byte(&self.invalid_letters, (ch as u32) as u8)
        } else {
            true
        }
    }

    fn known_letters_count(&self) -> (r: usize) {
        self.known_letters_count
    }
}

/// A compiled query in whichever representation fits its characters.
pub enum CompiledPattern {
    Ascii(AsciiPattern),
    Unicode(Pattern),
}

impl CompiledPattern {
    /// The slot sequence, in the character model.
    pub open spec fn spec_slots(self) -> Seq<char> {
        match self {
            CompiledPattern::Ascii(a) => bytes_as_chars(a.pattern@),
            CompiledPattern::Unicode(p) => p.pattern@,
        }
    }

    /// The effective excluded letters, in the character model.
    pub open spec fn spec_invalid(self) -> Seq<char> {
        match self {
            CompiledPattern::Ascii(a) => bytes_as_chars(a.invalid_letters@),
            CompiledPattern::Unicode(p) => p.invalid_letters@,
        }
    }

    /// True in exact-reveal mode.
    pub open spec fn spec_exact(self) -> bool {
        match self {
            CompiledPattern::Ascii(a) => a.letters_in_pattern_have_no_other_occurrences,
            CompiledPattern::Unicode(p) => p.letters_in_pattern_have_no_other_occurrences,
        }
    }

    /// The chosen representation's invariant.
    pub open spec fn wf(self) -> bool {
        match self {
            CompiledPattern::Ascii(a) => a.wf(),
            CompiledPattern::Unicode(p) => p.wf(),
        }
    }

    /// The relation to the texts the query was compiled from.
    pub open spec fn is_compiled_from(self, s: Seq<char>, caller: Seq<char>, exact: bool) -> bool {
        &&& self.spec_slots() == normalize_pattern(s)
        &&& self.spec_invalid() == invalid_spec(normalize_pattern(s), caller, exact)
        &&& self.spec_exact() == exact
    }

    /// The number of slots.
    pub fn length(&self) -> (r: usize)
        requires
            self.wf(),
        ensures
            r == self.spec_slots().len(),
    {
        match self {
            CompiledPattern::Ascii(a) => a.length(),
            CompiledPattern::Unicode(p) => p.length(),
        }
    }

    /// The slot at `index`.
    pub fn get_letter(&self, index: usize) -> (r: Option<PatternLetter>)
        requires
            self.wf(),
        ensures
            r == spec_get_letter(self.spec_slots(), index as int),
    {
        match self {
            CompiledPattern::Ascii(a) => a.get_letter(index),
            CompiledPattern::Unicode(p) => p.get_letter(index),
        }
    }

    /// True when `ch` is not excluded.
    pub fn is_allowed_letter(&self, ch: char) -> (r: bool)
        requires
            self.wf(),
        ensures
            r == !self.spec_invalid().contains(ch),
    {
        match self {
            CompiledPattern::Ascii(a) => a.is_allowed_letter(ch),
            CompiledPattern::Unicode(p) => p.is_allowed_letter(ch),
        }
    }

    /// The number of literal slots.
    pub fn known_letters_count(&self) -> (r: usize)
        requires
            self.wf(),
        ensures
            r == count_literals(self.spec_slots()),
    {
        match self {
            CompiledPattern::Ascii(a) => a.known_letters_count(),
            CompiledPattern::Unicode(p) => p.known_letters_count(),
        }
    }

    /// The general (Unicode) form of the query.
    pub fn into_pattern(self) -> (r: Pattern)
        requires
            self.wf(),
        ensures
            r.wf(),
            r.pattern@ == self.spec_slots(),
            r.invalid_letters@ == self.spec_invalid(),
            r.letters_in_pattern_have_no_other_occurrences == self.spec_exact(),
    {
        match self {
            CompiledPattern::Ascii(a) => a.into_pattern(),
            CompiledPattern::Unicode(p) => p,
        }
    }

    /// Answers the query against the corpus.
    pub fn solve(
        &self,
        corpus: &Corpus,
        language: Language,
        max_words_to_collect: Option<usize>,
    ) -> (r: HangmanResult)
        requires
            self.wf(),
            corpus.wf(),
        ensures
            exists|p: Pattern|
                (#[trigger] p.pattern@) == self.spec_slots() && p.invalid_letters@
                    == self.spec_invalid() && p.letters_in_pattern_have_no_other_occurrences
                    == self.spec_exact() && solve_post(
                    p,
                    corpus_words(*corpus, language, self.spec_slots().len() as int),
                    language,
                    max_words_to_collect,
                    r,
                ),
    {
        match self {
            CompiledPattern::Ascii(a) => a.solve(corpus, language, max_words_to_collect),
            CompiledPattern::Unicode(p) => {
                let r = p.solve(corpus, language, max_words_to_collect);
                proof {
                    assert(p.pattern@ == self.spec_slots() && p.invalid_letters@
                        == self.spec_invalid() && p.letters_in_pattern_have_no_other_occurrences
                        == self.spec_exact() && solve_post(
                        *p,
                        corpus_words(*corpus, language, self.spec_slots().len() as int),
                        language,
                        max_words_to_collect,
                        r,
                    ));
                }
                r
            },
        }
    }
}

/// True when every character of the slice is ASCII.
fn all_chars_ascii(v: &[char]) -> (r: bool)
    ensures
        r == ascii_seq(v@),
{
    let mut i: usize = 0;
    while i < v.len()
        invariant
            i <= v@.len(),
            forall|j: int| 0 <= j < i ==> ((#[trigger] v@[j]) as u32) < 0x80,
        decreases v@.len() - i,
    {
        let c = v[i];
        if (c as u32) >= 0x80 {
            return false;
        }
        i = i + 1;
    }
    true
}

/// Compiles a query, choosing the byte representation when the pattern
/// text and the excluded letters are all ASCII, and the general Unicode
/// representation otherwise. The two behave identically.
pub fn compile_pattern(
    pattern: &str,
    invalid_letters: &[char],
    letters_in_pattern_have_no_other_occurrences: bool,
) -> (r: CompiledPattern)
    ensures
        r.is_compiled_from(
            pattern@,
            invalid_letters@,
            letters_in_pattern_have_no_other_occurrences,
        ),
        r.wf(),
{
    if pattern.is_ascii() && all_chars_ascii(invalid_letters) {
        proof {
            assert(ascii_seq(pattern@));
        }
        CompiledPattern::Ascii(
            AsciiPattern::new(
                pattern,
                invalid_letters,
                letters_in_pattern_have_no_other_occurrences,
            ),
        )
    } else {
        CompiledPattern::Unicode(
            Pattern::new(pattern, invalid_letters, letters_in_pattern_have_no_other_occurrences),
        )
    }
}

} // verus!
