//! The pattern compiler: raw pattern text and excluded letters become a
//! normalized, validated query descriptor, and the per-word match test.

use vstd::prelude::*;

use crate::chars::{
    ascii_lower, contains_char, is_whitespace_char, lowercase_chars, spec_char_is_ascii,
    str_to_chars, to_lowercase_chars, unicode_whitespace, ControlChars,
};

verus! {

/// What one character of the pattern text contributes to the slot sequence:
/// nothing for whitespace, the canonical wildcard for a wildcard or an
/// alias, the lowercase mapping otherwise.
pub open spec fn norm_piece(c: char) -> Seq<char> {
    if unicode_whitespace(c) {
        Seq::empty()
    } else if c.spec_is_wildcard() {
        seq!['_']
    } else {
        lowercase_chars(c)
    }
}

/// The normalized slot sequence of a pattern text.
pub open spec fn normalize_pattern(s: Seq<char>) -> Seq<char>
    decreases s.len(),
{
    if s.len() == 0 {
        Seq::empty()
    } else {
        normalize_pattern(s.drop_last()) + norm_piece(s.last())
    }
}

/// The number of literal (non-wildcard) slots.
pub open spec fn count_literals(p: Seq<char>) -> nat
    decreases p.len(),
{
    if p.len() == 0 {
        0
    } else {
        count_literals(p.drop_last()) + (if p.last() == '_' {
            0nat
        } else {
            1nat
        })
    }
}

/// A pattern without literal slots is all wildcards.
pub proof fn lemma_count_literals_zero(p: Seq<char>)
    requires
        count_literals(p) == 0,
    ensures
        forall|i: int| 0 <= i < p.len() ==> p[i] == '_',
    decreases p.len(),
{
    if p.len() > 0 {
        lemma_count_literals_zero(p.drop_last());
        assert(p.last() == '_');
        assert forall|i: int| 0 <= i < p.len() implies p[i] == '_' by {
            if i < p.len() - 1 {
                assert(p.drop_last()[i] == p[i]);
            }
        }
    }
}

/// True when every character lies in the ASCII range.
pub open spec fn ascii_seq(s: Seq<char>) -> bool {
    forall|i: int| 0 <= i < s.len() ==> ((#[trigger] s[i]) as u32) < 0x80
}

/// The literal slots are drawn from the pattern.
pub proof fn lemma_non_wild_subset(p: Seq<char>, x: char)
    ensures
        non_wild(p).contains(x) ==> p.contains(x),
    decreases p.len(),
{
    if p.len() > 0 && non_wild(p).contains(x) {
        lemma_non_wild_subset(p.drop_last(), x);
        let sub = non_wild(p.drop_last());
        let k = choose|k: int| 0 <= k < non_wild(p).len() && non_wild(p)[k] == x;
        if k < sub.len() {
            assert(sub[k] == x);
            if p.drop_last().contains(x) {
                let i = choose|i: int| 0 <= i < p.len() - 1 && p.drop_last()[i] == x;
                assert(p[i] == x);
            }
        } else {
            assert(p.last() == x);
            assert(p[p.len() - 1] == x);
        }
    }
}

/// The surviving excluded letters are drawn from the caller's letters.
pub proof fn lemma_filter_excluded_subset(s: Seq<char>, x: char)
    ensures
        filter_excluded(s).contains(x) ==> s.contains(x),
    decreases s.len(),
{
    if s.len() > 0 && filter_excluded(s).contains(x) {
        lemma_filter_excluded_subset(s.drop_last(), x);
        let sub = filter_excluded(s.drop_last());
        let k = choose|k: int|
            0 <= k < filter_excluded(s).len() && filter_excluded(s)[k] == x;
        if k < sub.len() {
            assert(sub[k] == x);
            if s.drop_last().contains(x) {
                let i = choose|i: int| 0 <= i < s.len() - 1 && s.drop_last()[i] == x;
                assert(s[i] == x);
            }
        } else {
            assert(s.last() == x);
            assert(s[s.len() - 1] == x);
        }
    }
}

/// The first slot, or the wildcard for an empty pattern.
pub open spec fn first_of(p: Seq<char>) -> char {
    if p.len() == 0 {
        '_'
    } else {
        p[0]
    }
}

/// The caller-supplied excluded letters after dropping whitespace and
/// wildcard characters, order kept.
pub open spec fn filter_excluded(s: Seq<char>) -> Seq<char>
    decreases s.len(),
{
    if s.len() == 0 {
        Seq::empty()
    } else {
        filter_excluded(s.drop_last()) + (if !unicode_whitespace(s.last())
            && !s.last().spec_is_wildcard() {
            seq![s.last()]
        } else {
            Seq::empty()
        })
    }
}

/// The literal slots of a normalized pattern, order kept.
pub open spec fn non_wild(p: Seq<char>) -> Seq<char>
    decreases p.len(),
{
    if p.len() == 0 {
        Seq::empty()
    } else {
        non_wild(p.drop_last()) + (if p.last() == '_' {
            Seq::empty()
        } else {
            seq![p.last()]
        })
    }
}

/// Appends each character of `s`, in order, that `a` does not yet hold:
/// order-keeping deduplication.
pub open spec fn append_new(a: Seq<char>, s: Seq<char>) -> Seq<char>
    decreases s.len(),
{
    if s.len() == 0 {
        a
    } else {
        let e = append_new(a, s.drop_last());
        if e.contains(s.last()) {
            e
        } else {
            e.push(s.last())
        }
    }
}

/// `append_new` keeps distinctness, stays within the combined length, and
/// holds exactly the characters of its two arguments.
pub proof fn lemma_append_new(a: Seq<char>, s: Seq<char>)
    requires
        a.no_duplicates(),
    ensures
        append_new(a, s).no_duplicates(),
        append_new(a, s).len() <= a.len() + s.len(),
        forall|x: char|
            append_new(a, s).contains(x) <==> a.contains(x) || s.contains(x),
    decreases s.len(),
{
    if s.len() > 0 {
        lemma_append_new(a, s.drop_last());
        let e = append_new(a, s.drop_last());
        let r = append_new(a, s);
        assert forall|x: char| r.contains(x) <==> a.contains(x) || s.contains(x) by {
            if s.contains(x) {
                let i = choose|i: int| 0 <= i < s.len() && s[i] == x;
                if i < s.len() - 1 {
                    assert(s.drop_last()[i] == x);
                }
            }
            if s.drop_last().contains(x) {
                let i = choose|i: int| 0 <= i < s.len() - 1 && s.drop_last()[i] == x;
                assert(s[i] == x);
            }
            if !e.contains(s.last()) {
                if r.contains(x) {
                    let i = choose|i: int| 0 <= i < r.len() && r[i] == x;
                    if i < e.len() {
                        assert(e[i] == x);
                    } else {
                        assert(x == s.last());
                        assert(s[s.len() - 1] == x);
                    }
                }
                if e.contains(x) {
                    let i = choose|i: int| 0 <= i < e.len() && e[i] == x;
                    assert(r[i] == x);
                }
                if x == s.last() {
                    assert(r[r.len() - 1] == x);
                }
            }
        }
        if !e.contains(s.last()) {
            assert(r.drop_last() =~= e);
        }
    }
}

/// The effective excluded letters: in exact-reveal mode every literal
/// pattern letter followed by every surviving caller letter, otherwise the
/// caller letters alone; duplicates dropped, first occurrence kept.
pub open spec fn invalid_spec(p: Seq<char>, caller: Seq<char>, exact: bool) -> Seq<char> {
    if exact {
        append_new(append_new(Seq::empty(), non_wild(p)), filter_excluded(caller))
    } else {
        append_new(Seq::empty(), filter_excluded(caller))
    }
}

/// One slot against one word character: a literal must be that very
/// character, a wildcard admits anything not excluded.
pub open spec fn spec_slot_matches(p: char, wc: char, invalid: Seq<char>) -> bool {
    if p == '_' {
        !invalid.contains(wc)
    } else {
        p == wc
    }
}

/// A compiled query: the normalized slot sequence, the effective excluded
/// letters, and the values derived from them.
pub struct Pattern {
    pub invalid_letters: Vec<char>,
    pub pattern: Vec<char>,
    pub first_letter: char,
    /// True for classic hangman play: every occurrence of a revealed letter
    /// is already shown in the pattern. False for crossword mode.
    pub letters_in_pattern_have_no_other_occurrences: bool,
    pub known_letters_count: usize,
}

impl Pattern {
    /// The derived fields agree with the slot sequence and the excluded
    /// letters hold no duplicates.
    pub open spec fn wf(self) -> bool {
        &&& self.first_letter == first_of(self.pattern@)
        &&& self.known_letters_count == count_literals(self.pattern@)
        &&& self.invalid_letters@.no_duplicates()
    }

    /// The relation between a compiled pattern and the texts it was
    /// compiled from.
    pub open spec fn is_compiled_from(self, s: Seq<char>, caller: Seq<char>, exact: bool) -> bool {
        &&& self.pattern@ == normalize_pattern(s)
        &&& self.invalid_letters@ == invalid_spec(normalize_pattern(s), caller, exact)
        &&& self.letters_in_pattern_have_no_other_occurrences == exact
        &&& self.first_letter == first_of(self.pattern@)
        &&& self.known_letters_count == count_literals(self.pattern@)
    }

    /// Compiles pattern text and excluded letters into a query descriptor.
    pub fn new(
        pattern: &str,
        invalid_letters: &[char],
        letters_in_pattern_have_no_other_occurrences: bool,
    ) -> (r: Pattern)
        ensures
            r.is_compiled_from(
                pattern@,
                invalid_letters@,
                letters_in_pattern_have_no_other_occurrences,
            ),
            r.wf(),
            ascii_seq(pattern@) ==> ascii_seq(r.pattern@),
            ascii_seq(pattern@) && ascii_seq(invalid_letters@) ==> ascii_seq(r.invalid_letters@),
    {
        let source = str_to_chars(pattern);
        let n = source.len();
        let mut slots: Vec<char> = Vec::new();
        let mut i: usize = 0;
        while i < n
            invariant
                n == source@.len(),
                i <= n,
                slots@ == normalize_pattern(source@.take(i as int)),
                ascii_seq(source@) ==> ascii_seq(slots@),
            decreases n - i,
        {
            let c = source[i];
            proof {
                assert(source@.take(i as int + 1).drop_last() =~= source@.take(i as int));
                assert(source@.take(i as int + 1).last() == c);
            }
            if is_whitespace_char(c) {
                proof {
                    assert(slots@ =~= normalize_pattern(source@.take(i as int + 1)));
                }
            } else if c.is_wildcard() {
                slots.push('_');
                proof {
                    assert(slots@ =~= normalize_pattern(source@.take(i as int + 1)));
                }
            } else {
                let low = to_lowercase_chars(c);
                let mut j: usize = 0;
                let ghost before = slots@;
                while j < low.len()
                    invariant
                        j <= low@.len(),
                        slots@ == before + low@.take(j as int),
                        spec_char_is_ascii(c) ==> low@ == seq![ascii_lower(c)],
                        ascii_seq(source@) ==> ascii_seq(before),
                        i < n,
                        n == source@.len(),
                        c == source@[i as int],
                        ascii_seq(source@) ==> ascii_seq(slots@),
                    decreases low@.len() - j,
                {
                    slots.push(low[j]);
                    j = j + 1;
                    proof {
                        assert(slots@ =~= before + low@.take(j as int));
                    }
                }
                proof {
                    assert(low@.take(low@.len() as int) =~= low@);
                    assert(slots@ =~= normalize_pattern(source@.take(i as int + 1)));
                }
            }
            i = i + 1;
        }
        proof {
            assert(source@.take(n as int) =~= source@);
        }
        proof {
            if ascii_seq(source@) {
                assert(ascii_seq(slots@));
            }
        }
        // The effective excluded letters: literal slots first in exact-reveal
        // mode, then the surviving caller letters, duplicates dropped.
        let mut invalid: Vec<char> = Vec::new();
        if letters_in_pattern_have_no_other_occurrences {
            let mut k: usize = 0;
            while k < slots.len()
                invariant
                    k <= slots@.len(),
                    invalid@ == append_new(Seq::empty(), non_wild(slots@.take(k as int))),
                decreases slots@.len() - k,
            {
                let c = slots[k];
                proof {
                    assert(slots@.take(k as int + 1).drop_last() =~= slots@.take(k as int));
                    assert(slots@.take(k as int + 1).last() == c);
                }
                if c != '_' {
                    if !contains_char(&invalid, c) {
                        invalid.push(c);
                    }
                }
                k = k + 1;
                proof {
                    if c == '_' {
                        assert(non_wild(slots@.take(k as int)) =~= non_wild(
                            slots@.take(k as int - 1),
                        ));
                    } else {
                        assert(non_wild(slots@.take(k as int)) =~= non_wild(
                            slots@.take(k as int - 1),
                        ).push(c));
                        Self::lemma_append_new_step(
                            Seq::empty(),
                            non_wild(slots@.take(k as int - 1)),
                            c,
                        );
                    }
                }
            }
            proof {
                assert(slots@.take(slots@.len() as int) =~= slots@);
            }
        }
        let m = invalid_letters.len();
        let ghost base = invalid@;
        let mut k: usize = 0;
        while k < m
            invariant
                m == invalid_letters@.len(),
                k <= m,
                invalid@ == append_new(base, filter_excluded(invalid_letters@.take(k as int))),
            decreases m - k,
        {
            let c = invalid_letters[k];
            proof {
                assert(invalid_letters@.take(k as int + 1).drop_last() =~= invalid_letters@.take(
                    k as int,
                ));
                assert(invalid_letters@.take(k as int + 1).last() == c);
            }
            let keep = !is_whitespace_char(c) && !c.is_wildcard();
            if keep {
                if !contains_char(&invalid, c) {
                    invalid.push(c);
                }
            }
            k = k + 1;
            proof {
                if keep {
                    assert(filter_excluded(invalid_letters@.take(k as int)) =~= filter_excluded(
                        invalid_letters@.take(k as int - 1),
                    ).push(c));
                    Self::lemma_append_new_step(
                        base,
                        filter_excluded(invalid_letters@.take(k as int - 1)),
                        c,
                    );
                } else {
                    assert(filter_excluded(invalid_letters@.take(k as int)) =~= filter_excluded(
                        invalid_letters@.take(k as int - 1),
                    ));
                }
            }
        }
        proof {
            assert(invalid_letters@.take(m as int) =~= invalid_letters@);
        }
        // Derived values.
        let first_letter = if slots.len() == 0 {
            '_'
        } else {
            slots[0]
        };
        let mut known: usize = 0;
        let mut k: usize = 0;
        while k < slots.len()
            invariant
                k <= slots@.len(),
                known == count_literals(slots@.take(k as int)),
                known <= k,
            decreases slots@.len() - k,
        {
            proof {
                assert(slots@.take(k as int + 1).drop_last() =~= slots@.take(k as int));
                assert(slots@.take(k as int + 1).last() == slots@[k as int]);
            }
            if slots[k] != '_' {
                known = known + 1;
            }
            k = k + 1;
        }
        proof {
            assert(slots@.take(slots@.len() as int) =~= slots@);
            Self::lemma_invalid_no_dup(slots@, invalid_letters@,
                letters_in_pattern_have_no_other_occurrences);
            if ascii_seq(source@) && ascii_seq(invalid_letters@) {
                Self::lemma_invalid_ascii(slots@, invalid_letters@,
                    letters_in_pattern_have_no_other_occurrences);
            }
        }
        Pattern {
            invalid_letters: invalid,
            pattern: slots,
            first_letter,
            letters_in_pattern_have_no_other_occurrences,
            known_letters_count: known,
        }
    }

    /// One step of the order-keeping deduplication.
    proof fn lemma_append_new_step(a: Seq<char>, s: Seq<char>, c: char)
        ensures
            append_new(a, s.push(c)) == (if append_new(a, s).contains(c) {
                append_new(a, s)
            } else {
                append_new(a, s).push(c)
            }),
    {
        assert(s.push(c).drop_last() =~= s);
        assert(s.push(c).last() == c);
    }

    /// The effective excluded letters hold no duplicates.
    proof fn lemma_invalid_no_dup(p: Seq<char>, caller: Seq<char>, exact: bool)
        ensures
            invalid_spec(p, caller, exact).no_duplicates(),
    {
        if exact {
            lemma_append_new(Seq::empty(), non_wild(p));
            lemma_append_new(append_new(Seq::empty(), non_wild(p)), filter_excluded(caller));
        } else {
            lemma_append_new(Seq::empty(), filter_excluded(caller));
        }
    }

    /// ASCII inputs compile to ASCII excluded letters.
    proof fn lemma_invalid_ascii(p: Seq<char>, caller: Seq<char>, exact: bool)
        requires
            ascii_seq(p),
            ascii_seq(caller),
        ensures
            ascii_seq(invalid_spec(p, caller, exact)),
    {
        let inv = invalid_spec(p, caller, exact);
        if exact {
            lemma_append_new(Seq::empty(), non_wild(p));
            lemma_append_new(append_new(Seq::empty(), non_wild(p)), filter_excluded(caller));
        } else {
            lemma_append_new(Seq::empty(), filter_excluded(caller));
        }
        assert forall|i: int| 0 <= i < inv.len() implies ((#[trigger] inv[i]) as u32) < 0x80 by {
            let x = inv[i];
            assert(inv.contains(x));
            lemma_non_wild_subset(p, x);
            lemma_filter_excluded_subset(caller, x);
            assert(!Seq::<char>::empty().contains(x));
            if p.contains(x) {
                let k = choose|k: int| 0 <= k < p.len() && p[k] == x;
            } else if caller.contains(x) {
                let k = choose|k: int| 0 <= k < caller.len() && caller[k] == x;
            }
        }
    }

    /// The excluded letters of the query.
    pub fn invalid_letters(&self) -> (r: &[char])
        ensures
            r@ == self.invalid_letters@,
    {
        self.invalid_letters.as_slice()
    }

    /// The normalized slot sequence.
    pub fn pattern(&self) -> (r: &[char])
        ensures
            r@ == self.pattern@,
    {
        self.pattern.as_slice()
    }

    /// True when a word of matching length may hold `letter` at a wildcard
    /// position.
    pub open spec fn spec_letter_ok(self, letter: char) -> bool {
        !self.invalid_letters@.contains(letter)
    }

    /// True when the word is consistent with the query: the same letter at
    /// every literal slot, a letter outside the excluded set at every
    /// wildcard slot.
    pub open spec fn spec_matches(self, w: Seq<char>) -> bool {
        &&& w.len() == self.pattern@.len()
        &&& forall|i: int|
            0 <= i < w.len() ==> spec_slot_matches(
                self.pattern@[i],
                #[trigger] w[i],
                self.invalid_letters@,
            )
    }

    /// True when the first slot is the wildcard.
    pub fn first_letter_is_wildcard(&self) -> (r: bool)
        ensures
            r == (self.first_letter == '_'),
    {
        self.first_letter == '_'
    }

    /// True when the word begins with the known first letter.
    pub fn first_letter_matches(&self, word: &Vec<char>) -> (r: bool)
        ensures
            r == (word@.len() > 0 && word@[0] == self.first_letter),
    {
        word.len() > 0 && word[0] == self.first_letter
    }

    /// True when `letter` is not excluded.
    pub fn letter_is_valid(&self, letter: char) -> (r: bool)
        ensures
            r == self.spec_letter_ok(letter),
    {
        !contains_char(&self.invalid_letters, letter)
    }

    /// The per-word match test.
    pub fn matches(&self, word: &Vec<char>) -> (r: bool)
        ensures
            r == self.spec_matches(word@),
    {
        let n = word.len();
        if n != self.pattern.len() {
            return false;
        }
        let mut i: usize = 0;
        while i < n
            invariant
                n == word@.len(),
                n == self.pattern@.len(),
                i <= n,
                forall|j: int|
                    0 <= j < i ==> spec_slot_matches(
                        self.pattern@[j],
                        #[trigger] word@[j],
                        self.invalid_letters@,
                    ),
            decreases n - i,
        {
            let p = self.pattern[i];
            let wc = word[i];
            if p == '_' {
                if contains_char(&self.invalid_letters, wc) {
                    return false;
                }
            } else if p != wc {
                return false;
            }
            i = i + 1;
        }
        true
    }

    /// The number of literal slots.
    pub fn known_letters_count(&self) -> (r: usize)
        requires
            self.wf(),
        ensures
            r == count_literals(self.pattern@),
    {
        self.known_letters_count
    }
}

} // verus!
