//! Library-wide laws: proved statements that relate compilation, matching
//! and result assembly across calls.

use vstd::prelude::*;

use crate::hangman_result::HangmanResult;
use crate::language::Language;
use crate::pattern::{non_wild, Pattern};
use crate::solver::{
    clamp_u32, final_count, has_key, lemma_matching_contains, matching, rank_le, ranked,
    raw_count, solve_post, sorted_chars,
};

verus! {

/// A word is in the match set exactly when it is in the length bucket, has
/// the identical letter at every literal slot, and at every wildcard slot a
/// letter outside the effective excluded set.
pub proof fn lemma_match_set_characterization(p: Pattern, words: Seq<Seq<char>>, w: Seq<char>)
    ensures
        matching(p, words).contains(w) <==> words.contains(w) && p.spec_matches(w),
{
    lemma_matching_contains(p, words, w);
}

/// Compiling the same pattern text and excluded letters twice yields
/// structurally identical patterns.
pub proof fn lemma_compile_deterministic(
    p1: Pattern,
    p2: Pattern,
    s: Seq<char>,
    caller: Seq<char>,
    exact: bool,
)
    requires
        p1.is_compiled_from(s, caller, exact),
        p2.is_compiled_from(s, caller, exact),
    ensures
        p1.pattern@ == p2.pattern@,
        p1.invalid_letters@ == p2.invalid_letters@,
        p1.first_letter == p2.first_letter,
        p1.known_letters_count == p2.known_letters_count,
        p1.letters_in_pattern_have_no_other_occurrences
            == p2.letters_in_pattern_have_no_other_occurrences,
{
}

/// Two patterns with the same slots and excluded letters select the same
/// match set.
pub proof fn lemma_matching_congruent(p1: Pattern, p2: Pattern, words: Seq<Seq<char>>)
    requires
        p1.pattern@ == p2.pattern@,
        p1.invalid_letters@ == p2.invalid_letters@,
    ensures
        matching(p1, words) == matching(p2, words),
    decreases words.len(),
{
    if words.len() > 0 {
        lemma_matching_congruent(p1, p2, words.drop_last());
        assert(p1.spec_matches(words.last()) == p2.spec_matches(words.last()));
    }
}

/// Two patterns with the same slots, excluded letters and mode report the
/// same count for every letter.
pub proof fn lemma_final_count_congruent(
    p1: Pattern,
    p2: Pattern,
    words: Seq<Seq<char>>,
    c: char,
)
    requires
        p1.pattern@ == p2.pattern@,
        p1.invalid_letters@ == p2.invalid_letters@,
        p1.letters_in_pattern_have_no_other_occurrences
            == p2.letters_in_pattern_have_no_other_occurrences,
    ensures
        final_count(p1, words, c) == final_count(p2, words, c),
{
    lemma_matching_congruent(p1, p2, words);
}

/// Two sorted duplicate-free character lists with the same members are the
/// same list.
pub proof fn lemma_sorted_chars_unique(a: Seq<char>, b: Seq<char>)
    requires
        sorted_chars(a),
        sorted_chars(b),
        a.no_duplicates(),
        b.no_duplicates(),
        forall|c: char| a.contains(c) <==> b.contains(c),
    ensures
        a == b,
    decreases a.len(),
{
    if a.len() == 0 {
        if b.len() > 0 {
            assert(b.contains(b[0]));
            assert(false);
        }
        assert(a =~= b);
    } else {
        assert(a.contains(a[0]));
        if b.len() == 0 {
            assert(false);
        }
        assert(b.contains(b[0]));
        assert(b.contains(a[0]));
        assert(a.contains(b[0]));
        let i = choose|i: int| 0 <= i < b.len() && b[i] == a[0];
        let j = choose|j: int| 0 <= j < a.len() && a[j] == b[0];
        if i > 0 {
            assert((b[0] as u32) <= (b[i] as u32));
        }
        if j > 0 {
            assert((a[0] as u32) <= (a[j] as u32));
        }
        assert((b[0] as u32) <= (a[0] as u32));
        assert((a[0] as u32) <= (b[0] as u32));
        vstd::utf8::char_u32_cast(a[0], a[0] as u32);
        vstd::utf8::char_u32_cast(b[0], b[0] as u32);
        assert(a[0] == b[0]);
        let at = a.drop_first();
        let bt = b.drop_first();
        assert forall|c: char| at.contains(c) <==> (a.contains(c) && c != a[0]) by {
            if at.contains(c) {
                let k = choose|k: int| 0 <= k < at.len() && at[k] == c;
                assert(a[k + 1] == c);
                assert(a[k + 1] != a[0]);
            }
            if a.contains(c) && c != a[0] {
                let k = choose|k: int| 0 <= k < a.len() && a[k] == c;
                assert(k >= 1);
                assert(at[k - 1] == c);
            }
        }
        assert forall|c: char| bt.contains(c) <==> (b.contains(c) && c != b[0]) by {
            if bt.contains(c) {
                let k = choose|k: int| 0 <= k < bt.len() && bt[k] == c;
                assert(b[k + 1] == c);
                assert(b[k + 1] != b[0]);
            }
            if b.contains(c) && c != b[0] {
                let k = choose|k: int| 0 <= k < b.len() && b[k] == c;
                assert(k >= 1);
                assert(bt[k - 1] == c);
            }
        }
        assert(forall|k: int| 0 <= k < at.len() ==> at[k] == a[k + 1]);
        assert(forall|k: int| 0 <= k < bt.len() ==> bt[k] == b[k + 1]);
        assert(sorted_chars(at)) by {
            assert forall|x: int, y: int|
                0 <= x < y < at.len() implies ((at[x] as u32) <= (at[y] as u32)) by {
                assert(at[x] == a[x + 1]);
                assert(at[y] == a[y + 1]);
            }
        }
        assert(sorted_chars(bt)) by {
            assert forall|x: int, y: int|
                0 <= x < y < bt.len() implies ((bt[x] as u32) <= (bt[y] as u32)) by {
                assert(bt[x] == b[x + 1]);
                assert(bt[y] == b[y + 1]);
            }
        }
        assert(at.no_duplicates()) by {
            assert forall|x: int, y: int|
                0 <= x < at.len() && 0 <= y < at.len() && x != y implies at[x] != at[y] by {
                assert(at[x] == a[x + 1]);
                assert(at[y] == a[y + 1]);
            }
        }
        assert(bt.no_duplicates()) by {
            assert forall|x: int, y: int|
                0 <= x < bt.len() && 0 <= y < bt.len() && x != y implies bt[x] != bt[y] by {
                assert(bt[x] == b[x + 1]);
                assert(bt[y] == b[y + 1]);
            }
        }
        lemma_sorted_chars_unique(at, bt);
        assert(a.len() == b.len());
        assert forall|k: int| 0 <= k < a.len() implies a[k] == b[k] by {
            if k >= 1 {
                assert(a[k] == at[k - 1]);
                assert(at[k - 1] == bt[k - 1]);
                assert(bt[k - 1] == b[k]);
            }
        }
        assert(a =~= b);
    }
}

/// Two ranked duplicate-key-free lists whose entries report the positive
/// values of the same letter-count function, completely, are the same list.
pub proof fn lemma_ranking_unique(
    a: Seq<(char, u32)>,
    b: Seq<(char, u32)>,
    f: spec_fn(char) -> int,
)
    requires
        ranked(a),
        ranked(b),
        forall|i: int, j: int| 0 <= i < j < a.len() ==> (#[trigger] a[i]).0 != (#[trigger] a[j]).0,
        forall|i: int, j: int| 0 <= i < j < b.len() ==> (#[trigger] b[i]).0 != (#[trigger] b[j]).0,
        forall|i: int|
            0 <= i < a.len() ==> f((#[trigger] a[i]).0) > 0 && a[i].1 as int == clamp_u32(
                f(a[i].0),
            ),
        forall|i: int|
            0 <= i < b.len() ==> f((#[trigger] b[i]).0) > 0 && b[i].1 as int == clamp_u32(
                f(b[i].0),
            ),
        forall|c: char| f(c) > 0 ==> has_key(a, c) && has_key(b, c),
    ensures
        a == b,
    decreases a.len(),
{
    if a.len() == 0 {
        if b.len() > 0 {
            assert(f(b[0].0) > 0);
            assert(has_key(a, b[0].0));
            assert(false);
        }
        assert(a =~= b);
    } else {
        assert(f(a[0].0) > 0);
        assert(has_key(b, a[0].0));
        if b.len() == 0 {
            assert(false);
        }
        assert(f(b[0].0) > 0);
        assert(has_key(a, b[0].0));
        let i = choose|i: int| 0 <= i < b.len() && (#[trigger] b[i]).0 == a[0].0;
        assert(b[i].1 as int == clamp_u32(f(b[i].0)));
        assert(b[i].1 == a[0].1);
        if i > 0 {
            assert(rank_le(b[0], b[i]));
        }
        let j = choose|j: int| 0 <= j < a.len() && (#[trigger] a[j]).0 == b[0].0;
        assert(a[j].1 as int == clamp_u32(f(a[j].0)));
        assert(a[j].1 == b[0].1);
        if j > 0 {
            assert(rank_le(a[0], a[j]));
        }
        assert(rank_le(a[0], b[0]));
        assert(rank_le(b[0], a[0]));
        vstd::utf8::char_u32_cast(a[0].0, a[0].0 as u32);
        vstd::utf8::char_u32_cast(b[0].0, b[0].0 as u32);
        assert(a[0].0 == b[0].0 && a[0].1 == b[0].1);
        let at = a.drop_first();
        let bt = b.drop_first();
        let f2 = |c: char| if c == a[0].0 {
            0int
        } else {
            f(c)
        };
        assert(forall|k: int| 0 <= k < at.len() ==> at[k] == a[k + 1]);
        assert(forall|k: int| 0 <= k < bt.len() ==> bt[k] == b[k + 1]);
        assert(ranked(at)) by {
            assert forall|x: int, y: int|
                0 <= x < y < at.len() implies rank_le(#[trigger] at[x], #[trigger] at[y]) by {
                assert(at[x] == a[x + 1]);
                assert(at[y] == a[y + 1]);
                assert(rank_le(a[x + 1], a[y + 1]));
            }
        }
        assert(ranked(bt)) by {
            assert forall|x: int, y: int|
                0 <= x < y < bt.len() implies rank_le(#[trigger] bt[x], #[trigger] bt[y]) by {
                assert(bt[x] == b[x + 1]);
                assert(bt[y] == b[y + 1]);
                assert(rank_le(b[x + 1], b[y + 1]));
            }
        }
        assert forall|x: int, y: int|
            0 <= x < y < at.len() implies (#[trigger] at[x]).0 != (#[trigger] at[y]).0 by {
            assert(at[x] == a[x + 1]);
            assert(at[y] == a[y + 1]);
        }
        assert forall|x: int, y: int|
            0 <= x < y < bt.len() implies (#[trigger] bt[x]).0 != (#[trigger] bt[y]).0 by {
            assert(bt[x] == b[x + 1]);
            assert(bt[y] == b[y + 1]);
        }
        assert forall|c: char| f2(c) > 0 implies has_key(at, c) && has_key(bt, c) by {
            assert(f(c) > 0);
            assert(has_key(a, c));
            assert(has_key(b, c));
            let k = choose|k: int| 0 <= k < a.len() && (#[trigger] a[k]).0 == c;
            assert(k >= 1);
            assert(at[k - 1].0 == c);
            let k2 = choose|k2: int| 0 <= k2 < b.len() && (#[trigger] b[k2]).0 == c;
            assert(k2 >= 1);
            assert(bt[k2 - 1].0 == c);
        }
        assert forall|k: int|
            0 <= k < at.len() implies f2((#[trigger] at[k]).0) > 0 && at[k].1 as int == clamp_u32(
            f2(at[k].0),
        ) by {
            assert(at[k] == a[k + 1]);
            assert(a[k + 1].0 != a[0].0);
        }
        assert forall|k: int|
            0 <= k < bt.len() implies f2((#[trigger] bt[k]).0) > 0 && bt[k].1 as int == clamp_u32(
            f2(bt[k].0),
        ) by {
            assert(bt[k] == b[k + 1]);
            assert(b[k + 1].0 != b[0].0);
        }
        lemma_ranking_unique(at, bt, f2);
        assert(a.len() == b.len());
        assert forall|k: int| 0 <= k < a.len() implies a[k] == b[k] by {
            if k >= 1 {
                assert(a[k] == at[k - 1]);
                assert(at[k - 1] == bt[k - 1]);
                assert(bt[k - 1] == b[k]);
            }
        }
        assert(a =~= b);
    }
}

/// Solving the same compiled query twice over the same bucket with the same
/// cap yields identical result records, field by field.
pub proof fn lemma_solve_deterministic(
    p1: Pattern,
    p2: Pattern,
    words: Seq<Seq<char>>,
    lang: Language,
    cap: Option<usize>,
    r1: HangmanResult,
    r2: HangmanResult,
)
    requires
        p1.pattern@ == p2.pattern@,
        p1.invalid_letters@ == p2.invalid_letters@,
        p1.letters_in_pattern_have_no_other_occurrences
            == p2.letters_in_pattern_have_no_other_occurrences,
        solve_post(p1, words, lang, cap, r1),
        solve_post(p2, words, lang, cap, r2),
    ensures
        r1.input@ == r2.input@,
        r1.language == r2.language,
        r1.matching_words_count == r2.matching_words_count,
        r1.invalid@ == r2.invalid@,
        r1.letter_frequency@ == r2.letter_frequency@,
        r1.possible_words@.len() == r2.possible_words@.len(),
        forall|i: int|
            0 <= i < r1.possible_words@.len() ==> (#[trigger] r1.possible_words@[i])@
                == r2.possible_words@[i]@,
{
    lemma_matching_congruent(p1, p2, words);
    lemma_sorted_chars_unique(r1.invalid@, r2.invalid@);
    let f = |c: char| final_count(p1, words, c);
    assert forall|c: char| final_count(p2, words, c) == f(c) by {
        lemma_final_count_congruent(p1, p2, words, c);
    }
    lemma_ranking_unique(r1.letter_frequency@, r2.letter_frequency@, f);
}

/// The total match count and the letter-frequency ranking do not depend on
/// the sample cap; only the sample itself does.
pub proof fn lemma_sample_cap_invariance(
    p: Pattern,
    words: Seq<Seq<char>>,
    lang: Language,
    cap1: Option<usize>,
    cap2: Option<usize>,
    r1: HangmanResult,
    r2: HangmanResult,
)
    requires
        solve_post(p, words, lang, cap1, r1),
        solve_post(p, words, lang, cap2, r2),
    ensures
        r1.matching_words_count == r2.matching_words_count,
        r1.letter_frequency@ == r2.letter_frequency@,
        r1.input@ == r2.input@,
        r1.invalid@ == r2.invalid@,
        forall|i: int|
            0 <= i < r1.possible_words@.len() && i < r2.possible_words@.len() ==> (
            #[trigger] r1.possible_words@[i])@ == r2.possible_words@[i]@,
{
    lemma_sorted_chars_unique(r1.invalid@, r2.invalid@);
    let f = |c: char| final_count(p, words, c);
    lemma_ranking_unique(r1.letter_frequency@, r2.letter_frequency@, f);
}

/// In exact-reveal mode no literal pattern letter ever appears in the
/// letter-frequency ranking.
pub proof fn lemma_exact_reveal_hides_pattern_letters(
    p: Pattern,
    words: Seq<Seq<char>>,
    lang: Language,
    cap: Option<usize>,
    r: HangmanResult,
)
    requires
        solve_post(p, words, lang, cap, r),
        p.letters_in_pattern_have_no_other_occurrences,
    ensures
        forall|i: int|
            0 <= i < r.letter_frequency@.len() ==> !p.pattern@.contains(
                (#[trigger] r.letter_frequency@[i]).0,
            ),
{
    assert forall|i: int|
        0 <= i < r.letter_frequency@.len() implies !p.pattern@.contains(
        (#[trigger] r.letter_frequency@[i]).0,
    ) by {
        assert(final_count(p, words, r.letter_frequency@[i].0) > 0);
    }
}

/// In crossword mode a letter's reported count is its occurrences across
/// all matches minus, per literal occurrence in the pattern, the match
/// count; the letter is omitted once nothing positive remains.
pub proof fn lemma_crossword_letter_frequency(
    p: Pattern,
    words: Seq<Seq<char>>,
    lang: Language,
    cap: Option<usize>,
    r: HangmanResult,
    c: char,
)
    requires
        solve_post(p, words, lang, cap, r),
        !p.letters_in_pattern_have_no_other_occurrences,
    ensures
        ({
            let cands = matching(p, words);
            let diff = raw_count(cands, c, false) - occ_lit(p, c) * cands.len();
            &&& diff > 0 ==> exists|i: int|
                0 <= i < r.letter_frequency@.len() && (#[trigger] r.letter_frequency@[i]).0 == c
                    && r.letter_frequency@[i].1 as int == clamp_u32(diff)
            &&& diff <= 0 ==> !has_key(r.letter_frequency@, c)
        }),
{
    let cands = matching(p, words);
    let diff = raw_count(cands, c, false) - occ_lit(p, c) * cands.len();
    assert(final_count(p, words, c) == if diff > 0 {
        diff
    } else {
        0
    });
    if diff > 0 {
        assert(has_key(r.letter_frequency@, c));
        let i = choose|i: int|
            0 <= i < r.letter_frequency@.len() && (#[trigger] r.letter_frequency@[i]).0 == c;
        assert(r.letter_frequency@[i].1 as int == clamp_u32(diff));
    } else {
        if has_key(r.letter_frequency@, c) {
            let i = choose|i: int|
                0 <= i < r.letter_frequency@.len() && (#[trigger] r.letter_frequency@[i]).0 == c;
            assert(final_count(p, words, r.letter_frequency@[i].0) > 0);
            assert(false);
        }
    }
}

/// The number of literal occurrences of `c` among the pattern's slots.
pub open spec fn occ_lit(p: Pattern, c: char) -> int {
    crate::tally::occ(non_wild(p.pattern@), c) as int
}

} // verus!
