//! The match-and-aggregate engine: streams candidate words out of a bucket,
//! filters them against a compiled pattern, and computes letter statistics
//! over the whole match set while materializing only a bounded sample.

use vstd::prelude::*;

use crate::chars::{chars_to_string, contains_char};
use crate::hangman_result::HangmanResult;
use crate::language::{Corpus, Language};
use crate::pattern::{append_new, count_literals, lemma_append_new, lemma_count_literals_zero,
    non_wild, Pattern};
use crate::tally::{lemma_occ_le_len, lemma_occ_no_duplicates, occ, LetterTally};
use crate::word_sequence::{lemma_lex_le_first, WordSequence};

verus! {

/// The words of `words` that are consistent with the pattern, in order.
pub open spec fn matching(p: Pattern, words: Seq<Seq<char>>) -> Seq<Seq<char>>
    decreases words.len(),
{
    if words.len() == 0 {
        Seq::empty()
    } else {
        matching(p, words.drop_last()) + (if p.spec_matches(words.last()) {
            seq![words.last()]
        } else {
            Seq::empty()
        })
    }
}

/// What one matched word contributes to the tally of `c`: in exact-reveal
/// mode one per word that holds the letter at all, otherwise one per
/// occurrence.
pub open spec fn word_weight(w: Seq<char>, c: char, exact: bool) -> nat {
    if exact {
        if w.contains(c) {
            1nat
        } else {
            0nat
        }
    } else {
        occ(w, c)
    }
}

/// The raw tally of `c` over a list of matched words.
pub open spec fn raw_count(ws: Seq<Seq<char>>, c: char, exact: bool) -> nat
    decreases ws.len(),
{
    if ws.len() == 0 {
        0
    } else {
        raw_count(ws.drop_last(), c, exact) + word_weight(ws.last(), c, exact)
    }
}

/// The reported count of `c` after the pattern's own letters are accounted
/// for: in exact-reveal mode a pattern letter is dropped entirely; in
/// crossword mode each literal occurrence of `c` subtracts the match total,
/// and the letter is dropped once nothing positive remains.
pub open spec fn final_count(p: Pattern, words: Seq<Seq<char>>, c: char) -> int {
    let cands = matching(p, words);
    let raw = raw_count(cands, c, p.letters_in_pattern_have_no_other_occurrences) as int;
    if p.letters_in_pattern_have_no_other_occurrences {
        if p.pattern@.contains(c) {
            0
        } else {
            raw
        }
    } else {
        let adj = raw - occ(non_wild(p.pattern@), c) * cands.len();
        if adj > 0 {
            adj
        } else {
            0
        }
    }
}

/// Values too large for the result record saturate at the largest `u32`.
pub open spec fn clamp_u32(n: int) -> int {
    if n > u32::MAX as int {
        u32::MAX as int
    } else {
        n
    }
}

/// How many matched words the sample may hold.
pub open spec fn sample_limit(cap: Option<usize>, total: int) -> int {
    match cap {
        Some(k) => if k as int <= total {
            k as int
        } else {
            total
        },
        None => total,
    }
}

/// A word is among the matched candidates exactly when it is in the bucket
/// and consistent with the pattern.
pub proof fn lemma_matching_contains(p: Pattern, words: Seq<Seq<char>>, w: Seq<char>)
    ensures
        matching(p, words).contains(w) <==> words.contains(w) && p.spec_matches(w),
    decreases words.len(),
{
    if words.len() > 0 {
        lemma_matching_contains(p, words.drop_last(), w);
        let m = matching(p, words);
        let m0 = matching(p, words.drop_last());
        if words.contains(w) && p.spec_matches(w) {
            let i = choose|i: int| 0 <= i < words.len() && words[i] == w;
            if i < words.len() - 1 {
                assert(words.drop_last()[i] == w);
                let j = choose|j: int| 0 <= j < m0.len() && m0[j] == w;
                assert(m[j] == w);
            } else {
                assert(words.last() == w);
                assert(m[m.len() - 1] == w);
            }
        }
        if m.contains(w) {
            let j = choose|j: int| 0 <= j < m.len() && m[j] == w;
            if j < m0.len() {
                assert(m0[j] == w);
                let i = choose|i: int| 0 <= i < words.drop_last().len() && words.drop_last()[i]
                    == w;
                assert(words[i] == w);
            } else {
                assert(w == words.last());
                assert(words[words.len() - 1] == w);
            }
        }
    }
}

/// Every matched candidate has the pattern's length.
pub proof fn lemma_matching_lens(p: Pattern, words: Seq<Seq<char>>)
    ensures
        forall|j: int|
            0 <= j < matching(p, words).len() ==> (#[trigger] matching(p, words)[j]).len()
                == p.pattern@.len(),
        matching(p, words).len() <= words.len(),
    decreases words.len(),
{
    if words.len() > 0 {
        lemma_matching_lens(p, words.drop_last());
        let m = matching(p, words);
        let m0 = matching(p, words.drop_last());
        assert forall|j: int| 0 <= j < m.len() implies (#[trigger] m[j]).len()
            == p.pattern@.len() by {
            if j < m0.len() {
                assert(m[j] == m0[j]);
            } else {
                assert(m[j] == words.last());
            }
        }
    }
}

/// A stretch of words none of which matches adds no candidates.
pub proof fn lemma_matching_stable(p: Pattern, words: Seq<Seq<char>>, a: int, b: int)
    requires
        0 <= a <= b <= words.len(),
        forall|j: int| a <= j < b ==> !p.spec_matches(#[trigger] words[j]),
    ensures
        matching(p, words.take(b)) == matching(p, words.take(a)),
    decreases b - a,
{
    if a < b {
        lemma_matching_stable(p, words, a, b - 1);
        assert(words.take(b).drop_last() =~= words.take(b - 1));
        assert(words.take(b).last() == words[b - 1]);
    }
}

/// The raw tally over candidate words of length `n` is bounded by their
/// number times `n`.
pub proof fn lemma_raw_count_bound(ws: Seq<Seq<char>>, c: char, exact: bool, n: int)
    requires
        n >= 0,
        forall|j: int| 0 <= j < ws.len() ==> (#[trigger] ws[j]).len() == n,
    ensures
        raw_count(ws, c, exact) <= ws.len() * n,
    decreases ws.len(),
{
    if ws.len() > 0 {
        assert(forall|j: int|
            0 <= j < ws.drop_last().len() ==> (#[trigger] ws.drop_last()[j]).len() == n);
        lemma_raw_count_bound(ws.drop_last(), c, exact, n);
        assert(ws.last() == ws[ws.len() - 1]);
        assert(word_weight(ws.last(), c, exact) <= n) by {
            lemma_occ_le_len(ws.last(), c);
            if exact && ws.last().contains(c) {
                assert(ws.last().len() > 0);
            }
        }
        vstd::arithmetic::mul::lemma_mul_is_distributive_add_other_way(n, ws.len() as int - 1, 1);
    }
}

/// The raw tally of any letter over the candidates among the first `i`
/// bucket words leaves room in a `u64` for one more word.
proof fn lemma_tally_budget(p: Pattern, ws: WordSequence, i: int, c: char)
    requires
        p.wf(),
        ws.wf(),
        ws.spec_data().len() <= u64::MAX,
        0 <= i < ws.spec_word_count(),
        ws.spec_word_len() == p.pattern@.len(),
    ensures
        raw_count(
            matching(p, ws.words().take(i)),
            c,
            p.letters_in_pattern_have_no_other_occurrences,
        ) + p.pattern@.len() <= u64::MAX,
{
    let words = ws.words();
    let cands = matching(p, words.take(i));
    let n = p.pattern@.len() as int;
    let count = ws.spec_word_count();
    let w = ws.spec_slot_width();
    lemma_matching_lens(p, words.take(i));
    lemma_raw_count_bound(cands, c, p.letters_in_pattern_have_no_other_occurrences, n);
    vstd::arithmetic::mul::lemma_mul_inequality(cands.len() as int, i, n);
    vstd::arithmetic::mul::lemma_mul_is_distributive_add_other_way(n, i, 1);
    ws.lemma_word_len_le_slot_width();
    vstd::arithmetic::mul::lemma_mul_upper_bound(i + 1, count, n, w);
    vstd::arithmetic::div_mod::lemma_fundamental_div_mod(ws.spec_data().len() as int, w);
    vstd::arithmetic::mul::lemma_mul_is_commutative(count, w);
}

/// Streams the words of indices `start..end` out of the bucket, keeps those
/// consistent with the pattern, tallies their letters over the whole run,
/// and collects the first words into a sample bounded by `cap`. The given
/// index range must already cover every matching word of the bucket.
fn collect_count_and_tally(
    p: &Pattern,
    ws: &WordSequence,
    start: usize,
    end: usize,
    need_filter: bool,
    cap: Option<usize>,
) -> (r: (Vec<String>, LetterTally, u64))
    requires
        p.wf(),
        ws.wf(),
        start <= end,
        end as int <= ws.spec_word_count(),
        ws.spec_word_len() == p.pattern@.len(),
        forall|j: int| 0 <= j < start ==> !p.spec_matches(#[trigger] ws.words()[j]),
        forall|j: int|
            end <= j < ws.spec_word_count() ==> !p.spec_matches(#[trigger] ws.words()[j]),
        !need_filter ==> forall|j: int|
            start <= j < end ==> p.spec_matches(#[trigger] ws.words()[j]),
    ensures
        ({
            let cands = matching(*p, ws.words());
            let exact = p.letters_in_pattern_have_no_other_occurrences;
            &&& r.2 as int == cands.len()
            &&& r.0@.len() == sample_limit(cap, cands.len() as int)
            &&& (forall|i: int| 0 <= i < r.0@.len() ==> (#[trigger] r.0@[i])@ == cands[i])
            &&& r.1.wf()
            &&& (forall|c: char| r.1.spec_count(c) == raw_count(cands, c, exact))
        }),
{
    let ghost words = ws.words();
    let exact = p.letters_in_pattern_have_no_other_occurrences;
    let mut sample: Vec<String> = Vec::new();
    let mut tally = LetterTally::new();
    let mut total: u64 = 0;
    let count = ws.len();
    let bytes = ws.data.len();
    proof {
        assert(words.take(0) =~= Seq::<Seq<char>>::empty());
        lemma_matching_stable(*p, words, 0, start as int);
    }
    let mut i: usize = start;
    while i < end
        invariant
            p.wf(),
            ws.wf(),
            start <= i <= end,
            end as int <= ws.spec_word_count(),
            words == ws.words(),
            count as int == ws.spec_word_count(),
            bytes == ws.spec_data().len(),
            ws.spec_word_len() == p.pattern@.len(),
            exact == p.letters_in_pattern_have_no_other_occurrences,
            !need_filter ==> forall|j: int|
                start <= j < end ==> p.spec_matches(#[trigger] words[j]),
            total as int == matching(*p, words.take(i as int)).len(),
            total <= i,
            tally.wf(),
            forall|c: char|
                tally.spec_count(c) == raw_count(
                    matching(*p, words.take(i as int)),
                    c,
                    exact,
                ),
            sample@.len() == sample_limit(cap, total as int),
            forall|k: int|
                0 <= k < sample@.len() ==> (#[trigger] sample@[k])@ == matching(
                    *p,
                    words.take(i as int),
                )[k],
        decreases end - i,
    {
        let w = ws.word_chars(i);
        proof {
            assert(words[i as int] == ws.word_at(i as int));
            assert(words.take(i as int + 1).drop_last() =~= words.take(i as int));
            assert(words.take(i as int + 1).last() == words[i as int]);
        }
        let is_match = if need_filter {
            p.matches(&w)
        } else {
            true
        };
        let ghost cands_pre = matching(*p, words.take(i as int));
        if is_match {
            proof {
                assert(matching(*p, words.take(i as int + 1)) =~= cands_pre.push(w@));
                lemma_matching_lens(*p, words.take(i as int));
                assert forall|c: char| tally.spec_count(c) + w@.len() <= u64::MAX by {
                    lemma_tally_budget(*p, *ws, i as int, c);
                }
            }
            if exact {
                let d = dedup_chars(&w);
                tally.add_all(&d);
                proof {
                    assert forall|c: char|
                        tally.spec_count(c) == raw_count(
                            matching(*p, words.take(i as int + 1)),
                            c,
                            exact,
                        ) by {
                        lemma_occ_no_duplicates(d@, c);
                        assert(raw_count(cands_pre.push(w@), c, exact) == raw_count(
                            cands_pre,
                            c,
                            exact,
                        ) + word_weight(w@, c, exact)) by {
                            assert(cands_pre.push(w@).drop_last() =~= cands_pre);
                            assert(cands_pre.push(w@).last() == w@);
                        }
                    }
                }
            } else {
                tally.add_all(&w);
                proof {
                    assert forall|c: char|
                        tally.spec_count(c) == raw_count(
                            matching(*p, words.take(i as int + 1)),
                            c,
                            exact,
                        ) by {
                        assert(raw_count(cands_pre.push(w@), c, exact) == raw_count(
                            cands_pre,
                            c,
                            exact,
                        ) + word_weight(w@, c, exact)) by {
                            assert(cands_pre.push(w@).drop_last() =~= cands_pre);
                            assert(cands_pre.push(w@).last() == w@);
                        }
                    }
                }
            }
            let may_take = match cap {
                Some(k) => sample.len() < k,
                None => true,
            };
            if may_take {
                let s = chars_to_string(&w);
                sample.push(s);
                proof {
                    assert(sample@.last()@ == w@);
                    assert(cands_pre.push(w@)[total as int] == w@);
                }
            }
            total = total + 1;
        } else {
            proof {
                assert(matching(*p, words.take(i as int + 1)) =~= cands_pre);
            }
        }
        i = i + 1;
    }
    proof {
        lemma_matching_stable(*p, words, end as int, count as int);
        assert(words.take(count as int) =~= words);
    }
    (sample, tally, total)
}

/// A sequence holds `y` after a push exactly when it held `y` before or
/// `y` is the pushed element.
proof fn lemma_contains_push(s: Seq<char>, x: char, y: char)
    ensures
        s.push(x).contains(y) <==> s.contains(y) || x == y,
{
    if s.contains(y) {
        let i = choose|i: int| 0 <= i < s.len() && s[i] == y;
        assert(s.push(x)[i] == y);
    }
    if x == y {
        assert(s.push(x)[s.len() as int] == y);
    }
    if s.push(x).contains(y) {
        let i = choose|i: int| 0 <= i < s.push(x).len() && s.push(x)[i] == y;
        if i < s.len() {
            assert(s[i] == y);
        }
    }
}

/// Removes the entry of every pattern slot letter from the tally: in
/// exact-reveal mode a revealed letter's tally carries no information.
fn drop_pattern_letters(tally: &mut LetterTally, p: &Pattern)
    requires
        old(tally).wf(),
    ensures
        final(tally).wf(),
        forall|c: char|
            final(tally).spec_count(c) == if p.pattern@.contains(c) {
                0int
            } else {
                old(tally).spec_count(c)
            },
{
    let n = p.pattern.len();
    let mut k: usize = 0;
    while k < n
        invariant
            tally.wf(),
            n == p.pattern@.len(),
            k <= n,
            forall|c: char|
                tally.spec_count(c) == if p.pattern@.take(k as int).contains(c) {
                    0int
                } else {
                    old(tally).spec_count(c)
                },
        decreases n - k,
    {
        let ch = p.pattern[k];
        let _ = tally.remove(ch);
        k = k + 1;
        proof {
            assert(p.pattern@.take(k as int) =~= p.pattern@.take(k as int - 1).push(ch));
            assert forall|c: char|
                tally.spec_count(c) == (if p.pattern@.take(k as int).contains(c) {
                    0int
                } else {
                    old(tally).spec_count(c)
                }) by {
                lemma_contains_push(p.pattern@.take(k as int - 1), ch, c);
            }
        }
    }
    proof {
        assert(p.pattern@.take(n as int) =~= p.pattern@);
    }
}

/// What remains of a raw tally after `k` literal occurrences of the letter
/// each subtract the match total: the positive remainder, or nothing.
pub open spec fn cw_adjust(raw: int, k: int, total: int) -> int {
    if raw - k * total > 0 {
        raw - k * total
    } else {
        0
    }
}

/// Subtracts the match total from the tally of each literal pattern
/// letter, once per occurrence, dropping letters with nothing left: in
/// crossword mode only the not-yet-revealed occurrences are of interest.
fn adjust_pattern_letters(tally: &mut LetterTally, p: &Pattern, total: u64)
    requires
        old(tally).wf(),
    ensures
        final(tally).wf(),
        forall|c: char|
            final(tally).spec_count(c) == cw_adjust(
                old(tally).spec_count(c),
                occ(non_wild(p.pattern@), c) as int,
                total as int,
            ),
{
    let n = p.pattern.len();
    proof {
        assert(p.pattern@.take(0) =~= Seq::<char>::empty());
        assert forall|c: char|
            cw_adjust(
                old(tally).spec_count(c),
                occ(non_wild(p.pattern@.take(0)), c) as int,
                total as int,
            ) == old(tally).spec_count(c) by {
            assert(occ(non_wild(p.pattern@.take(0)), c) == 0);
            assert(0 * (total as int) == 0);
        }
    }
    let mut k: usize = 0;
    while k < n
        invariant
            tally.wf(),
            n == p.pattern@.len(),
            k <= n,
            forall|c: char|
                tally.spec_count(c) == cw_adjust(
                    old(tally).spec_count(c),
                    occ(non_wild(p.pattern@.take(k as int)), c) as int,
                    total as int,
                ),
        decreases n - k,
    {
        let ch = p.pattern[k];
        proof {
            assert(p.pattern@.take(k as int + 1).drop_last() =~= p.pattern@.take(k as int));
            assert(p.pattern@.take(k as int + 1).last() == ch);
        }
        if ch != '_' {
            let v = tally.get(ch);
            if v > total {
                tally.set(ch, v - total);
            } else {
                let _ = tally.remove(ch);
            }
        }
        k = k + 1;
        proof {
            if ch == '_' {
                assert(non_wild(p.pattern@.take(k as int)) =~= non_wild(
                    p.pattern@.take(k as int - 1),
                ));
            } else {
                assert(non_wild(p.pattern@.take(k as int)) =~= non_wild(
                    p.pattern@.take(k as int - 1),
                ).push(ch));
                assert forall|c: char|
                    tally.spec_count(c) == cw_adjust(
                        old(tally).spec_count(c),
                        occ(non_wild(p.pattern@.take(k as int)), c) as int,
                        total as int,
                    ) by {
                    let pre = non_wild(p.pattern@.take(k as int - 1));
                    assert(occ(pre.push(ch), c) == occ(pre, c) + (if c == ch {
                        1nat
                    } else {
                        0nat
                    })) by {
                        assert(pre.push(ch).drop_last() =~= pre);
                        assert(pre.push(ch).last() == ch);
                    }
                    if c == ch {
                        vstd::arithmetic::mul::lemma_mul_is_distributive_add_other_way(
                            total as int,
                            occ(pre, c) as int,
                            1,
                        );
                        vstd::arithmetic::mul::lemma_mul_nonnegative(
                            occ(pre, c) as int,
                            total as int,
                        );
                    }
                }
            }
        }
    }
    proof {
        assert(p.pattern@.take(n as int) =~= p.pattern@);
    }
}

/// The ranking order of the letter frequencies: larger counts first, ties
/// broken by ascending code point.
pub open spec fn rank_le(a: (char, u32), b: (char, u32)) -> bool {
    a.1 > b.1 || (a.1 == b.1 && (a.0 as u32) <= (b.0 as u32))
}

/// True when the list is sorted by the ranking order.
pub open spec fn ranked(s: Seq<(char, u32)>) -> bool {
    forall|i: int, j: int| 0 <= i < j < s.len() ==> rank_le(#[trigger] s[i], #[trigger] s[j])
}

/// True when some entry has key `c`.
pub open spec fn has_key(s: Seq<(char, u32)>, c: char) -> bool {
    exists|i: int| 0 <= i < s.len() && (#[trigger] s[i]).0 == c
}

/// Sorts frequency entries by the ranking order. The entries keep their
/// distinct keys; none is added or lost.
fn sort_ranked(input: Vec<(char, u32)>) -> (r: Vec<(char, u32)>)
    requires
        forall|i: int, j: int|
            0 <= i < j < input@.len() ==> (#[trigger] input@[i]).0 != (#[trigger] input@[j]).0,
    ensures
        r@.len() == input@.len(),
        ranked(r@),
        forall|i: int, j: int|
            0 <= i < j < r@.len() ==> (#[trigger] r@[i]).0 != (#[trigger] r@[j]).0,
        forall|j: int| 0 <= j < input@.len() ==> r@.contains(#[trigger] input@[j]),
        forall|i: int| 0 <= i < r@.len() ==> input@.contains(#[trigger] r@[i]),
{
    let mut rest = input;
    let mut out: Vec<(char, u32)> = Vec::new();
    let ghost orig = rest@;
    while rest.len() > 0
        invariant
            out@.len() + rest@.len() == orig.len(),
            ranked(out@),
            forall|i: int, j: int|
                0 <= i < j < out@.len() ==> (#[trigger] out@[i]).0 != (#[trigger] out@[j]).0,
            forall|i: int, j: int|
                0 <= i < j < rest@.len() ==> (#[trigger] rest@[i]).0 != (#[trigger] rest@[j]).0,
            forall|i: int, j: int|
                0 <= i < out@.len() && 0 <= j < rest@.len() ==> rank_le(
                    #[trigger] out@[i],
                    #[trigger] rest@[j],
                ) && out@[i].0 != rest@[j].0,
            forall|j: int|
                0 <= j < orig.len() ==> out@.contains(#[trigger] orig[j]) || rest@.contains(
                    orig[j],
                ),
            forall|i: int| 0 <= i < out@.len() ==> orig.contains(#[trigger] out@[i]),
            forall|j: int| 0 <= j < rest@.len() ==> orig.contains(#[trigger] rest@[j]),
        decreases rest@.len(),
    {
        let mut m: usize = 0;
        let mut b: usize = 1;
        while b < rest.len()
            invariant
                rest@.len() > 0,
                m < b,
                b <= rest@.len(),
                forall|j: int| 0 <= j < b ==> rank_le(rest@[m as int], #[trigger] rest@[j]),
            decreases rest@.len() - b,
        {
            let x = rest[b];
            let y = rest[m];
            let keep = y.1 > x.1 || (y.1 == x.1 && (y.0 as u32) <= (x.0 as u32));
            if !keep {
                m = b;
            }
            b = b + 1;
        }
        let ghost before = rest@;
        let best = rest.remove(m);
        let ghost out_before = out@;
        out.push(best);
        proof {
            assert(out@.drop_last() =~= out_before);
            assert(forall|j: int| 0 <= j < m ==> rest@[j] == before[j]);
            assert(forall|j: int| m <= j < rest@.len() ==> rest@[j] == before[j + 1]);
            assert forall|j: int| 0 <= j < rest@.len() implies rank_le(best, #[trigger] rest@[j])
                && best.0 != rest@[j].0 by {
                if j < m {
                    assert(rest@[j] == before[j]);
                } else {
                    assert(rest@[j] == before[j + 1]);
                }
            }
            assert forall|j: int| 0 <= j < rest@.len() implies orig.contains(
                #[trigger] rest@[j],
            ) by {
                if j < m {
                    assert(rest@[j] == before[j]);
                } else {
                    assert(rest@[j] == before[j + 1]);
                }
            }
            assert forall|i: int, j: int|
                0 <= i < j < rest@.len() implies (#[trigger] rest@[i]).0 != (
            #[trigger] rest@[j]).0 by {
                let i2: int = if i < m {
                    i
                } else {
                    i + 1
                };
                let j2: int = if j < m {
                    j
                } else {
                    j + 1
                };
                assert(rest@[i] == before[i2]);
                assert(rest@[j] == before[j2]);
            }
            assert forall|j: int|
                0 <= j < orig.len() implies out@.contains(#[trigger] orig[j]) || rest@.contains(
                orig[j],
            ) by {
                if before.contains(orig[j]) {
                    let k = choose|k: int| 0 <= k < before.len() && before[k] == orig[j];
                    if k == m {
                        assert(out@[out@.len() - 1] == orig[j]);
                    } else if k < m {
                        assert(rest@[k] == orig[j]);
                    } else {
                        assert(rest@[k - 1] == orig[j]);
                    }
                } else if out_before.contains(orig[j]) {
                    let k = choose|k: int| 0 <= k < out_before.len() && out_before[k] == orig[j];
                    assert(out@[k] == orig[j]);
                }
            }
            assert(out@.drop_last().push(best) =~= out@);
            assert(orig.contains(best)) by {
                assert(before[m as int] == best);
            }
        }
    }
    out
}

/// The ascending code-point order on characters.
pub open spec fn sorted_chars(s: Seq<char>) -> bool {
    forall|i: int, j: int|
        0 <= i < j < s.len() ==> ((#[trigger] s[i]) as u32) <= ((#[trigger] s[j]) as u32)
}

/// Sorts characters by ascending code point. No character is added or
/// lost, and distinctness is kept.
fn sort_chars(input: Vec<char>) -> (r: Vec<char>)
    requires
        input@.no_duplicates(),
    ensures
        r@.len() == input@.len(),
        sorted_chars(r@),
        r@.no_duplicates(),
        forall|c: char| r@.contains(c) <==> input@.contains(c),
{
    let mut rest = input;
    let mut out: Vec<char> = Vec::new();
    let ghost orig = rest@;
    while rest.len() > 0
        invariant
            out@.len() + rest@.len() == orig.len(),
            sorted_chars(out@),
            out@.no_duplicates(),
            rest@.no_duplicates(),
            forall|i: int, j: int|
                0 <= i < out@.len() && 0 <= j < rest@.len() ==> ((#[trigger] out@[i]) as u32) <= ((
                #[trigger] rest@[j]) as u32) && out@[i] != rest@[j],
            forall|j: int|
                0 <= j < orig.len() ==> out@.contains(#[trigger] orig[j]) || rest@.contains(
                    orig[j],
                ),
            forall|i: int| 0 <= i < out@.len() ==> orig.contains(#[trigger] out@[i]),
            forall|j: int| 0 <= j < rest@.len() ==> orig.contains(#[trigger] rest@[j]),
        decreases rest@.len(),
    {
        let mut m: usize = 0;
        let mut b: usize = 1;
        while b < rest.len()
            invariant
                rest@.len() > 0,
                m < b,
                b <= rest@.len(),
                forall|j: int|
                    0 <= j < b ==> ((rest@[m as int]) as u32) <= ((#[trigger] rest@[j]) as u32),
            decreases rest@.len() - b,
        {
            if (rest[b] as u32) < (rest[m] as u32) {
                m = b;
            }
            b = b + 1;
        }
        let ghost before = rest@;
        let best = rest.remove(m);
        let ghost out_before = out@;
        out.push(best);
        proof {
            assert(out@.drop_last() =~= out_before);
            assert(forall|j: int| 0 <= j < m ==> rest@[j] == before[j]);
            assert(forall|j: int| m <= j < rest@.len() ==> rest@[j] == before[j + 1]);
            assert forall|j: int| 0 <= j < rest@.len() implies ((best) as u32) <= ((
            #[trigger] rest@[j]) as u32) && best != rest@[j] by {
                if j < m {
                    assert(rest@[j] == before[j]);
                } else {
                    assert(rest@[j] == before[j + 1]);
                }
            }
            assert forall|j: int| 0 <= j < rest@.len() implies orig.contains(
                #[trigger] rest@[j],
            ) by {
                if j < m {
                    assert(rest@[j] == before[j]);
                } else {
                    assert(rest@[j] == before[j + 1]);
                }
            }
            assert forall|i: int, j: int| 0 <= i < j < rest@.len() implies (#[trigger] rest@[i])
                != (#[trigger] rest@[j]) by {
                let i2: int = if i < m {
                    i
                } else {
                    i + 1
                };
                let j2: int = if j < m {
                    j
                } else {
                    j + 1
                };
                assert(rest@[i] == before[i2]);
                assert(rest@[j] == before[j2]);
            }
            assert forall|j: int|
                0 <= j < orig.len() implies out@.contains(#[trigger] orig[j]) || rest@.contains(
                orig[j],
            ) by {
                if before.contains(orig[j]) {
                    let k = choose|k: int| 0 <= k < before.len() && before[k] == orig[j];
                    if k == m {
                        assert(out@[out@.len() - 1] == orig[j]);
                    } else if k < m {
                        assert(rest@[k] == orig[j]);
                    } else {
                        assert(rest@[k - 1] == orig[j]);
                    }
                } else if out_before.contains(orig[j]) {
                    let k = choose|k: int| 0 <= k < out_before.len() && out_before[k] == orig[j];
                    assert(out@[k] == orig[j]);
                }
            }
            assert(out@.drop_last().push(best) =~= out@);
            assert(orig.contains(best)) by {
                assert(before[m as int] == best);
            }
        }
    }
    proof {
        assert forall|c: char| out@.contains(c) <==> orig.contains(c) by {
            if orig.contains(c) {
                let j = choose|j: int| 0 <= j < orig.len() && orig[j] == c;
            }
        }
    }
    out
}

/// The characters of `v`, first occurrences only, in order.
pub fn dedup_chars(v: &Vec<char>) -> (r: Vec<char>)
    ensures
        r@ == append_new(Seq::empty(), v@),
        r@.len() <= v@.len(),
        r@.no_duplicates(),
        forall|x: char| r@.contains(x) <==> v@.contains(x),
{
    let mut r: Vec<char> = Vec::new();
    let n = v.len();
    let mut i: usize = 0;
    while i < n
        invariant
            n == v@.len(),
            i <= n,
            r@ == append_new(Seq::empty(), v@.take(i as int)),
        decreases n - i,
    {
        let c = v[i];
        proof {
            assert(v@.take(i as int + 1).drop_last() =~= v@.take(i as int));
            assert(v@.take(i as int + 1).last() == c);
        }
        if !contains_char(&r, c) {
            r.push(c);
        }
        i = i + 1;
    }
    proof {
        assert(v@.take(n as int) =~= v@);
        lemma_append_new(Seq::empty(), v@);
        assert forall|x: char| r@.contains(x) <==> v@.contains(x) by {
            assert(!Seq::<char>::empty().contains(x));
        }
    }
    r
}

/// The tally, clamped to `u32` values and sorted by the ranking order.
fn tally_to_ranking(tally: &LetterTally) -> (r: Vec<(char, u32)>)
    requires
        tally.wf(),
    ensures
        ranked(r@),
        forall|i: int, j: int|
            0 <= i < j < r@.len() ==> (#[trigger] r@[i]).0 != (#[trigger] r@[j]).0,
        forall|i: int|
            0 <= i < r@.len() ==> tally.spec_count((#[trigger] r@[i]).0) > 0 && r@[i].1 as int
                == clamp_u32(tally.spec_count(r@[i].0)),
        forall|c: char| tally.spec_count(c) > 0 ==> has_key(r@, c),
{
    proof {
        tally.lemma_entries();
    }
    let n = tally.entries.len();
    let mut pairs: Vec<(char, u32)> = Vec::new();
    let mut i: usize = 0;
    while i < n
        invariant
            tally.wf(),
            n == tally.entries@.len(),
            i <= n,
            pairs@.len() == i,
            forall|k: int|
                0 <= k < i ==> (#[trigger] pairs@[k]).0 == tally.entries@[k].0 && pairs@[k].1
                    as int == clamp_u32(tally.entries@[k].1 as int),
        decreases n - i,
    {
        let e = tally.entries[i];
        let v: u32 = if e.1 > 0xffff_ffffu64 {
            0xffff_ffffu32
        } else {
            e.1 as u32
        };
        pairs.push((e.0, v));
        i = i + 1;
    }
    proof {
        tally.lemma_entries();
        assert forall|a: int, b: int|
            0 <= a < b < pairs@.len() implies (#[trigger] pairs@[a]).0 != (
        #[trigger] pairs@[b]).0 by {
            assert(tally.entries@[a].0 != tally.entries@[b].0);
        }
    }
    let r = sort_ranked(pairs);
    proof {
        assert forall|k: int|
            0 <= k < r@.len() implies tally.spec_count((#[trigger] r@[k]).0) > 0 && r@[k].1
                as int == clamp_u32(tally.spec_count(r@[k].0)) by {
            assert(pairs@.contains(r@[k]));
            let j = choose|j: int| 0 <= j < pairs@.len() && pairs@[j] == r@[k];
            assert(tally.spec_count(tally.entries@[j].0) == tally.entries@[j].1);
            assert(tally.entries@[j].1 >= 1);
        }
        assert forall|c: char| tally.spec_count(c) > 0 implies has_key(r@, c) by {
            crate::tally::lemma_find_from(tally.entries@, c, 0);
            let opt = crate::tally::spec_find_from(tally.entries@, c, 0);
            if opt is Some {
                let j = opt->0;
                assert(pairs@[j].0 == c);
                assert(r@.contains(pairs@[j]));
                let k = choose|k: int| 0 <= k < r@.len() && r@[k] == pairs@[j];
                assert(r@[k].0 == c);
            }
        }
    }
    r
}

/// The effective excluded letters of the result record: the pattern's
/// excluded letters that are not themselves visible in the pattern, sorted
/// ascending.
fn result_invalid(p: &Pattern) -> (r: Vec<char>)
    requires
        p.wf(),
    ensures
        sorted_chars(r@),
        r@.no_duplicates(),
        forall|c: char|
            r@.contains(c) <==> p.invalid_letters@.contains(c) && !p.pattern@.contains(c),
{
    let n = p.invalid_letters.len();
    let mut keep: Vec<char> = Vec::new();
    let mut i: usize = 0;
    while i < n
        invariant
            p.wf(),
            n == p.invalid_letters@.len(),
            i <= n,
            keep@.no_duplicates(),
            forall|c: char|
                keep@.contains(c) <==> p.invalid_letters@.take(i as int).contains(c)
                    && !p.pattern@.contains(c),
        decreases n - i,
    {
        let c = p.invalid_letters[i];
        let ghost pre = keep@;
        if !contains_char(&p.pattern, c) {
            proof {
                if keep@.contains(c) {
                    assert(p.invalid_letters@.take(i as int).contains(c));
                    let j = choose|j: int|
                        0 <= j < i && p.invalid_letters@.take(i as int)[j] == c;
                    assert(p.invalid_letters@[j] == p.invalid_letters@[i as int]);
                    assert(false);
                }
            }
            keep.push(c);
        }
        i = i + 1;
        proof {
            assert(p.invalid_letters@.take(i as int) =~= p.invalid_letters@.take(
                i as int - 1,
            ).push(c));
            assert forall|x: char|
                keep@.contains(x) <==> p.invalid_letters@.take(i as int).contains(x)
                    && !p.pattern@.contains(x) by {
                lemma_contains_push(p.invalid_letters@.take(i as int - 1), c, x);
                if keep@ != pre {
                    lemma_contains_push(pre, c, x);
                    assert(keep@ =~= pre.push(c));
                }
            }
        }
    }
    proof {
        assert(p.invalid_letters@.take(n as int) =~= p.invalid_letters@);
    }
    sort_chars(keep)
}

/// The words of the corpus bucket a query of length `n` is answered from:
/// empty when the corpus has no such bucket.
pub open spec fn corpus_words(corpus: Corpus, lang: Language, n: int) -> Seq<Seq<char>> {
    match corpus.spec_lookup(lang, n) {
        Some(ws) => ws.words(),
        None => Seq::empty(),
    }
}

/// Everything a query promises of its result record, over the words of the
/// bucket it was answered from.
pub open spec fn solve_post(
    p: Pattern,
    words: Seq<Seq<char>>,
    lang: Language,
    cap: Option<usize>,
    r: HangmanResult,
) -> bool {
    let cands = matching(p, words);
    &&& r.input@ == p.pattern@
    &&& r.language == lang
    &&& r.matching_words_count as int == clamp_u32(cands.len() as int)
    &&& r.possible_words@.len() == sample_limit(cap, cands.len() as int)
    &&& (forall|i: int|
        0 <= i < r.possible_words@.len() ==> (#[trigger] r.possible_words@[i])@ == cands[i])
    &&& sorted_chars(r.invalid@)
    &&& r.invalid@.no_duplicates()
    &&& (forall|c: char|
        r.invalid@.contains(c) <==> p.invalid_letters@.contains(c) && !p.pattern@.contains(c))
    &&& ranked(r.letter_frequency@)
    &&& (forall|i: int, j: int|
        0 <= i < j < r.letter_frequency@.len() ==> (#[trigger] r.letter_frequency@[i]).0 != (
        #[trigger] r.letter_frequency@[j]).0)
    &&& (forall|i: int|
        0 <= i < r.letter_frequency@.len() ==> final_count(
            p,
            words,
            (#[trigger] r.letter_frequency@[i]).0,
        ) > 0 && r.letter_frequency@[i].1 as int == clamp_u32(
            final_count(p, words, r.letter_frequency@[i].0),
        ))
    &&& (forall|c: char| final_count(p, words, c) > 0 ==> has_key(r.letter_frequency@, c))
}

/// The aggregation-side promises of a query, before the result record is
/// assembled.
pub open spec fn solve_inner_post(
    p: Pattern,
    words: Seq<Seq<char>>,
    cap: Option<usize>,
    sample: Seq<String>,
    freq: Seq<(char, u32)>,
    total: u32,
) -> bool {
    let cands = matching(p, words);
    &&& total as int == clamp_u32(cands.len() as int)
    &&& sample.len() == sample_limit(cap, cands.len() as int)
    &&& (forall|i: int| 0 <= i < sample.len() ==> (#[trigger] sample[i])@ == cands[i])
    &&& ranked(freq)
    &&& (forall|i: int, j: int|
        0 <= i < j < freq.len() ==> (#[trigger] freq[i]).0 != (#[trigger] freq[j]).0)
    &&& (forall|i: int|
        0 <= i < freq.len() ==> final_count(p, words, (#[trigger] freq[i]).0) > 0 && freq[i].1
            as int == clamp_u32(final_count(p, words, freq[i].0)))
    &&& (forall|c: char| final_count(p, words, c) > 0 ==> has_key(freq, c))
}

/// With no literal slots and no excluded letters, every word of the
/// matching length bucket is consistent with the pattern.
proof fn lemma_no_constraints_all_match(p: Pattern, ws: WordSequence)
    requires
        p.wf(),
        ws.wf(),
        count_literals(p.pattern@) == 0,
        p.invalid_letters@.len() == 0,
        ws.spec_word_len() == p.pattern@.len(),
    ensures
        forall|j: int| 0 <= j < ws.spec_word_count() ==> p.spec_matches(#[trigger] ws.words()[j]),
{
    lemma_count_literals_zero(p.pattern@);
    assert forall|j: int|
        0 <= j < ws.spec_word_count() implies p.spec_matches(#[trigger] ws.words()[j]) by {
        assert(crate::word_sequence::bucket_slot_ok(
            ws.spec_word_len(),
            ws.spec_slot_width(),
            ws.spec_data(),
            j,
        ));
        let w = ws.words()[j];
        assert(w == ws.word_at(j));
        assert(w.len() == p.pattern@.len());
        assert forall|i: int|
            0 <= i < w.len() implies crate::pattern::spec_slot_matches(
            p.pattern@[i],
            #[trigger] w[i],
            p.invalid_letters@,
        ) by {
            assert(p.pattern@[i] == '_');
            assert(!p.invalid_letters@.contains(w[i]));
        }
    }
}

/// A word consistent with a pattern whose first slot is a literal begins
/// with that letter.
proof fn lemma_match_first_letter(p: Pattern, w: Seq<char>)
    requires
        p.wf(),
        p.pattern@.len() > 0,
        p.pattern@[0] != '_',
        p.spec_matches(w),
    ensures
        w.len() > 0,
        w[0] == p.first_letter,
{
    assert(crate::pattern::spec_slot_matches(p.pattern@[0], w[0], p.invalid_letters@));
}

impl Pattern {
    /// Selects the candidate range of the bucket, streams it, and computes
    /// the sample, the ranked letter frequencies and the total match count.
    fn solve_internal(&self, bucket: Option<&WordSequence>, cap: Option<usize>) -> (r: (
        Vec<String>,
        Vec<(char, u32)>,
        u32,
    ))
        requires
            self.wf(),
            match bucket {
                Some(ws) => ws.wf() && ws.spec_word_len() == self.pattern@.len(),
                None => true,
            },
        ensures
            solve_inner_post(
                *self,
                match bucket {
                    Some(ws) => ws.words(),
                    None => Seq::empty(),
                },
                cap,
                r.0@,
                r.1@,
                r.2,
            ),
    {
        let ws = match bucket {
            Some(ws) => ws,
            None => {
                proof {
                    let words = Seq::<Seq<char>>::empty();
                    assert(matching(*self, words) =~= Seq::<Seq<char>>::empty());
                    assert forall|c: char| final_count(*self, words, c) <= 0 by {
                        assert(raw_count(matching(*self, words), c,
                            self.letters_in_pattern_have_no_other_occurrences) == 0);
                        vstd::arithmetic::mul::lemma_mul_nonnegative(
                            occ(non_wild(self.pattern@), c) as int,
                            matching(*self, words).len() as int,
                        );
                    }
                }
                return (Vec::new(), Vec::new(), 0);
            },
        };
        let ghost words = ws.words();
        let count = ws.len();
        let no_constraints = self.known_letters_count == 0 && self.invalid_letters.len() == 0;
        let (sample, tally, total) = if no_constraints {
            proof {
                lemma_no_constraints_all_match(*self, *ws);
            }
            collect_count_and_tally(self, ws, 0, count, false, cap)
        } else if self.first_letter_is_wildcard() {
            collect_count_and_tally(self, ws, 0, count, true, cap)
        } else {
            // The bucket is sorted, so the words sharing the known first
            // letter form one contiguous run: skip to it, then take it.
            let mut start: usize = 0;
            let mut scanning = true;
            while scanning
                invariant
                    self.wf(),
                    ws.wf(),
                    words == ws.words(),
                    count as int == ws.spec_word_count(),
                    ws.spec_word_len() == self.pattern@.len(),
                    self.pattern@.len() > 0,
                    self.first_letter == self.pattern@[0],
                    self.first_letter != '_',
                    start <= count,
                    forall|j: int| 0 <= j < start ==> (#[trigger] ws.word_at(j))[0]
                        != self.first_letter,
                    !scanning ==> start == count || ws.word_at(start as int)[0]
                        == self.first_letter,
                decreases count - start, (if scanning { 1int } else { 0int }),
            {
                if start < count {
                    proof {
                        assert(crate::word_sequence::bucket_slot_ok(
                            ws.spec_word_len(),
                            ws.spec_slot_width(),
                            ws.spec_data(),
                            start as int,
                        ));
                    }
                    let w = ws.word_chars(start);
                    if w[0] != self.first_letter {
                        start = start + 1;
                    } else {
                        scanning = false;
                    }
                } else {
                    scanning = false;
                }
            }
            let mut end: usize = start;
            let mut taking = true;
            while taking
                invariant
                    self.wf(),
                    ws.wf(),
                    words == ws.words(),
                    count as int == ws.spec_word_count(),
                    ws.spec_word_len() == self.pattern@.len(),
                    self.pattern@.len() > 0,
                    self.first_letter == self.pattern@[0],
                    self.first_letter != '_',
                    start <= end <= count,
                    forall|j: int| 0 <= j < start ==> (#[trigger] ws.word_at(j))[0]
                        != self.first_letter,
                    forall|j: int| start <= j < end ==> (#[trigger] ws.word_at(j))[0]
                        == self.first_letter,
                    !taking ==> end == count || ws.word_at(end as int)[0] != self.first_letter,
                decreases count - end, (if taking { 1int } else { 0int }),
            {
                if end < count {
                    proof {
                        assert(crate::word_sequence::bucket_slot_ok(
                            ws.spec_word_len(),
                            ws.spec_slot_width(),
                            ws.spec_data(),
                            end as int,
                        ));
                    }
                    let w = ws.word_chars(end);
                    if w[0] == self.first_letter {
                        end = end + 1;
                    } else {
                        taking = false;
                    }
                } else {
                    taking = false;
                }
            }
            proof {
                assert forall|j: int| 0 <= j < start implies !self.spec_matches(
                    #[trigger] words[j],
                ) by {
                    assert(words[j] == ws.word_at(j));
                    if self.spec_matches(words[j]) {
                        lemma_match_first_letter(*self, words[j]);
                    }
                }
                assert forall|j: int| end <= j < count implies !self.spec_matches(
                    #[trigger] words[j],
                ) by {
                    assert(words[j] == ws.word_at(j));
                    if self.spec_matches(words[j]) {
                        lemma_match_first_letter(*self, words[j]);
                        if (end as int) < count {
                            assert(ws.word_at(start as int)[0] == self.first_letter);
                            assert(ws.word_at(end as int)[0] != self.first_letter);
                            assert(crate::word_sequence::bucket_slot_ok(
                                ws.spec_word_len(),
                                ws.spec_slot_width(),
                                ws.spec_data(),
                                start as int,
                            ));
                            assert(crate::word_sequence::bucket_slot_ok(
                                ws.spec_word_len(),
                                ws.spec_slot_width(),
                                ws.spec_data(),
                                end as int,
                            ));
                            assert(crate::word_sequence::bucket_slot_ok(
                                ws.spec_word_len(),
                                ws.spec_slot_width(),
                                ws.spec_data(),
                                j,
                            ));
                            ws.lemma_sorted(start as int, end as int);
                            lemma_lex_le_first(ws.word_at(start as int), ws.word_at(end as int));
                            if j > end {
                                ws.lemma_sorted(end as int, j);
                                lemma_lex_le_first(ws.word_at(end as int), ws.word_at(j));
                            }
                            assert((ws.word_at(j)[0] as u32) > (self.first_letter as u32));
                            assert(false);
                        }
                    }
                }
            }
            collect_count_and_tally(self, ws, start, end, true, cap)
        };
        let mut tally = tally;
        if self.letters_in_pattern_have_no_other_occurrences {
            drop_pattern_letters(&mut tally, self);
        } else {
            adjust_pattern_letters(&mut tally, self, total);
        }
        proof {
            assert(forall|c: char| tally.spec_count(c) == final_count(*self, words, c));
        }
        let freq = tally_to_ranking(&tally);
        let total32: u32 = if total > 0xffff_ffffu64 {
            0xffff_ffffu32
        } else {
            total as u32
        };
        (sample, freq, total32)
    }

    /// Answers the query against the corpus: finds every word of the
    /// pattern's length that is consistent with it, together with the
    /// ranked letter frequencies over the whole match set and a sample
    /// bounded by `max_words_to_collect`.
    pub fn solve(
        &self,
        corpus: &Corpus,
        language: Language,
        max_words_to_collect: Option<usize>,
    ) -> (r: HangmanResult)
        requires
            self.wf(),
            corpus.wf(),
        ensures
            solve_post(
                *self,
                corpus_words(*corpus, language, self.pattern@.len() as int),
                language,
                max_words_to_collect,
                r,
            ),
    {
        let length = self.pattern.len();
        let bucket = language.read_words(corpus, length);
        let (possible_words, letter_frequency, matching_words_count) = self.solve_internal(
            bucket,
            max_words_to_collect,
        );
        let invalid = result_invalid(self);
        let input = chars_to_string(&self.pattern);
        HangmanResult {
            input,
            invalid,
            matching_words_count,
            possible_words,
            language,
            letter_frequency,
        }
    }
}

/// Compiles the pattern and answers the query in one step.
pub fn solve(
    pattern: &str,
    invalid_letters: &[char],
    letters_in_pattern_have_no_other_occurrences: bool,
    corpus: &Corpus,
    language: Language,
    max_words_to_collect: Option<usize>,
) -> (r: HangmanResult)
    requires
        corpus.wf(),
    ensures
        exists|p: Pattern|
            #[trigger] p.is_compiled_from(
                pattern@,
                invalid_letters@,
                letters_in_pattern_have_no_other_occurrences,
            ) && solve_post(
                p,
                corpus_words(
                    *corpus,
                    language,
                    crate::pattern::normalize_pattern(pattern@).len() as int,
                ),
                language,
                max_words_to_collect,
                r,
            ),
{
    let p = Pattern::new(pattern, invalid_letters, letters_in_pattern_have_no_other_occurrences);
    let r = p.solve(corpus, language, max_words_to_collect);
    proof {
        assert(p.is_compiled_from(
            pattern@,
            invalid_letters@,
            letters_in_pattern_have_no_other_occurrences,
        ) && solve_post(
            p,
            corpus_words(
                *corpus,
                language,
                crate::pattern::normalize_pattern(pattern@).len() as int,
            ),
            language,
            max_words_to_collect,
            r,
        ));
    }
    r
}

/// A synonym of [`solve`] for callers whose character sources cannot fail.
pub fn solve_infallible(
    pattern: &str,
    invalid_letters: &[char],
    letters_in_pattern_have_no_other_occurrences: bool,
    corpus: &Corpus,
    language: Language,
    max_words_to_collect: Option<usize>,
) -> (r: HangmanResult)
    requires
        corpus.wf(),
    ensures
        exists|p: Pattern|
            #[trigger] p.is_compiled_from(
                pattern@,
                invalid_letters@,
                letters_in_pattern_have_no_other_occurrences,
            ) && solve_post(
                p,
                corpus_words(
                    *corpus,
                    language,
                    crate::pattern::normalize_pattern(pattern@).len() as int,
                ),
                language,
                max_words_to_collect,
                r,
            ),
{
    solve(
        pattern,
        invalid_letters,
        letters_in_pattern_have_no_other_occurrences,
        corpus,
        language,
        max_words_to_collect,
    )
}

/// The classic query: exact-reveal matching, no sample cap.
pub fn solve_hangman_puzzle(
    pattern_string: &str,
    invalid_letters: &[char],
    corpus: &Corpus,
    language: Language,
) -> (r: HangmanResult)
    requires
        corpus.wf(),
    ensures
        exists|p: Pattern|
            #[trigger] p.is_compiled_from(pattern_string@, invalid_letters@, true) && solve_post(
                p,
                corpus_words(
                    *corpus,
                    language,
                    crate::pattern::normalize_pattern(pattern_string@).len() as int,
                ),
                language,
                None,
                r,
            ),
{
    solve(pattern_string, invalid_letters, true, corpus, language, None)
}

} // verus!
