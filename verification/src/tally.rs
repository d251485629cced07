//! A letter tally: an association list from characters to positive counts,
//! with deterministic first-seen ordering. It backs the letter-frequency
//! aggregation of the match engine.

use vstd::prelude::*;

verus! {

/// The number of occurrences of `c` in `s`.
pub open spec fn occ(s: Seq<char>, c: char) -> nat
    decreases s.len(),
{
    if s.len() == 0 {
        0
    } else {
        occ(s.drop_last(), c) + (if s.last() == c {
            1nat
        } else {
            0nat
        })
    }
}

/// Occurrences never exceed the sequence length.
pub proof fn lemma_occ_le_len(s: Seq<char>, c: char)
    ensures
        occ(s, c) <= s.len(),
    decreases s.len(),
{
    if s.len() > 0 {
        lemma_occ_le_len(s.drop_last(), c);
    }
}

/// A character occurs exactly when its count is positive.
pub proof fn lemma_occ_pos_iff_contains(s: Seq<char>, c: char)
    ensures
        occ(s, c) > 0 <==> s.contains(c),
    decreases s.len(),
{
    if s.len() > 0 {
        lemma_occ_pos_iff_contains(s.drop_last(), c);
        if s.last() == c {
            assert(s[s.len() - 1] == c);
        } else if s.drop_last().contains(c) {
            let i = choose|i: int| 0 <= i < s.drop_last().len() && s.drop_last()[i] == c;
            assert(s[i] == c);
        } else if s.contains(c) {
            let i = choose|i: int| 0 <= i < s.len() && s[i] == c;
            assert(i < s.len() - 1 ==> s.drop_last()[i] == c);
        }
    }
}

/// A sequence without duplicates counts each character at most once.
pub proof fn lemma_occ_no_duplicates(s: Seq<char>, c: char)
    requires
        s.no_duplicates(),
    ensures
        occ(s, c) == if s.contains(c) {
            1nat
        } else {
            0nat
        },
    decreases s.len(),
{
    lemma_occ_pos_iff_contains(s, c);
    if s.len() > 0 {
        assert(s.drop_last().no_duplicates());
        lemma_occ_no_duplicates(s.drop_last(), c);
        lemma_occ_pos_iff_contains(s.drop_last(), c);
        if s.last() == c {
            assert(!s.drop_last().contains(c)) by {
                if s.drop_last().contains(c) {
                    let i = choose|i: int| 0 <= i < s.len() - 1 && s.drop_last()[i] == c;
                    assert(s[i] == s[s.len() - 1]);
                }
            }
        } else {
            if s.contains(c) {
                let i = choose|i: int| 0 <= i < s.len() && s[i] == c;
                assert(s.drop_last()[i] == c);
            }
        }
    }
}

/// An association list from characters to positive counts, each key held
/// once, in the order the keys were first seen.
pub struct LetterTally {
    pub entries: Vec<(char, u64)>,
}

/// The first index at or after `i` whose entry holds `c`.
pub open spec fn spec_find_from(s: Seq<(char, u64)>, c: char, i: int) -> Option<int>
    decreases s.len() - i,
{
    if i < 0 || i >= s.len() {
        None
    } else if s[i].0 == c {
        Some(i)
    } else {
        spec_find_from(s, c, i + 1)
    }
}

/// Wherever `spec_find_from` points, the key matches and no earlier index
/// from `i` on does.
pub proof fn lemma_find_from(s: Seq<(char, u64)>, c: char, i: int)
    requires
        0 <= i <= s.len(),
    ensures
        match spec_find_from(s, c, i) {
            Some(j) => i <= j < s.len() && s[j].0 == c,
            None => forall|j: int| i <= j < s.len() ==> (#[trigger] s[j]).0 != c,
        },
    decreases s.len() - i,
{
    if i < s.len() && s[i].0 != c {
        lemma_find_from(s, c, i + 1);
    }
}

/// With distinct keys, the lookup of the key of entry `i` finds `i`.
pub proof fn lemma_find_self(s: Seq<(char, u64)>, i: int, k: int)
    requires
        forall|a: int, b: int| 0 <= a < b < s.len() ==> (#[trigger] s[a]).0 != (#[trigger] s[b]).0,
        0 <= k <= i < s.len(),
    ensures
        spec_find_from(s, s[i].0, k) == Some(i),
    decreases i - k,
{
    if k < i {
        assert(s[k].0 != s[i].0);
        lemma_find_self(s, i, k + 1);
    }
}

impl LetterTally {
    /// Each entry stores exactly the count of its own key.
    pub proof fn lemma_entries(self)
        requires
            self.wf(),
        ensures
            forall|i: int|
                0 <= i < self.entries@.len() ==> self.spec_count(
                    (#[trigger] self.entries@[i]).0,
                ) == self.entries@[i].1,
    {
        assert forall|i: int|
            0 <= i < self.entries@.len() implies self.spec_count(
            (#[trigger] self.entries@[i]).0,
        ) == self.entries@[i].1 by {
            lemma_find_self(self.entries@, i, 0);
        }
    }

    /// Distinct keys, every stored count positive.
    pub open spec fn wf(self) -> bool {
        &&& forall|i: int, j: int|
            0 <= i < j < self.entries@.len() ==> (#[trigger] self.entries@[i]).0 != (
            #[trigger] self.entries@[j]).0
        &&& forall|i: int| 0 <= i < self.entries@.len() ==> (#[trigger] self.entries@[i]).1 >= 1
    }

    /// The count stored for `c`; zero when `c` has no entry.
    pub open spec fn spec_count(self, c: char) -> int {
        match spec_find_from(self.entries@, c, 0) {
            Some(i) => self.entries@[i].1 as int,
            None => 0,
        }
    }

    /// An empty tally.
    pub fn new() -> (r: LetterTally)
        ensures
            r.wf(),
            forall|c: char| r.spec_count(c) == 0,
            r.entries@.len() == 0,
    {
        LetterTally { entries: Vec::new() }
    }

    /// The index of the entry of `c`, if there is one.
    fn find(&self, c: char) -> (r: Option<usize>)
        ensures
            match r {
                Some(i) => spec_find_from(self.entries@, c, 0) == Some(i as int),
                None => spec_find_from(self.entries@, c, 0) is None,
            },
    {
        let n = self.entries.len();
        let mut i: usize = 0;
        while i < n
            invariant
                n == self.entries@.len(),
                i <= n,
                spec_find_from(self.entries@, c, 0) == spec_find_from(self.entries@, c, i as int),
            decreases n - i,
        {
            if self.entries[i].0 == c {
                return Some(i);
            }
            i = i + 1;
        }
        None
    }

    /// The count of `c`.
    pub fn get(&self, c: char) -> (r: u64)
        ensures
            r as int == self.spec_count(c),
    {
        proof {
            lemma_find_from(self.entries@, c, 0);
        }
        match self.find(c) {
            Some(i) => self.entries[i].1,
            None => 0,
        }
    }

    /// Raises the count of `c` by one, creating its entry if needed.
    pub fn incr(&mut self, c: char)
        requires
            old(self).wf(),
            old(self).spec_count(c) + 1 <= u64::MAX,
        ensures
            final(self).wf(),
            final(self).spec_count(c) == old(self).spec_count(c) + 1,
            forall|x: char| x != c ==> final(self).spec_count(x) == old(self).spec_count(x),
            final(self).entries@.len() <= old(self).entries@.len() + 1,
    {
        proof {
            lemma_find_from(self.entries@, c, 0);
        }
        match self.find(c) {
            Some(i) => {
                let v = self.entries[i].1;
                self.entries[i] = (c, v + 1);
                proof {
                    self.lemma_count_update(*old(self), c, i as int);
                }
            },
            None => {
                self.entries.push((c, 1));
                proof {
                    self.lemma_count_append(*old(self), c);
                }
            },
        }
    }

    /// After overwriting entry `i` with a new count for the same key, the
    /// count of that key is the new value and every other count is as it
    /// was.
    proof fn lemma_count_update(self, prior: LetterTally, c: char, i: int)
        requires
            prior.wf(),
            0 <= i < prior.entries@.len(),
            prior.entries@[i].0 == c,
            self.entries@ == prior.entries@.update(i, (c, self.entries@[i].1)),
            self.entries@[i].1 >= 1,
        ensures
            self.wf(),
            self.spec_count(c) == self.entries@[i].1 as int,
            forall|x: char| x != c ==> self.spec_count(x) == prior.spec_count(x),
    {
        assert(forall|a: int|
            0 <= a < self.entries@.len() ==> (#[trigger] self.entries@[a]).0
                == prior.entries@[a].0);
        assert forall|x: char| x != c implies self.spec_count(x) == prior.spec_count(x) by {
            Self::lemma_find_update(prior.entries@, self.entries@, c, i, x);
            lemma_find_from(prior.entries@, x, 0);
            let opt = spec_find_from(prior.entries@, x, 0);
            if opt is Some {
                let j = opt->0;
                assert(prior.entries@[j].0 == x);
                assert(j != i);
                assert(self.entries@[j] == prior.entries@[j]);
            }
        }
        assert(self.spec_count(c) == self.entries@[i].1 as int) by {
            Self::lemma_find_update(prior.entries@, self.entries@, c, i, c);
            lemma_find_from(prior.entries@, c, 0);
            if spec_find_from(prior.entries@, c, 0) is None {
                assert(prior.entries@[i].0 != c);
                assert(false);
            }
            let j = spec_find_from(prior.entries@, c, 0)->0;
            if j != i {
                assert(prior.entries@[j].0 == prior.entries@[i].0);
                assert(false);
            }
        }
    }

    /// Updating index `i` (whose key is `c`) leaves the lookup of every
    /// other key unchanged, and the lookup of `c` where it was.
    proof fn lemma_find_update(
        prior: Seq<(char, u64)>,
        now: Seq<(char, u64)>,
        c: char,
        i: int,
        x: char,
    )
        requires
            0 <= i < prior.len(),
            prior[i].0 == c,
            now == prior.update(i, (c, now[i].1)),
        ensures
            spec_find_from(now, x, 0) == spec_find_from(prior, x, 0),
    {
        Self::lemma_find_update_from(prior, now, c, i, x, 0);
    }

    proof fn lemma_find_update_from(
        prior: Seq<(char, u64)>,
        now: Seq<(char, u64)>,
        c: char,
        i: int,
        x: char,
        k: int,
    )
        requires
            0 <= i < prior.len(),
            0 <= k <= prior.len(),
            prior[i].0 == c,
            now == prior.update(i, (c, now[i].1)),
        ensures
            spec_find_from(now, x, k) == spec_find_from(prior, x, k),
        decreases prior.len() - k,
    {
        if k < prior.len() {
            assert(now[k].0 == prior[k].0);
            if prior[k].0 != x {
                Self::lemma_find_update_from(prior, now, c, i, x, k + 1);
            }
        }
    }

    /// After appending a fresh entry `(c, v)`, the count of `c` is `v` and
    /// every other count is as it was.
    proof fn lemma_count_append(self, prior: LetterTally, c: char)
        requires
            prior.wf(),
            spec_find_from(prior.entries@, c, 0) is None,
            self.entries@ == prior.entries@.push((c, self.entries@.last().1)),
            self.entries@.last().0 == c,
            self.entries@.last().1 >= 1,
        ensures
            self.wf(),
            self.spec_count(c) == self.entries@.last().1 as int,
            forall|x: char| x != c ==> self.spec_count(x) == prior.spec_count(x),
    {
        lemma_find_from(prior.entries@, c, 0);
        let n = prior.entries@.len() as int;
        assert(forall|a: int| 0 <= a < n ==> (#[trigger] self.entries@[a]) == prior.entries@[a]);
        assert(self.entries@[n].0 == c);
        assert(forall|j: int| 0 <= j < n ==> (#[trigger] prior.entries@[j]).0 != c);
        assert(self.wf());
        assert forall|x: char| true implies spec_find_from(self.entries@, x, 0) == (if x == c
            && spec_find_from(prior.entries@, x, 0) is None {
            Some(n)
        } else {
            spec_find_from(prior.entries@, x, 0)
        }) by {
            Self::lemma_find_append_from(prior.entries@, self.entries@, c, x, 0);
        }
        assert forall|x: char| x != c implies self.spec_count(x) == prior.spec_count(x) by {
            lemma_find_from(prior.entries@, x, 0);
            let opt = spec_find_from(prior.entries@, x, 0);
            if opt is Some {
                let j = opt->0;
                assert(self.entries@[j] == prior.entries@[j]);
            }
        }
        lemma_find_from(self.entries@, c, 0);
    }

    proof fn lemma_find_append_from(
        prior: Seq<(char, u64)>,
        now: Seq<(char, u64)>,
        c: char,
        x: char,
        k: int,
    )
        requires
            0 <= k <= prior.len(),
            now == prior.push((c, now.last().1)),
            now.last().0 == c,
        ensures
            spec_find_from(now, x, k) == (if x == c && spec_find_from(prior, x, k) is None {
                Some(prior.len() as int)
            } else {
                spec_find_from(prior, x, k)
            }),
        decreases prior.len() - k,
    {
        if k < prior.len() {
            assert(now[k].0 == prior[k].0);
            if prior[k].0 != x {
                Self::lemma_find_append_from(prior, now, c, x, k + 1);
            }
        } else {
            assert(now[k].0 == c);
            if x == c {
                assert(spec_find_from(now, x, k) == Some(k));
                assert(spec_find_from(prior, x, k) is None);
            } else {
                assert(spec_find_from(now, x, k) == spec_find_from(now, x, k + 1));
                assert(spec_find_from(now, x, k + 1) is None);
                assert(spec_find_from(prior, x, k) is None);
            }
        }
    }

    /// Removes the entry of `c`, returning its count.
    pub fn remove(&mut self, c: char) -> (r: Option<u64>)
        requires
            old(self).wf(),
        ensures
            final(self).wf(),
            final(self).spec_count(c) == 0,
            forall|x: char| x != c ==> final(self).spec_count(x) == old(self).spec_count(x),
            r == (if old(self).spec_count(c) > 0 {
                Some(old(self).spec_count(c) as u64)
            } else {
                None::<u64>
            }),
            final(self).entries@.len() <= old(self).entries@.len(),
    {
        proof {
            lemma_find_from(self.entries@, c, 0);
        }
        match self.find(c) {
            Some(i) => {
                let v = self.entries[i].1;
                self.entries.remove(i);
                proof {
                    self.lemma_count_remove(*old(self), c, i as int);
                }
                Some(v)
            },
            None => None,
        }
    }

    /// After removing entry `i` (whose key is `c`), the count of `c` is
    /// zero and every other count is as it was.
    proof fn lemma_count_remove(self, prior: LetterTally, c: char, i: int)
        requires
            prior.wf(),
            0 <= i < prior.entries@.len(),
            prior.entries@[i].0 == c,
            self.entries@ == prior.entries@.remove(i),
        ensures
            self.wf(),
            self.spec_count(c) == 0,
            forall|x: char| x != c ==> self.spec_count(x) == prior.spec_count(x),
    {
        assert forall|x: char| true implies spec_find_from(self.entries@, x, 0) == (if x == c {
            None
        } else {
            match spec_find_from(prior.entries@, x, 0) {
                Some(j) => if j < i {
                    Some(j)
                } else {
                    Some(j - 1)
                },
                None => None,
            }
        }) by {
            Self::lemma_find_remove_from(prior.entries@, self.entries@, c, i, x, 0);
        }
        assert forall|x: char| x != c implies self.spec_count(x) == prior.spec_count(x) by {
            lemma_find_from(prior.entries@, x, 0);
            let opt = spec_find_from(prior.entries@, x, 0);
            if opt is Some {
                let j = opt->0;
                if j < i {
                    assert(self.entries@[j] == prior.entries@[j]);
                } else {
                    assert(prior.entries@[j].0 != prior.entries@[i].0);
                    assert(j != i);
                    assert(self.entries@[j - 1] == prior.entries@[j]);
                }
            }
        }
    }

    proof fn lemma_find_remove_from(
        prior: Seq<(char, u64)>,
        now: Seq<(char, u64)>,
        c: char,
        i: int,
        x: char,
        k: int,
    )
        requires
            0 <= i < prior.len(),
            0 <= k <= prior.len(),
            prior[i].0 == c,
            forall|a: int, b: int|
                0 <= a < b < prior.len() ==> (#[trigger] prior[a]).0 != (#[trigger] prior[b]).0,
            now == prior.remove(i),
        ensures
            spec_find_from(now, x, if k <= i {
                k
            } else {
                k - 1
            }) == (if x == c {
                None
            } else {
                match spec_find_from(prior, x, k) {
                    Some(j) => if j < i {
                        Some(j)
                    } else {
                        Some(j - 1)
                    },
                    None => None,
                }
            }),
        decreases prior.len() - k,
    {
        let k2: int = if k <= i {
            k
        } else {
            k - 1
        };
        if k == prior.len() {
            if x == c {
            } else {
            }
        } else {
            if k != i {
                assert(now[if k < i {
                    k
                } else {
                    k - 1
                }] == prior[k]);
            }
            if k == i {
                Self::lemma_find_remove_from(prior, now, c, i, x, k + 1);
                if x == c {
                } else {
                }
            } else if prior[k].0 == x {
                if x == c {
                    assert(prior[k].0 == prior[i].0 && k != i);
                    assert(false);
                }
            } else {
                Self::lemma_find_remove_from(prior, now, c, i, x, k + 1);
            }
        }
    }

    /// Overwrites the count of `c` with a positive value, creating its
    /// entry if needed.
    pub fn set(&mut self, c: char, v: u64)
        requires
            old(self).wf(),
            v >= 1,
        ensures
            final(self).wf(),
            final(self).spec_count(c) == v as int,
            forall|x: char| x != c ==> final(self).spec_count(x) == old(self).spec_count(x),
            final(self).entries@.len() <= old(self).entries@.len() + 1,
    {
        proof {
            lemma_find_from(self.entries@, c, 0);
        }
        match self.find(c) {
            Some(i) => {
                self.entries[i] = (c, v);
                proof {
                    self.lemma_count_update(*old(self), c, i as int);
                }
            },
            None => {
                self.entries.push((c, v));
                proof {
                    self.lemma_count_append(*old(self), c);
                }
            },
        }
    }

    /// Raises the count of every character of `v`, once per occurrence.
    pub fn add_all(&mut self, v: &Vec<char>)
        requires
            old(self).wf(),
            forall|c: char| old(self).spec_count(c) + v@.len() <= u64::MAX,
        ensures
            final(self).wf(),
            forall|c: char|
                final(self).spec_count(c) == old(self).spec_count(c) + occ(v@, c),
    {
        let n = v.len();
        let mut i: usize = 0;
        while i < n
            invariant
                self.wf(),
                n == v@.len(),
                i <= n,
                forall|c: char|
                    self.spec_count(c) == old(self).spec_count(c) + occ(v@.take(i as int), c),
                forall|c: char| old(self).spec_count(c) + v@.len() <= u64::MAX,
            decreases n - i,
        {
            proof {
                lemma_occ_le_len(v@.take(i as int), v@[i as int]);
            }
            self.incr(v[i]);
            i = i + 1;
            proof {
                assert forall|c: char|
                    self.spec_count(c) == old(self).spec_count(c) + occ(
                        v@.take(i as int),
                        c,
                    ) by {
                    assert(v@.take(i as int).drop_last() =~= v@.take(i as int - 1));
                    assert(v@.take(i as int).last() == v@[i as int - 1]);
                }
            }
        }
        proof {
            assert(v@.take(n as int) =~= v@);
        }
    }
}

} // verus!
