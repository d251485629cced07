//! The corpus store: an immutable bucket of packed word data.
//!
//! A bucket holds every corpus word of one character length `N` as a
//! fixed-width *slot* of `W` bytes, where `W` is the largest UTF-8 byte length
//! among the bucket's words. A word shorter than `W` bytes is left-padded
//! with NUL bytes, so padding always precedes the word's first real byte.
//! The words of a bucket are sorted lexicographically by scalar value.

use vstd::prelude::*;
use vstd::slice::{slice_subrange, slice_to_vec};
use vstd::utf8::{
    decode_utf8, decode_utf8_encode_utf8, encode_utf8, encode_utf8_decode_utf8, valid_utf8,
};

use vstd::string::StringSliceAdditionalSpecFns;

use crate::chars::{chars_eq, chars_to_string, str_to_chars, ControlChars};

verus! {

/// Relies on `str::from_utf8`: it succeeds exactly on valid UTF-8 input and
/// returns the string slice over those bytes.
pub assume_specification[ str::from_utf8 ](v: &[u8]) -> (r: Result<&str, core::str::Utf8Error>)
    ensures
        r is Ok <==> valid_utf8(v@),
        r matches Ok(s) ==> s.spec_bytes() == v@,
;

/// The UTF-8 decoding error of the standard library, opaque to this crate.
#[verifier::external_type_specification]
#[verifier::external_body]
pub struct ExUtf8Error(core::str::Utf8Error);

/// The byte sequence with its leading run of NUL bytes removed.
pub open spec fn strip_nuls(s: Seq<u8>) -> Seq<u8>
    decreases s.len(),
{
    if s.len() > 0 && s[0] == 0u8 {
        strip_nuls(s.drop_first())
    } else {
        s
    }
}

/// The byte sequence left-padded with NUL bytes to the given width.
pub open spec fn pad_slot(word: Seq<u8>, width: int) -> Seq<u8>
    recommends
        word.len() <= width,
{
    Seq::new((width - word.len()) as nat, |i: int| 0u8) + word
}

/// Lexicographic order on character sequences, by Unicode scalar value.
pub open spec fn lex_le(a: Seq<char>, b: Seq<char>) -> bool
    decreases a.len(),
{
    if a.len() == 0 {
        true
    } else if b.len() == 0 {
        false
    } else if (a[0] as u32) < (b[0] as u32) {
        true
    } else if (a[0] as u32) == (b[0] as u32) {
        lex_le(a.drop_first(), b.drop_first())
    } else {
        false
    }
}

/// Well-formedness of packed bucket data: a positive slot width dividing the
/// data length; every slot a NUL-padded valid UTF-8 word of exactly
/// `word_length` characters, none of them reserved; and the words sorted.
pub open spec fn bucket_wf(word_length: int, slot_width: int, data: Seq<u8>) -> bool {
    &&& slot_width >= 1
    &&& data.len() as int % slot_width == 0
    &&& forall|i: int|
        0 <= i < data.len() as int / slot_width ==> bucket_slot_ok(
            word_length,
            slot_width,
            data,
            i,
        )
    &&& forall|i: int|
        0 <= i < data.len() as int / slot_width - 1 ==> lex_le(
            #[trigger] bucket_word_at(slot_width, data, i),
            bucket_word_at(slot_width, data, i + 1),
        )
}

/// The bytes of slot `i` of the packed data.
pub open spec fn bucket_slot_bytes(slot_width: int, data: Seq<u8>, i: int) -> Seq<u8> {
    data.subrange(i * slot_width, i * slot_width + slot_width)
}

/// The decoded word of slot `i` of the packed data.
pub open spec fn bucket_word_at(slot_width: int, data: Seq<u8>, i: int) -> Seq<char> {
    decode_utf8(strip_nuls(bucket_slot_bytes(slot_width, data, i)))
}

/// Validity of one slot: after stripping the padding, valid UTF-8 that
/// decodes to exactly `word_length` characters, none of them reserved.
pub open spec fn bucket_slot_ok(word_length: int, slot_width: int, data: Seq<u8>, i: int) -> bool {
    &&& valid_utf8(strip_nuls(bucket_slot_bytes(slot_width, data, i)))
    &&& bucket_word_at(slot_width, data, i).len() == word_length
    &&& forall|j: int|
        0 <= j < bucket_word_at(slot_width, data, i).len() ==> !(#[trigger] bucket_word_at(
            slot_width,
            data,
            i,
        )[j]).spec_is_reserved()
}

/// An immutable bucket of packed words, all of one character length.
pub struct WordSequence {
    pub word_length: usize,
    pub padded_word_byte_count: usize,
    pub data: Vec<u8>,
}

impl WordSequence {
    /// The character length of every word of the bucket.
    pub open spec fn spec_word_len(self) -> int {
        self.word_length as int
    }

    /// The width of one slot, in bytes.
    pub open spec fn spec_slot_width(self) -> int {
        self.padded_word_byte_count as int
    }

    /// The packed bytes.
    pub open spec fn spec_data(self) -> Seq<u8> {
        self.data@
    }

    /// The number of words stored.
    pub open spec fn spec_word_count(self) -> int {
        self.spec_data().len() as int / self.spec_slot_width()
    }

    /// The decoded word at index `i`.
    pub open spec fn word_at(self, i: int) -> Seq<char> {
        bucket_word_at(self.spec_slot_width(), self.spec_data(), i)
    }

    /// All decoded words, in storage order.
    pub open spec fn words(self) -> Seq<Seq<char>> {
        Seq::new(self.spec_word_count() as nat, |i: int| self.word_at(i))
    }

    /// Bucket invariant; established by [`WordSequence::new`] and preserved
    /// by every method.
    pub open spec fn wf(self) -> bool {
        bucket_wf(self.spec_word_len(), self.spec_slot_width(), self.spec_data())
    }
}

/// Lexicographic order is reflexive.
pub proof fn lemma_lex_le_refl(a: Seq<char>)
    ensures
        lex_le(a, a),
    decreases a.len(),
{
    if a.len() > 0 {
        lemma_lex_le_refl(a.drop_first());
    }
}

/// Lexicographic order is transitive.
pub proof fn lemma_lex_le_trans(a: Seq<char>, b: Seq<char>, c: Seq<char>)
    requires
        lex_le(a, b),
        lex_le(b, c),
    ensures
        lex_le(a, c),
    decreases a.len(),
{
    if a.len() > 0 && b.len() > 0 && c.len() > 0 {
        if (a[0] as u32) == (b[0] as u32) && (b[0] as u32) == (c[0] as u32) {
            lemma_lex_le_trans(a.drop_first(), b.drop_first(), c.drop_first());
        }
    }
}

/// Under lexicographic order the first characters are ordered as well.
pub proof fn lemma_lex_le_first(a: Seq<char>, b: Seq<char>)
    requires
        lex_le(a, b),
        a.len() > 0,
        b.len() > 0,
    ensures
        (a[0] as u32) <= (b[0] as u32),
{
}

/// Stripping a leading run of `k` NUL bytes yields the tail from `k` on.
pub proof fn lemma_strip_nuls_at(s: Seq<u8>, k: int)
    requires
        0 <= k <= s.len(),
        forall|j: int| 0 <= j < k ==> s[j] == 0u8,
        k == s.len() || s[k] != 0u8,
    ensures
        strip_nuls(s) == s.subrange(k, s.len() as int),
    decreases k,
{
    if k == 0 {
        assert(strip_nuls(s) =~= s.subrange(0, s.len() as int));
    } else {
        let t = s.drop_first();
        assert(forall|j: int| 0 <= j < k - 1 ==> t[j] == 0u8);
        lemma_strip_nuls_at(t, k - 1);
        assert(t.subrange(k - 1, t.len() as int) =~= s.subrange(k, s.len() as int));
    }
}

/// The stripped sequence is never longer than the original.
pub proof fn lemma_strip_nuls_len(s: Seq<u8>)
    ensures
        strip_nuls(s).len() <= s.len(),
    decreases s.len(),
{
    if s.len() > 0 && s[0] == 0u8 {
        lemma_strip_nuls_len(s.drop_first());
    }
}

/// Padding the stripped word back to the slot's own length restores the slot.
pub proof fn lemma_pad_strip(slot: Seq<u8>)
    ensures
        pad_slot(strip_nuls(slot), slot.len() as int) == slot,
    decreases slot.len(),
{
    lemma_strip_nuls_len(slot);
    if slot.len() > 0 && slot[0] == 0u8 {
        let t = slot.drop_first();
        lemma_pad_strip(t);
        lemma_strip_nuls_len(t);
        let stripped = strip_nuls(t);
        assert(strip_nuls(slot) == stripped);
        assert forall|i: int| 0 <= i < slot.len() implies pad_slot(
            stripped,
            slot.len() as int,
        )[i] == slot[i] by {
            if i >= 1 {
                assert(pad_slot(stripped, t.len() as int)[i - 1] == t[i - 1]);
                assert(t[i - 1] == slot[i]);
            }
        }
        assert(pad_slot(strip_nuls(slot), slot.len() as int) =~= slot);
    } else {
        assert(pad_slot(strip_nuls(slot), slot.len() as int) =~= slot);
    }
}

/// A UTF-8 encoding has at least one byte per character.
pub proof fn lemma_encode_len_ge(chars: Seq<char>)
    ensures
        encode_utf8(chars).len() >= chars.len(),
    decreases chars.len(),
{
    if chars.len() > 0 {
        lemma_encode_len_ge(chars.drop_first());
    }
}

/// Slot `i` lies inside the data buffer.
pub proof fn lemma_slot_in_bounds(len: int, w: int, i: int)
    requires
        w >= 1,
        len >= 0,
        len % w == 0,
        0 <= i < len / w,
    ensures
        0 <= i * w,
        i * w + w <= len,
{
    vstd::arithmetic::div_mod::lemma_fundamental_div_mod(len, w);
    vstd::arithmetic::mul::lemma_mul_inequality(i + 1, len / w, w);
    vstd::arithmetic::mul::lemma_mul_is_distributive_add_other_way(w, i, 1);
    vstd::arithmetic::mul::lemma_mul_is_commutative(i + 1, w);
    vstd::arithmetic::mul::lemma_mul_is_commutative(len / w, w);
    vstd::arithmetic::mul::lemma_mul_nonnegative(i, w);
}

/// Lexicographic comparison ignores an equal prefix.
pub proof fn lemma_lex_le_common_prefix(a: Seq<char>, b: Seq<char>, j: int)
    requires
        0 <= j <= a.len(),
        j <= b.len(),
        forall|k: int| 0 <= k < j ==> a[k] == b[k],
    ensures
        lex_le(a, b) <==> lex_le(a.skip(j), b.skip(j)),
    decreases j,
{
    if j == 0 {
        assert(a.skip(0) =~= a);
        assert(b.skip(0) =~= b);
    } else {
        assert(a[0] == b[0]);
        let a1 = a.drop_first();
        let b1 = b.drop_first();
        assert(forall|k: int| 0 <= k < j - 1 ==> a1[k] == b1[k]);
        lemma_lex_le_common_prefix(a1, b1, j - 1);
        assert(a1.skip(j - 1) =~= a.skip(j));
        assert(b1.skip(j - 1) =~= b.skip(j));
    }
}

/// Decides the lexicographic order of two character vectors.
pub fn lex_le_chars(a: &Vec<char>, b: &Vec<char>) -> (r: bool)
    ensures
        r == lex_le(a@, b@),
{
    let n = if a.len() < b.len() {
        a.len()
    } else {
        b.len()
    };
    let mut j: usize = 0;
    while j < n
        invariant
            n <= a@.len(),
            n <= b@.len(),
            n == a@.len() || n == b@.len(),
            j <= n,
            forall|k: int| 0 <= k < j ==> a@[k] == b@[k],
        decreases n - j,
    {
        let x = a[j] as u32;
        let y = b[j] as u32;
        if x < y {
            proof {
                lemma_lex_le_common_prefix(a@, b@, j as int);
                assert(a@.skip(j as int)[0] == a@[j as int]);
                assert(b@.skip(j as int)[0] == b@[j as int]);
            }
            return true;
        }
        if x > y {
            proof {
                lemma_lex_le_common_prefix(a@, b@, j as int);
                assert(a@.skip(j as int)[0] == a@[j as int]);
                assert(b@.skip(j as int)[0] == b@[j as int]);
            }
            return false;
        }
        proof {
            vstd::utf8::char_u32_cast(a@[j as int], x);
            vstd::utf8::char_u32_cast(b@[j as int], y);
        }
        j = j + 1;
    }
    proof {
        lemma_lex_le_common_prefix(a@, b@, n as int);
    }
    a.len() <= b.len()
}

/// Decodes slot `index` of packed data with slot width `w`: strips the NUL
/// padding and decodes the remaining bytes as UTF-8.
fn decode_slot(data: &Vec<u8>, w: usize, index: usize) -> (r: Option<Vec<char>>)
    requires
        1 <= w,
        index as int * w as int + w as int <= data@.len(),
        0 <= index as int * w as int,
    ensures
        r is Some <==> valid_utf8(strip_nuls(bucket_slot_bytes(w as int, data@, index as int))),
        r matches Some(cs) ==> cs@ == bucket_word_at(w as int, data@, index as int),
{
    let total = data.len();
    let start = index * w;
    let ghost slot = bucket_slot_bytes(w as int, data@, index as int);
    // Skip the leading NUL padding; the word's own bytes follow it.
    let mut k: usize = 0;
    while k < w && data[start + k] == 0u8
        invariant
            start == index as int * w as int,
            total == data@.len(),
            start + w <= total,
            k <= w,
            forall|j: int| 0 <= j < k ==> slot[j] == 0u8,
            slot == bucket_slot_bytes(w as int, data@, index as int),
        decreases w - k,
    {
        k = k + 1;
    }
    proof {
        lemma_strip_nuls_at(slot, k as int);
    }
    let word_slice = slice_subrange(data.as_slice(), start + k, start + w);
    proof {
        assert(word_slice@ =~= strip_nuls(slot));
    }
    match str::from_utf8(word_slice) {
        Ok(s) => {
            proof {
                encode_utf8_decode_utf8(s@);
            }
            Some(str_to_chars(s))
        },
        Err(_) => None,
    }
}

impl WordSequence {
    /// The words of a well-formed bucket are sorted: every pair of indices is
    /// ordered, not only the adjacent ones.
    pub proof fn lemma_sorted(self, i: int, j: int)
        requires
            self.wf(),
            0 <= i <= j < self.spec_word_count(),
        ensures
            lex_le(self.word_at(i), self.word_at(j)),
        decreases j - i,
    {
        if i == j {
            lemma_lex_le_refl(self.word_at(i));
        } else {
            self.lemma_sorted(i, j - 1);
            assert(lex_le(self.word_at(j - 1), self.word_at(j)));
            lemma_lex_le_trans(self.word_at(i), self.word_at(j - 1), self.word_at(j));
        }
    }

    /// In a non-empty well-formed bucket the word length never exceeds the
    /// slot width.
    pub proof fn lemma_word_len_le_slot_width(self)
        requires
            self.wf(),
            self.spec_word_count() > 0,
        ensures
            self.spec_word_len() <= self.spec_slot_width(),
    {
        let w = self.spec_slot_width();
        let len = self.spec_data().len() as int;
        lemma_slot_in_bounds(len, w, 0);
        assert(bucket_slot_ok(self.spec_word_len(), w, self.spec_data(), 0));
        let slot = bucket_slot_bytes(w, self.spec_data(), 0);
        let stripped = strip_nuls(slot);
        decode_utf8_encode_utf8(stripped);
        lemma_encode_len_ge(self.word_at(0));
        lemma_strip_nuls_len(slot);
    }

    /// The number of words of the bucket.
    pub fn len(&self) -> (r: usize)
        requires
            self.wf(),
        ensures
            r as int == self.spec_word_count(),
    {
        self.data.len() / self.padded_word_byte_count
    }

    /// The character length of every word of the bucket.
    pub fn word_char_count(&self) -> (r: usize)
        ensures
            r as int == self.spec_word_len(),
    {
        self.word_length
    }

    /// True when the bucket holds no words.
    pub fn is_empty(&self) -> (r: bool)
        requires
            self.wf(),
        ensures
            r == (self.spec_word_count() == 0),
    {
        proof {
            if self.spec_data().len() == 0 {
                assert(self.spec_word_count() == 0) by {
                    vstd::arithmetic::div_mod::lemma_div_of0(self.spec_slot_width());
                }
            } else {
                vstd::arithmetic::div_mod::lemma_fundamental_div_mod(
                    self.spec_data().len() as int,
                    self.spec_slot_width(),
                );
            }
        }
        self.data.len() == 0
    }

    /// The decoded characters of the word at index `index`.
    pub fn word_chars(&self, index: usize) -> (r: Vec<char>)
        requires
            self.wf(),
            index < self.spec_word_count(),
        ensures
            r@ == self.word_at(index as int),
    {
        proof {
            lemma_slot_in_bounds(
                self.spec_data().len() as int,
                self.spec_slot_width(),
                index as int,
            );
            assert(bucket_slot_ok(
                self.spec_word_len(),
                self.spec_slot_width(),
                self.spec_data(),
                index as int,
            ));
        }
        match decode_slot(&self.data, self.padded_word_byte_count, index) {
            Some(cs) => cs,
            None => {
                proof {
                    assert(false);
                }
                Vec::new()
            },
        }
    }

    /// Builds a bucket from packed data, validating the invariant: a
    /// positive slot width that divides the data length, every slot a
    /// NUL-padded valid UTF-8 word of exactly `word_length` characters with
    /// no reserved character, and the words in sorted order. Returns `None`
    /// exactly when the data violates one of those conditions.
    pub fn new(word_length: usize, data: Vec<u8>, padded_word_byte_count: usize) -> (r: Option<
        WordSequence,
    >)
        ensures
            r is Some <==> bucket_wf(word_length as int, padded_word_byte_count as int, data@),
            r matches Some(ws) ==> ws.word_length == word_length && ws.padded_word_byte_count
                == padded_word_byte_count && ws.data@ == data@ && ws.wf(),
    {
        if padded_word_byte_count == 0 {
            return None;
        }
        let w = padded_word_byte_count;
        let total = data.len();
        if total % w != 0 {
            return None;
        }
        let count = total / w;
        let mut prev: Vec<char> = Vec::new();
        let mut i: usize = 0;
        while i < count
            invariant
                1 <= w,
                w == padded_word_byte_count,
                total == data@.len(),
                total as int % w as int == 0,
                count as int == total as int / w as int,
                i <= count,
                forall|t: int|
                    0 <= t < i ==> bucket_slot_ok(word_length as int, w as int, data@, t),
                forall|t: int|
                    0 <= t < i - 1 ==> lex_le(
                        #[trigger] bucket_word_at(w as int, data@, t),
                        bucket_word_at(w as int, data@, t + 1),
                    ),
                i > 0 ==> prev@ == bucket_word_at(w as int, data@, i - 1),
            decreases count - i,
        {
            proof {
                lemma_slot_in_bounds(total as int, w as int, i as int);
            }
            let cs_opt = decode_slot(&data, w, i);
            let cs = match cs_opt {
                Some(cs) => cs,
                None => {
                    proof {
                        if bucket_wf(word_length as int, w as int, data@) {
                            assert(bucket_slot_ok(word_length as int, w as int, data@, i as int));
                            assert(false);
                        }
                    }
                    return None;
                },
            };
            if cs.len() != word_length {
                proof {
                    if bucket_wf(word_length as int, w as int, data@) {
                        assert(bucket_slot_ok(word_length as int, w as int, data@, i as int));
                        assert(false);
                    }
                }
                return None;
            }
            let mut q: usize = 0;
            while q < cs.len()
                invariant
                    1 <= w,
                    w == padded_word_byte_count,
                    total == data@.len(),
                    total as int % w as int == 0,
                    count as int == total as int / w as int,
                    i < count,
                    cs@ == bucket_word_at(w as int, data@, i as int),
                    q <= cs@.len(),
                    forall|t: int| 0 <= t < q ==> !(#[trigger] cs@[t]).spec_is_reserved(),
                decreases cs@.len() - q,
            {
                if cs[q].is_reserved() {
                    proof {
                        if bucket_wf(word_length as int, w as int, data@) {
                            assert(bucket_slot_ok(word_length as int, w as int, data@, i as int));
                            assert(!(bucket_word_at(
                                w as int,
                                data@,
                                i as int,
                            )[q as int]).spec_is_reserved());
                            assert(false);
                        }
                    }
                    return None;
                }
                q = q + 1;
            }
            if i > 0 {
                if !lex_le_chars(&prev, &cs) {
                    proof {
                        if bucket_wf(word_length as int, w as int, data@) {
                            assert(lex_le(
                                bucket_word_at(w as int, data@, i as int - 1),
                                bucket_word_at(w as int, data@, i as int),
                            ));
                            assert(false);
                        }
                    }
                    return None;
                }
            }
            prev = cs;
            i = i + 1;
        }
        Some(
            WordSequence {
                word_length,
                data,
                padded_word_byte_count,
            },
        )
    }

    /// True when the bucket holds the given word. A word of the wrong
    /// character length is never contained.
    pub fn contains(&self, word: &str) -> (r: bool)
        requires
            self.wf(),
        ensures
            r == self.words().contains(word@),
    {
        let wchars = str_to_chars(word);
        if wchars.len() != self.word_length {
            proof {
                if self.words().contains(word@) {
                    let i = choose|i: int|
                        0 <= i < self.words().len() && self.words()[i] == word@;
                    assert(bucket_slot_ok(
                        self.spec_word_len(),
                        self.spec_slot_width(),
                        self.spec_data(),
                        i,
                    ));
                }
            }
            return false;
        }
        let count = self.len();
        let mut i: usize = 0;
        while i < count
            invariant
                self.wf(),
                count as int == self.spec_word_count(),
                i <= count,
                wchars@ == word@,
                forall|j: int| 0 <= j < i ==> self.words()[j] != word@,
            decreases count - i,
        {
            let cs = self.word_chars(i);
            if chars_eq(&cs, &wchars) {
                proof {
                    assert(self.words()[i as int] == word@);
                }
                return true;
            }
            i = i + 1;
        }
        proof {
            if self.words().contains(word@) {
                let j = choose|j: int| 0 <= j < self.words().len() && self.words()[j] == word@;
                assert(false);
            }
        }
        false
    }

    /// A zero-copy-style sub-view: the words with indices in
    /// `start..end`, as a bucket of their own. Returns `None` exactly when
    /// the range does not lie inside the bucket.
    pub fn slice(&self, start: usize, end: usize) -> (r: Option<WordSequence>)
        requires
            self.wf(),
        ensures
            r is Some <==> start <= end && end as int <= self.spec_word_count(),
            r matches Some(ws) ==> ws.wf() && ws.spec_word_len() == self.spec_word_len()
                && ws.spec_slot_width() == self.spec_slot_width() && ws.words() == self.words()
                .subrange(start as int, end as int),
    {
        if start > end {
            return None;
        }
        let count = self.len();
        if end > count {
            return None;
        }
        let w = self.padded_word_byte_count;
        let total = self.data.len();
        proof {
            vstd::arithmetic::div_mod::lemma_fundamental_div_mod(total as int, w as int);
            vstd::arithmetic::mul::lemma_mul_inequality(end as int, count as int, w as int);
            vstd::arithmetic::mul::lemma_mul_inequality(start as int, end as int, w as int);
            vstd::arithmetic::mul::lemma_mul_is_commutative(count as int, w as int);
            vstd::arithmetic::mul::lemma_mul_nonnegative(start as int, w as int);
        }
        let lo = start * w;
        let hi = end * w;
        let sub = slice_to_vec(slice_subrange(self.data.as_slice(), lo, hi));
        let ws = WordSequence { word_length: self.word_length, data: sub, padded_word_byte_count: w };
        proof {
            self.lemma_slice_wf(ws, start as int, end as int);
        }
        Some(ws)
    }

    /// The sub-buffer of a range of slots is itself a well-formed bucket
    /// holding exactly the words of that range.
    proof fn lemma_slice_wf(self, sub: WordSequence, start: int, end: int)
        requires
            self.wf(),
            0 <= start <= end <= self.spec_word_count(),
            sub.spec_word_len() == self.spec_word_len(),
            sub.spec_slot_width() == self.spec_slot_width(),
            sub.spec_data() == self.spec_data().subrange(
                start * self.spec_slot_width(),
                end * self.spec_slot_width(),
            ),
        ensures
            sub.wf(),
            sub.words() == self.words().subrange(start, end),
    {
        let w = self.spec_slot_width();
        let data = self.spec_data();
        let n = end - start;
        vstd::arithmetic::mul::lemma_mul_is_distributive_sub_other_way(w, end, start);
        vstd::arithmetic::mul::lemma_mul_inequality(end, self.spec_word_count(), w);
        vstd::arithmetic::div_mod::lemma_fundamental_div_mod(data.len() as int, w);
        vstd::arithmetic::mul::lemma_mul_is_commutative(self.spec_word_count(), w);
        vstd::arithmetic::mul::lemma_mul_nonnegative(start, w);
        assert(sub.spec_data().len() == n * w);
        vstd::arithmetic::div_mod::lemma_mod_multiples_basic(n, w);
        vstd::arithmetic::mul::lemma_mul_is_commutative(n, w);
        vstd::arithmetic::div_mod::lemma_div_by_multiple(n, w);
        assert(sub.spec_word_count() == n);
        assert forall|i: int| 0 <= i < n implies bucket_slot_bytes(w, sub.spec_data(), i)
            == bucket_slot_bytes(w, data, start + i) by {
            vstd::arithmetic::mul::lemma_mul_is_distributive_add_other_way(w, start, i);
            vstd::arithmetic::mul::lemma_mul_nonnegative(i, w);
            vstd::arithmetic::mul::lemma_mul_inequality(i + 1, n, w);
            vstd::arithmetic::mul::lemma_mul_is_distributive_add_other_way(w, i, 1);
            assert(bucket_slot_bytes(w, sub.spec_data(), i) =~= bucket_slot_bytes(
                w,
                data,
                start + i,
            ));
        }
        assert forall|i: int| 0 <= i < n implies bucket_slot_ok(
            sub.spec_word_len(),
            w,
            sub.spec_data(),
            i,
        ) by {
            assert(bucket_slot_ok(self.spec_word_len(), w, data, start + i));
        }
        assert forall|i: int| 0 <= i < n - 1 implies lex_le(
            #[trigger] bucket_word_at(w, sub.spec_data(), i),
            bucket_word_at(w, sub.spec_data(), i + 1),
        ) by {
            assert(lex_le(bucket_word_at(w, data, start + i), bucket_word_at(w, data, start + i + 1)));
        }
        assert(sub.words() =~= self.words().subrange(start, end));
    }

    /// A fresh forward iterator over the bucket's words.
    pub fn iter(&self) -> (r: StringChunkIter<'_>)
        requires
            self.wf(),
        ensures
            r.bucket == self,
            r.index == 0,
    {
        StringChunkIter { bucket: self, index: 0 }
    }

    /// One packed slot, as the word's UTF-8 bytes left-padded with NUL to
    /// the slot width: the form in which the bucket stores it.
    pub open spec fn repacked_slot(self, i: int) -> Seq<u8> {
        pad_slot(encode_utf8(self.word_at(i)), self.spec_slot_width())
    }

    /// The concatenation of the first `i` re-encoded slots.
    pub open spec fn repack_upto(self, i: int) -> Seq<u8>
        decreases i,
    {
        if i <= 0 {
            Seq::<u8>::empty()
        } else {
            self.repack_upto(i - 1) + self.repacked_slot(i - 1)
        }
    }

    /// Re-encoding a prefix of the words reproduces the corresponding prefix
    /// of the packed buffer.
    pub proof fn lemma_repack_prefix(self, i: int)
        requires
            self.wf(),
            0 <= i <= self.spec_word_count(),
        ensures
            self.repack_upto(i) == self.spec_data().subrange(0, i * self.spec_slot_width()),
        decreases i,
    {
        let w = self.spec_slot_width();
        let data = self.spec_data();
        if i == 0 {
            assert(self.repack_upto(0) =~= data.subrange(0, 0));
        } else {
            self.lemma_repack_prefix(i - 1);
            lemma_slot_in_bounds(data.len() as int, w, i - 1);
            assert(bucket_slot_ok(self.spec_word_len(), w, data, i - 1));
            let slot = bucket_slot_bytes(w, data, i - 1);
            decode_utf8_encode_utf8(strip_nuls(slot));
            lemma_pad_strip(slot);
            assert(slot.len() == w);
            assert(encode_utf8(self.word_at(i - 1)) == strip_nuls(slot));
            assert(self.repacked_slot(i - 1) == slot);
            vstd::arithmetic::mul::lemma_mul_is_distributive_sub_other_way(w, i, 1);
            vstd::arithmetic::mul::lemma_mul_nonnegative(i - 1, w);
            let a = self.repack_upto(i - 1);
            assert(a == data.subrange(0, (i - 1) * w));
            assert(a.len() == (i - 1) * w);
            assert(self.repack_upto(i) == a + slot);
            assert forall|idx: int| 0 <= idx < i * w implies (a + slot)[idx] == data[idx] by {
                if idx < (i - 1) * w {
                    assert((a + slot)[idx] == a[idx]);
                    assert(a[idx] == data[idx]);
                } else {
                    assert((a + slot)[idx] == slot[idx - (i - 1) * w]);
                    assert(slot[idx - (i - 1) * w] == data[idx]);
                }
            }
            assert(self.repack_upto(i) =~= data.subrange(0, i * w));
        }
    }

    /// Decoding every slot and re-encoding it (pad each word to the slot
    /// width, then concatenate) reproduces the original packed buffer.
    pub proof fn lemma_round_trip(self)
        requires
            self.wf(),
        ensures
            self.repack_upto(self.spec_word_count()) == self.spec_data(),
    {
        let w = self.spec_slot_width();
        let data = self.spec_data();
        self.lemma_repack_prefix(self.spec_word_count());
        vstd::arithmetic::div_mod::lemma_fundamental_div_mod(data.len() as int, w);
        vstd::arithmetic::mul::lemma_mul_is_commutative(self.spec_word_count(), w);
        assert(data.subrange(0, self.spec_word_count() * w) =~= data);
    }

    /// Random access: the word at `index`, or `None` past the end.
    pub fn get(&self, index: usize) -> (r: Option<String>)
        requires
            self.wf(),
        ensures
            match r {
                Some(s) => index < self.spec_word_count() && s@ == self.word_at(index as int),
                None => index >= self.spec_word_count(),
            },
    {
        if index < self.len() {
            let cs = self.word_chars(index);
            Some(chars_to_string(&cs))
        } else {
            None
        }
    }
}

/// A forward iterator over the words of one bucket. Re-creating it restarts
/// the iteration from the same immutable buffer.
pub struct StringChunkIter<'a> {
    pub bucket: &'a WordSequence,
    pub index: usize,
}

impl<'a> StringChunkIter<'a> {
    /// The next word, or `None` once the bucket is exhausted.
    pub fn next(&mut self) -> (r: Option<String>)
        requires
            old(self).bucket.wf(),
        ensures
            final(self).bucket == old(self).bucket,
            (old(self).index as int) < old(self).bucket.spec_word_count() ==> final(self).index
                == old(self).index + 1 && (r matches Some(s) && s@ == old(self).bucket.word_at(
                old(self).index as int,
            )),
            (old(self).index as int) >= old(self).bucket.spec_word_count() ==> r is None
                && final(self).index == old(self).index,
    {
        if self.index < self.bucket.len() {
            let cs = self.bucket.word_chars(self.index);
            self.index = self.index + 1;
            Some(chars_to_string(&cs))
        } else {
            None
        }
    }

    /// How many words are still to come.
    pub fn remaining(&self) -> (r: usize)
        requires
            self.bucket.wf(),
        ensures
            r as int == if (self.index as int) < self.bucket.spec_word_count() {
                self.bucket.spec_word_count() - self.index as int
            } else {
                0
            },
    {
        let count = self.bucket.len();
        if self.index < count {
            count - self.index
        } else {
            0
        }
    }
}

} // verus!
