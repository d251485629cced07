//! A byte-level walk over a UTF-8 string: ASCII bytes come out one by one,
//! and every multi-byte character comes out as a single marker byte.

use vstd::prelude::*;
use vstd::string::StringSliceAdditionalSpecFns;

verus! {

/// How many bytes the character starting with `b` occupies; the iterator
/// skips that many at once.
pub open spec fn leading_width(b: u8) -> int {
    if b >= 0xf0 {
        4
    } else if b >= 0xe0 {
        3
    } else {
        2
    }
}

/// Iterates the bytes of a UTF-8 string, yielding each ASCII byte as
/// itself and each non-ASCII character as the single marker byte `0xff`.
pub struct AsciiCharIterator<'s> {
    pub utf8_string: &'s [u8],
    pub byte_index: usize,
}

impl<'s> AsciiCharIterator<'s> {
    /// A fresh iterator over the string's UTF-8 bytes.
    pub fn new(string: &'s str) -> (r: AsciiCharIterator<'s>)
        ensures
            r.utf8_string@ == string.spec_bytes(),
            r.byte_index == 0,
    {
        AsciiCharIterator { utf8_string: string.as_bytes(), byte_index: 0 }
    }

    /// The next unit: the ASCII byte at the cursor, or the marker for a
    /// multi-byte character, whose bytes are skipped; `None` at the end.
    pub fn next(&mut self) -> (r: Option<u8>)
        ensures
            final(self).utf8_string@ == old(self).utf8_string@,
            old(self).byte_index >= old(self).utf8_string@.len() ==> r is None
                && final(self).byte_index == old(self).byte_index,
            (old(self).byte_index as int) < old(self).utf8_string@.len() ==> {
                let b = old(self).utf8_string@[old(self).byte_index as int];
                if b < 0x80 {
                    r == Some(b) && final(self).byte_index == old(self).byte_index + 1
                } else {
                    r == Some(0xffu8) && final(self).byte_index as int == (if old(
                        self,
                    ).byte_index + leading_width(b) <= old(self).utf8_string@.len() {
                        old(self).byte_index + leading_width(b)
                    } else {
                        old(self).utf8_string@.len() as int
                    })
                }
            },
    {
        let n = self.utf8_string.len();
        if self.byte_index >= n {
            return None;
        }
        let byte = *vstd::slice::slice_index_get(self.utf8_string, self.byte_index);
        if byte < 0x80 {
            self.byte_index = self.byte_index + 1;
            Some(byte)
        } else {
            let width: usize = if byte >= 0xf0 {
                4
            } else if byte >= 0xe0 {
                3
            } else {
                2
            };
            let remaining = n - self.byte_index;
            self.byte_index = if width <= remaining {
                self.byte_index + width
            } else {
                n
            };
            Some(0xff)
        }
    }
}

} // verus!
