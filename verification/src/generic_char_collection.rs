//! A view of text parameterized over the character unit: full Unicode
//! scalars, or single bytes on the ASCII fast path where every non-ASCII
//! character collapses to one marker unit.

use vstd::prelude::*;
use vstd::string::StringSliceAdditionalSpecFns;
use vstd::string::StrSliceExecFns;

use crate::ascii_char_iterator::{leading_width, AsciiCharIterator};
use crate::chars::{lowercase_chars, str_to_chars, to_lowercase_chars};

verus! {

/// The byte units of a UTF-8 byte run from position `i` on: ASCII bytes
/// stand for themselves, every multi-byte character for the marker `0xff`.
pub open spec fn ascii_units_from(bytes: Seq<u8>, i: int) -> Seq<u8>
    decreases bytes.len() - i,
{
    if i < 0 || i >= bytes.len() {
        Seq::empty()
    } else {
        let b = bytes[i];
        if b < 0x80 {
            seq![b] + ascii_units_from(bytes, i + 1)
        } else {
            let next = if i + leading_width(b) <= bytes.len() {
                i + leading_width(b)
            } else {
                bytes.len() as int
            };
            seq![0xffu8] + ascii_units_from(bytes, next)
        }
    }
}

/// The byte units of a whole UTF-8 byte run.
pub open spec fn ascii_units(bytes: Seq<u8>) -> Seq<u8> {
    ascii_units_from(bytes, 0)
}

/// The lowercase mapping of a character run: each character replaced by
/// its (possibly multi-character) lowercase form.
pub open spec fn lower_all(s: Seq<char>) -> Seq<char>
    decreases s.len(),
{
    if s.len() == 0 {
        Seq::empty()
    } else {
        lower_all(s.drop_last()) + lowercase_chars(s.last())
    }
}

/// The ASCII lowercase mapping of one byte unit.
pub open spec fn ascii_byte_lower(b: u8) -> u8 {
    if 0x41 <= b && b <= 0x5a {
        (b + 0x20) as u8
    } else {
        b
    }
}

/// Text as a sequence of character units of one kind.
pub trait GenericCharCollection<Char> {
    /// The units of the text.
    spec fn spec_units(&self) -> Seq<Char>;

    /// The units of the lowercased text.
    spec fn spec_lowercased(&self) -> Seq<Char>;

    fn count(&self) -> (r: usize)
        ensures
            r == self.spec_units().len();

    fn first(&self) -> (r: Option<Char>)
        ensures
            r == (if self.spec_units().len() > 0 {
                Some(self.spec_units()[0])
            } else {
                None
            });

    fn units(&self) -> (r: Vec<Char>)
        ensures
            r@ == self.spec_units();

    fn lowercased(&self) -> (r: Vec<Char>)
        ensures
            r@ == self.spec_lowercased();
}

impl GenericCharCollection<char> for str {
    open spec fn spec_units(&self) -> Seq<char> {
        self@
    }

    open spec fn spec_lowercased(&self) -> Seq<char> {
        lower_all(self@)
    }

    fn count(&self) -> (r: usize) {
        self.unicode_len()
    }

    fn first(&self) -> (r: Option<char>) {
        if self.unicode_len() == 0 {
            None
        } else {
            Some(self.get_char(0))
        }
    }

    fn units(&self) -> (r: Vec<char>) {
        str_to_chars(self)
    }

    fn lowercased(&self) -> (r: Vec<char>) {
        let source = str_to_chars(self);
        let n = source.len();
        let mut r: Vec<char> = Vec::new();
        let mut i: usize = 0;
        while i < n
            invariant
                n == source@.len(),
                source@ == self@,
                i <= n,
                r@ == lower_all(source@.take(i as int)),
            decreases n - i,
        {
            let low = to_lowercase_chars(source[i]);
            proof {
                assert(source@.take(i as int + 1).drop_last() =~= source@.take(i as int));
                assert(source@.take(i as int + 1).last() == source@[i as int]);
            }
            let mut j: usize = 0;
            let ghost before = r@;
            while j < low.len()
                invariant
                    j <= low@.len(),
                    r@ == before + low@.take(j as int),
                decreases low@.len() - j,
            {
                r.push(low[j]);
                j = j + 1;
                proof {
                    assert(r@ =~= before + low@.take(j as int));
                }
            }
            i = i + 1;
            proof {
                assert(low@.take(low@.len() as int) =~= low@);
                assert(r@ =~= lower_all(source@.take(i as int)));
            }
        }
        proof {
            assert(source@.take(n as int) =~= source@);
        }
        r
    }
}

/// Collects the ASCII units of a string's UTF-8 bytes.
fn collect_ascii_units(s: &str) -> (r: Vec<u8>)
    ensures
        r@ == ascii_units(s.spec_bytes()),
{
    let ghost bytes = s.spec_bytes();
    let mut it = AsciiCharIterator::new(s);
    let mut r: Vec<u8> = Vec::new();
    let mut done = false;
    while !done
        invariant
            it.utf8_string@ == bytes,
            it.byte_index <= bytes.len(),
            ascii_units(bytes) == r@ + ascii_units_from(bytes, it.byte_index as int),
            done ==> it.byte_index >= bytes.len(),
        decreases bytes.len() - it.byte_index, (if done {
            0int
        } else {
            1int
        }),
    {
        let ghost idx = it.byte_index as int;
        match it.next() {
            Some(u) => {
                r.push(u);
                proof {
                    let b = bytes[idx];
                    if b < 0x80 {
                        assert(ascii_units_from(bytes, idx) == seq![b] + ascii_units_from(
                            bytes,
                            idx + 1,
                        ));
                    } else {
                        assert(ascii_units_from(bytes, idx) == seq![0xffu8] + ascii_units_from(
                            bytes,
                            it.byte_index as int,
                        ));
                    }
                    assert(r@ + ascii_units_from(bytes, it.byte_index as int) =~= r@.drop_last()
                        + ascii_units_from(bytes, idx));
                }
            },
            None => {
                done = true;
            },
        }
    }
    proof {
        assert(ascii_units_from(bytes, it.byte_index as int) =~= Seq::<u8>::empty());
        assert(r@ =~= ascii_units(bytes));
    }
    r
}

impl GenericCharCollection<u8> for str {
    open spec fn spec_units(&self) -> Seq<u8> {
        ascii_units(self.spec_bytes())
    }

    open spec fn spec_lowercased(&self) -> Seq<u8> {
        ascii_units(self.spec_bytes()).map_values(|b: u8| ascii_byte_lower(b))
    }

    fn count(&self) -> (r: usize) {
        let v = collect_ascii_units(self);
        v.len()
    }

    fn first(&self) -> (r: Option<u8>) {
        let v = collect_ascii_units(self);
        if v.len() == 0 {
            None
        } else {
            Some(v[0])
        }
    }

    fn units(&self) -> (r: Vec<u8>) {
        collect_ascii_units(self)
    }

    fn lowercased(&self) -> (r: Vec<u8>) {
        let v = collect_ascii_units(self);
        let mut r: Vec<u8> = Vec::new();
        let mut i: usize = 0;
        while i < v.len()
            invariant
                i <= v@.len(),
                r@.len() == i,
                forall|k: int| 0 <= k < i ==> (#[trigger] r@[k]) == ascii_byte_lower(v@[k]),
            decreases v@.len() - i,
        {
            let b = v[i];
            let low: u8 = if 0x41 <= b && b <= 0x5a {
                b + 0x20
            } else {
                b
            };
            r.push(low);
            i = i + 1;
        }
        proof {
            assert(r@ =~= ascii_units(self.spec_bytes()).map_values(
                |b: u8| ascii_byte_lower(b),
            ));
        }
        r
    }
}

} // verus!
