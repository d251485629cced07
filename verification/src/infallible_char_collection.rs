//! A uniform view of the character sources whose decoding cannot fail:
//! native strings and character vectors. Host-embedded strings whose
//! decoding can fail are the calling shell's concern; it hands the library
//! plain values.

use vstd::prelude::*;
use vstd::string::StrSliceExecFns;

use crate::chars::str_to_chars;

verus! {

/// Read-only access to a sequence of characters.
pub trait InfallibleCharCollection {
    /// The characters of the collection.
    spec fn spec_chars(&self) -> Seq<char>;

    fn char_count(&self) -> (r: usize)
        ensures
            r == self.spec_chars().len();

    fn first_char(&self) -> (r: Option<char>)
        ensures
            r == (if self.spec_chars().len() > 0 {
                Some(self.spec_chars()[0])
            } else {
                None
            });

    fn chars_vec(&self) -> (r: Vec<char>)
        ensures
            r@ == self.spec_chars();
}

impl InfallibleCharCollection for str {
    open spec fn spec_chars(&self) -> Seq<char> {
        self@
    }

    fn char_count(&self) -> (r: usize) {
        self.unicode_len()
    }

    fn first_char(&self) -> (r: Option<char>) {
        if self.unicode_len() == 0 {
            None
        } else {
            Some(self.get_char(0))
        }
    }

    fn chars_vec(&self) -> (r: Vec<char>) {
        str_to_chars(self)
    }
}

impl InfallibleCharCollection for String {
    open spec fn spec_chars(&self) -> Seq<char> {
        self@
    }

    fn char_count(&self) -> (r: usize) {
        self.as_str().unicode_len()
    }

    fn first_char(&self) -> (r: Option<char>) {
        if self.as_str().unicode_len() == 0 {
            None
        } else {
            Some(self.as_str().get_char(0))
        }
    }

    fn chars_vec(&self) -> (r: Vec<char>) {
        str_to_chars(self.as_str())
    }
}

impl InfallibleCharCollection for Vec<char> {
    open spec fn spec_chars(&self) -> Seq<char> {
        self@
    }

    fn char_count(&self) -> (r: usize) {
        self.len()
    }

    fn first_char(&self) -> (r: Option<char>) {
        if self.len() == 0 {
            None
        } else {
            Some(self[0])
        }
    }

    fn chars_vec(&self) -> (r: Vec<char>) {
        let mut r: Vec<char> = Vec::new();
        let mut i: usize = 0;
        while i < self.len()
            invariant
                i <= self@.len(),
                r@ == self@.take(i as int),
            decreases self@.len() - i,
        {
            r.push(self[i]);
            i = i + 1;
            proof {
                assert(r@ =~= self@.take(i as int));
            }
        }
        proof {
            assert(r@ =~= self@);
        }
        r
    }
}

} // verus!
