//! The character layer: control characters of the pattern syntax, small
//! utilities shared by the byte (ASCII) and the Unicode representation of a
//! query, and helpers that move between `&str`, `Vec<char>` and `String`.

use vstd::prelude::*;
use vstd::string::StrSliceExecFns;
use vstd::string::StringExecFns;

verus! {

/// The lowercase mapping of a character, as `char::to_lowercase` yields it:
/// one or more characters, determined by the character alone.
pub uninterp spec fn lowercase_chars(c: char) -> Seq<char>;

/// The Unicode `White_Space` property of a character, as `char::is_whitespace`
/// reports it.
pub uninterp spec fn unicode_whitespace(c: char) -> bool;

/// True when the character lies in the ASCII range.
pub open spec fn spec_char_is_ascii(c: char) -> bool {
    (c as u32) < 0x80
}

/// The ASCII lowercase mapping: `A`..`Z` map to `a`..`z`, everything else is
/// unchanged.
pub open spec fn ascii_lower(c: char) -> char {
    if 0x41 <= (c as u32) && (c as u32) <= 0x5a {
        (((c as u32) + 0x20) as u8) as char
    } else {
        c
    }
}

/// Relies on `char::to_lowercase`: the lowercase mapping of a character is a
/// function of the character alone with at least one resulting character, and
/// on ASCII characters it is the classic `A`..`Z` to `a`..`z` mapping.
#[verifier::external_body]
pub fn to_lowercase_chars(c: char) -> (r: Vec<char>)
    ensures
        r@ == lowercase_chars(c),
        r@.len() >= 1,
        spec_char_is_ascii(c) ==> r@ == seq![ascii_lower(c)],
{
    c.to_lowercase().collect()
}

/// Relies on `char::is_whitespace`: reports the Unicode `White_Space`
/// property, which on the ASCII range holds exactly of space and of the five
/// control characters `0x09`..`0x0d`.
#[verifier::external_body]
pub fn is_whitespace_char(c: char) -> (r: bool)
    ensures
        r == unicode_whitespace(c),
        spec_char_is_ascii(c) ==> r == ((c as u32) == 0x20 || (0x09 <= (c as u32) && (c as u32)
            <= 0x0d)),
{
    c.is_whitespace()
}

/// Relies on `ToString::to_string` for `char`: the resulting string holds
/// exactly that character.
#[verifier::external_body]
pub fn char_to_string(c: char) -> (r: String)
    ensures
        r@ == seq![c],
{
    c.to_string()
}

/// The characters of a string slice, as an owned vector.
pub fn str_to_chars(s: &str) -> (r: Vec<char>)
    ensures
        r@ == s@,
{
    let n = s.unicode_len();
    let mut r: Vec<char> = Vec::new();
    let mut i: usize = 0;
    while i < n
        invariant
            n == s@.len(),
            i <= n,
            r@ == s@.subrange(0, i as int),
        decreases n - i,
    {
        r.push(s.get_char(i));
        i = i + 1;
        proof {
            assert(r@ =~= s@.subrange(0, i as int));
        }
    }
    proof {
        assert(r@ =~= s@);
    }
    r
}

/// True when the vector holds exactly the characters of the string slice.
pub fn chars_eq_str(v: &Vec<char>, s: &str) -> (r: bool)
    ensures
        r == (v@ == s@),
{
    let n = s.unicode_len();
    if v.len() != n {
        proof {
            assert(v@ != s@);
        }
        return false;
    }
    let mut i: usize = 0;
    while i < n
        invariant
            n == s@.len(),
            v@.len() == n,
            i <= n,
            forall|j: int| 0 <= j < i ==> v@[j] == s@[j],
        decreases n - i,
    {
        if v[i] != s.get_char(i) {
            proof {
                assert(v@[i as int] != s@[i as int]);
                assert(v@ != s@);
            }
            return false;
        }
        i = i + 1;
    }
    proof {
        assert(v@ =~= s@);
    }
    true
}

/// True when the vector holds the character.
pub fn contains_char(v: &Vec<char>, c: char) -> (r: bool)
    ensures
        r == v@.contains(c),
{
    let mut i: usize = 0;
    while i < v.len()
        invariant
            i <= v@.len(),
            forall|j: int| 0 <= j < i ==> v@[j] != c,
        decreases v@.len() - i,
    {
        if v[i] == c {
            return true;
        }
        i = i + 1;
    }
    proof {
        if v@.contains(c) {
            let j = choose|j: int| 0 <= j < v@.len() && v@[j] == c;
        }
    }
    false
}

/// True when the two vectors hold the same characters.
pub fn chars_eq(a: &Vec<char>, b: &Vec<char>) -> (r: bool)
    ensures
        r == (a@ == b@),
{
    if a.len() != b.len() {
        proof {
            assert(a@ != b@);
        }
        return false;
    }
    let mut i: usize = 0;
    while i < a.len()
        invariant
            a@.len() == b@.len(),
            i <= a@.len(),
            forall|j: int| 0 <= j < i ==> a@[j] == b@[j],
        decreases a@.len() - i,
    {
        if a[i] != b[i] {
            proof {
                assert(a@ != b@);
            }
            return false;
        }
        i = i + 1;
    }
    proof {
        assert(a@ =~= b@);
    }
    true
}

/// A `String` holding exactly the given characters.
pub fn chars_to_string(v: &Vec<char>) -> (r: String)
    ensures
        r@ == v@,
{
    let mut r = String::new();
    let mut i: usize = 0;
    while i < v.len()
        invariant
            i <= v@.len(),
            r@ == v@.subrange(0, i as int),
        decreases v@.len() - i,
    {
        let piece = char_to_string(v[i]);
        r.append(piece.as_str());
        i = i + 1;
        proof {
            assert(r@ =~= v@.subrange(0, i as int));
        }
    }
    proof {
        assert(r@ =~= v@);
    }
    r
}

/// The control characters of the pattern syntax, for one character
/// representation: a canonical wildcard, its accepted aliases, and the
/// characters that are reserved and may never occur in a corpus word.
pub trait ControlChars: Sized + Copy {
    /// The canonical wildcard value.
    spec fn spec_wildcard() -> Self;

    /// True of the canonical wildcard and of its two aliases.
    spec fn spec_is_wildcard(self) -> bool;

    /// True of the wildcard, its aliases, NUL and newline.
    spec fn spec_is_reserved(self) -> bool;

    fn wildcard() -> (r: Self)
        ensures
            r == Self::spec_wildcard();

    fn is_wildcard(self) -> (r: bool)
        ensures
            r == self.spec_is_wildcard();

    fn is_normalised_wildcard(self) -> (r: bool)
        ensures
            r == (self == Self::spec_wildcard());

    fn is_reserved(self) -> (r: bool)
        ensures
            r == self.spec_is_reserved();

    fn normalise_wildcard(self) -> (r: Self)
        ensures
            r == (if self.spec_is_wildcard() {
                Self::spec_wildcard()
            } else {
                self
            });
}

impl ControlChars for char {
    open spec fn spec_wildcard() -> char {
        '_'
    }

    open spec fn spec_is_wildcard(self) -> bool {
        self == '_' || self == '#' || self == '?'
    }

    open spec fn spec_is_reserved(self) -> bool {
        self.spec_is_wildcard() || self == '\0' || self == '\n'
    }

    fn wildcard() -> (r: char) {
        '_'
    }

    fn is_wildcard(self) -> (r: bool) {
        self == '_' || self == '#' || self == '?'
    }

    fn is_normalised_wildcard(self) -> (r: bool) {
        self == '_'
    }

    fn is_reserved(self) -> (r: bool) {
        self == '_' || self == '#' || self == '?' || self == '\0' || self == '\n'
    }

    fn normalise_wildcard(self) -> (r: char) {
        if self == '#' || self == '?' {
            '_'
        } else {
            self
        }
    }
}

impl ControlChars for u8 {
    open spec fn spec_wildcard() -> u8 {
        0x5f
    }

    open spec fn spec_is_wildcard(self) -> bool {
        self == 0x5f || self == 0x23 || self == 0x3f
    }

    open spec fn spec_is_reserved(self) -> bool {
        self.spec_is_wildcard() || self == 0x00 || self == 0x0a
    }

    fn wildcard() -> (r: u8) {
        0x5f
    }

    fn is_wildcard(self) -> (r: bool) {
        self == 0x5f || self == 0x23 || self == 0x3f
    }

    fn is_normalised_wildcard(self) -> (r: bool) {
        self == 0x5f
    }

    fn is_reserved(self) -> (r: bool) {
        self == 0x5f || self == 0x23 || self == 0x3f || self == 0x00 || self == 0x0a
    }

    fn normalise_wildcard(self) -> (r: u8) {
        if self == 0x23 || self == 0x3f {
            0x5f
        } else {
            self
        }
    }
}

/// Small conversions shared by the byte and the Unicode representation of a
/// query character.
pub trait CharUtils: Sized + Copy {
    /// True when the value counts as whitespace in its representation.
    spec fn spec_is_whitespace(self) -> bool;

    /// The Unicode character the value stands for.
    spec fn spec_to_char(self) -> char;

    fn is_whitespace(self) -> (r: bool)
        ensures
            r == self.spec_is_whitespace();

    fn to_char(self) -> (r: char)
        ensures
            r == self.spec_to_char();

    fn is_ascii(self) -> (r: bool);

    fn to_ascii_char(self) -> (r: Option<u8>)
        ensures
            match r {
                Some(b) => spec_char_is_ascii(self.spec_to_char()) && b == (self.spec_to_char()
                    as u8),
                None => !spec_char_is_ascii(self.spec_to_char()),
            };
}

impl CharUtils for char {
    open spec fn spec_is_whitespace(self) -> bool {
        unicode_whitespace(self)
    }

    open spec fn spec_to_char(self) -> char {
        self
    }

    fn is_whitespace(self) -> (r: bool) {
        is_whitespace_char(self)
    }

    fn to_char(self) -> (r: char) {
        self
    }

    fn is_ascii(self) -> (r: bool)
        ensures
            r == spec_char_is_ascii(self),
    {
        (self as u32) < 0x80
    }

    fn to_ascii_char(self) -> (r: Option<u8>) {
        if (self as u32) < 0x80 {
            Some(self as u8)
        } else {
            None
        }
    }
}

impl CharUtils for u8 {
    open spec fn spec_is_whitespace(self) -> bool {
        self == 0x20 || (0x09 <= self && self <= 0x0d)
    }

    open spec fn spec_to_char(self) -> char {
        self as char
    }

    fn is_whitespace(self) -> (r: bool) {
        self == 0x20 || (0x09 <= self && self <= 0x0d)
    }

    fn to_char(self) -> (r: char) {
        self as char
    }

    fn is_ascii(self) -> (r: bool)
        ensures
            r,
    {
        true
    }

    fn to_ascii_char(self) -> (r: Option<u8>) {
        if self < 0x80 {
            Some(self)
        } else {
            None
        }
    }
}

} // verus!
