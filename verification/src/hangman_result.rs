//! The output record of one query, and its plain-text rendering.

use vstd::prelude::*;
use vstd::string::StringExecFns;
use vstd::string::StringSliceAdditionalSpecFns;

use crate::chars::{char_to_string, chars_to_string};
use crate::language::Language;

verus! {

/// What one query returns: the normalized pattern text, the effective
/// excluded letters (sorted ascending), the total number of matching words,
/// a bounded sample of them, and the ranked letter frequencies over the
/// whole match set.
pub struct HangmanResult {
    pub input: String,
    pub invalid: Vec<char>,
    pub matching_words_count: u32,
    pub possible_words: Vec<String>,
    pub language: Language,
    pub letter_frequency: Vec<(char, u32)>,
}

/// The decimal digit character of a value below ten.
pub open spec fn digit_char(d: nat) -> char {
    ((0x30 + d) as u8) as char
}

/// The decimal rendering of a number, most significant digit first.
pub open spec fn dec_digits(n: nat) -> Seq<char>
    decreases n,
{
    if n < 10 {
        seq![digit_char(n)]
    } else {
        dec_digits(n / 10).push(digit_char(n % 10))
    }
}

/// Appends the decimal rendering of `n`.
fn push_dec(n: u32, out: &mut String)
    ensures
        final(out)@ == old(out)@ + dec_digits(n as nat),
    decreases n,
{
    if n >= 10 {
        push_dec(n / 10, out);
    }
    let d: u8 = 0x30 + ((n % 10) as u8);
    let piece = char_to_string(d as char);
    out.append(piece.as_str());
    proof {
        if n < 10 {
            assert(old(out)@ + dec_digits(n as nat) =~= old(out)@ + seq![
                digit_char(n as nat),
            ]);
            assert(out@ =~= old(out)@ + dec_digits(n as nat));
        } else {
            assert(out@ =~= old(out)@ + dec_digits(n as nat));
        }
    }
}

/// The decimal rendering of a number, as a string.
pub fn u32_to_string(n: u32) -> (r: String)
    ensures
        r@ == dec_digits(n as nat),
{
    let mut r = String::new();
    push_dec(n, &mut r);
    proof {
        assert(r@ =~= dec_digits(n as nat));
    }
    r
}

/// What the joining loop produces from item `i` on, having already built
/// `acc`: items are added with the separator until the line budget `max`
/// would be overrun, and then an ellipsis ends the line. The budget counts
/// the characters of the line so far and of the next item, the bytes of
/// the separator, and a reserve for a possible ellipsis.
pub open spec fn join_spec(
    items: Seq<Seq<char>>,
    sep: Seq<char>,
    sep_bytes: int,
    max: int,
    i: int,
    acc: Seq<char>,
) -> Seq<char>
    decreases items.len() - i,
{
    if i < 0 || i >= items.len() {
        acc
    } else {
        let cur_sep: Seq<char> = if i == 0 {
            Seq::empty()
        } else {
            sep
        };
        let cur_sep_bytes: int = if i == 0 {
            0
        } else {
            sep_bytes
        };
        let min_next: int = if i == items.len() - 1 {
            0
        } else {
            sep_bytes + 3
        };
        if acc.len() + cur_sep_bytes + items[i].len() + min_next > max {
            acc + cur_sep + seq!['.', '.', '.']
        } else {
            join_spec(items, sep, sep_bytes, max, i + 1, acc + cur_sep + items[i])
        }
    }
}

/// Joins the strings with the separator, staying within `max_len`
/// characters by ending with an ellipsis once the next item would not fit.
pub fn join_with_max_length(strings: &Vec<String>, sep: &str, max_len: usize) -> (r: String)
    requires
        strings@.len() >= 1,
    ensures
        r@ == join_spec(
            strings@.map_values(|s: String| s@),
            sep@,
            (sep.spec_bytes().len() as usize) as int,
            max_len as int,
            0,
            Seq::empty(),
        ),
{
    let ghost items = strings@.map_values(|s: String| s@);
    let sep_bytes = sep.len();
    let last_index = strings.len() - 1;
    let mut string = String::new();
    let mut i: usize = 0;
    while i < strings.len()
        invariant
            strings@.len() >= 1,
            items == strings@.map_values(|s: String| s@),
            last_index == strings@.len() - 1,
            sep_bytes == sep.spec_bytes().len() as usize,
            i <= strings@.len(),
            join_spec(items, sep@, sep_bytes as int, max_len as int, 0, Seq::empty())
                == join_spec(items, sep@, sep_bytes as int, max_len as int, i as int, string@),
        decreases strings@.len() - i,
    {
        let item = &strings[i];
        let cur_sep_bytes: u128 = if i == 0 {
            0
        } else {
            sep_bytes as u128
        };
        let min_next: u128 = if i == last_index {
            0
        } else {
            sep_bytes as u128 + 3
        };
        let item_chars = item.as_str().unicode_len();
        let line_chars = string.as_str().unicode_len();
        if line_chars as u128 + cur_sep_bytes + item_chars as u128 + min_next > max_len as u128 {
            if i != 0 {
                string.append(sep);
            }
            string.append("...");
            proof {
                assert(("...")@ =~= seq!['.', '.', '.']) by {
                    reveal_strlit("...");
                }
                assert(items[i as int] == strings@[i as int]@);
            }
            return string;
        }
        if i != 0 {
            string.append(sep);
        }
        string.append(item.as_str());
        proof {
            assert(items[i as int] == strings@[i as int]@);
        }
        i = i + 1;
    }
    string
}

/// The fixed pieces of the rendering.
pub open spec fn render_head(r: HangmanResult) -> Seq<char> {
    "Found "@ + dec_digits(r.matching_words_count as nat) + " words (input: "@ + r.input@
        + ", invalid: "@ + r.invalid@ + ")"@
}

/// The item strings of the letter line: each letter with its count.
pub open spec fn letter_items(entries: Seq<(char, u32)>) -> Seq<Seq<char>> {
    entries.map_values(|e: (char, u32)| seq![e.0] + ": "@ + dec_digits(e.1 as nat))
}

/// The whole rendering: the heading; then, if any word matched, a line
/// with the sample words; then, if any letter remains ranked, a line with
/// the letter frequencies. Long lines end in an ellipsis within the width.
pub open spec fn render_result(r: HangmanResult, width: int) -> Seq<char> {
    let head = render_head(r);
    if r.possible_words@.len() == 0 {
        head
    } else {
        let words_line = head + seq!['\n'] + " words:   "@ + join_spec(
            r.possible_words@.map_values(|s: String| s@),
            ", "@,
            2,
            width - 10,
            0,
            Seq::empty(),
        );
        if r.letter_frequency@.len() == 0 {
            words_line
        } else {
            words_line + seq!['\n'] + " letters: "@ + join_spec(
                letter_items(r.letter_frequency@),
                ", "@,
                2,
                width - 10,
                0,
                Seq::empty(),
            )
        }
    }
}

impl HangmanResult {
    /// Renders the result for a line width, as the command-line shell
    /// prints it.
    pub fn format_with_width(&self, max_line_length: usize) -> (r: String)
        requires
            max_line_length >= 10,
        ensures
            r@ == render_result(*self, max_line_length as int),
    {
        let mut out = String::new();
        out.append("Found ");
        let count = u32_to_string(self.matching_words_count);
        out.append(count.as_str());
        out.append(" words (input: ");
        out.append(self.input.as_str());
        out.append(", invalid: ");
        let inv = chars_to_string(&self.invalid);
        out.append(inv.as_str());
        out.append(")");
        if self.possible_words.len() == 0 {
            proof {
                assert(out@ =~= render_result(*self, max_line_length as int));
            }
            return out;
        }
        out.append("\n");
        out.append(" words:   ");
        let words = join_with_max_length(&self.possible_words, ", ", max_line_length - 10);
        out.append(words.as_str());
        proof {
            assert((", ")@ =~= seq![',', ' ']) by {
                reveal_strlit(", ");
            }
            assert(("\n")@ =~= seq!['\n']) by {
                reveal_strlit("\n");
            }
            assert((", ").spec_bytes().len() == 2) by {
                reveal_strlit(", ");
                vstd::utf8::is_ascii_chars_encode_utf8((", ")@);
            }
        }
        if self.letter_frequency.len() == 0 {
            proof {
                assert(out@ =~= render_result(*self, max_line_length as int));
            }
            return out;
        }
        out.append("\n");
        out.append(" letters: ");
        // Build the letter items: each entry as "x: n".
        let mut pieces: Vec<String> = Vec::new();
        let mut i: usize = 0;
        while i < self.letter_frequency.len()
            invariant
                i <= self.letter_frequency@.len(),
                pieces@.len() == i,
                forall|k: int|
                    0 <= k < i ==> (#[trigger] pieces@[k])@ == letter_items(
                        self.letter_frequency@,
                    )[k],
        decreases self.letter_frequency@.len() - i,
        {
            let e = self.letter_frequency[i];
            let mut piece = char_to_string(e.0);
            piece.append(": ");
            let num = u32_to_string(e.1);
            piece.append(num.as_str());
            proof {
                assert((": ")@ =~= seq![':', ' ']) by {
                    reveal_strlit(": ");
                }
                assert(piece@ =~= letter_items(self.letter_frequency@)[i as int]);
            }
            pieces.push(piece);
            i = i + 1;
        }
        let letters = join_with_max_length(&pieces, ", ", max_line_length - 10);
        out.append(letters.as_str());
        proof {
            assert(pieces@.map_values(|s: String| s@) =~= letter_items(self.letter_frequency@));
            assert(out@ =~= render_result(*self, max_line_length as int));
        }
        out
    }
}

} // verus!
