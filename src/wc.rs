//! Line, word, byte and character counts.

use crate::decimal::{decimal_digits, pad_left, right_aligned};
use crate::tail::{count_lines_bytes, line_count};
use vstd::prelude::*;
use vstd::std_specs::iter::IteratorSpec;
use vstd::string::*;

verus! {

/// The counts of one input.
#[derive(Debug, Clone, Copy, PartialEq, Eq, Structural)]
pub struct FileInfo {
    pub num_lines: usize,
    pub num_words: usize,
    pub num_bytes: usize,
    pub num_chars: usize,
}

/// The characters with the Unicode `White_Space` property, which is what
/// `char::is_whitespace` tests.
pub open spec fn is_white(c: char) -> bool {
    let v = c as u32;
    (0x9 <= v && v <= 0xd) || v == 0x20 || v == 0x85 || v == 0xa0 || v == 0x1680 || (0x2000 <= v
        && v <= 0x200a) || v == 0x2028 || v == 0x2029 || v == 0x202f || v == 0x205f || v == 0x3000
}

fn white(c: char) -> (r: bool)
    ensures
        r == is_white(c),
{
    let v = c as u32;
    (0x9 <= v && v <= 0xd) || v == 0x20 || v == 0x85 || v == 0xa0 || v == 0x1680 || (0x2000 <= v
        && v <= 0x200a) || v == 0x2028 || v == 0x2029 || v == 0x202f || v == 0x205f || v == 0x3000
}

/// The number of words: maximal runs of characters that are not white space.
pub open spec fn word_count(s: Seq<char>) -> int
    decreases s.len(),
{
    if s.len() == 0 {
        0
    } else {
        word_count(s.drop_last()) + if !is_white(s.last()) && (s.len() == 1 || is_white(
            s[s.len() - 2],
        )) {
            1int
        } else {
            0
        }
    }
}

/// Relies on `std::str::from_utf8`: the text whose UTF-8 encoding the
/// bytes are, where they are valid UTF-8.
#[verifier::external_body]
fn utf8_text(b: &[u8]) -> (r: Option<&str>)
    ensures
        match r {
            Some(s) => s.spec_bytes() == b@,
            None => !vstd::utf8::valid_utf8(b@),
        },
{
    std::str::from_utf8(b).ok()
}

/// Counts the lines, words, bytes and characters of an input, which must
/// be UTF-8 text.
pub fn count(data: &[u8]) -> (r: Result<FileInfo, String>)
    requires
        data@.len() <= i64::MAX,
    ensures
        match r {
            Ok(info) => exists|s: Seq<char>|
                #![trigger vstd::utf8::encode_utf8(s)]
                vstd::utf8::encode_utf8(s) == data@ && info.num_lines == line_count(data@)
                    && info.num_words == word_count(s) && info.num_bytes == data@.len()
                    && info.num_chars == s.len(),
            Err(_) => !vstd::utf8::valid_utf8(data@),
        },
{
    let text = match utf8_text(data) {
        Some(t) => t,
        None => return Err(String::from_str("stream did not contain valid UTF-8")),
    };
    let (lines, bytes) = count_lines_bytes(data);
    let num_chars = text.unicode_len();
    let ghost cs = text@;
    let mut it = text.chars();
    let mut i: usize = 0;
    let mut words: usize = 0;
    let mut after_white = true;
    while i < num_chars
        invariant
            num_chars == cs.len(),
            i <= num_chars,
            words <= i,
            it.remaining() == cs.skip(i as int),
            words == word_count(cs.take(i as int)),
            after_white == (i == 0 || is_white(cs[i - 1])),
        decreases num_chars - i,
    {
        let c = match it.next() {
            Some(c) => c,
            None => {
                assert(false);
                ' '
            },
        };
        assert(c == cs[i as int]);
        let w = white(c);
        let ghost p = cs.take(i + 1);
        assert(p.drop_last() =~= cs.take(i as int));
        if !w && after_white {
            words = words + 1;
        }
        after_white = w;
        assert(cs.skip(i as int).drop_first() =~= cs.skip(i + 1));
        i = i + 1;
    }
    assert(cs.take(num_chars as int) =~= cs);
    assert(vstd::utf8::encode_utf8(cs) == data@);
    Ok(FileInfo { num_lines: lines as usize, num_words: words, num_bytes: data.len(), num_chars })
}

/// A count right-aligned in eight columns, or nothing where it is not shown.
pub fn format_field(value: usize, show: bool) -> (r: String)
    ensures
        r@ == (if show {
            pad_left(decimal_digits(value as nat), 8)
        } else {
            Seq::empty()
        }),
{
    if show {
        right_aligned(value as u64, 8)
    } else {
        String::new()
    }
}

} // verus!
