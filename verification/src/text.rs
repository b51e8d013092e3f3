//! Reading text one character at a time.

use vstd::prelude::*;
use vstd::utf8::*;

verus! {

/// The number of bytes that `c` takes in UTF-8.
pub open spec fn width(c: char) -> nat {
    encode_scalar(c as u32).len()
}

/// The number of bytes that `c` takes in UTF-8.
fn char_width(c: char) -> (n: usize)
    ensures
        n == width(c),
        1 <= n <= 4,
{
    let v: u32 = c as u32;
    if v < 0x80 {
        1
    } else if v < 0x800 {
        2
    } else if v < 0x10000 {
        3
    } else {
        4
    }
}

/// The encoding of a text is that of its first character followed by that of
/// the rest, which starts at a character boundary.
proof fn lemma_encode_first(text: Seq<char>)
    requires
        text.len() > 0,
    ensures
        encode_utf8(text) == encode_scalar(text[0] as u32) + encode_utf8(text.drop_first()),
        encode_utf8(text).len() == width(text[0]) + encode_utf8(text.drop_first()).len(),
        is_char_boundary(encode_utf8(text), width(text[0]) as int),
        encode_utf8(text).subrange(width(text[0]) as int, encode_utf8(text).len() as int)
            == encode_utf8(text.drop_first()),
{
    let bytes = encode_utf8(text);
    encode_utf8_first_scalar(text);
    encode_utf8_valid_utf8(text);
    encode_utf8_valid_utf8(text.drop_first());
    assert(pop_first_scalar(bytes) =~= encode_utf8(text.drop_first()));
    assert(width(text[0]) > 0);
    reveal_with_fuel(is_char_boundary, 2);
}

/// Splits `input` into its first character and the rest; `None` where it is
/// empty.
pub fn first_char<'a>(input: &'a str) -> (r: Option<(char, &'a str)>)
    ensures
        input@.len() == 0 ==> r is None,
        input@.len() > 0 ==> (r matches Some((c, rest)) && c == input@[0] && rest@
            == input@.drop_first()),
{
    let mut chars = input.chars();
    match chars.next() {
        None => None,
        Some(c) => {
            proof {
                lemma_encode_first(input@);
            }
            let (_, rest) = input.split_at(char_width(c));
            proof {
                encode_utf8_decode_utf8(rest@);
                encode_utf8_decode_utf8(input@.drop_first());
            }
            Some((c, rest))
        },
    }
}

/// Dropping the first `k` characters of a text never makes its encoding
/// longer, and makes it shorter exactly where `k` is positive.
pub proof fn lemma_skip_shrinks(text: Seq<char>, k: int)
    requires
        0 <= k <= text.len(),
    ensures
        encode_utf8(text.skip(k)).len() <= encode_utf8(text).len(),
        encode_utf8(text.skip(k)).len() < encode_utf8(text).len() <==> k > 0,
    decreases k,
{
    if k == 0 {
        assert(text.skip(0) =~= text);
    } else {
        lemma_encode_first(text);
        assert(text.skip(k) =~= text.drop_first().skip(k - 1));
        lemma_skip_shrinks(text.drop_first(), k - 1);
    }
}

} // verus!
