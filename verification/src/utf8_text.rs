//! Byte-level facts about UTF-8 text that the path handling relies on, and the
//! two conversions from bytes to text that std performs for us.
use vstd::prelude::*;
use vstd::utf8::*;
use vstd::string::StringSliceAdditionalSpecFns;

verus! {

/// ASCII backslash, the separator of Windows paths.
pub const BACKSLASH: u8 = 0x5c;

/// The text whose UTF-8 encoding is `bytes` (meaningful when `bytes` is valid UTF-8).
pub open spec fn text_of(bytes: Seq<u8>) -> Seq<char> {
    decode_utf8(bytes)
}

/// In valid UTF-8, an ASCII byte always starts a character.
pub proof fn lemma_ascii_is_boundary(s: Seq<u8>, i: int)
    requires
        valid_utf8(s),
        0 <= i < s.len(),
        s[i] < 0x80,
    ensures
        is_char_boundary(s, i),
    decreases s.len(),
{
    if i == 0 {
    } else {
        let l = length_of_first_scalar(s);
        assert(1 <= l <= 4);
        if i < l {
            // every byte of the first scalar after its first is a continuation byte
            assert(is_continuation_byte(s[i]));
            assert(false);
        } else {
            let rest = pop_first_scalar(s);
            assert(rest.len() == s.len() - l);
            assert(rest[i - l] == s[i]);
            lemma_ascii_is_boundary(rest, i - l);
        }
    }
}

/// In valid UTF-8, the byte after an ASCII byte starts a character, or ends the text.
pub proof fn lemma_next_boundary_after_ascii(s: Seq<u8>, i: int)
    requires
        valid_utf8(s),
        0 <= i < s.len(),
        s[i] < 0x80,
    ensures
        is_char_boundary(s, i + 1),
    decreases s.len(),
{
    let l = length_of_first_scalar(s);
    if i == 0 {
        assert(l == 1);
        assert(is_char_boundary(pop_first_scalar(s), 0));
    } else {
        if i < l {
            assert(is_continuation_byte(s[i]));
            assert(false);
        } else {
            let rest = pop_first_scalar(s);
            assert(rest[i - l] == s[i]);
            lemma_next_boundary_after_ascii(rest, i - l);
        }
    }
}

/// Cutting valid UTF-8 around an ASCII byte leaves valid UTF-8 on both sides.
pub proof fn lemma_split_at_ascii(s: Seq<u8>, i: int)
    requires
        valid_utf8(s),
        0 <= i < s.len(),
        s[i] < 0x80,
    ensures
        valid_utf8(s.subrange(0, i)),
        valid_utf8(s.subrange(i, s.len() as int)),
        valid_utf8(s.subrange(i + 1, s.len() as int)),
{
    lemma_ascii_is_boundary(s, i);
    valid_utf8_split(s, i);
    let t = s.subrange(i, s.len() as int);
    assert(t[0] == s[i]);
    reveal_with_fuel(valid_utf8, 2);
    assert(pop_first_scalar(t) =~= s.subrange(i + 1, s.len() as int));
}

/// Any prefix of valid UTF-8 that ends just before an ASCII byte, or at the end, is valid.
pub proof fn lemma_prefix_before_ascii(s: Seq<u8>, i: int)
    requires
        valid_utf8(s),
        0 <= i <= s.len(),
        i < s.len() ==> s[i] < 0x80,
    ensures
        valid_utf8(s.subrange(0, i)),
        is_char_boundary(s, i),
{
    is_char_boundary_start_end_of_seq(s);
    if i < s.len() {
        lemma_split_at_ascii(s, i);
        lemma_ascii_is_boundary(s, i);
    } else {
        assert(s.subrange(0, i) =~= s);
    }
}

/// Reads `bytes` as UTF-8 text, as `std::str::from_utf8` does.
#[verifier::external_body]
pub(crate) fn utf8_str(bytes: &[u8]) -> (r: Option<&str>)
    ensures
        r is Some <==> valid_utf8(bytes@),
        r matches Some(s) ==> s.spec_bytes() == bytes@,
{
    std::str::from_utf8(bytes).ok()
}

/// Turns `bytes` into an owned text, as `String::from_utf8` does.
#[verifier::external_body]
pub(crate) fn utf8_string(bytes: Vec<u8>) -> (r: Option<String>)
    ensures
        r is Some <==> valid_utf8(bytes@),
        r matches Some(s) ==> s@ == decode_utf8(bytes@),
{
    String::from_utf8(bytes).ok()
}

} // verus!
