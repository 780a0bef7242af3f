//! Splitting a string of the form `<left><separator><right>` and parsing its
//! two halves.
//!
//! Strings are seen both as characters (`s@`) and as their UTF-8 bytes
//! (`s.spec_bytes()`): positions handed to and from `std` are byte offsets.

use vstd::prelude::*;
use vstd::string::StringSliceAdditionalSpecFns;
use vstd::utf8::{decode_utf8, encode_scalar, encode_utf8, is_char_boundary, valid_utf8};

verus! {

/// Byte offset at which character number `n` of `chars` starts in the UTF-8
/// text of `chars`.
pub open spec fn byte_offset(chars: Seq<char>, n: int) -> int {
    encode_utf8(chars.take(n)).len() as int
}

/// Byte offset of the first occurrence of `needle` in the UTF-8 text of
/// `chars`, if there is one.
pub open spec fn first_offset(chars: Seq<char>, needle: char) -> Option<int> {
    match chars.index_of_first(needle) {
        Some(n) => Some(byte_offset(chars, n)),
        None => None,
    }
}

/// `start` and `rest` are what lies before and after the first occurrence of
/// `separator` in `chars`.
pub open spec fn split_around(
    chars: Seq<char>,
    separator: char,
    start: Seq<char>,
    rest: Seq<char>,
) -> bool {
    &&& chars == start + seq![separator] + rest
    &&& !start.contains(separator)
}

/// The separator can be cut out of the string byte-wise: it takes one byte in
/// UTF-8, or does not occur at all.
pub open spec fn cuttable(chars: Seq<char>, separator: char) -> bool {
    chars.contains(separator) ==> (separator as u32) < 0x80
}

/// A string is cut around its first separator in one way only: the first half
/// ends where the separator first occurs, the second begins behind it.
pub proof fn lemma_split_around_unique(
    chars: Seq<char>,
    separator: char,
    start: Seq<char>,
    rest: Seq<char>,
)
    requires
        split_around(chars, separator, start, rest),
    ensures
        chars.index_of_first(separator) == Some(start.len() as int),
        start == chars.take(start.len() as int),
        rest == chars.skip(start.len() as int + 1),
{
    let n = start.len() as int;
    assert(chars[n] == separator);
    assert(start =~= chars.take(n));
    assert(rest =~= chars.skip(n + 1));
    chars.index_of_first_ensures(separator);
    let first = chars.index_of_first(separator).unwrap();
    if first < n {
        assert(start[first] == separator);
    }
}

/// UTF-8 encoding distributes over concatenation.
pub proof fn lemma_encode_concat(left: Seq<char>, right: Seq<char>)
    ensures
        encode_utf8(left + right) == encode_utf8(left) + encode_utf8(right),
    decreases left.len(),
{
    if left.len() == 0 {
        assert(left + right =~= right);
        assert(encode_utf8(left) + encode_utf8(right) =~= encode_utf8(right));
    } else {
        let tail = left.drop_first();
        lemma_encode_concat(tail, right);
        assert((left + right).drop_first() =~= tail + right);
        assert((left + right)[0] == left[0]);
        assert(encode_utf8(left + right) =~= encode_scalar(left[0] as u32) + (encode_utf8(tail)
            + encode_utf8(right)));
        assert(encode_utf8(left) + encode_utf8(right) =~= encode_scalar(left[0] as u32) + (
            encode_utf8(tail) + encode_utf8(right)));
    }
}

/// Every character of a string starts on a character boundary of its UTF-8
/// text, and so does the end of the string.
pub proof fn lemma_offset_is_boundary(chars: Seq<char>, n: int)
    requires
        0 <= n <= chars.len(),
    ensures
        0 <= byte_offset(chars, n) <= encode_utf8(chars).len(),
        n < chars.len() ==> byte_offset(chars, n) < encode_utf8(chars).len(),
        is_char_boundary(encode_utf8(chars), byte_offset(chars, n)),
        encode_utf8(chars).subrange(0, byte_offset(chars, n)) == encode_utf8(chars.take(n)),
        encode_utf8(chars).subrange(byte_offset(chars, n), encode_utf8(chars).len() as int)
            == encode_utf8(chars.skip(n)),
{
    broadcast use vstd::utf8::group_utf8_lib;

    let bytes = encode_utf8(chars);
    let offset = byte_offset(chars, n);
    let head = chars.take(n);
    let tail = chars.skip(n);
    assert(chars =~= head + tail);
    lemma_encode_concat(head, tail);
    assert(bytes.subrange(0, offset) =~= encode_utf8(head));
    assert(bytes.subrange(offset, bytes.len() as int) =~= encode_utf8(tail));
    if n < chars.len() {
        vstd::utf8::encode_utf8_first_scalar(tail);
        assert(encode_utf8(tail).len() > 0);
        assert(bytes[offset] == encode_utf8(tail)[0]);
        vstd::utf8::is_char_boundary_iff_is_leading_byte(bytes, offset);
    } else {
        assert(tail =~= Seq::<char>::empty());
        vstd::utf8::is_char_boundary_start_end_of_seq(bytes);
    }
}

/// What lies behind a character boundary is cut at the same boundaries as the
/// whole text.
proof fn lemma_boundary_in_suffix(bytes: Seq<u8>, from: int, to: int)
    requires
        valid_utf8(bytes),
        is_char_boundary(bytes, from),
        is_char_boundary(bytes, to),
        0 <= from <= to <= bytes.len(),
    ensures
        valid_utf8(bytes.subrange(from, bytes.len() as int)),
        is_char_boundary(bytes.subrange(from, bytes.len() as int), to - from),
{
    let suffix = bytes.subrange(from, bytes.len() as int);
    vstd::utf8::valid_utf8_split(bytes, from);
    if to == from || to == bytes.len() {
        vstd::utf8::is_char_boundary_start_end_of_seq(suffix);
    } else {
        vstd::utf8::is_char_boundary_iff_not_is_continuation_byte(bytes, to);
        vstd::utf8::is_char_boundary_iff_not_is_continuation_byte(suffix, to - from);
    }
}

/// A well-formed UTF-8 text of one byte holds one character.
proof fn lemma_single_byte_single_char(bytes: Seq<u8>)
    requires
        valid_utf8(bytes),
        bytes.len() == 1,
    ensures
        decode_utf8(bytes).len() == 1,
{
    reveal_with_fuel(decode_utf8, 2);
    reveal_with_fuel(valid_utf8, 2);
    assert(vstd::utf8::pop_first_scalar(bytes).len() == 0);
}

/// Cuts `s` around the one-byte character at byte offset `index`: the result
/// is what lies before that character and what lies behind it.
pub fn split_at_exlusive(s: &str, index: usize) -> (halves: (&str, &str))
    requires
        index < s.spec_bytes().len(),
        is_char_boundary(s.spec_bytes(), index as int),
        is_char_boundary(s.spec_bytes(), index + 1),
    ensures
        halves.0.spec_bytes() == s.spec_bytes().subrange(0, index as int),
        halves.1.spec_bytes() == s.spec_bytes().subrange(index + 1, s.spec_bytes().len() as int),
        ({
            let n = halves.0@.len() as int;
            &&& n < s@.len()
            &&& byte_offset(s@, n) == index
            &&& halves.0@ == s@.take(n)
            &&& halves.1@ == s@.skip(n + 1)
        }),
{
    let (start, tail) = s.split_at(index);
    proof {
        broadcast use vstd::utf8::group_utf8_lib;

        lemma_boundary_in_suffix(s.spec_bytes(), index as int, index + 1);
        assert(tail.spec_bytes() == s.spec_bytes().subrange(
            index as int,
            s.spec_bytes().len() as int,
        ));
    }
    let (_, rest) = tail.split_at(1);
    proof {
        broadcast use vstd::utf8::group_utf8_lib;

        let bytes = s.spec_bytes();
        let behind = tail.spec_bytes();
        assert(rest.spec_bytes() =~= bytes.subrange(index + 1, bytes.len() as int));
        vstd::utf8::decode_utf8_split(bytes, index as int);
        vstd::utf8::decode_utf8_split(behind, 1);
        vstd::utf8::valid_utf8_split(behind, 1);
        lemma_single_byte_single_char(behind.subrange(0, 1));
        assert(decode_utf8(bytes) == s@);
        assert(decode_utf8(start.spec_bytes()) == start@);
        assert(decode_utf8(rest.spec_bytes()) == rest@);
        let one = decode_utf8(behind.subrange(0, 1));
        assert(s@ =~= start@ + one + rest@);
        let n = start@.len() as int;
        assert(start@ =~= s@.take(n));
        assert(rest@ =~= s@.skip(n + 1));
    }
    (start, rest)
}

/// `left` and `right` are what `parse` may make of the two halves of `chars`
/// around its first `separator`.
pub open spec fn parsed_around<T, P: Fn(&str) -> T>(
    chars: Seq<char>,
    separator: char,
    parse: P,
    left: T,
    right: T,
) -> bool {
    exists|start: &str, rest: &str|
        {
            &&& split_around(chars, separator, start@, rest@)
            &&& #[trigger] call_ensures(parse, (start,), left)
            &&& #[trigger] call_ensures(parse, (rest,), right)
        }
}

/// Calls `str::find` with a `char` pattern. Not proved: that the result is the
/// byte offset of the first character of `s` equal to `needle`, and `None`
/// when no character of `s` is.
#[verifier::external_body]
fn find_char(s: &str, needle: char) -> (found: Option<usize>)
    ensures
        found matches Some(index) ==> first_offset(s@, needle) == Some(index as int),
        found is None ==> first_offset(s@, needle) is None,
{
    s.find(needle)
}

/// Cuts `s` at the first `separator` and hands both halves to `parse`.
/// Without a separator in `s` there is no pair.
pub fn parse_pair<T, P>(s: &str, separator: char, parse: P) -> (pair: Option<(T, T)>) where
    P: Fn(&str) -> T,

    requires
        cuttable(s@, separator),
        forall|start: &str, rest: &str| #[trigger]
            split_around(s@, separator, start@, rest@) ==> call_requires(parse, (start,))
                && call_requires(parse, (rest,)),
    ensures
        pair is None <==> !s@.contains(separator),
        pair matches Some((left, right)) ==> parsed_around(s@, separator, parse, left, right),
{
    proof {
        s@.index_of_first_ensures(separator);
    }
    match find_char(s, separator) {
        None => None,
        Some(index) => {
            let ghost n = s@.index_of_first(separator).unwrap();
            proof {
                broadcast use vstd::utf8::group_utf8_lib;

                lemma_offset_is_boundary(s@, n);
                lemma_offset_is_boundary(s@, n + 1);
                assert(s@.take(n + 1) =~= s@.take(n) + seq![separator]);
                lemma_encode_concat(s@.take(n), seq![separator]);
                reveal_with_fuel(encode_utf8, 2);
                assert(seq![separator].drop_first() =~= Seq::<char>::empty());
                assert(encode_utf8(seq![separator]) =~= encode_scalar(separator as u32));
                assert(byte_offset(s@, n + 1) == index + 1);
            }
            let (start, rest) = split_at_exlusive(s, index);
            proof {
                broadcast use vstd::utf8::group_utf8_lib;

                assert(decode_utf8(start.spec_bytes()) == start@);
                assert(decode_utf8(rest.spec_bytes()) == rest@);
                assert(start@ == s@.take(n));
                assert(rest@ == s@.skip(n + 1));
                assert(s@ =~= start@ + seq![separator] + rest@);
                assert(!start@.contains(separator));
                assert(split_around(s@, separator, start@, rest@));
            }
            let left = parse(start);
            let right = parse(rest);
            assert(parsed_around(s@, separator, parse, left, right));
            Some((left, right))
        },
    }
}

/// The parsed value, or what `f` makes of the error.
pub fn from_str_or<T, E, F>(parsed: Result<T, E>, f: F) -> (value: T) where F: FnOnce(E) -> T
    requires
        parsed matches Err(error) ==> call_requires(f, (error,)),
    ensures
        parsed matches Ok(parsed_value) ==> value == parsed_value,
        parsed matches Err(error) ==> call_ensures(f, (error,), value),
{
    match parsed {
        Ok(value) => value,
        Err(error) => f(error),
    }
}

} // verus!
