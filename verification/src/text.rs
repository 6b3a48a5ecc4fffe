//! Text: cutting it at separators, trimming it, and reading numbers and bytes off it.

use vstd::prelude::*;
use vstd::string::{StrSliceExecFns, StringExecFns};
use vstd::utf8::{
    decode_utf8, encode_utf8, encode_utf8_decode_utf8, encode_utf8_valid_utf8, is_ascii_chars,
    is_ascii_chars_encode_utf8, is_char_boundary, is_char_boundary_iff_not_is_continuation_byte,
    is_char_boundary_start_end_of_seq, is_continuation_byte, valid_utf8,
};

verus! {

/// What replacing every ill-formed part of `bytes` by U+FFFD makes of them as text.
pub uninterp spec fn lossy_text(bytes: Seq<u8>) -> Seq<char>;

/// `String::from_utf8_lossy`: well-formed UTF-8 is decoded as it stands. Of other bytes the
/// contract says only that the text is a function of them, which `lossy_text` names.
#[verifier::external_body]
fn from_utf8_lossy(bytes: &[u8]) -> (text: String)
    ensures
        text@ == lossy_text(bytes@),
        valid_utf8(bytes@) ==> text@ == decode_utf8(bytes@),
{
    String::from_utf8_lossy(bytes).into_owned()
}

/// `String::from_utf8`: succeeds exactly on well-formed UTF-8, and gives the text that it
/// encodes.
#[verifier::external_body]
pub(crate) fn from_utf8(bytes: Vec<u8>) -> (text: Option<String>)
    ensures
        match text {
            Some(text) => valid_utf8(bytes@) && text@ == decode_utf8(bytes@),
            None => !valid_utf8(bytes@),
        },
{
    String::from_utf8(bytes).ok()
}

/// The characters of `text`.
pub fn chars_of(text: &str) -> (chars: Vec<char>)
    ensures
        chars@ == text@,
{
    let mut chars: Vec<char> = Vec::new();
    for c in it: text.chars()
        invariant
            it.seq() == text@,
            chars@ == text@.take(it.index()),
    {
        chars.push(c);
        assert(chars@ =~= text@.take(it.index() + 1));
    }
    assert(text@.take(text@.len() as int) =~= text@);
    chars
}

/// Whether the two texts are the same.
pub fn same_text(a: &str, b: &str) -> (same: bool)
    ensures
        same == (a@ == b@),
{
    let x: Vec<char> = chars_of(a);
    let y: Vec<char> = chars_of(b);
    if x.len() != y.len() {
        return false;
    }
    let mut i: usize = 0;
    while i < x.len()
        invariant
            x@ == a@,
            y@ == b@,
            x@.len() == y@.len(),
            i <= x@.len(),
            forall|k: int| 0 <= k < i ==> x@[k] == y@[k],
        decreases x@.len() - i,
    {
        if x[i] != y[i] {
            return false;
        }
        i += 1;
    }
    assert(a@ =~= b@);
    true
}

pub open spec fn has_prefix(text: Seq<char>, prefix: Seq<char>) -> bool {
    prefix.len() <= text.len() && text.take(prefix.len() as int) == prefix
}

/// What follows `prefix` in `text`, if `text` starts with it.
pub fn strip_prefix<'a>(text: &'a str, prefix: &str) -> (rest: Option<&'a str>)
    ensures
        match rest {
            Some(rest) => has_prefix(text@, prefix@) && rest@ == text@.skip(prefix@.len() as int),
            None => !has_prefix(text@, prefix@),
        },
{
    let len: usize = prefix.unicode_len();
    let total: usize = text.unicode_len();
    if total < len {
        return None;
    }
    let head = text.substring_char(0, len);
    assert(head@ =~= text@.take(len as int));
    if same_text(head, prefix) {
        let rest = text.substring_char(len, total);
        assert(rest@ =~= text@.skip(len as int));
        Some(rest)
    } else {
        None
    }
}

/// `text` with every `from` in it replaced by `to`, from the left.
pub open spec fn replaced(text: Seq<char>, from: Seq<char>, to: Seq<char>) -> Seq<char>
    decreases text.len(),
{
    if from.len() == 0 || text.len() == 0 {
        text
    } else if has_prefix(text, from) {
        to + replaced(text.skip(from.len() as int), from, to)
    } else {
        seq![text[0]] + replaced(text.skip(1), from, to)
    }
}

/// `text` with every `from` in it replaced by `to`, from the left.
pub fn replace(text: &str, from: &str, to: &str) -> (out: String)
    requires
        from@.len() > 0,
    ensures
        out@ == replaced(text@, from@, to@),
{
    let mut out: String = String::new();
    let mut rest = text;
    assert(out@ + replaced(text@, from@, to@) =~= replaced(text@, from@, to@));
    while rest.unicode_len() > 0
        invariant
            from@.len() > 0,
            out@ + replaced(rest@, from@, to@) == replaced(text@, from@, to@),
        decreases rest@.len(),
    {
        let ghost before = rest@;
        let ghost done = out@;
        match strip_prefix(rest, from) {
            Some(after) => {
                out.append(to);
                rest = after;
            },
            None => {
                let len: usize = rest.unicode_len();
                let first = rest.substring_char(0, 1);
                assert(first@ =~= seq![before[0]]);
                out.append(first);
                rest = rest.substring_char(1, len);
                assert(rest@ =~= before.skip(1));
            },
        }
        assert(out@ + replaced(rest@, from@, to@) =~= done + replaced(before, from@, to@));
    }
    assert(out@ + replaced(rest@, from@, to@) =~= out@);
    out
}

/// The place of the first `c` in `text`.
pub open spec fn first_index(text: Seq<char>, c: char) -> Option<int>
    decreases text.len(),
{
    if text.len() == 0 {
        None
    } else if text[0] == c {
        Some(0)
    } else {
        match first_index(text.skip(1), c) {
            Some(i) => Some(i + 1),
            None => None,
        }
    }
}

/// The place of the last `c` in `text`.
pub open spec fn last_index(text: Seq<char>, c: char) -> Option<int>
    decreases text.len(),
{
    if text.len() == 0 {
        None
    } else if text.last() == c {
        Some(text.len() - 1)
    } else {
        last_index(text.drop_last(), c)
    }
}

/// `text` before and after the first `c`.
pub open spec fn cut_first(text: Seq<char>, c: char) -> Option<(Seq<char>, Seq<char>)> {
    match first_index(text, c) {
        Some(i) => Some((text.take(i), text.skip(i + 1))),
        None => None,
    }
}

/// `text` before and after the last `c`.
pub open spec fn cut_last(text: Seq<char>, c: char) -> Option<(Seq<char>, Seq<char>)> {
    match last_index(text, c) {
        Some(i) => Some((text.take(i), text.skip(i + 1))),
        None => None,
    }
}

/// The parts of `text` between the `c`s.
pub open spec fn cut_all(text: Seq<char>, c: char) -> Seq<Seq<char>>
    decreases text.len(),
    via cut_all_decreases
{
    match first_index(text, c) {
        Some(i) => seq![text.take(i)] + cut_all(text.skip(i + 1), c),
        None => seq![text],
    }
}

#[via_fn]
proof fn cut_all_decreases(text: Seq<char>, c: char) {
    lemma_first_index(text, c);
}

/// The first index of a character holds it, and no earlier place does.
pub proof fn lemma_first_index(text: Seq<char>, c: char)
    ensures
        match first_index(text, c) {
            Some(i) => 0 <= i < text.len() && text[i] == c && forall|k: int|
                0 <= k < i ==> text[k] != c,
            None => !text.contains(c),
        },
    decreases text.len(),
{
    if text.len() > 0 && text[0] != c {
        let rest = text.skip(1);
        lemma_first_index(rest, c);
        match first_index(rest, c) {
            Some(i) => {
                assert forall|k: int| 0 <= k < i + 1 implies text[k] != c by {
                    if k > 0 {
                        assert(rest[k - 1] != c);
                    }
                }
            },
            None => {
                assert forall|k: int| 0 <= k < text.len() implies text[k] != c by {
                    if k > 0 {
                        assert(rest[k - 1] == text[k]);
                    }
                }
            },
        }
    }
}

pub proof fn lemma_first_index_is(text: Seq<char>, c: char, i: int)
    requires
        0 <= i < text.len(),
        text[i] == c,
        forall|k: int| 0 <= k < i ==> text[k] != c,
    ensures
        first_index(text, c) == Some(i),
{
    lemma_first_index(text, c);
    assert(text.contains(c));
}

proof fn lemma_last_index_is(text: Seq<char>, c: char, from: int)
    requires
        0 <= from <= text.len(),
        forall|k: int| from <= k < text.len() ==> text[k] != c,
    ensures
        from > 0 && text[from - 1] == c ==> last_index(text, c) == Some(from - 1),
        from == 0 ==> last_index(text, c) is None,
    decreases text.len() - from,
{
    if from < text.len() {
        lemma_last_index_is(text.drop_last(), c, from);
    }
}

fn find_first(text: &str, c: char) -> (found: Option<usize>)
    ensures
        match found {
            Some(i) => first_index(text@, c) == Some(i as int) && i < text@.len(),
            None => first_index(text@, c) is None,
        },
{
    let chars: Vec<char> = chars_of(text);
    let mut i: usize = 0;
    while i < chars.len()
        invariant
            chars@ == text@,
            i <= chars@.len(),
            forall|k: int| 0 <= k < i ==> text@[k] != c,
        decreases chars@.len() - i,
    {
        if chars[i] == c {
            proof {
                lemma_first_index_is(text@, c, i as int);
            }
            return Some(i);
        }
        i += 1;
    }
    proof {
        lemma_first_index(text@, c);
    }
    None
}

fn find_last(text: &str, c: char) -> (found: Option<usize>)
    ensures
        match found {
            Some(i) => last_index(text@, c) == Some(i as int) && i < text@.len(),
            None => last_index(text@, c) is None,
        },
{
    let chars: Vec<char> = chars_of(text);
    let mut i: usize = chars.len();
    while i > 0
        invariant
            chars@ == text@,
            i <= chars@.len(),
            forall|k: int| i <= k < text@.len() ==> text@[k] != c,
        decreases i,
    {
        if chars[i - 1] == c {
            proof {
                lemma_last_index_is(text@, c, i as int);
            }
            return Some(i - 1);
        }
        i -= 1;
    }
    proof {
        lemma_last_index_is(text@, c, 0);
    }
    None
}

/// Whether `c` occurs in `text`.
pub fn has_char(text: &str, c: char) -> (found: bool)
    ensures
        found == text@.contains(c),
{
    proof {
        lemma_first_index(text@, c);
    }
    find_first(text, c).is_some()
}

/// `text` before and after the first `c`.
pub fn split_once<'a>(text: &'a str, c: char) -> (parts: Option<(&'a str, &'a str)>)
    ensures
        match parts {
            Some(parts) => cut_first(text@, c) == Some((parts.0@, parts.1@)),
            None => cut_first(text@, c) is None,
        },
{
    match find_first(text, c) {
        Some(i) => {
            let total: usize = text.unicode_len();
            let before = text.substring_char(0, i);
            let after = text.substring_char(i + 1, total);
            assert(before@ =~= text@.take(i as int));
            assert(after@ =~= text@.skip(i + 1));
            Some((before, after))
        },
        None => None,
    }
}

/// `text` before and after the last `c`.
pub fn rsplit_once<'a>(text: &'a str, c: char) -> (parts: Option<(&'a str, &'a str)>)
    ensures
        match parts {
            Some(parts) => cut_last(text@, c) == Some((parts.0@, parts.1@)),
            None => cut_last(text@, c) is None,
        },
{
    match find_last(text, c) {
        Some(i) => {
            let total: usize = text.unicode_len();
            let before = text.substring_char(0, i);
            let after = text.substring_char(i + 1, total);
            assert(before@ =~= text@.take(i as int));
            assert(after@ =~= text@.skip(i + 1));
            Some((before, after))
        },
        None => None,
    }
}

/// The texts that some string slices show.
pub open spec fn texts(slices: Seq<&str>) -> Seq<Seq<char>> {
    slices.map_values(|s: &str| s@)
}

/// The parts of `text` between the `c`s.
pub fn split<'a>(text: &'a str, c: char) -> (parts: Vec<&'a str>)
    ensures
        texts(parts@) == cut_all(text@, c),
{
    let mut parts: Vec<&'a str> = Vec::new();
    let mut rest: &'a str = text;
    assert(texts(parts@) + cut_all(rest@, c) =~= cut_all(text@, c));
    loop
        invariant
            texts(parts@) + cut_all(rest@, c) == cut_all(text@, c),
        decreases rest@.len(),
    {
        let ghost before = parts@;
        let ghost left = rest@;
        match split_once(rest, c) {
            Some((part, after)) => {
                proof {
                    lemma_first_index(left, c);
                }
                parts.push(part);
                rest = after;
                assert(texts(parts@) =~= texts(before).push(part@));
                assert(texts(parts@) + cut_all(rest@, c) =~= texts(before) + cut_all(left, c));
            },
            None => {
                parts.push(rest);
                assert(texts(parts@) =~= texts(before) + cut_all(left, c));
                return parts;
            },
        }
    }
}

/// The characters with the Unicode property White_Space.
pub open spec fn is_white_space(c: char) -> bool {
    ||| '\u{9}' <= c <= '\u{d}'
    ||| c == '\u{20}'
    ||| c == '\u{85}'
    ||| c == '\u{a0}'
    ||| c == '\u{1680}'
    ||| '\u{2000}' <= c <= '\u{200a}'
    ||| c == '\u{2028}'
    ||| c == '\u{2029}'
    ||| c == '\u{202f}'
    ||| c == '\u{205f}'
    ||| c == '\u{3000}'
}

/// Whether `c` is white space.
pub fn white_space(c: char) -> (white: bool)
    ensures
        white == is_white_space(c),
{
    ('\u{9}' <= c && c <= '\u{d}') || c == '\u{20}' || c == '\u{85}' || c == '\u{a0}' || c
        == '\u{1680}' || ('\u{2000}' <= c && c <= '\u{200a}') || c == '\u{2028}' || c == '\u{2029}'
        || c == '\u{202f}' || c == '\u{205f}' || c == '\u{3000}'
}

/// `text` without the white space at its start.
pub open spec fn trimmed_start(text: Seq<char>) -> Seq<char>
    decreases text.len(),
{
    if text.len() > 0 && is_white_space(text[0]) {
        trimmed_start(text.skip(1))
    } else {
        text
    }
}

/// `text` without the white space at its end.
pub open spec fn trimmed_end(text: Seq<char>) -> Seq<char>
    decreases text.len(),
{
    if text.len() > 0 && is_white_space(text.last()) {
        trimmed_end(text.drop_last())
    } else {
        text
    }
}

/// `text` without the white space around it.
pub open spec fn trimmed(text: Seq<char>) -> Seq<char> {
    trimmed_end(trimmed_start(text))
}

/// `text` without the white space around it.
pub fn trim<'a>(text: &'a str) -> (inner: &'a str)
    ensures
        inner@ == trimmed(text@),
{
    let chars: Vec<char> = chars_of(text);
    let mut from: usize = 0;
    assert(text@.skip(0) =~= text@);
    while from < chars.len() && white_space(chars[from])
        invariant
            chars@ == text@,
            from <= chars@.len(),
            trimmed_start(text@) == trimmed_start(text@.skip(from as int)),
        decreases chars@.len() - from,
    {
        assert(text@.skip(from as int).skip(1) =~= text@.skip(from + 1));
        from += 1;
    }
    let ghost rest = text@.skip(from as int);
    assert(trimmed_start(text@) == rest);
    let mut to: usize = chars.len();
    assert(text@.subrange(from as int, to as int) =~= rest);
    while to > from && white_space(chars[to - 1])
        invariant
            chars@ == text@,
            from <= to <= chars@.len(),
            trimmed_end(rest) == trimmed_end(text@.subrange(from as int, to as int)),
        decreases to,
    {
        assert(text@.subrange(from as int, to as int).drop_last() =~= text@.subrange(
            from as int,
            to - 1,
        ));
        to -= 1;
    }
    text.substring_char(from, to)
}

/// The number that a text of decimal digits writes; a text with anything else in it, or with
/// nothing, writes none.
pub open spec fn decimal(text: Seq<char>) -> Option<nat>
    decreases text.len(),
{
    if text.len() == 0 || !('0' <= text.last() <= '9') {
        None
    } else {
        let digit = (text.last() as int - '0' as int) as nat;
        if text.len() == 1 {
            Some(digit)
        } else {
            match decimal(text.drop_last()) {
                Some(n) => Some(n * 10 + digit),
                None => None,
            }
        }
    }
}

/// The port that `text` writes: decimal digits, perhaps after a plus sign, for a number from 1 to
/// 65535.
pub open spec fn port_number(text: Seq<char>) -> Option<u16> {
    let digits = if text.len() > 0 && text[0] == '+' {
        text.skip(1)
    } else {
        text
    };
    match decimal(digits) {
        Some(n) => if 0 < n <= 0xffff {
            Some(n as u16)
        } else {
            None
        },
        None => None,
    }
}

proof fn lemma_not_decimal(text: Seq<char>, i: int)
    requires
        0 <= i < text.len(),
        !('0' <= text[i] <= '9'),
    ensures
        decimal(text) is None,
    decreases text.len(),
{
    if i < text.len() - 1 {
        lemma_not_decimal(text.drop_last(), i);
    }
}

/// The port that `text` writes, if it writes one.
pub fn port_of(text: &str) -> (port: Option<u16>)
    ensures
        port == port_number(text@),
{
    let chars: Vec<char> = chars_of(text);
    let start: usize = if chars.len() > 0 && chars[0] == '+' {
        1
    } else {
        0
    };
    let ghost digits = text@.skip(start as int);
    assert(text@.skip(0) =~= text@);
    if chars.len() == start {
        return None;
    }
    let mut i: usize = start;
    let mut value: u32 = 0;
    while i < chars.len()
        invariant
            chars@ == text@,
            start <= i <= chars@.len(),
            start < chars@.len(),
            digits == text@.skip(start as int),
            port_number(text@) is Some ==> decimal(digits) is Some,
            value <= 0x1_0000,
            i > start ==> decimal(digits.take(i - start)) is Some && value == (if decimal(
                digits.take(i - start),
            )->Some_0 <= 0x1_0000 {
                decimal(digits.take(i - start))->Some_0 as int
            } else {
                0x1_0000
            }),
            i == start ==> value == 0,
        decreases chars@.len() - i,
    {
        let c: char = chars[i];
        let ghost before = digits.take(i - start);
        let ghost after = digits.take(i + 1 - start);
        assert(after.drop_last() =~= before);
        assert(after.last() == c);
        if !('0' <= c && c <= '9') {
            proof {
                lemma_not_decimal(digits, i - start);
            }
            return None;
        }
        let digit: u32 = c as u32 - '0' as u32;
        let next: u32 = value * 10 + digit;
        value = if next > 0x1_0000 {
            0x1_0000
        } else {
            next
        };
        i += 1;
    }
    assert(digits.take(i - start) =~= digits);
    if 0 < value && value <= 0xffff {
        Some(value as u16)
    } else {
        None
    }
}

/// The value of a hexadecimal digit.
pub open spec fn hex_digit(b: u8) -> Option<u8> {
    if 0x30 <= b <= 0x39 {
        Some((b - 0x30) as u8)
    } else if 0x41 <= b <= 0x46 {
        Some((b - 0x41 + 10) as u8)
    } else if 0x61 <= b <= 0x66 {
        Some((b - 0x61 + 10) as u8)
    } else {
        None
    }
}

/// The byte that two characters write in hexadecimal. As in other unsigned numbers, a plus sign
/// may stand before a digit.
pub open spec fn hex_pair(high: u8, low: u8) -> Option<u8> {
    match (hex_digit(high), hex_digit(low)) {
        (Some(h), Some(l)) => Some((h * 16 + l) as u8),
        (None, Some(l)) => if high == 0x2b {
            Some(l)
        } else {
            None
        },
        _ => None,
    }
}

fn hex_digit_of(b: u8) -> (digit: Option<u8>)
    ensures
        digit == hex_digit(b),
        digit matches Some(d) ==> d < 16,
{
    if 0x30 <= b && b <= 0x39 {
        Some(b - 0x30)
    } else if 0x41 <= b && b <= 0x46 {
        Some(b - 0x41 + 10)
    } else if 0x61 <= b && b <= 0x66 {
        Some(b - 0x61 + 10)
    } else {
        None
    }
}

fn hex_pair_of(high: u8, low: u8) -> (byte: Option<u8>)
    ensures
        byte == hex_pair(high, low),
{
    match (hex_digit_of(high), hex_digit_of(low)) {
        (Some(h), Some(l)) => Some(h * 16 + l),
        (None, Some(l)) => if high == 0x2b {
            Some(l)
        } else {
            None
        },
        _ => None,
    }
}

/// The bytes that pairs of hexadecimal characters from `from` on write, if all of them do.
pub open spec fn hex_from(bytes: Seq<u8>, from: int) -> Option<Seq<u8>>
    decreases bytes.len() - from,
{
    if from + 1 >= bytes.len() {
        Some(seq![])
    } else {
        match (hex_pair(bytes[from], bytes[from + 1]), hex_from(bytes, from + 2)) {
            (Some(byte), Some(rest)) => Some(seq![byte] + rest),
            _ => None,
        }
    }
}

/// The bytes that `text` writes in hexadecimal, two characters for each.
pub open spec fn hex_decoded(text: Seq<char>) -> Option<Seq<u8>> {
    let bytes = encode_utf8(text);
    if bytes.len() % 2 != 0 {
        None
    } else {
        hex_from(bytes, 0)
    }
}

/// Whether every pair of bytes from `from` on, up to and including the first that is not
/// hexadecimal, ends between two characters.
pub open spec fn hex_cuts_from(bytes: Seq<u8>, from: int) -> bool
    decreases bytes.len() - from,
{
    from + 1 >= bytes.len() || {
        &&& is_char_boundary(bytes, from + 2)
        &&& hex_pair(bytes[from], bytes[from + 1]) is Some ==> hex_cuts_from(bytes, from + 2)
    }
}

/// Whether reading `text` as hexadecimal never cuts a character in two.
pub open spec fn hex_sliceable(text: Seq<char>) -> bool {
    let bytes = encode_utf8(text);
    bytes.len() % 2 == 0 ==> hex_cuts_from(bytes, 0)
}

/// The bytes that `value` writes in hexadecimal.
pub fn hex_decode(value: &str) -> (decoded: Option<Vec<u8>>)
    requires
        hex_sliceable(value@),
    ensures
        match decoded {
            Some(bytes) => hex_decoded(value@) == Some(bytes@),
            None => hex_decoded(value@) is None,
        },
{
    let bytes = value.as_bytes();
    if bytes.len() % 2 != 0 {
        return None;
    }
    let mut out: Vec<u8> = Vec::new();
    let mut i: usize = 0;
    let ghost whole = hex_from(bytes@, 0);
    proof {
        match whole {
            Some(rest) => {
                assert(Seq::<u8>::empty() + rest =~= rest);
            },
            None => {},
        }
    }
    while i < bytes.len()
        invariant
            bytes@ == encode_utf8(value@),
            bytes@.len() % 2 == 0,
            i % 2 == 0,
            i <= bytes@.len(),
            whole == hex_from(bytes@, 0),
            hex_decoded(value@) == whole,
            match hex_from(bytes@, i as int) {
                Some(rest) => whole == Some(out@ + rest),
                None => whole is None,
            },
        decreases bytes@.len() - i,
    {
        match hex_pair_of(bytes[i], bytes[i + 1]) {
            Some(byte) => {
                let ghost before = out@;
                out.push(byte);
                proof {
                    match hex_from(bytes@, i + 2) {
                        Some(rest) => {
                            assert(before + (seq![byte] + rest) =~= out@ + rest);
                        },
                        None => {},
                    }
                }
            },
            None => return None,
        }
        i += 2;
    }
    assert(out@ + Seq::<u8>::empty() =~= out@);
    Some(out)
}

/// Whether `hex_decode` may be asked about `value`.
pub fn is_hex_sliceable(value: &str) -> (sliceable: bool)
    ensures
        sliceable == hex_sliceable(value@),
{
    let bytes = value.as_bytes();
    if bytes.len() % 2 != 0 {
        return true;
    }
    let mut i: usize = 0;
    while i < bytes.len()
        invariant
            bytes@ == encode_utf8(value@),
            bytes@.len() % 2 == 0,
            i % 2 == 0,
            i <= bytes@.len(),
            hex_sliceable(value@) == hex_cuts_from(bytes@, i as int),
        decreases bytes@.len() - i,
    {
        if !value.is_char_boundary(i + 2) {
            return false;
        }
        if hex_pair_of(bytes[i], bytes[i + 1]).is_none() {
            return true;
        }
        i += 2;
    }
    true
}

/// The bytes that percent-encoded `bytes` stand for from `from` on. A percent sign that at least
/// two bytes follow and that two hexadecimal characters follow stands for the byte they write; a
/// plus sign stands for a space; every other byte for itself.
pub open spec fn percent_from(bytes: Seq<u8>, from: int) -> Seq<u8>
    decreases bytes.len() - from,
{
    if from >= bytes.len() {
        seq![]
    } else if bytes[from] == 0x25 && from + 2 < bytes.len() {
        match hex_pair(bytes[from + 1], bytes[from + 2]) {
            Some(byte) => seq![byte] + percent_from(bytes, from + 3),
            None => seq![0x25u8] + percent_from(bytes, from + 1),
        }
    } else if bytes[from] == 0x2b {
        seq![0x20u8] + percent_from(bytes, from + 1)
    } else {
        seq![bytes[from]] + percent_from(bytes, from + 1)
    }
}

/// The text that percent-encoded `text` stands for. Only bytes that are no well-formed UTF-8 are
/// decoded with replacements.
pub open spec fn percent_decoded(text: Seq<char>) -> Seq<char> {
    let bytes = percent_from(encode_utf8(text), 0);
    if valid_utf8(bytes) {
        decode_utf8(bytes)
    } else {
        lossy_text(bytes)
    }
}

/// Whether the two bytes after every percent sign that is looked at from `from` on end between
/// two characters.
pub open spec fn percent_cuts_from(bytes: Seq<u8>, from: int) -> bool
    decreases bytes.len() - from,
{
    if from >= bytes.len() {
        true
    } else if bytes[from] == 0x25 && from + 2 < bytes.len() {
        &&& is_char_boundary(bytes, from + 3)
        &&& match hex_pair(bytes[from + 1], bytes[from + 2]) {
            Some(_) => percent_cuts_from(bytes, from + 3),
            None => percent_cuts_from(bytes, from + 1),
        }
    } else {
        percent_cuts_from(bytes, from + 1)
    }
}

/// Whether decoding percent-encoded `text` never cuts a character in two.
pub open spec fn percent_sliceable(text: Seq<char>) -> bool {
    percent_cuts_from(encode_utf8(text), 0)
}

fn percent_bytes(bytes: &[u8]) -> (out: Vec<u8>)
    ensures
        out@ == percent_from(bytes@, 0),
{
    let mut out: Vec<u8> = Vec::new();
    let mut i: usize = 0;
    assert(out@ + percent_from(bytes@, 0) =~= percent_from(bytes@, 0));
    while i < bytes.len()
        invariant
            i <= bytes@.len(),
            out@ + percent_from(bytes@, i as int) == percent_from(bytes@, 0),
        decreases bytes@.len() - i,
    {
        let ghost before = out@;
        let ghost at = i as int;
        let byte: u8 = bytes[i];
        if byte == 0x25 && bytes.len() - i > 2 {
            match hex_pair_of(bytes[i + 1], bytes[i + 2]) {
                Some(decoded) => {
                    out.push(decoded);
                    i += 3;
                },
                None => {
                    out.push(byte);
                    i += 1;
                },
            }
        } else if byte == 0x2b {
            out.push(0x20);
            i += 1;
        } else {
            out.push(byte);
            i += 1;
        }
        assert(out@ + percent_from(bytes@, i as int) =~= before + percent_from(bytes@, at));
    }
    assert(out@ + Seq::<u8>::empty() =~= out@);
    out
}

/// The text that percent-encoded `value` stands for.
pub fn percent_decode(value: &str) -> (decoded: String)
    requires
        percent_sliceable(value@),
    ensures
        decoded@ == percent_decoded(value@),
        (forall|i: int|
            0 <= i < encode_utf8(value@).len() ==> #[trigger] encode_utf8(value@)[i] != 0x25
                && encode_utf8(value@)[i] != 0x2b) ==> decoded@ == value@,
{
    let out: Vec<u8> = percent_bytes(value.as_bytes());
    proof {
        let bytes = encode_utf8(value@);
        encode_utf8_valid_utf8(value@);
        encode_utf8_decode_utf8(value@);
        if forall|i: int|
            0 <= i < bytes.len() ==> #[trigger] bytes[i] != 0x25 && bytes[i] != 0x2b {
            law_plain_bytes_stand_for_themselves(bytes);
        }
    }
    from_utf8_lossy(&out)
}

/// Whether `percent_decode` may be asked about `value`.
pub fn is_percent_sliceable(value: &str) -> (sliceable: bool)
    ensures
        sliceable == percent_sliceable(value@),
{
    let bytes = value.as_bytes();
    let mut i: usize = 0;
    while i < bytes.len()
        invariant
            bytes@ == encode_utf8(value@),
            i <= bytes@.len(),
            percent_sliceable(value@) == percent_cuts_from(bytes@, i as int),
        decreases bytes@.len() - i,
    {
        if bytes[i] == 0x25 && bytes.len() - i > 2 {
            if !value.is_char_boundary(i + 3) {
                return false;
            }
            if hex_pair_of(bytes[i + 1], bytes[i + 2]).is_some() {
                i += 3;
            } else {
                i += 1;
            }
        } else {
            i += 1;
        }
    }
    true
}

/// The character that writes a hexadecimal digit.
pub open spec fn hex_char(digit: int) -> char {
    if digit < 10 {
        (0x30 + digit) as char
    } else {
        (0x61 + digit - 10) as char
    }
}

/// `bytes` in hexadecimal.
pub open spec fn hex_text(bytes: Seq<u8>) -> Seq<char> {
    Seq::new(
        2 * bytes.len(),
        |i: int|
            hex_char(
                if i % 2 == 0 {
                    bytes[i / 2] as int / 16
                } else {
                    bytes[i / 2] as int % 16
                },
            ),
    )
}

/// Bytes that are written in hexadecimal are read back.
pub proof fn law_hex_is_read_back(bytes: Seq<u8>)
    ensures
        hex_sliceable(hex_text(bytes)),
        hex_decoded(hex_text(bytes)) == Some(bytes),
{
    let text = hex_text(bytes);
    assert(is_ascii_chars(text));
    is_ascii_chars_encode_utf8(text);
    encode_utf8_valid_utf8(text);
    let encoded = encode_utf8(text);
    assert forall|i: int| 0 <= i < bytes.len() implies #[trigger] hex_pair(
        encoded[2 * i],
        encoded[2 * i + 1],
    ) == Some(bytes[i]) by {
        assert(text[2 * i] == hex_char(bytes[i] as int / 16));
        assert(text[2 * i + 1] == hex_char(bytes[i] as int % 16));
        assert(encoded[2 * i] == text[2 * i] as u8);
        assert(encoded[2 * i + 1] == text[2 * i + 1] as u8);
    }
    lemma_hex_from(encoded, bytes, 0);
    assert(bytes.skip(0) =~= bytes);
}

proof fn lemma_hex_from(encoded: Seq<u8>, bytes: Seq<u8>, from: int)
    requires
        0 <= from <= bytes.len(),
        encoded.len() == 2 * bytes.len(),
        valid_utf8(encoded),
        forall|i: int| 0 <= i < encoded.len() ==> #[trigger] encoded[i] < 0x80,
        forall|i: int|
            0 <= i < bytes.len() ==> #[trigger] hex_pair(encoded[2 * i], encoded[2 * i + 1])
                == Some(bytes[i]),
    ensures
        hex_from(encoded, 2 * from) == Some(bytes.skip(from)),
        hex_cuts_from(encoded, 2 * from),
    decreases bytes.len() - from,
{
    if from < bytes.len() {
        lemma_hex_from(encoded, bytes, from + 1);
        assert(hex_pair(encoded[2 * from], encoded[2 * from + 1]) == Some(bytes[from]));
        assert(seq![bytes[from]] + bytes.skip(from + 1) =~= bytes.skip(from));
        let end = 2 * from + 2;
        if end < encoded.len() {
            let byte = encoded[end];
            assert(byte < 0x80);
            is_char_boundary_iff_not_is_continuation_byte(encoded, end);
            assert(!is_continuation_byte(byte));
        } else {
            is_char_boundary_start_end_of_seq(encoded);
        }
    } else {
        assert(bytes.skip(from) =~= Seq::<u8>::empty());
    }
}

/// Bytes without a percent or a plus sign stand for themselves.
pub proof fn law_plain_bytes_stand_for_themselves(bytes: Seq<u8>)
    requires
        forall|i: int|
            0 <= i < bytes.len() ==> #[trigger] bytes[i] != 0x25 && bytes[i] != 0x2b,
    ensures
        percent_from(bytes, 0) == bytes,
        percent_cuts_from(bytes, 0),
{
    lemma_plain_from(bytes, 0);
    assert(bytes.skip(0) =~= bytes);
}

proof fn lemma_plain_from(bytes: Seq<u8>, from: int)
    requires
        0 <= from <= bytes.len(),
        forall|i: int|
            0 <= i < bytes.len() ==> #[trigger] bytes[i] != 0x25 && bytes[i] != 0x2b,
    ensures
        percent_from(bytes, from) == bytes.skip(from),
        percent_cuts_from(bytes, from),
    decreases bytes.len() - from,
{
    if from < bytes.len() {
        lemma_plain_from(bytes, from + 1);
        assert(seq![bytes[from]] + bytes.skip(from + 1) =~= bytes.skip(from));
    } else {
        assert(bytes.skip(from) =~= Seq::<u8>::empty());
    }
}

/// The parts, one after the other, with a `c` between each two.
pub open spec fn joined(parts: Seq<Seq<char>>, c: char) -> Seq<char>
    decreases parts.len(),
{
    if parts.len() == 0 {
        Seq::empty()
    } else if parts.len() == 1 {
        parts[0]
    } else {
        parts[0] + seq![c] + joined(parts.skip(1), c)
    }
}

/// Parts that are joined are cut apart again.
pub proof fn law_cutting_undoes_joining(parts: Seq<Seq<char>>, c: char)
    requires
        parts.len() > 0,
        forall|i: int| 0 <= i < parts.len() ==> !(#[trigger] parts[i]).contains(c),
    ensures
        cut_all(joined(parts, c), c) == parts,
    decreases parts.len(),
{
    let first = parts[0];
    assert(!first.contains(c));
    if parts.len() == 1 {
        lemma_first_index(first, c);
        assert(parts =~= seq![first]);
    } else {
        let rest = parts.skip(1);
        let text = joined(parts, c);
        assert forall|i: int| 0 <= i < rest.len() implies !(#[trigger] rest[i]).contains(c) by {
            assert(rest[i] == parts[i + 1]);
        }
        law_cutting_undoes_joining(rest, c);
        assert forall|k: int| 0 <= k < first.len() implies text[k] != c by {
            assert(text[k] == first[k]);
        }
        lemma_first_index_is(text, c, first.len() as int);
        assert(text.take(first.len() as int) =~= first);
        assert(text.skip(first.len() as int + 1) =~= joined(rest, c));
        assert(seq![first] + rest =~= parts);
    }
}

/// Two texts with a separator between them are cut apart at it: at the first one where the text
/// before has none, and at the last one where the text after has none. A text without a separator
/// is not cut.
pub proof fn law_texts_are_cut_at_the_separator(before: Seq<char>, after: Seq<char>, c: char)
    ensures
        !before.contains(c) ==> cut_first(before + seq![c] + after, c) == Some((before, after)),
        !after.contains(c) ==> cut_last(before + seq![c] + after, c) == Some((before, after)),
        !before.contains(c) ==> cut_first(before, c) is None && cut_last(before, c) is None,
{
    let text = before + seq![c] + after;
    let n = before.len() as int;
    assert(text.take(n) =~= before);
    assert(text.skip(n + 1) =~= after);
    if !before.contains(c) {
        assert forall|k: int| 0 <= k < n implies text[k] != c by {
            assert(text[k] == before[k]);
            assert(before.contains(before[k]));
        }
        lemma_first_index_is(text, c, n);
        lemma_first_index(before, c);
        if first_index(before, c) is Some {
            assert(before.contains(before[first_index(before, c)->Some_0]));
        }
        assert forall|k: int| 0 <= k < n implies before[k] != c by {
            assert(before.contains(before[k]));
        }
        lemma_last_index_is(before, c, 0);
    }
    if !after.contains(c) {
        assert forall|k: int| n + 1 <= k < text.len() implies text[k] != c by {
            assert(text[k] == after[k - n - 1]);
            assert(after.contains(after[k - n - 1]));
        }
        lemma_last_index_is(text, c, n + 1);
    }
}

/// Trimming takes off all white space around a text and nothing of the text.
pub proof fn law_trimming_takes_off_white_space(
    before: Seq<char>,
    text: Seq<char>,
    after: Seq<char>,
)
    requires
        forall|i: int| 0 <= i < before.len() ==> is_white_space(#[trigger] before[i]),
        forall|i: int| 0 <= i < after.len() ==> is_white_space(#[trigger] after[i]),
        text.len() > 0 ==> !is_white_space(text[0]) && !is_white_space(text.last()),
    ensures
        trimmed(before + text + after) == text,
    decreases before.len(), after.len(),
{
    let whole = before + text + after;
    if before.len() > 0 {
        let less = before.skip(1);
        assert(whole[0] == before[0]);
        assert(whole.skip(1) =~= less + text + after);
        assert forall|i: int| 0 <= i < less.len() implies is_white_space(#[trigger] less[i]) by {
            assert(less[i] == before[i + 1]);
        }
        law_trimming_takes_off_white_space(less, text, after);
    } else if text.len() == 0 {
        assert(whole =~= after);
        assert(text =~= Seq::<char>::empty());
        lemma_white_space_is_trimmed(after);
    } else {
        assert(whole =~= text + after);
        assert(whole[0] == text[0]);
        lemma_end_is_trimmed(text, after);
    }
}

proof fn lemma_white_space_is_trimmed(text: Seq<char>)
    requires
        forall|i: int| 0 <= i < text.len() ==> is_white_space(#[trigger] text[i]),
    ensures
        trimmed(text) == Seq::<char>::empty(),
    decreases text.len(),
{
    if text.len() > 0 {
        let rest = text.skip(1);
        assert forall|i: int| 0 <= i < rest.len() implies is_white_space(#[trigger] rest[i]) by {
            assert(rest[i] == text[i + 1]);
        }
        lemma_white_space_is_trimmed(rest);
    } else {
        assert(text =~= Seq::<char>::empty());
    }
}

proof fn lemma_end_is_trimmed(text: Seq<char>, after: Seq<char>)
    requires
        text.len() > 0,
        !is_white_space(text.last()),
        forall|i: int| 0 <= i < after.len() ==> is_white_space(#[trigger] after[i]),
    ensures
        trimmed_end(text + after) == text,
    decreases after.len(),
{
    if after.len() > 0 {
        let less = after.drop_last();
        assert((text + after).last() == after.last());
        assert((text + after).drop_last() =~= text + less);
        lemma_end_is_trimmed(text, less);
    } else {
        assert(text + after =~= text);
    }
}

/// The decimal digits of `n`.
pub open spec fn decimal_text(n: nat) -> Seq<char>
    decreases n,
{
    let digit = (0x30 + n % 10) as char;
    if n < 10 {
        seq![digit]
    } else {
        decimal_text(n / 10).push(digit)
    }
}

pub proof fn lemma_decimal_text(n: nat)
    ensures
        decimal(decimal_text(n)) == Some(n),
        decimal_text(n).len() > 0,
        forall|i: int| 0 <= i < decimal_text(n).len() ==> '0' <= #[trigger] decimal_text(n)[i] <= '9',
    decreases n,
{
    let text = decimal_text(n);
    if n >= 10 {
        let less = decimal_text(n / 10);
        lemma_decimal_text(n / 10);
        assert(text.drop_last() =~= less);
        assert forall|i: int| 0 <= i < text.len() implies '0' <= #[trigger] text[i] <= '9' by {
            if i < less.len() {
                assert(text[i] == less[i]);
            }
        }
    }
}

/// A port that is written in decimal is read back, also after a plus sign. A number that no port
/// has writes none, and neither does a text with anything else in it.
pub proof fn law_ports_are_read_back(n: nat, text: Seq<char>, i: int)
    ensures
        port_number(decimal_text(n)) == if 0 < n <= 65535 {
            Some(n as u16)
        } else {
            None
        },
        port_number(seq!['+'] + decimal_text(n)) == port_number(decimal_text(n)),
        0 <= i < text.len() && !('0' <= text[i] <= '9') && !(i == 0 && text[i] == '+')
            ==> port_number(text) is None,
        text.len() == 0 ==> port_number(text) is None,
{
    lemma_decimal_text(n);
    assert('0' <= decimal_text(n)[0] <= '9');
    assert((seq!['+'] + decimal_text(n)).skip(1) =~= decimal_text(n));
    if 0 <= i < text.len() && !('0' <= text[i] <= '9') && !(i == 0 && text[i] == '+') {
        if text[0] == '+' {
            assert(text.skip(1)[i - 1] == text[i]);
            lemma_not_decimal(text.skip(1), i - 1);
        } else {
            lemma_not_decimal(text, i);
        }
    }
}

/// Every one of `bytes` written as a percent sign and its two hexadecimal digits.
pub open spec fn percent_text(bytes: Seq<u8>) -> Seq<char> {
    Seq::new(
        3 * bytes.len(),
        |i: int|
            if i % 3 == 0 {
                '%'
            } else if i % 3 == 1 {
                hex_char(bytes[i / 3] as int / 16)
            } else {
                hex_char(bytes[i / 3] as int % 16)
            },
    )
}

/// Any text is read back from its bytes in percent-encoding.
pub proof fn law_percent_encoding_is_read_back(text: Seq<char>)
    ensures
        percent_sliceable(percent_text(encode_utf8(text))),
        percent_decoded(percent_text(encode_utf8(text))) == text,
{
    let bytes = encode_utf8(text);
    let written = percent_text(bytes);
    assert(is_ascii_chars(written));
    is_ascii_chars_encode_utf8(written);
    encode_utf8_valid_utf8(written);
    let encoded = encode_utf8(written);
    assert forall|i: int| 0 <= i < bytes.len() implies #[trigger] hex_pair(
        encoded[3 * i + 1],
        encoded[3 * i + 2],
    ) == Some(bytes[i]) && encoded[3 * i] == 0x25 by {
        assert(written[3 * i] == '%');
        assert(written[3 * i + 1] == hex_char(bytes[i] as int / 16));
        assert(written[3 * i + 2] == hex_char(bytes[i] as int % 16));
        assert(encoded[3 * i] == written[3 * i] as u8);
        assert(encoded[3 * i + 1] == written[3 * i + 1] as u8);
        assert(encoded[3 * i + 2] == written[3 * i + 2] as u8);
    }
    lemma_percent_from(encoded, bytes, 0);
    assert(bytes.skip(0) =~= bytes);
    encode_utf8_valid_utf8(text);
    encode_utf8_decode_utf8(text);
}

proof fn lemma_percent_from(encoded: Seq<u8>, bytes: Seq<u8>, from: int)
    requires
        0 <= from <= bytes.len(),
        encoded.len() == 3 * bytes.len(),
        valid_utf8(encoded),
        forall|i: int| 0 <= i < encoded.len() ==> #[trigger] encoded[i] < 0x80,
        forall|i: int|
            0 <= i < bytes.len() ==> #[trigger] hex_pair(encoded[3 * i + 1], encoded[3 * i + 2])
                == Some(bytes[i]) && encoded[3 * i] == 0x25,
    ensures
        percent_from(encoded, 3 * from) == bytes.skip(from),
        percent_cuts_from(encoded, 3 * from),
    decreases bytes.len() - from,
{
    if from < bytes.len() {
        lemma_percent_from(encoded, bytes, from + 1);
        assert(hex_pair(encoded[3 * from + 1], encoded[3 * from + 2]) == Some(bytes[from]));
        assert(seq![bytes[from]] + bytes.skip(from + 1) =~= bytes.skip(from));
        let end = 3 * from + 3;
        if end < encoded.len() {
            let byte = encoded[end];
            assert(byte < 0x80);
            is_char_boundary_iff_not_is_continuation_byte(encoded, end);
            assert(!is_continuation_byte(byte));
        } else {
            is_char_boundary_start_end_of_seq(encoded);
        }
    } else {
        assert(bytes.skip(from) =~= Seq::<u8>::empty());
    }
}

/// Without percent signs only the plus signs are not what they stand for: they stand for spaces.
pub proof fn law_plus_stands_for_a_space(bytes: Seq<u8>)
    requires
        forall|i: int| 0 <= i < bytes.len() ==> #[trigger] bytes[i] != 0x25,
    ensures
        percent_cuts_from(bytes, 0),
        percent_from(bytes, 0).len() == bytes.len(),
        forall|i: int|
            0 <= i < bytes.len() ==> #[trigger] percent_from(bytes, 0)[i] == if bytes[i] == 0x2b {
                0x20
            } else {
                bytes[i]
            },
{
    lemma_plus_from(bytes, 0);
}

proof fn lemma_plus_from(bytes: Seq<u8>, from: int)
    requires
        0 <= from <= bytes.len(),
        forall|i: int| 0 <= i < bytes.len() ==> #[trigger] bytes[i] != 0x25,
    ensures
        percent_cuts_from(bytes, from),
        percent_from(bytes, from).len() == bytes.len() - from,
        forall|i: int|
            0 <= i < bytes.len() - from ==> #[trigger] percent_from(bytes, from)[i] == if bytes[from
                + i] == 0x2b {
                0x20
            } else {
                bytes[from + i]
            },
    decreases bytes.len() - from,
{
    if from < bytes.len() {
        lemma_plus_from(bytes, from + 1);
        let rest = percent_from(bytes, from + 1);
        let all = percent_from(bytes, from);
        assert forall|i: int| 0 <= i < bytes.len() - from implies #[trigger] all[i] == if bytes[from
            + i] == 0x2b {
            0x20
        } else {
            bytes[from + i]
        } by {
            if i > 0 {
                assert(all[i] == rest[i - 1]);
            }
        }
    }
}

/// Every occurrence is replaced and nothing else: what comes before an occurrence stays, and what
/// follows it is gone through on its own.
pub proof fn law_every_occurrence_is_replaced(
    before: Seq<char>,
    rest: Seq<char>,
    from: Seq<char>,
    to: Seq<char>,
)
    requires
        from.len() > 0,
        !before.contains(from[0]),
    ensures
        replaced(before, from, to) == before,
        replaced(before + from + rest, from, to) == before + to + replaced(rest, from, to),
    decreases before.len(),
{
    let text = before + from + rest;
    if before.len() == 0 {
        assert(before =~= Seq::<char>::empty());
        assert(text.take(from.len() as int) =~= from);
        assert(text.skip(from.len() as int) =~= rest);
        assert(before + to + replaced(rest, from, to) =~= to + replaced(rest, from, to));
    } else {
        let less = before.skip(1);
        assert(before.contains(before[0]));
        assert forall|i: int| 0 <= i < less.len() implies less[i] != from[0] by {
            assert(less[i] == before[i + 1]);
            assert(before.contains(before[i + 1]));
        }
        law_every_occurrence_is_replaced(less, rest, from, to);
        assert(text[0] == before[0]);
        assert(text.take(from.len() as int)[0] == text[0]);
        assert(!has_prefix(text, from));
        if has_prefix(before, from) {
            assert(before.take(from.len() as int)[0] == before[0]);
        }
        assert(text.skip(1) =~= less + from + rest);
        assert(seq![before[0]] + less =~= before);
        assert(seq![before[0]] + (less + to + replaced(rest, from, to)) =~= before + to + replaced(
            rest,
            from,
            to,
        ));
    }
}

/// A hexadecimal digit counts the same in either case, and nothing else is one.
pub proof fn law_hexadecimal_digits(digit: u8, other: u8)
    requires
        digit < 16,
    ensures
        digit < 10 ==> hex_digit((0x30 + digit) as u8) == Some(digit),
        digit >= 10 ==> hex_digit((0x41 + digit - 10) as u8) == Some(digit),
        digit >= 10 ==> hex_digit((0x61 + digit - 10) as u8) == Some(digit),
        hex_digit(other) is Some ==> 0x30 <= other <= 0x39 || 0x41 <= other <= 0x46 || 0x61 <= other
            <= 0x66,
{
}

/// Hexadecimal is read as a whole or not at all: every two characters give one byte, in order, and
/// two that give none, or one too many, leave nothing to read.
pub proof fn law_hexadecimal_is_read_as_a_whole(text: Seq<char>)
    ensures
        ({
            let bytes = encode_utf8(text);
            match hex_decoded(text) {
                Some(read) => {
                    &&& 2 * read.len() == bytes.len()
                    &&& forall|i: int|
                        0 <= i < read.len() ==> hex_pair(bytes[2 * i], bytes[2 * i + 1]) == Some(
                            #[trigger] read[i],
                        )
                },
                None => bytes.len() % 2 == 1 || exists|i: int|
                    0 <= 2 * i < bytes.len() - 1 && #[trigger] hex_pair(
                        bytes[2 * i],
                        bytes[2 * i + 1],
                    ) is None,
            }
        }),
{
    let bytes = encode_utf8(text);
    if bytes.len() % 2 == 0 {
        lemma_hex_whole(bytes, 0);
    }
}

proof fn lemma_hex_whole(bytes: Seq<u8>, from: int)
    requires
        bytes.len() % 2 == 0,
        0 <= 2 * from <= bytes.len(),
    ensures
        match hex_from(bytes, 2 * from) {
            Some(read) => {
                &&& 2 * read.len() == bytes.len() - 2 * from
                &&& forall|i: int|
                    0 <= i < read.len() ==> hex_pair(
                        bytes[2 * (from + i)],
                        bytes[2 * (from + i) + 1],
                    ) == Some(#[trigger] read[i])
            },
            None => exists|i: int|
                0 <= 2 * i < bytes.len() - 1 && #[trigger] hex_pair(
                    bytes[2 * i],
                    bytes[2 * i + 1],
                ) is None,
        },
    decreases bytes.len() - 2 * from,
{
    if 2 * from < bytes.len() {
        lemma_hex_whole(bytes, from + 1);
        match hex_from(bytes, 2 * from) {
            Some(read) => {
                let rest = hex_from(bytes, 2 * (from + 1))->Some_0;
                assert forall|i: int| 0 <= i < read.len() implies hex_pair(
                    bytes[2 * (from + i)],
                    bytes[2 * (from + i) + 1],
                ) == Some(#[trigger] read[i]) by {
                    if i > 0 {
                        assert(read[i] == rest[i - 1]);
                    }
                }
            },
            None => {
                if hex_pair(bytes[2 * from], bytes[2 * from + 1]) is None {
                    assert(0 <= 2 * from < bytes.len() - 1);
                }
            },
        }
    }
}

} // verus!
