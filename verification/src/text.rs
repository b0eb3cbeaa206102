//! Text: comparison, order, digits and splitting.

use crate::record::views;
use vstd::arithmetic::div_mod::lemma_mod_breakdown;
use vstd::prelude::*;
use vstd::string::*;
use vstd::utf8::*;

verus! {

/// `String::push`: the character is appended.
pub assume_specification[ std::string::String::push ](s: &mut std::string::String, ch: char)
    ensures
        final(s)@ == old(s)@.push(ch),
;

/// A text as `Debug` shows it: in double quotes, with escapes.
pub uninterp spec fn debug_text(text: Seq<char>) -> Seq<char>;

/// `Debug` of `str`, as `format!` applies it for `{:?}`.
#[verifier::external_body]
pub(crate) fn debug_quoted(text: &str) -> (quoted: String)
    ensures
        quoted@ == debug_text(text@),
{
    format!("{:?}", text)
}

/// The bytes of `a` come before those of `b` in dictionary order.
pub open spec fn bytes_lt(a: Seq<u8>, b: Seq<u8>) -> bool
    decreases a.len(),
{
    if b.len() == 0 {
        false
    } else if a.len() == 0 {
        true
    } else if a[0] != b[0] {
        a[0] < b[0]
    } else {
        bytes_lt(a.drop_first(), b.drop_first())
    }
}

/// The order of strings: dictionary order of their UTF-8 bytes.
pub open spec fn text_lt(a: Seq<char>, b: Seq<char>) -> bool {
    bytes_lt(encode_utf8(a), encode_utf8(b))
}

/// How one string stands to another.
#[derive(Clone, Copy, Debug, PartialEq, Eq, Structural)]
pub enum TextOrder {
    Before,
    Same,
    After,
}

proof fn lemma_bytes_lt_total(a: Seq<u8>, b: Seq<u8>)
    ensures
        a == b || bytes_lt(a, b) || bytes_lt(b, a),
        !(bytes_lt(a, b) && bytes_lt(b, a)),
        bytes_lt(a, b) ==> a != b,
    decreases a.len(),
{
    if a.len() > 0 && b.len() > 0 && a[0] == b[0] {
        lemma_bytes_lt_total(a.drop_first(), b.drop_first());
        if a.drop_first() == b.drop_first() {
            assert(a =~= seq![a[0]] + a.drop_first());
            assert(b =~= seq![b[0]] + b.drop_first());
        }
    }
    if a.len() == 0 && b.len() == 0 {
        assert(a =~= b);
    }
}

proof fn lemma_bytes_lt_transitive(a: Seq<u8>, b: Seq<u8>, c: Seq<u8>)
    requires
        bytes_lt(a, b),
        bytes_lt(b, c),
    ensures
        bytes_lt(a, c),
    decreases a.len(),
{
    if a.len() > 0 && a[0] == b[0] && b[0] == c[0] {
        lemma_bytes_lt_transitive(a.drop_first(), b.drop_first(), c.drop_first());
    }
}

/// Two strings with the same bytes are the same.
pub proof fn lemma_encoding_is_injective(a: Seq<char>, b: Seq<char>)
    requires
        encode_utf8(a) == encode_utf8(b),
    ensures
        a == b,
{
    encode_utf8_decode_utf8(a);
    encode_utf8_decode_utf8(b);
}

/// Of two strings exactly one comes first, unless they are the same.
pub proof fn lemma_text_lt_total(a: Seq<char>, b: Seq<char>)
    ensures
        a == b || text_lt(a, b) || text_lt(b, a),
        !(text_lt(a, b) && text_lt(b, a)),
        text_lt(a, b) ==> a != b,
{
    lemma_bytes_lt_total(encode_utf8(a), encode_utf8(b));
    if encode_utf8(a) == encode_utf8(b) {
        lemma_encoding_is_injective(a, b);
    }
}

/// The order of strings is transitive.
pub proof fn lemma_text_lt_transitive(a: Seq<char>, b: Seq<char>, c: Seq<char>)
    requires
        text_lt(a, b),
        text_lt(b, c),
    ensures
        text_lt(a, c),
{
    lemma_bytes_lt_transitive(encode_utf8(a), encode_utf8(b), encode_utf8(c));
}

/// Compares two strings in dictionary order of their bytes.
pub fn text_order(a: &str, b: &str) -> (order: TextOrder)
    ensures
        match order {
            TextOrder::Before => text_lt(a@, b@) && a@ != b@,
            TextOrder::Same => a@ == b@,
            TextOrder::After => text_lt(b@, a@) && a@ != b@,
        },
{
    let left = a.as_bytes();
    let right = b.as_bytes();
    let ghost (l, r) = (left@, right@);
    proof {
        assert(l.skip(0) =~= l);
        assert(r.skip(0) =~= r);
        lemma_text_lt_total(a@, b@);
    }
    let mut i: usize = 0;
    while i < left.len() && i < right.len()
        invariant
            i <= l.len(),
            i <= r.len(),
            l == left@,
            r == right@,
            l == encode_utf8(a@),
            r == encode_utf8(b@),
            l.take(i as int) == r.take(i as int),
            bytes_lt(l, r) == bytes_lt(l.skip(i as int), r.skip(i as int)),
            bytes_lt(r, l) == bytes_lt(r.skip(i as int), l.skip(i as int)),
            text_lt(a@, b@) ==> a@ != b@,
            text_lt(b@, a@) ==> a@ != b@,
        decreases l.len() - i,
    {
        if left[i] < right[i] {
            return TextOrder::Before;
        }
        if left[i] > right[i] {
            return TextOrder::After;
        }
        proof {
            assert(l.skip(i as int).drop_first() =~= l.skip(i + 1));
            assert(r.skip(i as int).drop_first() =~= r.skip(i + 1));
            assert(l.take(i + 1) =~= l.take(i as int).push(l[i as int]));
            assert(r.take(i + 1) =~= r.take(i as int).push(r[i as int]));
        }
        i += 1;
    }
    if left.len() < right.len() {
        TextOrder::Before
    } else if left.len() > right.len() {
        TextOrder::After
    } else {
        proof {
            assert(l.take(i as int) =~= l);
            assert(r.take(i as int) =~= r);
            lemma_encoding_is_injective(a@, b@);
        }
        TextOrder::Same
    }
}

/// Whether two strings are the same.
pub fn same_text(a: &str, b: &str) -> (same: bool)
    ensures
        same == (a@ == b@),
{
    match text_order(a, b) {
        TextOrder::Same => true,
        _ => false,
    }
}

/// The decimal digit of a number below ten.
pub open spec fn digit_char(n: int) -> char {
    (48 + n) as char
}

/// A number in decimal, without leading zeros.
pub open spec fn decimal_text(n: nat) -> Seq<char>
    decreases n,
{
    if n < 10 {
        seq![digit_char(n as int)]
    } else {
        decimal_text(n / 10).push(digit_char((n % 10) as int))
    }
}

/// A signed number in decimal.
pub open spec fn signed_text(n: int) -> Seq<char> {
    if n < 0 {
        seq!['-'] + decimal_text((-n) as nat)
    } else {
        decimal_text(n as nat)
    }
}

/// Writes a number in decimal.
pub fn decimal(n: u64) -> (written: String)
    ensures
        written@ == decimal_text(n as nat),
    decreases n,
{
    let digit: u8 = (n % 10) as u8;
    let mut written = if n < 10 {
        String::new()
    } else {
        decimal(n / 10)
    };
    written.push((48u8 + digit) as char);
    written
}

/// Writes a signed number in decimal.
pub fn signed_decimal(n: i64) -> (written: String)
    ensures
        written@ == signed_text(n as int),
{
    if n >= 0 {
        decimal(n as u64)
    } else {
        let mut written = String::new();
        written.push('-');
        let magnitude: u64 = (-(n as i128)) as u64;
        written.append(decimal(magnitude).as_str());
        written
    }
}

/// Different numbers are written differently.
#[verifier::spinoff_prover]
pub proof fn lemma_decimal_injective(a: nat, b: nat)
    requires
        decimal_text(a) == decimal_text(b),
    ensures
        a == b,
    decreases a + b,
{
    lemma_decimal_nonempty(a / 10);
    lemma_decimal_nonempty(b / 10);
    let left = decimal_text(a);
    let right = decimal_text(b);
    assert(digit_char((a % 10) as int) as int == 48 + a % 10);
    assert(digit_char((b % 10) as int) as int == 48 + b % 10);
    if a < 10 && b < 10 {
        assert(left[0] == digit_char(a as int));
        assert(right[0] == digit_char(b as int));
        assert(digit_char(a as int) as int == 48 + a);
        assert(digit_char(b as int) as int == 48 + b);
    } else if a >= 10 && b >= 10 {
        assert(left.last() == digit_char((a % 10) as int));
        assert(right.last() == digit_char((b % 10) as int));
        assert(left.drop_last() =~= decimal_text(a / 10));
        assert(right.drop_last() =~= decimal_text(b / 10));
        lemma_decimal_injective(a / 10, b / 10);
        assert(48 + a % 10 == 48 + b % 10);
        assert(a == 10 * (a / 10) + a % 10);
        assert(b == 10 * (b / 10) + b % 10);
    } else if a < 10 {
        assert(left.len() == 1);
        assert(right == decimal_text(b / 10).push(digit_char((b % 10) as int)));
        assert(right.len() >= 2);
    } else {
        assert(right.len() == 1);
        assert(left == decimal_text(a / 10).push(digit_char((a % 10) as int)));
        assert(left.len() >= 2);
    }
}

/// A number has at least one digit, and no sign.
pub proof fn lemma_decimal_nonempty(n: nat)
    ensures
        decimal_text(n).len() >= 1,
        forall|i: int| 0 <= i < decimal_text(n).len() ==> '0' <= #[trigger] decimal_text(n)[i] <= '9',
    decreases n,
{
    if n >= 10 {
        lemma_decimal_nonempty(n / 10);
    }
}

/// The lower-case hexadecimal digit of a number below sixteen.
pub open spec fn hex_char(n: int) -> char {
    if n < 10 {
        (48 + n) as char
    } else {
        (87 + n) as char
    }
}

/// The last `width` hexadecimal digits of a number.
pub open spec fn hex_text(n: nat, width: nat) -> Seq<char>
    decreases width,
{
    if width == 0 {
        Seq::empty()
    } else {
        hex_text(n / 16, (width - 1) as nat).push(hex_char((n % 16) as int))
    }
}

/// Writes the last `width` hexadecimal digits of a number.
pub fn hex(n: u64, width: usize) -> (written: String)
    ensures
        written@ == hex_text(n as nat, width as nat),
    decreases width,
{
    if width == 0 {
        return String::new();
    }
    let digit: u8 = (n % 16) as u8;
    let mut written = hex(n / 16, width - 1);
    if digit < 10 {
        written.push((48u8 + digit) as char);
    } else {
        written.push((87u8 + digit) as char);
    }
    written
}

/// Hexadecimal text has the width asked for, and lower-case digits only.
pub proof fn lemma_hex_digits(n: nat, width: nat)
    ensures
        hex_text(n, width).len() == width,
        forall|i: int|
            0 <= i < width ==> ('0' <= #[trigger] hex_text(n, width)[i] <= '9' || 'a' <= hex_text(
                n,
                width,
            )[i] <= 'f'),
    decreases width,
{
    if width > 0 {
        lemma_hex_digits(n / 16, (width - 1) as nat);
    }
}

/// A power of sixteen.
pub open spec fn hex_range(width: nat) -> nat
    decreases width,
{
    if width == 0 {
        1
    } else {
        16 * hex_range((width - 1) as nat)
    }
}

proof fn lemma_hex_suffix(a: nat, b: nat, width: nat)
    requires
        hex_text(a, width) == hex_text(b, width),
    ensures
        a % hex_range(width) == b % hex_range(width),
        hex_range(width) > 0,
    decreases width,
{
    if width > 0 {
        let n = (width - 1) as nat;
        let left = hex_text(a, width);
        let right = hex_text(b, width);
        assert(left.drop_last() =~= hex_text(a / 16, n));
        assert(right.drop_last() =~= hex_text(b / 16, n));
        assert(left.last() == hex_char((a % 16) as int));
        assert(right.last() == hex_char((b % 16) as int));
        assert(hex_char((a % 16) as int) as int == if a % 16 < 10 { 48 + a % 16 } else { 87 + a % 16 });
        assert(hex_char((b % 16) as int) as int == if b % 16 < 10 { 48 + b % 16 } else { 87 + b % 16 });
        lemma_hex_suffix(a / 16, b / 16, n);
        let r = hex_range(n);
        lemma_mod_breakdown(a as int, 16, r as int);
        lemma_mod_breakdown(b as int, 16, r as int);
    }
}

/// Different numbers of at most sixteen digits are written differently.
pub proof fn lemma_hex_injective(a: nat, b: nat, width: nat)
    requires
        width == 16,
        a <= u64::MAX,
        b <= u64::MAX,
        hex_text(a, width) == hex_text(b, width),
    ensures
        a == b,
{
    lemma_hex_suffix(a, b, width);
    assert(hex_range(16) == 0x1_0000_0000_0000_0000) by {
        reveal_with_fuel(hex_range, 17);
    }
    vstd::arithmetic::div_mod::lemma_small_mod(a, hex_range(16));
    vstd::arithmetic::div_mod::lemma_small_mod(b, hex_range(16));
}

/// The pieces of a text between the separators; without a separator, the text
/// itself.
pub open spec fn split_text(s: Seq<char>, separator: char) -> Seq<Seq<char>>
    decreases s.len(),
{
    if s.len() == 0 {
        seq![Seq::empty()]
    } else {
        let pieces = split_text(s.drop_last(), separator);
        if s.last() == separator {
            pieces.push(Seq::empty())
        } else {
            pieces.drop_last().push(pieces.last().push(s.last()))
        }
    }
}

/// Splits a text at the separators.
pub fn split(s: &str, separator: char) -> (pieces: Vec<String>)
    ensures
        views(pieces@) == split_text(s@, separator),
        pieces@.len() >= 1,
{
    let mut pieces: Vec<String> = Vec::new();
    let mut current = String::new();
    proof {
        assert(s@.take(0) =~= Seq::empty());
        assert(views(pieces@).push(current@) =~= split_text(s@.take(0), separator));
    }
    for c in it: s.chars()
        invariant
            it.seq() == s@,
            views(pieces@).push(current@) == split_text(s@.take(it.index()), separator),
    {
        let ghost earlier = views(pieces@);
        let ghost piece = current@;
        proof {
            assert(s@.take(it.index() + 1).drop_last() =~= s@.take(it.index()));
            assert(s@.take(it.index() + 1).last() == c);
            assert(earlier.push(piece).drop_last() =~= earlier);
        }
        if c == separator {
            pieces.push(current);
            current = String::new();
            proof {
                assert(views(pieces@) =~= earlier.push(piece));
            }
        } else {
            current.push(c);
        }
    }
    proof {
        assert(s@.take(s@.len() as int) =~= s@);
    }
    let ghost earlier = views(pieces@);
    let ghost piece = current@;
    pieces.push(current);
    proof {
        assert(views(pieces@) =~= earlier.push(piece));
    }
    pieces
}

/// White space, as Unicode defines the property.
pub open spec fn is_white_space(c: char) -> bool {
    ||| '\u{9}' <= c <= '\u{d}'
    ||| c == ' '
    ||| c == '\u{85}'
    ||| c == '\u{a0}'
    ||| c == '\u{1680}'
    ||| '\u{2000}' <= c <= '\u{200a}'
    ||| c == '\u{2028}'
    ||| c == '\u{2029}'
    ||| c == '\u{202f}'
    ||| c == '\u{205f}'
    ||| c == '\u{3000}'
}

fn white_space(c: char) -> (white: bool)
    ensures
        white == is_white_space(c),
{
    ('\u{9}' <= c && c <= '\u{d}') || c == ' ' || c == '\u{85}' || c == '\u{a0}' || c == '\u{1680}'
        || ('\u{2000}' <= c && c <= '\u{200a}') || c == '\u{2028}' || c == '\u{2029}' || c
        == '\u{202f}' || c == '\u{205f}' || c == '\u{3000}'
}

/// A text without the white space at its start.
pub open spec fn trim_start_text(s: Seq<char>) -> Seq<char>
    decreases s.len(),
{
    if s.len() > 0 && is_white_space(s[0]) {
        trim_start_text(s.drop_first())
    } else {
        s
    }
}

/// A text without the white space at its end.
pub open spec fn trim_end_text(s: Seq<char>) -> Seq<char>
    decreases s.len(),
{
    if s.len() > 0 && is_white_space(s.last()) {
        trim_end_text(s.drop_last())
    } else {
        s
    }
}

/// A text without the white space at its ends.
pub open spec fn trim_text(s: Seq<char>) -> Seq<char> {
    trim_end_text(trim_start_text(s))
}

/// Removes the white space at the ends of a text.
pub fn trim(s: &str) -> (trimmed: String)
    ensures
        trimmed@ == trim_text(s@),
{
    let n: usize = s.unicode_len();
    let mut from: usize = 0;
    proof {
        assert(s@.skip(0) =~= s@);
    }
    while from < n && white_space(s.get_char(from))
        invariant
            from <= n,
            n == s@.len(),
            trim_start_text(s@) == trim_start_text(s@.skip(from as int)),
        decreases n - from,
    {
        proof {
            assert(s@.skip(from as int).drop_first() =~= s@.skip(from + 1));
            assert(s@.skip(from as int)[0] == s@[from as int]);
        }
        from += 1;
    }
    proof {
        if from < n {
            assert(s@.skip(from as int)[0] == s@[from as int]);
        }
        assert(trim_start_text(s@) == s@.skip(from as int));
        assert(s@.subrange(from as int, n as int) =~= s@.skip(from as int));
    }
    let mut to: usize = n;
    while to > from && white_space(s.get_char(to - 1))
        invariant
            from <= to <= n,
            n == s@.len(),
            trim_text(s@) == trim_end_text(s@.subrange(from as int, to as int)),
        decreases to,
    {
        proof {
            let here = s@.subrange(from as int, to as int);
            assert(here.drop_last() =~= s@.subrange(from as int, to - 1));
            assert(here.last() == s@[to - 1]);
        }
        to -= 1;
    }
    proof {
        let here = s@.subrange(from as int, to as int);
        if to > from {
            assert(here.last() == s@[to - 1]);
        }
    }
    s.substring_char(from, to).to_owned()
}

/// A text ends with another one.
pub open spec fn ends_with_text(s: Seq<char>, end: Seq<char>) -> bool {
    s.len() >= end.len() && s.skip(s.len() - end.len()) == end
}

/// Whether a text ends with another one.
pub fn ends_with(s: &str, end: &str) -> (ends: bool)
    ensures
        ends == ends_with_text(s@, end@),
{
    let n: usize = s.unicode_len();
    let m: usize = end.unicode_len();
    if n < m {
        return false;
    }
    proof {
        assert(s@.subrange(n - m, n as int) =~= s@.skip(n - m));
    }
    same_text(s.substring_char(n - m, n), end)
}

} // verus!
