//! What holds of every text that is ordered, written, split or trimmed.

use crate::path::{file_name_text, join_text, path_model, path_names};
use crate::text::{
    bytes_lt, decimal_text, ends_with_text, hex_text, is_white_space, signed_text, split_text, text_lt,
    trim_end_text, trim_start_text, trim_text,
};
use vstd::prelude::*;
use vstd::utf8::*;

verus! {

proof fn lemma_bytes_part(a: Seq<u8>, b: Seq<u8>) -> (k: int)
    requires
        bytes_lt(a, b),
    ensures
        0 <= k <= a.len(),
        k < b.len(),
        k == a.len() || a[k] < b[k],
        a.take(k) == b.take(k),
    decreases a.len(),
{
    if a.len() == 0 || a[0] != b[0] {
        assert(a.take(0) =~= b.take(0));
        0
    } else {
        let x = a.drop_first();
        let y = b.drop_first();
        let k = lemma_bytes_part(x, y);
        assert forall|j: int| 0 <= j < k + 1 implies a[j] == b[j] by {
            if j > 0 {
                assert(x.take(k)[j - 1] == y.take(k)[j - 1]);
            }
        }
        assert(a.take(k + 1) =~= b.take(k + 1));
        k + 1
    }
}

proof fn lemma_bytes_before(a: Seq<u8>, b: Seq<u8>, k: int)
    requires
        0 <= k <= a.len(),
        k < b.len(),
        k == a.len() || a[k] < b[k],
        a.take(k) == b.take(k),
    ensures
        bytes_lt(a, b),
    decreases a.len(),
{
    if k > 0 {
        assert(a[0] == a.take(k)[0] && b[0] == b.take(k)[0]);
        let x = a.drop_first();
        let y = b.drop_first();
        assert(a.take(k).drop_first() =~= x.take(k - 1));
        assert(b.take(k).drop_first() =~= y.take(k - 1));
        lemma_bytes_before(x, y, k - 1);
    }
}

/// A text that comes before another ends, or goes on with a smaller byte, behind
/// the bytes that both start with.
pub proof fn law_texts_in_order_part_upwards(a: Seq<char>, b: Seq<char>) -> (k: int)
    requires
        text_lt(a, b),
    ensures
        0 <= k <= encode_utf8(a).len(),
        k < encode_utf8(b).len(),
        k == encode_utf8(a).len() || encode_utf8(a)[k] < encode_utf8(b)[k],
        encode_utf8(a).take(k) == encode_utf8(b).take(k),
{
    lemma_bytes_part(encode_utf8(a), encode_utf8(b))
}

/// A text that ends, or goes on with a smaller byte, behind the bytes that it
/// starts with in common with another comes before it.
pub proof fn law_texts_that_part_upwards_are_in_order(a: Seq<char>, b: Seq<char>, k: int)
    requires
        0 <= k <= encode_utf8(a).len(),
        k < encode_utf8(b).len(),
        k == encode_utf8(a).len() || encode_utf8(a)[k] < encode_utf8(b)[k],
        encode_utf8(a).take(k) == encode_utf8(b).take(k),
    ensures
        text_lt(a, b),
{
    lemma_bytes_before(encode_utf8(a), encode_utf8(b), k);
}

/// A number is written by its last digit behind the rest of it, from `0` to `9`;
/// a negative one with a sign in front.
pub proof fn law_numbers_are_written_in_decimal(n: nat, m: int)
    ensures
        n < 10 ==> decimal_text(n) == seq![(48 + n) as char],
        n >= 10 ==> decimal_text(n) == decimal_text(n / 10).push((48 + n % 10) as char),
        m >= 0 ==> signed_text(m) == decimal_text(m as nat),
        m < 0 ==> signed_text(m) == seq!['-'] + decimal_text((-m) as nat),
{
}

/// A number is written in hexadecimal by its last digit behind the rest of it,
/// from `0` to `9` and from `a` to `f`.
pub proof fn law_numbers_are_written_in_hexadecimal(n: nat, width: nat)
    ensures
        hex_text(n, 0) == Seq::<char>::empty(),
        hex_text(n, width + 1) == hex_text(n / 16, width).push(
            if n % 16 < 10 {
                (48 + n % 16) as char
            } else {
                (87 + n % 16) as char
            },
        ),
{
}

/// A text without the separator is its own only piece; a separator parts what
/// stands before it from the last piece behind it.
pub proof fn law_texts_are_split_at_separators(
    before: Seq<char>,
    last: Seq<char>,
    separator: char,
)
    requires
        forall|i: int| 0 <= i < last.len() ==> #[trigger] last[i] != separator,
    ensures
        split_text(last, separator) == seq![last],
        split_text(before + seq![separator] + last, separator) == split_text(
            before,
            separator,
        ).push(last),
    decreases last.len(),
{
    let whole = before + seq![separator] + last;
    if last.len() == 0 {
        assert(last =~= Seq::empty());
        assert(whole.drop_last() =~= before);
        assert(whole.last() == separator);
        assert(split_text(last, separator) =~= seq![last]);
    } else {
        let shorter = last.drop_last();
        assert(forall|i: int| 0 <= i < shorter.len() ==> shorter[i] == #[trigger] last[i]);
        law_texts_are_split_at_separators(before, shorter, separator);
        assert(last[last.len() - 1] != separator);
        assert(shorter.push(last.last()) =~= last);
        assert(seq![shorter].drop_last().push(last) =~= seq![last]);
        assert(whole.drop_last() =~= before + seq![separator] + shorter);
        assert(whole.last() == last.last());
        let pieces = split_text(before, separator).push(shorter);
        assert(pieces.drop_last() =~= split_text(before, separator));
        assert(pieces.last() == shorter);
    }
}

proof fn lemma_trim_start(s: Seq<char>) -> (i: int)
    ensures
        0 <= i <= s.len(),
        trim_start_text(s) == s.skip(i),
        forall|k: int| 0 <= k < i ==> is_white_space(#[trigger] s[k]),
        i < s.len() ==> !is_white_space(s[i]),
    decreases s.len(),
{
    if s.len() > 0 && is_white_space(s[0]) {
        let rest = s.drop_first();
        let i = lemma_trim_start(rest);
        assert(rest.skip(i) =~= s.skip(i + 1));
        assert forall|k: int| 0 <= k < i + 1 implies is_white_space(#[trigger] s[k]) by {
            if k > 0 {
                assert(rest[k - 1] == s[k]);
            }
        }
        i + 1
    } else {
        assert(s.skip(0) =~= s);
        0
    }
}

proof fn lemma_trim_end(s: Seq<char>) -> (j: int)
    ensures
        0 <= j <= s.len(),
        trim_end_text(s) == s.take(j),
        forall|k: int| j <= k < s.len() ==> is_white_space(#[trigger] s[k]),
        j > 0 ==> !is_white_space(s[j - 1]),
    decreases s.len(),
{
    if s.len() > 0 && is_white_space(s.last()) {
        let rest = s.drop_last();
        let j = lemma_trim_end(rest);
        assert(rest.take(j) =~= s.take(j));
        assert forall|k: int| j <= k < s.len() implies is_white_space(#[trigger] s[k]) by {
            if k < rest.len() {
                assert(rest[k] == s[k]);
            }
        }
        j
    } else {
        assert(s.take(s.len() as int) =~= s);
        s.len() as int
    }
}

/// Trimming takes away the white space at both ends of a text and nothing else.
pub proof fn law_trimming_takes_white_space_only(s: Seq<char>) -> (ends: (int, int))
    ensures
        0 <= ends.0 <= ends.1 <= s.len(),
        trim_text(s) == s.subrange(ends.0, ends.1),
        forall|k: int|
            0 <= k < ends.0 || ends.1 <= k < s.len() ==> is_white_space(#[trigger] s[k]),
        ends.0 < ends.1 ==> !is_white_space(s[ends.0]) && !is_white_space(s[ends.1 - 1]),
{
    let i = lemma_trim_start(s);
    let rest = s.skip(i);
    let j = lemma_trim_end(rest);
    assert(rest.take(j) =~= s.subrange(i, i + j));
    assert forall|k: int| 0 <= k < i || i + j <= k < s.len() implies is_white_space(
        #[trigger] s[k],
    ) by {
        if k >= i {
            assert(rest[k - i] == s[k]);
        }
    }
    (i, i + j)
}

/// Spaces, tabs and ends of lines are white space; what can be printed in ASCII
/// is not.
pub proof fn law_white_space_cannot_be_seen(c: char)
    ensures
        c == ' ' || c == '\t' || c == '\n' || c == '\r' ==> is_white_space(c),
        '!' <= c <= '~' ==> !is_white_space(c),
{
}

/// A text ends with another exactly where something stands before it.
pub proof fn law_ends_stand_behind_a_start(s: Seq<char>, end: Seq<char>, start: Seq<char>)
    ensures
        ends_with_text(start + end, end),
        ends_with_text(s, end) ==> s == s.take(s.len() - end.len()) + end,
{
    assert((start + end).skip((start + end).len() - end.len()) =~= end);
    if ends_with_text(s, end) {
        assert(s =~= s.take(s.len() - end.len()) + s.skip(s.len() - end.len()));
    }
}

/// A path is joined to another with one separator between them; one that starts
/// at the root takes the place of the other.
pub proof fn law_paths_are_joined_by_one_separator(base: Seq<char>, path: Seq<char>)
    ensures
        path.len() > 0 && path[0] == '/' ==> join_text(base, path) == path,
        !(path.len() > 0 && path[0] == '/') && base.len() > 0 && base.last() == '/' ==> join_text(
            base,
            path,
        ) == base + path,
        !(path.len() > 0 && path[0] == '/') && base.len() > 0 && base.last() != '/' ==> join_text(
            base,
            path,
        ) == base + seq!['/'] + path,
        !(path.len() > 0 && path[0] == '/') && base.len() == 0 ==> join_text(base, path) == path,
{
    if base.len() == 0 {
        assert(base + path =~= path);
    }
}

/// The file name of a path is what stands behind its last separator, unless that
/// is the path's own or its parent's directory.
pub proof fn law_file_names_stand_last(base: Seq<char>, name: Seq<char>)
    requires
        name.len() > 0,
        name != "."@,
        name != ".."@,
        forall|i: int| 0 <= i < name.len() ==> #[trigger] name[i] != '/',
    ensures
        file_name_text(base + seq!['/'] + name) == Some(name),
        file_name_text(name) == Some(name),
{
    law_texts_are_split_at_separators(base, name, '/');
    let pieces = split_text(base, '/').push(name);
    assert(pieces.drop_last() =~= split_text(base, '/'));
    assert(pieces.last() == name);
    let alone = seq![name];
    assert(alone.drop_last() =~= Seq::empty());
    assert(alone.last() == name);
    assert(path_names(alone.drop_last()) =~= Seq::empty());
}

/// Two paths that say the same have the same names on them behind the same start:
/// one more name, or another one, makes another path.
pub proof fn law_paths_differ_by_their_names(
    left: Seq<char>,
    right: Seq<char>,
    name: Seq<char>,
    other: Seq<char>,
)
    requires
        name.len() > 0,
        name != "."@,
        other.len() > 0,
        other != "."@,
        left.len() > 0,
        right.len() > 0,
        forall|i: int| 0 <= i < name.len() ==> #[trigger] name[i] != '/',
        forall|i: int| 0 <= i < other.len() ==> #[trigger] other[i] != '/',
    ensures
        path_model(left + seq!['/'] + name) == path_model(right + seq!['/'] + other) <==> name
            == other && path_model(left) == path_model(right),
        path_model(left + seq!['/']) == path_model(left),
        path_model(left + seq!['/'] + "."@) == path_model(left),
        path_model("."@ + seq!['/'] + name) != path_model(name),
        path_model(left + seq!['/'] + name) != path_model(left),
{
    let none = Seq::<char>::empty();
    law_texts_are_split_at_separators(left, name, '/');
    law_texts_are_split_at_separators(right, other, '/');
    law_texts_are_split_at_separators(left, none, '/');
    assert(left + seq!['/'] + none =~= left + seq!['/']);
    reveal_strlit(".");
    let dot = "."@;
    law_texts_are_split_at_separators(left, dot, '/');
    law_texts_are_split_at_separators(dot, name, '/');
    law_texts_are_split_at_separators(none, dot, '/');
    assert((left + seq!['/'] + dot)[0] == left[0]);
    assert(split_text(name, '/')[0] == name);
    assert(seq![dot].push(name)[0] == dot);
    let a = split_text(left, '/');
    let b = split_text(right, '/');
    lemma_has_a_piece(left, '/');
    lemma_has_a_piece(right, '/');
    assert(a.push(name).drop_last() =~= a);
    assert(b.push(other).drop_last() =~= b);
    assert(a.push(none).drop_last() =~= a);
    assert(a.push(dot).drop_last() =~= a);
    assert(a.push(dot)[0] == a[0]);
    assert(a.push(name)[0] == a[0]);
    assert(b.push(other)[0] == b[0]);
    assert(a.push(none)[0] == a[0]);
    let x = path_names(a);
    let y = path_names(b);
    if x.push(name) == y.push(other) {
        assert(x.push(name).last() == y.push(other).last());
        assert(x.push(name).drop_last() =~= x);
        assert(y.push(other).drop_last() =~= y);
    }
    assert(x.push(name).len() != x.len());
    assert((left + seq!['/'] + name)[0] == left[0]);
    assert((right + seq!['/'] + other)[0] == right[0]);
    assert((left + seq!['/'])[0] == left[0]);
}

proof fn lemma_has_a_piece(s: Seq<char>, separator: char)
    ensures
        split_text(s, separator).len() > 0,
    decreases s.len(),
{
    if s.len() > 0 {
        lemma_has_a_piece(s.drop_last(), separator);
    }
}

} // verus!
