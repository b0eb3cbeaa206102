//! Names of Unix sockets.

use crate::text::{hex, hex_text, lemma_hex_digits};
use vstd::prelude::*;
use vstd::string::*;
use vstd::utf8::*;

verus! {

/// The longest path of a Unix socket. Linux has room for 108 bytes including the
/// terminator; one byte less is portable.
pub const MAX_SOCKET_PATH_LEN: usize = 107;

/// The start value of the 64-bit FNV-1a hash.
pub const OFFSET_BASIS: u64 = 0xcbf29ce484222325;

/// The factor of the 64-bit FNV-1a hash.
pub const PRIME: u64 = 0x0000_0100_0000_01b3;

/// A character that may stand in a socket name: an ASCII letter or digit, `-` or
/// `_`.
pub open spec fn is_safe_char(c: char) -> bool {
    'a' <= c <= 'z' || 'A' <= c <= 'Z' || '0' <= c <= '9' || c == '-' || c == '_'
}

/// Whether a character may not stand in a socket name.
pub fn invalid_char(c: char) -> (invalid: bool)
    ensures
        invalid == !is_safe_char(c),
{
    !(('a' <= c && c <= 'z') || ('A' <= c && c <= 'Z') || ('0' <= c && c <= '9') || c == '-' || c
        == '_')
}

/// The 64-bit FNV-1a hash: each byte is mixed in and multiplied.
pub open spec fn fnv1a64_of(bytes: Seq<u8>) -> u64
    decreases bytes.len(),
{
    if bytes.len() == 0 {
        OFFSET_BASIS
    } else {
        (fnv1a64_of(bytes.drop_last()) ^ (bytes.last() as u64)).wrapping_mul(PRIME)
    }
}

/// Hashes bytes.
pub fn fnv1a64(bytes: &[u8]) -> (hash: u64)
    ensures
        hash == fnv1a64_of(bytes@),
{
    let mut hash: u64 = OFFSET_BASIS;
    let mut i: usize = 0;
    proof {
        assert(bytes@.take(0) =~= Seq::empty());
    }
    while i < bytes.len()
        invariant
            i <= bytes@.len(),
            hash == fnv1a64_of(bytes@.take(i as int)),
        decreases bytes@.len() - i,
    {
        proof {
            assert(bytes@.take(i + 1).drop_last() =~= bytes@.take(i as int));
            assert(bytes@.take(i + 1).last() == bytes@[i as int]);
        }
        hash = (hash ^ (bytes[i] as u64)).wrapping_mul(PRIME);
        i += 1;
    }
    proof {
        assert(bytes@.take(i as int) =~= bytes@);
    }
    hash
}

/// A name with every unsafe character replaced by `_`.
pub open spec fn sanitized(name: Seq<char>) -> Seq<char> {
    Seq::new(
        name.len(),
        |i: int|
            if is_safe_char(name[i]) {
                name[i]
            } else {
                '_'
            },
    )
}

/// The part of a socket name that tells names apart: `-` and the hash of the
/// name in hexadecimal.
pub open spec fn hash_suffix(name: Seq<char>) -> Seq<char> {
    seq!['-'] + hex_text(fnv1a64_of(encode_utf8(name)) as nat, 16)
}

/// The socket name of a name: as much of the sanitized name as there is room
/// for, and the hash suffix. Where there is not even room for the suffix, its
/// first characters.
pub open spec fn socket_name(name: Seq<char>, max_len: nat) -> Seq<char> {
    let suffix = hash_suffix(name);
    let readable = sanitized(name);
    if max_len < 17 {
        suffix.take(max_len as int)
    } else if readable.len() <= max_len - 17 {
        readable + suffix
    } else {
        readable.take(max_len - 17) + suffix
    }
}

/// Derives a socket name that is safe in a file system, differs for different
/// names as far as their hashes do, and is never longer than `max_len`.
///
/// Replacing characters alone would give `acme.com/gpu` and `acme_com/gpu` one
/// name; the hash of the original name tells them apart. The readable part is
/// cut where there is no room for it, never the hash, except below 17 bytes.
pub fn sanitize_socket_name(name: &str, max_len: usize) -> (socket: String)
    ensures
        socket@ == socket_name(name@, max_len as nat),
{
    let ghost readable = sanitized(name@);
    let mut suffix = String::new();
    suffix.push('-');
    suffix.append(hex(fnv1a64(name.as_bytes()), 16).as_str());
    proof {
        lemma_hex_digits(fnv1a64_of(encode_utf8(name@)) as nat, 16);
        assert(suffix@ =~= hash_suffix(name@));
    }
    if max_len < 17 {
        proof {
            assert(suffix@.subrange(0, max_len as int) =~= suffix@.take(max_len as int));
        }
        return suffix.as_str().substring_char(0, max_len).to_owned();
    }
    let budget: usize = max_len - 17;
    let mut socket = String::new();
    let mut room: usize = budget;
    proof {
        assert(readable.take(0) =~= Seq::empty());
    }
    for c in it: name.chars()
        invariant
            it.seq() == name@,
            readable == sanitized(name@),
            room == if it.index() <= budget {
                budget - it.index()
            } else {
                0
            },
            socket@ == readable.take(
                if it.index() <= budget {
                    it.index()
                } else {
                    budget as int
                },
            ),
    {
        if room > 0 {
            proof {
                assert(readable.take(it.index() + 1) =~= readable.take(it.index()).push(
                    readable[it.index()],
                ));
            }
            if invalid_char(c) {
                socket.push('_');
            } else {
                socket.push(c);
            }
            room -= 1;
        }
    }
    proof {
        assert(readable.take(readable.len() as int) =~= readable);
    }
    socket.append(suffix.as_str());
    socket
}

proof fn lemma_suffix(name: Seq<char>)
    ensures
        hash_suffix(name).len() == 17,
        hash_suffix(name)[0] == '-',
        forall|i: int|
            1 <= i < 17 ==> ('0' <= #[trigger] hash_suffix(name)[i] <= '9' || 'a' <= hash_suffix(
                name,
            )[i] <= 'f'),
{
    let digits = hex_text(fnv1a64_of(encode_utf8(name)) as nat, 16);
    lemma_hex_digits(fnv1a64_of(encode_utf8(name)) as nat, 16);
    assert forall|i: int| 1 <= i < 17 implies ('0' <= #[trigger] hash_suffix(name)[i] <= '9' || 'a'
        <= hash_suffix(name)[i] <= 'f') by {
        assert(hash_suffix(name)[i] == digits[i - 1]);
    }
}

/// A socket name holds only characters that are safe in a file system.
pub proof fn law_socket_names_are_safe(name: Seq<char>, max_len: nat, i: int)
    requires
        0 <= i < socket_name(name, max_len).len(),
    ensures
        is_safe_char(socket_name(name, max_len)[i]),
{
    lemma_suffix(name);
    let socket = socket_name(name, max_len);
    let suffix = hash_suffix(name);
    if max_len < 17 {
        assert(socket[i] == suffix[i]);
    } else {
        let n = socket.len() - 17;
        if i >= n {
            assert(socket[i] == suffix[i - n]);
        }
    }
}

/// A socket name is never longer than its budget, in characters and in bytes,
/// and exactly as long where the budget leaves no room for the readable part.
pub proof fn law_socket_names_fit(name: Seq<char>, max_len: nat)
    ensures
        socket_name(name, max_len).len() <= max_len,
        encode_utf8(socket_name(name, max_len)).len() <= max_len,
        max_len <= 17 ==> socket_name(name, max_len).len() == max_len,
{
    lemma_suffix(name);
    let socket = socket_name(name, max_len);
    assert forall|i: int| 0 <= i < socket.len() implies is_safe_char(#[trigger] socket[i]) by {
        law_socket_names_are_safe(name, max_len, i);
    }
    assert(is_ascii_chars(socket));
    is_ascii_chars_encode_utf8(socket);
}

/// With room for it, the hash of the name always stands complete at the end.
pub proof fn law_socket_names_keep_the_hash(name: Seq<char>, max_len: nat)
    requires
        max_len >= 17,
    ensures
        socket_name(name, max_len).len() >= 17,
        socket_name(name, max_len).skip(socket_name(name, max_len).len() - 17) == hash_suffix(name),
        hash_suffix(name)[0] == '-',
        forall|i: int|
            1 <= i < 17 ==> ('0' <= #[trigger] hash_suffix(name)[i] <= '9' || 'a' <= hash_suffix(
                name,
            )[i] <= 'f'),
{
    lemma_suffix(name);
    let socket = socket_name(name, max_len);
    assert(socket.skip(socket.len() - 17) =~= hash_suffix(name));
}

/// Two names with different hashes have different socket names.
pub proof fn law_socket_names_differ(left: Seq<char>, right: Seq<char>, max_len: nat)
    requires
        max_len >= 17,
        fnv1a64_of(encode_utf8(left)) != fnv1a64_of(encode_utf8(right)),
    ensures
        socket_name(left, max_len) != socket_name(right, max_len),
{
    law_socket_names_keep_the_hash(left, max_len);
    law_socket_names_keep_the_hash(right, max_len);
    let a = fnv1a64_of(encode_utf8(left)) as nat;
    let b = fnv1a64_of(encode_utf8(right)) as nat;
    if socket_name(left, max_len) == socket_name(right, max_len) {
        assert(hash_suffix(left).skip(1) =~= hex_text(a, 16));
        assert(hash_suffix(right).skip(1) =~= hex_text(b, 16));
        crate::text::lemma_hex_injective(a, b, 16);
    }
}

} // verus!
