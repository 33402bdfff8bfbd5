//! The length prefix: a `u32` in one, two, four or five bytes, the shortest
//! form that holds it.
//!
//! The two low bits of the first byte say which form follows:
//! `0` one byte, `1` two bytes, `2` four bytes, each holding the number above
//! those two bits, little-endian; `3` one byte and then the number in four
//! bytes. A number is only ever read from its shortest form.

use vstd::prelude::*;

verus! {

/// The two bytes of `x`, low byte first.
pub open spec fn le_bytes_2(x: int) -> Seq<u8> {
    seq![(x % 256) as u8, (x / 256 % 256) as u8]
}

/// The four bytes of `x`, low byte first.
pub open spec fn le_bytes_4(x: int) -> Seq<u8> {
    seq![
        (x % 256) as u8,
        (x / 256 % 256) as u8,
        (x / 256 / 256 % 256) as u8,
        (x / 256 / 256 / 256 % 256) as u8,
    ]
}

/// The number whose low byte is `b[0]` and whose high byte is `b[1]`.
pub open spec fn le_value_2(b: Seq<u8>) -> int {
    b[0] + 256 * b[1]
}

/// The number that the first four bytes of `b` hold, low byte first.
pub open spec fn le_value_4(b: Seq<u8>) -> int {
    b[0] + 256 * b[1] + 65536 * b[2] + 16777216 * b[3]
}

/// The bytes of the length prefix `n`.
pub open spec fn compact_encoding(n: u32) -> Seq<u8> {
    if n < 0x40 {
        seq![(4 * n) as u8]
    } else if n < 0x4000 {
        le_bytes_2(4 * n + 1)
    } else if n < 0x4000_0000 {
        le_bytes_4(4 * n + 2)
    } else {
        seq![3u8] + le_bytes_4(n as int)
    }
}

/// The length prefix at the start of `bytes`, and how many bytes it takes;
/// `None` where the bytes are cut short or are not the shortest form.
pub open spec fn parse_compact(bytes: Seq<u8>) -> Option<(u32, nat)> {
    if bytes.len() < 1 {
        None
    } else if bytes[0] % 4 == 0 {
        Some(((bytes[0] / 4) as u32, 1))
    } else if bytes[0] % 4 == 1 {
        if bytes.len() >= 2 && le_value_2(bytes) / 4 >= 0x40 {
            Some(((le_value_2(bytes) / 4) as u32, 2))
        } else {
            None
        }
    } else if bytes[0] % 4 == 2 {
        if bytes.len() >= 4 && le_value_4(bytes) / 4 >= 0x4000 {
            Some(((le_value_4(bytes) / 4) as u32, 4))
        } else {
            None
        }
    } else {
        if bytes[0] == 3 && bytes.len() >= 5 && le_value_4(bytes.skip(1)) >= 0x4000_0000 {
            Some((le_value_4(bytes.skip(1)) as u32, 5))
        } else {
            None
        }
    }
}

/// The two bytes of a number below 2^16 hold that number.
pub proof fn lemma_le_2_round_trip(x: int)
    requires
        0 <= x < 0x1_0000,
    ensures
        le_value_2(le_bytes_2(x)) == x,
{
}

/// The four bytes of a number below 2^32 hold that number.
pub proof fn lemma_le_4_round_trip(x: int)
    requires
        0 <= x < 0x1_0000_0000,
    ensures
        le_value_4(le_bytes_4(x)) == x,
{
    let q1 = x / 256;
    let q2 = q1 / 256;
    let q3 = q2 / 256;
    assert(q3 < 256);
}

/// Two bytes are the two bytes of the number that they hold.
pub proof fn lemma_le_2_canonical(b: Seq<u8>)
    requires
        b.len() >= 2,
    ensures
        0 <= le_value_2(b) < 0x1_0000,
        le_bytes_2(le_value_2(b)) == b.subrange(0, 2),
{
    let v = le_value_2(b);
    assert(v % 256 == b[0]);
    assert(v / 256 == b[1]);
    assert(le_bytes_2(v) =~= b.subrange(0, 2));
}

/// Four bytes are the four bytes of the number that they hold.
pub proof fn lemma_le_4_canonical(b: Seq<u8>)
    requires
        b.len() >= 4,
    ensures
        0 <= le_value_4(b) < 0x1_0000_0000,
        le_bytes_4(le_value_4(b)) == b.subrange(0, 4),
{
    let v = le_value_4(b);
    let q1 = b[1] + 256 * b[2] + 65536 * b[3];
    let q2 = b[2] + 256 * b[3];
    assert(v == b[0] + 256 * q1);
    assert(v % 256 == b[0] && v / 256 == q1);
    assert(q1 == b[1] + 256 * q2);
    assert(q1 % 256 == b[1] && q1 / 256 == q2);
    assert(q2 % 256 == b[2] && q2 / 256 == b[3]);
    assert(le_bytes_4(v) =~= b.subrange(0, 4));
}

/// Reading a written prefix gives the number back, whatever follows it.
pub proof fn lemma_compact_round_trip(n: u32, rest: Seq<u8>)
    ensures
        parse_compact(compact_encoding(n) + rest) == Some((n, compact_encoding(n).len())),
{
    let bytes = compact_encoding(n) + rest;
    if n < 0x40 {
        assert(bytes[0] == 4 * n);
    } else if n < 0x4000 {
        let x = 4 * n + 1;
        lemma_le_2_round_trip(x);
        assert(bytes[0] == le_bytes_2(x)[0] && bytes[1] == le_bytes_2(x)[1]);
        assert(le_value_2(bytes) == le_value_2(le_bytes_2(x)));
        assert(bytes[0] % 4 == 1) by {
            assert(bytes[0] == x % 256);
        }
    } else if n < 0x4000_0000 {
        let x = 4 * n + 2;
        let e = le_bytes_4(x);
        lemma_le_4_round_trip(x);
        assert(bytes[0] == e[0] && bytes[1] == e[1] && bytes[2] == e[2] && bytes[3] == e[3]);
        assert(le_value_4(bytes) == le_value_4(e));
        assert(bytes[0] % 4 == 2) by {
            assert(bytes[0] == x % 256);
        }
    } else {
        let e = le_bytes_4(n as int);
        let tail = bytes.skip(1);
        lemma_le_4_round_trip(n as int);
        assert(bytes[0] == 3);
        assert(tail[0] == e[0] && tail[1] == e[1] && tail[2] == e[2] && tail[3] == e[3]);
        assert(le_value_4(tail) == le_value_4(e));
    }
}

/// A prefix is only read from the bytes that writing it gives.
pub proof fn lemma_compact_canonical(bytes: Seq<u8>)
    ensures
        parse_compact(bytes) matches Some((n, k)) ==> k <= bytes.len() && bytes.subrange(
            0,
            k as int,
        ) == compact_encoding(n),
{
    if let Some((n, k)) = parse_compact(bytes) {
        let head = bytes.subrange(0, k as int);
        if bytes[0] % 4 == 0 {
            assert(head =~= seq![(4 * n) as u8]);
        } else if bytes[0] % 4 == 1 {
            lemma_le_2_canonical(bytes);
            let v = le_value_2(bytes);
            assert(v % 4 == 1) by {
                assert(v == bytes[0] + 4 * (64 * bytes[1]));
            }
            assert(v == 4 * n + 1);
        } else if bytes[0] % 4 == 2 {
            lemma_le_4_canonical(bytes);
            let v = le_value_4(bytes);
            assert(v % 4 == 2) by {
                assert(v == bytes[0] + 4 * (64 * bytes[1] + 16384 * bytes[2] + 4194304 * bytes[3]));
            }
            assert(v == 4 * n + 2);
        } else {
            let tail = bytes.skip(1);
            lemma_le_4_canonical(tail);
            assert(tail.subrange(0, 4) =~= bytes.subrange(1, 5));
            assert(head =~= seq![3u8] + bytes.subrange(1, 5));
        }
    }
}

/// Appends the length prefix `n` to `dest`.
pub fn encode_compact_to(n: u32, dest: &mut Vec<u8>)
    ensures
        final(dest)@ == old(dest)@ + compact_encoding(n),
{
    if n < 0x40 {
        dest.push((4 * n) as u8);
    } else if n < 0x4000 {
        let x: u32 = 4 * n + 1;
        dest.push((x % 256) as u8);
        dest.push((x / 256 % 256) as u8);
    } else if n < 0x4000_0000 {
        let x: u32 = 4 * n + 2;
        dest.push((x % 256) as u8);
        dest.push((x / 256 % 256) as u8);
        dest.push((x / 256 / 256 % 256) as u8);
        dest.push((x / 256 / 256 / 256 % 256) as u8);
    } else {
        dest.push(3);
        dest.push((n % 256) as u8);
        dest.push((n / 256 % 256) as u8);
        dest.push((n / 256 / 256 % 256) as u8);
        dest.push((n / 256 / 256 / 256 % 256) as u8);
    }
    assert(dest@ =~= old(dest)@ + compact_encoding(n));
}

/// Reads the length prefix at the start of `input`, and says how many bytes
/// it takes.
pub fn decode_compact(input: &[u8]) -> (r: Option<(u32, usize)>)
    ensures
        match parse_compact(input@) {
            Some((n, k)) => r == Some((n, k as usize)),
            None => r is None,
        },
{
    if input.len() < 1 {
        return None;
    }
    let b0: u8 = input[0];
    let mode: u8 = b0 % 4;
    if mode == 0 {
        Some(((b0 / 4) as u32, 1))
    } else if mode == 1 {
        if input.len() < 2 {
            return None;
        }
        let x: u32 = (b0 as u32 + 256 * (input[1] as u32)) / 4;
        if x >= 0x40 {
            Some((x, 2))
        } else {
            None
        }
    } else if mode == 2 {
        if input.len() < 4 {
            return None;
        }
        let x: u32 = (b0 as u32 + 256 * (input[1] as u32) + 65536 * (input[2] as u32) + 16777216
            * (input[3] as u32)) / 4;
        if x >= 0x4000 {
            Some((x, 4))
        } else {
            None
        }
    } else {
        if b0 != 3 || input.len() < 5 {
            return None;
        }
        let x: u32 = input[1] as u32 + 256 * (input[2] as u32) + 65536 * (input[3] as u32)
            + 16777216 * (input[4] as u32);
        if x >= 0x4000_0000 {
            Some((x, 5))
        } else {
            None
        }
    }
}

} // verus!
