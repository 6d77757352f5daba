//! Variable-length encoding of `u64` values.
//!
//! The encoding is the SQLite4-style prefix code: the first byte alone
//! determines the width of the whole value, values up to 240 occupy a single
//! byte, and larger values are stored little-endian behind a marker byte.

use vstd::prelude::*;

verus! {

/// 256 to the power `n`.
pub open spec fn pow256(n: nat) -> nat
    decreases n,
{
    if n == 0 {
        1
    } else {
        256 * pow256((n - 1) as nat)
    }
}

/// Value of a little-endian byte string: the first byte is least significant.
pub open spec fn le_val(s: Seq<u8>) -> nat
    decreases s.len(),
{
    if s.len() == 0 {
        0
    } else {
        (s[0] + 256 * le_val(s.drop_first())) as nat
    }
}

/// The `n` little-endian bytes of `v`.
pub open spec fn le_bytes(v: nat, n: nat) -> Seq<u8>
    decreases n,
{
    if n == 0 {
        Seq::empty()
    } else {
        seq![(v % 256) as u8] + le_bytes(v / 256, (n - 1) as nat)
    }
}

/// How many bytes the encoding of `v` takes.
pub open spec fn varint_size_spec(v: u64) -> nat {
    if v <= 240 {
        1
    } else if v <= 2031 {
        2
    } else if v <= 67567 {
        3
    } else if v <= 0xFF_FFFF {
        4
    } else if v <= 0xFFFF_FFFF {
        5
    } else if v <= 0xFF_FFFF_FFFF {
        6
    } else if v <= 0xFFFF_FFFF_FFFF {
        7
    } else if v <= 0xFF_FFFF_FFFF_FFFF {
        8
    } else {
        9
    }
}

/// The exact byte string that encodes `v`.
pub open spec fn varint_bytes(v: u64) -> Seq<u8> {
    if v <= 240 {
        seq![v as u8]
    } else if v <= 2031 {
        seq![((v - 240) / 256 + 241) as u8, ((v - 240) % 256) as u8]
    } else if v <= 67567 {
        seq![248u8, ((v - 2032) / 256) as u8, ((v - 2032) % 256) as u8]
    } else {
        seq![(246 + varint_size_spec(v) - 1) as u8] + le_bytes(
            v as nat,
            (varint_size_spec(v) - 1) as nat,
        )
    }
}

/// Result of decoding at a position: the value and the number of bytes it
/// occupied, or nothing where no whole value lies at that position.
pub open spec fn varint_decode(s: Seq<u8>, pos: int) -> Option<(u64, nat)> {
    if pos < 0 || pos >= s.len() {
        None
    } else {
        let b0 = s[pos];
        if b0 <= 240 {
            Some((b0 as u64, 1))
        } else if b0 <= 247 {
            if pos + 2 <= s.len() {
                Some(((240 + 256 * ((b0 - 241) as u64) + s[pos + 1]) as u64, 2))
            } else {
                None
            }
        } else if b0 == 248 {
            if pos + 3 <= s.len() {
                Some(((2032 + 256 * (s[pos + 1] as u64) + s[pos + 2]) as u64, 3))
            } else {
                None
            }
        } else if b0 <= 254 {
            let n = (b0 - 246) as nat;
            if pos + 1 + n <= s.len() && le_val(s.subrange(pos + 1, pos + 1 + n)) <= u64::MAX {
                Some((le_val(s.subrange(pos + 1, pos + 1 + n)) as u64, (n + 1) as nat))
            } else {
                None
            }
        } else {
            None
        }
    }
}

/// The concrete values of the small powers of 256.
pub proof fn lemma_pow256_values()
    ensures
        pow256(0) == 1,
        pow256(1) == 0x100,
        pow256(2) == 0x1_0000,
        pow256(3) == 0x100_0000,
        pow256(4) == 0x1_0000_0000,
        pow256(5) == 0x100_0000_0000,
        pow256(6) == 0x1_0000_0000_0000,
        pow256(7) == 0x100_0000_0000_0000,
        pow256(8) == 0x1_0000_0000_0000_0000,
{
    assert(pow256(0) == 1);
    assert(pow256(1) == 256 * pow256(0));
    assert(pow256(2) == 256 * pow256(1));
    assert(pow256(3) == 256 * pow256(2));
    assert(pow256(4) == 256 * pow256(3));
    assert(pow256(5) == 256 * pow256(4));
    assert(pow256(6) == 256 * pow256(5));
    assert(pow256(7) == 256 * pow256(6));
    assert(pow256(8) == 256 * pow256(7));
}

pub proof fn lemma_pow256_pos(n: nat)
    ensures
        pow256(n) >= 1,
    decreases n,
{
    if n > 0 {
        lemma_pow256_pos((n - 1) as nat);
    }
}

pub proof fn lemma_le_bytes_len(v: nat, n: nat)
    ensures
        le_bytes(v, n).len() == n,
    decreases n,
{
    if n > 0 {
        lemma_le_bytes_len(v / 256, (n - 1) as nat);
    }
}

/// Round trip of the little-endian helpers: reading back the bytes of `v`
/// yields `v` whenever `v` fits in `n` bytes.
pub proof fn lemma_le_round_trip(v: nat, n: nat)
    requires
        v < pow256(n),
    ensures
        le_val(le_bytes(v, n)) == v,
    decreases n,
{
    if n == 0 {
    } else {
        let s = le_bytes(v, n);
        lemma_le_bytes_len(v, n);
        assert(s.drop_first() =~= le_bytes(v / 256, (n - 1) as nat));
        assert(v / 256 < pow256((n - 1) as nat)) by {
            lemma_pow256_pos((n - 1) as nat);
            assert(v < 256 * pow256((n - 1) as nat));
        };
        lemma_le_round_trip(v / 256, (n - 1) as nat);
        assert(le_val(s) == v % 256 + 256 * (v / 256));
    }
}

pub proof fn lemma_le_val_bound(s: Seq<u8>)
    ensures
        le_val(s) < pow256(s.len()),
    decreases s.len(),
{
    if s.len() == 0 {
    } else {
        lemma_le_val_bound(s.drop_first());
        assert(le_val(s) == s[0] + 256 * le_val(s.drop_first()));
        assert(s[0] < 256);
        assert(256 * le_val(s.drop_first()) <= 256 * (pow256(s.drop_first().len()) - 1));
    }
}

/// The number of bytes that `varint_bytes` yields is `varint_size_spec`.
pub proof fn lemma_varint_bytes_len(v: u64)
    ensures
        varint_bytes(v).len() == varint_size_spec(v),
{
    if v > 67567 {
        lemma_le_bytes_len(v as nat, (varint_size_spec(v) - 1) as nat);
    }
}

/// Decoding an encoded value out of a longer byte string succeeds and yields
/// the value back, regardless of what surrounds it.
pub proof fn lemma_varint_round_trip(s: Seq<u8>, pos: int, v: u64)
    requires
        0 <= pos,
        pos + varint_size_spec(v) <= s.len(),
        s.subrange(pos, pos + varint_size_spec(v)) =~= varint_bytes(v),
    ensures
        varint_decode(s, pos) == Some((v, varint_size_spec(v))),
{
    lemma_varint_bytes_len(v);
    let enc = varint_bytes(v);
    let n = varint_size_spec(v);
    assert(s[pos] == enc[0]);
    if v <= 240 {
    } else if v <= 2031 {
        assert(s[pos + 1] == enc[1]);
        assert(enc[0] == (v - 240) / 256 + 241);
        assert((v - 240) / 256 <= 6) by (nonlinear_arith)
            requires
                240 < v <= 2031,
        ;
        assert(240 + 256 * ((s[pos] - 241) as u64) + s[pos + 1] == 240 + 256 * ((v - 240) / 256) + (
        v - 240) % 256);
        assert(256 * ((v - 240) / 256) + (v - 240) % 256 == v - 240) by (nonlinear_arith);
    } else if v <= 67567 {
        assert(s[pos + 1] == enc[1]);
        assert(s[pos + 2] == enc[2]);
        assert((v - 2032) / 256 <= 255) by (nonlinear_arith)
            requires
                2031 < v <= 67567,
        ;
        assert(2032 + 256 * ((v - 2032) / 256) + (v - 2032) % 256 == v) by (nonlinear_arith)
            requires
                2031 < v <= 67567,
        ;
    } else {
        let nb = (n - 1) as nat;
        assert(s[pos] == 246 + n - 1);
        assert(246 + n - 1 >= 249 && 246 + n - 1 <= 254);
        let sub = s.subrange(pos + 1, pos + 1 + nb);
        assert(sub =~= le_bytes(v as nat, nb)) by {
            lemma_le_bytes_len(v as nat, nb);
            assert forall|j: int| 0 <= j < nb implies sub[j] == le_bytes(v as nat, nb)[j] by {
                assert(sub[j] == s[pos + 1 + j]);
                assert(s[pos + 1 + j] == enc[1 + j]);
            };
        };
        assert(v < pow256(nb)) by {
            lemma_pow256_values();
        };
        lemma_le_round_trip(v as nat, nb);
    }
}

/// Two byte strings that agree on a decoded value's bytes decode it alike.
pub proof fn lemma_varint_decode_frame(s1: Seq<u8>, s2: Seq<u8>, pos: int)
    requires
        varint_decode(s1, pos) is Some,
        pos + varint_decode(s1, pos).unwrap().1 <= s2.len(),
        forall|j: int|
            pos <= j < pos + varint_decode(s1, pos).unwrap().1 ==> 0 <= j < s2.len() && s1[j]
                == s2[j],
    ensures
        varint_decode(s2, pos) == varint_decode(s1, pos),
{
    let b0 = s1[pos];
    assert(s2[pos] == b0);
    if b0 <= 248 && b0 > 240 {
    } else if 249 <= b0 <= 254 {
        let n = (b0 - 246) as nat;
        assert(s1.subrange(pos + 1, pos + 1 + n) =~= s2.subrange(pos + 1, pos + 1 + n));
    }
}

/// Append the encoding of `v` to `out`.
pub fn append_varint(out: &mut Vec<u8>, v: u64)
    ensures
        final(out)@ =~= old(out)@ + varint_bytes(v),
{
    if v <= 240 {
        out.push(v as u8);
    } else if v <= 2031 {
        out.push(((v - 240) / 256 + 241) as u8);
        out.push(((v - 240) % 256) as u8);
    } else if v <= 67567 {
        out.push(248u8);
        out.push(((v - 2032) / 256) as u8);
        out.push(((v - 2032) % 256) as u8);
    } else {
        let ghost n = (varint_size_spec(v) - 1) as nat;
        let nb: usize = if v <= 0xFF_FFFF {
            3
        } else if v <= 0xFFFF_FFFF {
            4
        } else if v <= 0xFF_FFFF_FFFF {
            5
        } else if v <= 0xFFFF_FFFF_FFFF {
            6
        } else if v <= 0xFF_FFFF_FFFF_FFFF {
            7
        } else {
            8
        };
        out.push((246 + nb) as u8);
        proof {
            assert(pow256(0) == 1);
            assert(v as nat / 1 == v as nat);
            assert(le_bytes(v as nat, 0).subrange(0, 0) =~= Seq::<u8>::empty());
        }
        let mut cur: u64 = v;
        let mut j: usize = 0;
        while j < nb
            invariant
                j <= nb,
                nb == n,
                cur == v as nat / pow256(j as nat),
                out@ =~= old(out)@ + seq![(246 + n) as u8] + le_bytes(v as nat, j as nat).subrange(
                    0,
                    j as int,
                ),
            decreases nb - j,
        {
            let ghost jn = j as nat;
            out.push((cur % 256) as u8);
            proof {
                assert(le_bytes(v as nat, (jn + 1) as nat) =~= le_bytes(v as nat, jn).subrange(
                    0,
                    jn as int,
                ) + seq![((v as nat / pow256(jn)) % 256) as u8]) by {
                    lemma_le_bytes_prefix(v as nat, jn);
                };
                assert(v as nat / pow256(jn) / 256 == v as nat / pow256((jn + 1) as nat)) by {
                    lemma_pow256_pos(jn);
                    vstd::arithmetic::div_mod::lemma_div_denominator(
                        v as int,
                        pow256(jn) as int,
                        256,
                    );
                };
            }
            cur = cur / 256;
            j = j + 1;
            proof {
                lemma_le_bytes_len(v as nat, j as nat);
                assert(le_bytes(v as nat, j as nat).subrange(0, j as int) =~= le_bytes(
                    v as nat,
                    j as nat,
                ));
            }
        }
        proof {
            lemma_le_bytes_len(v as nat, n);
            assert(le_bytes(v as nat, n).subrange(0, n as int) =~= le_bytes(v as nat, n));
        }
    }
}

/// The first `n` little-endian bytes of `v`, extended by the next one, are the
/// first `n + 1`.
proof fn lemma_le_bytes_prefix(v: nat, n: nat)
    ensures
        le_bytes(v, (n + 1) as nat) =~= le_bytes(v, n).subrange(0, n as int) + seq![
            ((v / pow256(n)) % 256) as u8,
        ],
    decreases n,
{
    lemma_le_bytes_len(v, n);
    lemma_le_bytes_len(v, (n + 1) as nat);
    if n == 0 {
        assert(pow256(0) == 1);
        assert(le_bytes(v, 1) =~= seq![(v % 256) as u8]);
    } else {
        lemma_le_bytes_prefix(v / 256, (n - 1) as nat);
        lemma_le_bytes_len(v / 256, (n - 1) as nat);
        assert(le_bytes(v, (n + 1) as nat) =~= seq![(v % 256) as u8] + le_bytes(
            v / 256,
            n as nat,
        ));
        assert((v / 256) / pow256((n - 1) as nat) == v / pow256(n)) by {
            lemma_pow256_pos((n - 1) as nat);
            vstd::arithmetic::div_mod::lemma_div_denominator(
                v as int,
                256,
                pow256((n - 1) as nat) as int,
            );
        };
    }
}

/// Read one encoded value out of `buf` at `pos`; `None` where no whole value
/// lies there.
pub fn read_varint(buf: &[u8], pos: usize) -> (r: Option<(u64, usize)>)
    ensures
        match r {
            Some((v, n)) => varint_decode(buf@, pos as int) == Some((v, n as nat)) && pos + n
                <= buf@.len(),
            None => varint_decode(buf@, pos as int) is None,
        },
{
    if pos >= buf.len() {
        return None;
    }
    let b0 = buf[pos];
    if b0 <= 240 {
        Some((b0 as u64, 1))
    } else if b0 <= 247 {
        if buf.len() - pos >= 2 {
            Some((240 + 256 * ((b0 - 241) as u64) + (buf[pos + 1] as u64), 2))
        } else {
            None
        }
    } else if b0 == 248 {
        if buf.len() - pos >= 3 {
            Some((2032 + 256 * (buf[pos + 1] as u64) + (buf[pos + 2] as u64), 3))
        } else {
            None
        }
    } else if b0 <= 254 {
        let n = (b0 - 246) as usize;
        if buf.len() - pos >= n + 1 {
            let blen: usize = buf.len();
            let mut acc: u64 = 0;
            let mut j: usize = n;
            proof {
                assert(buf@.subrange(pos + 1 + n, pos + 1 + n).len() == 0);
            }
            while j > 0
                invariant
                    j <= n,
                    n <= 8,
                    blen == buf@.len(),
                    pos + 1 + n <= blen,
                    acc == le_val(buf@.subrange(pos + 1 + j, pos + 1 + n)),
                    acc < pow256((n - j) as nat),
                decreases j,
            {
                let ghost before = buf@.subrange(pos + 1 + j, pos + 1 + n);
                j = j - 1;
                let b = buf[pos + 1 + j];
                proof {
                    let now = buf@.subrange(pos + 1 + j, pos + 1 + n);
                    assert(now.drop_first() =~= before);
                    assert(le_val(now) == b + 256 * acc);
                    assert(pow256(((n - j) as nat)) == 256 * pow256((n - j - 1) as nat));
                    assert(b + 256 * acc < 256 * pow256((n - j - 1) as nat));
                    lemma_pow256_values();
                    lemma_pow256_mono((n - j) as nat, 8);
                }
                acc = acc * 256 + (b as u64);
            }
            proof {
                assert(buf@.subrange(pos + 1, pos + 1 + n) =~= buf@.subrange(
                    pos + 1 + 0,
                    pos + 1 + n,
                ));
            }
            Some((acc, n + 1))
        } else {
            None
        }
    } else {
        None
    }
}

pub proof fn lemma_pow256_mono(a: nat, b: nat)
    requires
        a <= b,
    ensures
        pow256(a) <= pow256(b),
    decreases b,
{
    if a < b {
        lemma_pow256_mono(a, (b - 1) as nat);
        lemma_pow256_pos((b - 1) as nat);
    }
}

/// How many bytes the encoding of `v` takes, as executable code.
pub fn varint_size(v: u64) -> (n: usize)
    ensures
        n == varint_size_spec(v),
{
    if v <= 240 {
        1
    } else if v <= 2031 {
        2
    } else if v <= 67567 {
        3
    } else if v <= 0xFF_FFFF {
        4
    } else if v <= 0xFFFF_FFFF {
        5
    } else if v <= 0xFF_FFFF_FFFF {
        6
    } else if v <= 0xFFFF_FFFF_FFFF {
        7
    } else if v <= 0xFF_FFFF_FFFF_FFFF {
        8
    } else {
        9
    }
}

} // verus!
