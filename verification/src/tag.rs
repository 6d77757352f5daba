//! The 1-4 byte framing tag that precedes every slab record.
//!
//! A tag byte stores the record kind in its top three bits, the count of
//! following big-endian length bytes in the next two, and the top three bits
//! of the length in its low bits when they fit.

use vstd::prelude::*;
use crate::error::Error;
use crate::varint::{pow256, lemma_pow256_values, lemma_pow256_pos};

verus! {

/// The framing tag of a slab record.
#[derive(Debug, Copy, Clone, Eq, PartialEq, Structural)]
pub enum MagicTag {
    End,
    Writing { length: u64 },
    Written { length: u64 },
    Deleted { length: u64 },
}

/// The largest payload length a tag can frame: 27 bits.
pub const MAX_LEN: u64 = 0x7FF_FFFF;

impl MagicTag {
    pub const MASK: u8 = 0xE0;

    pub const END: u8 = 0xE0;

    pub const WRITING: u8 = 0xA0;

    pub const WRITTEN: u8 = 0x80;

    pub const DELETED: u8 = 0xC0;

    /// The payload length this tag frames; zero for the end tag.
    pub open spec fn length_spec(self) -> u64 {
        match self {
            MagicTag::End => 0,
            MagicTag::Writing { length } => length,
            MagicTag::Written { length } => length,
            MagicTag::Deleted { length } => length,
        }
    }

    /// The three-bit kind selector, placed in the top bits of the tag byte.
    pub open spec fn selector_spec(self) -> u8 {
        match self {
            MagicTag::End => 0xE0,
            MagicTag::Writing { .. } => 0xA0,
            MagicTag::Written { .. } => 0x80,
            MagicTag::Deleted { .. } => 0xC0,
        }
    }
}

/// Value of a big-endian byte string: the last byte is least significant.
pub open spec fn be_val(s: Seq<u8>) -> nat
    decreases s.len(),
{
    if s.len() == 0 {
        0
    } else {
        (be_val(s.drop_last()) * 256 + s.last()) as nat
    }
}

/// The fewest bytes that can frame a payload of length `length`.
pub open spec fn tag_min_len(length: u64) -> nat {
    if length < 8 {
        1
    } else if length < 0x800 {
        2
    } else if length < 0x8_0000 {
        3
    } else if length < 0x800_0000 {
        4
    } else {
        5
    }
}

/// Decode the tag at `pos`: the tag and the count of bytes it occupies, or
/// nothing where no whole tag lies at that position.
pub open spec fn parse_tag(s: Seq<u8>, pos: int) -> Option<(MagicTag, nat)> {
    if pos < 0 || pos >= s.len() {
        None
    } else {
        let b0 = s[pos];
        let sel = b0 & 0xE0;
        if sel == 0xE0 {
            Some((MagicTag::End, 1))
        } else if sel == 0xA0 || sel == 0x80 || sel == 0xC0 {
            let extra = (b0 & 0x07) as nat;
            let nb = ((b0 >> 3) & 0x03) as nat;
            if pos + 1 + nb <= s.len() {
                let length = (extra * pow256(nb) + be_val(s.subrange(pos + 1, pos + 1 + nb))) as u64;
                if sel == 0xA0 {
                    Some((MagicTag::Writing { length }, (1 + nb) as nat))
                } else if sel == 0x80 {
                    Some((MagicTag::Written { length }, (1 + nb) as nat))
                } else {
                    Some((MagicTag::Deleted { length }, (1 + nb) as nat))
                }
            } else {
                None
            }
        } else {
            None
        }
    }
}

/// A parsed tag occupies between one and four bytes, stays inside the byte
/// string, and frames a length below `2^27`.
pub proof fn lemma_parse_tag_bounds(s: Seq<u8>, pos: int)
    requires
        parse_tag(s, pos) is Some,
    ensures
        1 <= parse_tag(s, pos).unwrap().1 <= 4,
        pos + parse_tag(s, pos).unwrap().1 <= s.len(),
        parse_tag(s, pos).unwrap().0.length_spec() <= MAX_LEN,
        tag_min_len(parse_tag(s, pos).unwrap().0.length_spec())
            <= parse_tag(s, pos).unwrap().1,
{
    let b0 = s[pos];
    let sel = b0 & 0xE0;
    assert(((b0 >> 3) & 0x03) <= 3) by (bit_vector);
    assert((b0 & 0x07) <= 7) by (bit_vector);
    if sel == 0xE0 {
    } else {
        let extra = (b0 & 0x07) as nat;
        let nb = ((b0 >> 3) & 0x03) as nat;
        let sub = s.subrange(pos + 1, pos + 1 + nb);
        lemma_be_val_bound(sub);
        lemma_pow256_values();
        assert(extra * pow256(nb) <= 7 * pow256(nb)) by (nonlinear_arith)
            requires
                extra <= 7,
                pow256(nb) >= 0,
        ;
        let length = (extra * pow256(nb) + be_val(sub)) as u64;
        assert(extra * pow256(nb) + be_val(sub) < 8 * pow256(nb));
        if nb == 0 {
            assert(length < 8);
        } else if nb == 1 {
            assert(length < 0x800);
        } else if nb == 2 {
            assert(length < 0x8_0000);
        } else {
            assert(length < 0x800_0000);
        }
    }
}

/// A big-endian byte string of length `n` holds a value below `256^n`.
pub proof fn lemma_be_val_bound(s: Seq<u8>)
    ensures
        be_val(s) < pow256(s.len()),
    decreases s.len(),
{
    if s.len() == 0 {
    } else {
        lemma_be_val_bound(s.drop_last());
        assert(pow256(s.len()) == 256 * pow256((s.len() - 1) as nat));
        assert(be_val(s.drop_last()) * 256 + 255 < 256 * pow256((s.len() - 1) as nat))
            by (nonlinear_arith)
            requires
                be_val(s.drop_last()) < pow256((s.len() - 1) as nat),
        ;
    }
}

/// Prepending a byte to a big-endian string raises it by the byte's weight.
pub proof fn lemma_be_val_prepend(b: u8, s: Seq<u8>)
    ensures
        be_val(seq![b] + s) == b * pow256(s.len()) + be_val(s),
    decreases s.len(),
{
    let t = seq![b] + s;
    if s.len() == 0 {
        assert(t.len() == 1);
        assert(t.last() == b);
        assert(t.drop_last() =~= Seq::<u8>::empty());
        assert(be_val(t.drop_last()) == 0);
        assert(be_val(t) == (be_val(t.drop_last()) * 256 + t.last()) as nat);
        assert(pow256(0) == 1);
    } else {
        assert(t.drop_last() =~= seq![b] + s.drop_last());
        assert(t.last() == s.last());
        lemma_be_val_prepend(b, s.drop_last());
        assert(be_val(t) == (be_val(seq![b] + s.drop_last()) * 256 + s.last()) as nat);
        assert(be_val(s) == (be_val(s.drop_last()) * 256 + s.last()) as nat);
        let n1 = (s.len() - 1) as nat;
        assert(pow256(s.len()) == 256 * pow256(n1));
        assert((b * pow256(n1) + be_val(s.drop_last())) * 256 == b * (256 * pow256(n1)) + be_val(
            s.drop_last(),
        ) * 256) by (nonlinear_arith);
    }
}

/// Two byte strings that agree on the bytes of a parsed tag parse it alike.
pub proof fn lemma_parse_tag_frame(s1: Seq<u8>, s2: Seq<u8>, pos: int)
    requires
        parse_tag(s1, pos) is Some,
        pos + parse_tag(s1, pos).unwrap().1 <= s2.len(),
        forall|j: int|
            pos <= j < pos + parse_tag(s1, pos).unwrap().1 ==> 0 <= j < s2.len() && s1[j] == s2[j],
    ensures
        parse_tag(s2, pos) == parse_tag(s1, pos),
{
    lemma_parse_tag_bounds(s1, pos);
    let b0 = s1[pos];
    let sel = b0 & 0xE0;
    assert(s2[pos] == b0);
    if sel == 0xE0 {
    } else {
        let nb = ((b0 >> 3) & 0x03) as nat;
        assert(((b0 >> 3) & 0x03) <= 3) by (bit_vector);
        assert(s1.subrange(pos + 1, pos + 1 + nb) =~= s2.subrange(pos + 1, pos + 1 + nb));
    }
}


/// The tag whose kind selector is `sel` and whose length is `length`.
pub open spec fn tag_with_selector(sel: u8, length: u64) -> MagicTag {
    if sel == 0xA0 {
        MagicTag::Writing { length }
    } else if sel == 0x80 {
        MagicTag::Written { length }
    } else {
        MagicTag::Deleted { length }
    }
}

/// Rewriting only the kind selector of a tag byte leaves the frame and the
/// length as they were.
pub proof fn lemma_retag(s1: Seq<u8>, s2: Seq<u8>, pos: int, sel2: u8)
    requires
        parse_tag(s1, pos) is Some,
        !(parse_tag(s1, pos).unwrap().0 is End),
        sel2 == 0xA0 || sel2 == 0x80 || sel2 == 0xC0,
        s2.len() == s1.len(),
        0 <= pos < s2.len(),
        s2[pos] == (sel2 | (s1[pos] & 0x1F)),
        forall|j: int| 0 <= j < s1.len() && j != pos ==> s2[j] == s1[j],
    ensures
        parse_tag(s2, pos) == Some(
            (
                tag_with_selector(sel2, parse_tag(s1, pos).unwrap().0.length_spec()),
                parse_tag(s1, pos).unwrap().1,
            ),
        ),
{
    let b1 = s1[pos];
    let b2 = s2[pos];
    let sel1 = b1 & 0xE0;
    assert(sel1 == 0xE0 || sel1 == 0xA0 || sel1 == 0x80 || sel1 == 0xC0 || parse_tag(s1, pos)
        is None);
    assert(b2 & 0xE0 == sel2 && ((b2 >> 3) & 0x03) == ((b1 >> 3) & 0x03) && (b2 & 0x07) == (b1
        & 0x07)) by (bit_vector)
        requires
            (sel2 == 0xA0 || sel2 == 0x80 || sel2 == 0xC0),
            b2 == (sel2 | (b1 & 0x1F)),
    ;
    let nb = ((b1 >> 3) & 0x03) as nat;
    assert(((b1 >> 3) & 0x03) <= 3) by (bit_vector);
    lemma_parse_tag_bounds(s1, pos);
    assert(s1.subrange(pos + 1, pos + 1 + nb) =~= s2.subrange(pos + 1, pos + 1 + nb));
}

impl MagicTag {
    /// The count of bytes the minimal encoding of this tag occupies.
    pub fn written_length(self) -> (r: usize)
        requires
            self.length_spec() <= MAX_LEN,
        ensures
            r == if self is End {
                1nat
            } else {
                tag_min_len(self.length_spec())
            },
    {
        match self {
            MagicTag::End => 1,
            MagicTag::Writing { length } | MagicTag::Written { length } | MagicTag::Deleted {
                length,
            } => {
                if length < 8 {
                    1
                } else if length < 0x800 {
                    2
                } else if length < 0x8_0000 {
                    3
                } else {
                    4
                }
            },
        }
    }

    /// Read the tag at `position`, advancing it past the tag on success.
    pub fn read(backing: &[u8], position: &mut usize) -> (r: Result<MagicTag, Error>)
        ensures
            match r {
                Ok(t) => {
                    &&& *final(position) > *old(position)
                    &&& parse_tag(backing@, *old(position) as int) == Some(
                        (t, (*final(position) - *old(position)) as nat),
                    )
                },
                Err(e) => {
                    &&& parse_tag(backing@, *old(position) as int) is None
                    &&& *final(position) == *old(position)
                    &&& e matches Error::UnknownTag { position: q, .. } && q == *old(position)
                },
            },
    {
        let pos = *position;
        let blen: usize = backing.len();
        if pos >= blen {
            return Err(Error::UnknownTag { position: pos, byte: 0 });
        }
        let b0 = backing[pos];
        let sel = b0 & 0xE0;
        if sel == 0xE0 {
            *position = pos + 1;
            Ok(MagicTag::End)
        } else if sel == 0xA0 || sel == 0x80 || sel == 0xC0 {
            let nb = ((b0 >> 3) & 0x03) as usize;
            proof {
                assert(((b0 >> 3) & 0x03) <= 3) by (bit_vector);
                assert((b0 & 0x07) <= 7) by (bit_vector);
            }
            if blen - pos >= nb + 1 {
                let extra = (b0 & 0x07) as u64;
                let mut acc: u64 = extra;
                let mut j: usize = 0;
                proof {
                    assert(backing@.subrange(pos + 1, pos + 1).len() == 0);
                    lemma_pow256_values();
                }
                while j < nb
                    invariant
                        j <= nb,
                        nb <= 3,
                        extra <= 7,
                        blen == backing@.len(),
                        pos + 1 + nb <= blen,
                        acc == extra * pow256(j as nat) + be_val(
                            backing@.subrange(pos + 1, pos + 1 + j),
                        ),
                        acc < 8 * pow256(j as nat),
                    decreases nb - j,
                {
                    let b = backing[pos + 1 + j];
                    proof {
                        let prev = backing@.subrange(pos + 1, pos + 1 + j);
                        let now = backing@.subrange(pos + 1, pos + 1 + j + 1);
                        assert(now.drop_last() =~= prev);
                        assert(now.last() == b);
                        assert(be_val(now) == be_val(prev) * 256 + b);
                        assert(pow256((j + 1) as nat) == 256 * pow256(j as nat));
                        assert((extra * pow256(j as nat) + be_val(prev)) * 256 + b == extra * (256
                            * pow256(j as nat)) + (be_val(prev) * 256 + b)) by (nonlinear_arith);
                        lemma_pow256_values();
                        crate::varint::lemma_pow256_mono((j + 1) as nat, 3);
                        assert(acc * 256 + b < 8 * pow256((j + 1) as nat)) by (nonlinear_arith)
                            requires
                                acc < 8 * pow256(j as nat),
                                b < 256,
                                pow256((j + 1) as nat) == 256 * pow256(j as nat),
                        ;
                    }
                    acc = acc * 256 + (b as u64);
                    j = j + 1;
                }
                *position = pos + 1 + nb;
                if sel == 0xA0 {
                    Ok(MagicTag::Writing { length: acc })
                } else if sel == 0x80 {
                    Ok(MagicTag::Written { length: acc })
                } else {
                    Ok(MagicTag::Deleted { length: acc })
                }
            } else {
                Err(Error::UnknownTag { position: pos, byte: b0 })
            }
        } else {
            Err(Error::UnknownTag { position: pos, byte: b0 })
        }
    }

    /// Write this tag at `position` using exactly `tag_len` bytes, advancing
    /// the position past it. Bytes outside the written span stay untouched.
    pub fn write_exact(self, buf: &mut Vec<u8>, position: &mut usize, tag_len: usize)
        requires
            !(self is End),
            self.length_spec() <= MAX_LEN,
            tag_min_len(self.length_spec()) <= tag_len <= 4,
            *old(position) + tag_len <= old(buf).len(),
        ensures
            final(buf).len() == old(buf).len(),
            forall|j: int|
                0 <= j < old(buf).len() && !(*old(position) <= j < *old(position) + tag_len)
                    ==> final(buf)@[j] == old(buf)@[j],
            parse_tag(final(buf)@, *old(position) as int) == Some((self, tag_len as nat)),
            *final(position) == *old(position) + tag_len,
    {
        let pos = *position;
        let len = match self {
            MagicTag::End => 0,
            MagicTag::Writing { length } => length,
            MagicTag::Written { length } => length,
            MagicTag::Deleted { length } => length,
        };
        let sel: u8 = match self {
            MagicTag::End => 0xE0,
            MagicTag::Writing { .. } => 0xA0,
            MagicTag::Written { .. } => 0x80,
            MagicTag::Deleted { .. } => 0xC0,
        };
        let nb: usize = tag_len - 1;
        proof {
            lemma_pow256_values();
        }
        let mut cur: u64 = len;
        let mut j: usize = nb;
        proof {
            assert(pow256(0) == 1);
            assert(len as nat / 1 == len as nat);
            assert(len as nat % 1 == 0);
            assert(buf@.subrange(pos + 1 + nb, pos + 1 + nb).len() == 0);
        }
        while j > 0
            invariant
                j <= nb,
                nb <= 3,
                pos + 1 + nb <= buf@.len(),
                buf@.len() == old(buf).len(),
                len <= MAX_LEN,
                cur == len as nat / pow256((nb - j) as nat),
                be_val(buf@.subrange(pos + 1 + j, pos + 1 + nb)) == len as nat % pow256(
                    (nb - j) as nat,
                ),
                forall|k: int|
                    0 <= k < buf@.len() && !(pos + 1 + j <= k < pos + 1 + nb) ==> buf@[k] == old(
                        buf,
                    )@[k],
            decreases j,
        {
            let ghost prev = buf@.subrange(pos + 1 + j, pos + 1 + nb);
            let ghost k = (nb - j) as nat;
            j = j - 1;
            let b: u8 = (cur % 256) as u8;
            buf.set(pos + 1 + j, b);
            proof {
                let now = buf@.subrange(pos + 1 + j, pos + 1 + nb);
                assert(now =~= seq![b] + prev);
                lemma_be_val_prepend(b, prev);
                assert(prev.len() == k);
                // b * pow256(k) + len % pow256(k) == len % pow256(k + 1)
                lemma_pow256_pos(k);
                vstd::arithmetic::div_mod::lemma_mod_breakdown(
                    len as int,
                    pow256(k) as int,
                    256,
                );
                assert(pow256((k + 1) as nat) == 256 * pow256(k));
                assert(pow256(k) as int * 256 == 256 * pow256(k) as int) by (nonlinear_arith);
                // cur / 256 == len / pow256(k + 1)
                vstd::arithmetic::div_mod::lemma_div_denominator(
                    len as int,
                    pow256(k) as int,
                    256,
                );
            }
            cur = cur / 256;
        }
        proof {
            // the loop has written the low bytes; cur holds the top bits
            assert(cur == len as nat / pow256(nb as nat));
            assert(len < 8 * pow256(nb as nat)) by {
                lemma_pow256_values();
            };
            assert(len as nat / pow256(nb as nat) < 8) by (nonlinear_arith)
                requires
                    len < 8 * pow256(nb as nat),
                    pow256(nb as nat) >= 1,
            ;
        }
        let extra: u8 = cur as u8;
        let nbu: u8 = nb as u8;
        let b0: u8 = sel | (nbu << 3) | extra;
        let ghost prev_whole = buf@;
        buf.set(pos, b0);
        *position = pos + tag_len;
        proof {
            assert(b0 & 0xE0 == sel && ((b0 >> 3) & 0x03) == nbu && (b0 & 0x07) == extra)
                by (bit_vector)
                requires
                    (sel == 0xA0 || sel == 0x80 || sel == 0xC0),
                    nbu <= 3,
                    extra < 8,
                    b0 == (sel | (nbu << 3) | extra),
            ;
            let s = buf@;
            assert(be_val(s.subrange(pos + 1, pos + 1 + nb)) == len as nat % pow256(nb as nat))
                by {
                assert(s.subrange(pos + 1, pos + 1 + nb) =~= prev_whole.subrange(
                    pos + 1 + 0,
                    pos + 1 + nb,
                ));
            };
            vstd::arithmetic::div_mod::lemma_fundamental_div_mod(len as int, pow256(nb as nat) as int);
            assert(extra * pow256(nb as nat) == pow256(nb as nat) as int * (len as int / pow256(
                nb as nat,
            ) as int)) by (nonlinear_arith)
                requires
                    extra == len as nat / pow256(nb as nat),
            ;
        }
    }

    /// Write this tag at `position` using its minimal encoding.
    pub fn write_buffer(self, buf: &mut Vec<u8>, position: &mut usize)
        requires
            self.length_spec() <= MAX_LEN,
            *old(position) + (if self is End {
                1nat
            } else {
                tag_min_len(self.length_spec())
            }) <= old(buf).len(),
        ensures
            final(buf).len() == old(buf).len(),
            forall|j: int|
                0 <= j < old(buf).len() && !(*old(position) <= j < *final(position))
                    ==> final(buf)@[j] == old(buf)@[j],
            parse_tag(final(buf)@, *old(position) as int) == Some(
                (self, (*final(position) - *old(position)) as nat),
            ),
            *final(position) == *old(position) + (if self is End {
                1nat
            } else {
                tag_min_len(self.length_spec())
            }),
    {
        match self {
            MagicTag::End => {
                let pos = *position;
                buf.set(pos, 0xE0);
                *position = pos + 1;
                proof {
                    assert(0xE0u8 & 0xE0u8 == 0xE0u8) by (bit_vector);
                }
            },
            _ => {
                let n = self.written_length();
                self.write_exact(buf, position, n);
            },
        }
    }

    /// Split a total span into tag bytes and payload bytes: the fewest tag
    /// bytes whose encoding can frame the rest.
    pub fn calc_tag_len(total_len: usize) -> (r: (u8, usize))
        requires
            1 <= total_len,
            total_len <= MAX_LEN + 4,
        ensures
            r.0 + r.1 == total_len,
            1 <= r.0 <= 4,
            tag_min_len(r.1 as u64) <= r.0,
            r.1 <= MAX_LEN,
            forall|t: int| 1 <= t < r.0 ==> #[trigger] tag_min_len((total_len - t) as u64) > t,
    {
        if total_len - 1 < 8 {
            (1, total_len - 1)
        } else if total_len - 2 < 0x800 {
            (2, total_len - 2)
        } else if total_len - 3 < 0x8_0000 {
            (3, total_len - 3)
        } else {
            (4, total_len - 4)
        }
    }
}

} // verus!
