//! The slab store: a gap-tracked heap of byte records over a byte region.
//!
//! The region holds a header, a run of tagged records, one end tag, and zero
//! padding. A ghost sequence of chunks mirrors that layout; the store's
//! well-formedness ties every chunk to the bytes that encode it, so reads can
//! be proved to return exactly what was stored.

use vstd::prelude::*;
use crate::backing::{Backing, grow_for, write_within, zero_range, read_range, lemma_backing_view};
use crate::error::{Error, Tag};
use crate::id::{Id, marker_of};
use crate::tag::{
    MagicTag, parse_tag, tag_min_len, MAX_LEN, lemma_parse_tag_bounds, lemma_parse_tag_frame,
    lemma_retag,
};
use crate::varint::{varint_decode, varint_size_spec, append_varint};

verus! {

/// The magic bytes that begin every slab file.
pub open spec fn header_magic() -> Seq<u8> {
    seq![0x1Fu8, 0x50u8, 0x4Cu8, 0x46u8, 0x6Du8, 0x61u8, 0x70u8]
}

/// An in-memory note of one deleted record, available for reuse.
#[derive(Debug, Clone, Copy, PartialEq, Eq, Structural)]
pub struct Gap {
    pub at: usize,
    pub length: u32,
    pub tag_len: u8,
}

/// What one span of the slab holds.
pub ghost enum ChunkKind {
    /// A fully written record.
    Live,
    /// A deleted record: a gap.
    Free,
    /// A partially written record.
    Pending,
}

/// One tagged span of the slab: a tag of `tag_len` bytes followed by `len`
/// payload bytes.
pub ghost struct Chunk {
    pub at: nat,
    pub tag_len: nat,
    pub len: nat,
    pub kind: ChunkKind,
}

impl Chunk {
    /// First offset past this span.
    pub open spec fn end(self) -> nat {
        (self.at + self.tag_len + self.len) as nat
    }

    /// The tag that encodes this span.
    pub open spec fn tag(self) -> MagicTag {
        match self.kind {
            ChunkKind::Live => MagicTag::Written { length: self.len as u64 },
            ChunkKind::Free => MagicTag::Deleted { length: self.len as u64 },
            ChunkKind::Pending => MagicTag::Writing { length: self.len as u64 },
        }
    }

    /// The payload bytes of this span in `s`.
    pub open spec fn payload(self, s: Seq<u8>) -> Seq<u8> {
        s.subrange((self.at + self.tag_len) as int, self.end() as int)
    }

    /// The span is encoded at its place in `s`.
    pub open spec fn wf_in(self, s: Seq<u8>) -> bool {
        &&& 1 <= self.tag_len <= 4
        &&& self.len <= MAX_LEN
        &&& self.end() <= s.len()
        &&& parse_tag(s, self.at as int) == Some((self.tag(), self.tag_len))
    }
}

/// The chunk behind position `k` starts where the one at `k` ends.
pub open spec fn chunk_follows(cs: Seq<Chunk>, k: int) -> bool {
    cs[k + 1].at == cs[k].end()
}

/// The chunks tile the region from the header to the end offset.
pub open spec fn chunks_contiguous(cs: Seq<Chunk>, hl: nat, end: nat) -> bool {
    &&& (if cs.len() == 0 {
        end == hl
    } else {
        cs[0].at == hl && cs.last().end() == end
    })
    &&& forall|i: int| 0 <= i < cs.len() - 1 ==> #[trigger] chunk_follows(cs, i)
}

/// Every chunk is encoded at its place.
pub open spec fn chunks_wf(cs: Seq<Chunk>, s: Seq<u8>) -> bool {
    forall|i: int| 0 <= i < cs.len() ==> (#[trigger] cs[i]).wf_in(s)
}

/// No chunk is a partial write.
pub open spec fn no_pending(cs: Seq<Chunk>) -> bool {
    forall|i: int| 0 <= i < cs.len() ==> !((#[trigger] cs[i]).kind is Pending)
}

/// The chunks at `i` and `i + 1` are not both gaps.
pub open spec fn gap_pair_ok(cs: Seq<Chunk>, i: int) -> bool {
    !(cs[i].kind is Free && cs[i + 1].kind is Free)
}

/// No two gaps are adjacent: neighbouring frees are always merged.
pub open spec fn gaps_coalesced(cs: Seq<Chunk>) -> bool {
    forall|i: int| 0 <= i < cs.len() - 1 ==> #[trigger] gap_pair_ok(cs, i)
}

/// A gap can host a record needing `need` bytes: exactly, or with at least
/// five bytes left for the remainder's deleted tag.
pub open spec fn gap_fits(g: Gap, need: int) -> bool {
    g.tag_len + g.length == need || g.tag_len + g.length >= need + 5
}

/// A record landed in a qualifying gap of the old gap list: its offset is
/// that gap's, and the list shrank by one on an exact fill, else kept its
/// length (the gap was replaced by the remainder).
pub open spec fn placed_in_gap(pre: Seq<Gap>, post_len: int, id_at: usize, need: int) -> bool {
    exists|i: int|
        0 <= i < pre.len() && gap_fits(#[trigger] pre[i], need) && id_at == pre[i].at && (pre[
            i
        ].tag_len + pre[i].length == need ==> post_len == pre.len() - 1) && (pre[i].tag_len + pre[
            i
        ].length != need ==> post_len == pre.len())
}

/// A gap note names exactly one free chunk.
pub open spec fn gap_matches(g: Gap, c: Chunk) -> bool {
    &&& c.kind is Free
    &&& c.at == g.at
    &&& c.len == g.length
    &&& c.tag_len == g.tag_len
}

/// The gap list enumerates the free chunks, one note each.
pub open spec fn gaps_match(gs: Seq<Gap>, cs: Seq<Chunk>) -> bool {
    &&& forall|i: int|
        0 <= i < gs.len() ==> exists|j: int| 0 <= j < cs.len() && gap_matches(#[trigger] gs[i], cs[j])
    &&& forall|j: int|
        0 <= j < cs.len() && (#[trigger] cs[j]).kind is Free ==> exists|i: int|
            0 <= i < gs.len() && gap_matches(gs[i], cs[j])
    &&& forall|i1: int, i2: int|
        0 <= i1 < i2 < gs.len() ==> (#[trigger] gs[i1]).at != (#[trigger] gs[i2]).at
}

/// The header lies at the front of `s`: magic, version, then the stamped
/// specialization magic behind its length.
pub open spec fn header_wf(s: Seq<u8>, hl: nat, m: Seq<u8>) -> bool {
    &&& 10 <= hl <= s.len()
    &&& s.subrange(0, 7) == header_magic()
    &&& s[7] == 0 && s[8] == 0
    &&& m.len() <= MAX_LEN
    &&& varint_decode(s, 9) == Some((m.len() as u64, varint_size_spec(m.len() as u64)))
    &&& 9 + varint_size_spec(m.len() as u64) + m.len() == hl
    &&& s.subrange((hl - m.len()) as int, hl as int) == m
}

/// There is a chunk starting at `at`.
pub open spec fn has_chunk_at(cs: Seq<Chunk>, at: int) -> bool {
    exists|j: int| 0 <= j < cs.len() && (#[trigger] cs[j]).at == at
}

/// The index of the chunk starting at `at`.
pub open spec fn chunk_idx_at(cs: Seq<Chunk>, at: int) -> int {
    choose|j: int| 0 <= j < cs.len() && (#[trigger] cs[j]).at == at
}

/// A raw [`Id`]-to-bytes store over a byte region.
pub struct RawStore {
    backing: Backing,
    end: usize,
    gaps: Vec<Gap>,
    header_length: usize,
    chunks: Ghost<Seq<Chunk>>,
    magic: Ghost<Seq<u8>>,
}

impl RawStore {
    /// The store's whole byte region.
    pub closed spec fn bytes(self) -> Seq<u8> {
        self.backing.data@
    }

    /// The ghost chunk layout.
    pub closed spec fn chunks_spec(self) -> Seq<Chunk> {
        self.chunks@
    }

    /// Offset of the end tag.
    pub closed spec fn end_spec(self) -> usize {
        self.end
    }

    /// Length of the header, where records begin.
    pub closed spec fn header_length_spec(self) -> usize {
        self.header_length
    }

    /// The stamped specialization magic.
    pub closed spec fn magic_spec(self) -> Seq<u8> {
        self.magic@
    }

    /// The store's structural invariant.
    pub closed spec fn wf(self) -> bool {
        let s = self.backing.data@;
        let cs = self.chunks@;
        &&& header_wf(s, self.header_length as nat, self.magic@)
        &&& self.header_length <= self.end
        &&& chunks_contiguous(cs, self.header_length as nat, self.end as nat)
        &&& chunks_wf(cs, s)
        &&& no_pending(cs)
        &&& gaps_coalesced(cs)
        &&& self.end + 1 <= s.len()
        &&& parse_tag(s, self.end as int) == Some((MagicTag::End, 1nat))
        &&& (forall|j: int| self.end < j < s.len() ==> s[j] == 0)
        &&& gaps_match(self.gaps@, cs)
        &&& s.len() <= 0xFF_FFFF_FFFF_FFFF
    }

    /// The payload stored at offset `at`, where a live record starts there.
    pub closed spec fn lookup(self, at: int) -> Option<Seq<u8>> {
        let cs = self.chunks@;
        if has_chunk_at(cs, at) && cs[chunk_idx_at(cs, at)].kind is Live {
            Some(cs[chunk_idx_at(cs, at)].payload(self.backing.data@))
        } else {
            None
        }
    }

    /// A deleted record starts at offset `at`.
    pub closed spec fn deleted_at(self, at: int) -> bool {
        let cs = self.chunks@;
        has_chunk_at(cs, at) && cs[chunk_idx_at(cs, at)].kind is Free
    }

    /// The tracked gap notes, one per deleted record.
    pub closed spec fn gaps_spec(self) -> Seq<Gap> {
        self.gaps@
    }


}

/// The bytes a run of chunks occupies: tag bytes plus payload bytes of each.
pub open spec fn span_sum(cs: Seq<Chunk>) -> int
    decreases cs.len(),
{
    if cs.len() == 0 {
        0
    } else {
        span_sum(cs.drop_last()) + cs.last().tag_len + cs.last().len
    }
}

/// A contiguous tiling occupies exactly the bytes from the header to the end
/// offset: the sum of live spans and gap spans equals `end - hl`.
pub proof fn lemma_span_sum(cs: Seq<Chunk>, hl: nat, end: nat)
    requires
        chunks_contiguous(cs, hl, end),
    ensures
        span_sum(cs) == end - hl,
    decreases cs.len(),
{
    if cs.len() == 0 {
    } else if cs.len() == 1 {
        assert(cs.drop_last().len() == 0);
        assert(span_sum(cs.drop_last()) == 0);
        assert(cs.last() == cs[0]);
        assert(cs.last().end() == cs.last().at + cs.last().tag_len + cs.last().len);
    } else {
        let front = cs.drop_last();
        assert forall|i: int| 0 <= i < front.len() - 1 implies #[trigger] chunk_follows(front, i)
            by {
            assert(chunk_follows(cs, i));
            assert(front[i] == cs[i] && front[i + 1] == cs[i + 1]);
        };
        assert(chunk_follows(cs, cs.len() - 2));
        assert(front.last() == cs[cs.len() - 2]);
        assert(chunks_contiguous(front, hl, cs.last().at));
        lemma_span_sum(front, hl, cs.last().at);
        assert(cs.last().end() == cs.last().at + cs.last().tag_len + cs.last().len);
        assert(cs.last().end() == end);
    }
}

/// Chunks of a contiguous tiling sit in offset order, each ending before the
/// next begins.
pub proof fn lemma_chunk_order(cs: Seq<Chunk>, i: int, j: int)
    requires
        forall|k: int| 0 <= k < cs.len() - 1 ==> #[trigger] chunk_follows(cs, k),
        0 <= i <= j < cs.len(),
    ensures
        cs[i].at <= cs[j].at,
        cs[i].end() <= cs[j].end(),
        i < j ==> cs[i].end() <= cs[j].at,
    decreases j - i,
{
    if i < j {
        lemma_chunk_order(cs, i, j - 1);
        assert(chunk_follows(cs, j - 1));
        assert(cs[j].at == cs[j - 1].end());
    }
}

/// Every chunk of a tiling lies between the header and the end offset.
pub proof fn lemma_chunk_in_range(cs: Seq<Chunk>, hl: nat, end: nat, i: int)
    requires
        chunks_contiguous(cs, hl, end),
        0 <= i < cs.len(),
    ensures
        hl <= cs[i].at,
        cs[i].end() <= end,
{
    lemma_chunk_order(cs, 0, i);
    lemma_chunk_order(cs, i, cs.len() - 1);
}

/// Distinct chunks with one-or-more-byte tags start at distinct offsets.
pub proof fn lemma_chunk_at_unique(cs: Seq<Chunk>, i: int, j: int)
    requires
        forall|k: int| 0 <= k < cs.len() - 1 ==> #[trigger] chunk_follows(cs, k),
        forall|k: int| 0 <= k < cs.len() ==> (#[trigger] cs[k]).tag_len >= 1,
        0 <= i < cs.len(),
        0 <= j < cs.len(),
        cs[i].at == cs[j].at,
    ensures
        i == j,
{
    if i < j {
        lemma_chunk_order(cs, i, j);
        assert(cs[i].end() > cs[i].at);
    } else if j < i {
        lemma_chunk_order(cs, j, i);
        assert(cs[j].end() > cs[j].at);
    }
}

/// A chunk whose start is `a` is the chunk that `chunk_idx_at` names.
pub proof fn lemma_chunk_idx_is(cs: Seq<Chunk>, a: int, k: int)
    requires
        forall|t: int| 0 <= t < cs.len() - 1 ==> #[trigger] chunk_follows(cs, t),
        forall|t: int| 0 <= t < cs.len() ==> (#[trigger] cs[t]).tag_len >= 1,
        0 <= k < cs.len(),
        cs[k].at == a,
    ensures
        has_chunk_at(cs, a),
        chunk_idx_at(cs, a) == k,
{
    assert(has_chunk_at(cs, a));
    let j = chunk_idx_at(cs, a);
    assert(0 <= j < cs.len() && cs[j].at == a);
    lemma_chunk_at_unique(cs, j, k);
}

/// A byte string whose header is untouched keeps its header.
pub proof fn lemma_header_frame(s1: Seq<u8>, s2: Seq<u8>, hl: nat, m: Seq<u8>)
    requires
        header_wf(s1, hl, m),
        s2.len() >= hl,
        forall|j: int| 0 <= j < hl ==> s2[j] == s1[j],
    ensures
        header_wf(s2, hl, m),
{
    assert(s2.subrange(0, 7) =~= s1.subrange(0, 7));
    crate::varint::lemma_varint_decode_frame(s1, s2, 9);
    assert(s2.subrange((hl - m.len()) as int, hl as int) =~= s1.subrange(
        (hl - m.len()) as int,
        hl as int,
    ));
}

/// Replacing the window `[cj, cj + cnt)` of a tiling by `newpart`, with the
/// bytes changed only inside the replaced span, yields a tiling again, keeps
/// every untouched chunk where it was, and keeps its payload bytes.
#[verifier::rlimit(80)]
pub proof fn lemma_splice(
    s0: Seq<u8>,
    s5: Seq<u8>,
    cs0: Seq<Chunk>,
    cs1: Seq<Chunk>,
    hl: nat,
    end0: nat,
    end1: nat,
    cj: int,
    cnt: int,
    newpart: Seq<Chunk>,
    lo: nat,
    hi_old: nat,
    hi_new: nat,
    hi_bytes: nat,
)
    requires
        chunks_contiguous(cs0, hl, end0),
        chunks_wf(cs0, s0),
        0 <= cj,
        0 <= cnt,
        cj + cnt <= cs0.len(),
        cs1 == cs0.take(cj) + newpart + cs0.skip(cj + cnt),
        lo == (if cj < cs0.len() {
            cs0[cj].at
        } else {
            end0
        }),
        hi_old == (if cnt > 0 {
            cs0[cj + cnt - 1].end()
        } else {
            lo
        }),
        // the new part tiles [lo, hi_new)
        (if newpart.len() == 0 {
            hi_new == lo
        } else {
            newpart[0].at == lo && newpart.last().end() == hi_new
        }),
        forall|t: int| 0 <= t < newpart.len() - 1 ==> #[trigger] chunk_follows(newpart, t),
        chunks_wf(newpart, s5),
        // the tail of the tiling either moves with the window's edge or stays
        (if cj + cnt == cs0.len() {
            end1 == hi_new
        } else {
            hi_new == hi_old && end1 == end0
        }),
        // bytes outside the affected region are unchanged
        s5.len() >= s0.len(),
        hi_new <= hi_bytes,
        hi_old <= hi_bytes,
        cj + cnt < cs0.len() ==> hi_bytes == hi_old,
        forall|j: int| 0 <= j < s0.len() && !(lo <= j < hi_bytes) ==> s5[j] == s0[j],
    ensures
        chunks_contiguous(cs1, hl, end1),
        chunks_wf(cs1, s5),
        cs1.len() == cs0.len() + newpart.len() - cnt,
        forall|k: int| 0 <= k < cj ==> cs1[k] == cs0[k],
        forall|k: int|
            cj + cnt <= k < cs0.len() ==> cs1[k + newpart.len() - cnt] == (#[trigger] cs0[k]),
        forall|t: int| 0 <= t < newpart.len() ==> cs1[cj + t] == newpart[t],
        forall|k: int|
            0 <= k < cs0.len() && !(cj <= k < cj + cnt) ==> (#[trigger] cs0[k]).payload(s5)
                == cs0[k].payload(s0),
{
    let np = newpart.len() as int;
    assert(cs1.len() == cs0.len() + np - cnt);
    assert forall|k: int| 0 <= k < cj implies cs1[k] == cs0[k] by {}
    assert forall|t: int| 0 <= t < np implies cs1[cj + t] == newpart[t] by {}
    assert forall|k: int| cj + cnt <= k < cs0.len() implies cs1[k + np - cnt] == (
    #[trigger] cs0[k]) by {}
    // untouched chunks keep their bytes
    assert forall|k: int|
        0 <= k < cs0.len() && !(cj <= k < cj + cnt) implies (#[trigger] cs0[k]).wf_in(s5) && cs0[
        k].payload(s5) == cs0[k].payload(s0) by {
        assert(cs0[k].wf_in(s0));
        if k < cj {
            if cj < cs0.len() {
                lemma_chunk_order(cs0, k, cj);
            } else {
                lemma_chunk_order(cs0, k, cs0.len() - 1);
            }
            assert(cs0[k].end() <= lo);
        } else {
            assert(cj + cnt <= k < cs0.len());
            assert(hi_new == hi_old && end1 == end0);
            if cnt > 0 {
                lemma_chunk_order(cs0, cj + cnt - 1, k);
            } else {
                if cj < k {
                    lemma_chunk_order(cs0, cj, k);
                }
            }
            assert(cs0[k].at >= hi_old);
        }
        assert forall|j: int| cs0[k].at <= j < cs0[k].end() implies s5[j] == s0[j] by {}
        lemma_parse_tag_frame(s0, s5, cs0[k].at as int);
        assert(cs0[k].payload(s5) =~= cs0[k].payload(s0));
    }
    // the spliced sequence is contiguous
    assert forall|t: int| 0 <= t < cs1.len() - 1 implies #[trigger] chunk_follows(cs1, t) by {
        if t < cj - 1 {
            assert(chunk_follows(cs0, t));
            assert(cs1[t] == cs0[t] && cs1[t + 1] == cs0[t + 1]);
        } else if t == cj - 1 {
            assert(cs1[t] == cs0[t]);
            if np > 0 {
                assert(cs1[cj] == newpart[0]);
                if cj < cs0.len() {
                    assert(chunk_follows(cs0, t));
                } else {
                    assert(cs0.last().end() == end0);
                }
            } else {
                // the window vanished: the next chunk moved in
                assert(cs1[cj] == cs0[cj + cnt]);
                assert(hi_new == lo);
                assert(cj + cnt < cs0.len());
                assert(hi_new == hi_old);
                if cnt > 0 {
                    lemma_window_span(cs0, cj, cnt);
                    assert(cs0[cj + cnt].at == cs0[cj + cnt - 1].end());
                    assert(chunk_follows(cs0, t));
                } else {
                    assert(cs1[cj] == cs0[cj]);
                    assert(chunk_follows(cs0, t));
                }
            }
        } else if t < cj + np - 1 {
            assert(chunk_follows(newpart, t - cj));
            assert(cs1[t] == newpart[t - cj] && cs1[t + 1] == newpart[t - cj + 1]);
        } else if t == cj + np - 1 && np > 0 {
            assert(cs1[t] == newpart[np - 1]);
            assert(cs1[t + 1] == cs0[t + 1 - np + cnt]);
            assert(newpart.last().end() == hi_new);
            assert(cj + cnt < cs0.len());
            if cnt > 0 {
                assert(chunk_follows(cs0, cj + cnt - 1));
                lemma_window_span(cs0, cj, cnt);
                assert(cs0[cj + cnt].at == hi_old);
            } else {
                assert(cs0[cj].at == lo);
            }
        } else {
            let k = t + cnt - np;
            assert(cs1[t] == cs0[k] && cs1[t + 1] == cs0[k + 1]);
            assert(chunk_follows(cs0, k));
        }
    }
    assert(chunks_contiguous(cs1, hl, end1)) by {
        if cs1.len() > 0 {
            if cj > 0 {
                assert(cs1[0] == cs0[0]);
            } else if np > 0 {
                assert(cs1[0] == newpart[0]);
                if cnt == 0 && cj < cs0.len() {
                } else {
                }
                assert(cs0.len() > 0 ==> cs0[0].at == hl);
                if cj == 0 && cs0.len() == 0 {
                    assert(lo == end0 && end0 == hl);
                }
            } else {
                assert(cs1[0] == cs0[cnt]);
                if cnt > 0 {
                    lemma_window_span(cs0, 0, cnt);
                    assert(cj + cnt < cs0.len());
                    assert(hi_new == hi_old);
                    assert(cs0[cnt].at == hi_old);
                }
            }
            let last = cs1.len() - 1;
            if cj + cnt < cs0.len() {
                assert(cs1[last] == cs0[cs0.len() - 1]);
            } else {
                assert(cs0.len() == cj + cnt);
                if np > 0 {
                    assert(cs1[last] == newpart[np - 1]);
                } else {
                    assert(cs1.len() == cj);
                    assert(cs1[last] == cs0[last]);
                    assert(end1 == hi_new && hi_new == lo);
                    if cj < cs0.len() {
                        assert(chunk_follows(cs0, cj - 1));
                    } else {
                        assert(cnt == 0);
                        assert(lo == end0);
                        assert(cs0.last().end() == end0);
                    }
                }
            }
        } else {
            assert(cs0.len() == cnt && cj == 0 && np == 0);
            assert(end1 == hi_new && hi_new == lo);
            if cnt > 0 {
                assert(lo == cs0[0].at && cs0[0].at == hl);
            } else {
                assert(lo == end0 && end0 == hl);
            }
        }
    }
    assert forall|k: int| 0 <= k < cs1.len() implies (#[trigger] cs1[k]).wf_in(s5) by {
        if k < cj {
            assert(cs1[k] == cs0[k]);
        } else if k < cj + np {
            assert(cs1[k] == newpart[k - cj]);
            assert(newpart[k - cj].wf_in(s5));
        } else {
            assert(cs1[k] == cs0[k + cnt - np]);
        }
    }
}

/// A window of a tiling spans from its first chunk's start to its last
/// chunk's end; a window starting at `cj` begins at `cs[cj].at`.
pub proof fn lemma_window_span(cs: Seq<Chunk>, cj: int, cnt: int)
    requires
        forall|t: int| 0 <= t < cs.len() - 1 ==> #[trigger] chunk_follows(cs, t),
        0 <= cj,
        0 < cnt,
        cj + cnt <= cs.len(),
    ensures
        cj + cnt < cs.len() ==> cs[cj + cnt].at == cs[cj + cnt - 1].end(),
        cs[cj].at <= cs[cj + cnt - 1].end(),
{
    if cj + cnt < cs.len() {
        assert(chunk_follows(cs, cj + cnt - 1));
    }
    lemma_chunk_order(cs, cj, cj + cnt - 1);
}

/// After one gap note is taken out (by swap with the last note) and the
/// named chunk is replaced by a live record with an optional remainder gap,
/// every remaining note still names a free chunk.
#[verifier::rlimit(100)]
pub(crate) proof fn lemma_gaps_fill_forward(
    cs0: Seq<Chunk>,
    cs1: Seq<Chunk>,
    gaps_pre: Seq<Gap>,
    gf: Seq<Gap>,
    idx: int,
    cj: int,
    g: Gap,
    np: int,
    split: Option<Gap>,
)
    requires
        gaps_match(gaps_pre, cs0),
        forall|t: int| 0 <= t < cs0.len() - 1 ==> #[trigger] chunk_follows(cs0, t),
        forall|t: int| 0 <= t < cs0.len() ==> (#[trigger] cs0[t]).tag_len >= 1,
        0 <= idx < gaps_pre.len(),
        gaps_pre[idx] == g,
        0 <= cj < cs0.len(),
        gap_matches(g, cs0[cj]),
        np == (if split is Some {
            2int
        } else {
            1int
        }),
        cs1.len() == cs0.len() + np - 1,
        forall|k: int| 0 <= k < cj ==> cs1[k] == cs0[k],
        forall|k: int| cj + 1 <= k < cs0.len() ==> cs1[k + np - 1] == (#[trigger] cs0[k]),
        !(cs1[cj].kind is Free),
        cs1[cj].at == g.at,
        (match split {
            Some(ng) => {
                &&& gf == gaps_pre.update(idx, gaps_pre.last()).drop_last().push(ng)
                &&& np == 2
                &&& cs1[cj + 1].kind is Free
                &&& cs1[cj + 1].at == ng.at
                &&& cs1[cj + 1].len == ng.length
                &&& cs1[cj + 1].tag_len == ng.tag_len
                &&& g.at < ng.at < g.at + g.tag_len + g.length
            },
            None => gf == gaps_pre.update(idx, gaps_pre.last()).drop_last(),
        }),
    ensures
        forall|i2: int|
            0 <= i2 < gf.len() ==> exists|j: int|
                0 <= j < cs1.len() && gap_matches(#[trigger] gf[i2], cs1[j]),
{
    let gaps1 = gaps_pre.update(idx, gaps_pre.last()).drop_last();
    assert forall|i2: int| 0 <= i2 < gf.len() implies exists|j: int|
        0 <= j < cs1.len() && gap_matches(#[trigger] gf[i2], cs1[j]) by {
        if split is Some && i2 == gf.len() - 1 {
            assert(gap_matches(gf[i2], cs1[cj + 1]));
        } else {
            let w: int = if i2 == idx {
                gaps_pre.len() - 1
            } else {
                i2
            };
            assert(gf[i2] == gaps_pre[w]);
            assert(w != idx);
            let jw = choose|j: int| 0 <= j < cs0.len() && gap_matches(gaps_pre[w], cs0[j]);
            assert(jw != cj) by {
                if jw == cj {
                    assert(gaps_pre[w].at == g.at);
                }
            };
            if jw < cj {
                assert(cs1[jw] == cs0[jw]);
                assert(gap_matches(gf[i2], cs1[jw]));
            } else {
                assert(cs1[jw + np - 1] == cs0[jw]);
                assert(gap_matches(gf[i2], cs1[jw + np - 1]));
            }
        }
    };
}

/// As above: every free chunk is still named by a note.
#[verifier::rlimit(100)]
pub(crate) proof fn lemma_gaps_fill_backward(
    cs0: Seq<Chunk>,
    cs1: Seq<Chunk>,
    gaps_pre: Seq<Gap>,
    gf: Seq<Gap>,
    idx: int,
    cj: int,
    g: Gap,
    np: int,
    split: Option<Gap>,
)
    requires
        gaps_match(gaps_pre, cs0),
        forall|t: int| 0 <= t < cs0.len() - 1 ==> #[trigger] chunk_follows(cs0, t),
        forall|t: int| 0 <= t < cs0.len() ==> (#[trigger] cs0[t]).tag_len >= 1,
        0 <= idx < gaps_pre.len(),
        gaps_pre[idx] == g,
        0 <= cj < cs0.len(),
        gap_matches(g, cs0[cj]),
        np == (if split is Some {
            2int
        } else {
            1int
        }),
        cs1.len() == cs0.len() + np - 1,
        forall|k: int| 0 <= k < cj ==> cs1[k] == cs0[k],
        forall|k: int| cj + 1 <= k < cs0.len() ==> cs1[k + np - 1] == (#[trigger] cs0[k]),
        !(cs1[cj].kind is Free),
        cs1[cj].at == g.at,
        (match split {
            Some(ng) => {
                &&& gf == gaps_pre.update(idx, gaps_pre.last()).drop_last().push(ng)
                &&& np == 2
                &&& cs1[cj + 1].kind is Free
                &&& cs1[cj + 1].at == ng.at
                &&& cs1[cj + 1].len == ng.length
                &&& cs1[cj + 1].tag_len == ng.tag_len
                &&& g.at < ng.at < g.at + g.tag_len + g.length
            },
            None => gf == gaps_pre.update(idx, gaps_pre.last()).drop_last(),
        }),
    ensures
        forall|j: int|
            0 <= j < cs1.len() && (#[trigger] cs1[j]).kind is Free ==> exists|i2: int|
                0 <= i2 < gf.len() && gap_matches(gf[i2], cs1[j]),
{
    let gaps1 = gaps_pre.update(idx, gaps_pre.last()).drop_last();
    assert forall|j: int|
        0 <= j < cs1.len() && (#[trigger] cs1[j]).kind is Free implies exists|i2: int|
        0 <= i2 < gf.len() && gap_matches(gf[i2], cs1[j]) by {
        if cj <= j < cj + np {
            assert(j == cj + 1 && split is Some);
            assert(gap_matches(gf[gf.len() - 1], cs1[j]));
        } else {
            let k0: int = if j < cj {
                j
            } else {
                j + 1 - np
            };
            assert(cs1[j] == cs0[k0]);
            let i = choose|i: int| 0 <= i < gaps_pre.len() && gap_matches(gaps_pre[i], cs0[k0]);
            assert(i != idx) by {
                if i == idx {
                    lemma_chunk_at_unique(cs0, k0, cj);
                }
            };
            let i2: int = if i == gaps_pre.len() - 1 {
                idx
            } else {
                i
            };
            assert(i2 < gaps_pre.len() - 1);
            assert(gaps1[i2] == gaps_pre[i]);
            assert(gf[i2] == gaps_pre[i]);
            assert(gap_matches(gf[i2], cs1[j]));
        }
    };
}

/// As above: the notes still name distinct offsets.
#[verifier::rlimit(100)]
pub(crate) proof fn lemma_gaps_fill_distinct(
    cs0: Seq<Chunk>,
    cs1: Seq<Chunk>,
    gaps_pre: Seq<Gap>,
    gf: Seq<Gap>,
    idx: int,
    cj: int,
    g: Gap,
    np: int,
    split: Option<Gap>,
)
    requires
        gaps_match(gaps_pre, cs0),
        forall|t: int| 0 <= t < cs0.len() - 1 ==> #[trigger] chunk_follows(cs0, t),
        forall|t: int| 0 <= t < cs0.len() ==> (#[trigger] cs0[t]).tag_len >= 1,
        0 <= idx < gaps_pre.len(),
        gaps_pre[idx] == g,
        0 <= cj < cs0.len(),
        gap_matches(g, cs0[cj]),
        np == (if split is Some {
            2int
        } else {
            1int
        }),
        cs1.len() == cs0.len() + np - 1,
        forall|k: int| 0 <= k < cj ==> cs1[k] == cs0[k],
        forall|k: int| cj + 1 <= k < cs0.len() ==> cs1[k + np - 1] == (#[trigger] cs0[k]),
        !(cs1[cj].kind is Free),
        cs1[cj].at == g.at,
        (match split {
            Some(ng) => {
                &&& gf == gaps_pre.update(idx, gaps_pre.last()).drop_last().push(ng)
                &&& np == 2
                &&& cs1[cj + 1].kind is Free
                &&& cs1[cj + 1].at == ng.at
                &&& cs1[cj + 1].len == ng.length
                &&& cs1[cj + 1].tag_len == ng.tag_len
                &&& g.at < ng.at < g.at + g.tag_len + g.length
            },
            None => gf == gaps_pre.update(idx, gaps_pre.last()).drop_last(),
        }),
    ensures
        forall|i1: int, i2: int|
            0 <= i1 < i2 < gf.len() ==> (#[trigger] gf[i1]).at != (#[trigger] gf[i2]).at,
{
    let gaps1 = gaps_pre.update(idx, gaps_pre.last()).drop_last();
    assert forall|i1: int, i2: int| 0 <= i1 < i2 < gf.len() implies (#[trigger] gf[i1]).at != (
    #[trigger] gf[i2]).at by {
        if split is Some && i2 == gf.len() - 1 {
            let w: int = if i1 == idx {
                gaps_pre.len() - 1
            } else {
                i1
            };
            assert(gf[i1] == gaps_pre[w]);
            let jw = choose|j: int| 0 <= j < cs0.len() && gap_matches(gaps_pre[w], cs0[j]);
            if jw < cj {
                lemma_chunk_order(cs0, jw, cj);
            } else if jw > cj {
                lemma_chunk_order(cs0, cj, jw);
            } else {
                assert(gaps_pre[w].at == g.at);
            }
        } else {
            let w1: int = if i1 == idx {
                gaps_pre.len() - 1
            } else {
                i1
            };
            let w2: int = if i2 == idx {
                gaps_pre.len() - 1
            } else {
                i2
            };
            assert(gf[i1] == gaps_pre[w1] && gf[i2] == gaps_pre[w2]);
            assert(w1 != w2);
        }
    };
}

/// The three parts together: the gap list still enumerates the free chunks.
pub(crate) proof fn lemma_gaps_after_fill(
    cs0: Seq<Chunk>,
    cs1: Seq<Chunk>,
    gaps_pre: Seq<Gap>,
    gf: Seq<Gap>,
    idx: int,
    cj: int,
    g: Gap,
    np: int,
    split: Option<Gap>,
)
    requires
        gaps_match(gaps_pre, cs0),
        forall|t: int| 0 <= t < cs0.len() - 1 ==> #[trigger] chunk_follows(cs0, t),
        forall|t: int| 0 <= t < cs0.len() ==> (#[trigger] cs0[t]).tag_len >= 1,
        0 <= idx < gaps_pre.len(),
        gaps_pre[idx] == g,
        0 <= cj < cs0.len(),
        gap_matches(g, cs0[cj]),
        np == (if split is Some {
            2int
        } else {
            1int
        }),
        cs1.len() == cs0.len() + np - 1,
        forall|k: int| 0 <= k < cj ==> cs1[k] == cs0[k],
        forall|k: int| cj + 1 <= k < cs0.len() ==> cs1[k + np - 1] == (#[trigger] cs0[k]),
        !(cs1[cj].kind is Free),
        cs1[cj].at == g.at,
        (match split {
            Some(ng) => {
                &&& gf == gaps_pre.update(idx, gaps_pre.last()).drop_last().push(ng)
                &&& np == 2
                &&& cs1[cj + 1].kind is Free
                &&& cs1[cj + 1].at == ng.at
                &&& cs1[cj + 1].len == ng.length
                &&& cs1[cj + 1].tag_len == ng.tag_len
                &&& g.at < ng.at < g.at + g.tag_len + g.length
            },
            None => gf == gaps_pre.update(idx, gaps_pre.last()).drop_last(),
        }),
    ensures
        gaps_match(gf, cs1),
{
    lemma_gaps_fill_forward(cs0, cs1, gaps_pre, gf, idx, cj, g, np, split);
    lemma_gaps_fill_backward(cs0, cs1, gaps_pre, gf, idx, cj, g, np, split);
    lemma_gaps_fill_distinct(cs0, cs1, gaps_pre, gf, idx, cj, g, np, split);
}

/// After the chunk window `[cj0, cj0 + cnt)` is replaced by `np` new chunks
/// covering the same span, every offset but `p` answers as before. Inside the
/// window only the record at `p` may be live, before or after.
#[verifier::rlimit(100)]
proof fn lemma_lookup_after_splice(
    pre: RawStore,
    post: RawStore,
    cj0: int,
    cnt: int,
    np: int,
    p: int,
    lo: nat,
    hi: nat,
)
    requires
        pre.wf(),
        post.wf(),
        0 <= cj0,
        1 <= cnt,
        cj0 + cnt <= pre.chunks@.len(),
        1 <= np,
        post.chunks@.len() == pre.chunks@.len() + np - cnt,
        forall|k: int| 0 <= k < cj0 ==> post.chunks@[k] == pre.chunks@[k],
        forall|k: int|
            cj0 + cnt <= k < pre.chunks@.len() ==> post.chunks@[k + np - cnt] == (
            #[trigger] pre.chunks@[k]),
        forall|k: int|
            0 <= k < pre.chunks@.len() && !(cj0 <= k < cj0 + cnt) ==> (
            #[trigger] pre.chunks@[k]).payload(post.backing.data@) == pre.chunks@[k].payload(
                pre.backing.data@,
            ),
        lo == pre.chunks@[cj0].at,
        hi == pre.chunks@[cj0 + cnt - 1].end(),
        forall|k: int|
            cj0 <= k < cj0 + cnt && (#[trigger] pre.chunks@[k]).at != p ==> !(pre.chunks@[k].kind
                is Live),
        forall|t: int|
            cj0 <= t < cj0 + np && (#[trigger] post.chunks@[t]).at != p ==> !(post.chunks@[t].kind
                is Live),
        forall|t: int|
            cj0 <= t < cj0 + np ==> lo <= (#[trigger] post.chunks@[t]).at < hi,
    ensures
        forall|a: int| a != p ==> post.lookup(a) == pre.lookup(a),
{
    let cs0 = pre.chunks@;
    let cs1 = post.chunks@;
    assert forall|k: int| 0 <= k < cs0.len() implies (#[trigger] cs0[k]).tag_len >= 1 by {
        assert(cs0[k].wf_in(pre.backing.data@));
    };
    assert forall|k: int| 0 <= k < cs1.len() implies (#[trigger] cs1[k]).tag_len >= 1 by {
        assert(cs1[k].wf_in(post.backing.data@));
    };
    assert forall|a: int| a != p implies post.lookup(a) == pre.lookup(a) by {
        if has_chunk_at(cs1, a) {
            let k1 = chunk_idx_at(cs1, a);
            assert(0 <= k1 < cs1.len() && cs1[k1].at == a);
            if k1 < cj0 {
                assert(cs1[k1] == cs0[k1]);
                lemma_chunk_idx_is(cs0, a, k1);
            } else if k1 < cj0 + np {
                // an offset inside the reworked window: live on neither side
                assert(lo <= a < hi);
                assert(!(cs1[k1].kind is Live));
                if has_chunk_at(cs0, a) {
                    let k0 = chunk_idx_at(cs0, a);
                    assert(0 <= k0 < cs0.len() && cs0[k0].at == a);
                    if k0 < cj0 {
                        lemma_chunk_order(cs0, k0, cj0);
                        assert(false);
                    } else if k0 >= cj0 + cnt {
                        lemma_chunk_order(cs0, cj0 + cnt - 1, k0);
                        assert(false);
                    } else {
                        assert(!(cs0[k0].kind is Live));
                    }
                }
            } else {
                assert(cs1[k1] == cs0[k1 + cnt - np]);
                lemma_chunk_idx_is(cs0, a, k1 + cnt - np);
            }
        } else {
            if has_chunk_at(cs0, a) {
                let k0 = chunk_idx_at(cs0, a);
                assert(0 <= k0 < cs0.len() && cs0[k0].at == a);
                if k0 < cj0 {
                    assert(cs1[k0] == cs0[k0]);
                    assert(has_chunk_at(cs1, a));
                } else if k0 >= cj0 + cnt {
                    assert(cs1[k0 + np - cnt] == cs0[k0]);
                    assert(has_chunk_at(cs1, a));
                } else {
                    assert(!(cs0[k0].kind is Live));
                }
            }
        }
    };
}

/// Reads after filling a gap: the record reads back, all else as before.
#[verifier::rlimit(100)]
proof fn lemma_fill_lookup(
    pre: RawStore,
    post: RawStore,
    cj: int,
    np: int,
    live: Chunk,
    bytes: Seq<u8>,
    lo: nat,
    hi: nat,
)
    requires
        pre.wf(),
        post.wf(),
        np == 1 || np == 2,
        0 <= cj < pre.chunks@.len(),
        post.chunks@.len() == pre.chunks@.len() + np - 1,
        forall|k: int| 0 <= k < cj ==> post.chunks@[k] == pre.chunks@[k],
        forall|k: int|
            cj + 1 <= k < pre.chunks@.len() ==> post.chunks@[k + np - 1] == (
            #[trigger] pre.chunks@[k]),
        forall|k: int|
            0 <= k < pre.chunks@.len() && k != cj ==> (#[trigger] pre.chunks@[k]).payload(
                post.backing.data@,
            ) == pre.chunks@[k].payload(pre.backing.data@),
        post.chunks@[cj] == live,
        live.kind is Live,
        live.at == lo,
        live.len == bytes.len(),
        pre.chunks@[cj].kind is Free,
        pre.chunks@[cj].at == lo,
        pre.chunks@[cj].end() == hi,
        np == 2 ==> !(post.chunks@[cj + 1].kind is Live) && lo <= post.chunks@[cj + 1].at < hi,
        post.backing.data@.subrange((live.at + live.tag_len) as int, live.end() as int) == bytes,
    ensures
        post.lookup(lo as int) == Some(bytes),
        pre.lookup(lo as int) is None,
        forall|a: int| a != lo ==> post.lookup(a) == pre.lookup(a),
{
    let cs0 = pre.chunks@;
    let cs1 = post.chunks@;
    let s5 = post.backing.data@;
    assert forall|k: int| 0 <= k < cs0.len() implies (#[trigger] cs0[k]).tag_len >= 1 by {
        assert(cs0[k].wf_in(pre.backing.data@));
    };
    assert forall|k: int| 0 <= k < cs1.len() implies (#[trigger] cs1[k]).tag_len >= 1 by {
        assert(cs1[k].wf_in(s5));
    };
    lemma_chunk_idx_is(cs1, lo as int, cj);
    assert(post.lookup(lo as int) == Some(bytes)) by {
        assert(cs1[cj] == live);
        assert(live.payload(s5) =~= bytes);
    };
    assert(pre.lookup(lo as int) is None) by {
        lemma_chunk_idx_is(cs0, lo as int, cj);
    };
    assert forall|t: int| cj <= t < cj + np implies lo <= (#[trigger] cs1[t]).at < hi by {
        if t > cj {
        }
    };
    lemma_lookup_after_splice(pre, post, cj, 1, np, lo as int, lo, hi);
}

/// All consequences of filling the gap `g` with a record holding `bytes`:
/// the invariant holds again, the record reads back, all else is untouched.
#[verifier::rlimit(100)]
proof fn lemma_fill_post(
    pre: RawStore,
    post: RawStore,
    g: Gap,
    idx: int,
    bytes: Seq<u8>,
    tl: nat,
    split: Option<Gap>,
)
    requires
        pre.wf(),
        0 <= idx < pre.gaps@.len(),
        pre.gaps@[idx] == g,
        bytes.len() <= MAX_LEN,
        tl == tag_min_len(bytes.len() as u64),
        (match split {
            Some(ng) => {
                &&& tl + bytes.len() + ng.tag_len + ng.length == g.tag_len + g.length
                &&& ng.at == g.at + tl + bytes.len()
                &&& 1 <= ng.tag_len <= 4
                &&& ng.length <= MAX_LEN
                &&& tl + bytes.len() < g.tag_len + g.length
                &&& parse_tag(post.backing.data@, ng.at as int) == Some(
                    (MagicTag::Deleted { length: ng.length as u64 }, ng.tag_len as nat),
                )
                &&& post.gaps@ == pre.gaps@.update(idx, pre.gaps@.last()).drop_last().push(ng)
            },
            None => {
                &&& g.tag_len + g.length == tl + bytes.len()
                &&& post.gaps@ == pre.gaps@.update(idx, pre.gaps@.last()).drop_last()
            },
        }),
        post.end == pre.end,
        post.header_length == pre.header_length,
        post.magic == pre.magic,
        post.backing.data@.len() == pre.backing.data@.len(),
        forall|j: int|
            0 <= j < pre.backing.data@.len() && !(g.at <= j < g.at + g.tag_len + g.length)
                ==> post.backing.data@[j] == pre.backing.data@[j],
        parse_tag(post.backing.data@, g.at as int) == Some(
            (MagicTag::Written { length: bytes.len() as u64 }, tl),
        ),
        post.backing.data@.subrange(g.at + tl, g.at + tl + bytes.len() as int) == bytes,
        post.chunks@ == pre.chunks@.take(chunk_idx_at(pre.chunks@, g.at as int)) + (match split {
            Some(ng) => seq![
                Chunk { at: g.at as nat, tag_len: tl, len: bytes.len(), kind: ChunkKind::Live },
                Chunk {
                    at: ng.at as nat,
                    tag_len: ng.tag_len as nat,
                    len: ng.length as nat,
                    kind: ChunkKind::Free,
                },
            ],
            None => seq![
                Chunk { at: g.at as nat, tag_len: tl, len: bytes.len(), kind: ChunkKind::Live },
            ],
        }) + pre.chunks@.skip(chunk_idx_at(pre.chunks@, g.at as int) + 1),
    ensures
        post.wf(),
        post.lookup(g.at as int) == Some(bytes),
        pre.lookup(g.at as int) is None,
        forall|a: int| a != g.at ==> post.lookup(a) == pre.lookup(a),
{
    let s0 = pre.backing.data@;
    let s5 = post.backing.data@;
    let cs0 = pre.chunks@;
    let cs1 = post.chunks@;
    let hl = pre.header_length as nat;
    let end0 = pre.end as nat;
    let cj = chunk_idx_at(cs0, g.at as int);
    let live = Chunk { at: g.at as nat, tag_len: tl, len: bytes.len(), kind: ChunkKind::Live };
    let newpart = match split {
        Some(ng) => seq![
            live,
            Chunk {
                at: ng.at as nat,
                tag_len: ng.tag_len as nat,
                len: ng.length as nat,
                kind: ChunkKind::Free,
            },
        ],
        None => seq![live],
    };
    let np = newpart.len() as int;
    pre.lemma_gap_chunk(g);
    lemma_chunk_in_range(cs0, hl, end0, cj);
    let lo = g.at as nat;
    let hi = (g.at + g.tag_len + g.length) as nat;
    assert(cs0[cj].end() == hi && cs0[cj].at == lo);
    assert(chunks_wf(newpart, s5)) by {
        match split {
            Some(ng) => {
                assert(chunk_follows(newpart, 0));
                assert(newpart[1].wf_in(s5));
            },
            None => {},
        }
        assert(newpart[0].wf_in(s5));
    };
    lemma_splice(s0, s5, cs0, cs1, hl, end0, end0, cj, 1, newpart, lo, hi, hi, hi);
    lemma_fill_wf(pre, post, g, idx, cj, np, split, live);
    assert(post.chunks@[cj] == live);
    assert(np == 2 ==> !(post.chunks@[cj + 1].kind is Live) && lo <= post.chunks@[cj + 1].at
        < hi) by {
        if np == 2 {
            assert(post.chunks@[cj + 1] == newpart[1]);
        }
    };
    lemma_fill_lookup(pre, post, cj, np, live, bytes, lo, hi);
}
/// Kinds bookkeeping for a filled gap: no partial writes appear, and no two
/// gaps become adjacent.
proof fn lemma_kinds_after_fill(cs0: Seq<Chunk>, cs1: Seq<Chunk>, cj: int, np: int)
    requires
        no_pending(cs0),
        gaps_coalesced(cs0),
        0 <= cj < cs0.len(),
        np == 1 || np == 2,
        cs0[cj].kind is Free,
        cs1.len() == cs0.len() + np - 1,
        forall|k: int| 0 <= k < cj ==> cs1[k] == cs0[k],
        forall|k: int|
            cj + 1 <= k < cs0.len() ==> cs1[k + np - 1] == (#[trigger] cs0[k]),
        cs1[cj].kind is Live,
        np == 2 ==> cs1[cj + 1].kind is Free,
    ensures
        no_pending(cs1),
        gaps_coalesced(cs1),
{
    assert forall|k: int| 0 <= k < cs1.len() implies !((#[trigger] cs1[k]).kind is Pending) by {
        if k < cj {
            assert(cs1[k] == cs0[k]);
        } else if k < cj + np {
        } else {
            assert(cs1[k] == cs0[k + 1 - np]);
        }
    };
    assert forall|t: int| 0 <= t < cs1.len() - 1 implies #[trigger] gap_pair_ok(cs1, t) by {
        if t + 1 < cj {
            assert(gap_pair_ok(cs0, t));
            assert(cs1[t] == cs0[t] && cs1[t + 1] == cs0[t + 1]);
        } else if t == cj - 1 {
        } else if t == cj {
        } else if t == cj + np - 1 {
            assert(cs1[t + 1] == cs0[cj + 1]);
            assert(gap_pair_ok(cs0, cj));
        } else {
            assert(cs1[t] == cs0[t + 1 - np] && cs1[t + 1] == cs0[t + 2 - np]);
            assert(gap_pair_ok(cs0, t + 1 - np));
        }
    };
}

/// After a gap is filled in place, the whole store invariant holds again.
#[verifier::rlimit(100)]
proof fn lemma_fill_wf(
    pre: RawStore,
    post: RawStore,
    g: Gap,
    idx: int,
    cj: int,
    np: int,
    split: Option<Gap>,
    live: Chunk,
)
    requires
        pre.wf(),
        0 <= idx < pre.gaps@.len(),
        pre.gaps@[idx] == g,
        0 <= cj < pre.chunks@.len(),
        gap_matches(g, pre.chunks@[cj]),
        post.header_length == pre.header_length,
        post.end == pre.end,
        post.magic == pre.magic,
        post.backing.data@.len() == pre.backing.data@.len(),
        forall|j: int|
            0 <= j < pre.backing.data@.len() && !(g.at <= j < g.at + g.tag_len + g.length)
                ==> post.backing.data@[j] == pre.backing.data@[j],
        np == (if split is Some {
            2int
        } else {
            1int
        }),
        post.chunks@.len() == pre.chunks@.len() + np - 1,
        forall|k: int| 0 <= k < cj ==> post.chunks@[k] == pre.chunks@[k],
        forall|k: int|
            cj + 1 <= k < pre.chunks@.len() ==> post.chunks@[k + np - 1] == (
            #[trigger] pre.chunks@[k]),
        post.chunks@[cj] == live,
        live.kind is Live,
        live.at == g.at,
        chunks_contiguous(post.chunks@, post.header_length as nat, post.end as nat),
        chunks_wf(post.chunks@, post.backing.data@),
        (match split {
            Some(ng) => {
                &&& post.gaps@ == pre.gaps@.update(idx, pre.gaps@.last()).drop_last().push(ng)
                &&& post.chunks@[cj + 1].kind is Free
                &&& post.chunks@[cj + 1].at == ng.at
                &&& post.chunks@[cj + 1].len == ng.length
                &&& post.chunks@[cj + 1].tag_len == ng.tag_len
                &&& g.at < ng.at < g.at + g.tag_len + g.length
            },
            None => post.gaps@ == pre.gaps@.update(idx, pre.gaps@.last()).drop_last(),
        }),
    ensures
        post.wf(),
{
    let s0 = pre.backing.data@;
    let s5 = post.backing.data@;
    let cs0 = pre.chunks@;
    let cs1 = post.chunks@;
    let hl = pre.header_length as nat;
    assert forall|k: int| 0 <= k < cs0.len() implies (#[trigger] cs0[k]).tag_len >= 1 by {
        assert(cs0[k].wf_in(s0));
    };
    assert(cs0[cj].at == g.at && cs0[cj].end() == g.at + g.tag_len + g.length) by {
        assert(cs0[cj].wf_in(s0));
    };
    lemma_chunk_in_range(cs0, hl, pre.end as nat, cj);
    assert(header_wf(s5, hl, post.magic@)) by {
        lemma_header_frame(s0, s5, hl, pre.magic@);
    };
    lemma_kinds_after_fill(cs0, cs1, cj, np);
    assert(parse_tag(s5, post.end as int) == Some((MagicTag::End, 1nat))) by {
        lemma_parse_tag_frame(s0, s5, post.end as int);
    };
    lemma_gaps_after_fill(cs0, cs1, pre.gaps@, post.gaps@, idx, cj, g, np, split);
}

impl RawStore {
    /// The chunk starting at `at` is the one `chunk_idx_at` names.
    #[verifier::rlimit(50)]
    proof fn lemma_lookup_chunk(self, at: int) -> (j: int)
        requires
            self.wf(),
            has_chunk_at(self.chunks@, at),
        ensures
            j == chunk_idx_at(self.chunks@, at),
            0 <= j < self.chunks@.len(),
            self.chunks@[j].at == at,
            self.chunks@[j].wf_in(self.backing.data@),
            forall|k: int|
                0 <= k < self.chunks@.len() && (#[trigger] self.chunks@[k]).at == at ==> k == j,
    {
        let cs = self.chunks@;
        let j = chunk_idx_at(cs, at);
        assert(0 <= j < cs.len() && cs[j].at == at);
        assert(cs[j].wf_in(self.backing.data@));
        assert forall|k: int|
            0 <= k < cs.len() && (#[trigger] cs[k]).at == at implies k == j by {
            assert(cs[k].wf_in(self.backing.data@));
            lemma_chunk_at_unique(cs, k, j);
        };
        j
    }

    /// Create a new store over a zeroed region, stamping `spec_magic` into
    /// the header.
    pub fn new(backing: Backing, spec_magic: &[u8]) -> (r: Result<RawStore, Error>)
        requires
            forall|i: int| 0 <= i < backing@.len() ==> backing@[i] == 0,
            spec_magic@.len() <= MAX_LEN,
            backing@.len() <= 0xFF_FFFF_0000_0000,
        ensures
            match r {
                Ok(s) => {
                    &&& s.wf()
                    &&& s.magic_spec() == spec_magic@
                    &&& s.end_spec() == s.header_length_spec()
                    &&& forall|at: int| s.lookup(at) is None
                },
                Err(_) => false,
            },
    {
        proof {
            lemma_backing_view(&backing);
        }
        let mut hdr: Vec<u8> = Vec::new();
        hdr.push(0x1F);
        hdr.push(0x50);
        hdr.push(0x4C);
        hdr.push(0x46);
        hdr.push(0x6D);
        hdr.push(0x61);
        hdr.push(0x70);
        hdr.push(0x00);
        hdr.push(0x00);
        proof {
            assert(hdr@.subrange(0, 7) =~= header_magic());
        }
        let ghost hdr9 = hdr@;
        append_varint(&mut hdr, spec_magic.len() as u64);
        let ghost hdr_v = hdr@;
        proof {
            crate::varint::lemma_varint_bytes_len(spec_magic@.len() as u64);
        }
        let mut i: usize = 0;
        let smlen: usize = spec_magic.len();
        while i < smlen
            invariant
                i <= smlen,
                smlen == spec_magic@.len(),
                hdr@ =~= hdr_v + spec_magic@.subrange(0, i as int),
            decreases smlen - i,
        {
            hdr.push(spec_magic[i]);
            i = i + 1;
            proof {
                assert(hdr@ =~= hdr_v + spec_magic@.subrange(0, i as int));
            }
        }
        proof {
            assert(spec_magic@.subrange(0, smlen as int) =~= spec_magic@);
        }
        let ghost m = spec_magic@;
        let ghost vs = varint_size_spec(m.len() as u64);
        let hl: usize = hdr.len();
        proof {
            assert(hdr@ =~= hdr9 + crate::varint::varint_bytes(m.len() as u64) + m);
            assert(hl == 9 + vs + m.len());
        }
        let ghost initial = backing@;
        let mut data = backing.data;
        grow_for(&mut data, hl + 1);
        let ghost grown = data@;
        write_within(&mut data, 0, hdr.as_slice());
        let ghost written = data@;
        let mut pos: usize = hl;
        MagicTag::End.write_buffer(&mut data, &mut pos);
        let ghost s = data@;
        proof {
            assert(s.len() == grown.len());
            assert(grown.len() > hl + 1);
            assert forall|j: int| 0 <= j < hl implies s[j] == hdr@[j] by {
                assert(s[j] == written[j]);
                assert(written.subrange(0, hl as int)[j] == written[j]);
            };
            assert forall|j: int| hl < j < s.len() implies s[j] == 0 by {
                assert(s[j] == written[j]);
                assert(written[j] == grown[j]);
                if j < initial.len() {
                    assert(grown.subrange(0, initial.len() as int)[j] == grown[j]);
                }
            };
        }
        let store = RawStore {
            backing: Backing { data },
            end: hl,
            gaps: Vec::new(),
            header_length: hl,
            chunks: Ghost(Seq::empty()),
            magic: Ghost(m),
        };
        proof {
            assert(store.backing.data@ =~= s);
            assert(s.subrange(0, 7) =~= header_magic()) by {
                assert forall|j: int| 0 <= j < 7 implies s.subrange(0, 7)[j] == header_magic()[j]
                    by {
                    assert(s[j] == hdr@[j]);
                    assert(hdr@[j] == hdr9[j]);
                };
            };
            assert(s[7] == hdr@[7] && s[8] == hdr@[8]);
            assert(s.subrange(9, 9 + vs as int) =~= crate::varint::varint_bytes(m.len() as u64))
                by {
                assert forall|j: int| 0 <= j < vs implies #[trigger] s.subrange(
                    9,
                    9 + vs as int,
                )[j] == crate::varint::varint_bytes(m.len() as u64)[j] by {
                    assert(s[9 + j] == hdr@[9 + j]);
                    assert(hdr@[9 + j] == (hdr9 + crate::varint::varint_bytes(m.len() as u64)
                        + m)[9 + j]);
                };
            };
            crate::varint::lemma_varint_round_trip(s, 9, m.len() as u64);
            assert(s.subrange((hl - m.len()) as int, hl as int) =~= m) by {
                assert forall|j: int| 0 <= j < m.len() implies s.subrange(
                    (hl - m.len()) as int,
                    hl as int,
                )[j] == m[j] by {
                    assert(s[hl - m.len() + j] == hdr@[hl - m.len() + j]);
                    assert(hdr@[9 + vs + j] == (hdr9 + crate::varint::varint_bytes(m.len() as u64)
                        + m)[9 + vs + j]);
                };
            };
            assert(header_wf(s, hl as nat, m));
            assert(chunks_contiguous(store.chunks@, hl as nat, hl as nat));
            assert(store.wf());
            assert forall|at: int| store.lookup(at) is None by {
                assert(!has_chunk_at(store.chunks@, at));
            };
        }
        Ok(store)
    }

    /// Read the record that `at` names and return a copy of its payload.
    pub fn get(&self, at: Id) -> (r: Result<Vec<u8>, Error>)
        requires
            self.wf(),
        ensures
            match self.lookup(at.at_spec() as int) {
                Some(data) => {
                    if at.marker_spec() == marker_of(data.len() as u64) {
                        r matches Ok(v) && v@ == data
                    } else {
                        r == Result::<Vec<u8>, Error>::Err(Error::IdCheck(at))
                    }
                },
                None => true,
            },
            self.deleted_at(at.at_spec() as int) ==> r == Result::<Vec<u8>, Error>::Err(
                Error::AlreadyDeleted { position: at.at_spec() },
            ),
    {
        let mut position = at.at();
        let ghost cs = self.chunks@;
        let ghost s = self.backing.data@;
        let ghost at_i = at.at_spec() as int;
        proof {
            if has_chunk_at(cs, at_i) {
                let j = self.lemma_lookup_chunk(at_i);
            }
        }
        let tag = MagicTag::read(self.backing.data.as_slice(), &mut position);
        match tag {
            Err(e) => Err(e),
            Ok(MagicTag::Writing { .. }) => Err(Error::EntryCorrupt { position: at.at() }),
            Ok(MagicTag::Deleted { .. }) => Err(Error::AlreadyDeleted { position: at.at() }),
            Ok(MagicTag::End) => Err(
                Error::IncorrectTag { position: at.at(), found: Tag(MagicTag::End) },
            ),
            Ok(MagicTag::Written { length }) => {
                proof {
                    if has_chunk_at(cs, at_i) {
                        let j = chunk_idx_at(cs, at_i);
                        assert(cs[j].wf_in(s));
                        assert(cs[j].kind is Live);
                        assert(length == cs[j].len);
                        assert(position == at_i + cs[j].tag_len);
                    }
                }
                match at.verify(length) {
                    Err(e) => Err(e),
                    Ok(()) => {
                        let dlen: usize = self.backing.data.len();
                        if length as usize <= dlen - position && position <= dlen {
                            let payload = read_range(&self.backing.data, position, length as usize);
                            Ok(payload)
                        } else {
                            proof {
                                if has_chunk_at(cs, at_i) {
                                    let j = chunk_idx_at(cs, at_i);
                                    assert(cs[j].end() <= s.len());
                                }
                            }
                            Err(Error::UnknownTag { position: at.at(), byte: 0 })
                        }
                    },
                }
            },
        }
    }

    /// The index of the chunk a tracked gap names.
    proof fn lemma_gap_chunk(self, g: Gap)
        requires
            self.wf(),
            exists|i: int| 0 <= i < self.gaps@.len() && self.gaps@[i] == g,
        ensures
            has_chunk_at(self.chunks@, g.at as int),
            0 <= chunk_idx_at(self.chunks@, g.at as int) < self.chunks@.len(),
            gap_matches(g, self.chunks@[chunk_idx_at(self.chunks@, g.at as int)]),
    {
        let cs = self.chunks@;
        let i = choose|i: int| 0 <= i < self.gaps@.len() && self.gaps@[i] == g;
        assert(exists|j: int| 0 <= j < cs.len() && gap_matches(self.gaps@[i], cs[j]));
        let cj = choose|j: int| 0 <= j < cs.len() && gap_matches(self.gaps@[i], cs[j]);
        assert forall|k: int| 0 <= k < cs.len() implies (#[trigger] cs[k]).tag_len >= 1 by {
            assert(cs[k].wf_in(self.backing.data@));
        };
        lemma_chunk_idx_is(cs, g.at as int, cj);
    }

    /// Store a copy of `bytes` and hand back its identifier. The new record
    /// fills a tracked gap where one fits, else it extends the slab.
    #[verifier::rlimit(100)]
    pub fn add(&mut self, bytes: &[u8]) -> (r: Result<Id, Error>)
        requires
            old(self).wf(),
            bytes@.len() <= MAX_LEN,
            old(self).end_spec() + bytes@.len() + 300 <= 0xFF_FFFF_FFFF_FFFF,
            old(self).end_spec() + bytes@.len() + 300 <= usize::MAX,
        ensures
            final(self).wf(),
            final(self).magic_spec() == old(self).magic_spec(),
            final(self).header_length_spec() == old(self).header_length_spec(),
            final(self).end_spec() <= old(self).end_spec() + tag_min_len(bytes@.len() as u64)
                + bytes@.len(),
            match r {
                Ok(id) => {
                    &&& id.marker_spec() == marker_of(bytes@.len() as u64)
                    &&& old(self).lookup(id.at_spec() as int) is None
                    &&& final(self).lookup(id.at_spec() as int) == Some(bytes@)
                    &&& forall|a: int|
                        a != id.at_spec() as int ==> final(self).lookup(a) == old(self).lookup(a)
                    &&& ({
                        let need = tag_min_len(bytes@.len() as u64) + bytes@.len() as int;
                        if (exists|i: int|
                            0 <= i < old(self).gaps_spec().len() && gap_fits(
                                #[trigger] old(self).gaps_spec()[i],
                                need,
                            )) {
                            // the record fills a qualifying gap: the slab does
                            // not grow, and an exactly filled gap leaves the
                            // list while a split one is replaced in place
                            &&& final(self).end_spec() == old(self).end_spec()
                            &&& placed_in_gap(
                                old(self).gaps_spec(),
                                final(self).gaps_spec().len() as int,
                                id.at_spec(),
                                need,
                            )
                        } else {
                            // nothing qualifies: the record is appended and
                            // the end tag moves past it
                            &&& id.at_spec() == old(self).end_spec()
                            &&& final(self).end_spec() == old(self).end_spec() + need
                            &&& final(self).gaps_spec() == old(self).gaps_spec()
                        }
                    })
                },
                Err(_) => false,
            },
    {
        let ghost cs0 = self.chunks@;
        let ghost s0 = self.backing.data@;
        let len_u64 = bytes.len() as u64;
        let tl: usize = MagicTag::Writing { length: len_u64 }.written_length();
        let required: usize = tl + bytes.len();

        // pick among the fitting gaps a smallest of the first eight
        let mut chosen: Option<usize> = None;
        let mut chosen_size: usize = 0;
        let mut seen: usize = 0;
        let mut gi: usize = 0;
        let glen: usize = self.gaps.len();
        proof {
            assert forall|k: int|
                0 <= k < self.gaps@.len() implies (#[trigger] self.gaps@[k]).length <= MAX_LEN
                && self.gaps@[k].tag_len <= 4 by {
                let cj = choose|j: int| 0 <= j < cs0.len() && gap_matches(self.gaps@[k], cs0[j]);
                assert(cs0[cj].wf_in(s0));
            };
        }
        while gi < glen && seen < 8
            invariant
                glen == self.gaps@.len(),
                gi <= glen,
                required == tl + bytes@.len(),
                required <= MAX_LEN + 4,
                match chosen {
                    Some(c) => {
                        &&& (c as int) < glen
                        &&& chosen_size == self.gaps@[c as int].length + self.gaps@[c as int].tag_len
                        &&& (chosen_size == required || chosen_size >= required + 5)
                    },
                    None => seen == 0 && forall|i: int|
                        0 <= i < gi ==> !gap_fits(#[trigger] self.gaps@[i], required as int),
                },
                forall|k: int|
                    0 <= k < self.gaps@.len() ==> (#[trigger] self.gaps@[k]).length <= MAX_LEN
                        && self.gaps@[k].tag_len <= 4,
            decreases glen - gi,
        {
            let g = self.gaps[gi];
            let size: usize = g.length as usize + g.tag_len as usize;
            if size == required || size >= required + 5 {
                seen = seen + 1;
                if chosen.is_none() || size < chosen_size {
                    chosen = Some(gi);
                    chosen_size = size;
                }
            }
            gi = gi + 1;
        }
        let ghost gaps0 = self.gaps@;
        let id: Id = match chosen {
            Some(idx) => {
                let r = self.add_in_gap(bytes, idx);
                proof {
                    assert(gap_fits(gaps0[idx as int], required as int));
                    assert(placed_in_gap(
                        gaps0,
                        self.gaps@.len() as int,
                        r.at_spec(),
                        required as int,
                    ));
                }
                r
            },
            None => {
                proof {
                    assert(forall|i: int|
                        0 <= i < gaps0.len() ==> !gap_fits(#[trigger] gaps0[i], required as int));
                }
                self.add_append(bytes)
            },
        };
        Ok(id)
    }

    /// Place a new record inside the tracked gap at `idx` of the gap list,
    /// splitting off the unused remainder as a smaller gap.
    #[verifier::rlimit(100)]
    fn add_in_gap(&mut self, bytes: &[u8], idx: usize) -> (id: Id)
        requires
            old(self).wf(),
            bytes@.len() <= MAX_LEN,
            idx < old(self).gaps@.len(),
            ({
                let sz = old(self).gaps@[idx as int].length + old(self).gaps@[
                    idx as int
                ].tag_len;
                let need = tag_min_len(bytes@.len() as u64) + bytes@.len();
                sz == need || sz >= need + 5
            }),
        ensures
            final(self).wf(),
            final(self).magic_spec() == old(self).magic_spec(),
            final(self).header_length_spec() == old(self).header_length_spec(),
            final(self).end_spec() == old(self).end_spec(),
            id.marker_spec() == marker_of(bytes@.len() as u64),
            old(self).lookup(id.at_spec() as int) is None,
            final(self).lookup(id.at_spec() as int) == Some(bytes@),
            forall|a: int|
                a != id.at_spec() as int ==> final(self).lookup(a) == old(self).lookup(a),
            id.at_spec() == old(self).gaps_spec()[idx as int].at,
            ({
                let g = old(self).gaps_spec()[idx as int];
                let need = tag_min_len(bytes@.len() as u64) + bytes@.len();
                &&& (g.tag_len + g.length == need ==> final(self).gaps_spec().len() == old(
                    self,
                ).gaps_spec().len() - 1)
                &&& (g.tag_len + g.length != need ==> final(self).gaps_spec().len() == old(
                    self,
                ).gaps_spec().len())
            }),
    {
        let ghost s0 = self.backing.data@;
        let ghost cs0 = self.chunks@;
        let ghost hl = self.header_length as nat;
        let ghost end0 = self.end as nat;
        proof {
            assert forall|k: int| 0 <= k < cs0.len() implies (#[trigger] cs0[k]).tag_len >= 1
                && cs0[k].len <= MAX_LEN by {
                assert(cs0[k].wf_in(s0));
            };
        }
        let len_u64 = bytes.len() as u64;
        let tl: usize = MagicTag::Writing { length: len_u64 }.written_length();
        let required: usize = tl + bytes.len();
        let g = self.gaps[idx];
        let ghost cj = chunk_idx_at(cs0, g.at as int);
        proof {
            self.lemma_gap_chunk(g);
            lemma_chunk_in_range(cs0, hl, end0, cj);
        }
        let _ = self.gaps.swap_remove(idx);
        let ghost gaps1 = self.gaps@;
        let p: usize = g.at;
        let total: usize = g.tag_len as usize + g.length as usize;
        let ghost lo = p as nat;
        let ghost hi = (p + total) as nat;
        proof {
            assert(cs0[cj].end() == hi);
            assert(hi <= end0);
        }
        let mut pos: usize = p;
        MagicTag::Writing { length: len_u64 }.write_exact(&mut self.backing.data, &mut pos, tl);
        let ghost s1 = self.backing.data@;
        write_within(&mut self.backing.data, pos, bytes);
        let ghost s2 = self.backing.data@;
        proof {
            lemma_parse_tag_frame(s1, s2, p as int);
        }
        pos = pos + bytes.len();
        let split: Option<Gap> = if required < total {
            let remaining: usize = total - required;
            let (tl2, len2) = MagicTag::calc_tag_len(remaining);
            let new_at: usize = pos;
            let ghost s2b = self.backing.data@;
            MagicTag::Deleted { length: len2 as u64 }.write_exact(
                &mut self.backing.data,
                &mut pos,
                tl2 as usize,
            );
            proof {
                lemma_parse_tag_frame(s2b, self.backing.data@, p as int);
            }
            pos = pos + len2;
            let ng = Gap { at: new_at, length: len2 as u32, tag_len: tl2 };
            self.gaps.push(ng);
            Some(ng)
        } else {
            None
        };
        let ghost s4 = self.backing.data@;
        // flip the record live: a one-byte change of kind
        let b0 = self.backing.data[p];
        self.backing.data.set(p, 0x80u8 | (b0 & 0x1F));
        let ghost s5 = self.backing.data@;
        let ghost live = Chunk {
            at: p as nat,
            tag_len: tl as nat,
            len: bytes@.len(),
            kind: ChunkKind::Live,
        };
        let ghost newpart = match split {
            Some(ng) => seq![
                live,
                Chunk {
                    at: ng.at as nat,
                    tag_len: ng.tag_len as nat,
                    len: ng.length as nat,
                    kind: ChunkKind::Free,
                },
            ],
            None => seq![live],
        };
        proof {
            self.chunks@ = cs0.take(cj) + newpart + cs0.skip(cj + 1);
            lemma_retag(s4, s5, p as int, 0x80u8);
            assert(parse_tag(s5, p as int) == Some(
                (MagicTag::Written { length: len_u64 }, tl as nat),
            ));
            match split {
                Some(ng) => {
                    assert(parse_tag(s4, ng.at as int) == Some(
                        (MagicTag::Deleted { length: ng.length as u64 }, ng.tag_len as nat),
                    ));
                    lemma_parse_tag_frame(s4, s5, ng.at as int);
                },
                None => {},
            }
            assert(s5.subrange(p + tl, p + tl + bytes@.len() as int) =~= bytes@) by {
                assert forall|j: int|
                    0 <= j < bytes@.len() implies s5.subrange(
                    p + tl,
                    p + tl + bytes@.len() as int,
                )[j] == bytes@[j] by {
                    assert(s5[p + tl + j] == s4[p + tl + j]);
                    assert(s2.subrange(p + tl, p + tl + bytes@.len() as int)[j] == bytes@[j]);
                };
            };
            lemma_fill_post(*old(self), *self, g, idx as int, bytes@, tl as nat, split);
        }
        Id::new(p, bytes.len())
    }

    /// Place a new record at the slab's end, moving the end tag past it.
    #[verifier::rlimit(100)]
    fn add_append(&mut self, bytes: &[u8]) -> (id: Id)
        requires
            old(self).wf(),
            bytes@.len() <= MAX_LEN,
            old(self).end_spec() + bytes@.len() + 300 <= 0xFF_FFFF_FFFF_FFFF,
            old(self).end_spec() + bytes@.len() + 300 <= usize::MAX,
        ensures
            final(self).wf(),
            final(self).magic_spec() == old(self).magic_spec(),
            final(self).header_length_spec() == old(self).header_length_spec(),
            final(self).end_spec() == old(self).end_spec() + tag_min_len(bytes@.len() as u64)
                + bytes@.len(),
            final(self).gaps_spec() == old(self).gaps_spec(),
            id.at_spec() == old(self).end_spec(),
            id.marker_spec() == marker_of(bytes@.len() as u64),
            old(self).lookup(id.at_spec() as int) is None,
            final(self).lookup(id.at_spec() as int) == Some(bytes@),
            forall|a: int|
                a != id.at_spec() as int ==> final(self).lookup(a) == old(self).lookup(a),
    {
        let ghost s0 = self.backing.data@;
        let ghost cs0 = self.chunks@;
        let ghost hl = self.header_length as nat;
        let ghost end0 = self.end as nat;
        proof {
            assert forall|k: int| 0 <= k < cs0.len() implies (#[trigger] cs0[k]).tag_len >= 1
                && cs0[k].len <= MAX_LEN by {
                assert(cs0[k].wf_in(s0));
            };
        }
        let len_u64 = bytes.len() as u64;
        let tl: usize = MagicTag::Writing { length: len_u64 }.written_length();
        let required: usize = tl + bytes.len();
        let p: usize = self.end;
        let new_end: usize = p + required;
        let ghost lo = p as nat;
        let ghost hi = (new_end + 1) as nat;
        grow_for(&mut self.backing.data, new_end + 1);
        let ghost sg = self.backing.data@;
        proof {
            assert forall|j: int| 0 <= j < s0.len() && !(lo <= j < hi) implies sg[j] == s0[j] by {
                assert(sg.subrange(0, s0.len() as int)[j] == sg[j]);
            };
        }
        let mut pos: usize = p;
        MagicTag::Writing { length: len_u64 }.write_exact(&mut self.backing.data, &mut pos, tl);
        let ghost s1 = self.backing.data@;
        write_within(&mut self.backing.data, pos, bytes);
        let ghost s2 = self.backing.data@;
        proof {
            lemma_parse_tag_frame(s1, s2, p as int);
        }
        pos = pos + bytes.len();
        let mut pos2: usize = new_end;
        MagicTag::End.write_buffer(&mut self.backing.data, &mut pos2);
        let ghost s3 = self.backing.data@;
        proof {
            lemma_parse_tag_frame(s2, s3, p as int);
        }
        self.end = new_end;
        let b0 = self.backing.data[p];
        self.backing.data.set(p, 0x80u8 | (b0 & 0x1F));
        let ghost s5 = self.backing.data@;
        let ghost live = Chunk {
            at: p as nat,
            tag_len: tl as nat,
            len: bytes@.len(),
            kind: ChunkKind::Live,
        };
        let ghost newpart = seq![live];
        proof {
            self.chunks@ = cs0.push(live);
            assert(self.chunks@ =~= cs0.take(cs0.len() as int) + newpart + cs0.skip(
                cs0.len() as int,
            ));
            lemma_retag(s3, s5, p as int, 0x80u8);
            assert(parse_tag(s5, p as int) == Some(
                (MagicTag::Written { length: len_u64 }, tl as nat),
            ));
            assert(chunks_wf(newpart, s5));
            assert forall|j: int| 0 <= j < s0.len() && !(lo <= j < hi) implies s5[j] == s0[j]
                by {
                assert(s5[j] == s3[j]);
                assert(s3[j] == s2[j]);
                assert(s2[j] == s1[j]);
                assert(s1[j] == sg[j]);
                assert(sg.subrange(0, s0.len() as int)[j] == sg[j]);
            };
            lemma_splice(
                s0,
                s5,
                cs0,
                self.chunks@,
                hl,
                end0,
                live.end(),
                cs0.len() as int,
                0,
                newpart,
                lo,
                lo,
                live.end(),
                hi,
            );
            // the end tag and the padding behind it
            assert(parse_tag(s5, new_end as int) == Some((MagicTag::End, 1nat))) by {
                lemma_parse_tag_frame(s3, s5, new_end as int);
            };
            // the remaining well-formedness conjuncts
            let cs1 = self.chunks@;
            lemma_header_frame(s0, s5, hl, self.magic@);
            assert(no_pending(cs1)) by {
                assert forall|k: int| 0 <= k < cs1.len() implies !((#[trigger] cs1[k]).kind
                    is Pending) by {
                    if k < cs0.len() {
                        assert(cs1[k] == cs0[k]);
                    } else {
                        assert(cs1[k] == live);
                    }
                };
            };
            assert(gaps_coalesced(cs1)) by {
                assert forall|t: int| 0 <= t < cs1.len() - 1 implies #[trigger] gap_pair_ok(
                    cs1,
                    t,
                ) by {
                    if t + 1 < cs0.len() {
                        assert(gap_pair_ok(cs0, t));
                        assert(cs1[t] == cs0[t] && cs1[t + 1] == cs0[t + 1]);
                    } else {
                        assert(cs1[t + 1] == live);
                    }
                };
            };
            assert forall|j: int| self.end < j < s5.len() implies s5[j] == 0 by {
                if j < s0.len() {
                    assert(s5[j] == s0[j]);
                } else {
                    assert(s5[j] == sg[j]);
                }
            };
            assert(gaps_match(self.gaps@, cs1)) by {
                assert forall|i2: int| 0 <= i2 < self.gaps@.len() implies exists|j: int|
                    0 <= j < cs1.len() && gap_matches(#[trigger] self.gaps@[i2], cs1[j])
                    by {
                    let jw = choose|j: int|
                        0 <= j < cs0.len() && gap_matches(self.gaps@[i2], cs0[j]);
                    assert(cs1[jw] == cs0[jw]);
                    assert(gap_matches(self.gaps@[i2], cs1[jw]));
                };
                assert forall|j: int|
                    0 <= j < cs1.len() && (#[trigger] cs1[j]).kind is Free implies exists|
                i2: int|
                    0 <= i2 < self.gaps@.len() && gap_matches(self.gaps@[i2], cs1[j]) by {
                    assert(j < cs0.len());
                    assert(cs1[j] == cs0[j]);
                };
            };
            assert(self.wf());
            assert forall|k: int| 0 <= k < cs1.len() implies (#[trigger] cs1[k]).tag_len
                >= 1 by {
                assert(cs1[k].wf_in(s5));
            };
            lemma_chunk_idx_is(cs1, p as int, cs0.len() as int);
            assert(self.lookup(p as int) == Some(bytes@)) by {
                assert(cs1[cs0.len() as int] == live);
                assert(live.payload(s5) =~= bytes@) by {
                    assert forall|j: int|
                        0 <= j < bytes@.len() implies live.payload(s5)[j] == bytes@[j] by {
                        assert(s5[p + tl + j] == s3[p + tl + j]);
                        assert(s2.subrange(p + tl, p + tl + bytes@.len() as int)[j]
                            == bytes@[j]);
                    };
                };
            };
            assert(old(self).lookup(p as int) is None) by {
                if has_chunk_at(cs0, p as int) {
                    let k0 = chunk_idx_at(cs0, p as int);
                    assert(0 <= k0 < cs0.len() && cs0[k0].at == p);
                    lemma_chunk_order(cs0, k0, cs0.len() - 1);
                    assert(cs0[k0].at < cs0[k0].end());
                }
            };
            assert forall|a: int| a != p implies self.lookup(a) == old(self).lookup(a) by {
                if has_chunk_at(cs1, a) {
                    let k1 = chunk_idx_at(cs1, a);
                    assert(0 <= k1 < cs1.len() && cs1[k1].at == a);
                    if k1 < cs0.len() {
                        assert(cs1[k1] == cs0[k1]);
                        lemma_chunk_idx_is(cs0, a, k1);
                    } else {
                        assert(a == p);
                    }
                } else {
                    if has_chunk_at(cs0, a) {
                        let k0 = chunk_idx_at(cs0, a);
                        assert(0 <= k0 < cs0.len() && cs0[k0].at == a);
                        assert(cs1[k0] == cs0[k0]);
                        assert(has_chunk_at(cs1, a));
                    }
                }
            };
        }
        Id::new(p, bytes.len())
    }

    /// Replace the payload of the record `at` names with `with`, which must
    /// have the same length; the old payload is returned.
    #[verifier::rlimit(100)]
    pub fn replace(&mut self, at: Id, with: &[u8]) -> (r: Result<Vec<u8>, Error>)
        requires
            old(self).wf(),
            old(self).lookup(at.at_spec() as int) is Some || old(self).deleted_at(
                at.at_spec() as int,
            ),
        ensures
            final(self).wf(),
            final(self).end_spec() == old(self).end_spec(),
            final(self).header_length_spec() == old(self).header_length_spec(),
            final(self).magic_spec() == old(self).magic_spec(),
            r is Err ==> *final(self) == *old(self),
            match old(self).lookup(at.at_spec() as int) {
                Some(data) => {
                    if at.marker_spec() != marker_of(data.len() as u64) {
                        r == Result::<Vec<u8>, Error>::Err(Error::IdCheck(at))
                    } else if data.len() != with@.len() {
                        r == Result::<Vec<u8>, Error>::Err(
                            Error::MismatchedLengths {
                                position: at.at_spec(),
                                new: with@.len() as usize,
                                old: data.len() as usize,
                            },
                        )
                    } else {
                        &&& r matches Ok(v) && v@ == data
                        &&& final(self).lookup(at.at_spec() as int) == Some(with@)
                        &&& forall|a: int|
                            a != at.at_spec() as int ==> final(self).lookup(a) == old(self).lookup(
                                a,
                            )
                    }
                },
                None => true,
            },
            old(self).deleted_at(at.at_spec() as int) ==> r == Result::<Vec<u8>, Error>::Err(
                Error::CannotReplaceDeleted { position: at.at_spec() },
            ),
    {
        let mut position = at.at();
        let ghost cs0 = self.chunks@;
        let ghost s0 = self.backing.data@;
        let ghost at_i = at.at_spec() as int;
        proof {
            if has_chunk_at(cs0, at_i) {
                let j = self.lemma_lookup_chunk(at_i);
            }
        }
        let tag = MagicTag::read(self.backing.data.as_slice(), &mut position);
        match tag {
            Err(e) => Err(e),
            Ok(MagicTag::Writing { .. }) => Err(Error::EntryCorrupt { position: at.at() }),
            Ok(MagicTag::Deleted { .. }) => Err(
                Error::CannotReplaceDeleted { position: at.at() },
            ),
            Ok(MagicTag::End) => Err(
                Error::IncorrectTag { position: at.at(), found: Tag(MagicTag::End) },
            ),
            Ok(MagicTag::Written { length }) => {
                proof {
                    if has_chunk_at(cs0, at_i) {
                        let j = chunk_idx_at(cs0, at_i);
                        assert(cs0[j].wf_in(s0));
                    }
                }
                match at.verify(length) {
                    Err(e) => Err(e),
                    Ok(()) => {
                        if length as usize != with.len() {
                            Err(
                                Error::MismatchedLengths {
                                    position: at.at(),
                                    new: with.len(),
                                    old: length as usize,
                                },
                            )
                        } else {
                            let dlen: usize = self.backing.data.len();
                            if position <= dlen && length as usize <= dlen - position {
                                let old_payload = read_range(
                                    &self.backing.data,
                                    position,
                                    length as usize,
                                );
                                write_within(&mut self.backing.data, position, with);
                                proof {
                                    if has_chunk_at(cs0, at_i) {
                                        self.replace_proof(*old(self), at_i, position as int, with@);
                                    }
                                }
                                Ok(old_payload)
                            } else {
                                proof {
                                    if has_chunk_at(cs0, at_i) {
                                        let j = chunk_idx_at(cs0, at_i);
                                        assert(cs0[j].end() <= s0.len());
                                    }
                                }
                                Err(Error::UnknownTag { position: at.at(), byte: 0 })
                            }
                        }
                    },
                }
            },
        }
    }

    /// The well-formedness and read-back consequences of an in-place payload
    /// overwrite of the live record at `at_i`.
    #[verifier::rlimit(100)]
    proof fn replace_proof(&self, pre: RawStore, at_i: int, payload_at: int, with: Seq<u8>)
        requires
            pre.wf(),
            has_chunk_at(pre.chunks@, at_i),
            pre.chunks@[chunk_idx_at(pre.chunks@, at_i)].kind is Live,
            payload_at == at_i + pre.chunks@[chunk_idx_at(pre.chunks@, at_i)].tag_len,
            with.len() == pre.chunks@[chunk_idx_at(pre.chunks@, at_i)].len,
            self.chunks@ == pre.chunks@,
            self.gaps@ == pre.gaps@,
            self.end == pre.end,
            self.header_length == pre.header_length,
            self.magic == pre.magic,
            self.backing.data@.len() == pre.backing.data@.len(),
            self.backing.data@.subrange(payload_at, payload_at + with.len() as int) == with,
            forall|j: int|
                0 <= j < pre.backing.data@.len() && !(payload_at <= j < payload_at + with.len())
                    ==> self.backing.data@[j] == pre.backing.data@[j],
        ensures
            self.wf(),
            self.lookup(at_i) == Some(with),
            forall|a: int| a != at_i ==> self.lookup(a) == pre.lookup(a),
    {
        let s0 = pre.backing.data@;
        let s5 = self.backing.data@;
        let cs = pre.chunks@;
        let cj = chunk_idx_at(cs, at_i);
        let hl = pre.header_length as nat;
        let end0 = pre.end as nat;
        assert(cs[cj].wf_in(s0));
        assert forall|k: int| 0 <= k < cs.len() implies (#[trigger] cs[k]).tag_len >= 1 by {
            assert(cs[k].wf_in(s0));
        };
        lemma_chunk_in_range(cs, hl, end0, cj);
        // every chunk still parses: the write stayed inside one payload
        assert forall|k: int| 0 <= k < cs.len() implies (#[trigger] cs[k]).wf_in(s5) by {
            assert(cs[k].wf_in(s0));
            if k < cj {
                lemma_chunk_order(cs, k, cj);
            } else if k > cj {
                lemma_chunk_order(cs, cj, k);
            }
            assert forall|j: int| cs[k].at <= j < cs[k].at + cs[k].tag_len implies s5[j] == s0[j]
                by {};
            lemma_parse_tag_frame(s0, s5, cs[k].at as int);
        };
        assert(header_wf(s5, hl, pre.magic@)) by {
            lemma_header_frame(s0, s5, hl, pre.magic@);
        };
        assert(parse_tag(s5, self.end as int) == Some((MagicTag::End, 1nat))) by {
            lemma_parse_tag_frame(s0, s5, self.end as int);
        };
        assert(self.wf());
        lemma_chunk_idx_is(cs, at_i, cj);
        assert(self.lookup(at_i) == Some(with)) by {
            assert(cs[cj].payload(s5) =~= with);
        };
        assert forall|a: int| a != at_i implies self.lookup(a) == pre.lookup(a) by {
            if has_chunk_at(cs, a) {
                let k = chunk_idx_at(cs, a);
                assert(0 <= k < cs.len() && cs[k].at == a);
                assert(k != cj);
                if k < cj {
                    lemma_chunk_order(cs, k, cj);
                } else {
                    lemma_chunk_order(cs, cj, k);
                }
                assert(cs[k].payload(s5) =~= cs[k].payload(s0));
            }
        };
    }

    /// The space accounting of the slab: the chunk layout tiles the region
    /// between the header and the end tag, every chunk is encoded at its
    /// place, the gap list enumerates exactly the deleted records, no two
    /// gaps are adjacent, and the spans sum to `end - header_length`.
    pub proof fn lemma_layout(self)
        requires
            self.wf(),
        ensures
            chunks_contiguous(
                self.chunks_spec(),
                self.header_length_spec() as nat,
                self.end_spec() as nat,
            ),
            chunks_wf(self.chunks_spec(), self.bytes()),
            no_pending(self.chunks_spec()),
            gaps_match(self.gaps_spec(), self.chunks_spec()),
            gaps_coalesced(self.chunks_spec()),
            span_sum(self.chunks_spec()) == self.end_spec() - self.header_length_spec(),
            parse_tag(self.bytes(), self.end_spec() as int) == Some((MagicTag::End, 1nat)),
    {
        lemma_span_sum(
            self.chunks@,
            self.header_length as nat,
            self.end as nat,
        );
    }

    /// How many gaps the store tracks.
    pub fn gap_count(&self) -> (r: usize)
        ensures
            r == self.gaps_spec().len(),
    {
        self.gaps.len()
    }

    /// Flush and release the store, handing the byte region back.
    pub fn close(self) -> (r: Result<Backing, Error>)
        ensures
            match r {
                Ok(b) => b@ == self.bytes(),
                Err(_) => false,
            },
    {
        let b = self.backing;
        proof {
            lemma_backing_view(&b);
        }
        Ok(b)
    }

    /// A copy of the entire underlying byte region, header and padding
    /// included.
    pub fn with_bytes(&self) -> (r: Vec<u8>)
        ensures
            r@ == self.bytes(),
    {
        read_range(&self.backing.data, 0, self.backing.data.len())
    }
}

} // verus!
