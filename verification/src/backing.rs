//! The byte region underlying a slab store.
//!
//! The region lives in memory and grows in 256-byte steps. Persistence of the
//! region to a file is the embedding program's concern: it hands the bytes in
//! at open and carries them out after close.

use vstd::prelude::*;

verus! {

/// A contiguous, growable byte region.
pub struct Backing {
    pub(crate) data: Vec<u8>,
}

impl View for Backing {
    type V = Seq<u8>;

    closed spec fn view(&self) -> Seq<u8> {
        self.data@
    }
}

impl Backing {

    /// A fresh region of 256 zero bytes.
    pub fn new_anon() -> (r: Backing)
        ensures
            r@.len() == 256,
            forall|i: int| 0 <= i < 256 ==> r@[i] == 0,
    {
        let mut data: Vec<u8> = Vec::new();
        let mut i: usize = 0;
        while i < 256
            invariant
                i <= 256,
                data@.len() == i,
                forall|j: int| 0 <= j < i ==> data@[j] == 0,
            decreases 256 - i,
        {
            data.push(0);
            i = i + 1;
        }
        Backing { data }
    }

    /// A region holding exactly a copy of `b`.
    pub fn new_from_buffer(b: &[u8]) -> (r: Backing)
        ensures
            r@ == b@,
    {
        let mut data: Vec<u8> = Vec::new();
        let mut i: usize = 0;
        let blen: usize = b.len();
        while i < blen
            invariant
                i <= blen,
                blen == b@.len(),
                data@ =~= b@.subrange(0, i as int),
            decreases blen - i,
        {
            data.push(b[i]);
            i = i + 1;
            proof {
                assert(data@ =~= b@.subrange(0, i as int));
            }
        }
        proof {
            assert(b@.subrange(0, blen as int) =~= b@);
        }
        Backing { data }
    }

    /// The region's length in bytes.
    pub fn len(&self) -> (r: usize)
        ensures
            r == self@.len(),
    {
        self.data.len()
    }

    /// A copy of the whole region.
    pub fn to_vec(&self) -> (r: Vec<u8>)
        ensures
            r@ == self@,
    {
        read_range(&self.data, 0, self.data.len())
    }
}

/// Inside the crate, a backing's view is its byte vector's view.
pub(crate) proof fn lemma_backing_view(b: &Backing)
    ensures
        b@ == b.data@,
{
}

/// Grow `v` with zero bytes to the next 256-byte step past `req`, where it
/// does not already reach past `req`.
pub(crate) fn grow_for(v: &mut Vec<u8>, req: usize)
    requires
        req <= usize::MAX - 256,
    ensures
        final(v)@.len() > req,
        old(v)@.len() > req ==> final(v)@ == old(v)@,
        old(v)@.len() <= req ==> final(v)@.len() == ((req / 256) + 1) * 256,
        final(v)@.subrange(0, old(v)@.len() as int) == old(v)@,
        forall|i: int| old(v)@.len() <= i < final(v)@.len() ==> final(v)@[i] == 0,
{
    if v.len() <= req {
        let target: usize = ((req / 256) + 1) * 256;
        proof {
            assert(((req / 256) + 1) * 256 > req) by (nonlinear_arith);
        }
        while v.len() < target
            invariant
                v@.len() <= target,
                v@.len() >= old(v)@.len(),
                v@.subrange(0, old(v)@.len() as int) =~= old(v)@,
                forall|i: int| old(v)@.len() <= i < v@.len() ==> v@[i] == 0,
                target <= usize::MAX,
            decreases target - v@.len(),
        {
            v.push(0);
            proof {
                assert(v@.subrange(0, old(v)@.len() as int) =~= old(v)@);
            }
        }
        proof {
            assert(v@.subrange(0, old(v)@.len() as int) =~= old(v)@);
        }
    } else {
        proof {
            assert(v@.subrange(0, old(v)@.len() as int) =~= old(v)@);
        }
    }
}

/// Overwrite `v` at `pos` with a copy of `b`, leaving all other bytes alone.
pub(crate) fn write_within(v: &mut Vec<u8>, pos: usize, b: &[u8])
    requires
        pos + b@.len() <= old(v)@.len(),
    ensures
        final(v)@.len() == old(v)@.len(),
        final(v)@.subrange(pos as int, pos + b@.len()) == b@,
        forall|i: int|
            0 <= i < old(v)@.len() && !(pos <= i < pos + b@.len()) ==> final(v)@[i] == old(v)@[i],
{
    let mut i: usize = 0;
    let blen: usize = b.len();
    let vlen: usize = v.len();
    while i < blen
        invariant
            i <= blen,
            blen == b@.len(),
            vlen == v@.len(),
            pos + blen <= v@.len(),
            v@.len() == old(v)@.len(),
            v@.subrange(pos as int, pos + i) =~= b@.subrange(0, i as int),
            forall|k: int|
                0 <= k < old(v)@.len() && !(pos <= k < pos + i) ==> v@[k] == old(v)@[k],
        decreases blen - i,
    {
        v.set(pos + i, b[i]);
        i = i + 1;
        proof {
            assert(v@.subrange(pos as int, pos + i) =~= b@.subrange(0, i as int));
        }
    }
    proof {
        assert(b@.subrange(0, blen as int) =~= b@);
        assert(v@.subrange(pos as int, pos + blen) =~= b@);
    }
}

/// Zero the bytes of `v` in `[start, end)`.
pub(crate) fn zero_range(v: &mut Vec<u8>, start: usize, end: usize)
    requires
        start <= end,
        end <= old(v)@.len(),
    ensures
        final(v)@.len() == old(v)@.len(),
        forall|i: int| start <= i < end ==> final(v)@[i] == 0,
        forall|i: int|
            0 <= i < old(v)@.len() && !(start <= i < end) ==> final(v)@[i] == old(v)@[i],
{
    let mut i: usize = start;
    while i < end
        invariant
            start <= i <= end,
            end <= v@.len(),
            v@.len() == old(v)@.len(),
            forall|k: int| start <= k < i ==> v@[k] == 0,
            forall|k: int|
                0 <= k < old(v)@.len() && !(start <= k < i) ==> v@[k] == old(v)@[k],
        decreases end - i,
    {
        v.set(i, 0);
        i = i + 1;
    }
}

/// Copy `len` bytes of `v` starting at `start`.
pub(crate) fn read_range(v: &Vec<u8>, start: usize, len: usize) -> (r: Vec<u8>)
    requires
        start + len <= v@.len(),
    ensures
        r@ == v@.subrange(start as int, start + len),
{
    let mut out: Vec<u8> = Vec::new();
    let mut i: usize = 0;
    let vlen: usize = v.len();
    while i < len
        invariant
            i <= len,
            vlen == v@.len(),
            start + len <= v@.len(),
            out@ =~= v@.subrange(start as int, start + i),
        decreases len - i,
    {
        out.push(v[start + i]);
        i = i + 1;
        proof {
            assert(out@ =~= v@.subrange(start as int, start + i));
        }
    }
    proof {
        assert(out@ =~= v@.subrange(start as int, start + len));
    }
    out
}

} // verus!
