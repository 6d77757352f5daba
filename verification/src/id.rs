//! Opaque record identifiers: a slab offset paired with a small marker hash
//! derived from the record length, used to detect stale-id use.

use vstd::prelude::*;
use vstd::arithmetic::power2::pow2;
use crate::error::Error;

verus! {

/// Number of significant binary digits of `x`.
pub open spec fn bits(x: nat) -> nat
    decreases x,
{
    if x == 0 {
        0
    } else {
        (1 + bits(x / 2)) as nat
    }
}

/// Exclusive-or fold of the `n` low little-endian bytes of `x`.
pub open spec fn xor_fold(x: u64, n: nat) -> u8
    decreases n,
{
    if n == 0 {
        0
    } else {
        xor_fold(x / 256, (n - 1) as nat) ^ ((x % 256) as u8)
    }
}

/// The marker hash of a record length: a mix of the length's magnitude, its
/// top and bottom bits, and a byte-wise fold, packed into one byte.
pub open spec fn marker_of(length: u64) -> u8 {
    let lz = (64 - bits(length as nat)) as u64;
    let mag = lz / 2;
    let a: u8 = if mag >= 1 {
        (((bits(mag as nat) - 1) as u64 & 3) as u8)
    } else {
        0
    };
    let sh: u64 = if lz <= 61 {
        (61 - lz) as u64
    } else {
        0
    };
    let first = (length >> sh) as u8;
    let last = (length & 3) as u8;
    let r = xor_fold(length, 8);
    let reduce = (r & 3) ^ ((r >> 2) & 3) ^ ((r >> 4) & 3) ^ ((r >> 6) & 3);
    a | (first << 2) | (last << 4) | (reduce << 6)
}

proof fn lemma_bits_bound(x: nat, k: nat)
    requires
        x < pow2(k),
    ensures
        bits(x) <= k,
    decreases k,
{
    if k == 0 {
        assert(pow2(0) == 1) by {
            vstd::arithmetic::power2::lemma2_to64();
        };
    } else if x > 0 {
        assert(pow2(k) == 2 * pow2((k - 1) as nat)) by {
            vstd::arithmetic::power2::lemma_pow2_unfold(k);
        };
        assert(x / 2 < pow2((k - 1) as nat));
        lemma_bits_bound(x / 2, (k - 1) as nat);
    }
}

proof fn lemma_bits_le_64(x: u64)
    ensures
        bits(x as nat) <= 64,
{
    assert(pow2(64) == 0x1_0000_0000_0000_0000) by {
        vstd::arithmetic::power2::lemma2_to64();
    };
    lemma_bits_bound(x as nat, 64);
}

/// Number of significant binary digits, as executable code.
fn bits64(x: u64) -> (r: u64)
    ensures
        r == bits(x as nat),
        r <= 64,
{
    proof {
        lemma_bits_le_64(x);
    }
    let mut n: u64 = 0;
    let mut v: u64 = x;
    while v != 0
        invariant
            n + bits(v as nat) == bits(x as nat),
            bits(x as nat) <= 64,
        decreases v,
    {
        v = v / 2;
        n = n + 1;
    }
    n
}

/// An opaque identifier that a slab store hands out for a stored record.
#[derive(Copy, Clone, PartialEq, Eq, Structural, Hash, Debug)]
pub struct Id {
    at: usize,
    marker: u8,
}

impl Id {
    /// The slab offset this identifier points at.
    pub closed spec fn at_spec(self) -> usize {
        self.at
    }

    /// The marker hash embedded in this identifier.
    pub closed spec fn marker_spec(self) -> u8 {
        self.marker
    }

    pub fn new(at: usize, length: usize) -> (r: Id)
        ensures
            r.at_spec() == at,
            r.marker_spec() == marker_of(length as u64),
    {
        Id { at, marker: Id::marker(length) }
    }

    pub(crate) fn at(&self) -> (r: usize)
        ensures
            r == self.at_spec(),
    {
        self.at
    }

    /// Check the identifier's marker against a record length read back from
    /// the slab.
    pub fn verify(&self, length: u64) -> (r: Result<(), Error>)
        ensures
            r is Ok <==> marker_of(length) == self.marker_spec(),
            r is Err ==> r == Result::<(), Error>::Err(Error::IdCheck(*self)),
    {
        if Id::marker64(length) == self.marker {
            Ok(())
        } else {
            Err(Error::IdCheck(*self))
        }
    }

    fn marker(length: usize) -> (r: u8)
        ensures
            r == marker_of(length as u64),
    {
        Id::marker64(length as u64)
    }

    fn marker64(length: u64) -> (r: u8)
        ensures
            r == marker_of(length),
    {
        let b = bits64(length);
        let lz: u64 = 64 - b;
        let mag: u64 = lz / 2;
        let a: u8 = if mag >= 1 {
            ((bits64(mag) - 1) & 3) as u8
        } else {
            0
        };
        let sh: u64 = if lz <= 61 {
            61 - lz
        } else {
            0
        };
        let first = (length >> sh) as u8;
        let last = (length & 3) as u8;
        let mut r: u8 = 0;
        let mut x: u64 = length;
        let mut i: u64 = 0;
        proof {
            assert(0u8 ^ xor_fold(length, 8) == xor_fold(length, 8)) by (bit_vector);
        }
        while i < 8
            invariant
                i <= 8,
                r ^ xor_fold(x, (8 - i) as nat) == xor_fold(length, 8),
            decreases 8 - i,
        {
            let byte = (x % 256) as u8;
            proof {
                let rest = xor_fold(x / 256, (8 - i - 1) as nat);
                assert(xor_fold(x, (8 - i) as nat) == rest ^ byte);
                let rr = r;
                assert((rr ^ byte) ^ rest == rr ^ (rest ^ byte)) by (bit_vector);
            }
            r = r ^ byte;
            x = x / 256;
            i = i + 1;
        }
        proof {
            assert(r ^ xor_fold(x, 0) == xor_fold(length, 8));
            let rr = r;
            assert(rr ^ 0 == rr) by (bit_vector);
        }
        let reduce = (r & 3) ^ ((r >> 2) & 3) ^ ((r >> 4) & 3) ^ ((r >> 6) & 3);
        a | (first << 2) | (last << 4) | (reduce << 6)
    }

    /// Order identifiers by their file offset. Two identifiers at one offset
    /// must carry the same marker.
    pub fn file_sort(a: &Id, b: &Id) -> (r: core::cmp::Ordering)
        requires
            a.at_spec() == b.at_spec() ==> a.marker_spec() == b.marker_spec(),
        ensures
            r is Equal <==> a.at_spec() == b.at_spec(),
            r is Less <==> a.at_spec() < b.at_spec(),
            r is Greater <==> a.at_spec() > b.at_spec(),
    {
        if a.at < b.at {
            core::cmp::Ordering::Less
        } else if a.at == b.at {
            core::cmp::Ordering::Equal
        } else {
            core::cmp::Ordering::Greater
        }
    }

    /// Pack into a single non-zero 64-bit value.
    pub fn pack(self) -> (r: PackedId)
        requires
            1 <= self.at_spec() < 0x100_0000_0000_0000,
        ensures
            r.value() == self.at_spec() * 256 + self.marker_spec(),
    {
        PackedId::from_parts(self.at, self.marker)
    }

    /// Rebuild an identifier from its packed form. Offsets beyond the
    /// machine's address width cannot be represented and are clamped.
    pub fn from_packed(packed: PackedId) -> (r: Id)
        ensures
            packed.value() / 256 <= usize::MAX ==> r.at_spec() == packed.value() / 256,
            r.marker_spec() == packed.value() % 256,
    {
        let (at, marker) = packed.unpack();
        Id { at, marker }
    }
}

/// The packed, non-zero 64-bit form of an [`Id`].
#[derive(Debug, Copy, Clone, Eq, PartialEq, Ord, PartialOrd, Hash)]
pub struct PackedId(u64);

impl PackedId {
    /// The packed value; never zero.
    pub closed spec fn value(self) -> u64 {
        self.0
    }

    /// Wrap a raw value; zero is not a packed identifier.
    pub fn new(n: u64) -> (r: Option<PackedId>)
        ensures
            match r {
                Some(p) => n != 0 && p.value() == n,
                None => n == 0,
            },
    {
        if n == 0 {
            None
        } else {
            Some(PackedId(n))
        }
    }

    /// The raw packed value.
    pub fn get(self) -> (r: u64)
        ensures
            r == self.value(),
    {
        self.0
    }

    fn from_parts(at: usize, marker: u8) -> (r: PackedId)
        requires
            1 <= at < 0x100_0000_0000_0000,
        ensures
            r.value() == at * 256 + marker,
    {
        let a = at as u64;
        let m = marker as u64;
        proof {
            assert(((a << 8) | m) == a * 256 + m) by (bit_vector)
                requires
                    a < 0x100_0000_0000_0000,
                    m < 0x100,
            ;
        }
        PackedId((a << 8) | m)
    }

    fn unpack(self) -> (r: (usize, u8))
        ensures
            self.value() / 256 <= usize::MAX ==> r.0 == self.value() / 256,
            r.1 == self.value() % 256,
    {
        let s = self.0;
        let marker = (s & 0xFF) as u8;
        proof {
            assert((s & 0xFF) == s % 256) by (bit_vector);
            assert((s >> 8) == s / 256) by (bit_vector);
        }
        let hi = s >> 8;
        if hi <= usize::MAX as u64 {
            (hi as usize, marker)
        } else {
            (usize::MAX, marker)
        }
    }
}

} // verus!
