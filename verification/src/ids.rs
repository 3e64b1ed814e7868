//! Identifiers and plain records exchanged with farmers and caches.
use vstd::prelude::*;

verus! {

/// Index of a farm within the controller (a farm's slot in plotted pieces).
pub type FarmIndex = u16;

/// Index of a sector within a farm.
pub type SectorIndex = u16;

/// Identifier of a farmer process (a ULID).
#[derive(Clone, Copy, Debug, PartialEq, Eq, Hash, Structural)]
pub struct FarmerId(pub u128);

/// Identifier of a farm (a ULID).
#[derive(Clone, Copy, Debug, PartialEq, Eq, Hash, Structural)]
pub struct FarmId(pub u128);

/// Identifier of a cache process (a ULID).
#[derive(Clone, Copy, Debug, PartialEq, Eq, Hash, Structural)]
pub struct CacheId(pub u128);

/// BLAKE3 digest, used as the fingerprint of farmers and farms.
#[derive(Clone, Copy, Debug)]
pub struct Blake3Hash(pub [u8; 32]);

impl View for Blake3Hash {
    type V = Seq<u8>;

    open spec fn view(&self) -> Seq<u8> {
        self.0@
    }
}

impl Blake3Hash {
    /// Byte-wise equality of two digests.
    pub fn same_as(&self, other: &Blake3Hash) -> (r: bool)
        ensures
            r == (self@ == other@),
    {
        let mut i: usize = 0;
        while i < 32
            invariant
                i <= 32,
                self@.len() == 32,
                other@.len() == 32,
                forall|j: int| 0 <= j < i ==> self@[j] == other@[j],
            decreases 32 - i,
        {
            if self.0[i] != other.0[i] {
                assert(self@[i as int] != other@[i as int]);
                return false;
            }
            i = i + 1;
        }
        assert(self@ =~= other@);
        true
    }
}

/// Details of one farm as a farmer reports them.
#[derive(Clone, Copy, Debug)]
pub struct ClusterFarmerFarmDetails {
    pub farm_id: FarmId,
    pub total_sectors_count: SectorIndex,
    pub fingerprint: Blake3Hash,
}

} // verus!
