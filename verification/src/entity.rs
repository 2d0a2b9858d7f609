use vstd::prelude::*;

verus! {

/// A lightweight identifier of an entity: its slot index and the generation of that slot.
#[derive(Clone, Copy, Debug, PartialEq, Eq, Structural, Hash)]
pub struct Entity {
    pub index: u32,
    pub generation: u32,
}

/// The number of distinct slot indices (2^32).
pub open spec fn index_range() -> int {
    0x1_0000_0000
}

impl Entity {
    /// An entity in slot `index`, generation 0.
    pub fn new(index: u32) -> (e: Entity)
        ensures
            e.index == index,
            e.generation == 0,
    {
        Entity { index, generation: 0 }
    }

    /// An entity identifier that never names a live entity.
    pub fn placeholder() -> (e: Entity)
        ensures
            e.index == u32::MAX,
            e.generation == 0,
    {
        Entity { index: u32::MAX, generation: 0 }
    }

    /// The slot index of this entity.
    pub fn index(&self) -> (i: u32)
        ensures
            i == self.index,
    {
        self.index
    }

    /// The generation of the slot this entity lives in.
    pub fn generation(&self) -> (g: u32)
        ensures
            g == self.generation,
    {
        self.generation
    }

    pub open spec fn spec_bits(self) -> u64 {
        (self.generation as int * index_range() + self.index as int) as u64
    }

    /// Packs the entity into one integer: the generation in the high half, the index in the low half.
    pub fn to_bits(&self) -> (b: u64)
        ensures
            b == self.spec_bits(),
            b as int == self.generation as int * index_range() + self.index as int,
    {
        assert(self.generation as int * index_range() + self.index as int <= u64::MAX) by (nonlinear_arith)
            requires
                self.generation <= u32::MAX,
                self.index <= u32::MAX,
        ;
        self.generation as u64 * 0x1_0000_0000u64 + self.index as u64
    }

    /// The entity that `to_bits` packed into `bits`.
    pub fn from_bits(bits: u64) -> (e: Entity)
        ensures
            e.index as int == bits as int % index_range(),
            e.generation as int == bits as int / index_range(),
            e.spec_bits() == bits,
    {
        let index = (bits % 0x1_0000_0000u64) as u32;
        let generation = (bits / 0x1_0000_0000u64) as u32;
        Entity { index, generation }
    }
}

/// The packed value of an entity fits in 64 bits without truncation.
pub proof fn lemma_bits_value(e: Entity)
    ensures
        e.spec_bits() as int == e.generation as int * index_range() + e.index as int,
{
    assert(e.generation as int * index_range() + e.index as int <= u64::MAX) by (nonlinear_arith)
        requires
            e.generation <= u32::MAX,
            e.index <= u32::MAX,
    ;
}

/// Two entities pack to the same bits exactly when they are the same entity.
pub proof fn lemma_bits_injective(a: Entity, b: Entity)
    ensures
        (a.spec_bits() == b.spec_bits()) <==> (a == b),
{
    lemma_bits_value(a);
    lemma_bits_value(b);
    if a.spec_bits() == b.spec_bits() {
        let ai = a.generation as int * index_range() + a.index as int;
        let bi = b.generation as int * index_range() + b.index as int;
        assert(a.generation == b.generation && a.index == b.index) by (nonlinear_arith)
            requires
                ai == a.generation as int * 0x1_0000_0000 + a.index as int,
                bi == b.generation as int * 0x1_0000_0000 + b.index as int,
                ai == bi,
                0 <= a.index < 0x1_0000_0000,
                0 <= b.index < 0x1_0000_0000,
                0 <= a.generation,
                0 <= b.generation,
        ;
    }
}

} // verus!
