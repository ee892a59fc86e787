use vstd::prelude::*;

verus! {

/// Marks a cell that holds nothing yet.
pub const SENTINEL: u32 = 0xFFFF_FFFF;

/// Number of starting-hand types.
pub const NUM_HANDS: usize = 169;

/// Number of players of a three-way cell.
pub const NUM_PLAYERS: usize = 3;

/// Number of cells: one per triple of hand types.
pub const CACHE_SIZE: usize = 4826809;

/// Number of stored values: three per cell.
pub const SLOT_COUNT: usize = 14480427;

/// Size of the saved cache: four bytes per value.
pub const CACHE_FILE_BYTES: usize = 57921708;

/// The saved cache has the wrong size.
#[derive(Debug, Clone, Copy, PartialEq, Eq, Structural)]
pub struct CacheSizeError {
    pub expected: usize,
    pub actual: usize,
}

/// Cache of three-way values, one per player for every triple of hand
/// types, each kept as the 32-bit pattern of an `f32`. The cell of a triple
/// holds its three values at `(btn * 169^2 + sb * 169 + bb) * 3 + player`; a
/// first value equal to `SENTINEL` marks an empty cell.
pub struct ThreeWayCache {
    values: Vec<u32>,
    hits: usize,
    misses: usize,
}

/// Index of the cell of a triple of hand types.
pub open spec fn spec_index(btn: int, sb: int, bb: int) -> int {
    btn * 28561 + sb * 169 + bb
}

/// The value for `player` of the cell at `base`, if the cell is filled.
pub open spec fn spec_get(slots: Seq<u32>, base: int, player: int) -> Option<u32> {
    if slots[base] != SENTINEL {
        Some(slots[base + player])
    } else {
        None
    }
}

/// The slots after storing three values in the cell at `base`; values whose
/// first is `SENTINEL` are not stored.
pub open spec fn spec_store(slots: Seq<u32>, base: int, bits: [u32; 3]) -> Seq<u32> {
    if bits[0] == SENTINEL {
        slots
    } else {
        slots.update(base, bits[0]).update(base + 1, bits[1]).update(base + 2, bits[2])
    }
}

/// Byte `k` (little-endian) of a 32-bit value.
pub open spec fn byte_of(v: u32, k: int) -> u8 {
    if k == 0 {
        (v & 0xff) as u8
    } else if k == 1 {
        ((v >> 8u32) & 0xff) as u8
    } else if k == 2 {
        ((v >> 16u32) & 0xff) as u8
    } else {
        ((v >> 24u32) & 0xff) as u8
    }
}

/// The little-endian bytes of all values, four per value.
pub open spec fn spec_to_bytes(slots: Seq<u32>) -> Seq<u8> {
    Seq::new(4 * slots.len(), |i: int| byte_of(slots[i / 4], i % 4))
}

/// The value that four little-endian bytes write.
pub open spec fn word_of(b0: u8, b1: u8, b2: u8, b3: u8) -> u32 {
    (b0 as u32) | ((b1 as u32) << 8u32) | ((b2 as u32) << 16u32) | ((b3 as u32) << 24u32)
}

/// The values that a byte string writes, four little-endian bytes each.
pub open spec fn spec_from_bytes(bytes: Seq<u8>) -> Seq<u32> {
    Seq::new(
        bytes.len() / 4,
        |i: int| word_of(bytes[4 * i], bytes[4 * i + 1], bytes[4 * i + 2], bytes[4 * i + 3]),
    )
}

proof fn lemma_word_roundtrip(v: u32)
    ensures
        word_of(byte_of(v, 0), byte_of(v, 1), byte_of(v, 2), byte_of(v, 3)) == v,
{
    assert(((v & 0xff) as u8 as u32) | ((((v >> 8u32) & 0xff) as u8 as u32) << 8u32) | ((((v >> 16u32)
        & 0xff) as u8 as u32) << 16u32) | ((((v >> 24u32) & 0xff) as u8 as u32) << 24u32) == v)
        by (bit_vector);
}

impl ThreeWayCache {
    /// The cache holds one value for every player of every cell.
    pub closed spec fn wf(self) -> bool {
        self.values.len() == SLOT_COUNT
    }

    /// The stored values.
    pub closed spec fn slots(self) -> Seq<u32> {
        self.values@
    }

    pub closed spec fn spec_hits(self) -> usize {
        self.hits
    }

    pub closed spec fn spec_misses(self) -> usize {
        self.misses
    }

    /// An empty cache: every value is `SENTINEL`, no hits or misses.
    pub fn new() -> (c: Self)
        ensures
            c.slots() == Seq::new(SLOT_COUNT as nat, |i: int| SENTINEL),
            c.spec_hits() == 0,
            c.spec_misses() == 0,
            c.wf(),
    {
        let mut values: Vec<u32> = Vec::new();
        let mut i: usize = 0;
        while i < SLOT_COUNT
            invariant
                i <= SLOT_COUNT,
                values@ == Seq::new(i as nat, |k: int| SENTINEL),
            decreases SLOT_COUNT - i,
        {
            values.push(SENTINEL);
            i += 1;
            assert(values@ =~= Seq::new(i as nat, |k: int| SENTINEL));
        }
        ThreeWayCache { values, hits: 0, misses: 0 }
    }

    /// Looks up the value of `player` (0 = BTN, 1 = SB, 2 = BB) for a triple
    /// of hand types, counting a hit when the cell is filled and a miss when
    /// it is empty.
    pub fn get_bits(&mut self, btn_hand: u8, sb_hand: u8, bb_hand: u8, player: usize) -> (r: Option<u32>)
        requires
            old(self).wf(),
            btn_hand < 169,
            sb_hand < 169,
            bb_hand < 169,
            player < 3,
        ensures
            final(self).wf(),
            r == spec_get(old(self).slots(), 3 * spec_index(btn_hand as int, sb_hand as int, bb_hand as int), player as int),
            final(self).slots() == old(self).slots(),
            r is Some ==> final(self).spec_hits() == vstd::wrapping::usize_specs::wrapping_add(old(self).spec_hits(), 1)
                && final(self).spec_misses() == old(self).spec_misses(),
            r is None ==> final(self).spec_misses() == vstd::wrapping::usize_specs::wrapping_add(old(self).spec_misses(), 1)
                && final(self).spec_hits() == old(self).spec_hits(),
    {
        let base = index(btn_hand, sb_hand, bb_hand) * NUM_PLAYERS;
        let cached = self.values[base];
        if cached != SENTINEL {
            self.hits = self.hits.wrapping_add(1);
            Some(self.values[base + player])
        } else {
            self.misses = self.misses.wrapping_add(1);
            None
        }
    }

    /// Stores the three values of a triple; values whose first is `SENTINEL`
    /// are not stored.
    pub fn store_bits(&mut self, btn_hand: u8, sb_hand: u8, bb_hand: u8, bits: [u32; 3])
        requires
            old(self).wf(),
            btn_hand < 169,
            sb_hand < 169,
            bb_hand < 169,
        ensures
            final(self).wf(),
            final(self).slots() == spec_store(
                old(self).slots(),
                3 * spec_index(btn_hand as int, sb_hand as int, bb_hand as int),
                bits,
            ),
            final(self).spec_hits() == old(self).spec_hits(),
            final(self).spec_misses() == old(self).spec_misses(),
    {
        if bits[0] == SENTINEL {
            return;
        }
        let base = index(btn_hand, sb_hand, bb_hand) * NUM_PLAYERS;
        self.values.set(base, bits[0]);
        self.values.set(base + 1, bits[1]);
        self.values.set(base + 2, bits[2]);
    }

    pub fn hit_count(&self) -> (n: usize)
        ensures
            n == self.spec_hits(),
    {
        self.hits
    }

    pub fn miss_count(&self) -> (n: usize)
        ensures
            n == self.spec_misses(),
    {
        self.misses
    }

    /// The bytes of the saved cache: every value as four little-endian bytes.
    pub fn to_bytes(&self) -> (bytes: Vec<u8>)
        requires
            self.wf(),
        ensures
            bytes@ == spec_to_bytes(self.slots()),
    {
        let mut bytes: Vec<u8> = Vec::new();
        let mut i: usize = 0;
        while i < self.values.len()
            invariant
                i <= self.values.len() == SLOT_COUNT,
                bytes@ == spec_to_bytes(self.values@.take(i as int)),
            decreases self.values.len() - i,
        {
            let v = self.values[i];
            bytes.push((v & 0xff) as u8);
            bytes.push(((v >> 8) & 0xff) as u8);
            bytes.push(((v >> 16) & 0xff) as u8);
            bytes.push(((v >> 24) & 0xff) as u8);
            i += 1;
            proof {
                let t = self.values@.take(i as int);
                assert forall|k: int| 0 <= k < 4 * t.len() implies #[trigger] bytes@[k] == byte_of(t[k / 4], k % 4) by {
                    if k < 4 * (i - 1) {
                        assert(self.values@.take(i - 1)[k / 4] == t[k / 4]);
                    }
                }
                assert(bytes@ =~= spec_to_bytes(t));
            }
        }
        assert(self.values@.take(i as int) =~= self.values@);
        bytes
    }

    /// The cache that saved bytes hold, with no hits or misses yet; bytes of
    /// the wrong size are refused.
    pub fn from_bytes(bytes: &[u8]) -> (r: Result<Self, CacheSizeError>)
        ensures
            bytes@.len() != CACHE_FILE_BYTES ==> r == Err::<Self, CacheSizeError>(
                CacheSizeError { expected: CACHE_FILE_BYTES, actual: bytes@.len() as usize },
            ),
            bytes@.len() == CACHE_FILE_BYTES ==> r is Ok,
            r matches Ok(c) ==> c.slots() == spec_from_bytes(bytes@) && c.spec_hits() == 0
                && c.spec_misses() == 0 && c.wf(),
    {
        if bytes.len() != CACHE_FILE_BYTES {
            return Err(CacheSizeError { expected: CACHE_FILE_BYTES, actual: bytes.len() });
        }
        let mut values: Vec<u32> = Vec::new();
        let mut i: usize = 0;
        while i < SLOT_COUNT
            invariant
                i <= SLOT_COUNT,
                bytes@.len() == CACHE_FILE_BYTES,
                values@ == spec_from_bytes(bytes@).take(i as int),
            decreases SLOT_COUNT - i,
        {
            let b0 = bytes[4 * i];
            let b1 = bytes[4 * i + 1];
            let b2 = bytes[4 * i + 2];
            let b3 = bytes[4 * i + 3];
            let v = (b0 as u32) | ((b1 as u32) << 8) | ((b2 as u32) << 16) | ((b3 as u32) << 24);
            values.push(v);
            i += 1;
            assert(values@ =~= spec_from_bytes(bytes@).take(i as int));
        }
        assert(spec_from_bytes(bytes@).take(i as int) =~= spec_from_bytes(bytes@));
        Ok(ThreeWayCache { values, hits: 0, misses: 0 })
    }
}

/// Index of the cell of a triple of hand types.
impl Default for ThreeWayCache {
    fn default() -> (c: Self)
        ensures
            c.slots() == Seq::new(SLOT_COUNT as nat, |i: int| SENTINEL),
            c.spec_hits() == 0,
            c.spec_misses() == 0,
            c.wf(),
    {
        Self::new()
    }
}

pub fn index(btn: u8, sb: u8, bb: u8) -> (i: usize)
    requires
        btn < 169,
        sb < 169,
        bb < 169,
    ensures
        i == spec_index(btn as int, sb as int, bb as int),
        i < CACHE_SIZE,
{
    (btn as usize) * NUM_HANDS * NUM_HANDS + (sb as usize) * NUM_HANDS + (bb as usize)
}

/// After storing values in a cell, reading the cell gives them back, and
/// every other cell reads as before.
pub proof fn law_store_then_get(slots: Seq<u32>, base: int, other: int, bits: [u32; 3], player: int)
    requires
        bits[0] != SENTINEL,
        0 <= base,
        base + 2 < slots.len(),
        0 <= player < 3,
        0 <= other,
        other + 2 < slots.len(),
        other == base || other + 3 <= base || base + 3 <= other,
    ensures
        other == base ==> spec_get(spec_store(slots, base, bits), base, player) == Some(bits[player]),
        other != base ==> spec_get(spec_store(slots, base, bits), other, player) == spec_get(slots, other, player),
{
}

/// Saving the values and reading the bytes back gives the same values.
pub proof fn law_bytes_roundtrip(slots: Seq<u32>)
    ensures
        spec_from_bytes(spec_to_bytes(slots)) == slots,
{
    let b = spec_to_bytes(slots);
    assert forall|i: int| 0 <= i < slots.len() implies #[trigger] spec_from_bytes(b)[i] == slots[i] by {
        assert((4 * i) / 4 == i && (4 * i) % 4 == 0);
        assert((4 * i + 1) / 4 == i && (4 * i + 1) % 4 == 1);
        assert((4 * i + 2) / 4 == i && (4 * i + 2) % 4 == 2);
        assert((4 * i + 3) / 4 == i && (4 * i + 3) % 4 == 3);
        lemma_word_roundtrip(slots[i]);
    }
    assert(spec_from_bytes(b) =~= slots);
}

} // verus!
