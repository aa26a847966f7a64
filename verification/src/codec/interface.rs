use vstd::prelude::*;
use crate::probability::Speed;

verus! {

/// log2 of the number of priors kept per copy-command type.
const LOG_NUM_COPY_TYPE_PRIORS: usize = 2;

/// Index of the literal block switch among the three block-switch kinds.
pub const BLOCK_TYPE_LITERAL_SWITCH: usize = 0;

/// Index of the command block switch among the three block-switch kinds.
pub const BLOCK_TYPE_COMMAND_SWITCH: usize = 1;

/// Index of the distance block switch among the three block-switch kinds.
pub const BLOCK_TYPE_DISTANCE_SWITCH: usize = 2;

/// Number of entries in the most-recently-used list of context-map values.
pub const CONTEXT_MAP_CACHE_SIZE: usize = 13;

/// Literal prediction mode: the low six bits of the previous byte.
pub const LITERAL_PREDICTION_MODE_LSB6: u8 = 0;

/// Literal prediction mode: the high six bits of the previous byte.
pub const LITERAL_PREDICTION_MODE_MSB6: u8 = 1;

/// Literal prediction mode: the UTF-8 context.
pub const LITERAL_PREDICTION_MODE_UTF8: u8 = 2;

/// Literal prediction mode: the signed context.
pub const LITERAL_PREDICTION_MODE_SIGN: u8 = 3;

/// A block of memory of which only a prefix, of length `.1`, is in use.
pub struct AllocatedMemoryPrefix(pub Vec<u8>, pub usize);

impl Default for AllocatedMemoryPrefix {
    /// An empty block with an empty prefix.
    fn default() -> (r: Self)
        ensures
            r.0@.len() == 0,
            r.1 == 0,
    {
        AllocatedMemoryPrefix(Vec::new(), 0usize)
    }
}

impl AllocatedMemoryPrefix {
    /// A block of `len` bytes, all of it in use, from a cell that the caller
    /// allocated with that length.
    pub fn new(cell: Vec<u8>, len: usize) -> (r: Self)
        requires
            cell@.len() == len,
        ensures
            r.0 == cell,
            r.1 == len,
    {
        AllocatedMemoryPrefix(cell, len)
    }

    /// Takes the block out, leaving an empty one in its place; the prefix
    /// length is left as it was.
    pub fn replace_with_empty(&mut self) -> (r: Vec<u8>)
        ensures
            r@ == old(self).0@,
            final(self).0@.len() == 0,
            final(self).1 == old(self).1,
    {
        let mut empty: Vec<u8> = Vec::new();
        core::mem::swap(&mut self.0, &mut empty);
        empty
    }

    /// The prefix in use.
    pub fn slice(&self) -> (r: &[u8])
        requires
            self.1 <= self.0@.len(),
        ensures
            r@ == self.0@.subrange(0, self.1 as int),
    {
        self.0.as_slice().split_at(self.1).0
    }

    /// The prefix in use, for writing; the rest of the block is kept.
    pub fn slice_mut(&mut self) -> (r: &mut [u8])
        requires
            old(self).1 <= old(self).0@.len(),
        ensures
            r@ == old(self).0@.subrange(0, old(self).1 as int),
            final(self).1 == old(self).1,
            final(self).0@ == final(r)@ + old(self).0@.subrange(old(self).1 as int, old(self).0@.len() as int),
    {
        self.0.as_mut_slice().split_at_mut(self.1).0
    }
}

/// Which of the two context maps an observation is about.
#[derive(Copy, Clone, Debug, PartialEq, Eq, Hash, Structural)]
pub enum ContextMapType {
    Literal,
    Distance,
}

/// A distance remembered for a copy length, with the number of bytes decoded
/// when it was recorded.
#[derive(Copy, Clone)]
pub struct DistanceCacheEntry {
    pub distance: u32,
    pub decode_byte_count: u32,
}

/// `val - sub` when that is not negative, `val + add` otherwise.
pub open spec fn sub_or_add_spec(val: u32, sub: u32, add: u32) -> int {
    if val >= sub {
        val - sub
    } else {
        val + add
    }
}

fn sub_or_add(val: u32, sub: u32, add: u32) -> (r: u32)
    requires
        val >= sub || val + add <= u32::MAX,
    ensures
        r == sub_or_add_spec(val, sub, add),
{
    if val >= sub {
        val - sub
    } else {
        val + add
    }
}

/// Rounds `val` up to the next multiple of four.
pub fn round_up_mod_4(val: u8) -> (r: u8)
    requires
        1 <= val <= 252,
    ensures
        r as int == (val as int + 3) / 4 * 4,
{
    assert((((val - 1) as u8 | 3u8) + 1) as int == (val as int + 3) / 4 * 4) by (bit_vector)
        requires
            1 <= val <= 252,
    ;
    ((val - 1) | 3) + 1
}

/// Rounds `val` up to the next multiple of four.
pub fn round_up_mod_4_u32(val: u32) -> (r: u32)
    requires
        1 <= val <= 0xffff_fffc,
    ensures
        r as int == (val as int + 3) / 4 * 4,
{
    assert((((val - 1) as u32 | 3u32) + 1) as int == (val as int + 3) / 4 * 4) by (bit_vector)
        requires
            1 <= val <= 0xffff_fffc,
    ;
    ((val - 1) | 3) + 1
}

/// The adaptation rate that literal models start with.
pub fn default_literal_speed() -> (r: Speed)
    ensures
        r == Speed::MUD,
{
    Speed::MUD
}

/// A copy command: copy `num_bytes` bytes from `distance` bytes back.
#[derive(Copy, Clone)]
pub struct CopyCommand {
    pub distance: u32,
    pub num_bytes: u32,
}

/// A switch to another block type.
#[derive(Copy, Clone)]
pub struct BlockSwitch(pub u8);

impl BlockSwitch {
    /// The block type switched to.
    pub fn block_type(&self) -> (r: u8)
        ensures
            r == self.0,
    {
        self.0
    }
}

/// A switch of the literal block type, with the stride that literal
/// prediction uses in the new block.
#[derive(Copy, Clone)]
pub struct LiteralBlockSwitch(pub BlockSwitch, pub u8);

impl LiteralBlockSwitch {
    /// A switch to `block_type` with `stride`.
    pub fn new(block_type: u8, stride: u8) -> (r: Self)
        ensures
            r.0.0 == block_type,
            r.1 == stride,
    {
        LiteralBlockSwitch(BlockSwitch(block_type), stride)
    }

    /// The literal block type switched to.
    pub fn block_type(&self) -> (r: u8)
        ensures
            r == self.0.0,
    {
        self.0.block_type()
    }

    /// The stride of the new block.
    pub fn stride(&self) -> (r: u8)
        ensures
            r == self.1,
    {
        self.1
    }
}

/// How literals are predicted from the bytes before them (one of the
/// `LITERAL_PREDICTION_MODE_*` values).
#[derive(Copy, Clone, Debug, PartialEq, Eq, Structural)]
pub struct LiteralPredictionModeNibble(pub u8);

impl Default for LiteralPredictionModeNibble {
    /// The signed mode.
    fn default() -> (r: Self)
        ensures
            r.0 == LITERAL_PREDICTION_MODE_SIGN,
    {
        LiteralPredictionModeNibble(LITERAL_PREDICTION_MODE_SIGN)
    }
}

/// The state that the codec carries from one command to the next: recent
/// literals and commands, the context maps and their most-recently-used list,
/// recent distances and block types.
pub struct CrossCommandBookKeeping {
    pub last_8_literals: u64,
    pub decode_byte_count: u32,
    pub command_count: u32,
    pub num_literals_coded: u32,
    pub literal_context_map: Vec<u8>,
    pub distance_context_map: Vec<u8>,
    pub cmap_lru: [u8; CONTEXT_MAP_CACHE_SIZE],
    pub distance_lru: [u32; 4],
    pub distance_cache: [[DistanceCacheEntry; 3]; 32],
    pub btype_lru: [[u8; 2]; 3],
    pub btype_max_seen: [u8; 3],
    pub stride: u8,
    pub last_dlen: u8,
    pub last_clen: u8,
    pub last_llen: u32,
    pub last_4_states: u8,
    pub materialized_context_map: bool,
    pub combine_literal_predictions: bool,
    pub desired_context_mixing: u8,
    pub literal_prediction_mode: LiteralPredictionModeNibble,
    pub literal_adaptation: Speed,
    pub desired_literal_adaptation: Speed,
}

impl CrossCommandBookKeeping {
    /// The state right after `new`, apart from the context maps: no literals
    /// or commands seen, every distance-cache entry at distance 1, the distance
    /// list `[4, 11, 15, 16]`, every block-type list `[0, 1]`, and the command
    /// history reading as a run of literal commands.
    pub open spec fn is_fresh(&self, dynamic_context_mixing: u8, literal_adaptation_speed: Speed) -> bool {
        &&& self.last_8_literals == 0
        &&& self.decode_byte_count == 0
        &&& self.command_count == 0
        &&& self.num_literals_coded == 0
        &&& forall|i: int| 0 <= i < 13 ==> #[trigger] self.cmap_lru[i] == 0
        &&& self.distance_lru@ == seq![4u32, 11, 15, 16]
        &&& forall|i: int, j: int|
            0 <= i < 32 && 0 <= j < 3 ==> #[trigger] self.distance_cache[i][j] == (DistanceCacheEntry {
                distance: 1,
                decode_byte_count: 0,
            })
        &&& forall|i: int| 0 <= i < 3 ==> #[trigger] self.btype_lru[i]@ == seq![0u8, 1]
        &&& forall|i: int| 0 <= i < 3 ==> #[trigger] self.btype_max_seen[i] == 0
        &&& self.stride == 0
        &&& self.last_dlen == 1
        &&& self.last_clen == 1
        &&& self.last_llen == 1
        &&& self.last_4_states == 192
        &&& !self.materialized_context_map
        &&& !self.combine_literal_predictions
        &&& self.desired_context_mixing == dynamic_context_mixing
        &&& self.literal_prediction_mode.0 == LITERAL_PREDICTION_MODE_SIGN
        &&& self.literal_adaptation == Speed::MUD
        &&& self.desired_literal_adaptation == literal_adaptation_speed
    }

    /// Fresh bookkeeping over the given context maps (see `is_fresh`).
    pub fn new(
        literal_context_map: Vec<u8>,
        distance_context_map: Vec<u8>,
        dynamic_context_mixing: u8,
        literal_adaptation_speed: Speed,
    ) -> (r: Self)
        requires
            dynamic_context_mixing < 15,
        ensures
            r.is_fresh(dynamic_context_mixing, literal_adaptation_speed),
            r.literal_context_map == literal_context_map,
            r.distance_context_map == distance_context_map,
    {
        let entry = DistanceCacheEntry { distance: 1, decode_byte_count: 0 };
        let row: [DistanceCacheEntry; 3] = [entry; 3];
        let btype_pair: [u8; 2] = [0, 1];
        assert((3u8 << 6usize) == 192u8) by (bit_vector);
        CrossCommandBookKeeping {
            desired_literal_adaptation: literal_adaptation_speed,
            desired_context_mixing: dynamic_context_mixing,
            literal_adaptation: default_literal_speed(),
            decode_byte_count: 0,
            command_count: 0,
            num_literals_coded: 0,
            distance_cache: [row; 32],
            stride: 0,
            last_dlen: 1,
            last_llen: 1,
            last_clen: 1,
            materialized_context_map: false,
            combine_literal_predictions: false,
            last_4_states: 3 << (8 - LOG_NUM_COPY_TYPE_PRIORS),
            last_8_literals: 0,
            literal_prediction_mode: LiteralPredictionModeNibble::default(),
            cmap_lru: [0u8; 13],
            literal_context_map: literal_context_map,
            distance_context_map: distance_context_map,
            distance_lru: [4, 11, 15, 16],
            btype_lru: [btype_pair; 3],
            btype_max_seen: [0; 3],
        }
    }
}

impl CrossCommandBookKeeping {
    /// Whether a context map has been observed.
    pub fn materialized_prediction_mode(&self) -> (r: bool)
        ensures
            r == self.materialized_context_map,
    {
        self.materialized_context_map
    }

    /// Sets the adaptation rate of literal models.
    pub fn obs_literal_adaptation_rate(&mut self, ladaptation_rate: Speed)
        ensures
            *final(self) == (CrossCommandBookKeeping { literal_adaptation: ladaptation_rate, ..*old(self) }),
    {
        self.literal_adaptation = ladaptation_rate;
    }

    /// The context-map entry that selects the distance prior for a copy of
    /// `copy_len` bytes in the current distance block type: index
    /// `4 * block_type + min(copy_len - 1, 3)` of the distance context map.
    pub fn get_distance_prior(&mut self, copy_len: u32) -> (r: usize)
        requires
            copy_len >= 1,
            old(self).btype_lru[2][0] as int * 4 + (if copy_len - 1 < 3 { copy_len - 1 } else { 3int })
                < old(self).distance_context_map@.len(),
        ensures
            *final(self) == *old(self),
            r == old(self).distance_context_map@[old(self).btype_lru[2][0] as int * 4 + (if copy_len - 1 < 3 {
                copy_len - 1
            } else {
                3int
            })],
    {
        let dtype = self.get_distance_block_type();
        let len_minus_one = copy_len as usize - 1;
        let distance_map_index = dtype * 4 + if len_minus_one < 3 { len_minus_one } else { 3 };
        self.distance_context_map[distance_map_index] as usize
    }

    /// Restores the most-recently-used list of context-map values to `0..13`.
    pub fn reset_context_map_lru(&mut self)
        ensures
            forall|i: int| 0 <= i < 13 ==> #[trigger] final(self).cmap_lru[i] == i,
            *final(self) == (CrossCommandBookKeeping { cmap_lru: final(self).cmap_lru, ..*old(self) }),
    {
        self.cmap_lru = [0, 1, 2, 3, 4, 5, 6, 7, 8, 9, 10, 11, 12];
    }

    /// The current command block type.
    pub fn get_command_block_type(&self) -> (r: usize)
        ensures
            r == self.btype_lru[1][0],
    {
        self.btype_lru[BLOCK_TYPE_COMMAND_SWITCH][0] as usize
    }

    /// The current distance block type.
    pub fn get_distance_block_type(&self) -> (r: usize)
        ensures
            r == self.btype_lru[2][0],
    {
        self.btype_lru[BLOCK_TYPE_DISTANCE_SWITCH][0] as usize
    }

    /// The current literal block type.
    pub fn get_literal_block_type(&self) -> (r: usize)
        ensures
            r == self.btype_lru[0][0],
    {
        self.btype_lru[BLOCK_TYPE_LITERAL_SWITCH][0] as usize
    }

    /// Shifts a nibble into the top of the recent-literal history.
    pub fn push_literal_nibble(&mut self, nibble: u8)
        ensures
            final(self).last_8_literals == (old(self).last_8_literals >> 4u64) | ((nibble as u64) << 60u64),
            *final(self) == (CrossCommandBookKeeping {
                last_8_literals: final(self).last_8_literals,
                ..*old(self)
            }),
    {
        self.last_8_literals >>= 0x4;
        self.last_8_literals |= (nibble as u64) << 0x3c;
    }

    /// Shifts a byte into the top of the recent-literal history and counts it.
    pub fn push_literal_byte(&mut self, b: u8)
        requires
            old(self).num_literals_coded < u32::MAX,
        ensures
            final(self).num_literals_coded == old(self).num_literals_coded + 1,
            final(self).last_8_literals == (old(self).last_8_literals >> 8u64) | ((b as u64) << 56u64),
            *final(self) == (CrossCommandBookKeeping {
                last_8_literals: final(self).last_8_literals,
                num_literals_coded: final(self).num_literals_coded,
                ..*old(self)
            }),
    {
        self.num_literals_coded += 1;
        self.last_8_literals >>= 0x8;
        self.last_8_literals |= (b as u64) << 0x38;
    }

    /// The coordinates of the prior that codes the next command's type: the
    /// kind of the most recent command (the top two bits of the command
    /// history) and the top two bits of the recent-literal history.
    pub fn get_command_type_prob(&self) -> (r: (usize, usize))
        ensures
            r.0 == self.last_4_states / 64,
            r.1 == self.last_8_literals / 0x4000_0000_0000_0000,
    {
        let l = self.last_8_literals;
        assert(((l >> 0x3eu64) as usize & 0xf) == l / 0x4000_0000_0000_0000) by (bit_vector);
        let s = self.last_4_states;
        assert(((s as usize) >> 6usize) == s / 64) by (bit_vector);
        (
            (self.last_4_states as usize) >> (8 - LOG_NUM_COPY_TYPE_PRIORS),
            ((self.last_8_literals >> 0x3e) as usize & 0xf),
        )
    }

    /// Ages the command history by one command.
    fn next_state(&mut self)
        ensures
            *final(self) == (CrossCommandBookKeeping {
                last_4_states: old(self).last_4_states >> 2u8,
                ..*old(self)
            }),
    {
        self.last_4_states >>= 2;
    }

    /// Records a prediction-mode command.
    pub fn obs_pred_mode(&mut self, new_mode: LiteralPredictionModeNibble)
        ensures
            *final(self) == (CrossCommandBookKeeping {
                last_4_states: old(self).last_4_states >> 2u8,
                literal_prediction_mode: new_mode,
                ..*old(self)
            }),
    {
        self.next_state();
        self.literal_prediction_mode = new_mode;
    }

    /// Records a dictionary command: the newest entry of the command history
    /// becomes 3.
    pub fn obs_dict_state(&mut self)
        ensures
            *final(self) == (CrossCommandBookKeeping {
                last_4_states: (old(self).last_4_states >> 2u8) | 192u8,
                ..*old(self)
            }),
    {
        self.next_state();
        self.last_4_states |= 192;
    }

    /// Records a copy command: the newest entry of the command history
    /// becomes 1.
    pub fn obs_copy_state(&mut self)
        ensures
            *final(self) == (CrossCommandBookKeeping {
                last_4_states: (old(self).last_4_states >> 2u8) | 64u8,
                ..*old(self)
            }),
    {
        self.next_state();
        self.last_4_states |= 64;
    }

    /// Records a literal command: the newest entry of the command history
    /// becomes 2.
    pub fn obs_literal_state(&mut self)
        ensures
            *final(self) == (CrossCommandBookKeeping {
                last_4_states: (old(self).last_4_states >> 2u8) | 128u8,
                ..*old(self)
            }),
    {
        self.next_state();
        self.last_4_states |= 128;
    }
}

/// The move-to-front update of a most-recently-used list: `val` goes to the
/// front; if it was in the list its first occurrence is taken out, otherwise
/// the last entry drops off.
pub open spec fn move_to_front(lru: Seq<u8>, val: u8) -> Seq<u8> {
    if exists|p: int| 0 <= p < lru.len() && lru[p] == val {
        seq![val] + lru.remove(first_index_of(lru, val))
    } else {
        seq![val] + lru.take(lru.len() - 1)
    }
}

/// The position of the first occurrence of `val` in `s`, where there is one.
pub open spec fn first_index_of(s: Seq<u8>, val: u8) -> int {
    choose|p: int| 0 <= p < s.len() && s[p] == val && forall|k: int| 0 <= k < p ==> s[k] != val
}

proof fn lemma_first_index_of(s: Seq<u8>, val: u8, p: int)
    requires
        0 <= p < s.len(),
        s[p] == val,
        forall|k: int| 0 <= k < p ==> s[k] != val,
    ensures
        first_index_of(s, val) == p,
{
    let q = first_index_of(s, val);
    assert(0 <= q < s.len() && s[q] == val && forall|k: int| 0 <= k < q ==> s[k] != val);
    if q < p {
        assert(s[q] != val);
    }
    if p < q {
        assert(s[p] != val);
    }
}

proof fn lemma_first_occurrence(s: Seq<u8>, val: u8, w: int) -> (q: int)
    requires
        0 <= w < s.len(),
        s[w] == val,
    ensures
        0 <= q <= w,
        s[q] == val,
        forall|k: int| 0 <= k < q ==> s[k] != val,
    decreases w,
{
    if exists|k: int| 0 <= k < w && s[k] == val {
        let k = choose|k: int| 0 <= k < w && s[k] == val;
        lemma_first_occurrence(s, val, k)
    } else {
        w
    }
}

/// Moving to the front keeps the length of a nonempty list, puts `val` first,
/// and keeps a list without repeats without repeats.
pub proof fn lemma_move_to_front(lru: Seq<u8>, val: u8)
    requires
        lru.len() > 0,
    ensures
        move_to_front(lru, val).len() == lru.len(),
        move_to_front(lru, val)[0] == val,
        lru.no_duplicates() ==> move_to_front(lru, val).no_duplicates(),
{
    let r = move_to_front(lru, val);
    if exists|p: int| 0 <= p < lru.len() && lru[p] == val {
        let w = choose|p: int| 0 <= p < lru.len() && lru[p] == val;
        let q = lemma_first_occurrence(lru, val, w);
        lemma_first_index_of(lru, val, q);
        let rest = lru.remove(q);
        assert(r == seq![val] + rest);
        if lru.no_duplicates() {
            assert forall|i: int, j: int| 0 <= i < r.len() && 0 <= j < r.len() && i != j implies r[i] != r[j] by {
                if i > 0 && j > 0 {
                    let a = if i - 1 < q { i - 1 } else { i };
                    let b = if j - 1 < q { j - 1 } else { j };
                    assert(r[i] == lru[a] && r[j] == lru[b]);
                } else if i == 0 {
                    let b = if j - 1 < q { j - 1 } else { j };
                    assert(r[j] == lru[b]);
                    assert(b != q);
                } else {
                    let a = if i - 1 < q { i - 1 } else { i };
                    assert(r[i] == lru[a]);
                    assert(a != q);
                }
            }
        }
    } else {
        if lru.no_duplicates() {
            assert forall|i: int, j: int| 0 <= i < r.len() && 0 <= j < r.len() && i != j implies r[i] != r[j] by {
                if i > 0 && j > 0 {
                    assert(r[i] == lru[i - 1] && r[j] == lru[j - 1]);
                } else if i == 0 {
                    assert(r[j] == lru[j - 1]);
                } else {
                    assert(r[i] == lru[i - 1]);
                }
            }
        }
    }
}

impl CrossCommandBookKeeping {
    /// Records that entry `index` of a context map is `val`.
    /// The map is marked materialized in any case. If `index` lies outside
    /// the chosen map, nothing else changes and `false` is returned;
    /// otherwise the entry is written, `val` is moved to the front of the
    /// most-recently-used list, and `true` is returned.
    pub fn obs_context_map(&mut self, context_map_type: ContextMapType, index: u32, val: u8) -> (ok: bool)
        ensures
            ok == (index < (match context_map_type {
                ContextMapType::Literal => old(self).literal_context_map@.len(),
                ContextMapType::Distance => old(self).distance_context_map@.len(),
            })),
            !ok ==> *final(self) == (CrossCommandBookKeeping {
                materialized_context_map: true,
                ..*old(self)
            }),
            ok ==> final(self).literal_context_map@ == (match context_map_type {
                ContextMapType::Literal => old(self).literal_context_map@.update(index as int, val),
                ContextMapType::Distance => old(self).literal_context_map@,
            }),
            ok ==> final(self).distance_context_map@ == (match context_map_type {
                ContextMapType::Literal => old(self).distance_context_map@,
                ContextMapType::Distance => old(self).distance_context_map@.update(index as int, val),
            }),
            ok ==> final(self).cmap_lru@ == move_to_front(old(self).cmap_lru@, val),
            ok ==> *final(self) == (CrossCommandBookKeeping {
                materialized_context_map: true,
                literal_context_map: final(self).literal_context_map,
                distance_context_map: final(self).distance_context_map,
                cmap_lru: final(self).cmap_lru,
                ..*old(self)
            }),
    {
        self.materialized_context_map = true;
        match context_map_type {
            ContextMapType::Literal => {
                if index as usize >= self.literal_context_map.len() {
                    return false;
                }
                self.literal_context_map.set(index as usize, val);
            },
            ContextMapType::Distance => {
                if index as usize >= self.distance_context_map.len() {
                    return false;
                }
                self.distance_context_map.set(index as usize, val);
            },
        }
        let tmp = self.cmap_lru;
        let mut lru = self.cmap_lru;
        let mut found: usize = 0;
        while found < CONTEXT_MAP_CACHE_SIZE
            invariant
                found <= 13,
                tmp == lru,
                forall|k: int| 0 <= k < found ==> tmp[k] != val,
            ensures
                found <= 13,
                forall|k: int| 0 <= k < found ==> tmp[k] != val,
                found < 13 ==> tmp[found as int] == val,
            decreases 13 - found,
        {
            if tmp[found] == val {
                break;
            }
            found += 1;
        }
        if found < CONTEXT_MAP_CACHE_SIZE {
            proof {
                lemma_first_index_of(tmp@, val, found as int);
            }
            if found != 0 {
                for k in 1..found + 1
                    invariant
                        found < 13,
                        forall|j: int| 0 <= j < 13 ==> #[trigger] lru[j] == (if 1 <= j < k {
                            tmp[j - 1]
                        } else {
                            tmp[j]
                        }),
                {
                    lru[k] = tmp[k - 1];
                }
                for k in found + 1..13
                    invariant
                        found < 13,
                        forall|j: int| 0 <= j < 13 ==> #[trigger] lru[j] == (if 1 <= j <= found {
                            tmp[j - 1]
                        } else {
                            tmp[j]
                        }),
                {
                    lru[k] = tmp[k];
                }
            }
        } else {
            for k in 1..13
                invariant
                    forall|j: int| 0 <= j < 13 ==> #[trigger] lru[j] == (if 1 <= j < k {
                        tmp[j - 1]
                    } else {
                        tmp[j]
                    }),
            {
                lru[k] = tmp[k - 1];
            }
        }
        lru[0] = val;
        self.cmap_lru = lru;
        proof {
            if found < 13 {
                assert(0 <= found < tmp@.len() && tmp@[found as int] == val);
                assert(move_to_front(tmp@, val) == seq![val] + tmp@.remove(found as int));
            } else {
                assert(!exists|p: int| 0 <= p < tmp@.len() && tmp@[p] == val);
                assert(move_to_front(tmp@, val) == seq![val] + tmp@.take(12));
            }
            assert(self.cmap_lru@ =~= move_to_front(tmp@, val));
        }
        true
    }
}

/// Slot of the distance cache consulted for copy length `len`: the length
/// itself, capped at the last of the 32 slots.
pub open spec fn cache_slot(len: int) -> int {
    if len < 31 {
        len
    } else {
        31
    }
}

/// Which copy length a code of the second mnemonic scheme looks up, relative
/// to the current one: codes 1-3 the same length, 4-9 one more, 10-14 two more.
pub open spec fn mnemonic_two_len_offset(code: int) -> int {
    if code <= 3 {
        0
    } else if code <= 9 {
        1
    } else {
        2
    }
}

/// Which of the three cached distances a code of the second scheme reads.
pub open spec fn mnemonic_two_cache_index(code: int) -> int {
    if code <= 3 {
        code - 1
    } else if code <= 6 {
        code - 4
    } else if code <= 9 {
        code - 7
    } else if code <= 12 {
        code - 10
    } else {
        code - 13
    }
}

/// What a code of the second scheme subtracts from the cached distance:
/// 1 for codes 7-9 and 13-14, 0 otherwise.
pub open spec fn mnemonic_two_minus(code: int) -> int {
    if (7 <= code <= 9) || (13 <= code <= 14) {
        1
    } else {
        0
    }
}

/// The cache slot that a new distance replaces: the entry recorded at the
/// smallest decode count, the earlier one on ties with the first, and slot 2
/// only when strictly smaller.
pub open spec fn oldest_cache_index(row: [DistanceCacheEntry; 3]) -> int {
    let s = if row[1].decode_byte_count < row[0].decode_byte_count {
        1int
    } else {
        0int
    };
    if row[2].decode_byte_count < row[s].decode_byte_count {
        2
    } else {
        s
    }
}

/// The list of the four most recent distances after `d` is used: `d` moves
/// to the front, and the entry it came from (or the last, if it was not among
/// the first three) drops out.
pub open spec fn distance_lru_after(lru: Seq<u32>, d: u32) -> Seq<u32> {
    if d == lru[1] {
        seq![d, lru[0], lru[2], lru[3]]
    } else if d == lru[2] {
        seq![d, lru[0], lru[1], lru[3]]
    } else if d != lru[0] {
        seq![d, lru[0], lru[1], lru[2]]
    } else {
        lru
    }
}

/// Using a distance puts it first in the list of recent distances and keeps a
/// list without repeats without repeats.
pub proof fn lemma_distance_lru_after(lru: Seq<u32>, d: u32)
    requires
        lru.len() == 4,
    ensures
        distance_lru_after(lru, d).len() == 4,
        distance_lru_after(lru, d)[0] == d,
        lru.no_duplicates() ==> distance_lru_after(lru, d).no_duplicates(),
{
    let r = distance_lru_after(lru, d);
    if lru.no_duplicates() {
        assert(lru[0] != lru[1] && lru[0] != lru[2] && lru[0] != lru[3] && lru[1] != lru[2] && lru[1] != lru[3]
            && lru[2] != lru[3]);
        assert(forall|i: int, j: int| 0 <= i < 4 && 0 <= j < 4 && i != j ==> r[i] != r[j]);
    }
}

impl CrossCommandBookKeeping {
    /// The distance-cache entry read for copy length `len` and slot `index`.
    pub open spec fn cache_entry(&self, len: int, index: int) -> DistanceCacheEntry {
        self.distance_cache[cache_slot(len)][index]
    }

    /// A cached distance, advanced by the bytes decoded since it was recorded.
    pub open spec fn cached_distance(&self, len: int, index: int) -> int {
        self.cache_entry(len, index).distance + (self.decode_byte_count - self.cache_entry(
            len,
            index,
        ).decode_byte_count)
    }

    /// `read_distance_cache` computes without overflow: a slot below 3,
    /// an entry recorded no later than now, and a sum within `u32`.
    pub open spec fn cached_distance_defined(&self, len: int, index: int) -> bool {
        &&& 0 <= len
        &&& 0 <= index < 3
        &&& self.cache_entry(len, index).decode_byte_count <= self.decode_byte_count
        &&& self.cached_distance(len, index) <= u32::MAX
    }

    /// The cached distance for copy length `len` and slot `index`, advanced by
    /// the bytes decoded since it was recorded.
    pub fn read_distance_cache(&self, len: u32, index: u32) -> (r: u32)
        requires
            self.cached_distance_defined(len as int, index as int),
        ensures
            r == self.cached_distance(len as int, index as int),
    {
        let last_slot: usize = 31;
        let len_index = if (len as usize) < last_slot {
            len as usize
        } else {
            last_slot
        };
        let entry = self.distance_cache[len_index][index as usize];
        entry.distance + (self.decode_byte_count - entry.decode_byte_count)
    }

    /// The distance that code `code` of the second mnemonic scheme stands for
    /// at copy length `len`: code 0 is the third most recent distance less 1
    /// (or plus 3 when it is 0); the others read the distance cache.
    pub open spec fn mnemonic_two_value(&self, code: int, len: int) -> int {
        if code == 0 {
            sub_or_add_spec(self.distance_lru[2], 1, 3)
        } else {
            self.cached_distance(len + mnemonic_two_len_offset(code), mnemonic_two_cache_index(code))
                - mnemonic_two_minus(code)
        }
    }

    /// Code `code` of the second scheme decodes without overflow.
    pub open spec fn mnemonic_two_defined(&self, code: int, len: int) -> bool {
        &&& 0 <= code <= 14
        &&& code != 0 ==> {
            &&& len + mnemonic_two_len_offset(code) <= u32::MAX
            &&& self.cached_distance_defined(len + mnemonic_two_len_offset(code), mnemonic_two_cache_index(code))
            &&& self.mnemonic_two_value(code, len) >= 0
        }
    }

    /// The first code from `from` on, below 15, that the second scheme decodes
    /// to `d` at copy length `len`; 15 when there is none.
    pub open spec fn mnemonic_two_search(&self, d: u32, len: u32, from: int) -> int
        decreases 15 - from,
    {
        if from >= 15 {
            15
        } else if self.mnemonic_two_value(from, len as int) == d {
            from
        } else {
            self.mnemonic_two_search(d, len, from + 1)
        }
    }

    /// The search for `d` decodes every code it tries before it stops.
    pub open spec fn mnemonic_two_search_defined(&self, d: u32, len: u32) -> bool {
        forall|k: int|
            0 <= k < 15 && (forall|j: int| 0 <= j < k ==> self.mnemonic_two_value(j, len as int) != d)
                ==> #[trigger] self.mnemonic_two_defined(k, len as int)
    }

    /// The distance that code `code` of the second mnemonic scheme stands for.
    pub fn get_distance_from_mnemonic_code_two(&self, code: u8, len: u32) -> (r: u32)
        requires
            self.mnemonic_two_defined(code as int, len as int),
        ensures
            r == self.mnemonic_two_value(code as int, len as int),
    {
        match code {
            0 => sub_or_add(self.distance_lru[2], 1, 3),
            1 => self.read_distance_cache(len, 0),
            2 => self.read_distance_cache(len, 1),
            3 => self.read_distance_cache(len, 2),
            4 => self.read_distance_cache(len + 1, 0),
            5 => self.read_distance_cache(len + 1, 1),
            6 => self.read_distance_cache(len + 1, 2),
            7 => self.read_distance_cache(len + 1, 0) - 1,
            8 => self.read_distance_cache(len + 1, 1) - 1,
            9 => self.read_distance_cache(len + 1, 2) - 1,
            10 => self.read_distance_cache(len + 2, 0),
            11 => self.read_distance_cache(len + 2, 1),
            12 => self.read_distance_cache(len + 2, 2),
            13 => self.read_distance_cache(len + 2, 0) - 1,
            14 => self.read_distance_cache(len + 2, 1) - 1,
            _ => {
                proof {
                    assert(false);
                }
                0
            },
        }
    }

    /// The first code of the second mnemonic scheme that stands for `d` at
    /// copy length `len`, or 15 when none of the fifteen does.
    pub fn distance_mnemonic_code_two(&self, d: u32, len: u32) -> (r: u8)
        requires
            self.mnemonic_two_search_defined(d, len),
        ensures
            r == self.mnemonic_two_search(d, len, 0),
            r <= 15,
            r < 15 ==> self.mnemonic_two_value(r as int, len as int) == d,
            forall|j: int| 0 <= j < r ==> self.mnemonic_two_value(j, len as int) != d,
    {
        for i in 0..15
            invariant
                self.mnemonic_two_search_defined(d, len),
                self.mnemonic_two_search(d, len, 0) == self.mnemonic_two_search(d, len, i as int),
                forall|j: int| 0 <= j < i ==> self.mnemonic_two_value(j, len as int) != d,
        {
            assert(self.mnemonic_two_defined(i as int, len as int));
            if self.get_distance_from_mnemonic_code_two(i as u8, len) == d {
                return i as u8;
            }
        }
        15
    }

    /// The distance that code `code` of the first mnemonic scheme stands for:
    /// codes 0-3 are the four most recent distances; the others are the most
    /// recent or the second most recent distance moved up or down by 1 to 3
    /// (a move down that would pass zero moves up instead).
    pub open spec fn mnemonic_value(&self, code: int) -> int {
        let l = self.distance_lru;
        if code <= 3 {
            l[code] as int
        } else if code == 4 {
            l[0] + 1
        } else if code == 5 {
            sub_or_add_spec(l[0], 1, 4)
        } else if code == 6 {
            l[1] + 1
        } else if code == 7 {
            sub_or_add_spec(l[1], 1, 3)
        } else if code == 8 {
            l[0] + 2
        } else if code == 9 {
            sub_or_add_spec(l[0], 2, 5)
        } else if code == 10 {
            l[1] + 2
        } else if code == 11 {
            sub_or_add_spec(l[1], 2, 4)
        } else if code == 12 {
            l[0] + 3
        } else if code == 13 {
            sub_or_add_spec(l[0], 3, 6)
        } else {
            l[1] + 3
        }
    }

    /// Code `code` of the first scheme decodes without overflow.
    pub open spec fn mnemonic_defined(&self, code: int) -> bool {
        0 <= code <= 14 && self.mnemonic_value(code) <= u32::MAX
    }

    /// The first code from `from` on, below 15, that the first scheme decodes
    /// to `d`; 15 when there is none.
    pub open spec fn mnemonic_search(&self, d: u32, from: int) -> int
        decreases 15 - from,
    {
        if from >= 15 {
            15
        } else if self.mnemonic_value(from) == d {
            from
        } else {
            self.mnemonic_search(d, from + 1)
        }
    }

    /// The search for `d` decodes every code it tries before it stops.
    pub open spec fn mnemonic_search_defined(&self, d: u32) -> bool {
        forall|k: int|
            0 <= k < 15 && (forall|j: int| 0 <= j < k ==> self.mnemonic_value(j) != d)
                ==> #[trigger] self.mnemonic_defined(k)
    }

    /// The distance that code `code` of the first mnemonic scheme stands for.
    pub fn get_distance_from_mnemonic_code(&self, code: u8) -> (r: u32)
        requires
            self.mnemonic_defined(code as int),
        ensures
            r == self.mnemonic_value(code as int),
    {
        match code {
            0 => self.distance_lru[0],
            1 => self.distance_lru[1],
            2 => self.distance_lru[2],
            3 => self.distance_lru[3],
            4 => self.distance_lru[0] + 1,
            5 => sub_or_add(self.distance_lru[0], 1, 4),
            6 => self.distance_lru[1] + 1,
            7 => sub_or_add(self.distance_lru[1], 1, 3),
            8 => self.distance_lru[0] + 2,
            9 => sub_or_add(self.distance_lru[0], 2, 5),
            10 => self.distance_lru[1] + 2,
            11 => sub_or_add(self.distance_lru[1], 2, 4),
            12 => self.distance_lru[0] + 3,
            13 => sub_or_add(self.distance_lru[0], 3, 6),
            14 => self.distance_lru[1] + 3,
            _ => {
                proof {
                    assert(false);
                }
                0
            },
        }
    }

    /// The first code of the first mnemonic scheme that stands for `d`, or 15
    /// when none of the fifteen does.
    pub fn distance_mnemonic_code(&self, d: u32) -> (r: u8)
        requires
            self.mnemonic_search_defined(d),
        ensures
            r == self.mnemonic_search(d, 0),
            r <= 15,
            r < 15 ==> self.mnemonic_value(r as int) == d,
            forall|j: int| 0 <= j < r ==> self.mnemonic_value(j) != d,
    {
        for i in 0..15
            invariant
                self.mnemonic_search_defined(d),
                self.mnemonic_search(d, 0) == self.mnemonic_search(d, i as int),
                forall|j: int| 0 <= j < i ==> self.mnemonic_value(j) != d,
        {
            assert(self.mnemonic_defined(i as int));
            if self.get_distance_from_mnemonic_code(i as u8) == d {
                return i as u8;
            }
        }
        15
    }
}

impl CrossCommandBookKeeping {
    /// Records a copy command. For a copy shorter than 32 bytes, the oldest
    /// of the three cache entries for its length is replaced by one with
    /// distance 0 recorded at the current decode count; then the distance is
    /// moved to the front of the list of recent distances.
    pub fn obs_distance(&mut self, cc: &CopyCommand)
        ensures
            forall|k: int, j: int|
                0 <= k < 32 && 0 <= j < 3 ==> #[trigger] final(self).distance_cache[k][j] == (if cc.num_bytes
                    < 32 && k == cc.num_bytes && j == oldest_cache_index(old(self).distance_cache[k]) {
                    DistanceCacheEntry { distance: 0, decode_byte_count: old(self).decode_byte_count }
                } else {
                    old(self).distance_cache[k][j]
                }),
            final(self).distance_lru@ == distance_lru_after(old(self).distance_lru@, cc.distance),
            *final(self) == (CrossCommandBookKeeping {
                distance_cache: final(self).distance_cache,
                distance_lru: final(self).distance_lru,
                ..*old(self)
            }),
    {
        let cache_len: u32 = 32;
        if cc.num_bytes < cache_len {
            let nb = cc.num_bytes as usize;
            let mut sub_index: usize = if self.distance_cache[nb][1].decode_byte_count
                < self.distance_cache[nb][0].decode_byte_count {
                1
            } else {
                0
            };
            if self.distance_cache[nb][2].decode_byte_count < self.distance_cache[nb][sub_index].decode_byte_count {
                sub_index = 2;
            }
            let mut row = self.distance_cache[nb];
            row[sub_index] = DistanceCacheEntry {
                distance: 0,
                decode_byte_count: self.decode_byte_count,
            };
            self.distance_cache[nb] = row;
        }
        let distance = cc.distance;
        if distance == self.distance_lru[1] {
            self.distance_lru = [distance, self.distance_lru[0], self.distance_lru[2], self.distance_lru[3]];
        } else if distance == self.distance_lru[2] {
            self.distance_lru = [distance, self.distance_lru[0], self.distance_lru[1], self.distance_lru[3]];
        } else if distance != self.distance_lru[0] {
            self.distance_lru = [distance, self.distance_lru[0], self.distance_lru[1], self.distance_lru[2]];
        }
        proof {
            assert(self.distance_lru@ =~= distance_lru_after(old(self).distance_lru@, cc.distance));
        }
    }

    /// Records a switch of block kind `btype_type` (0 literal, 1 command,
    /// 2 distance) to `btype`: ages the command history, pushes `btype` onto
    /// that kind's two-entry block-type list, and raises that kind's largest
    /// block type seen.
    fn _obs_btype_helper(&mut self, btype_type: usize, btype: u8)
        requires
            btype_type < 3,
        ensures
            forall|i: int|
                0 <= i < 3 ==> #[trigger] final(self).btype_lru[i]@ == (if i == btype_type {
                    seq![btype, old(self).btype_lru[i][0]]
                } else {
                    old(self).btype_lru[i]@
                }),
            forall|i: int|
                0 <= i < 3 ==> #[trigger] final(self).btype_max_seen[i] == (if i == btype_type {
                    if old(self).btype_max_seen[i] < btype {
                        btype
                    } else {
                        old(self).btype_max_seen[i]
                    }
                } else {
                    old(self).btype_max_seen[i]
                }),
            *final(self) == (CrossCommandBookKeeping {
                last_4_states: old(self).last_4_states >> 2u8,
                btype_lru: final(self).btype_lru,
                btype_max_seen: final(self).btype_max_seen,
                ..*old(self)
            }),
    {
        self.next_state();
        self.btype_lru[btype_type] = [btype, self.btype_lru[btype_type][0]];
        let seen = self.btype_max_seen[btype_type];
        self.btype_max_seen[btype_type] = if seen < btype {
            btype
        } else {
            seen
        };
        proof {
            assert(self.btype_lru[btype_type as int]@ =~= seq![btype, old(self).btype_lru[btype_type as int][0]]);
        }
    }

    /// Records a literal block switch: as `_obs_btype_helper` for kind 0, then
    /// takes the switch's stride, and combines literal predictions exactly when
    /// the stride is nonzero and a context map has been observed.
    pub fn obs_btypel(&mut self, btype: LiteralBlockSwitch)
        ensures
            forall|i: int|
                0 <= i < 3 ==> #[trigger] final(self).btype_lru[i]@ == (if i == 0 {
                    seq![btype.0.0, old(self).btype_lru[i][0]]
                } else {
                    old(self).btype_lru[i]@
                }),
            forall|i: int|
                0 <= i < 3 ==> #[trigger] final(self).btype_max_seen[i] == (if i == 0 {
                    if old(self).btype_max_seen[i] < btype.0.0 {
                        btype.0.0
                    } else {
                        old(self).btype_max_seen[i]
                    }
                } else {
                    old(self).btype_max_seen[i]
                }),
            *final(self) == (CrossCommandBookKeeping {
                last_4_states: old(self).last_4_states >> 2u8,
                btype_lru: final(self).btype_lru,
                btype_max_seen: final(self).btype_max_seen,
                stride: btype.1,
                combine_literal_predictions: btype.1 != 0 && old(self).materialized_context_map,
                ..*old(self)
            }),
    {
        self._obs_btype_helper(BLOCK_TYPE_LITERAL_SWITCH, btype.block_type());
        self.stride = btype.stride();
        if self.stride != 0 && self.materialized_context_map {
            self.combine_literal_predictions = true;
        } else {
            self.combine_literal_predictions = false;
        }
    }

    /// Records a command block switch to `btype` (see `_obs_btype_helper`, kind 1).
    pub fn obs_btypec(&mut self, btype: u8)
        ensures
            forall|i: int|
                0 <= i < 3 ==> #[trigger] final(self).btype_lru[i]@ == (if i == 1 {
                    seq![btype, old(self).btype_lru[i][0]]
                } else {
                    old(self).btype_lru[i]@
                }),
            forall|i: int|
                0 <= i < 3 ==> #[trigger] final(self).btype_max_seen[i] == (if i == 1 {
                    if old(self).btype_max_seen[i] < btype {
                        btype
                    } else {
                        old(self).btype_max_seen[i]
                    }
                } else {
                    old(self).btype_max_seen[i]
                }),
            *final(self) == (CrossCommandBookKeeping {
                last_4_states: old(self).last_4_states >> 2u8,
                btype_lru: final(self).btype_lru,
                btype_max_seen: final(self).btype_max_seen,
                ..*old(self)
            }),
    {
        self._obs_btype_helper(BLOCK_TYPE_COMMAND_SWITCH, btype);
    }

    /// Records a distance block switch to `btype` (see `_obs_btype_helper`, kind 2).
    pub fn obs_btyped(&mut self, btype: u8)
        ensures
            forall|i: int|
                0 <= i < 3 ==> #[trigger] final(self).btype_lru[i]@ == (if i == 2 {
                    seq![btype, old(self).btype_lru[i][0]]
                } else {
                    old(self).btype_lru[i]@
                }),
            forall|i: int|
                0 <= i < 3 ==> #[trigger] final(self).btype_max_seen[i] == (if i == 2 {
                    if old(self).btype_max_seen[i] < btype {
                        btype
                    } else {
                        old(self).btype_max_seen[i]
                    }
                } else {
                    old(self).btype_max_seen[i]
                }),
            *final(self) == (CrossCommandBookKeeping {
                last_4_states: old(self).last_4_states >> 2u8,
                btype_lru: final(self).btype_lru,
                btype_max_seen: final(self).btype_max_seen,
                ..*old(self)
            }),
    {
        self._obs_btype_helper(BLOCK_TYPE_DISTANCE_SWITCH, btype);
    }
}

/// The parts of a codec in which an encoder and a decoder differ.
pub trait EncoderOrDecoderSpecialization {
    /// A buffer for `len` literal bytes.
    fn alloc_literal_buffer(&mut self, len: usize) -> AllocatedMemoryPrefix;

    /// Where the recoder writes its output: the caller's buffer or one of
    /// the specialization's own.
    fn get_recoder_output<'a>(&'a mut self, passed_in_output_bytes: &'a mut [u8]) -> &'a mut [u8];

    /// The offset that goes with `get_recoder_output`.
    fn get_recoder_output_offset<'a>(
        &self,
        passed_in_output_bytes: &'a mut usize,
        backing: &'a mut usize,
    ) -> &'a mut usize;

    /// Whether the caller wants the bytes of the original file back.
    fn does_caller_want_original_file_bytes(&self) -> bool;
}

/// Number of block types that a context map covers.
pub const NUM_BLOCK_TYPES: usize = 256;

/// The whole state carried across commands: the arithmetic coder, the
/// encoder- or decoder-specific parts, the recoder's ring buffer and the
/// bookkeeping.
pub struct CrossCommandState<ArithmeticCoder, Specialization: EncoderOrDecoderSpecialization> {
    pub coder: ArithmeticCoder,
    pub specialization: Specialization,
    pub ring_buffer: Vec<u8>,
    pub bk: CrossCommandBookKeeping,
}

impl<ArithmeticCoder, Specialization: EncoderOrDecoderSpecialization> CrossCommandState<
    ArithmeticCoder,
    Specialization,
> {
    /// A fresh state over cells that the caller allocated: the recoder's ring
    /// buffer (of `2^ring_buffer_size` bytes), the literal context map (64
    /// entries per block type) and the distance context map (4 entries per
    /// block type), with fresh bookkeeping over the two maps.
    pub fn new(
        coder: ArithmeticCoder,
        spc: Specialization,
        ring_buffer: Vec<u8>,
        literal_context_map: Vec<u8>,
        distance_context_map: Vec<u8>,
        dynamic_context_mixing: u8,
        literal_adaptation_rate: Speed,
    ) -> (r: Self)
        requires
            literal_context_map@.len() == 64 * NUM_BLOCK_TYPES,
            distance_context_map@.len() == 4 * NUM_BLOCK_TYPES,
            dynamic_context_mixing < 15,
        ensures
            r.coder == coder,
            r.specialization == spc,
            r.ring_buffer == ring_buffer,
            r.bk.is_fresh(dynamic_context_mixing, literal_adaptation_rate),
            r.bk.literal_context_map == literal_context_map,
            r.bk.distance_context_map == distance_context_map,
            r.bk.literal_context_map@.len() == 64 * NUM_BLOCK_TYPES,
            r.bk.distance_context_map@.len() == 4 * NUM_BLOCK_TYPES,
    {
        CrossCommandState {
            coder: coder,
            specialization: spc,
            ring_buffer: ring_buffer,
            bk: CrossCommandBookKeeping::new(
                literal_context_map,
                distance_context_map,
                dynamic_context_mixing,
                literal_adaptation_rate,
            ),
        }
    }
}

/// The two mnemonic schemes are inverse to their decoders: the code that the
/// search picks for `d` decodes back to `d`, the search picks a code below 15
/// exactly when one of the fifteen codes decodes to `d`, and no earlier code
/// does.
pub proof fn law_mnemonic_code_round_trip(bk: &CrossCommandBookKeeping, d: u32, len: u32)
    ensures
        bk.mnemonic_search(d, 0) < 15 ==> bk.mnemonic_value(bk.mnemonic_search(d, 0)) == d,
        (bk.mnemonic_search(d, 0) < 15) <==> exists|k: int| 0 <= k < 15 && bk.mnemonic_value(k) == d,
        forall|j: int| 0 <= j < bk.mnemonic_search(d, 0) ==> bk.mnemonic_value(j) != d,
        bk.mnemonic_two_search(d, len, 0) < 15 ==> bk.mnemonic_two_value(bk.mnemonic_two_search(d, len, 0), len as int)
            == d,
        (bk.mnemonic_two_search(d, len, 0) < 15) <==> exists|k: int|
            0 <= k < 15 && bk.mnemonic_two_value(k, len as int) == d,
        forall|j: int| 0 <= j < bk.mnemonic_two_search(d, len, 0) ==> bk.mnemonic_two_value(j, len as int) != d,
{
    lemma_mnemonic_search_from(bk, d, 0);
    lemma_mnemonic_two_search_from(bk, d, len, 0);
}

proof fn lemma_mnemonic_search_from(bk: &CrossCommandBookKeeping, d: u32, from: int)
    requires
        0 <= from <= 15,
    ensures
        from <= bk.mnemonic_search(d, from) <= 15,
        bk.mnemonic_search(d, from) < 15 ==> bk.mnemonic_value(bk.mnemonic_search(d, from)) == d,
        forall|j: int| from <= j < bk.mnemonic_search(d, from) ==> bk.mnemonic_value(j) != d,
        (bk.mnemonic_search(d, from) < 15) <==> exists|k: int| from <= k < 15 && bk.mnemonic_value(k) == d,
    decreases 15 - from,
{
    if from < 15 {
        lemma_mnemonic_search_from(bk, d, from + 1);
        if bk.mnemonic_value(from) == d {
            assert(from <= from < 15 && bk.mnemonic_value(from) == d);
        } else {
            if exists|k: int| from <= k < 15 && bk.mnemonic_value(k) == d {
                let k = choose|k: int| from <= k < 15 && bk.mnemonic_value(k) == d;
                assert(from + 1 <= k < 15 && bk.mnemonic_value(k) == d);
            }
        }
    }
}

proof fn lemma_mnemonic_two_search_from(bk: &CrossCommandBookKeeping, d: u32, len: u32, from: int)
    requires
        0 <= from <= 15,
    ensures
        from <= bk.mnemonic_two_search(d, len, from) <= 15,
        bk.mnemonic_two_search(d, len, from) < 15 ==> bk.mnemonic_two_value(
            bk.mnemonic_two_search(d, len, from),
            len as int,
        ) == d,
        forall|j: int| from <= j < bk.mnemonic_two_search(d, len, from) ==> bk.mnemonic_two_value(j, len as int) != d,
        (bk.mnemonic_two_search(d, len, from) < 15) <==> exists|k: int|
            from <= k < 15 && bk.mnemonic_two_value(k, len as int) == d,
    decreases 15 - from,
{
    if from < 15 {
        lemma_mnemonic_two_search_from(bk, d, len, from + 1);
        if bk.mnemonic_two_value(from, len as int) == d {
            assert(from <= from < 15 && bk.mnemonic_two_value(from, len as int) == d);
        } else {
            if exists|k: int| from <= k < 15 && bk.mnemonic_two_value(k, len as int) == d {
                let k = choose|k: int| from <= k < 15 && bk.mnemonic_two_value(k, len as int) == d;
                assert(from + 1 <= k < 15 && bk.mnemonic_two_value(k, len as int) == d);
            }
        }
    }
}

/// What the codes of the second mnemonic scheme name at copy length `len`:
/// code 0 is the third most recent distance less 1 (plus 3 when it is 0);
/// codes 1-3 are the three cached distances of length `len`, 4-6 those of
/// `len + 1` and 10-12 those of `len + 2`, each slot with its own code;
/// codes 7-9 and 13-14 are the cached distances of `len + 1` (all slots) and
/// `len + 2` (slots 0 and 1) less one.
pub proof fn law_mnemonic_two_codes_name_cache_slots(bk: &CrossCommandBookKeeping, len: int)
    ensures
        bk.mnemonic_two_value(0, len) == (if bk.distance_lru[2] >= 1 {
            bk.distance_lru[2] - 1
        } else {
            bk.distance_lru[2] + 3
        }),
        forall|j: int|
            0 <= j < 3 ==> {
                &&& #[trigger] bk.mnemonic_two_value(1 + j, len) == bk.cached_distance(len, j)
                &&& bk.mnemonic_two_value(4 + j, len) == bk.cached_distance(len + 1, j)
                &&& bk.mnemonic_two_value(7 + j, len) == bk.cached_distance(len + 1, j) - 1
                &&& bk.mnemonic_two_value(10 + j, len) == bk.cached_distance(len + 2, j)
            },
        forall|j: int| 0 <= j < 2 ==> #[trigger] bk.mnemonic_two_value(13 + j, len) == bk.cached_distance(len + 2, j) - 1,
{
}

/// Every cached distance of the current copy length and the next two has a
/// code in the second scheme: the search for it stops below 15 (and decodes
/// back to it, by `law_mnemonic_code_round_trip`).
pub proof fn law_cached_distances_have_codes(bk: &CrossCommandBookKeeping, len: u32, offset: int, slot: int)
    requires
        0 <= offset < 3,
        0 <= slot < 3,
        bk.cached_distance_defined(len + offset, slot),
    ensures
        bk.mnemonic_two_search(bk.cached_distance(len + offset, slot) as u32, len, 0) < 15,
{
    let d = bk.cached_distance(len + offset, slot) as u32;
    let k = if offset == 0 {
        1 + slot
    } else if offset == 1 {
        4 + slot
    } else {
        10 + slot
    };
    assert(bk.mnemonic_two_value(k, len as int) == d);
    lemma_mnemonic_two_search_from(bk, d, len, 0);
}

/// What the codes of the first mnemonic scheme name: codes 0-3 are the four
/// recent distances in order; codes 4, 8, 12 are the most recent distance plus
/// 1, 2, 3 and codes 6, 10, 14 the second most recent plus 1, 2, 3; codes 5, 9,
/// 13 are the most recent less 1, 2, 3 and codes 7, 11 the second most recent
/// less 1, 2, where that does not go below zero. So every distance in the
/// recent list gets a code below 4, no later than its position.
pub proof fn law_mnemonic_codes_name_recent_distances(bk: &CrossCommandBookKeeping)
    ensures
        forall|k: int| 0 <= k < 4 ==> #[trigger] bk.mnemonic_value(k) == bk.distance_lru[k],
        forall|k: int| 0 <= k < 4 ==> #[trigger] bk.mnemonic_search(bk.distance_lru[k], 0) <= k,
        forall|m: int|
            1 <= m <= 3 ==> {
                &&& #[trigger] bk.mnemonic_value(4 * m) == bk.distance_lru[0] + m
                &&& bk.mnemonic_value(4 * m + 2) == bk.distance_lru[1] + m
                &&& bk.distance_lru[0] >= m ==> bk.mnemonic_value(4 * m + 1) == bk.distance_lru[0] - m
            },
        forall|m: int|
            1 <= m <= 2 ==> (bk.distance_lru[1] >= m ==> #[trigger] bk.mnemonic_value(4 * m + 3) == bk.distance_lru[1] - m),
{
    assert forall|k: int| 0 <= k < 4 implies #[trigger] bk.mnemonic_search(bk.distance_lru[k], 0) <= k by {
        lemma_mnemonic_search_from(bk, bk.distance_lru[k], 0);
        assert(bk.mnemonic_value(k) == bk.distance_lru[k]);
    }
}

/// On a list of recent distances without repeats, using `d` moves it to the
/// front and keeps the other entries in their order: if `d` is among the first
/// three it is taken out from where it was, otherwise the last entry drops out.
pub proof fn law_distance_lru_keeps_order(lru: Seq<u32>, d: u32)
    requires
        lru.len() == 4,
        lru.no_duplicates(),
    ensures
        forall|p: int| 0 <= p < 3 && lru[p] == d ==> distance_lru_after(lru, d) == seq![d] + lru.remove(p),
        (forall|p: int| 0 <= p < 3 ==> lru[p] != d) ==> distance_lru_after(lru, d) == seq![d] + lru.take(3),
{
    assert forall|p: int| 0 <= p < 3 && lru[p] == d implies distance_lru_after(lru, d) == seq![d] + lru.remove(p) by {
        assert(lru[0] != lru[1] && lru[0] != lru[2] && lru[1] != lru[2]);
        assert(distance_lru_after(lru, d) =~= seq![d] + lru.remove(p));
    }
    if forall|p: int| 0 <= p < 3 ==> lru[p] != d {
        assert(lru[0] != d && lru[1] != d && lru[2] != d);
        assert(distance_lru_after(lru, d) =~= seq![d] + lru.take(3));
    }
}

/// On a list without repeats, moving `val` to the front keeps the other
/// entries in their order: if `val` is in the list it is taken out from where
/// it was, otherwise the least recently used (last) entry drops out.
pub proof fn law_move_to_front_keeps_order(lru: Seq<u8>, val: u8)
    requires
        lru.len() > 0,
        lru.no_duplicates(),
    ensures
        forall|p: int| 0 <= p < lru.len() && lru[p] == val ==> move_to_front(lru, val) == seq![val] + lru.remove(p),
        (forall|p: int| 0 <= p < lru.len() ==> lru[p] != val) ==> move_to_front(lru, val) == seq![val] + lru.take(
            lru.len() - 1,
        ),
{
    assert forall|p: int| 0 <= p < lru.len() && lru[p] == val implies move_to_front(lru, val) == seq![val]
        + lru.remove(p) by {
        assert forall|k: int| 0 <= k < p implies lru[k] != val by {
            assert(lru[k] != lru[p]);
        }
        lemma_first_index_of(lru, val, p);
    }
}

/// A cached distance counts the bytes decoded since it was recorded: it reads
/// as the recorded distance when nothing was decoded since, and decoding `n`
/// more bytes makes it read `n` more.
pub proof fn law_cached_distance_advances(bk: CrossCommandBookKeeping, later: CrossCommandBookKeeping, len: int, index: int)
    requires
        0 <= len,
        0 <= index < 3,
        later == (CrossCommandBookKeeping { decode_byte_count: later.decode_byte_count, ..bk }),
    ensures
        bk.cache_entry(len, index).decode_byte_count == bk.decode_byte_count ==> bk.cached_distance(len, index)
            == bk.cache_entry(len, index).distance,
        later.cached_distance(len, index) == bk.cached_distance(len, index) + (later.decode_byte_count
            - bk.decode_byte_count),
        len < 31 ==> bk.cache_entry(len, index) == bk.distance_cache[len][index],
        len >= 31 ==> bk.cache_entry(len, index) == bk.distance_cache[31][index],
{
}

/// The cache slot that a new distance replaces is one recorded no later than
/// either other slot.
pub proof fn law_oldest_cache_index_is_oldest(row: [DistanceCacheEntry; 3])
    ensures
        0 <= oldest_cache_index(row) < 3,
        forall|j: int| 0 <= j < 3 ==> row[oldest_cache_index(row)].decode_byte_count <= #[trigger] row[j].decode_byte_count,
{
}

/// The first coordinate of the command-type prior is the kind of the latest
/// command: 1 after a copy, 2 after a literal, 3 after a dictionary command,
/// and 0 after a block switch or a prediction-mode command.
pub proof fn law_latest_command_selects_prior(states: u8)
    ensures
        ((states >> 2u8) | 64u8) / 64 == 1,
        ((states >> 2u8) | 128u8) / 64 == 2,
        ((states >> 2u8) | 192u8) / 64 == 3,
        (states >> 2u8) / 64 == 0,
{
    assert(((states >> 2u8) | 64u8) / 64 == 1) by (bit_vector);
    assert(((states >> 2u8) | 128u8) / 64 == 2) by (bit_vector);
    assert(((states >> 2u8) | 192u8) / 64 == 3) by (bit_vector);
    assert((states >> 2u8) / 64 == 0) by (bit_vector);
}

/// The second coordinate of the command-type prior is the top two bits of the
/// latest literal byte, or of the latest literal nibble.
pub proof fn law_latest_literal_selects_prior(literals: u64, b: u8)
    ensures
        ((literals >> 8u64) | ((b as u64) << 56u64)) / 0x4000_0000_0000_0000 == b / 64,
        ((literals >> 4u64) | ((b as u64) << 60u64)) / 0x4000_0000_0000_0000 == (b % 16) / 4,
{
    assert(((literals >> 8u64) | ((b as u64) << 56u64)) / 0x4000_0000_0000_0000 == b / 64) by (bit_vector);
    assert(((literals >> 4u64) | ((b as u64) << 60u64)) / 0x4000_0000_0000_0000 == (b % 16) / 4) by (bit_vector);
}

} // verus!
