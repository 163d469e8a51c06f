//! A transposition table shared between search threads without locks: buckets of three
//! entries, each a key word (hash XOR data) and a data word packing score, depth, bound,
//! best move, generation and PV mark.
use vstd::prelude::*;
use std::sync::atomic::{AtomicU64, Ordering};

verus! {

/// The kind of bound a stored score is.
#[derive(Clone, Copy, Debug, PartialEq, Eq, Structural)]
pub enum Flag {
    Exact,
    LowerBound,
    UpperBound,
}

/// A move as source cell, target cell and promotion code.
#[derive(Clone, Copy, Debug)]
pub struct PackedMove {
    pub from_idx: u16,
    pub to_idx: u16,
    pub promotion: u8,
}

/// The source cell in the low 16 bits and the target cell in the high 16 bits.
pub open spec fn packed_u32(m: PackedMove) -> u32 {
    (m.from_idx as u32) | ((m.to_idx as u32) << 16u32)
}

impl PackedMove {
    /// The move as one word: source in the low half, target in the high half.
    pub fn to_u32(&self) -> (r: u32)
        ensures
            r == packed_u32(*self),
    {
        (self.from_idx as u32) | ((self.to_idx as u32) << 16u32)
    }

    /// The move read back from one word, without promotion.
    pub fn from_u32(val: u32) -> (r: Self)
        ensures
            r.from_idx == (val & 0xFFFF) as u16,
            r.to_idx == ((val >> 16u32) & 0xFFFF) as u16,
            r.promotion == 0,
    {
        PackedMove { from_idx: (val & 0xFFFF) as u16, to_idx: ((val >> 16u32) & 0xFFFF) as u16, promotion: 0 }
    }
}

/// Reading back a packed move gives its cells, and packing what was read gives the word.
pub proof fn lemma_packed_move_roundtrip(m: PackedMove, val: u32)
    ensures
        (packed_u32(m) & 0xFFFF) as u16 == m.from_idx,
        ((packed_u32(m) >> 16u32) & 0xFFFF) as u16 == m.to_idx,
        ((val & 0xFFFF) as u16 as u32) | ((((val >> 16u32) & 0xFFFF) as u16 as u32) << 16u32) == val,
{
    let f = m.from_idx;
    let t = m.to_idx;
    assert((((f as u32) | ((t as u32) << 16u32)) & 0xFFFF) as u16 == f) by (bit_vector);
    assert(((((f as u32) | ((t as u32) << 16u32)) >> 16u32) & 0xFFFF) as u16 == t) by (bit_vector);
    assert(((val & 0xFFFF) as u16 as u32) | ((((val >> 16u32) & 0xFFFF) as u16 as u32) << 16u32)
        == val) by (bit_vector);
}

/// The score clamped to the range a stored entry keeps: `-32767..=32766`.
pub open spec fn clamp_score(score: i32) -> i32 {
    if score < -32767 {
        -32767i32
    } else if score > 32766 {
        32766i32
    } else {
        score
    }
}

/// The code of a bound kind.
pub open spec fn flag_code(flag: Flag) -> u64 {
    match flag {
        Flag::Exact => 0,
        Flag::LowerBound => 1,
        Flag::UpperBound => 2,
    }
}

/// The bits of the best move: promotion at 26, source at 30, target at 46.
pub open spec fn move_bits(best_move: Option<PackedMove>) -> u64 {
    match best_move {
        Some(m) => (((m.promotion as u64) & 0xF) << 26u64) | ((m.from_idx as u64) << 30u64) | ((
        m.to_idx as u64) << 46u64),
        None => 0,
    }
}

/// The data word of an entry: score in bits 0-15, depth 16-23, bound 24-25, the move from
/// bit 26, generation 56-61, PV mark at bit 63.
pub open spec fn encode_spec(
    score: i32,
    depth: u8,
    flag: Flag,
    best_move: Option<PackedMove>,
    is_pv: bool,
    generation: u8,
) -> u64 {
    ((clamp_score(score) as i16) as u16 as u64) | ((depth as u64) << 16u64) | (flag_code(flag)
        << 24u64) | move_bits(best_move) | (((generation as u64) & 0x3F) << 56u64) | if is_pv {
        0x8000_0000_0000_0000u64
    } else {
        0u64
    }
}

/// The bound kind of a code (3 reads as exact).
pub open spec fn flag_of(code: u64) -> Flag {
    if code == 1 {
        Flag::LowerBound
    } else if code == 2 {
        Flag::UpperBound
    } else {
        Flag::Exact
    }
}

/// An entry read from its data word: score, depth, bound and best move (the target read
/// from bits 46-55, as bits 56-61 hold the generation; no move when source and target are
/// both 0).
pub open spec fn decode_spec(data: u64) -> (i32, u8, Flag, Option<PackedMove>) {
    let score = (data & 0xFFFF) as i16 as i32;
    let depth = ((data >> 16u64) & 0xFF) as u8;
    let flag = flag_of((data >> 24u64) & 0x3);
    let promo = ((data >> 26u64) & 0xF) as u8;
    let from = ((data >> 30u64) & 0xFFFF) as u16;
    let to = ((data >> 46u64) & 0x3FF) as u16;
    let best_move = if from != 0 || to != 0 {
        Some(PackedMove { from_idx: from, to_idx: to, promotion: promo })
    } else {
        None
    };
    (score, depth, flag, best_move)
}

/// The generation kept in a data word (bits 56-61).
pub open spec fn generation_of(data: u64) -> u8 {
    ((data >> 56u64) & 0x3F) as u8
}

/// How many generations before `current` the generation `g` is, modulo 64.
pub open spec fn age_of(current: u8, g: u8) -> u8 {
    (current.wrapping_sub(g)) & 0x3F
}

/// The depth kept in a data word.
pub open spec fn depth_of(data: u64) -> i32 {
    ((data >> 16u64) & 0xFF) as i32
}

/// Entries per bucket.
pub const BUCKET_SIZE: usize = 3;

/// The lock-free table: `num_buckets` buckets (a power of two) of `BUCKET_SIZE` entries of
/// two words each.
pub struct LockFreeTT {
    table: Vec<AtomicU64>,
    num_buckets: usize,
    bucket_mask: usize,
    generation: u8,
}

/// `n` is a power of two.
pub open spec fn is_pow2(n: nat) -> bool
    decreases n,
{
    if n == 1 {
        true
    } else if n < 1 || n % 2 == 1 {
        false
    } else {
        is_pow2(n / 2)
    }
}

/// The smallest power of two at least `x` (1 for 0).
pub open spec fn least_pow2_at_least(x: nat, p: nat) -> bool {
    is_pow2(p) && p >= x && (p == 1 || p / 2 < x)
}

impl LockFreeTT {
    /// Sizes agree: six words per bucket, the mask is one below the power-of-two bucket
    /// count, and the generation has six bits.
    pub closed spec fn wf(&self) -> bool {
        &&& self.num_buckets >= 1
        &&& is_pow2(self.num_buckets as nat)
        &&& self.bucket_mask + 1 == self.num_buckets
        &&& self.table.len() == self.num_buckets * 6
        &&& self.generation < 64
    }

    /// The number of buckets.
    pub closed spec fn spec_num_buckets(&self) -> usize {
        self.num_buckets
    }

    /// The current generation.
    pub closed spec fn spec_generation(&self) -> u8 {
        self.generation
    }
}

impl LockFreeTT {
    /// Word `i` of the table, as another thread may have left it.
    fn load_word(&self, i: usize) -> (r: u64)
        requires
            i < self.table.len(),
    {
        self.table[i].load(Ordering::Relaxed)
    }

    /// Writes word `i` of the table.
    fn store_word(&self, i: usize, v: u64)
        requires
            i < self.table.len(),
    {
        self.table[i].store(v, Ordering::Relaxed);
    }

    /// The first word of the bucket of `hash`.
    fn bucket_base(&self, hash: u64) -> (r: usize)
        requires
            self.wf(),
        ensures
            r == ((hash as usize) & self.bucket_mask) * 6,
            r + 6 <= self.table.len(),
    {
        let idx = (hash as usize) & self.bucket_mask;
        let m = self.bucket_mask;
        assert(((hash as usize) & m) <= m) by (bit_vector);
        idx * 6
    }

    /// An empty table of about `size_mb` megabytes: the least power of two at least
    /// `size_mb * 2^20 / 48` buckets, generation 0.
    pub fn new(size_mb: usize) -> (r: Self)
        requires
            size_mb * 1048576 <= usize::MAX,
        ensures
            r.wf(),
            least_pow2_at_least((size_mb * 1048576 / 48) as nat, r.spec_num_buckets() as nat),
            r.spec_generation() == 0,
    {
        let bytes = size_mb * 1024 * 1024;
        let want = bytes / (BUCKET_SIZE * 16);
        let mut num_buckets: usize = 1;
        while num_buckets < want
            invariant
                want == size_mb * 1048576 / 48,
                size_mb * 1048576 <= usize::MAX,
                num_buckets >= 1,
                is_pow2(num_buckets as nat),
                num_buckets == 1 || num_buckets / 2 < want,
            decreases usize::MAX - num_buckets,
        {
            proof {
                assert(is_pow2((num_buckets * 2) as nat));
            }
            num_buckets = num_buckets * 2;
        }
        let num_atomics = num_buckets * BUCKET_SIZE * 2;
        let mut table: Vec<AtomicU64> = Vec::new();
        let mut i: usize = 0;
        while i < num_atomics
            invariant
                i <= num_atomics,
                table.len() == i,
            decreases num_atomics - i,
        {
            table.push(AtomicU64::new(0));
            i += 1;
        }
        LockFreeTT { table, num_buckets, bucket_mask: num_buckets - 1, generation: 0 }
    }

    /// Advances the generation (modulo 64).
    pub fn new_search(&mut self)
        requires
            old(self).wf(),
        ensures
            final(self).wf(),
            final(self).spec_num_buckets() == old(self).spec_num_buckets(),
            final(self).spec_generation() == (old(self).spec_generation() + 1) % 64,
    {
        let g = self.generation;
        assert((((g + 1) as u8) & 0x3F) == (g + 1) % 64) by (bit_vector)
            requires
                g < 64,
        ;
        self.generation = (self.generation + 1) & 0x3F;
    }

    /// The current generation.
    pub fn generation(&self) -> (r: u8)
        ensures
            r == self.spec_generation(),
    {
        self.generation
    }

    /// How many generations old an entry of generation `entry_gen` is.
    pub fn relative_age(&self, entry_gen: u8) -> (r: u8)
        ensures
            r == age_of(self.spec_generation(), entry_gen),
    {
        self.generation.wrapping_sub(entry_gen) & 0x3F
    }

    /// The generation kept in a data word.
    pub fn extract_generation(data: u64) -> (r: u8)
        ensures
            r == generation_of(data),
    {
        ((data >> 56u64) & 0x3F) as u8
    }

    /// The data word of an entry (see `encode_spec`).
    pub fn encode_data(
        score: i32,
        depth: u8,
        flag: Flag,
        best_move: Option<PackedMove>,
        is_pv: bool,
        generation: u8,
    ) -> (r: u64)
        ensures
            r == encode_spec(score, depth, flag, best_move, is_pv, generation),
    {
        let clamped: i32 = if score < -32767 {
            -32767
        } else if score > 32766 {
            32766
        } else {
            score
        };
        let score_part = (clamped as i16) as u16 as u64;
        let depth_part = (depth as u64) << 16u64;
        let flag_code: u64 = match flag {
            Flag::Exact => 0,
            Flag::LowerBound => 1,
            Flag::UpperBound => 2,
        };
        let flag_part = flag_code << 24u64;
        let move_part: u64 = match best_move {
            Some(m) => (((m.promotion as u64) & 0xF) << 26u64) | ((m.from_idx as u64) << 30u64) | ((
            m.to_idx as u64) << 46u64),
            None => 0,
        };
        let gen_part = ((generation as u64) & 0x3F) << 56u64;
        let pv_part: u64 = if is_pv {
            0x8000_0000_0000_0000u64
        } else {
            0u64
        };
        score_part | depth_part | flag_part | move_part | gen_part | pv_part
    }

    /// An entry read from its data word (see `decode_spec`).
    pub fn decode_data(data: u64) -> (r: (i32, u8, Flag, Option<PackedMove>))
        ensures
            r == decode_spec(data),
    {
        let score = (data & 0xFFFF) as i16 as i32;
        let depth = ((data >> 16u64) & 0xFF) as u8;
        let code = (data >> 24u64) & 0x3;
        let flag = if code == 1 {
            Flag::LowerBound
        } else if code == 2 {
            Flag::UpperBound
        } else {
            Flag::Exact
        };
        let promo = ((data >> 26u64) & 0xF) as u8;
        let from = ((data >> 30u64) & 0xFFFF) as u16;
        let to = ((data >> 46u64) & 0x3FF) as u16;
        let best_move = if from != 0 || to != 0 {
            Some(PackedMove { from_idx: from, to_idx: to, promotion: promo })
        } else {
            None
        };
        (score, depth, flag, best_move)
    }

    /// The PV mark of a data word (bit 63).
    fn pv_bit(data: u64) -> (r: bool)
        ensures
            r == ((data >> 63u64) & 1 == 1),
    {
        (data >> 63u64) & 1 == 1
    }
}

/// The data word of the first of the bucket's slots `i..3` whose key word is `hash` XOR
/// its data word, given the key and data words read from the slots.
pub open spec fn matching_data(hash: u64, keys: Seq<u64>, datas: Seq<u64>, i: int) -> Option<u64>
    decreases 3 - i,
{
    if i >= 3 {
        None
    } else if keys[i] == hash ^ datas[i] {
        Some(datas[i])
    } else {
        matching_data(hash, keys, datas, i + 1)
    }
}

/// What a probe of `hash` finds in a bucket whose slots hold the key and data words
/// `keys` and `datas`: the entry decoded from the first matching slot, or nothing.
pub open spec fn probe_result(hash: u64, keys: Seq<u64>, datas: Seq<u64>) -> Option<(i32, u8, Flag, Option<PackedMove>)> {
    match matching_data(hash, keys, datas, 0) {
        Some(d) => Some(decode_spec(d)),
        None => None,
    }
}

/// As `probe_result`, with the PV mark (bit 63) of the data word.
pub open spec fn probe_full_result(hash: u64, keys: Seq<u64>, datas: Seq<u64>) -> Option<
    (i32, u8, Flag, Option<PackedMove>, bool),
> {
    match matching_data(hash, keys, datas, 0) {
        Some(d) => {
            let x = decode_spec(d);
            Some((x.0, x.1, x.2, x.3, (d >> 63u64) & 1 == 1))
        },
        None => None,
    }
}

/// The number of the data words that are not empty and of generation `generation`.
pub open spec fn current_count(datas: Seq<u64>, generation: u8) -> nat
    decreases datas.len(),
{
    if datas.len() == 0 {
        0
    } else {
        current_count(datas.drop_last(), generation) + if datas.last() != 0 && age_of(
            generation,
            generation_of(datas.last()),
        ) == 0 {
            1nat
        } else {
            0nat
        }
    }
}

/// The buckets sampled to measure the table's use: the first 1000 at most.
pub open spec fn sample_size(num_buckets: usize) -> nat {
    if num_buckets < 1000 {
        num_buckets as nat
    } else {
        1000
    }
}

/// The worth of keeping an entry with data word `data` when the table is at generation
/// `generation`: deeper and newer entries are worth more (`depth * 4 - age * 8`).
pub open spec fn worth_spec(data: u64, generation: u8) -> int {
    depth_of(data) * 4 - age_of(generation, generation_of(data)) * 8
}

/// The slot chosen by scanning slots `i..3` of a bucket, `best` being the slot least worth
/// keeping so far and `worst` its worth: the first slot that is empty or holds `hash`'s
/// position, else the first slot of least worth.
pub open spec fn choice_from(
    hash: u64,
    keys: Seq<u64>,
    datas: Seq<u64>,
    generation: u8,
    i: int,
    best: int,
    worst: int,
) -> int
    decreases 3 - i,
{
    if i >= 3 || i < 0 {
        best
    } else if datas[i] == 0 || keys[i] == hash ^ datas[i] {
        i
    } else if worth_spec(datas[i], generation) < worst {
        choice_from(hash, keys, datas, generation, i + 1, i, worth_spec(datas[i], generation))
    } else {
        choice_from(hash, keys, datas, generation, i + 1, best, worst)
    }
}

/// The slot a new entry for `hash` replaces in a bucket whose slots hold the key and data
/// words `keys` and `datas`: the first empty slot or slot of the same position (key word
/// `hash` XOR data word) in slot order, else the first slot of least worth (`worth_spec`).
pub open spec fn replacement_choice(hash: u64, keys: Seq<u64>, datas: Seq<u64>, generation: u8) -> int {
    choice_from(hash, keys, datas, generation, 0, 0, i32::MAX as int)
}

/// The worth of keeping an entry (see `worth_spec`).
fn worth(data: u64, generation: u8) -> (r: i32)
    ensures
        r == worth_spec(data, generation),
{
    assert(((data >> 16u64) & 0xFF) <= 0xFF) by (bit_vector);
    let entry_depth = ((data >> 16u64) & 0xFF) as i32;
    let eg = ((data >> 56u64) & 0x3F) as u8;
    let age = generation.wrapping_sub(eg) & 0x3F;
    assert((generation.wrapping_sub(eg) & 0x3F) <= 0x3F) by (bit_vector);
    entry_depth * 4 - (age as i32) * 8
}

proof fn lemma_matching_found(hash: u64, keys: Seq<u64>, datas: Seq<u64>, i: int)
    requires
        0 <= i < 3,
        keys.len() == 3,
        datas.len() == 3,
        forall|j: int| 0 <= j < i ==> keys[j] != hash ^ datas[j],
        keys[i] == hash ^ datas[i],
    ensures
        matching_data(hash, keys, datas, 0) == Some(datas[i]),
{
    if i >= 1 {
        assert(keys[0] != hash ^ datas[0]);
    }
    if i >= 2 {
        assert(keys[1] != hash ^ datas[1]);
    }
    reveal_with_fuel(matching_data, 4);
}

proof fn lemma_matching_none(hash: u64, keys: Seq<u64>, datas: Seq<u64>, i: int)
    requires
        0 <= i <= 3,
        keys.len() == 3,
        datas.len() == 3,
        forall|j: int| 0 <= j < 3 ==> keys[j] != hash ^ datas[j],
    ensures
        matching_data(hash, keys, datas, i) is None,
    decreases 3 - i,
{
    if i < 3 {
        lemma_matching_none(hash, keys, datas, i + 1);
    }
}

impl LockFreeTT {
    /// The entry of `hash`: the words of the three slots of its bucket are read in turn, and
    /// the entry decoded from the first slot whose key word is `hash` XOR its data word is
    /// returned (see `probe_result`). The table is shared with other threads and what a
    /// read gives is not modelled, so the words read are stated to exist, not named.
    pub fn get(&self, hash: u64) -> (r: Option<(i32, u8, Flag, Option<PackedMove>)>)
        requires
            self.wf(),
        ensures
            exists|keys: Seq<u64>, datas: Seq<u64>|
                keys.len() == 3 && datas.len() == 3 && r == #[trigger] probe_result(hash, keys, datas),
    {
        let base = self.bucket_base(hash);
        let ghost mut keys: Seq<u64> = Seq::empty();
        let ghost mut datas: Seq<u64> = Seq::empty();
        let mut i: usize = 0;
        while i < BUCKET_SIZE
            invariant
                self.wf(),
                base + 6 <= self.table.len(),
                i <= 3,
                keys.len() == i,
                datas.len() == i,
                forall|j: int| 0 <= j < i ==> keys[j] != hash ^ datas[j],
            decreases BUCKET_SIZE - i,
        {
            let key_entry = self.load_word(base + i * 2);
            let data_entry = self.load_word(base + i * 2 + 1);
            if key_entry == (hash ^ data_entry) {
                let x = Self::decode_data(data_entry);
                proof {
                    let k2 = keys.push(key_entry) + Seq::new((2 - i) as nat, |j: int| 0u64);
                    let d2 = datas.push(data_entry) + Seq::new((2 - i) as nat, |j: int| 0u64);
                    lemma_matching_found(hash, k2, d2, i as int);
                    assert(probe_result(hash, k2, d2) == Some(x));
                }
                return Some(x);
            }
            proof {
                keys = keys.push(key_entry);
                datas = datas.push(data_entry);
            }
            i += 1;
        }
        proof {
            lemma_matching_none(hash, keys, datas, 0);
            assert(probe_result(hash, keys, datas) is None);
        }
        None
    }

    /// As `get`, with the PV mark (bit 63) of the entry (see `probe_full_result`).
    pub fn get_full(&self, hash: u64) -> (r: Option<(i32, u8, Flag, Option<PackedMove>, bool)>)
        requires
            self.wf(),
        ensures
            exists|keys: Seq<u64>, datas: Seq<u64>|
                keys.len() == 3 && datas.len() == 3 && r == #[trigger] probe_full_result(hash, keys, datas),
    {
        let base = self.bucket_base(hash);
        let ghost mut keys: Seq<u64> = Seq::empty();
        let ghost mut datas: Seq<u64> = Seq::empty();
        let mut i: usize = 0;
        while i < BUCKET_SIZE
            invariant
                self.wf(),
                base + 6 <= self.table.len(),
                i <= 3,
                keys.len() == i,
                datas.len() == i,
                forall|j: int| 0 <= j < i ==> keys[j] != hash ^ datas[j],
            decreases BUCKET_SIZE - i,
        {
            let key_entry = self.load_word(base + i * 2);
            let data_entry = self.load_word(base + i * 2 + 1);
            if key_entry == (hash ^ data_entry) {
                let (score, depth, flag, best_move) = Self::decode_data(data_entry);
                let is_pv = Self::pv_bit(data_entry);
                proof {
                    let k2 = keys.push(key_entry) + Seq::new((2 - i) as nat, |j: int| 0u64);
                    let d2 = datas.push(data_entry) + Seq::new((2 - i) as nat, |j: int| 0u64);
                    lemma_matching_found(hash, k2, d2, i as int);
                    assert(probe_full_result(hash, k2, d2) == Some((score, depth, flag, best_move, is_pv)));
                }
                return Some((score, depth, flag, best_move, is_pv));
            }
            proof {
                keys = keys.push(key_entry);
                datas = datas.push(data_entry);
            }
            i += 1;
        }
        proof {
            lemma_matching_none(hash, keys, datas, 0);
            assert(probe_full_result(hash, keys, datas) is None);
        }
        None
    }

    /// Stores an entry that is not on the principal variation (see `store_with_pv`) and
    /// returns the slot written.
    pub fn store(&self, hash: u64, score: i32, depth: u8, flag: Flag, best_move: Option<PackedMove>) -> (slot: usize)
        requires
            self.wf(),
            best_move matches Some(m) ==> m.to_idx < 1024,
        ensures
            slot < 3,
            exists|keys: Seq<u64>, datas: Seq<u64>|
                keys.len() == 3 && datas.len() == 3 && slot == #[trigger] replacement_choice(
                    hash,
                    keys,
                    datas,
                    self.spec_generation(),
                ),
    {
        self.store_with_pv(hash, score, depth, flag, best_move, false)
    }

    /// The slot of a bucket that a new entry for `hash` goes to, given the key and data
    /// words of its three slots (see `replacement_choice`).
    pub fn replacement_slot(hash: u64, keys: &Vec<u64>, datas: &Vec<u64>, generation: u8) -> (i: usize)
        requires
            keys.len() == 3,
            datas.len() == 3,
        ensures
            i < 3,
            i == replacement_choice(hash, keys@, datas@, generation),
    {
        let mut best: usize = 0;
        let mut worst: i32 = i32::MAX;
        let mut i: usize = 0;
        while i < BUCKET_SIZE
            invariant
                keys.len() == 3,
                datas.len() == 3,
                i <= 3,
                best < 3,
                replacement_choice(hash, keys@, datas@, generation) == choice_from(
                    hash,
                    keys@,
                    datas@,
                    generation,
                    i as int,
                    best as int,
                    worst as int,
                ),
            decreases BUCKET_SIZE - i,
        {
            let d = datas[i];
            if d == 0 || keys[i] == (hash ^ d) {
                return i;
            }
            let w = worth(d, generation);
            if w < worst {
                worst = w;
                best = i;
            }
            i += 1;
        }
        best
    }

    /// Stores an entry in the bucket of `hash` and returns the slot written: the key and
    /// data words of the three slots are read, `replacement_slot` picks the slot, and the
    /// data word (`encode_data`, with the table's generation) is written first, then the key
    /// word (`hash` XOR data). The target cell of the best move is kept in ten bits (bits
    /// 46-55; bits 56-61 hold the generation), so it must be below 1024. The table is shared
    /// with other threads, and what it holds afterwards is not modelled: what is stated is
    /// the slot chosen from the words read.
    pub fn store_with_pv(
        &self,
        hash: u64,
        score: i32,
        depth: u8,
        flag: Flag,
        best_move: Option<PackedMove>,
        is_pv: bool,
    ) -> (slot: usize)
        requires
            self.wf(),
            best_move matches Some(m) ==> m.to_idx < 1024,
        ensures
            slot < 3,
            exists|keys: Seq<u64>, datas: Seq<u64>|
                keys.len() == 3 && datas.len() == 3 && slot == #[trigger] replacement_choice(
                    hash,
                    keys,
                    datas,
                    self.spec_generation(),
                ),
    {
        let base = self.bucket_base(hash);
        let new_data = Self::encode_data(score, depth, flag, best_move, is_pv, self.generation);
        let mut keys: Vec<u64> = Vec::new();
        let mut datas: Vec<u64> = Vec::new();
        let mut i: usize = 0;
        while i < BUCKET_SIZE
            invariant
                self.wf(),
                base + 6 <= self.table.len(),
                i <= 3,
                keys.len() == i,
                datas.len() == i,
            decreases BUCKET_SIZE - i,
        {
            keys.push(self.load_word(base + i * 2));
            datas.push(self.load_word(base + i * 2 + 1));
            i += 1;
        }
        let slot = Self::replacement_slot(hash, &keys, &datas, self.generation);
        assert(slot == replacement_choice(hash, keys@, datas@, self.spec_generation()));
        self.store_word(base + slot * 2 + 1, new_data);
        self.store_word(base + slot * 2, hash ^ new_data);
        slot
    }

    /// Per-mille use of the first (at most 1000) buckets: the data words of their slots are
    /// read in turn, and the share of them that are not empty and of the current generation
    /// is returned in thousandths, rounded down. What a read gives is not modelled, so the
    /// words read are stated to exist, not named.
    pub fn hashfull(&self) -> (r: u32)
        requires
            self.wf(),
        ensures
            r <= 1000,
            exists|datas: Seq<u64>|
                datas.len() == sample_size(self.spec_num_buckets()) * 3 && r as int == #[trigger] current_count(
                    datas,
                    self.spec_generation(),
                ) * 1000 / (sample_size(self.spec_num_buckets()) * 3),
    {
        let sample_buckets: usize = if self.num_buckets < 1000 {
            self.num_buckets
        } else {
            1000
        };
        let ghost mut datas: Seq<u64> = Seq::empty();
        let mut count: u32 = 0;
        let mut b: usize = 0;
        while b < sample_buckets
            invariant
                self.wf(),
                1 <= sample_buckets <= 1000,
                sample_buckets <= self.num_buckets,
                b <= sample_buckets,
                count <= b * 3,
                datas.len() == b * 3,
                count == current_count(datas, self.generation),
            decreases sample_buckets - b,
        {
            let base = b * BUCKET_SIZE * 2;
            let mut i: usize = 0;
            while i < BUCKET_SIZE
                invariant
                    self.wf(),
                    b < sample_buckets <= self.num_buckets,
                    base == b * 6,
                    sample_buckets <= 1000,
                    i <= 3,
                    count <= b * 3 + i,
                    datas.len() == b * 3 + i,
                    count == current_count(datas, self.generation),
                decreases BUCKET_SIZE - i,
            {
                let data = self.load_word(base + i * 2 + 1);
                let ghost before = datas;
                proof {
                    datas = datas.push(data);
                    assert(datas.drop_last() =~= before);
                }
                if data != 0 {
                    let entry_generation = Self::extract_generation(data);
                    if self.relative_age(entry_generation) == 0 {
                        count += 1;
                    }
                }
                i += 1;
            }
            b += 1;
        }
        let denom = (sample_buckets as u32) * 3;
        assert(count * 1000 <= denom * 1000) by (nonlinear_arith)
            requires
                count <= denom,
        ;
        let total = count * 1000;
        assert(total / denom <= 1000) by (nonlinear_arith)
            requires
                total <= denom * 1000,
                denom > 0,
        ;
        assert(sample_size(self.num_buckets) == sample_buckets);
        assert(total as int == current_count(datas, self.generation) * 1000);
        assert(denom as int == sample_size(self.num_buckets) * 3);
        assert(datas.len() == sample_size(self.num_buckets) * 3);
        let r = total / denom;
        assert(r as int == current_count(datas, self.spec_generation()) * 1000 / (sample_size(
            self.spec_num_buckets(),
        ) * 3));
        r
    }
}

/// Reading back a stored entry gives the clamped score, the depth, the bound and the best
/// move (when its target is below 1024 and its promotion code below 16), the generation
/// modulo 64 and the PV mark.
pub proof fn lemma_entry_roundtrip(
    score: i32,
    depth: u8,
    flag: Flag,
    best_move: Option<PackedMove>,
    is_pv: bool,
    generation: u8,
)
    requires
        best_move matches Some(m) ==> m.to_idx < 1024 && m.promotion < 16,
    ensures
        decode_spec(encode_spec(score, depth, flag, best_move, is_pv, generation)) == (
            clamp_score(score),
            depth,
            flag,
            match best_move {
                Some(m) => if m.from_idx != 0 || m.to_idx != 0 {
                    best_move
                } else {
                    None
                },
                None => None,
            },
        ),
        generation_of(encode_spec(score, depth, flag, best_move, is_pv, generation)) == generation
            & 0x3F,
        ((encode_spec(score, depth, flag, best_move, is_pv, generation) >> 63u64) & 1 == 1)
            == is_pv,
{
    let c = clamp_score(score);
    let sp: u64 = (c as i16) as u16 as u64;
    let dp: u64 = depth as u64;
    let fc: u64 = flag_code(flag);
    let mb: u64 = move_bits(best_move);
    let g: u64 = generation as u64;
    let pv: u64 = if is_pv {
        0x8000_0000_0000_0000u64
    } else {
        0u64
    };
    let data = sp | (dp << 16u64) | (fc << 24u64) | mb | ((g & 0x3F) << 56u64) | pv;
    assert(data == encode_spec(score, depth, flag, best_move, is_pv, generation));
    let (pr, fr, to): (u64, u64, u64) = match best_move {
        Some(m) => (m.promotion as u64, m.from_idx as u64, m.to_idx as u64),
        None => (0, 0, 0),
    };
    match best_move {
        Some(m) => {},
        None => {
            assert(((0u64 & 0xF) << 26u64) | (0u64 << 30u64) | (0u64 << 46u64) == 0u64) by (bit_vector);
        },
    }
    assert(mb == ((pr & 0xF) << 26u64) | (fr << 30u64) | (to << 46u64));
    assert(-32767 <= c <= 32766);
    assert(((c as i16) as u16 as u64) as i16 as i32 == c || !(-32768 <= c <= 32767)) by (bit_vector);
    assert({
        &&& (data & 0xFFFF) == sp
        &&& ((data >> 16u64) & 0xFF) == dp
        &&& ((data >> 24u64) & 0x3) == fc
        &&& ((data >> 26u64) & 0xF) == pr
        &&& ((data >> 30u64) & 0xFFFF) == fr
        &&& ((data >> 46u64) & 0x3FF) == to
        &&& ((data >> 56u64) & 0x3F) == (g & 0x3F)
        &&& ((data >> 63u64) & 1 == 1) == (pv != 0)
    }) by (bit_vector)
        requires
            sp < 0x10000,
            dp < 0x100,
            fc < 3,
            pr < 16,
            fr < 0x10000,
            to < 1024,
            pv == 0 || pv == 0x8000_0000_0000_0000u64,
            mb == ((pr & 0xF) << 26u64) | (fr << 30u64) | (to << 46u64),
            data == sp | (dp << 16u64) | (fc << 24u64) | mb | ((g & 0x3F) << 56u64) | pv,
    ;
    assert(((data & 0xFFFF) as i16 as i32) == c) by {
        assert((data & 0xFFFF) == sp);
    }
}

} // verus!
