//! Blocks of data and the hashing of their values.
use crate::hasher::{hasher_input, hasher_mode};
use crate::time::Timestamp;
use blake3::Hasher;
use vstd::prelude::*;

verus! {

/// The values of one field, each with its timestamp.
#[derive(Debug)]
#[allow(inconsistent_fields)]
pub enum DataBlock {
    U64 { ts: Vec<Timestamp>, val: Vec<u64> },
    I64 { ts: Vec<Timestamp>, val: Vec<i64> },
    /// Floating point values by their bits, as `f64::to_bits` gives them.
    F64 { ts: Vec<Timestamp>, val: Vec<u64> },
    Str { ts: Vec<Timestamp>, val: Vec<Vec<u8>> },
    Bool { ts: Vec<Timestamp>, val: Vec<bool> },
}

/// The eight bytes of a number below 2^64, the most significant one first.
pub open spec fn be_bytes(n: nat) -> Seq<u8> {
    seq![
        (n / 0x100_0000_0000_0000 % 256) as u8,
        (n / 0x1_0000_0000_0000 % 256) as u8,
        (n / 0x100_0000_0000 % 256) as u8,
        (n / 0x1_0000_0000 % 256) as u8,
        (n / 0x100_0000 % 256) as u8,
        (n / 0x1_0000 % 256) as u8,
        (n / 0x100 % 256) as u8,
        (n % 256) as u8,
    ]
}

/// A signed number in two's complement.
pub open spec fn twos_complement(i: i64) -> nat {
    if i < 0 {
        (i + 0x1_0000_0000_0000_0000) as nat
    } else {
        i as nat
    }
}

impl DataBlock {
    /// The timestamps of the block.
    pub open spec fn timestamps(self) -> Seq<Timestamp> {
        match self {
            DataBlock::U64 { ts, .. } => ts@,
            DataBlock::I64 { ts, .. } => ts@,
            DataBlock::F64 { ts, .. } => ts@,
            DataBlock::Str { ts, .. } => ts@,
            DataBlock::Bool { ts, .. } => ts@,
        }
    }

    /// The number of values of the block.
    pub open spec fn num_values(self) -> nat {
        match self {
            DataBlock::U64 { val, .. } => val@.len(),
            DataBlock::I64 { val, .. } => val@.len(),
            DataBlock::F64 { val, .. } => val@.len(),
            DataBlock::Str { val, .. } => val@.len(),
            DataBlock::Bool { val, .. } => val@.len(),
        }
    }

    /// The bytes that stand for one value: a number in big endian order, a string as it is, a
    /// truth value as one or zero.
    pub open spec fn value_bytes(self, i: int) -> Seq<u8> {
        match self {
            DataBlock::U64 { val, .. } => be_bytes(val@[i] as nat),
            DataBlock::I64 { val, .. } => be_bytes(twos_complement(val@[i])),
            DataBlock::F64 { val, .. } => be_bytes(val@[i] as nat),
            DataBlock::Str { val, .. } => val@[i]@,
            DataBlock::Bool { val, .. } => if val@[i] {
                seq![1u8]
            } else {
                seq![0u8]
            },
        }
    }

    /// The bytes of the values from one position up to another, one after the other.
    pub open spec fn bytes(self, from: int, to: int) -> Seq<u8>
        decreases to - from,
    {
        if from >= to {
            Seq::empty()
        } else {
            self.bytes(from, to - 1) + self.value_bytes(to - 1)
        }
    }

    /// The first and the last timestamp, where the block has any.
    pub open spec fn span(self) -> Option<(Timestamp, Timestamp)> {
        let ts = self.timestamps();
        if ts.len() == 0 {
            None
        } else {
            Some((ts.first(), ts.last()))
        }
    }

    /// Whether there is one value for each timestamp and the timestamps ascend.
    pub open spec fn wf(self) -> bool {
        &&& self.num_values() == self.timestamps().len()
        &&& ascending(self.timestamps())
    }

    fn ts(&self) -> (ts: &Vec<Timestamp>)
        ensures
            ts@ == self.timestamps(),
    {
        match self {
            DataBlock::U64 { ts, .. } => ts,
            DataBlock::I64 { ts, .. } => ts,
            DataBlock::F64 { ts, .. } => ts,
            DataBlock::Str { ts, .. } => ts,
            DataBlock::Bool { ts, .. } => ts,
        }
    }

    fn val_len(&self) -> (len: usize)
        ensures
            len == self.num_values(),
    {
        match self {
            DataBlock::U64 { val, .. } => val.len(),
            DataBlock::I64 { val, .. } => val.len(),
            DataBlock::F64 { val, .. } => val.len(),
            DataBlock::Str { val, .. } => val.len(),
            DataBlock::Bool { val, .. } => val.len(),
        }
    }

    /// The first and the last timestamp of the block, where it has any.
    pub fn time_range(&self) -> (range: Option<(Timestamp, Timestamp)>)
        ensures
            range == self.span(),
    {
        let ts = self.ts();
        if ts.len() == 0 {
            None
        } else {
            Some((ts[0], ts[ts.len() - 1]))
        }
    }

    /// Feeds one value to the hasher.
    fn hash_value(&self, hasher: &mut Hasher, i: usize)
        requires
            i < self.num_values(),
        ensures
            hasher_input(*final(hasher)) == hasher_input(*old(hasher)) + self.value_bytes(i as int),
            hasher_mode(*final(hasher)) == hasher_mode(*old(hasher)),
    {
        match self {
            DataBlock::U64 { val, .. } => {
                hasher.update(to_be_bytes(val[i]).as_slice());
            },
            DataBlock::I64 { val, .. } => {
                let v: i64 = val[i];
                proof {
                    assert(v < 0 ==> v as u64 == v + 0x1_0000_0000_0000_0000) by (bit_vector);
                }
                hasher.update(to_be_bytes(#[verifier::truncate] (v as u64)).as_slice());
            },
            DataBlock::F64 { val, .. } => {
                hasher.update(to_be_bytes(val[i]).as_slice());
            },
            DataBlock::Str { val, .. } => {
                hasher.update(val[i].as_slice());
            },
            DataBlock::Bool { val, .. } => {
                let byte: [u8; 1] = if val[i] {
                    [1]
                } else {
                    [0]
                };
                hasher.update(byte.as_slice());
                assert(byte@ =~= self.value_bytes(i as int));
            },
        }
    }
}

/// The eight bytes of a number, the most significant one first.
fn to_be_bytes(n: u64) -> (bytes: [u8; 8])
    ensures
        bytes@ == be_bytes(n as nat),
{
    let bytes: [u8; 8] = [
        (n / 0x100_0000_0000_0000 % 256) as u8,
        (n / 0x1_0000_0000_0000 % 256) as u8,
        (n / 0x100_0000_0000 % 256) as u8,
        (n / 0x1_0000_0000 % 256) as u8,
        (n / 0x100_0000 % 256) as u8,
        (n / 0x1_0000 % 256) as u8,
        (n / 0x100 % 256) as u8,
        (n % 256) as u8,
    ];
    assert(bytes@ =~= be_bytes(n as nat));
    bytes
}

/// Whether no timestamp comes after a later one.
pub open spec fn ascending(ts: Seq<Timestamp>) -> bool {
    forall|i: int, j: int| 0 <= i <= j < ts.len() ==> ts[i] <= ts[j]
}

/// Where a bisection of the `size` positions from `base` ends: as long as there is more than one,
/// it keeps the half from the middle on, or the half before it where the timestamp in the middle
/// is after the target.
pub open spec fn bisect(ts: Seq<Timestamp>, target: Timestamp, base: int, size: int) -> int
    decreases size,
{
    if size <= 1 {
        base
    } else {
        let half = size / 2;
        bisect(
            ts,
            target,
            if ts[base + half] > target {
                base
            } else {
                base + half
            },
            size - half,
        )
    }
}

/// The position of a timestamp: where it is found, or else where it could be put.
pub open spec fn search_position(ts: Seq<Timestamp>, target: Timestamp) -> int {
    if ts.len() == 0 {
        0
    } else {
        let last = bisect(ts, target, 0, ts.len() as int);
        if ts[last] < target {
            last + 1
        } else {
            last
        }
    }
}

/// The position up to which timestamps come before `max_timestamp`; the smallest timestamp there
/// is stands for no limit.
pub open spec fn timestamp_position(ts: Seq<Timestamp>, max_timestamp: Timestamp) -> int {
    if max_timestamp == Timestamp::MIN {
        ts.len() as int
    } else {
        search_position(ts, max_timestamp)
    }
}

/// The bisection stays within its window and, in ascending timestamps, leaves before it only what
/// is not after the target, and behind it only what is.
proof fn lemma_bisect(ts: Seq<Timestamp>, target: Timestamp, base: int, size: int)
    requires
        0 <= base,
        0 < size,
        base + size <= ts.len(),
    ensures
        base <= bisect(ts, target, base, size) < base + size,
        ascending(ts) && (base == 0 || ts[base] <= target) && (base + size == ts.len()
            || ts[base + size] > target) ==> {
            let last = bisect(ts, target, base, size);
            &&& last == 0 || ts[last] <= target
            &&& last + 1 == ts.len() || ts[last + 1] > target
        },
    decreases size,
{
    if size > 1 {
        let half = size / 2;
        if ts[base + half] > target {
            lemma_bisect(ts, target, base, size - half);
            if size - half > half {
                assert(size - half == half + 1);
            }
        } else {
            lemma_bisect(ts, target, base + half, size - half);
        }
    }
}

/// In ascending timestamps, a timestamp that is there is found, what comes before its position is
/// not after it, and what comes from its position on is not before it. Where no two timestamps
/// are equal, all that comes before its position is before it.
pub proof fn law_search_position(ts: Seq<Timestamp>, target: Timestamp)
    requires
        ascending(ts),
    ensures
        0 <= search_position(ts, target) <= ts.len(),
        forall|i: int| 0 <= i < search_position(ts, target) ==> ts[i] <= target,
        forall|i: int| search_position(ts, target) <= i < ts.len() ==> ts[i] >= target,
        ts.contains(target) ==> search_position(ts, target) < ts.len() && ts[search_position(
            ts,
            target,
        )] == target,
        ts.no_duplicates() ==> forall|i: int|
            0 <= i < search_position(ts, target) ==> ts[i] < target,
{
    if ts.len() > 0 {
        lemma_bisect(ts, target, 0, ts.len() as int);
    }
}

/// The position of `max_timestamp` in ascending timestamps: where it is found, or else where it
/// could be put without breaking the order. `Timestamp::MIN` stands for no limit.
pub fn find_timestamp(timestamps: &[Timestamp], max_timestamp: Timestamp) -> (position: usize)
    ensures
        position == timestamp_position(timestamps@, max_timestamp),
        position <= timestamps@.len(),
        ascending(timestamps@) && max_timestamp != Timestamp::MIN ==> {
            &&& forall|i: int| 0 <= i < position ==> timestamps@[i] <= max_timestamp
            &&& forall|i: int| position <= i < timestamps@.len() ==> timestamps@[i] >= max_timestamp
            &&& timestamps@.contains(max_timestamp) ==> position < timestamps@.len()
                && timestamps@[position as int] == max_timestamp
        },
{
    proof {
        if ascending(timestamps@) {
            law_search_position(timestamps@, max_timestamp);
        }
    }
    if max_timestamp != Timestamp::MIN {
        let len: usize = timestamps.len();
        if len == 0 {
            return 0;
        }
        let mut size: usize = len;
        let mut base: usize = 0;
        while size > 1
            invariant
                0 < size,
                base + size <= len,
                len == timestamps@.len(),
                bisect(timestamps@, max_timestamp, base as int, size as int) == bisect(
                    timestamps@,
                    max_timestamp,
                    0,
                    timestamps@.len() as int,
                ),
            decreases size,
        {
            let half: usize = size / 2;
            if timestamps[base + half] <= max_timestamp {
                base += half;
            }
            size -= half;
        }
        if timestamps[base] < max_timestamp {
            base + 1
        } else {
            base
        }
    } else {
        timestamps.len()
    }
}

/// The position at which the hashing of a block from `min_idx` on stops.
pub open spec fn hash_limit(block: DataBlock, min_idx: int, max_timestamp: Timestamp) -> int {
    min_idx + timestamp_position(block.timestamps().skip(min_idx), max_timestamp)
}

/// The bytes that the hashing of a block from `min_idx` on feeds to the hasher: those of as many
/// values as the limit says, as far as there are that many.
pub open spec fn partial_bytes(block: DataBlock, min_idx: int, max_timestamp: Timestamp) -> Seq<u8> {
    let end = min_idx + hash_limit(block, min_idx, max_timestamp);
    block.bytes(
        min_idx,
        if end < block.num_values() {
            end
        } else {
            block.num_values() as int
        },
    )
}

/// Feeds the values of a block to the hasher, from `min_idx` on, and returns the position of
/// `max_timestamp` among the timestamps from there on, counted from the start of the block. The
/// number of values that are hashed is that position, as far as there are that many.
pub fn hash_partial_datablock(
    hasher: &mut Hasher,
    data_block: &DataBlock,
    min_idx: usize,
    max_timestamp: Timestamp,
) -> (limit: usize)
    requires
        min_idx <= data_block.timestamps().len(),
    ensures
        limit == hash_limit(*data_block, min_idx as int, max_timestamp),
        min_idx <= limit <= data_block.timestamps().len(),
        hasher_input(*final(hasher)) == hasher_input(*old(hasher)) + partial_bytes(
            *data_block,
            min_idx as int,
            max_timestamp,
        ),
        hasher_mode(*final(hasher)) == hasher_mode(*old(hasher)),
{
    let ts = data_block.ts();
    let rest = vstd::slice::slice_subrange(ts.as_slice(), min_idx, ts.len());
    assert(rest@ =~= data_block.timestamps().skip(min_idx as int));
    let limit: usize = min_idx + find_timestamp(rest, max_timestamp);
    let len: usize = data_block.val_len();
    let end: usize = if min_idx >= len || len - min_idx <= limit {
        len
    } else {
        min_idx + limit
    };
    let mut i: usize = min_idx;
    while i < end
        invariant
            end <= data_block.num_values(),
            min_idx <= i,
            i <= end || i == min_idx,
            hasher_input(*hasher) == hasher_input(*old(hasher)) + data_block.bytes(
                min_idx as int,
                i as int,
            ),
            hasher_mode(*hasher) == hasher_mode(*old(hasher)),
        decreases end - i,
    {
        data_block.hash_value(hasher, i);
        i += 1;
        assert(hasher_input(*hasher) =~= hasher_input(*old(hasher)) + data_block.bytes(
            min_idx as int,
            i as int,
        ));
    }
    limit
}

/// The bytes of a stretch of values are those of its two parts, wherever it is cut.
pub proof fn law_bytes_split(block: DataBlock, from: int, mid: int, to: int)
    requires
        from <= mid <= to,
    ensures
        block.bytes(from, to) == block.bytes(from, mid) + block.bytes(mid, to),
    decreases to - mid,
{
    if mid < to {
        law_bytes_split(block, from, mid, to - 1);
        assert(block.bytes(from, to) =~= block.bytes(from, mid) + block.bytes(mid, to));
    } else {
        assert(block.bytes(from, to) =~= block.bytes(from, mid) + block.bytes(mid, to));
    }
}

/// Hashing a block up to a timestamp, and then from the position that this returned to the end,
/// feeds every value once: together the two give the bytes of the whole block. (It has no more
/// values than timestamps.)
pub proof fn law_partial_hashes_cover(block: DataBlock, max_timestamp: Timestamp)
    requires
        block.num_values() <= block.timestamps().len(),
    ensures
        partial_bytes(block, 0, max_timestamp) + partial_bytes(
            block,
            hash_limit(block, 0, max_timestamp),
            Timestamp::MIN,
        ) == block.bytes(0, block.num_values() as int),
{
    let ts = block.timestamps();
    let len = block.num_values() as int;
    assert(ts.skip(0) =~= ts);
    if ts.len() > 0 {
        lemma_bisect(ts, max_timestamp, 0, ts.len() as int);
    }
    let mid = hash_limit(block, 0, max_timestamp);
    if mid <= len {
        law_bytes_split(block, 0, mid, len);
    } else {
        assert(block.bytes(0, len) + block.bytes(mid, len) =~= block.bytes(0, len));
    }
}

/// With ascending timestamps, all different, hashing a block up to a timestamp feeds exactly the
/// values whose timestamps come before it.
pub proof fn law_partial_hash_takes_earlier(block: DataBlock, max_timestamp: Timestamp)
    requires
        block.wf(),
        block.timestamps().no_duplicates(),
        max_timestamp != Timestamp::MIN,
    ensures
        ({
            let limit = hash_limit(block, 0, max_timestamp);
            &&& partial_bytes(block, 0, max_timestamp) == block.bytes(0, limit)
            &&& forall|i: int|
                0 <= i < block.num_values() ==> (i < limit <==> #[trigger] block.timestamps()[i]
                    < max_timestamp)
        }),
{
    let ts = block.timestamps();
    assert(ts.skip(0) =~= ts);
    law_search_position(ts, max_timestamp);
}

/// The number whose bytes are given, the most significant one first.
pub open spec fn be_number(bytes: Seq<u8>) -> int {
    bytes[0] * 0x100_0000_0000_0000 + bytes[1] * 0x1_0000_0000_0000 + bytes[2] * 0x100_0000_0000
        + bytes[3] * 0x1_0000_0000 + bytes[4] * 0x100_0000 + bytes[5] * 0x1_0000 + bytes[6] * 0x100
        + bytes[7]
}

/// The eight bytes of a number below 2^64 give the number back, so that different numbers have
/// different bytes.
pub proof fn law_be_bytes(n: nat, other: nat)
    requires
        n < 0x1_0000_0000_0000_0000,
        other < 0x1_0000_0000_0000_0000,
    ensures
        be_bytes(n).len() == 8,
        be_number(be_bytes(n)) == n,
        be_bytes(n) == be_bytes(other) ==> n == other,
{
    lemma_be_number(n);
    lemma_be_number(other);
}

proof fn lemma_be_number(n: nat)
    requires
        n < 0x1_0000_0000_0000_0000,
    ensures
        be_number(be_bytes(n)) == n,
{
    let a = n / 0x100;
    let b = a / 0x100;
    let c = b / 0x100;
    let d = c / 0x100;
    let e = d / 0x100;
    let f = e / 0x100;
    let g = f / 0x100;
    assert(n / 0x1_0000 == b);
    assert(n / 0x100_0000 == c);
    assert(n / 0x1_0000_0000 == d);
    assert(n / 0x100_0000_0000 == e);
    assert(n / 0x1_0000_0000_0000 == f);
    assert(n / 0x100_0000_0000_0000 == g);
}

/// The bytes of a value give the value back: those of a number as eight bytes, a negative one less
/// by 2^64; those of a string are its own; a truth value has one byte, one or zero.
pub proof fn law_value_bytes(block: DataBlock, i: int)
    requires
        0 <= i < block.num_values(),
    ensures
        match block {
            DataBlock::U64 { val, .. } => block.value_bytes(i).len() == 8 && be_number(
                block.value_bytes(i),
            ) == val@[i],
            DataBlock::I64 { val, .. } => block.value_bytes(i).len() == 8 && be_number(
                block.value_bytes(i),
            ) == (if val@[i] < 0 {
                val@[i] + 0x1_0000_0000_0000_0000
            } else {
                val@[i] as int
            }),
            DataBlock::F64 { val, .. } => block.value_bytes(i).len() == 8 && be_number(
                block.value_bytes(i),
            ) == val@[i],
            DataBlock::Str { val, .. } => block.value_bytes(i) == val@[i]@,
            DataBlock::Bool { val, .. } => {
                &&& block.value_bytes(i).len() == 1
                &&& val@[i] ==> block.value_bytes(i)[0] == 1
                &&& !val@[i] ==> block.value_bytes(i)[0] == 0
            },
        },
{
    match block {
        DataBlock::U64 { val, .. } => lemma_be_number(val@[i] as nat),
        DataBlock::I64 { val, .. } => lemma_be_number(twos_complement(val@[i])),
        DataBlock::F64 { val, .. } => lemma_be_number(val@[i] as nat),
        _ => {},
    }
}

/// A block has the timestamps and as many values as were put into it, and spans the time from the
/// first timestamp to the last.
pub proof fn law_block_parts(block: DataBlock)
    ensures
        match block {
            DataBlock::U64 { ts, val } => block.timestamps() == ts@ && block.num_values()
                == val@.len(),
            DataBlock::I64 { ts, val } => block.timestamps() == ts@ && block.num_values()
                == val@.len(),
            DataBlock::F64 { ts, val } => block.timestamps() == ts@ && block.num_values()
                == val@.len(),
            DataBlock::Str { ts, val } => block.timestamps() == ts@ && block.num_values()
                == val@.len(),
            DataBlock::Bool { ts, val } => block.timestamps() == ts@ && block.num_values()
                == val@.len(),
        },
        block.span() is None <==> block.timestamps().len() == 0,
        block.span() matches Some((first, last)) ==> first == block.timestamps()[0] && last
            == block.timestamps()[block.timestamps().len() - 1],
{
}

/// A stretch of one value has the bytes of the value; an empty one has none.
pub proof fn law_bytes_of_one(block: DataBlock, i: int)
    ensures
        block.bytes(i, i) == Seq::<u8>::empty(),
        block.bytes(i, i + 1) == block.value_bytes(i),
{
    assert(block.bytes(i, i) =~= Seq::empty());
    assert(block.bytes(i, i + 1) =~= block.value_bytes(i));
}

/// From any position on, the hashing of a block stops within the block; with no limit, at its end.
/// In ascending timestamps nothing before that position is after the limit, and nothing from there
/// on is before it; where the timestamps are all different, exactly those before it are before the
/// limit.
pub proof fn law_hash_limit(block: DataBlock, min_idx: int, max_timestamp: Timestamp)
    requires
        0 <= min_idx <= block.timestamps().len(),
    ensures
        ({
            let ts = block.timestamps();
            let limit = hash_limit(block, min_idx, max_timestamp);
            &&& min_idx <= limit <= ts.len()
            &&& max_timestamp == i64::MIN ==> limit == ts.len()
            &&& ascending(ts) && max_timestamp != i64::MIN ==> forall|i: int|
                min_idx <= i < ts.len() ==> (i < limit ==> (#[trigger] ts[i]) <= max_timestamp) && (
                limit <= i ==> ts[i] >= max_timestamp)
            &&& ascending(ts) && ts.no_duplicates() && max_timestamp != i64::MIN ==> forall|i: int|
                min_idx <= i < ts.len() ==> (i < limit <==> #[trigger] ts[i] < max_timestamp)
        }),
{
    let ts = block.timestamps();
    let rest = ts.skip(min_idx);
    let limit = hash_limit(block, min_idx, max_timestamp);
    if rest.len() > 0 {
        lemma_bisect(rest, max_timestamp, 0, rest.len() as int);
    }
    if ascending(ts) && max_timestamp != i64::MIN {
        law_search_position(rest, max_timestamp);
        assert forall|i: int| min_idx <= i < ts.len() implies (i < limit ==> (#[trigger] ts[i])
            <= max_timestamp) && (limit <= i ==> ts[i] >= max_timestamp) by {
            assert(rest[i - min_idx] == ts[i]);
        }
        if ts.no_duplicates() {
            assert forall|i: int| min_idx <= i < ts.len() implies (i < limit <==> #[trigger] ts[i]
                < max_timestamp) by {
                assert(rest[i - min_idx] == ts[i]);
            }
        }
    }
}

/// The hashing of a block from a position on takes the values from there on, as many as the
/// position at which it stops says, and no more than there are; without a limit it takes them all.
pub proof fn law_partial_bytes(block: DataBlock, min_idx: int, max_timestamp: Timestamp, end: int)
    requires
        0 <= min_idx <= block.timestamps().len(),
        block.num_values() <= block.timestamps().len(),
    ensures
        end == min_idx + hash_limit(block, min_idx, max_timestamp) && end <= block.num_values()
            ==> partial_bytes(block, min_idx, max_timestamp) == block.bytes(min_idx, end),
        min_idx + hash_limit(block, min_idx, max_timestamp) >= block.num_values()
            ==> partial_bytes(block, min_idx, max_timestamp) == block.bytes(
            min_idx,
            block.num_values() as int,
        ),
        partial_bytes(block, min_idx, i64::MIN) == block.bytes(min_idx, block.num_values() as int),
{
}

} // verus!
