//! Block layouts of the sequential and random disk benchmarks: the bytes of
//! a block, the chunks of a sequential write, and the random block offsets.

use vstd::prelude::*;
use rand::Rng;

verus! {

/// The bytes in a mebibyte.
pub const MIB: usize = 1048576;

/// The bytes in `file_size` MiB, when they fit in a `usize`.
pub fn mib_bytes(file_size: usize) -> (r: Option<usize>)
    ensures
        file_size * MIB <= usize::MAX ==> r == Some((file_size * MIB) as usize),
        file_size * MIB > usize::MAX ==> r is None,
{
    if file_size > usize::MAX / MIB {
        None
    } else {
        Some(file_size * MIB)
    }
}

/// The value of byte `i` of a block: the low byte of `(i * 131 mod 2^32) ^ 0xA5`,
/// with `i` taken as a `u32`.
pub open spec fn pattern_byte(i: int) -> u8 {
    let x = i as u32;
    ((x.wrapping_mul(131u32) ^ 0xA5u32) % 256) as u8
}

/// Fills `buf` with the block pattern.
pub fn fill_bytes(buf: &mut [u8])
    ensures
        final(buf)@.len() == old(buf)@.len(),
        forall|i: int| 0 <= i < final(buf)@.len() ==> #[trigger] final(buf)@[i] == pattern_byte(i),
{
    let n = buf.len();
    for i in 0..n
        invariant
            n == buf@.len(),
            buf@.len() == old(buf)@.len(),
            forall|k: int| 0 <= k < i ==> #[trigger] buf@[k] == pattern_byte(k),
    {
        let x = i as u32;
        let b = ((x.wrapping_mul(131) ^ 0xA5) % 256) as u8;
        buf[i] = b;
    }
}

/// Why a disk benchmark cannot lay out its file.
#[derive(PartialEq, Eq, Structural, Clone, Copy, Debug)]
pub enum DiskPlanError {
    /// The file size in bytes does not fit in a `usize`.
    SizeOverflow,
    /// The block size is zero while the file is not empty.
    ZeroBlockSize,
}

/// The layout of the random-access benchmark: whole blocks of `block_size`
/// bytes in a file of `total_bytes` bytes.
pub struct RandomAccessPlan {
    pub block_size: usize,
    pub total_bytes: usize,
    pub num_blocks: usize,
}

/// Lays out the random-access benchmark: a file of `file_size` MiB holding
/// as many whole blocks of `byte_size` bytes as fit.
pub fn random_access_plan(byte_size: usize, file_size: usize) -> (r: Result<
    RandomAccessPlan,
    DiskPlanError,
>)
    ensures
        file_size * MIB > usize::MAX ==> (r matches Err(e) && e == DiskPlanError::SizeOverflow),
        file_size * MIB <= usize::MAX && byte_size == 0 ==> (r matches Err(e) && e
            == DiskPlanError::ZeroBlockSize),
        file_size * MIB <= usize::MAX && byte_size > 0 ==> (r matches Ok(p) && p.block_size
            == byte_size && p.total_bytes == file_size * MIB && p.num_blocks == p.total_bytes
            / byte_size),
{
    let total_bytes = match mib_bytes(file_size) {
        Some(t) => t,
        None => {
            return Err(DiskPlanError::SizeOverflow);
        },
    };
    if byte_size == 0 {
        return Err(DiskPlanError::ZeroBlockSize);
    }
    Ok(RandomAccessPlan { block_size: byte_size, total_bytes, num_blocks: total_bytes / byte_size })
}

/// `rand::Rng::gen_range(0, upper)` on the thread-local generator: a
/// random number below `upper`. Which one is up to the generator.
#[verifier::external_body]
fn random_below(upper: usize) -> (r: usize)
    requires
        upper > 0,
    ensures
        r < upper,
{
    rand::thread_rng().gen_range(0, upper)
}

/// The offset of block `k` in blocks of `block_size` bytes.
pub open spec fn block_start(k: int, block_size: int) -> int {
    k * block_size
}

/// The offset of a randomly chosen block: a multiple of `block_size` whose
/// block lies within the `num_blocks` blocks.
pub fn random_block_offset(block_size: usize, num_blocks: usize) -> (off: u64)
    requires
        num_blocks > 0,
        num_blocks * block_size <= usize::MAX,
    ensures
        exists|k: int| 0 <= k < num_blocks && off == #[trigger] block_start(k, block_size as int),
        off + block_size <= num_blocks * block_size,
{
    let k = random_below(num_blocks);
    block_offset(k, block_size, num_blocks)
}

/// The offset of block `k` of `block_size` bytes, which lies within the
/// `num_blocks` blocks of the file.
pub fn block_offset(k: usize, block_size: usize, num_blocks: usize) -> (off: u64)
    requires
        k < num_blocks,
        num_blocks * block_size <= usize::MAX,
    ensures
        off == block_start(k as int, block_size as int),
        off + block_size <= num_blocks * block_size,
{
    assert(k * block_size + block_size <= num_blocks * block_size) by (nonlinear_arith)
        requires
            k < num_blocks,
    ;
    (k * block_size) as u64
}

/// The chunks that write `remaining` bytes in blocks of `block` bytes: whole
/// blocks, the last one cut short.
pub open spec fn chunk_plan(block: nat, remaining: nat) -> Seq<nat>
    decreases remaining,
{
    if remaining == 0 || block == 0 {
        Seq::empty()
    } else {
        let len = if block < remaining {
            block
        } else {
            remaining
        };
        seq![len].add(chunk_plan(block, (remaining - len) as nat))
    }
}

/// The bytes in a list of chunks.
pub open spec fn plan_total(s: Seq<nat>) -> int
    decreases s.len(),
{
    if s.len() == 0 {
        0
    } else {
        s[0] + plan_total(s.drop_first())
    }
}

/// The chunks of a sequential write cover the file exactly: they add up to
/// the bytes to write, none is empty or larger than a block, and all but the
/// last are whole blocks.
pub proof fn lemma_chunk_plan_covers(block: nat, remaining: nat)
    requires
        block > 0,
    ensures
        plan_total(chunk_plan(block, remaining)) == remaining,
        forall|k: int| 0 <= k < chunk_plan(block, remaining).len() ==> 0 < #[trigger] chunk_plan(
            block,
            remaining,
        )[k] <= block,
        forall|k: int|
            0 <= k < chunk_plan(block, remaining).len() - 1 ==> #[trigger] chunk_plan(block, remaining)[k]
                == block,
    decreases remaining,
{
    if remaining > 0 {
        let len: nat = if block < remaining {
            block
        } else {
            remaining
        };
        let rest = (remaining - len) as nat;
        lemma_chunk_plan_covers(block, rest);
        let p = chunk_plan(block, remaining);
        assert(p.drop_first() =~= chunk_plan(block, rest));
        assert forall|k: int| 0 <= k < p.len() - 1 implies #[trigger] p[k] == block by {
            if k > 0 {
                assert(p[k] == chunk_plan(block, rest)[k - 1]);
            } else if rest > 0 {
                assert(len == block);
            }
        }
        assert forall|k: int| 0 <= k < p.len() implies 0 < #[trigger] p[k] <= block by {
            if k > 0 {
                assert(p[k] == chunk_plan(block, rest)[k - 1]);
            }
        }
    }
}

/// The progress of the sequential write: blocks of `block_size` bytes, the
/// last one cut short, until `total_bytes` are written.
pub struct SequentialWrite {
    block_size: usize,
    total_bytes: usize,
    written: usize,
}

impl View for SequentialWrite {
    type V = (nat, nat, nat);

    closed spec fn view(&self) -> (nat, nat, nat) {
        (self.block_size as nat, self.total_bytes as nat, self.written as nat)
    }
}

impl SequentialWrite {
    /// The write never passes the end of the file, and makes progress while
    /// bytes remain.
    pub open spec fn wf(&self) -> bool {
        &&& self@.2 <= self@.1
        &&& self@.0 > 0 || self@.1 == 0
    }

    /// Starts writing a file of `file_size` MiB in blocks of `byte_size` bytes.
    /// A zero block size with a non-empty file would never finish.
    pub fn new(byte_size: usize, file_size: usize) -> (r: Result<SequentialWrite, DiskPlanError>)
        ensures
            file_size * MIB > usize::MAX ==> (r matches Err(e) && e == DiskPlanError::SizeOverflow),
            file_size * MIB <= usize::MAX && byte_size == 0 && file_size > 0 ==> (r matches Err(e)
                && e == DiskPlanError::ZeroBlockSize),
            file_size * MIB <= usize::MAX && (byte_size > 0 || file_size == 0) ==> (r matches Ok(w)
                && w@ == (byte_size as nat, (file_size * MIB) as nat, 0nat) && w.wf()),
    {
        let total_bytes = match mib_bytes(file_size) {
            Some(t) => t,
            None => {
                return Err(DiskPlanError::SizeOverflow);
            },
        };
        if byte_size == 0 && total_bytes > 0 {
            return Err(DiskPlanError::ZeroBlockSize);
        }
        Ok(SequentialWrite { block_size: byte_size, total_bytes, written: 0 })
    }

    /// The size of the next chunk to write, or nothing when the file is
    /// complete: a whole block, or what remains when that is less.
    pub fn next_chunk(&mut self) -> (r: Option<usize>)
        requires
            old(self).wf(),
        ensures
            final(self).wf(),
            final(self)@.0 == old(self)@.0,
            final(self)@.1 == old(self)@.1,
            old(self)@.2 == old(self)@.1 ==> r is None && final(self)@ == old(self)@,
            old(self)@.2 < old(self)@.1 ==> ({
                let remaining = old(self)@.1 - old(self)@.2;
                let len = if old(self)@.0 < remaining {
                    old(self)@.0 as int
                } else {
                    remaining
                };
                &&& r == Some(len as usize)
                &&& 0 < len <= old(self)@.0
                &&& final(self)@.2 == old(self)@.2 + len
            }),
            chunk_plan(old(self)@.0, (old(self)@.1 - old(self)@.2) as nat) == match r {
                Some(len) => seq![len as nat].add(
                    chunk_plan(final(self)@.0, (final(self)@.1 - final(self)@.2) as nat),
                ),
                None => Seq::<nat>::empty(),
            },
    {
        if self.written >= self.total_bytes {
            return None;
        }
        let remaining = self.total_bytes - self.written;
        let len = if self.block_size < remaining {
            self.block_size
        } else {
            remaining
        };
        self.written = self.written + len;
        Some(len)
    }
}

} // verus!
