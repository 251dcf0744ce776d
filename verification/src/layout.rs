use crate::stable::{stable_grow_memory_page, StableMemory, MAX_PAGE_BYTE, RESERVED_PAGE};
use crate::types::{KvError, Layout};
use vstd::prelude::*;

verus! {

/// Largest number of bytes the backing memory may ever reach under the
/// default configuration: an 8 GiB ceiling.
pub const THRESHOLD: u64 = 8589934592;

/// Bytes of the reserved header region under the default configuration.
pub const RESERVED_SPACE: u64 = RESERVED_PAGE * MAX_PAGE_BYTE;

/// Bytes per block.
pub const KV_BLOCK_SIZE: u64 = 512;

/// True when `b` occurs in `blocks`.
pub open spec fn in_list(blocks: Seq<u64>, b: int) -> bool {
    exists|i: int| 0 <= i < blocks.len() && blocks[i] as int == b
}

/// True when every block of `blocks` is already backed by the
/// provisioned growth units of `l`.
pub open spec fn all_covered(l: Layout, blocks: Seq<u64>) -> bool {
    forall|i: int| 0 <= i < blocks.len() ==> l.block_covered(#[trigger] blocks[i] as int)
}

/// True when `b` occurs among the first `n` entries of `blocks`.
pub open spec fn in_prefix(blocks: Seq<u64>, n: int, b: int) -> bool {
    exists|i: int| 0 <= i < n && i < blocks.len() && blocks[i] as int == b
}

/// Extending a prefix by one entry adds exactly that entry.
proof fn lemma_in_prefix_step(blocks: Seq<u64>, n: int)
    requires
        0 <= n < blocks.len(),
    ensures
        forall|j: int|
            #![trigger in_prefix(blocks, n + 1, j)]
            in_prefix(blocks, n + 1, j) <==> (in_prefix(blocks, n, j) || j == blocks[n] as int),
{
    assert forall|j: int|
        #![trigger in_prefix(blocks, n + 1, j)]
        in_prefix(blocks, n + 1, j) <==> (in_prefix(blocks, n, j) || j == blocks[n] as int) by {
        if in_prefix(blocks, n + 1, j) {
            let k = choose|k: int| 0 <= k < n + 1 && k < blocks.len() && blocks[k] as int == j;
            if k < n {
                assert(in_prefix(blocks, n, j));
            } else {
                assert(j == blocks[n] as int);
            }
        }
        if in_prefix(blocks, n, j) {
            let k = choose|k: int| 0 <= k < n && k < blocks.len() && blocks[k] as int == j;
            assert(0 <= k < n + 1 && k < blocks.len() && blocks[k] as int == j);
            assert(in_prefix(blocks, n + 1, j));
        }
        if j == blocks[n] as int {
            assert(0 <= n < n + 1 && n < blocks.len() && blocks[n] as int == j);
            assert(in_prefix(blocks, n + 1, j));
        }
    }
}

/// A prefix that runs the whole list is simple membership.
proof fn lemma_in_prefix_full(blocks: Seq<u64>)
    ensures
        forall|j: int|
            #![trigger in_prefix(blocks, blocks.len() as int, j)]
            in_prefix(blocks, blocks.len() as int, j) <==> in_list(blocks, j),
{
    assert forall|j: int|
        #![trigger in_prefix(blocks, blocks.len() as int, j)]
        in_prefix(blocks, blocks.len() as int, j) <==> in_list(blocks, j) by {
        if in_prefix(blocks, blocks.len() as int, j) {
            let k = choose|k: int|
                0 <= k < blocks.len() && k < blocks.len() && blocks[k] as int == j;
            assert(in_list(blocks, j));
        }
        if in_list(blocks, j) {
            let k = choose|k: int| 0 <= k < blocks.len() && blocks[k] as int == j;
            assert(0 <= k < blocks.len() as int && k < blocks.len() && blocks[k] as int == j);
            assert(in_prefix(blocks, blocks.len() as int, j));
        }
    }
}

impl Layout {
    /// Growth units the configured ceiling allows in all.
    pub open spec fn total_pages(self) -> int {
        self.threshold as int / MAX_PAGE_BYTE as int
    }

    /// First byte offset past the reserved header region.
    pub open spec fn reserved_space(self) -> int {
        self.reserved_pages * MAX_PAGE_BYTE
    }

    /// How many blocks the bit map tracks.
    pub open spec fn num_blocks(self) -> int {
        self.bit_map@.len() as int * 8
    }

    /// Bit `b` of the packed bit sequence `bm`.
    pub open spec fn bit_at(bm: Seq<u8>, b: int) -> bool {
        (bm[b / 8] >> ((b % 8) as u8)) & 1u8 == 1u8
    }

    /// True when block `b` exists and its bit is set.
    pub open spec fn allocated(self, b: int) -> bool {
        0 <= b < self.num_blocks() && Self::bit_at(self.bit_map@, b)
    }

    /// Byte offset of `block_offset` within block `b`.
    pub open spec fn spec_position(self, b: int, block_offset: int) -> int {
        self.reserved_space() + b * (KV_BLOCK_SIZE as int) + block_offset
    }

    /// True when the provisioned growth units back the whole byte range
    /// of block `b`.
    pub open spec fn block_covered(self, b: int) -> bool {
        self.spec_position(b, KV_BLOCK_SIZE as int) <= self.stable_blocks_count * (
        MAX_PAGE_BYTE as int)
    }

    pub open spec fn wf(self) -> bool {
        &&& self.kv_block_size == KV_BLOCK_SIZE
        &&& self.threshold <= THRESHOLD
        &&& self.reserved_pages <= self.total_pages()
        &&& self.bit_map@.len() == (self.total_pages() - self.reserved_pages) * ((MAX_PAGE_BYTE
            / KV_BLOCK_SIZE / 8) as int)
        &&& self.reserved_pages <= self.stable_blocks_count <= self.total_pages()
        &&& forall|b: int| #[trigger] self.allocated(b) ==> self.block_covered(b)
    }

    /// True when a byte sequence is exactly as long as the provisioned
    /// growth units say.
    pub open spec fn mem_match_len(self, m: Seq<u8>) -> bool {
        m.len() == self.stable_blocks_count * (MAX_PAGE_BYTE as int)
    }

    /// True when `m` is the backing memory this allocator manages: every
    /// provisioned growth unit is accounted for, and the memory may grow
    /// up to the configured ceiling.
    pub open spec fn mem_match(self, m: StableMemory) -> bool {
        &&& m.wf()
        &&& m.spec_pages() == self.stable_blocks_count
        &&& m.max_pages == self.total_pages()
    }

    /// Free bits among the first `n` of `bm`.
    pub open spec fn count_free_upto(bm: Seq<u8>, n: int) -> int
        decreases n,
    {
        if n <= 0 {
            0
        } else {
            Self::count_free_upto(bm, n - 1) + if Self::bit_at(bm, n - 1) {
                0int
            } else {
                1int
            }
        }
    }

    /// Free bits of the whole bit map.
    pub open spec fn count_free(self) -> int {
        Self::count_free_upto(self.bit_map@, self.num_blocks())
    }

    /// `blocks` are the lowest free block indices of `self`, in ascending
    /// order: all free, strictly increasing, and no free index below any
    /// of them is passed over.
    pub open spec fn first_fit(self, blocks: Seq<u64>) -> bool {
        &&& forall|i: int|
            0 <= i < blocks.len() ==> #[trigger] blocks[i] < self.num_blocks() && !Self::bit_at(
                self.bit_map@,
                blocks[i] as int,
            )
        &&& forall|i: int, j: int| 0 <= i < j < blocks.len() ==> blocks[i] < blocks[j]
        &&& forall|i: int, b: int|
            #![trigger blocks[i], Self::bit_at(self.bit_map@, b)]
            0 <= i < blocks.len() && 0 <= b < blocks[i] && !Self::bit_at(self.bit_map@, b)
                ==> in_list(blocks, b)
    }

    pub fn new(threshold: u64, reserved_pages: u64) -> (r: Layout)
        requires
            threshold <= THRESHOLD,
            reserved_pages <= threshold / MAX_PAGE_BYTE,
        ensures
            r.wf(),
            r.threshold == threshold,
            r.reserved_pages == reserved_pages,
            r.stable_blocks_count == reserved_pages,
            forall|b: int| !r.allocated(b),
            r.count_free() == r.num_blocks(),
    {
        let pages: u64 = threshold / MAX_PAGE_BYTE;
        proof {
            assert(pages <= 131072) by {
                vstd::arithmetic::div_mod::lemma_div_is_ordered(
                    threshold as int,
                    THRESHOLD as int,
                    MAX_PAGE_BYTE as int,
                );
                assert(THRESHOLD / MAX_PAGE_BYTE == 131072);
            }
        }
        let per_byte: u64 = MAX_PAGE_BYTE / KV_BLOCK_SIZE / 8;
        proof {
            assert(per_byte == 16);
        }
        let len: u64 = (pages - reserved_pages) * per_byte;
        let bit_map: Vec<u8> = vec![0u8; len as usize];
        let r = Layout {
            stable_blocks_count: reserved_pages,
            bit_map,
            kv_block_size: KV_BLOCK_SIZE,
            threshold,
            reserved_pages,
        };
        proof {
            assert forall|q: int| 0 <= q < r.bit_map@.len() implies r.bit_map@[q] == 0u8 by {
                assert(cloned(0u8, r.bit_map@[q]));
            }
            assert forall|bb: int| 0 <= bb < r.num_blocks() implies !Self::bit_at(
                r.bit_map@,
                bb,
            ) by {
                let k: u8 = (bb % 8) as u8;
                assert(r.bit_map@[bb / 8] == 0u8);
                assert((0u8 >> k) & 1u8 != 1u8) by (bit_vector);
            }
            Self::lemma_count_free_upto_all_free(r.bit_map@, r.num_blocks());
        }
        r
    }

    /// A bit map where the first `n` bits are clear has `n` free bits.
    proof fn lemma_count_free_upto_all_free(bm: Seq<u8>, n: int)
        requires
            forall|b: int| 0 <= b < n ==> !Self::bit_at(bm, b),
        ensures
            Self::count_free_upto(bm, n) == if n >= 0 {
                n
            } else {
                0
            },
        decreases n,
    {
        if n > 0 {
            Self::lemma_count_free_upto_all_free(bm, n - 1);
        }
    }

    /// The count of free bits never drops below zero nor passes `n`.
    pub proof fn lemma_count_free_upto_bounds(bm: Seq<u8>, n: int)
        ensures
            0 <= Self::count_free_upto(bm, n),
            n >= 0 ==> Self::count_free_upto(bm, n) <= n,
        decreases n,
    {
        if n > 0 {
            Self::lemma_count_free_upto_bounds(bm, n - 1);
        }
    }

    /// Counting free bits further along never loses any.
    pub proof fn lemma_count_free_upto_monotone(bm: Seq<u8>, m: int, n: int)
        requires
            m <= n,
        ensures
            Self::count_free_upto(bm, m) <= Self::count_free_upto(bm, n),
        decreases n - m,
    {
        if m < n {
            Self::lemma_count_free_upto_monotone(bm, m, n - 1);
        }
    }




    /// Any set of distinct free block indices below `n` is no larger than
    /// the count of free bits below `n`.
    pub proof fn lemma_free_set_le_count(bm: Seq<u8>, s: Set<int>, n: int)
        requires
            s.finite(),
            forall|b: int| s.contains(b) ==> 0 <= b < n && !Self::bit_at(bm, b),
        ensures
            s.len() <= Self::count_free_upto(bm, n),
        decreases n,
    {
        if n <= 0 {
            if s.len() > 0 {
                let x = s.choose();
                assert(s.contains(x));
            }
        } else {
            let s2 = s.remove(n - 1);
            assert forall|b: int| s2.contains(b) implies 0 <= b < n - 1 && !Self::bit_at(
                bm,
                b,
            ) by {
                assert(s.contains(b));
            }
            Self::lemma_free_set_le_count(bm, s2, n - 1);
            if s.contains(n - 1) {
                assert(s2.len() == s.len() - 1);
            } else {
                assert(s2 =~= s);
            }
        }
    }


    /// Numeric consequences of well-formedness: the page count stays
    /// under the 8 GiB ceiling, and the tracked blocks fill the space
    /// between the reserved header region and that ceiling.
    pub proof fn lemma_wf_bounds(self)
        requires
            self.wf(),
        ensures
            self.total_pages() <= 131072,
            self.total_pages() * (MAX_PAGE_BYTE as int) <= self.threshold,
            self.reserved_space() + self.num_blocks() * (KV_BLOCK_SIZE as int)
                == self.total_pages() * (MAX_PAGE_BYTE as int),
    {
        let tp = self.total_pages();
        let rp = self.reserved_pages as int;
        vstd::arithmetic::div_mod::lemma_div_is_ordered(
            self.threshold as int,
            THRESHOLD as int,
            MAX_PAGE_BYTE as int,
        );
        assert(THRESHOLD as int / (MAX_PAGE_BYTE as int) == 131072);
        assert(tp <= 131072);
        vstd::arithmetic::div_mod::lemma_fundamental_div_mod(
            self.threshold as int,
            MAX_PAGE_BYTE as int,
        );
        assert(tp * (MAX_PAGE_BYTE as int) <= self.threshold);
        assert((MAX_PAGE_BYTE / KV_BLOCK_SIZE / 8) as int == 16);
        assert(self.bit_map@.len() as int == (tp - rp) * 16);
        let nb = self.num_blocks();
        assert(nb == ((tp - rp) * 16) * 8);
        assert(nb * (KV_BLOCK_SIZE as int) == (tp - rp) * (MAX_PAGE_BYTE as int))
            by (nonlinear_arith)
            requires
                nb == ((tp - rp) * 16) * 8,
        ;
        assert(self.reserved_space() + nb * (KV_BLOCK_SIZE as int) == tp * (MAX_PAGE_BYTE as int));
    }

    /// Byte offset of `block_offset` within block `block_number`.
    pub fn get_position(&self, block_number: u64, block_offset: u64) -> (r: u64)
        requires
            self.wf(),
            block_number < self.num_blocks(),
            block_offset <= KV_BLOCK_SIZE,
        ensures
            r == self.spec_position(block_number as int, block_offset as int),
    {
        proof {
            self.lemma_wf_bounds();
            assert(block_number as int * (KV_BLOCK_SIZE as int) + (KV_BLOCK_SIZE as int)
                <= self.num_blocks() * (KV_BLOCK_SIZE as int)) by {
                vstd::arithmetic::mul::lemma_mul_inequality(
                    block_number as int + 1,
                    self.num_blocks(),
                    KV_BLOCK_SIZE as int,
                );
            }
        }
        self.reserved_pages * MAX_PAGE_BYTE + block_number * KV_BLOCK_SIZE + block_offset
    }

    /// A copy of the packed bit map.
    pub fn bit_map(&self) -> (r: Vec<u8>)
        ensures
            r@ == self.bit_map@,
    {
        let r = self.bit_map.clone();
        proof {
            assert forall|i: int| 0 <= i < r@.len() implies r@[i] == self.bit_map@[i] by {
                assert(cloned(self.bit_map@[i], r@[i]));
            }
            assert(r@ =~= self.bit_map@);
        }
        r
    }

    pub(crate) fn get_bit(&self, b: u64) -> (r: bool)
        requires
            b < self.bit_map@.len() * 8,
        ensures
            r == Self::bit_at(self.bit_map@, b as int),
    {
        proof {
            vstd::std_specs::vec::axiom_spec_len(&self.bit_map);
        }
        let idx: usize = (b / 8) as usize;
        let byte: u8 = self.bit_map[idx];
        (byte >> ((b % 8) as u8)) & 1 == 1
    }

    fn set_bit(&mut self, b: u64)
        requires
            b < old(self).bit_map@.len() * 8,
        ensures
            final(self).bit_map@.len() == old(self).bit_map@.len(),
            final(self).stable_blocks_count == old(self).stable_blocks_count,
            final(self).kv_block_size == old(self).kv_block_size,
            final(self).threshold == old(self).threshold,
            final(self).reserved_pages == old(self).reserved_pages,
            forall|j: int|
                0 <= j < old(self).num_blocks() ==> Self::bit_at(final(self).bit_map@, j) == (
                Self::bit_at(old(self).bit_map@, j) || j == b),
    {
        proof {
            vstd::std_specs::vec::axiom_spec_len(&old(self).bit_map);
        }
        let idx: usize = (b / 8) as usize;
        let m: u8 = (b % 8) as u8;
        let byte: u8 = self.bit_map[idx];
        self.bit_map[idx] = byte | (1u8 << m);
        proof {
            vstd::arithmetic::div_mod::lemma_fundamental_div_mod(b as int, 8);
            assert(idx as int == b as int / 8);
            assert(m as int == b as int % 8);
            assert forall|j: int| 0 <= j < old(self).num_blocks() implies Self::bit_at(
                self.bit_map@,
                j,
            ) == (Self::bit_at(old(self).bit_map@, j) || j == b) by {
                vstd::arithmetic::div_mod::lemma_fundamental_div_mod(j, 8);
                let k: u8 = (j % 8) as u8;
                if j / 8 == idx as int {
                    assert(self.bit_map@[j / 8] == (byte | (1u8 << m)));
                    assert(old(self).bit_map@[j / 8] == byte);
                    if j == b {
                        assert(k == m);
                        assert(((byte | (1u8 << m)) >> m) & 1u8 == 1u8) by (bit_vector)
                            requires
                                m < 8,
                        ;
                    } else {
                        assert(k != m);
                        assert(((byte | (1u8 << m)) >> k) & 1u8 == (byte >> k) & 1u8)
                            by (bit_vector)
                            requires
                                k < 8,
                                m < 8,
                                k != m,
                        ;
                    }
                } else {
                    assert(self.bit_map@[j / 8] == old(self).bit_map@[j / 8]);
                }
            }
        }
    }

    fn clear_bit(&mut self, b: u64)
        requires
            b < old(self).bit_map@.len() * 8,
        ensures
            final(self).bit_map@.len() == old(self).bit_map@.len(),
            final(self).stable_blocks_count == old(self).stable_blocks_count,
            final(self).kv_block_size == old(self).kv_block_size,
            final(self).threshold == old(self).threshold,
            final(self).reserved_pages == old(self).reserved_pages,
            forall|j: int|
                0 <= j < old(self).num_blocks() ==> Self::bit_at(final(self).bit_map@, j) == (
                Self::bit_at(old(self).bit_map@, j) && j != b),
    {
        proof {
            vstd::std_specs::vec::axiom_spec_len(&old(self).bit_map);
        }
        let idx: usize = (b / 8) as usize;
        let m: u8 = (b % 8) as u8;
        let byte: u8 = self.bit_map[idx];
        self.bit_map[idx] = byte & !(1u8 << m);
        proof {
            vstd::arithmetic::div_mod::lemma_fundamental_div_mod(b as int, 8);
            assert(idx as int == b as int / 8);
            assert(m as int == b as int % 8);
            assert forall|j: int| 0 <= j < old(self).num_blocks() implies Self::bit_at(
                self.bit_map@,
                j,
            ) == (Self::bit_at(old(self).bit_map@, j) && j != b) by {
                vstd::arithmetic::div_mod::lemma_fundamental_div_mod(j, 8);
                let k: u8 = (j % 8) as u8;
                if j / 8 == idx as int {
                    assert(self.bit_map@[j / 8] == (byte & !(1u8 << m)));
                    assert(old(self).bit_map@[j / 8] == byte);
                    if j == b {
                        assert(k == m);
                        assert(((byte & !(1u8 << m)) >> m) & 1u8 != 1u8) by (bit_vector)
                            requires
                                m < 8,
                        ;
                    } else {
                        assert(k != m);
                        assert(((byte & !(1u8 << m)) >> k) & 1u8 == (byte >> k) & 1u8)
                            by (bit_vector)
                            requires
                                k < 8,
                                m < 8,
                                k != m,
                        ;
                    }
                } else {
                    assert(self.bit_map@[j / 8] == old(self).bit_map@[j / 8]);
                }
            }
        }
    }

    /// Allocate `count` blocks: a first-fit scan of the bit map from the
    /// lowest index, setting each chosen bit, growing the backing memory
    /// far enough to back every chosen block before returning. Fails with
    /// no state change exactly when fewer than `count` bits are free.
    pub fn new_blocks(&mut self, memory: &mut StableMemory, count: u64) -> (r: Result<
        Vec<u64>,
        KvError,
    >)
        requires
            old(self).wf(),
            old(self).mem_match(*old(memory)),
        ensures
            final(self).wf(),
            final(self).mem_match(*final(memory)),
            final(self).threshold == old(self).threshold,
            final(self).reserved_pages == old(self).reserved_pages,
            final(self).kv_block_size == old(self).kv_block_size,
            final(self).bit_map@.len() == old(self).bit_map@.len(),
            final(self).stable_blocks_count >= old(self).stable_blocks_count,
            final(memory)@.len() >= old(memory)@.len(),
            final(memory).max_pages == old(memory).max_pages,
            forall|j: int| 0 <= j < old(memory)@.len() ==> final(memory)@[j] == old(memory)@[j],
            r is Ok <==> count <= old(self).count_free(),
            r matches Ok(blocks) ==> {
                &&& blocks@.len() == count
                &&& old(self).first_fit(blocks@)
                &&& forall|b: int|
                    #[trigger] final(self).allocated(b) <==> (old(self).allocated(b) || in_list(
                        blocks@,
                        b,
                    ))
            },
            r matches Ok(blocks) ==> (all_covered(*old(self), blocks@)
                ==> (final(self).stable_blocks_count == old(self).stable_blocks_count
                && *final(memory) == *old(memory))),
            r is Err ==> *final(self) == *old(self) && *final(memory) == *old(memory),
            r matches Err(e) ==> e matches KvError::Other(s) && s@ == "not enough space"@,
    {
        proof {
            self.lemma_wf_bounds();
        }
        let total_bits: u64 = (self.bit_map.len() as u64) * 8;
        let mut blocks: Vec<u64> = Vec::new();
        let mut b: u64 = 0;
        while b < total_bits && (blocks.len() as u64) < count
            invariant
                *self == *old(self),
                self.wf(),
                b <= total_bits,
                total_bits == self.bit_map@.len() * 8,
                blocks@.len() <= count,
                blocks@.len() == Self::count_free_upto(self.bit_map@, b as int),
                forall|i: int| 0 <= i < blocks@.len() ==> #[trigger] blocks@[i] < b,
                forall|i: int|
                    0 <= i < blocks@.len() ==> !Self::bit_at(self.bit_map@, #[trigger] blocks@[i] as int),
                forall|i: int, j: int| 0 <= i < j < blocks@.len() ==> blocks@[i] < blocks@[j],
                forall|j: int|
                    0 <= j < b && !Self::bit_at(self.bit_map@, j) ==> in_list(blocks@, j),
            decreases total_bits - b,
        {
            if !self.get_bit(b) {
                let ghost prev = blocks@;
                blocks.push(b);
                proof {
                    assert forall|j: int|
                        0 <= j < b + 1 && !Self::bit_at(self.bit_map@, j) implies in_list(
                        blocks@,
                        j,
                    ) by {
                        if j < b {
                            assert(in_list(prev, j));
                            let i = choose|i: int| 0 <= i < prev.len() && prev[i] as int == j;
                            assert(blocks@[i] as int == j);
                        } else {
                            assert(blocks@[prev.len() as int] as int == j);
                        }
                    }
                }
            }
            b = b + 1;
        }
        if (blocks.len() as u64) < count {
            proof {
                // the scan covered the whole bit map and found too few
                assert(b == total_bits);
            }
            return Err(KvError::Other("not enough space".to_owned()));
        }
        proof {
            Self::lemma_count_free_upto_monotone(self.bit_map@, b as int, self.num_blocks());
        }
        let ghost pre = *self;
        let ghost pre_mem = *memory;
        let mut i: usize = 0;
        while i < blocks.len()
            invariant
                i <= blocks@.len(),
                pre.wf(),
                self.wf(),
                self.mem_match(*memory),
                self.threshold == pre.threshold,
                self.reserved_pages == pre.reserved_pages,
                self.kv_block_size == pre.kv_block_size,
                self.bit_map@.len() == pre.bit_map@.len(),
                self.stable_blocks_count >= pre.stable_blocks_count,
                memory@.len() >= pre_mem@.len(),
                memory.max_pages == pre_mem.max_pages,
                forall|j: int| 0 <= j < pre_mem@.len() ==> memory@[j] == pre_mem@[j],
                pre.first_fit(blocks@),
                forall|k: int| 0 <= k < blocks@.len() ==> #[trigger] blocks@[k] < pre.num_blocks(),
                forall|j: int|
                    0 <= j < pre.num_blocks() ==> Self::bit_at(self.bit_map@, j) == (Self::bit_at(
                        pre.bit_map@,
                        j,
                    ) || in_prefix(blocks@, i as int, j)),
                all_covered(pre, blocks@) ==> (self.stable_blocks_count
                    == pre.stable_blocks_count && *memory == pre_mem),
            decreases blocks@.len() - i,
        {
            let blk = blocks[i];
            let ghost bits_outer = self.bit_map@;
            let position = self.get_position(blk, KV_BLOCK_SIZE);
            while position > self.stable_blocks_count * MAX_PAGE_BYTE
                invariant
                    self.wf(),
                    self.mem_match(*memory),
                    blk < self.num_blocks(),
                    position == self.spec_position(blk as int, KV_BLOCK_SIZE as int),
                    self.threshold == pre.threshold,
                    self.reserved_pages == pre.reserved_pages,
                    self.kv_block_size == pre.kv_block_size,
                    self.bit_map@ == bits_outer,
                    memory@.len() >= pre_mem@.len(),
                    memory.max_pages == pre_mem.max_pages,
                    forall|j: int| 0 <= j < pre_mem@.len() ==> memory@[j] == pre_mem@[j],
                    self.stable_blocks_count >= pre.stable_blocks_count,
                    i < blocks@.len() && blocks@[i as int] == blk,
                    all_covered(pre, blocks@) ==> (self.stable_blocks_count
                        == pre.stable_blocks_count && *memory == pre_mem),
                decreases self.total_pages() - self.stable_blocks_count,
            {
                proof {
                    // a block that was already backed needs no growth, so
                    // this loop never runs for it
                    if all_covered(pre, blocks@) {
                        assert(pre.block_covered(blocks@[i as int] as int));
                        assert(false);
                    }
                    // the block lies inside the tracked range, so one more
                    // growth unit never passes the ceiling
                    self.lemma_wf_bounds();
                    assert(self.spec_position(blk as int, KV_BLOCK_SIZE as int)
                        <= self.total_pages() * (MAX_PAGE_BYTE as int)) by {
                        self.lemma_wf_bounds();
                        vstd::arithmetic::mul::lemma_mul_inequality(
                            blk as int + 1,
                            self.num_blocks(),
                            KV_BLOCK_SIZE as int,
                        );
                    }
                }
                match self._grow_stable_memory_page(memory, 1) {
                    Ok(_) => {}
                    Err(err) => {
                        proof {
                            assert(false);
                        }
                        return Err(err);
                    }
                }
            }
            let ghost bits_before = self.bit_map@;
            let ghost covered_state = *self;
            self.set_bit(blk);
            proof {
                lemma_in_prefix_step(blocks@, i as int);
                // well-formedness: every allocated block is covered
                assert(self.block_covered(blk as int));
                assert forall|j: int| #[trigger] self.allocated(j) implies self.block_covered(
                    j,
                ) by {
                    if j != blk {
                        assert(Self::bit_at(bits_before, j) == Self::bit_at(self.bit_map@, j));
                        assert(covered_state.allocated(j));
                        assert(covered_state.block_covered(j));
                    }
                }
            }
            i = i + 1;
        }
        proof {
            lemma_in_prefix_full(blocks@);
            // the returned allocation set matches exactly
            assert forall|bx: int| #[trigger] self.allocated(bx) <==> (pre.allocated(bx)
                || in_list(blocks@, bx)) by {
                if in_list(blocks@, bx) {
                    let k = choose|k: int| 0 <= k < blocks@.len() && blocks@[k] as int == bx;
                    assert(blocks@[k] < pre.num_blocks());
                }
            }
        }
        Ok(blocks)
    }

    /// Clear the bits of `blocks`; the underlying bytes are left as they
    /// are until a future allocation overwrites them.
    pub fn free_blocks(&mut self, blocks: Vec<u64>)
        requires
            old(self).wf(),
            forall|i: int| 0 <= i < blocks@.len() ==> #[trigger] blocks@[i] < old(self).num_blocks(),
        ensures
            final(self).wf(),
            final(self).threshold == old(self).threshold,
            final(self).reserved_pages == old(self).reserved_pages,
            final(self).kv_block_size == old(self).kv_block_size,
            final(self).bit_map@.len() == old(self).bit_map@.len(),
            final(self).stable_blocks_count == old(self).stable_blocks_count,
            forall|b: int|
                #[trigger] final(self).allocated(b) <==> (old(self).allocated(b) && !in_list(
                    blocks@,
                    b,
                )),
    {
        let ghost pre = *self;
        let mut i: usize = 0;
        while i < blocks.len()
            invariant
                i <= blocks@.len(),
                pre.wf(),
                self.wf(),
                self.threshold == pre.threshold,
                self.reserved_pages == pre.reserved_pages,
                self.kv_block_size == pre.kv_block_size,
                self.bit_map@.len() == pre.bit_map@.len(),
                self.stable_blocks_count == pre.stable_blocks_count,
                forall|k: int| 0 <= k < blocks@.len() ==> #[trigger] blocks@[k] < pre.num_blocks(),
                forall|j: int|
                    0 <= j < pre.num_blocks() ==> Self::bit_at(self.bit_map@, j) == (Self::bit_at(
                        pre.bit_map@,
                        j,
                    ) && !in_prefix(blocks@, i as int, j)),
            decreases blocks@.len() - i,
        {
            let blk = blocks[i];
            let ghost before = *self;
            self.clear_bit(blk);
            proof {
                lemma_in_prefix_step(blocks@, i as int);
                assert forall|j: int| #[trigger] self.allocated(j) implies self.block_covered(
                    j,
                ) by {
                    assert(before.allocated(j));
                    assert(before.block_covered(j));
                }
            }
            i = i + 1;
        }
        proof {
            lemma_in_prefix_full(blocks@);
        }
    }

    /// An advisory estimate of how many further bytes could be stored:
    /// the bytes the ceiling still allows the memory to grow by, plus the
    /// bytes of all free blocks.
    pub fn get_available_memory_size(&self) -> (r: u64)
        requires
            self.wf(),
        ensures
            r == self.threshold - self.stable_blocks_count * MAX_PAGE_BYTE + self.count_free() * (
            KV_BLOCK_SIZE as int),
    {
        proof {
            self.lemma_wf_bounds();
        }
        let total_bits: u64 = (self.bit_map.len() as u64) * 8;
        let mut left_block_size: u64 = 0;
        let mut b: u64 = 0;
        while b < total_bits
            invariant
                self.wf(),
                b <= total_bits,
                total_bits == self.bit_map@.len() * 8,
                left_block_size == Self::count_free_upto(self.bit_map@, b as int),
                left_block_size <= b,
            decreases total_bits - b,
        {
            if !self.get_bit(b) {
                left_block_size = left_block_size + 1;
            }
            b = b + 1;
        }
        proof {
            self.lemma_wf_bounds();
            assert(self.stable_blocks_count * (MAX_PAGE_BYTE as int) <= self.total_pages() * (
            MAX_PAGE_BYTE as int)) by {
                vstd::arithmetic::mul::lemma_mul_inequality(
                    self.stable_blocks_count as int,
                    self.total_pages(),
                    MAX_PAGE_BYTE as int,
                );
            }
        }
        self.threshold - self.stable_blocks_count * MAX_PAGE_BYTE + left_block_size * KV_BLOCK_SIZE
    }

    /// Grow the backing memory by `grow_page` growth units and account
    /// for them.
    fn _grow_stable_memory_page(&mut self, memory: &mut StableMemory, grow_page: u64) -> (r: Result<
        (),
        KvError,
    >)
        requires
            old(self).wf(),
            old(self).mem_match(*old(memory)),
        ensures
            final(self).wf(),
            final(self).mem_match(*final(memory)),
            final(self).threshold == old(self).threshold,
            final(self).reserved_pages == old(self).reserved_pages,
            final(self).kv_block_size == old(self).kv_block_size,
            final(self).bit_map@ == old(self).bit_map@,
            final(memory).max_pages == old(memory).max_pages,
            r is Ok <==> old(self).stable_blocks_count + grow_page <= old(self).total_pages(),
            r is Ok ==> {
                &&& final(self).stable_blocks_count == old(self).stable_blocks_count + grow_page
                &&& final(memory)@.len() == old(memory)@.len() + grow_page * MAX_PAGE_BYTE
                &&& forall|j: int| 0 <= j < old(memory)@.len() ==> final(memory)@[j] == old(memory)@[j]
            },
            r is Err ==> *final(self) == *old(self) && *final(memory) == *old(memory),
            r matches Err(e) ==> e is InsufficientMemory,
    {
        match stable_grow_memory_page(memory, grow_page) {
            Ok(_) => {
                self.stable_blocks_count = self.stable_blocks_count + grow_page;
                proof {
                    assert forall|j: int| #[trigger] self.allocated(j) implies self.block_covered(
                        j,
                    ) by {
                        assert(old(self).allocated(j));
                        assert(old(self).block_covered(j));
                        assert(old(self).stable_blocks_count * (MAX_PAGE_BYTE as int)
                            <= self.stable_blocks_count * (MAX_PAGE_BYTE as int)) by {
                            vstd::arithmetic::mul::lemma_mul_inequality(
                                old(self).stable_blocks_count as int,
                                self.stable_blocks_count as int,
                                MAX_PAGE_BYTE as int,
                            );
                        }
                    }
                }
                Ok(())
            }
            Err(err) => Err(err),
        }
    }
}

impl Default for Layout {
    /// The configuration the store ships with: an 8 GiB ceiling and the
    /// default reserved header region.
    fn default() -> (r: Layout)
        ensures
            r.wf(),
            r.threshold == THRESHOLD,
            r.reserved_pages == RESERVED_PAGE,
            r.stable_blocks_count == RESERVED_PAGE,
            forall|b: int| !r.allocated(b),
            r.count_free() == r.num_blocks(),
    {
        Layout::new(THRESHOLD, RESERVED_PAGE)
    }
}


impl Layout {
    /// First fit draws from the lowest indices: every free block the
    /// allocation passed over lies above every block it chose. A fresh
    /// allocation therefore reuses freed low blocks before touching
    /// higher ones.
    pub proof fn lemma_first_fit_lowest(self, blocks: Seq<u64>)
        requires
            self.first_fit(blocks),
        ensures
            forall|b: int, i: int|
                #![trigger blocks[i], Self::bit_at(self.bit_map@, b)]
                0 <= b < self.num_blocks() && !Self::bit_at(self.bit_map@, b) && !in_list(
                    blocks,
                    b,
                ) && 0 <= i < blocks.len() ==> blocks[i] < b,
    {
        assert forall|b: int, i: int|
            #![trigger blocks[i], Self::bit_at(self.bit_map@, b)]
            0 <= b < self.num_blocks() && !Self::bit_at(self.bit_map@, b) && !in_list(blocks, b)
                && 0 <= i < blocks.len() implies blocks[i] < b by {
            if b < blocks[i] {
                assert(in_list(blocks, b));
            } else if b == blocks[i] {
                assert(in_list(blocks, b));
            }
        }
    }

    /// Freeing a distinct list of previously allocated blocks leaves at
    /// least that many blocks free: a delete makes room for an equal or
    /// smaller store.
    pub proof fn lemma_delete_makes_room(self, post: Layout, freed: Seq<u64>)
        requires
            self.wf(),
            post.bit_map@.len() == self.bit_map@.len(),
            forall|i: int, j: int| 0 <= i < j < freed.len() ==> freed[i] != freed[j],
            forall|i: int| 0 <= i < freed.len() ==> self.allocated(#[trigger] freed[i] as int),
            forall|b: int|
                #![trigger post.allocated(b)]
                post.allocated(b) <==> (self.allocated(b) && !in_list(freed, b)),
        ensures
            post.count_free() >= freed.len(),
    {
        let mapped = freed.map_values(|b: u64| b as int);
        assert forall|x: int, y: int| 0 <= x < y < mapped.len() implies mapped[x] != mapped[y] by {
            assert(freed[x] != freed[y]);
        }
        assert(mapped.no_duplicates());
        mapped.unique_seq_to_set();
        vstd::seq_lib::seq_to_set_is_finite(mapped);
        assert forall|v: int| mapped.to_set().contains(v) implies 0 <= v < post.num_blocks()
            && !Self::bit_at(post.bit_map@, v) by {
            let x = choose|x: int| 0 <= x < mapped.len() && mapped[x] == v;
            assert(mapped[x] == freed[x] as int);
            assert(self.allocated(freed[x] as int));
            assert(in_list(freed, v));
            assert(!post.allocated(v));
        }
        Self::lemma_free_set_le_count(post.bit_map@, mapped.to_set(), post.num_blocks());
    }
}

} // verus!
