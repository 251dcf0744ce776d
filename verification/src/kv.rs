use crate::layout::{all_covered, in_list, KV_BLOCK_SIZE, THRESHOLD};
use crate::stable::{StableMemory, MAX_PAGE_BYTE};
use crate::types::{Kv, KvError, Layout, Store};
use vstd::assert_seqs_equal;
use vstd::prelude::*;
use vstd::set_lib::{lemma_int_range, lemma_len_subset, set_int_range};

verus! {

/// First byte offset of block `b`, below a header of `reserved` bytes.
pub open spec fn block_start(reserved: int, b: int) -> int {
    reserved + b * (KV_BLOCK_SIZE as int)
}

/// The bytes one entry holds: every block of its chain in full but the
/// last, which contributes its first `fill` bytes.
pub open spec fn entry_bytes(mem: Seq<u8>, reserved: int, blocks: Seq<u64>, fill: int) -> Seq<u8>
    decreases blocks.len(),
{
    if blocks.len() == 0 {
        Seq::empty()
    } else if blocks.len() == 1 {
        mem.subrange(
            block_start(reserved, blocks[0] as int),
            block_start(reserved, blocks[0] as int) + fill,
        )
    } else {
        mem.subrange(
            block_start(reserved, blocks[0] as int),
            block_start(reserved, blocks[0] as int) + KV_BLOCK_SIZE as int,
        ) + entry_bytes(mem, reserved, blocks.drop_first(), fill)
    }
}

/// Blocks needed to hold `len` bytes: one per full block-size chunk,
/// plus one for any remainder.
pub open spec fn spec_need_blocks(len: int) -> int {
    if len % (KV_BLOCK_SIZE as int) == 0 {
        len / (KV_BLOCK_SIZE as int)
    } else {
        len / (KV_BLOCK_SIZE as int) + 1
    }
}

/// True when byte offset `o` falls inside the range of some block of
/// `blocks`, below a header of `reserved` bytes.
pub open spec fn in_blocks_range(reserved: int, blocks: Seq<u64>, o: int) -> bool {
    exists|bi: int|
        #![trigger blocks[bi]]
        0 <= bi < blocks.len() && block_start(reserved, blocks[bi] as int) <= o < block_start(
            reserved,
            blocks[bi] as int,
        ) + (KV_BLOCK_SIZE as int)
}

/// What the store holds: each present key mapped to the exact byte
/// string its block chain spells out.
pub open spec fn kv_contents(kv: Kv, layout: Layout, mem: Seq<u8>) -> Map<Seq<char>, Seq<u8>> {
    Map::new(
        |k: Seq<char>| kv.has_key(k),
        |k: Seq<char>|
            entry_bytes(mem, layout.reserved_space(), kv.blocks_of(k), kv.fill_of(k) as int),
    )
}

impl Kv {
    pub open spec fn len(self) -> int {
        self.kv_set@.len() as int
    }

    pub open spec fn key_at(self, i: int) -> Seq<char> {
        self.kv_set@[i].0@
    }

    pub open spec fn blocks_at(self, i: int) -> Seq<u64> {
        self.kv_set@[i].1.0@
    }

    pub open spec fn fill_at(self, i: int) -> u64 {
        self.kv_set@[i].1.1
    }

    pub open spec fn has_key(self, k: Seq<char>) -> bool {
        exists|i: int| 0 <= i < self.len() && self.key_at(i) == k
    }

    pub open spec fn index_of(self, k: Seq<char>) -> int {
        choose|i: int| 0 <= i < self.len() && self.key_at(i) == k
    }

    pub open spec fn blocks_of(self, k: Seq<char>) -> Seq<u64> {
        self.blocks_at(self.index_of(k))
    }

    pub open spec fn fill_of(self, k: Seq<char>) -> u64 {
        self.fill_at(self.index_of(k))
    }

    /// Byte count of the key per the index: full blocks plus the fill
    /// of the final one; zero for an absent key.
    pub open spec fn spec_size(self, k: Seq<char>) -> int {
        if self.has_key(k) {
            (self.blocks_of(k).len() - 1) * (KV_BLOCK_SIZE as int) + self.fill_of(k)
        } else {
            0
        }
    }

    /// No two entries name the same key.
    pub open spec fn wf_keys(self) -> bool {
        forall|i: int, j: int| 0 <= i < j < self.len() ==> self.key_at(i) != self.key_at(j)
    }

    /// Entry `i` is sound against the allocator: a non-empty chain of
    /// allocated blocks, and a fill between one byte and a whole block.
    pub open spec fn entry_wf(self, layout: Layout, i: int) -> bool {
        &&& self.blocks_at(i).len() >= 1
        &&& 1 <= self.fill_at(i) <= KV_BLOCK_SIZE
        &&& forall|bi: int|
            0 <= bi < self.blocks_at(i).len() ==> layout.allocated(
                #[trigger] self.blocks_at(i)[bi] as int,
            )
    }

    /// The whole index is sound: distinct keys, sound entries, and no
    /// block referenced from two places.
    pub open spec fn wf(self, layout: Layout) -> bool {
        &&& self.wf_keys()
        &&& forall|i: int| 0 <= i < self.len() ==> self.entry_wf(layout, i)
        &&& forall|i: int, j: int, bi: int, bj: int|
            #![trigger self.blocks_at(i)[bi], self.blocks_at(j)[bj]]
            0 <= i < self.len() && 0 <= j < self.len() && 0 <= bi < self.blocks_at(i).len() && 0
                <= bj < self.blocks_at(j).len() && (i != j || bi != bj) ==> self.blocks_at(i)[bi]
                != self.blocks_at(j)[bj]
    }

    /// The entry index a present key resolves to is the unique one that
    /// carries it.
    pub proof fn lemma_index_of(self, i: int)
        requires
            self.wf_keys(),
            0 <= i < self.len(),
        ensures
            self.has_key(self.key_at(i)),
            self.index_of(self.key_at(i)) == i,
    {
        let k = self.key_at(i);
        assert(self.has_key(k));
        let j = self.index_of(k);
        if j != i {
            if j < i {
                assert(self.key_at(j) != self.key_at(i));
            } else {
                assert(self.key_at(i) != self.key_at(j));
            }
        }
    }

    /// An entry's chain cannot be longer than the bit map it draws on.
    pub proof fn lemma_entry_len_bound(self, layout: Layout, i: int)
        requires
            self.wf(layout),
            layout.wf(),
            0 <= i < self.len(),
        ensures
            self.blocks_at(i).len() <= layout.num_blocks(),
    {
        let blocks = self.blocks_at(i);
        let mapped = blocks.map_values(|b: u64| b as int);
        assert forall|x: int, y: int| 0 <= x < y < mapped.len() implies mapped[x] != mapped[y] by {
            assert(blocks[x] != blocks[y]);
        }
        assert(mapped.no_duplicates());
        mapped.unique_seq_to_set();
        assert forall|v: int| mapped.to_set().contains(v) implies set_int_range(
            0,
            layout.num_blocks(),
        ).contains(v) by {
            let x = choose|x: int| 0 <= x < mapped.len() && mapped[x] == v;
            assert(mapped[x] == blocks[x] as int);
            assert(self.entry_wf(layout, i));
            assert(layout.allocated(blocks[x] as int));
        }
        vstd::seq_lib::seq_to_set_is_finite(mapped);
        lemma_int_range(0, layout.num_blocks());
        lemma_len_subset(mapped.to_set(), set_int_range(0, layout.num_blocks()));
    }
}

/// How long an entry's byte string is: full blocks plus the fill.
pub proof fn lemma_entry_bytes_len(mem: Seq<u8>, reserved: int, blocks: Seq<u64>, fill: int)
    requires
        0 <= reserved,
        0 <= fill <= KV_BLOCK_SIZE,
        forall|bi: int|
            0 <= bi < blocks.len() ==> block_start(reserved, #[trigger] blocks[bi] as int) + (
            KV_BLOCK_SIZE as int) <= mem.len(),
    ensures
        entry_bytes(mem, reserved, blocks, fill).len() == if blocks.len() == 0 {
            0
        } else {
            (blocks.len() - 1) * (KV_BLOCK_SIZE as int) + fill
        },
    decreases blocks.len(),
{
    if blocks.len() > 1 {
        lemma_entry_bytes_len(mem, reserved, blocks.drop_first(), fill);
    }
}

/// Splitting a chain splits its byte string: the front blocks read in
/// full, then the back blocks with the final fill.
pub proof fn lemma_entry_bytes_concat(
    mem: Seq<u8>,
    reserved: int,
    front: Seq<u64>,
    back: Seq<u64>,
    fill: int,
)
    requires
        back.len() >= 1,
    ensures
        entry_bytes(mem, reserved, front + back, fill) == entry_bytes(
            mem,
            reserved,
            front,
            KV_BLOCK_SIZE as int,
        ) + entry_bytes(mem, reserved, back, fill),
    decreases front.len(),
{
    let whole = front + back;
    if front.len() == 0 {
        assert(whole =~= back);
        assert(entry_bytes(mem, reserved, front, KV_BLOCK_SIZE as int) =~= Seq::<u8>::empty());
        assert(entry_bytes(mem, reserved, front, KV_BLOCK_SIZE as int) + entry_bytes(
            mem,
            reserved,
            back,
            fill,
        ) =~= entry_bytes(mem, reserved, back, fill));
    } else {
        assert(whole.len() >= 2);
        assert(whole[0] == front[0]);
        assert(whole.drop_first() =~= front.drop_first() + back);
        lemma_entry_bytes_concat(mem, reserved, front.drop_first(), back, fill);
        if front.len() == 1 {
            assert(entry_bytes(mem, reserved, front, KV_BLOCK_SIZE as int) == mem.subrange(
                block_start(reserved, front[0] as int),
                block_start(reserved, front[0] as int) + KV_BLOCK_SIZE as int,
            ));
        } else {
            assert(entry_bytes(mem, reserved, front, KV_BLOCK_SIZE as int) == mem.subrange(
                block_start(reserved, front[0] as int),
                block_start(reserved, front[0] as int) + KV_BLOCK_SIZE as int,
            ) + entry_bytes(mem, reserved, front.drop_first(), KV_BLOCK_SIZE as int));
        }
        assert(entry_bytes(mem, reserved, whole, fill) =~= entry_bytes(
            mem,
            reserved,
            front,
            KV_BLOCK_SIZE as int,
        ) + entry_bytes(mem, reserved, back, fill));
    }
}

/// Two memories that agree on the bytes an entry actually reads give
/// that entry the same byte string: full ranges of all blocks but the
/// last, and the first `fill` bytes of the last.
pub proof fn lemma_entry_bytes_agree(
    mem1: Seq<u8>,
    mem2: Seq<u8>,
    reserved: int,
    blocks: Seq<u64>,
    fill: int,
)
    requires
        0 <= reserved,
        0 <= fill <= KV_BLOCK_SIZE,
        forall|bi: int|
            0 <= bi < blocks.len() ==> block_start(reserved, #[trigger] blocks[bi] as int) + (
            KV_BLOCK_SIZE as int) <= mem1.len() && block_start(reserved, blocks[bi] as int) + (
            KV_BLOCK_SIZE as int) <= mem2.len(),
        forall|bi: int, o: int|
            #![trigger mem1[block_start(reserved, blocks[bi] as int) + o]]
            0 <= bi < blocks.len() && 0 <= o < (KV_BLOCK_SIZE as int) && (bi < blocks.len() - 1 || o
                < fill) ==> mem1[block_start(reserved, blocks[bi] as int) + o] == mem2[block_start(
                reserved,
                blocks[bi] as int,
            ) + o],
    ensures
        entry_bytes(mem1, reserved, blocks, fill) == entry_bytes(mem2, reserved, blocks, fill),
    decreases blocks.len(),
{
    if blocks.len() == 0 {
    } else if blocks.len() == 1 {
        let s = block_start(reserved, blocks[0] as int);
        assert(s + (KV_BLOCK_SIZE as int) <= mem1.len());
        assert_seqs_equal!(
            mem1.subrange(s, s + fill) == mem2.subrange(s, s + fill),
            o => {
                assert(mem1[block_start(reserved, blocks[0] as int) + o] == mem2[block_start(
                    reserved,
                    blocks[0] as int,
                ) + o]);
            }
        );
    } else {
        let s = block_start(reserved, blocks[0] as int);
        let rest = blocks.drop_first();
        assert forall|bi: int|
            0 <= bi < rest.len() implies block_start(reserved, #[trigger] rest[bi] as int) + (
        KV_BLOCK_SIZE as int) <= mem1.len() && block_start(reserved, rest[bi] as int) + (
        KV_BLOCK_SIZE as int) <= mem2.len() by {
            assert(rest[bi] == blocks[bi + 1]);
            assert(block_start(reserved, blocks[bi + 1] as int) + (KV_BLOCK_SIZE as int)
                <= mem1.len());
        }
        assert forall|bi: int, o: int|
            #![trigger mem1[block_start(reserved, rest[bi] as int) + o]]
            0 <= bi < rest.len() && 0 <= o < (KV_BLOCK_SIZE as int) && (bi < rest.len() - 1 || o
                < fill) implies mem1[block_start(reserved, rest[bi] as int) + o] == mem2[
        block_start(reserved, rest[bi] as int) + o] by {
            assert(rest[bi] == blocks[bi + 1]);
            assert(mem1[block_start(reserved, blocks[bi + 1] as int) + o] == mem2[block_start(
                reserved,
                blocks[bi + 1] as int,
            ) + o]);
        }
        lemma_entry_bytes_agree(mem1, mem2, reserved, rest, fill);
        assert(s + (KV_BLOCK_SIZE as int) <= mem1.len());
        assert_seqs_equal!(
            mem1.subrange(s, s + KV_BLOCK_SIZE as int)
                == mem2.subrange(s, s + KV_BLOCK_SIZE as int),
            o => {
                assert(mem1[block_start(reserved, blocks[0] as int) + o] == mem2[block_start(
                    reserved,
                    blocks[0] as int,
                ) + o]);
            }
        );
        assert(entry_bytes(mem1, reserved, blocks, fill) =~= entry_bytes(
            mem2,
            reserved,
            blocks,
            fill,
        ));
    }
}

/// Raising the fill of the final block appends exactly the bytes that
/// sit between the old and the new fill mark.
pub proof fn lemma_entry_bytes_fill_extend(
    mem: Seq<u8>,
    reserved: int,
    blocks: Seq<u64>,
    f1: int,
    f2: int,
)
    requires
        blocks.len() >= 1,
        0 <= f1 <= f2 <= KV_BLOCK_SIZE,
        block_start(reserved, blocks[blocks.len() - 1] as int) + (KV_BLOCK_SIZE as int)
            <= mem.len(),
        0 <= reserved,
        forall|bi: int| 0 <= bi < blocks.len() ==> 0 <= #[trigger] blocks[bi],
    ensures
        entry_bytes(mem, reserved, blocks, f2) == entry_bytes(mem, reserved, blocks, f1)
            + mem.subrange(
            block_start(reserved, blocks[blocks.len() - 1] as int) + f1,
            block_start(reserved, blocks[blocks.len() - 1] as int) + f2,
        ),
    decreases blocks.len(),
{
    let last = blocks[blocks.len() - 1] as int;
    let s = block_start(reserved, last);
    if blocks.len() == 1 {
        assert(entry_bytes(mem, reserved, blocks, f2) =~= entry_bytes(mem, reserved, blocks, f1)
            + mem.subrange(s + f1, s + f2));
    } else {
        let rest = blocks.drop_first();
        assert(rest[rest.len() - 1] == blocks[blocks.len() - 1]);
        lemma_entry_bytes_fill_extend(mem, reserved, rest, f1, f2);
        assert(entry_bytes(mem, reserved, blocks, f2) =~= entry_bytes(mem, reserved, blocks, f1)
            + mem.subrange(s + f1, s + f2));
    }
}


impl Default for Kv {
    /// An index with no entries.
    fn default() -> (r: Kv)
        ensures
            r.len() == 0,
            forall|k: Seq<char>| !r.has_key(k),
    {
        Kv { kv_set: Vec::new() }
    }
}

impl Kv {
    /// Position of `key` in the entry list, if present.
    fn find(&self, key: &String) -> (r: Option<usize>)
        ensures
            match r {
                Some(i) => i < self.len() && self.key_at(i as int) == key@,
                None => !self.has_key(key@),
            },
    {
        let mut i: usize = 0;
        while i < self.kv_set.len()
            invariant
                i <= self.len(),
                forall|j: int| 0 <= j < i ==> self.key_at(j) != key@,
            decreases self.len() - i,
        {
            if self.kv_set[i].0 == *key {
                return Some(i);
            }
            i = i + 1;
        }
        None
    }

    /// All keys currently present, in entry order.
    pub fn get_keys(&self) -> (r: Vec<String>)
        ensures
            r@.len() == self.len(),
            forall|i: int| 0 <= i < r@.len() ==> (#[trigger] r@[i])@ == self.key_at(i),
    {
        let mut keys: Vec<String> = Vec::new();
        let mut i: usize = 0;
        while i < self.kv_set.len()
            invariant
                i <= self.len(),
                keys@.len() == i,
                forall|j: int| 0 <= j < i ==> (#[trigger] keys@[j])@ == self.key_at(j),
            decreases self.len() - i,
        {
            keys.push(self.kv_set[i].0.clone());
            i = i + 1;
        }
        keys
    }

    /// Read the key's whole byte string: every block of its chain in
    /// full but the last, which is read for exactly the fill.
    pub fn get(&self, layout: &Layout, memory: &StableMemory, key: &String) -> (r: Result<
        Vec<u8>,
        KvError,
    >)
        requires
            layout.wf(),
            self.wf(*layout),
            layout.mem_match(*memory),
        ensures
            r is Ok <==> self.has_key(key@),
            r matches Ok(v) ==> v@ == kv_contents(*self, *layout, memory@)[key@],
            r matches Err(e) ==> e is InvalidKey,
    {
        match self.find(key) {
            None => Err(KvError::InvalidKey),
            Some(i) => {
                proof {
                    self.lemma_index_of(i as int);
                }
                let blocks: &Vec<u64> = &self.kv_set[i].1.0;
                let position: u64 = self.kv_set[i].1.1;
                let n: usize = blocks.len();
                let mut data: Vec<u8> = Vec::new();
                let mut bi: usize = 0;
                let ghost rs = layout.reserved_space();
                proof {
                    assert(self.entry_wf(*layout, i as int));
                }
                while bi < n
                    invariant
                        n == blocks@.len(),
                        bi <= n,
                        n >= 1,
                        0 <= i < self.len(),
                        blocks@ == self.blocks_at(i as int),
                        position == self.fill_at(i as int),
                        layout.wf(),
                        self.wf(*layout),
                        layout.mem_match(*memory),
                        rs == layout.reserved_space(),
                        bi < n ==> data@ == entry_bytes(
                            memory@,
                            rs,
                            blocks@.take(bi as int),
                            KV_BLOCK_SIZE as int,
                        ),
                        bi == n ==> data@ == entry_bytes(memory@, rs, blocks@, position as int),
                    decreases n - bi,
                {
                    let b: u64 = blocks[bi];
                    let data_len: u64 = if bi == n - 1 {
                        position
                    } else {
                        KV_BLOCK_SIZE
                    };
                    proof {
                        assert(self.entry_wf(*layout, i as int));
                        assert(layout.allocated(self.blocks_at(i as int)[bi as int] as int));
                        assert(layout.block_covered(b as int));
                    }
                    let pos: u64 = layout.get_position(b, 0);
                    let mut chunk: Vec<u8> = memory.read(pos, data_len);
                    data.append(&mut chunk);
                    proof {
                        let taken = blocks@.take(bi as int);
                        lemma_entry_bytes_concat(memory@, rs, taken, seq![b], data_len as int);
                        assert(taken + seq![b] =~= blocks@.take(bi as int + 1));
                        assert(entry_bytes(memory@, rs, seq![b], data_len as int)
                            == memory@.subrange(
                            block_start(rs, b as int),
                            block_start(rs, b as int) + data_len as int,
                        ));
                        if bi + 1 == n {
                            assert(blocks@.take(n as int) =~= blocks@);
                        }
                    }
                    bi = bi + 1;
                }
                proof {
                    assert(kv_contents(*self, *layout, memory@)[key@] == entry_bytes(
                        memory@,
                        rs,
                        self.blocks_of(key@),
                        self.fill_of(key@) as int,
                    ));
                }
                Ok(data)
            }
        }
    }

    /// Byte count the index records for `key`: full blocks plus the
    /// fill of the final one; zero when absent.
    pub fn get_content_size(&self, layout: &Layout, key: &String) -> (r: u64)
        requires
            layout.wf(),
            self.wf(*layout),
        ensures
            r == self.spec_size(key@),
    {
        match self.find(key) {
            None => 0,
            Some(i) => {
                proof {
                    self.lemma_index_of(i as int);
                    self.lemma_entry_len_bound(*layout, i as int);
                    layout.lemma_wf_bounds();
                }
                let blocks_len: u64 = self.kv_set[i].1.0.len() as u64;
                let position: u64 = self.kv_set[i].1.1;
                proof {
                    assert(self.entry_wf(*layout, i as int));
                }
                (blocks_len - 1) * KV_BLOCK_SIZE + position
            }
        }
    }

    /// Drop the key's entry and hand its blocks back to the allocator;
    /// doing so for an absent key changes nothing. The freed bytes keep
    /// their content until a future allocation overwrites them.
    pub fn del(&mut self, layout: &mut Layout, key: &String)
        requires
            old(layout).wf(),
            old(self).wf(*old(layout)),
        ensures
            final(layout).wf(),
            final(self).wf(*final(layout)),
            final(layout).threshold == old(layout).threshold,
            final(layout).reserved_pages == old(layout).reserved_pages,
            final(layout).kv_block_size == old(layout).kv_block_size,
            final(layout).bit_map@.len() == old(layout).bit_map@.len(),
            final(layout).stable_blocks_count == old(layout).stable_blocks_count,
            !old(self).has_key(key@) ==> *final(self) == *old(self) && *final(layout) == *old(
                layout,
            ),
            forall|k: Seq<char>|
                #![trigger final(self).has_key(k)]
                final(self).has_key(k) <==> (old(self).has_key(k) && k != key@),
            forall|k: Seq<char>|
                #![trigger final(self).blocks_of(k)]
                final(self).has_key(k) ==> final(self).blocks_of(k) == old(self).blocks_of(k)
                    && final(self).fill_of(k) == old(self).fill_of(k),
            old(self).has_key(key@) ==> forall|b: int|
                #![trigger final(layout).allocated(b)]
                final(layout).allocated(b) <==> (old(layout).allocated(b) && !in_list(
                    old(self).blocks_of(key@),
                    b,
                )),
    {
        match self.find(key) {
            None => {}
            Some(i) => {
                proof {
                    self.lemma_index_of(i as int);
                    assert(self.entry_wf(*layout, i as int));
                }
                let ghost pre = *self;
                let entry = self.kv_set.remove(i);
                let blocks = entry.1.0;
                proof {
                    assert(blocks@ == pre.blocks_at(i as int));
                    assert forall|bi: int| 0 <= bi < blocks@.len() implies #[trigger] blocks@[bi]
                        < old(layout).num_blocks() by {
                        assert(old(layout).allocated(pre.blocks_at(i as int)[bi] as int));
                    }
                }
                layout.free_blocks(blocks);
                proof {
                    pre.lemma_del_reindex(*self, *old(layout), *layout, i as int);
                }
            }
        }
    }

    /// After removing entry `i` and clearing exactly its blocks, the
    /// index is sound again and every other key keeps its entry.
    proof fn lemma_del_reindex(self, post: Kv, l1: Layout, l2: Layout, i: int)
        requires
            self.wf(l1),
            l1.wf(),
            0 <= i < self.len(),
            post.kv_set@ == self.kv_set@.remove(i),
            l2.wf(),
            l2.bit_map@.len() == l1.bit_map@.len(),
            forall|b: int|
                #![trigger l2.allocated(b)]
                l2.allocated(b) <==> (l1.allocated(b) && !in_list(self.blocks_at(i), b)),
        ensures
            post.wf(l2),
            forall|k: Seq<char>|
                #![trigger post.has_key(k)]
                post.has_key(k) <==> (self.has_key(k) && k != self.key_at(i)),
            forall|k: Seq<char>|
                #![trigger post.blocks_of(k)]
                post.has_key(k) ==> post.blocks_of(k) == self.blocks_of(k) && post.fill_of(k)
                    == self.fill_of(k),
    {
        assert(post.len() == self.len() - 1);
        assert forall|j: int| 0 <= j < post.len() implies post.kv_set@[j] == self.kv_set@[
        if j < i {
            j
        } else {
            j + 1
        }] by {}
        // soundness of the surviving entries
        assert forall|j: int| 0 <= j < post.len() implies post.entry_wf(l2, j) by {
            let oj: int = if j < i {
                j
            } else {
                j + 1
            };
            assert(self.entry_wf(l1, oj));
            assert forall|bi: int| 0 <= bi < post.blocks_at(j).len() implies l2.allocated(
                #[trigger] post.blocks_at(j)[bi] as int,
            ) by {
                assert(post.blocks_at(j)[bi] == self.blocks_at(oj)[bi]);
                assert(l1.allocated(self.blocks_at(oj)[bi] as int));
                if in_list(self.blocks_at(i), self.blocks_at(oj)[bi] as int) {
                    let w = choose|w: int|
                        0 <= w < self.blocks_at(i).len() && self.blocks_at(i)[w] as int == self
                            .blocks_at(oj)[bi] as int;
                    assert(self.blocks_at(i)[w] != self.blocks_at(oj)[bi]);
                }
            }
        }
        assert forall|j1: int, j2: int| 0 <= j1 < j2 < post.len() implies post.key_at(j1)
            != post.key_at(j2) by {
            let o1: int = if j1 < i {
                j1
            } else {
                j1 + 1
            };
            let o2: int = if j2 < i {
                j2
            } else {
                j2 + 1
            };
            assert(self.key_at(o1) != self.key_at(o2));
        }
        assert forall|j1: int, j2: int, b1: int, b2: int|
            0 <= j1 < post.len() && 0 <= j2 < post.len() && 0 <= b1 < post.blocks_at(j1).len() && 0
                <= b2 < post.blocks_at(j2).len() && (j1 != j2 || b1 != b2) implies #[trigger] post
            .blocks_at(j1)[b1] != #[trigger] post.blocks_at(j2)[b2] by {
            let o1: int = if j1 < i {
                j1
            } else {
                j1 + 1
            };
            let o2: int = if j2 < i {
                j2
            } else {
                j2 + 1
            };
            assert(post.blocks_at(j1)[b1] == self.blocks_at(o1)[b1]);
            assert(post.blocks_at(j2)[b2] == self.blocks_at(o2)[b2]);
            assert(self.blocks_at(o1)[b1] != self.blocks_at(o2)[b2]);
        }
        // membership before and after
        assert forall|k: Seq<char>|
            #![trigger post.has_key(k)]
            post.has_key(k) <==> (self.has_key(k) && k != self.key_at(i)) by {
            if post.has_key(k) {
                let j = choose|j: int| 0 <= j < post.len() && post.key_at(j) == k;
                let oj: int = if j < i {
                    j
                } else {
                    j + 1
                };
                assert(self.key_at(oj) == k);
                assert(self.has_key(k));
                assert(self.key_at(i) != self.key_at(oj) || i == oj);
            }
            if self.has_key(k) && k != self.key_at(i) {
                let oj = choose|oj: int| 0 <= oj < self.len() && self.key_at(oj) == k;
                assert(oj != i);
                let j: int = if oj < i {
                    oj
                } else {
                    oj - 1
                };
                assert(post.key_at(j) == k);
                assert(post.has_key(k));
            }
        }
        // surviving keys keep their entries
        assert forall|k: Seq<char>|
            #![trigger post.blocks_of(k)]
            post.has_key(k) implies post.blocks_of(k) == self.blocks_of(k) && post.fill_of(k)
            == self.fill_of(k) by {
            let j = post.index_of(k);
            post.lemma_index_of(j);
            assert(0 <= j < post.len() && post.key_at(j) == k);
            let oj: int = if j < i {
                j
            } else {
                j + 1
            };
            assert(self.key_at(oj) == k);
            self.lemma_index_of(oj);
            assert(self.index_of(k) == oj);
        }
    }
}


/// A chain whose blocks hold the consecutive block-size chunks of
/// `value` spells out exactly `value`.
proof fn lemma_entry_bytes_from_cells(
    mem: Seq<u8>,
    reserved: int,
    blocks: Seq<u64>,
    value: Seq<u8>,
    fill: int,
)
    requires
        0 <= reserved,
        blocks.len() >= 1,
        1 <= fill <= KV_BLOCK_SIZE,
        value.len() == (blocks.len() - 1) * (KV_BLOCK_SIZE as int) + fill,
        forall|bi: int|
            0 <= bi < blocks.len() ==> block_start(reserved, #[trigger] blocks[bi] as int) + (
            KV_BLOCK_SIZE as int) <= mem.len(),
        forall|k: int, o: int|
            #![trigger mem[block_start(reserved, blocks[k] as int) + o]]
            0 <= k < blocks.len() && 0 <= o < (KV_BLOCK_SIZE as int) && k * (KV_BLOCK_SIZE as int)
                + o < value.len() ==> mem[block_start(reserved, blocks[k] as int) + o] == value[k
                * (KV_BLOCK_SIZE as int) + o],
    ensures
        entry_bytes(mem, reserved, blocks, fill) == value,
    decreases blocks.len(),
{
    if blocks.len() == 1 {
        assert_seqs_equal!(entry_bytes(mem, reserved, blocks, fill) == value, o => {
            assert(mem[block_start(reserved, blocks[0] as int) + o]
                == value[0 * (KV_BLOCK_SIZE as int) + o]);
        });
    } else {
        let rest = blocks.drop_first();
        let vrest = value.skip(KV_BLOCK_SIZE as int);
        assert(vrest.len() == (rest.len() - 1) * (KV_BLOCK_SIZE as int) + fill);
        assert forall|bi: int|
            0 <= bi < rest.len() implies block_start(reserved, #[trigger] rest[bi] as int) + (
        KV_BLOCK_SIZE as int) <= mem.len() by {
            assert(rest[bi] == blocks[bi + 1]);
            assert(block_start(reserved, blocks[bi + 1] as int) + (KV_BLOCK_SIZE as int)
                <= mem.len());
        }
        assert forall|k: int, o: int|
            #![trigger mem[block_start(reserved, rest[k] as int) + o]]
            0 <= k < rest.len() && 0 <= o < (KV_BLOCK_SIZE as int) && k * (KV_BLOCK_SIZE as int) + o
                < vrest.len() implies mem[block_start(reserved, rest[k] as int) + o] == vrest[k * (
        KV_BLOCK_SIZE as int) + o] by {
            assert(rest[k] == blocks[k + 1]);
            assert((k + 1) * (KV_BLOCK_SIZE as int) + o == (KV_BLOCK_SIZE as int) + (k * (
            KV_BLOCK_SIZE as int) + o));
            assert(mem[block_start(reserved, blocks[k + 1] as int) + o] == value[(k + 1) * (
            KV_BLOCK_SIZE as int) + o]);
            assert(vrest[k * (KV_BLOCK_SIZE as int) + o] == value[(k + 1) * (KV_BLOCK_SIZE as int)
                + o]);
        }
        lemma_entry_bytes_from_cells(mem, reserved, rest, vrest, fill);
        assert_seqs_equal!(
            mem.subrange(
                block_start(reserved, blocks[0] as int),
                block_start(reserved, blocks[0] as int) + KV_BLOCK_SIZE as int,
            ) == value.take(KV_BLOCK_SIZE as int),
            o => {
                assert(mem[block_start(reserved, blocks[0] as int) + o]
                    == value[0 * (KV_BLOCK_SIZE as int) + o]);
            }
        );
        assert(entry_bytes(mem, reserved, blocks, fill) =~= value.take(KV_BLOCK_SIZE as int)
            + value.skip(KV_BLOCK_SIZE as int));
        assert(value.take(KV_BLOCK_SIZE as int) + value.skip(KV_BLOCK_SIZE as int) =~= value);
    }
}

/// Write `value` into freshly allocated blocks, block-size chunk by
/// chunk, and report the chain with the fill of its final block. Fails
/// with no state change exactly when too few blocks are free.
#[verifier::rlimit(80)]
#[verifier::spinoff_prover]
fn _insert_data(layout: &mut Layout, memory: &mut StableMemory, value: Vec<u8>) -> (r: Result<
    (Vec<u64>, u64),
    KvError,
>)
    requires
        old(layout).wf(),
        old(layout).mem_match(*old(memory)),
        value@.len() >= 1,
    ensures
        final(layout).wf(),
        final(layout).mem_match(*final(memory)),
        final(layout).threshold == old(layout).threshold,
        final(layout).reserved_pages == old(layout).reserved_pages,
        final(layout).kv_block_size == old(layout).kv_block_size,
        final(layout).bit_map@.len() == old(layout).bit_map@.len(),
        final(layout).stable_blocks_count >= old(layout).stable_blocks_count,
        final(memory).max_pages == old(memory).max_pages,
        final(memory)@.len() >= old(memory)@.len(),
        r is Ok <==> spec_need_blocks(value@.len() as int) <= old(layout).count_free(),
        r matches Ok((blocks, fill)) ==> (all_covered(*old(layout), blocks@)
            ==> final(layout).stable_blocks_count == old(layout).stable_blocks_count),
        r is Err ==> *final(layout) == *old(layout) && *final(memory) == *old(memory),
        r matches Err(e) ==> e matches KvError::Other(s) && s@ == "not enough space"@,
        r matches Ok((blocks, fill)) ==> {
            &&& blocks@.len() == spec_need_blocks(value@.len() as int)
            &&& old(layout).first_fit(blocks@)
            &&& 1 <= fill <= KV_BLOCK_SIZE
            &&& value@.len() == (blocks@.len() - 1) * (KV_BLOCK_SIZE as int) + fill
            &&& forall|b: int|
                #![trigger final(layout).allocated(b)]
                final(layout).allocated(b) <==> (old(layout).allocated(b) || in_list(blocks@, b))
            &&& entry_bytes(
                final(memory)@,
                final(layout).reserved_space(),
                blocks@,
                fill as int,
            ) == value@
            &&& forall|oo: int|
                #![trigger final(memory)@[oo]]
                0 <= oo < old(memory)@.len() && !in_blocks_range(
                    old(layout).reserved_space(),
                    blocks@,
                    oo,
                ) ==> final(memory)@[oo] == old(memory)@[oo]
        },
{
    let len64: u64 = value.len() as u64;
    let need: u64 = if len64 % KV_BLOCK_SIZE == 0 {
        len64 / KV_BLOCK_SIZE
    } else {
        len64 / KV_BLOCK_SIZE + 1
    };
    proof {
        vstd::arithmetic::div_mod::lemma_fundamental_div_mod(len64 as int, KV_BLOCK_SIZE as int);
        assert(need == spec_need_blocks(len64 as int));
        assert((need as int - 1) * (KV_BLOCK_SIZE as int) < len64 <= need as int * (
        KV_BLOCK_SIZE as int));
    }
    let blocks: Vec<u64> = match layout.new_blocks(memory, need) {
        Ok(bs) => bs,
        Err(e) => {
            return Err(e);
        }
    };
    let ghost pre = *old(layout);
    let ghost layout1 = *layout;
    let ghost mem1 = *memory;
    let ghost rs = layout.reserved_space();
    proof {
        Layout::lemma_count_free_upto_bounds(pre.bit_map@, pre.num_blocks());
        layout.lemma_wf_bounds();
        assert forall|bi: int| 0 <= bi < blocks@.len() implies layout.allocated(
            #[trigger] blocks@[bi] as int,
        ) by {
            assert(in_list(blocks@, blocks@[bi] as int));
        }
    }
    let mut bi: usize = 0;
    let mut position: u64 = KV_BLOCK_SIZE;
    let n: usize = blocks.len();
    while bi < n
        invariant
            n == blocks@.len(),
            bi <= n,
            n == need,
            n >= 1,
            need <= 16777216,
            len64 == value@.len(),
            (need as int - 1) * (KV_BLOCK_SIZE as int) < len64 <= need as int * (
            KV_BLOCK_SIZE as int),
            *layout == layout1,
            layout.wf(),
            layout.mem_match(*memory),
            rs == layout.reserved_space(),
            pre.first_fit(blocks@),
            forall|k: int| 0 <= k < blocks@.len() ==> #[trigger] blocks@[k] < layout.num_blocks(),
            forall|k: int| 0 <= k < blocks@.len() ==> layout.allocated(#[trigger] blocks@[k] as int),
            memory.max_pages == mem1.max_pages,
            memory@.len() == mem1@.len(),
            forall|k: int, o: int|
                #![trigger memory@[block_start(rs, blocks@[k] as int) + o]]
                0 <= k < bi && 0 <= o < (KV_BLOCK_SIZE as int) && k * (KV_BLOCK_SIZE as int) + o
                    < len64 ==> memory@[block_start(rs, blocks@[k] as int) + o] == value@[k * (
                KV_BLOCK_SIZE as int) + o],
            forall|oo: int|
                #![trigger memory@[oo]]
                0 <= oo < mem1@.len() && !in_blocks_range(rs, blocks@, oo) ==> memory@[oo]
                    == mem1@[oo],
            bi > 0 ==> position as int == (if bi as int * (KV_BLOCK_SIZE as int) <= len64 {
                KV_BLOCK_SIZE as int
            } else {
                len64 - (bi - 1) * (KV_BLOCK_SIZE as int)
            }),
        decreases n - bi,
    {
        let b: u64 = blocks[bi];
        let start64: u64 = (bi as u64) * KV_BLOCK_SIZE;
        let end64: u64 = if start64 + KV_BLOCK_SIZE <= len64 {
            start64 + KV_BLOCK_SIZE
        } else {
            len64
        };
        proof {
            assert(bi as int * (KV_BLOCK_SIZE as int) < len64);
            assert(start64 < len64);
            assert(len64 == vstd::std_specs::vec::spec_vec_len(&value));
            assert(value@.len() <= usize::MAX);
            assert(start64 as usize as int == start64 as int);
            assert(end64 as usize as int == end64 as int);
        }
        let chunk_slice: &[u8] = vstd::slice::slice_subrange(
            value.as_slice(),
            start64 as usize,
            end64 as usize,
        );
        let chunk: Vec<u8> = vstd::slice::slice_to_vec(chunk_slice);
        proof {
            assert(layout.allocated(b as int));
            assert(layout.block_covered(b as int));
        }
        let pos: u64 = layout.get_position(b, 0);
        let ghost mem_before = *memory;
        crate::stable::storage_data(memory, pos, chunk);
        position = end64 - start64;
        proof {
            assert forall|k: int, o: int|
                #![trigger memory@[block_start(rs, blocks@[k] as int) + o]]
                0 <= k < bi + 1 && 0 <= o < (KV_BLOCK_SIZE as int) && k * (KV_BLOCK_SIZE as int) + o
                    < len64 implies memory@[block_start(rs, blocks@[k] as int) + o] == value@[k * (
            KV_BLOCK_SIZE as int) + o] by {
                let cell = block_start(rs, blocks@[k] as int) + o;
                if k < bi {
                    if pos <= cell < pos + (end64 - start64) {
                        // two block ranges sharing a byte name the same block
                        assert(blocks@[k] as int == b as int);
                        assert(blocks@[k] != blocks@[bi as int]);
                        assert(false);
                    }
                    assert(memory@[cell] == mem_before@[cell]);
                    assert(mem_before@[block_start(rs, blocks@[k] as int) + o] == value@[k * (
                    KV_BLOCK_SIZE as int) + o]);
                } else {
                    assert(k == bi);
                    assert(cell == pos + o);
                    assert(o < end64 - start64);
                    assert(memory@[pos + o] == chunk_slice@[o]);
                    assert(chunk_slice@[o] == value@[start64 + o]);
                }
            }
            assert forall|oo: int|
                #![trigger memory@[oo]]
                0 <= oo < mem1@.len() && !in_blocks_range(rs, blocks@, oo) implies memory@[oo]
                == mem1@[oo] by {
                if pos <= oo < pos + (end64 - start64) {
                    assert(block_start(rs, blocks@[bi as int] as int) <= oo < block_start(
                        rs,
                        blocks@[bi as int] as int,
                    ) + (KV_BLOCK_SIZE as int));
                    assert(in_blocks_range(rs, blocks@, oo));
                }
                assert(memory@[oo] == mem_before@[oo]);
            }
        }
        bi = bi + 1;
    }
    proof {
        assert(position as int == len64 - (need as int - 1) * (KV_BLOCK_SIZE as int));
        assert(1 <= position <= KV_BLOCK_SIZE);
        assert forall|k: int| 0 <= k < blocks@.len() implies block_start(
            rs,
            #[trigger] blocks@[k] as int,
        ) + (KV_BLOCK_SIZE as int) <= memory@.len() by {
            assert(layout.allocated(blocks@[k] as int));
            assert(layout.block_covered(blocks@[k] as int));
        }
        lemma_entry_bytes_from_cells(memory@, rs, blocks@, value@, position as int);
        if all_covered(pre, blocks@) {
            assert(layout1.stable_blocks_count == pre.stable_blocks_count);
        }
    }
    Ok((blocks, position))
}


impl Kv {
    /// Appending one entry for a fresh key leaves every other key's
    /// entry where it was.
    proof fn lemma_push_reindex(self, post: Kv)
        requires
            self.wf_keys(),
            post.len() == self.len() + 1,
            forall|j: int| 0 <= j < self.len() ==> post.kv_set@[j] == self.kv_set@[j],
            !self.has_key(post.key_at(self.len())),
        ensures
            post.wf_keys(),
            post.index_of(post.key_at(self.len())) == self.len(),
            post.has_key(post.key_at(self.len())),
            forall|k: Seq<char>|
                #![trigger post.has_key(k)]
                post.has_key(k) <==> (self.has_key(k) || k == post.key_at(self.len())),
            forall|k: Seq<char>|
                #![trigger post.index_of(k)]
                self.has_key(k) ==> post.index_of(k) == self.index_of(k) && post.blocks_of(k)
                    == self.blocks_of(k) && post.fill_of(k) == self.fill_of(k),
    {
        let n = self.len();
        assert forall|i: int, j: int| 0 <= i < j < post.len() implies post.key_at(i)
            != post.key_at(j) by {
            if j < n {
                assert(self.key_at(i) != self.key_at(j));
                assert(post.key_at(i) == self.key_at(i));
                assert(post.key_at(j) == self.key_at(j));
            } else {
                assert(post.key_at(i) == self.key_at(i));
                assert(self.has_key(self.key_at(i))) by {
                    self.lemma_index_of(i);
                }
            }
        }
        post.lemma_index_of(n);
        assert forall|k: Seq<char>|
            #![trigger post.has_key(k)]
            post.has_key(k) <==> (self.has_key(k) || k == post.key_at(n)) by {
            if post.has_key(k) {
                let j = choose|j: int| 0 <= j < post.len() && post.key_at(j) == k;
                if j < n {
                    assert(self.key_at(j) == k);
                    assert(self.has_key(k));
                }
            }
            if self.has_key(k) {
                let j = choose|j: int| 0 <= j < self.len() && self.key_at(j) == k;
                assert(post.key_at(j) == k);
                assert(post.has_key(k));
            }
        }
        assert forall|k: Seq<char>| #![trigger post.index_of(k)] self.has_key(k) implies post
            .index_of(k) == self.index_of(k) && post.blocks_of(k) == self.blocks_of(k) && post
            .fill_of(k) == self.fill_of(k) by {
            let j = self.index_of(k);
            assert(0 <= j < n && self.key_at(j) == k);
            assert(post.key_at(j) == k);
            post.lemma_index_of(j);
        }
    }

    /// Store `value` under a key that has no entry yet: the value is
    /// split into block-size chunks, written to freshly allocated
    /// blocks, and recorded with the fill of the final block. Rejects a
    /// present key (overwrite is not supported), an empty value, and a
    /// value needing more blocks than are free; a rejected call changes
    /// nothing.
    pub fn put(
        &mut self,
        layout: &mut Layout,
        memory: &mut StableMemory,
        key: &String,
        value: Vec<u8>,
    ) -> (r: Result<(), KvError>)
        requires
            old(layout).wf(),
            old(self).wf(*old(layout)),
            old(layout).mem_match(*old(memory)),
        ensures
            final(layout).wf(),
            final(self).wf(*final(layout)),
            final(layout).mem_match(*final(memory)),
            final(layout).threshold == old(layout).threshold,
            final(layout).reserved_pages == old(layout).reserved_pages,
            final(layout).kv_block_size == old(layout).kv_block_size,
            final(layout).bit_map@.len() == old(layout).bit_map@.len(),
            final(layout).stable_blocks_count >= old(layout).stable_blocks_count,
            final(memory).max_pages == old(memory).max_pages,
            r is Ok <==> (!old(self).has_key(key@) && value@.len() >= 1 && spec_need_blocks(
                value@.len() as int,
            ) <= old(layout).count_free()),
            r is Ok ==> (all_covered(*old(layout), final(self).blocks_of(key@))
                ==> final(layout).stable_blocks_count == old(layout).stable_blocks_count),
            r is Err ==> *final(self) == *old(self) && *final(layout) == *old(layout),
            r is Err ==> *final(memory) == *old(memory),
            old(self).has_key(key@) ==> (r matches Err(e) && e matches KvError::Other(s) && s@
                == "key exist, please use func append() or del key first"@),
            (!old(self).has_key(key@) && value@.len() == 0) ==> (r matches Err(e)
                && e is BlobSizeError),
            (!old(self).has_key(key@) && value@.len() >= 1 && spec_need_blocks(
                value@.len() as int,
            ) > old(layout).count_free()) ==> (r matches Err(e) && e matches KvError::Other(s)
                && s@ == "not enough space"@),
            r is Ok ==> {
                &&& kv_contents(*final(self), *final(layout), final(memory)@) == kv_contents(
                    *old(self),
                    *old(layout),
                    old(memory)@,
                ).insert(key@, value@)
                &&& forall|k: Seq<char>|
                    #![trigger final(self).has_key(k)]
                    final(self).has_key(k) <==> (old(self).has_key(k) || k == key@)
                &&& final(self).blocks_of(key@).len() == spec_need_blocks(value@.len() as int)
                &&& value@.len() == (final(self).blocks_of(key@).len() - 1) * (
                KV_BLOCK_SIZE as int) + final(self).fill_of(key@)
                &&& old(layout).first_fit(final(self).blocks_of(key@))
                &&& forall|b: int|
                    #![trigger final(layout).allocated(b)]
                    final(layout).allocated(b) <==> (old(layout).allocated(b) || in_list(
                        final(self).blocks_of(key@),
                        b,
                    ))
            },
    {
        if let Some(_i) = self.find(key) {
            return Err(
                KvError::Other("key exist, please use func append() or del key first".to_owned()),
            );
        }
        if value.len() == 0 {
            return Err(KvError::BlobSizeError);
        }
        let ghost old_kv = *self;
        let ghost old_layout = *layout;
        let ghost old_mem = *memory;
        let ghost value_view = value@;
        match _insert_data(layout, memory, value) {
            Ok((blocks, position)) => {
                let ghost new_blocks = blocks@;
                let ghost rs = layout.reserved_space();
                self.kv_set.push((key.clone(), (blocks, position)));
                proof {
                    let n = old_kv.len();
                    assert(self.key_at(n) == key@);
                    old_kv.lemma_push_reindex(*self);
                    assert(self.blocks_of(key@) == new_blocks);
                    assert(self.fill_of(key@) == position);
                    self.lemma_wf_after_put(
                        old_kv,
                        old_layout,
                        *layout,
                        old_mem@,
                        memory@,
                        key@,
                        value_view,
                        rs,
                    );
                }
                Ok(())
            }
            Err(e) => Err(e),
        }
    }

    /// After a fresh entry is written to previously free blocks, the
    /// index is sound again, and the store's contents gained exactly the
    /// new key; nothing else moved.
    proof fn lemma_wf_after_put(
        self,
        pre: Kv,
        l1: Layout,
        l2: Layout,
        m1: Seq<u8>,
        m2: Seq<u8>,
        key: Seq<char>,
        value: Seq<u8>,
        rs: int,
    )
        requires
            l1.wf(),
            l2.wf(),
            pre.wf(l1),
            rs == l1.reserved_space(),
            l2.reserved_space() == rs,
            l2.bit_map@.len() == l1.bit_map@.len(),
            l1.mem_match_len(m1),
            l2.mem_match_len(m2),
            m2.len() >= m1.len(),
            !pre.has_key(key),
            self.len() == pre.len() + 1,
            forall|j: int| 0 <= j < pre.len() ==> self.kv_set@[j] == pre.kv_set@[j],
            self.key_at(pre.len()) == key,
            self.blocks_at(pre.len()).len() >= 1,
            1 <= self.fill_at(pre.len()) <= KV_BLOCK_SIZE,
            value.len() == (self.blocks_at(pre.len()).len() - 1) * (KV_BLOCK_SIZE as int)
                + self.fill_at(pre.len()),
            l1.first_fit(self.blocks_at(pre.len())),
            forall|b: int|
                #![trigger l2.allocated(b)]
                l2.allocated(b) <==> (l1.allocated(b) || in_list(self.blocks_at(pre.len()), b)),
            entry_bytes(m2, rs, self.blocks_at(pre.len()), self.fill_at(pre.len()) as int)
                == value,
            forall|oo: int|
                #![trigger m2[oo]]
                0 <= oo < m1.len() && !in_blocks_range(rs, self.blocks_at(pre.len()), oo) ==> m2[oo]
                    == m1[oo],
        ensures
            self.wf(l2),
            kv_contents(self, l2, m2) == kv_contents(pre, l1, m1).insert(key, value),
    {
        let n = pre.len();
        let nb = self.blocks_at(n);
        pre.lemma_push_reindex(self);
        // every chosen block was free before, so it collides with no
        // existing entry
        assert forall|j: int, bj: int|
            0 <= j < n && 0 <= bj < pre.blocks_at(j).len() implies !in_list(
            nb,
            #[trigger] pre.blocks_at(j)[bj] as int,
        ) by {
            assert(pre.entry_wf(l1, j));
            assert(l1.allocated(pre.blocks_at(j)[bj] as int));
            if in_list(nb, pre.blocks_at(j)[bj] as int) {
                let w = choose|w: int| 0 <= w < nb.len() && nb[w] as int == pre.blocks_at(j)[bj];
                assert(!Layout::bit_at(l1.bit_map@, nb[w] as int));
            }
        }
        // soundness of every entry against the new allocator state
        assert forall|j: int| 0 <= j < self.len() implies self.entry_wf(l2, j) by {
            if j < n {
                assert(pre.entry_wf(l1, j));
                assert forall|bi: int| 0 <= bi < self.blocks_at(j).len() implies l2.allocated(
                    #[trigger] self.blocks_at(j)[bi] as int,
                ) by {
                    assert(self.blocks_at(j) == pre.blocks_at(j));
                    assert(l1.allocated(pre.blocks_at(j)[bi] as int));
                }
            } else {
                assert forall|bi: int| 0 <= bi < self.blocks_at(j).len() implies l2.allocated(
                    #[trigger] self.blocks_at(j)[bi] as int,
                ) by {
                    assert(in_list(nb, nb[bi] as int));
                }
            }
        }
        // no block is referenced twice
        assert forall|i: int, j: int, bi: int, bj: int|
            0 <= i < self.len() && 0 <= j < self.len() && 0 <= bi < self.blocks_at(i).len() && 0
                <= bj < self.blocks_at(j).len() && (i != j || bi != bj) implies #[trigger] self
            .blocks_at(i)[bi] != #[trigger] self.blocks_at(j)[bj] by {
            if i < n && j < n {
                assert(pre.blocks_at(i)[bi] != pre.blocks_at(j)[bj]);
            } else if i < n && j == n {
                assert(!in_list(nb, pre.blocks_at(i)[bi] as int));
                assert(in_list(nb, nb[bj] as int));
            } else if i == n && j < n {
                assert(!in_list(nb, pre.blocks_at(j)[bj] as int));
                assert(in_list(nb, nb[bi] as int));
            } else {
                if bi < bj {
                    assert(nb[bi] < nb[bj]);
                } else {
                    assert(nb[bj] < nb[bi]);
                }
            }
        }
        // contents: the new key carries `value`, everything else reads
        // the same bytes as before
        let c1 = kv_contents(pre, l1, m1);
        let c2 = kv_contents(self, l2, m2);
        assert forall|k: Seq<char>| #[trigger] c2.dom().contains(k) implies c1.insert(
            key,
            value,
        ).dom().contains(k) && c2[k] == c1.insert(key, value)[k] by {
            if k == key {
                assert(c2[k] == value);
            } else {
                assert(pre.has_key(k));
                let j = pre.index_of(k);
                pre.lemma_index_of(j);
                assert(self.blocks_of(k) == pre.blocks_of(k));
                assert(pre.entry_wf(l1, j));
                assert forall|bi: int|
                    0 <= bi < pre.blocks_of(k).len() implies block_start(
                    rs,
                    #[trigger] pre.blocks_of(k)[bi] as int,
                ) + (KV_BLOCK_SIZE as int) <= m1.len() && block_start(
                    rs,
                    pre.blocks_of(k)[bi] as int,
                ) + (KV_BLOCK_SIZE as int) <= m2.len() by {
                    assert(l1.allocated(pre.blocks_at(j)[bi] as int));
                    assert(l1.block_covered(pre.blocks_at(j)[bi] as int));
                }
                assert forall|bi: int, o: int|
                    #![trigger m2[block_start(rs, pre.blocks_of(k)[bi] as int) + o]]
                    0 <= bi < pre.blocks_of(k).len() && 0 <= o < (KV_BLOCK_SIZE as int) && (bi
                        < pre.blocks_of(k).len() - 1 || o < pre.fill_of(k)) implies m2[block_start(
                    rs,
                    pre.blocks_of(k)[bi] as int,
                ) + o] == m1[block_start(rs, pre.blocks_of(k)[bi] as int) + o] by {
                    let cell = block_start(rs, pre.blocks_of(k)[bi] as int) + o;
                    if in_blocks_range(rs, nb, cell) {
                        let w = choose|w: int|
                            #![trigger nb[w]]
                            0 <= w < nb.len() && block_start(rs, nb[w] as int) <= cell
                                < block_start(rs, nb[w] as int) + (KV_BLOCK_SIZE as int);
                        assert(nb[w] as int == pre.blocks_at(j)[bi] as int);
                        assert(!in_list(nb, pre.blocks_at(j)[bi] as int));
                        assert(in_list(nb, nb[w] as int));
                        assert(false);
                    }
                    assert(m2[cell] == m1[cell]);
                }
                lemma_entry_bytes_agree(
                    m2,
                    m1,
                    rs,
                    pre.blocks_of(k),
                    pre.fill_of(k) as int,
                );
            }
        }
        assert forall|k: Seq<char>| #[trigger] c1.insert(key, value).dom().contains(k) implies c2
            .dom().contains(k) by {
            if k != key {
                assert(pre.has_key(k));
            }
        }
        assert(c2 =~= c1.insert(key, value));
    }
}


impl Kv {
    /// Replacing entry `i` with one that keeps its key moves no other
    /// key and leaves every lookup where it was.
    proof fn lemma_update_reindex(self, post: Kv, i: int)
        requires
            self.wf_keys(),
            0 <= i < self.len(),
            post.len() == self.len(),
            forall|j: int| 0 <= j < self.len() && j != i ==> post.kv_set@[j] == self.kv_set@[j],
            post.key_at(i) == self.key_at(i),
        ensures
            post.wf_keys(),
            forall|k: Seq<char>|
                #![trigger post.has_key(k)]
                post.has_key(k) <==> self.has_key(k),
            forall|k: Seq<char>|
                #![trigger post.index_of(k)]
                self.has_key(k) ==> post.index_of(k) == self.index_of(k),
    {
        assert forall|j: int| 0 <= j < self.len() implies post.key_at(j) == self.key_at(j) by {}
        assert forall|k: Seq<char>| #![trigger post.has_key(k)] post.has_key(k) <==> self.has_key(
            k,
        ) by {
            if post.has_key(k) {
                let j = choose|j: int| 0 <= j < post.len() && post.key_at(j) == k;
                assert(self.key_at(j) == k);
                assert(self.has_key(k));
            }
            if self.has_key(k) {
                let j = choose|j: int| 0 <= j < self.len() && self.key_at(j) == k;
                assert(post.key_at(j) == k);
                assert(post.has_key(k));
            }
        }
        assert forall|k: Seq<char>| #![trigger post.index_of(k)] self.has_key(k) implies post
            .index_of(k) == self.index_of(k) by {
            let j = self.index_of(k);
            assert(0 <= j < self.len() && self.key_at(j) == k);
            assert(post.key_at(j) == k);
            post.lemma_index_of(j);
        }
    }

    /// Add `value` at the end of the key's byte string. An absent key is
    /// stored as by `put`. Otherwise the free room of the final block is
    /// topped up first; any remaining suffix goes to freshly allocated
    /// blocks, extending the chain. A rejected call leaves the contents
    /// unchanged.
    pub fn append(
        &mut self,
        layout: &mut Layout,
        memory: &mut StableMemory,
        key: &String,
        value: Vec<u8>,
    ) -> (r: Result<(), KvError>)
        requires
            old(layout).wf(),
            old(self).wf(*old(layout)),
            old(layout).mem_match(*old(memory)),
        ensures
            final(layout).wf(),
            final(self).wf(*final(layout)),
            final(layout).mem_match(*final(memory)),
            final(layout).threshold == old(layout).threshold,
            final(layout).reserved_pages == old(layout).reserved_pages,
            final(layout).kv_block_size == old(layout).kv_block_size,
            final(layout).bit_map@.len() == old(layout).bit_map@.len(),
            final(layout).stable_blocks_count >= old(layout).stable_blocks_count,
            final(memory).max_pages == old(memory).max_pages,
            r is Ok <==> (if old(self).has_key(key@) {
                value@.len() <= (KV_BLOCK_SIZE as int) - old(self).fill_of(key@)
                    || spec_need_blocks(
                    value@.len() - ((KV_BLOCK_SIZE as int) - old(self).fill_of(key@)),
                ) <= old(layout).count_free()
            } else {
                value@.len() >= 1 && spec_need_blocks(value@.len() as int) <= old(
                    layout,
                ).count_free()
            }),
            r is Ok ==> {
                &&& forall|k: Seq<char>|
                    #![trigger final(self).has_key(k)]
                    final(self).has_key(k) <==> (old(self).has_key(k) || k == key@)
                &&& kv_contents(*final(self), *final(layout), final(memory)@) == kv_contents(
                    *old(self),
                    *old(layout),
                    old(memory)@,
                ).insert(
                    key@,
                    (if old(self).has_key(key@) {
                        kv_contents(*old(self), *old(layout), old(memory)@)[key@]
                    } else {
                        Seq::<u8>::empty()
                    }) + value@,
                )
            },
            (r is Ok && old(self).has_key(key@) && value@.len() <= (KV_BLOCK_SIZE as int) - old(
                self,
            ).fill_of(key@)) ==> final(self).blocks_of(key@) == old(self).blocks_of(key@)
                && final(self).fill_of(key@) == old(self).fill_of(key@) + value@.len()
                && *final(layout) == *old(layout),
            (r is Ok && old(self).has_key(key@) && value@.len() > (KV_BLOCK_SIZE as int) - old(
                self,
            ).fill_of(key@)) ==> ({
                let fresh = final(self).blocks_of(key@).skip(
                    old(self).blocks_of(key@).len() as int,
                );
                let rest_len = value@.len() - ((KV_BLOCK_SIZE as int) - old(self).fill_of(key@));
                &&& final(self).blocks_of(key@) == old(self).blocks_of(key@) + fresh
                &&& fresh.len() == spec_need_blocks(rest_len)
                &&& rest_len == (fresh.len() - 1) * (KV_BLOCK_SIZE as int)
                    + final(self).fill_of(key@)
                &&& old(layout).first_fit(fresh)
                &&& forall|b: int|
                    #![trigger final(layout).allocated(b)]
                    final(layout).allocated(b) <==> (old(layout).allocated(b) || in_list(fresh, b))
            }),
            (r is Ok && !old(self).has_key(key@)) ==> ({
                let chain = final(self).blocks_of(key@);
                &&& chain.len() == spec_need_blocks(value@.len() as int)
                &&& value@.len() == (chain.len() - 1) * (KV_BLOCK_SIZE as int)
                    + final(self).fill_of(key@)
                &&& old(layout).first_fit(chain)
                &&& forall|b: int|
                    #![trigger final(layout).allocated(b)]
                    final(layout).allocated(b) <==> (old(layout).allocated(b) || in_list(chain, b))
            }),
            r is Err ==> *final(self) == *old(self) && *final(layout) == *old(layout),
            r is Err ==> kv_contents(*final(self), *final(layout), final(memory)@) == kv_contents(
                *old(self),
                *old(layout),
                old(memory)@,
            ),
            (old(self).has_key(key@) && r is Err) ==> (r matches Err(e) && e matches KvError::Other(
                s,
            ) && s@ == "not enough space"@),
            (!old(self).has_key(key@) && value@.len() == 0) ==> (r matches Err(e)
                && e is BlobSizeError),
            (!old(self).has_key(key@) && value@.len() >= 1 && spec_need_blocks(
                value@.len() as int,
            ) > old(layout).count_free()) ==> (r matches Err(e) && e matches KvError::Other(s)
                && s@ == "not enough space"@),
    {
        let iopt = self.find(key);
        match iopt {
            None => {
                let r = self.put(layout, memory, key, value);
                proof {
                    if r is Ok {
                        let old_c = kv_contents(*old(self), *old(layout), old(memory)@);
                        assert(Seq::<u8>::empty() + value@ =~= value@);
                    }
                }
                r
            }
            Some(i) => {
                proof {
                    self.lemma_index_of(i as int);
                    assert(self.entry_wf(*layout, i as int));
                }
                let ghost pre = *self;
                let ghost l1 = *layout;
                let ghost m0 = memory@;
                let ghost rs = layout.reserved_space();
                let blocks_len: usize = self.kv_set[i].1.0.len();
                let last_block: u64 = self.kv_set[i].1.0[blocks_len - 1];
                let fill: u64 = self.kv_set[i].1.1;
                let room: u64 = KV_BLOCK_SIZE - fill;
                let elen: u64 = value.len() as u64;
                let take_n: u64 = if elen < room {
                    elen
                } else {
                    room
                };
                proof {
                    assert(pre.blocks_at(i as int)[blocks_len - 1] == last_block);
                    assert(layout.allocated(last_block as int));
                    assert(layout.block_covered(last_block as int));
                    assert(value@.len() <= usize::MAX);
                }
                let pos: u64 = layout.get_position(last_block, fill);
                let head_slice: &[u8] = vstd::slice::slice_subrange(
                    value.as_slice(),
                    0,
                    take_n as usize,
                );
                let head: Vec<u8> = vstd::slice::slice_to_vec(head_slice);
                crate::stable::storage_data(memory, pos, head);
                let ghost m1 = memory@;
                proof {
                    // the write landed past the fill mark of this entry's
                    // own final block, so nothing anyone reads changed
                    pre.lemma_topup_preserves_contents(l1, m0, m1, i as int, rs);
                }
                if elen <= room {
                    let mut entry = self.kv_set.remove(i);
                    entry.1.1 = fill + elen;
                    self.kv_set.insert(i, entry);
                    proof {
                        assert(self.kv_set@ =~= pre.kv_set@.update(
                            i as int,
                            (
                                pre.kv_set@[i as int].0,
                                (pre.kv_set@[i as int].1.0, (fill + elen) as u64),
                            ),
                        ));
                        pre.lemma_update_reindex(*self, i as int);
                        assert forall|j: int| 0 <= j < self.len() implies self.entry_wf(
                            *layout,
                            j,
                        ) by {
                            assert(pre.entry_wf(l1, j));
                            if j != i {
                                assert(self.kv_set@[j] == pre.kv_set@[j]);
                            }
                        }
                        assert forall|j1: int, j2: int, b1: int, b2: int|
                            0 <= j1 < self.len() && 0 <= j2 < self.len() && 0 <= b1 < self
                                .blocks_at(j1).len() && 0 <= b2 < self.blocks_at(j2).len() && (j1
                                != j2 || b1 != b2) implies #[trigger] self.blocks_at(j1)[b1]
                            != #[trigger] self.blocks_at(j2)[b2] by {
                            assert(self.blocks_at(j1) == pre.blocks_at(j1));
                            assert(self.blocks_at(j2) == pre.blocks_at(j2));
                            assert(pre.blocks_at(j1)[b1] != pre.blocks_at(j2)[b2]);
                        }
                        self.lemma_contents_after_topup(pre, l1, *layout, m0, m1, key@, i as int, rs, value@);
                    }
                    return Ok(());
                }
                let rest_slice: &[u8] = vstd::slice::slice_subrange(
                    value.as_slice(),
                    take_n as usize,
                    value.len(),
                );
                let rest: Vec<u8> = vstd::slice::slice_to_vec(rest_slice);
                match _insert_data(layout, memory, rest) {
                    Ok((new_blocks, new_position)) => {
                        let ghost nb = new_blocks@;
                        let ghost nf = new_position;
                        let ghost m2 = memory@;
                        let mut entry = self.kv_set.remove(i);
                        let mut nbv = new_blocks;
                        entry.1.0.append(&mut nbv);
                        entry.1.1 = new_position;
                        self.kv_set.insert(i, entry);
                        proof {
                            self.lemma_append_extend(
                                pre,
                                l1,
                                *layout,
                                m0,
                                m1,
                                m2,
                                key@,
                                i as int,
                                rs,
                                value@,
                                room as int,
                                nb,
                                nf,
                            );
                            self.lemma_index_of(i as int);
                            pre.lemma_index_of(i as int);
                            assert(self.blocks_of(key@) == pre.blocks_at(i as int) + nb);
                            assert((pre.blocks_at(i as int) + nb).skip(
                                pre.blocks_at(i as int).len() as int,
                            ) =~= nb);
                            assert(self.fill_of(key@) == nf);
                        }
                        Ok(())
                    }
                    Err(e) => {
                        proof {
                            pre.lemma_topup_preserves_contents(l1, m0, m1, i as int, rs);
                        }
                        Err(e)
                    }
                }
            }
        }
    }
}


impl Kv {
    /// Bytes written past the fill mark of an entry's final block are
    /// invisible: no key's byte string changes.
    proof fn lemma_topup_preserves_contents(
        self,
        l: Layout,
        m_a: Seq<u8>,
        m_b: Seq<u8>,
        i: int,
        rs: int,
    )
        requires
            self.wf(l),
            l.wf(),
            rs == l.reserved_space(),
            0 <= i < self.len(),
            l.mem_match_len(m_a),
            m_b.len() == m_a.len(),
            forall|oo: int|
                #![trigger m_b[oo]]
                0 <= oo < m_a.len() && !(block_start(
                    rs,
                    self.blocks_at(i)[self.blocks_at(i).len() - 1] as int,
                ) + self.fill_at(i) <= oo < block_start(
                    rs,
                    self.blocks_at(i)[self.blocks_at(i).len() - 1] as int,
                ) + (KV_BLOCK_SIZE as int)) ==> m_b[oo] == m_a[oo],
        ensures
            kv_contents(self, l, m_b) == kv_contents(self, l, m_a),
    {
        let last = self.blocks_at(i)[self.blocks_at(i).len() - 1] as int;
        let fill_i = self.fill_at(i) as int;
        let ca = kv_contents(self, l, m_a);
        let cb = kv_contents(self, l, m_b);
        assert(self.entry_wf(l, i));
        assert forall|k: Seq<char>| #[trigger] cb.dom().contains(k) implies ca.dom().contains(k)
            && cb[k] == ca[k] by {
            let j = self.index_of(k);
            self.lemma_index_of(j);
            assert(self.entry_wf(l, j));
            let blocks = self.blocks_at(j);
            assert forall|bi: int|
                0 <= bi < blocks.len() implies block_start(rs, #[trigger] blocks[bi] as int) + (
            KV_BLOCK_SIZE as int) <= m_b.len() && block_start(rs, blocks[bi] as int) + (
            KV_BLOCK_SIZE as int) <= m_a.len() by {
                assert(l.allocated(blocks[bi] as int));
                assert(l.block_covered(blocks[bi] as int));
            }
            assert forall|bi: int, o: int|
                #![trigger m_b[block_start(rs, blocks[bi] as int) + o]]
                0 <= bi < blocks.len() && 0 <= o < (KV_BLOCK_SIZE as int) && (bi < blocks.len() - 1
                    || o < self.fill_at(j)) implies m_b[block_start(rs, blocks[bi] as int) + o]
                == m_a[block_start(rs, blocks[bi] as int) + o] by {
                let cell = block_start(rs, blocks[bi] as int) + o;
                assert(l.allocated(blocks[bi] as int));
                assert(l.block_covered(blocks[bi] as int));
                if block_start(rs, last) + fill_i <= cell < block_start(rs, last) + (
                KV_BLOCK_SIZE as int) {
                    // the touched range lies inside entry i's final block
                    assert(blocks[bi] as int == last);
                    assert(self.blocks_at(i)[self.blocks_at(i).len() - 1] == blocks[bi]);
                    assert(j == i && bi == blocks.len() - 1) by {
                        if j != i || bi != self.blocks_at(i).len() - 1 {
                            assert(self.blocks_at(j)[bi] != self.blocks_at(i)[self.blocks_at(
                                i,
                            ).len() - 1]);
                        }
                    }
                    assert(o < fill_i);
                    assert(false);
                }
            }
            lemma_entry_bytes_agree(m_b, m_a, rs, blocks, self.fill_at(j) as int);
        }
        assert(cb =~= ca);
    }

    /// After topping up in place, the store reads as before with the
    /// appended bytes at the end of the key's string.
    proof fn lemma_contents_after_topup(
        self,
        pre: Kv,
        l1: Layout,
        l2: Layout,
        m0: Seq<u8>,
        m1: Seq<u8>,
        key: Seq<char>,
        i: int,
        rs: int,
        value: Seq<u8>,
    )
        requires
            pre.wf(l1),
            l1.wf(),
            l2 == l1,
            rs == l1.reserved_space(),
            l1.mem_match_len(m0),
            m1.len() == m0.len(),
            0 <= i < pre.len(),
            pre.key_at(i) == key,
            pre.fill_at(i) + value.len() <= KV_BLOCK_SIZE,
            self.len() == pre.len(),
            forall|j: int| 0 <= j < pre.len() && j != i ==> self.kv_set@[j] == pre.kv_set@[j],
            self.key_at(i) == key,
            self.blocks_at(i) == pre.blocks_at(i),
            self.fill_at(i) == pre.fill_at(i) + value.len(),
            forall|oo: int|
                #![trigger m1[oo]]
                0 <= oo < m0.len() && !(block_start(
                    rs,
                    pre.blocks_at(i)[pre.blocks_at(i).len() - 1] as int,
                ) + pre.fill_at(i) <= oo < block_start(
                    rs,
                    pre.blocks_at(i)[pre.blocks_at(i).len() - 1] as int,
                ) + (KV_BLOCK_SIZE as int)) ==> m1[oo] == m0[oo],
            forall|o: int|
                #![trigger value[o]]
                0 <= o < value.len() ==> m1[block_start(
                    rs,
                    pre.blocks_at(i)[pre.blocks_at(i).len() - 1] as int,
                ) + pre.fill_at(i) + o] == value[o],
        ensures
            forall|k: Seq<char>|
                #![trigger self.has_key(k)]
                self.has_key(k) <==> pre.has_key(k),
            self.blocks_of(key) == pre.blocks_of(key),
            self.fill_of(key) == pre.fill_of(key) + value.len(),
            kv_contents(self, l1, m1) == kv_contents(pre, l1, m0).insert(
                key,
                kv_contents(pre, l1, m0)[key] + value,
            ),
    {
        let last = pre.blocks_at(i)[pre.blocks_at(i).len() - 1] as int;
        let fill_i = pre.fill_at(i) as int;
        pre.lemma_update_reindex(self, i);
        pre.lemma_index_of(i);
        self.lemma_index_of(i);
        pre.lemma_topup_preserves_contents(l1, m0, m1, i, rs);
        let c0 = kv_contents(pre, l1, m0);
        let c1 = kv_contents(pre, l1, m1);
        let c2 = kv_contents(self, l1, m1);
        assert(pre.entry_wf(l1, i));
        assert(l1.allocated(last));
        assert(l1.block_covered(last));
        assert forall|k: Seq<char>| #[trigger] c2.dom().contains(k) implies c0.insert(
            key,
            c0[key] + value,
        ).dom().contains(k) && c2[k] == c0.insert(key, c0[key] + value)[k] by {
            if k == key {
                lemma_entry_bytes_fill_extend(
                    m1,
                    rs,
                    pre.blocks_at(i),
                    fill_i,
                    fill_i + value.len() as int,
                );
                assert(c1[key] == entry_bytes(m1, rs, pre.blocks_at(i), fill_i));
                assert(c2[key] == entry_bytes(
                    m1,
                    rs,
                    pre.blocks_at(i),
                    fill_i + value.len() as int,
                ));
                assert_seqs_equal!(
                    m1.subrange(
                        block_start(rs, last) + fill_i,
                        block_start(rs, last) + fill_i + value.len() as int,
                    ) == value,
                    o => {
                        assert(m1[block_start(rs, last) + fill_i + o] == value[o]);
                    }
                );
                assert(c2[key] == c1[key] + value);
                assert(c1[key] == c0[key]);
            } else {
                let j = self.index_of(k);
                self.lemma_index_of(j);
                assert(j != i);
                assert(self.kv_set@[j] == pre.kv_set@[j]);
                pre.lemma_index_of(j);
                assert(c2[k] == entry_bytes(m1, rs, pre.blocks_at(j), pre.fill_at(j) as int));
                assert(c1[k] == entry_bytes(m1, rs, pre.blocks_at(j), pre.fill_at(j) as int));
                assert(c1[k] == c0[k]);
            }
        }
        assert forall|k: Seq<char>|
            #[trigger] c0.insert(key, c0[key] + value).dom().contains(k) implies c2.dom().contains(
            k,
        ) by {}
        assert(c2 =~= c0.insert(key, c0[key] + value));
    }
}


impl Kv {
    /// After topping the final block up to a whole block and writing the
    /// remaining suffix to freshly allocated blocks, the extended chain
    /// spells out the old byte string followed by the appended bytes,
    /// and the index is sound against the new allocator state.
    proof fn lemma_append_extend(
        self,
        pre: Kv,
        l1: Layout,
        l2: Layout,
        m0: Seq<u8>,
        m1: Seq<u8>,
        m2: Seq<u8>,
        key: Seq<char>,
        i: int,
        rs: int,
        value: Seq<u8>,
        room: int,
        nb: Seq<u64>,
        nf: u64,
    )
        requires
            pre.wf(l1),
            l1.wf(),
            l2.wf(),
            rs == l1.reserved_space(),
            l2.reserved_space() == rs,
            l1.mem_match_len(m0),
            m1.len() == m0.len(),
            l2.mem_match_len(m2),
            m2.len() >= m1.len(),
            0 <= i < pre.len(),
            pre.key_at(i) == key,
            room == (KV_BLOCK_SIZE as int) - pre.fill_at(i),
            value.len() > room,
            nb.len() >= 1,
            1 <= nf <= KV_BLOCK_SIZE,
            l1.first_fit(nb),
            forall|b: int|
                #![trigger l2.allocated(b)]
                l2.allocated(b) <==> (l1.allocated(b) || in_list(nb, b)),
            entry_bytes(m2, rs, nb, nf as int) == value.skip(room),
            forall|oo: int|
                #![trigger m1[oo]]
                0 <= oo < m0.len() && !(block_start(
                    rs,
                    pre.blocks_at(i)[pre.blocks_at(i).len() - 1] as int,
                ) + pre.fill_at(i) <= oo < block_start(
                    rs,
                    pre.blocks_at(i)[pre.blocks_at(i).len() - 1] as int,
                ) + (KV_BLOCK_SIZE as int)) ==> m1[oo] == m0[oo],
            forall|o: int|
                #![trigger value[o]]
                0 <= o < room ==> m1[block_start(
                    rs,
                    pre.blocks_at(i)[pre.blocks_at(i).len() - 1] as int,
                ) + pre.fill_at(i) + o] == value[o],
            forall|oo: int|
                #![trigger m2[oo]]
                0 <= oo < m1.len() && !in_blocks_range(rs, nb, oo) ==> m2[oo] == m1[oo],
            self.len() == pre.len(),
            forall|j: int| 0 <= j < pre.len() && j != i ==> self.kv_set@[j] == pre.kv_set@[j],
            self.key_at(i) == key,
            self.blocks_at(i) == pre.blocks_at(i) + nb,
            self.fill_at(i) == nf,
        ensures
            self.wf(l2),
            forall|k: Seq<char>|
                #![trigger self.has_key(k)]
                self.has_key(k) <==> pre.has_key(k),
            kv_contents(self, l2, m2) == kv_contents(pre, l1, m0).insert(
                key,
                kv_contents(pre, l1, m0)[key] + value,
            ),
    {
        let last = pre.blocks_at(i)[pre.blocks_at(i).len() - 1] as int;
        let fill_i = pre.fill_at(i) as int;
        let ob = pre.blocks_at(i);
        pre.lemma_update_reindex(self, i);
        pre.lemma_index_of(i);
        self.lemma_index_of(i);
        assert(pre.entry_wf(l1, i));
        pre.lemma_topup_preserves_contents(l1, m0, m1, i, rs);
        // no freshly allocated block collides with any block in use
        assert forall|j: int, bj: int|
            0 <= j < pre.len() && 0 <= bj < pre.blocks_at(j).len() implies !in_list(
            nb,
            #[trigger] pre.blocks_at(j)[bj] as int,
        ) by {
            assert(pre.entry_wf(l1, j));
            assert(l1.allocated(pre.blocks_at(j)[bj] as int));
            if in_list(nb, pre.blocks_at(j)[bj] as int) {
                let w = choose|w: int| 0 <= w < nb.len() && nb[w] as int == pre.blocks_at(j)[bj];
                assert(!Layout::bit_at(l1.bit_map@, nb[w] as int));
            }
        }
        // the index stays sound
        assert forall|j: int| 0 <= j < self.len() implies self.entry_wf(l2, j) by {
            assert(pre.entry_wf(l1, j));
            if j != i {
                assert(self.kv_set@[j] == pre.kv_set@[j]);
                assert forall|bi: int| 0 <= bi < self.blocks_at(j).len() implies l2.allocated(
                    #[trigger] self.blocks_at(j)[bi] as int,
                ) by {
                    assert(l1.allocated(pre.blocks_at(j)[bi] as int));
                }
            } else {
                assert forall|bi: int| 0 <= bi < self.blocks_at(j).len() implies l2.allocated(
                    #[trigger] self.blocks_at(j)[bi] as int,
                ) by {
                    if bi < ob.len() {
                        assert(self.blocks_at(j)[bi] == ob[bi]);
                        assert(l1.allocated(ob[bi] as int));
                    } else {
                        assert(self.blocks_at(j)[bi] == nb[bi - ob.len()]);
                        assert(in_list(nb, nb[bi - ob.len()] as int));
                    }
                }
            }
        }
        assert forall|j1: int, j2: int, b1: int, b2: int|
            0 <= j1 < self.len() && 0 <= j2 < self.len() && 0 <= b1 < self.blocks_at(j1).len() && 0
                <= b2 < self.blocks_at(j2).len() && (j1 != j2 || b1 != b2) implies #[trigger] self
            .blocks_at(j1)[b1] != #[trigger] self.blocks_at(j2)[b2] by {
            let v1: u64 = if j1 == i && b1 >= ob.len() {
                nb[b1 - ob.len()]
            } else {
                pre.blocks_at(j1)[b1]
            };
            let v2: u64 = if j2 == i && b2 >= ob.len() {
                nb[b2 - ob.len()]
            } else {
                pre.blocks_at(j2)[b2]
            };
            assert(self.blocks_at(j1)[b1] == v1);
            assert(self.blocks_at(j2)[b2] == v2);
            if (j1 == i && b1 >= ob.len()) && (j2 == i && b2 >= ob.len()) {
                if b1 - ob.len() < b2 - ob.len() {
                    assert(nb[b1 - ob.len()] < nb[b2 - ob.len()]);
                } else {
                    assert(nb[b2 - ob.len()] < nb[b1 - ob.len()]);
                }
            } else if j1 == i && b1 >= ob.len() {
                assert(!in_list(nb, pre.blocks_at(j2)[b2] as int));
                assert(in_list(nb, nb[b1 - ob.len()] as int));
            } else if j2 == i && b2 >= ob.len() {
                assert(!in_list(nb, pre.blocks_at(j1)[b1] as int));
                assert(in_list(nb, nb[b2 - ob.len()] as int));
            } else {
                assert(pre.blocks_at(j1)[b1] != pre.blocks_at(j2)[b2]);
            }
        }
        // the key's byte string: old bytes, then the appended ones
        let c0 = kv_contents(pre, l1, m0);
        let c1 = kv_contents(pre, l1, m1);
        let c2 = kv_contents(self, l2, m2);
        assert forall|bi: int|
            0 <= bi < ob.len() implies block_start(rs, #[trigger] ob[bi] as int) + (
        KV_BLOCK_SIZE as int) <= m1.len() && block_start(rs, ob[bi] as int) + (
        KV_BLOCK_SIZE as int) <= m2.len() by {
            assert(l1.allocated(ob[bi] as int));
            assert(l1.block_covered(ob[bi] as int));
        }
        assert forall|bi: int, o: int|
            #![trigger m2[block_start(rs, ob[bi] as int) + o]]
            0 <= bi < ob.len() && 0 <= o < (KV_BLOCK_SIZE as int) && (bi < ob.len() - 1 || o < (
            KV_BLOCK_SIZE as int)) implies m2[block_start(rs, ob[bi] as int) + o] == m1[block_start(
            rs,
            ob[bi] as int,
        ) + o] by {
            let cell = block_start(rs, ob[bi] as int) + o;
            if in_blocks_range(rs, nb, cell) {
                let w = choose|w: int|
                    #![trigger nb[w]]
                    0 <= w < nb.len() && block_start(rs, nb[w] as int) <= cell < block_start(
                        rs,
                        nb[w] as int,
                    ) + (KV_BLOCK_SIZE as int);
                assert(nb[w] as int == ob[bi] as int);
                assert(!in_list(nb, pre.blocks_at(i)[bi] as int));
                assert(in_list(nb, nb[w] as int));
                assert(false);
            }
            assert(m2[cell] == m1[cell]);
        }
        lemma_entry_bytes_agree(m2, m1, rs, ob, KV_BLOCK_SIZE as int);
        lemma_entry_bytes_fill_extend(m1, rs, ob, fill_i, KV_BLOCK_SIZE as int);
        lemma_entry_bytes_concat(m2, rs, ob, nb, nf as int);
        assert(ob + nb == self.blocks_at(i));
        assert_seqs_equal!(
            m1.subrange(
                block_start(rs, last) + fill_i,
                block_start(rs, last) + KV_BLOCK_SIZE as int,
            ) == value.take(room),
            o => {
                assert(m1[block_start(rs, last) + fill_i + o] == value[o]);
            }
        );
        assert(entry_bytes(m2, rs, self.blocks_at(i), nf as int) == entry_bytes(
            m1,
            rs,
            ob,
            fill_i,
        ) + value.take(room) + value.skip(room));
        assert(c1[key] == entry_bytes(m1, rs, ob, fill_i));
        assert(c1[key] == c0[key]);
        assert(entry_bytes(m1, rs, ob, fill_i) + value.take(room) + value.skip(room) =~= c0[key]
            + value);
        // the rest of the map is untouched
        assert forall|k: Seq<char>| #[trigger] c2.dom().contains(k) implies c0.insert(
            key,
            c0[key] + value,
        ).dom().contains(k) && c2[k] == c0.insert(key, c0[key] + value)[k] by {
            if k == key {
                assert(c2[key] == entry_bytes(m2, rs, self.blocks_at(i), nf as int));
            } else {
                let j = self.index_of(k);
                self.lemma_index_of(j);
                assert(j != i);
                assert(self.kv_set@[j] == pre.kv_set@[j]);
                pre.lemma_index_of(j);
                assert(pre.entry_wf(l1, j));
                let blocks = pre.blocks_at(j);
                assert forall|bi: int|
                    0 <= bi < blocks.len() implies block_start(rs, #[trigger] blocks[bi] as int)
                    + (KV_BLOCK_SIZE as int) <= m1.len() && block_start(rs, blocks[bi] as int) + (
                KV_BLOCK_SIZE as int) <= m2.len() by {
                    assert(l1.allocated(blocks[bi] as int));
                    assert(l1.block_covered(blocks[bi] as int));
                }
                assert forall|bi: int, o: int|
                    #![trigger m2[block_start(rs, blocks[bi] as int) + o]]
                    0 <= bi < blocks.len() && 0 <= o < (KV_BLOCK_SIZE as int) && (bi < blocks.len()
                        - 1 || o < pre.fill_at(j)) implies m2[block_start(rs, blocks[bi] as int)
                    + o] == m1[block_start(rs, blocks[bi] as int) + o] by {
                    let cell = block_start(rs, blocks[bi] as int) + o;
                    if in_blocks_range(rs, nb, cell) {
                        let w = choose|w: int|
                            #![trigger nb[w]]
                            0 <= w < nb.len() && block_start(rs, nb[w] as int) <= cell
                                < block_start(rs, nb[w] as int) + (KV_BLOCK_SIZE as int);
                        assert(nb[w] as int == blocks[bi] as int);
                        assert(!in_list(nb, pre.blocks_at(j)[bi] as int));
                        assert(in_list(nb, nb[w] as int));
                        assert(false);
                    }
                    assert(m2[cell] == m1[cell]);
                }
                lemma_entry_bytes_agree(m2, m1, rs, blocks, pre.fill_at(j) as int);
                assert(c2[k] == entry_bytes(m2, rs, blocks, pre.fill_at(j) as int));
                assert(c1[k] == entry_bytes(m1, rs, blocks, pre.fill_at(j) as int));
                assert(c1[k] == c0[k]);
            }
        }
        assert forall|k: Seq<char>|
            #[trigger] c0.insert(key, c0[key] + value).dom().contains(k) implies c2.dom().contains(
            k,
        ) by {}
        assert(c2 =~= c0.insert(key, c0[key] + value));
    }
}


impl Store {
    /// The store is sound: allocator, index and backing memory agree.
    pub open spec fn wf(self) -> bool {
        &&& self.layout.wf()
        &&& self.kv.wf(self.layout)
        &&& self.layout.mem_match(self.memory)
    }

    /// What the store holds: each present key and its exact bytes.
    pub open spec fn contents(self) -> Map<Seq<char>, Seq<u8>> {
        kv_contents(self.kv, self.layout, self.memory@)
    }

    /// A fresh, empty store: the allocator is sized for `threshold`
    /// bytes in all, and the reserved header region is provisioned up
    /// front.
    pub fn new(threshold: u64, reserved_pages: u64) -> (r: Store)
        requires
            threshold <= THRESHOLD,
            reserved_pages <= threshold / MAX_PAGE_BYTE,
        ensures
            r.wf(),
            r.contents() == Map::<Seq<char>, Seq<u8>>::empty(),
            r.kv.len() == 0,
            forall|k: Seq<char>| !r.kv.has_key(k),
            r.layout.threshold == threshold,
            r.layout.reserved_pages == reserved_pages,
            forall|b: int| !r.layout.allocated(b),
            r.layout.count_free() == r.layout.num_blocks(),
    {
        let layout = Layout::new(threshold, reserved_pages);
        proof {
            layout.lemma_wf_bounds();
        }
        let total: u64 = threshold / MAX_PAGE_BYTE;
        let mut memory = StableMemory::new(total);
        match memory.grow(reserved_pages) {
            Ok(_) => {}
            Err(_) => {
                proof {
                    assert(false);
                }
            }
        }
        let kv = Kv { kv_set: Vec::new() };
        let r = Store { kv, layout, memory };
        proof {
            assert(r.contents() =~= Map::<Seq<char>, Seq<u8>>::empty());
        }
        r
    }

    /// A present key's recorded size is exactly how many bytes it reads
    /// back: full blocks plus the fill of the final one.
    pub proof fn lemma_size_is_bytes(self, k: Seq<char>)
        requires
            self.wf(),
            self.kv.has_key(k),
        ensures
            self.contents()[k].len() == self.kv.spec_size(k),
    {
        let j = self.kv.index_of(k);
        assert(0 <= j < self.kv.len() && self.kv.key_at(j) == k);
        assert(self.kv.entry_wf(self.layout, j));
        let rs = self.layout.reserved_space();
        assert forall|bi: int|
            0 <= bi < self.kv.blocks_at(j).len() implies block_start(
            rs,
            #[trigger] self.kv.blocks_at(j)[bi] as int,
        ) + (KV_BLOCK_SIZE as int) <= self.memory@.len() by {
            assert(self.layout.allocated(self.kv.blocks_at(j)[bi] as int));
            assert(self.layout.block_covered(self.kv.blocks_at(j)[bi] as int));
        }
        lemma_entry_bytes_len(
            self.memory@,
            rs,
            self.kv.blocks_at(j),
            self.kv.fill_at(j) as int,
        );
    }
}

impl Default for Store {
    /// The configuration the store ships with: an 8 GiB ceiling and the
    /// default reserved header region.
    fn default() -> (r: Store)
        ensures
            r.wf(),
            r.contents() == Map::<Seq<char>, Seq<u8>>::empty(),
            r.kv.len() == 0,
            r.layout.threshold == THRESHOLD,
            r.layout.reserved_pages == crate::stable::RESERVED_PAGE,
    {
        Store::new(THRESHOLD, crate::stable::RESERVED_PAGE)
    }
}

/// Byte count recorded for `key`: zero when absent, else full blocks
/// plus the fill of the final one — exactly the length `get` returns.
pub fn get_size(store: &Store, key: &String) -> (r: u64)
    requires
        store.wf(),
    ensures
        r == store.kv.spec_size(key@),
        store.kv.has_key(key@) ==> r == store.contents()[key@].len(),
        !store.kv.has_key(key@) ==> r == 0,
{
    let r = store.kv.get_content_size(&store.layout, key);
    proof {
        if store.kv.has_key(key@) {
            store.lemma_size_is_bytes(key@);
        }
    }
    r
}

/// Read back the key's whole byte string, exactly as put and appended.
pub fn get(store: &Store, key: &String) -> (r: Result<Vec<u8>, KvError>)
    requires
        store.wf(),
    ensures
        r is Ok <==> store.kv.has_key(key@),
        r matches Ok(v) ==> v@ == store.contents()[key@],
        r matches Err(e) ==> e is InvalidKey,
{
    store.kv.get(&store.layout, &store.memory, key)
}

/// Store `value` under a fresh key; see [`Kv::put`].
pub fn put(store: &mut Store, key: &String, value: Vec<u8>) -> (r: Result<(), KvError>)
    requires
        old(store).wf(),
    ensures
        final(store).wf(),
        final(store).layout.threshold == old(store).layout.threshold,
        final(store).layout.reserved_pages == old(store).layout.reserved_pages,
        final(store).layout.stable_blocks_count >= old(store).layout.stable_blocks_count,
        r is Ok <==> (!old(store).kv.has_key(key@) && value@.len() >= 1 && spec_need_blocks(
            value@.len() as int,
        ) <= old(store).layout.count_free()),
        r is Ok ==> (all_covered(old(store).layout, final(store).kv.blocks_of(key@))
            ==> final(store).layout.stable_blocks_count == old(
            store,
        ).layout.stable_blocks_count),
        r is Err ==> *final(store) == *old(store),
        old(store).kv.has_key(key@) ==> (r matches Err(e) && e matches KvError::Other(s) && s@
            == "key exist, please use func append() or del key first"@),
        (!old(store).kv.has_key(key@) && value@.len() == 0) ==> (r matches Err(e)
            && e is BlobSizeError),
        (!old(store).kv.has_key(key@) && value@.len() >= 1 && spec_need_blocks(
            value@.len() as int,
        ) > old(store).layout.count_free()) ==> (r matches Err(e) && e matches KvError::Other(s)
            && s@ == "not enough space"@),
        r is Ok ==> {
            &&& final(store).contents() == old(store).contents().insert(key@, value@)
            &&& forall|k: Seq<char>|
                #![trigger final(store).kv.has_key(k)]
                final(store).kv.has_key(k) <==> (old(store).kv.has_key(k) || k == key@)
            &&& final(store).kv.blocks_of(key@).len() == spec_need_blocks(value@.len() as int)
            &&& old(store).layout.first_fit(final(store).kv.blocks_of(key@))
            &&& forall|b: int|
                #![trigger final(store).layout.allocated(b)]
                final(store).layout.allocated(b) <==> (old(store).layout.allocated(b) || in_list(
                    final(store).kv.blocks_of(key@),
                    b,
                ))
        },
{
    store.kv.put(&mut store.layout, &mut store.memory, key, value)
}

/// Add `value` at the end of the key's byte string; see [`Kv::append`].
pub fn append(store: &mut Store, key: &String, value: Vec<u8>) -> (r: Result<(), KvError>)
    requires
        old(store).wf(),
    ensures
        final(store).wf(),
        final(store).layout.threshold == old(store).layout.threshold,
        final(store).layout.reserved_pages == old(store).layout.reserved_pages,
        final(store).layout.stable_blocks_count >= old(store).layout.stable_blocks_count,
        r is Ok <==> (if old(store).kv.has_key(key@) {
            value@.len() <= (KV_BLOCK_SIZE as int) - old(store).kv.fill_of(key@)
                || spec_need_blocks(
                value@.len() - ((KV_BLOCK_SIZE as int) - old(store).kv.fill_of(key@)),
            ) <= old(store).layout.count_free()
        } else {
            value@.len() >= 1 && spec_need_blocks(value@.len() as int) <= old(
                store,
            ).layout.count_free()
        }),
        r is Ok ==> final(store).contents() == old(store).contents().insert(
            key@,
            (if old(store).kv.has_key(key@) {
                old(store).contents()[key@]
            } else {
                Seq::<u8>::empty()
            }) + value@,
        ),
        r is Ok ==> forall|k: Seq<char>|
            #![trigger final(store).kv.has_key(k)]
            final(store).kv.has_key(k) <==> (old(store).kv.has_key(k) || k == key@),
        r is Err ==> final(store).contents() == old(store).contents() && final(store).kv == old(
            store,
        ).kv && final(store).layout == old(store).layout,
        (!old(store).kv.has_key(key@) && value@.len() == 0) ==> (r matches Err(e)
            && e is BlobSizeError),
        (old(store).kv.has_key(key@) && r is Err) ==> (r matches Err(e) && e matches KvError::Other(
            s,
        ) && s@ == "not enough space"@),
        (!old(store).kv.has_key(key@) && value@.len() >= 1 && spec_need_blocks(
            value@.len() as int,
        ) > old(store).layout.count_free()) ==> (r matches Err(e) && e matches KvError::Other(s)
            && s@ == "not enough space"@),
        (r is Ok && old(store).kv.has_key(key@) && value@.len() <= (KV_BLOCK_SIZE as int) - old(
            store,
        ).kv.fill_of(key@)) ==> final(store).kv.blocks_of(key@) == old(store).kv.blocks_of(key@)
            && final(store).kv.fill_of(key@) == old(store).kv.fill_of(key@) + value@.len()
            && final(store).layout == old(store).layout,
        (r is Ok && old(store).kv.has_key(key@) && value@.len() > (KV_BLOCK_SIZE as int) - old(
            store,
        ).kv.fill_of(key@)) ==> ({
            let fresh = final(store).kv.blocks_of(key@).skip(
                old(store).kv.blocks_of(key@).len() as int,
            );
            let rest_len = value@.len() - ((KV_BLOCK_SIZE as int) - old(store).kv.fill_of(key@));
            &&& final(store).kv.blocks_of(key@) == old(store).kv.blocks_of(key@) + fresh
            &&& fresh.len() == spec_need_blocks(rest_len)
            &&& rest_len == (fresh.len() - 1) * (KV_BLOCK_SIZE as int)
                + final(store).kv.fill_of(key@)
            &&& old(store).layout.first_fit(fresh)
            &&& forall|b: int|
                #![trigger final(store).layout.allocated(b)]
                final(store).layout.allocated(b) <==> (old(store).layout.allocated(b) || in_list(
                    fresh,
                    b,
                ))
        }),
        (r is Ok && !old(store).kv.has_key(key@)) ==> ({
            let chain = final(store).kv.blocks_of(key@);
            &&& chain.len() == spec_need_blocks(value@.len() as int)
            &&& value@.len() == (chain.len() - 1) * (KV_BLOCK_SIZE as int)
                + final(store).kv.fill_of(key@)
            &&& old(store).layout.first_fit(chain)
            &&& forall|b: int|
                #![trigger final(store).layout.allocated(b)]
                final(store).layout.allocated(b) <==> (old(store).layout.allocated(b) || in_list(
                    chain,
                    b,
                ))
        }),
{
    store.kv.append(&mut store.layout, &mut store.memory, key, value)
}

/// Drop the key's entry and free its blocks; a no-op for an absent key.
pub fn del(store: &mut Store, key: &String)
    requires
        old(store).wf(),
    ensures
        final(store).wf(),
        final(store).layout.threshold == old(store).layout.threshold,
        final(store).layout.reserved_pages == old(store).layout.reserved_pages,
        final(store).memory == old(store).memory,
        final(store).contents() == old(store).contents().remove(key@),
        forall|k2: Seq<char>|
            #![trigger final(store).kv.has_key(k2)]
            final(store).kv.has_key(k2) <==> (old(store).kv.has_key(k2) && k2 != key@),
        !old(store).kv.has_key(key@) ==> *final(store) == *old(store),
        old(store).kv.has_key(key@) ==> forall|b: int|
            #![trigger final(store).layout.allocated(b)]
            final(store).layout.allocated(b) <==> (old(store).layout.allocated(b) && !in_list(
                old(store).kv.blocks_of(key@),
                b,
            )),
{
    let ghost pre = *store;
    store.kv.del(&mut store.layout, key);
    proof {
        let c1 = pre.contents();
        let c2 = store.contents();
        assert forall|k: Seq<char>| #[trigger] c2.dom().contains(k) implies c1.remove(
            key@,
        ).dom().contains(k) && c2[k] == c1.remove(key@)[k] by {
            assert(store.kv.blocks_of(k) == pre.kv.blocks_of(k));
            assert(store.kv.fill_of(k) == pre.kv.fill_of(k));
        }
        assert(c2 =~= c1.remove(key@));
    }
}

/// All keys currently present.
pub fn get_keys(store: &Store) -> (r: Vec<String>)
    requires
        store.wf(),
    ensures
        r@.len() == store.kv.len(),
        forall|i: int| 0 <= i < r@.len() ==> (#[trigger] r@[i])@ == store.kv.key_at(i),
{
    store.kv.get_keys()
}

/// An advisory estimate of the bytes still storable; see
/// [`Layout::get_available_memory_size`].
pub fn get_available_space_size(store: &Store) -> (r: u64)
    requires
        store.wf(),
    ensures
        r == store.layout.threshold - store.layout.stable_blocks_count * MAX_PAGE_BYTE
            + store.layout.count_free() * (KV_BLOCK_SIZE as int),
{
    store.layout.get_available_memory_size()
}

/// A copy of the allocator's packed bit map.
pub fn get_bit_map(store: &Store) -> (r: Vec<u8>)
    requires
        store.wf(),
    ensures
        r@ == store.layout.bit_map@,
{
    store.layout.bit_map()
}


impl Kv {
    /// True when a snapshot taken now would fit the reserved header
    /// region together with its 8-byte length prefix.
    pub fn check_upgrade(&self, layout: &Layout) -> (r: bool)
        requires
            layout.wf(),
        ensures
            r == (8 + crate::codec::spec_encode(*layout, *self).len() < layout.reserved_space()),
    {
        let bytes = crate::codec::encode_state(layout, self);
        let len: u64 = bytes.len() as u64;
        let rs: u64 = layout.reserved_pages * MAX_PAGE_BYTE;
        proof {
            layout.lemma_wf_bounds();
        }
        if rs < 8 {
            return false;
        }
        len < rs - 8
    }

    /// How many bytes a snapshot taken now occupies.
    pub fn get_index_space(&self, layout: &Layout) -> (r: u64)
        requires
            layout.wf(),
        ensures
            r == crate::codec::spec_encode(*layout, *self).len(),
    {
        let bytes = crate::codec::encode_state(layout, self);
        bytes.len() as u64
    }
}

/// True when a snapshot taken now would fit the reserved header region.
pub fn check_upgrade(store: &Store) -> (r: bool)
    requires
        store.wf(),
    ensures
        r == (8 + crate::codec::spec_encode(store.layout, store.kv).len()
            < store.layout.reserved_space()),
{
    store.kv.check_upgrade(&store.layout)
}

/// How many bytes a snapshot taken now occupies.
pub fn get_index_space(store: &Store) -> (r: u64)
    requires
        store.wf(),
    ensures
        r == crate::codec::spec_encode(store.layout, store.kv).len(),
{
    store.kv.get_index_space(&store.layout)
}

/// Snapshot allocator and index into the reserved header region; run
/// once immediately before teardown. The caller must have seen
/// `check_upgrade` pass: an oversize snapshot is not written.
pub fn pre_upgrade(store: &mut Store)
    requires
        old(store).wf(),
        8 + crate::codec::spec_encode(old(store).layout, old(store).kv).len() < old(
            store,
        ).layout.reserved_space(),
    ensures
        final(store).wf(),
        final(store).kv == old(store).kv,
        final(store).layout == old(store).layout,
        final(store).contents() == old(store).contents(),
        final(store).memory@.len() == old(store).memory@.len(),
        final(store).memory.max_pages == old(store).memory.max_pages,
        final(store).memory.spec_pages() == old(store).memory.spec_pages(),
        final(store).memory@.subrange(0, 8) == vstd::bytes::spec_u64_to_le_bytes(
            crate::codec::spec_encode(old(store).layout, old(store).kv).len() as u64,
        ),
        final(store).memory@.subrange(
            8,
            8 + crate::codec::spec_encode(old(store).layout, old(store).kv).len() as int,
        ) == crate::codec::spec_encode(old(store).layout, old(store).kv),
        forall|j: int|
            old(store).layout.reserved_space() <= j < old(store).memory@.len()
                ==> final(store).memory@[j] == old(store).memory@[j],
{
    crate::codec::pre_upgrade(store)
}

/// Restore allocator and index from the reserved header region; run
/// once immediately after boot. A header that holds no acceptable
/// snapshot is fatal: the store is left untouched and the restart
/// sequence must abort.
pub fn post_upgrade(store: &mut Store) -> (r: Result<(), KvError>)
    requires
        old(store).wf(),
    ensures
        final(store).wf(),
        final(store).memory == old(store).memory,
        r is Err ==> *final(store) == *old(store),
        r matches Err(e) ==> e matches KvError::Other(s) && s@ == "deserialization failure"@,
        r is Ok <==> crate::codec::spec_restore_ok(old(store).memory@, old(store).memory),
        r is Ok ==> (crate::codec::spec_decode(
            crate::codec::spec_header_payload(old(store).memory@),
        ) matches Some(m) && crate::codec::model_matches(m, final(store).layout, final(store).kv)),
{
    crate::codec::post_upgrade(store)
}


/// Round trip: when a put has added `v` under `k` — its contract says
/// the contents gained exactly that pairing — a get of `k` yields `v`
/// unchanged, and the recorded size is `v`'s length.
pub proof fn lemma_round_trip(pre: Store, post: Store, k: Seq<char>, v: Seq<u8>)
    requires
        post.wf(),
        post.contents() == pre.contents().insert(k, v),
    ensures
        post.kv.has_key(k),
        post.contents()[k] == v,
        post.kv.spec_size(k) == v.len(),
{
    assert(post.contents().dom().contains(k));
    assert(post.kv.has_key(k));
    post.lemma_size_is_bytes(k);
}

/// Append composition: a put of `v1` under `k` followed by an append
/// of `v2` — each call's contract describing its change to the
/// contents — leaves `k` holding `v1` followed by `v2`.
pub proof fn lemma_append_composition(
    s0: Store,
    s1: Store,
    s2: Store,
    k: Seq<char>,
    v1: Seq<u8>,
    v2: Seq<u8>,
)
    requires
        s1.wf(),
        s1.contents() == s0.contents().insert(k, v1),
        s2.contents() == s1.contents().insert(k, s1.contents()[k] + v2),
    ensures
        s2.contents()[k] == v1 + v2,
{
    assert(s1.contents()[k] == v1);
}


/// Exhaustion and recovery: after a delete has cleared a key's distinct
/// allocated blocks — the change `del` describes — any value needing at
/// most that many blocks meets `put`'s success condition again. The
/// freed blocks were covered already, so such a put also requests no
/// growth.
pub proof fn lemma_recovery(l1: Layout, l2: Layout, freed: Seq<u64>, len: int)
    requires
        l1.wf(),
        l2.bit_map@.len() == l1.bit_map@.len(),
        forall|i: int, j: int| 0 <= i < j < freed.len() ==> freed[i] != freed[j],
        forall|i: int| 0 <= i < freed.len() ==> l1.allocated(#[trigger] freed[i] as int),
        forall|b: int|
            #![trigger l2.allocated(b)]
            l2.allocated(b) <==> (l1.allocated(b) && !in_list(freed, b)),
        1 <= len,
        spec_need_blocks(len) <= freed.len(),
    ensures
        spec_need_blocks(len) <= l2.count_free(),
        all_covered(l1, freed),
{
    l1.lemma_delete_makes_room(l2, freed);
    assert forall|i: int| 0 <= i < freed.len() implies l1.block_covered(
        #[trigger] freed[i] as int,
    ) by {
        assert(l1.allocated(freed[i] as int));
    }
}

} // verus!
