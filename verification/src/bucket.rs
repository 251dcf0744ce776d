use crate::codec::{
    bytes_to_str, lemma_take_u64_of_encode, push_u64, read_u64, spec_take_bytes, spec_take_u64,
};
use crate::layout::THRESHOLD;
use crate::stable::{StableMemory, MAX_PAGE_BYTE, RESERVED_PAGE};
use vstd::assert_seqs_equal;
use vstd::bytes::{lemma_auto_spec_u64_to_from_le_bytes, spec_u64_from_le_bytes,
    spec_u64_to_le_bytes, u64_from_le_bytes, u64_to_le_bytes};
use vstd::prelude::*;
use vstd::utf8::{decode_utf8, encode_utf8, encode_utf8_decode_utf8, encode_utf8_valid_utf8,
    valid_utf8};

verus! {

/// Errors of the offset-bump store.
#[derive(Debug, Clone)]
pub enum Error {
    /// The value does not fit under the configured ceiling.
    InsufficientMemory,
    /// The value has a size the store does not accept.
    BlobSizeError,
    /// The key has no entry.
    InvalidKey,
}

/// A simpler store over the same backing memory: values are laid down
/// one after another at a monotonically rising offset, and each key
/// maps to the list of (offset, length) fields written under it.
/// Nothing is ever reclaimed.
pub struct Bucket {
    /// When set, only half the ceiling may be filled, so a code
    /// upgrade has room to stage its data.
    pub upgradable: bool,
    /// First byte never yet written; starts past the reserved region.
    pub offset: u64,
    /// key -> fields, each (byte offset, byte length), keys distinct.
    pub assets: Vec<(String, Vec<(u64, u64)>)>,
    /// Largest number of bytes the backing memory may ever reach.
    pub threshold: u64,
    /// Growth units set aside for the reserved header region.
    pub reserved_pages: u64,
}

/// One field's bytes.
pub open spec fn seg_bytes(mem: Seq<u8>, f: (u64, u64)) -> Seq<u8> {
    mem.subrange(f.0 as int, f.0 + f.1)
}

/// A field list's bytes, in order.
pub open spec fn segs_bytes(mem: Seq<u8>, fields: Seq<(u64, u64)>) -> Seq<Seq<u8>> {
    Seq::new(fields.len(), |i: int| seg_bytes(mem, fields[i]))
}

/// What the bucket holds: each present key and the byte strings of its
/// fields, in the order they were written.
pub open spec fn bucket_contents(b: Bucket, mem: Seq<u8>) -> Map<Seq<char>, Seq<Seq<u8>>> {
    Map::new(|k: Seq<char>| b.has_key(k), |k: Seq<char>| segs_bytes(mem, b.fields_of(k)))
}

impl Bucket {
    pub open spec fn len(self) -> int {
        self.assets@.len() as int
    }

    pub open spec fn key_at(self, i: int) -> Seq<char> {
        self.assets@[i].0@
    }

    pub open spec fn fields_at(self, i: int) -> Seq<(u64, u64)> {
        self.assets@[i].1@
    }

    pub open spec fn has_key(self, k: Seq<char>) -> bool {
        exists|i: int| 0 <= i < self.len() && self.key_at(i) == k
    }

    pub open spec fn index_of(self, k: Seq<char>) -> int {
        choose|i: int| 0 <= i < self.len() && self.key_at(i) == k
    }

    pub open spec fn fields_of(self, k: Seq<char>) -> Seq<(u64, u64)> {
        self.fields_at(self.index_of(k))
    }

    pub open spec fn total_pages(self) -> int {
        self.threshold as int / MAX_PAGE_BYTE as int
    }

    pub open spec fn reserved_space(self) -> int {
        self.reserved_pages * MAX_PAGE_BYTE
    }

    /// Every field sits between the reserved region and the write
    /// offset, keys are distinct, and the ceiling is respected.
    pub open spec fn wf(self) -> bool {
        &&& self.threshold <= THRESHOLD
        &&& self.threshold % MAX_PAGE_BYTE == 0
        &&& 2 * self.reserved_space() <= self.threshold
        &&& self.reserved_space() <= self.offset <= self.threshold
        &&& self.upgradable ==> 2 * self.offset <= self.threshold
        &&& forall|i: int, j: int| 0 <= i < j < self.len() ==> self.key_at(i) != self.key_at(j)
        &&& forall|i: int, fi: int|
            #![trigger self.fields_at(i)[fi]]
            0 <= i < self.len() && 0 <= fi < self.fields_at(i).len() ==> {
                &&& self.reserved_space() <= self.fields_at(i)[fi].0
                &&& self.fields_at(i)[fi].0 + self.fields_at(i)[fi].1 <= self.offset
            }
    }

    /// The backing memory provisioned for this bucket: grown at least
    /// to the write offset, able to grow to the ceiling.
    pub open spec fn mem_ok(self, m: StableMemory) -> bool {
        &&& m.wf()
        &&& m.max_pages == self.total_pages()
        &&& self.offset <= m@.len()
        &&& m@.len() <= self.threshold
    }

    /// The entry index a present key resolves to is unique.
    pub proof fn lemma_index_of(self, i: int)
        requires
            self.wf(),
            0 <= i < self.len(),
        ensures
            self.has_key(self.key_at(i)),
            self.index_of(self.key_at(i)) == i,
    {
        let k = self.key_at(i);
        assert(self.has_key(k));
        let j = self.index_of(k);
        if j < i {
            assert(self.key_at(j) != self.key_at(i));
        } else if j > i {
            assert(self.key_at(i) != self.key_at(j));
        }
    }

    /// A fresh, empty bucket with its backing memory, the reserved
    /// header region provisioned up front.
    pub fn new(threshold: u64, reserved_pages: u64) -> (r: (Bucket, StableMemory))
        requires
            threshold <= THRESHOLD,
            threshold % MAX_PAGE_BYTE == 0,
            2 * reserved_pages <= threshold / MAX_PAGE_BYTE,
        ensures
            r.0.wf(),
            r.0.mem_ok(r.1),
            r.0.len() == 0,
            forall|k: Seq<char>| !r.0.has_key(k),
            r.0.upgradable,
            r.0.threshold == threshold,
            r.0.reserved_pages == reserved_pages,
            r.0.offset == r.0.reserved_space(),
            bucket_contents(r.0, r.1@) == Map::<Seq<char>, Seq<Seq<u8>>>::empty(),
    {
        let total: u64 = threshold / MAX_PAGE_BYTE;
        proof {
            assert(total <= 131072) by {
                vstd::arithmetic::div_mod::lemma_div_is_ordered(
                    threshold as int,
                    THRESHOLD as int,
                    MAX_PAGE_BYTE as int,
                );
                assert(THRESHOLD / MAX_PAGE_BYTE == 131072);
            }
            vstd::arithmetic::div_mod::lemma_fundamental_div_mod(
                threshold as int,
                MAX_PAGE_BYTE as int,
            );
        }
        let mut memory = StableMemory::new(total);
        match memory.grow(reserved_pages) {
            Ok(_) => {}
            Err(_) => {
                proof {
                    assert(false);
                }
            }
        }
        let bucket = Bucket {
            upgradable: true,
            offset: reserved_pages * MAX_PAGE_BYTE,
            assets: Vec::new(),
            threshold,
            reserved_pages,
        };
        proof {
            assert(bucket_contents(bucket, memory@) =~= Map::<Seq<char>, Seq<Seq<u8>>>::empty());
        }
        (bucket, memory)
    }

    /// A copy of the index state (the backing memory is not copied).
    pub fn get_bucket(&self) -> (r: Bucket)
        ensures
            r.upgradable == self.upgradable,
            r.offset == self.offset,
            r.threshold == self.threshold,
            r.reserved_pages == self.reserved_pages,
            r.len() == self.len(),
            forall|i: int|
                0 <= i < self.len() ==> #[trigger] r.key_at(i) == self.key_at(i) && r.fields_at(i)
                    == self.fields_at(i),
    {
        let mut assets: Vec<(String, Vec<(u64, u64)>)> = Vec::new();
        let mut i: usize = 0;
        while i < self.assets.len()
            invariant
                i <= self.len(),
                assets@.len() == i,
                forall|j: int|
                    0 <= j < i ==> (#[trigger] assets@[j]).0@ == self.key_at(j) && assets@[j].1@
                        == self.fields_at(j),
            decreases self.len() - i,
        {
            let key = self.assets[i].0.clone();
            let mut fields: Vec<(u64, u64)> = Vec::new();
            let mut j: usize = 0;
            while j < self.assets[i].1.len()
                invariant
                    i < self.len(),
                    j <= self.fields_at(i as int).len(),
                    fields@.len() == j,
                    forall|x: int| 0 <= x < j ==> fields@[x] == self.fields_at(i as int)[x],
                decreases self.fields_at(i as int).len() - j,
            {
                fields.push(self.assets[i].1[j]);
                j = j + 1;
            }
            proof {
                assert(fields@ =~= self.fields_at(i as int));
            }
            assets.push((key, fields));
            i = i + 1;
        }
        Bucket {
            upgradable: self.upgradable,
            offset: self.offset,
            assets,
            threshold: self.threshold,
            reserved_pages: self.reserved_pages,
        }
    }

    /// Set or clear the upgrade reservation.
    pub fn init(&mut self, upgrade: bool)
        requires
            old(self).wf(),
            upgrade ==> 2 * old(self).offset <= old(self).threshold,
        ensures
            final(self).wf(),
            final(self).upgradable == upgrade,
            final(self).offset == old(self).offset,
            final(self).assets == old(self).assets,
            final(self).threshold == old(self).threshold,
            final(self).reserved_pages == old(self).reserved_pages,
    {
        self.upgradable = upgrade;
        proof {
            assert forall|i: int, j: int| 0 <= i < j < self.len() implies self.key_at(i)
                != self.key_at(j) by {
                assert(self.key_at(i) == old(self).key_at(i));
                assert(self.key_at(j) == old(self).key_at(j));
                assert(old(self).key_at(i) != old(self).key_at(j));
            }
            assert forall|i: int, fi: int|
                #![trigger self.fields_at(i)[fi]]
                0 <= i < self.len() && 0 <= fi < self.fields_at(i).len() implies {
                &&& self.reserved_space() <= self.fields_at(i)[fi].0
                &&& self.fields_at(i)[fi].0 + self.fields_at(i)[fi].1 <= self.offset
            } by {
                assert(self.fields_at(i) == old(self).fields_at(i));
                assert(old(self).reserved_space() <= old(self).fields_at(i)[fi].0 && old(
                    self,
                ).fields_at(i)[fi].0 + old(self).fields_at(i)[fi].1 <= old(self).offset);
            }
        }
    }

    /// All keys currently present.
    pub fn get_keys(&self) -> (r: Vec<String>)
        ensures
            r@.len() == self.len(),
            forall|i: int| 0 <= i < r@.len() ==> (#[trigger] r@[i])@ == self.key_at(i),
    {
        let mut keys: Vec<String> = Vec::new();
        let mut i: usize = 0;
        while i < self.assets.len()
            invariant
                i <= self.len(),
                keys@.len() == i,
                forall|j: int| 0 <= j < i ==> (#[trigger] keys@[j])@ == self.key_at(j),
            decreases self.len() - i,
        {
            keys.push(self.assets[i].0.clone());
            i = i + 1;
        }
        keys
    }

    fn find(&self, key: &String) -> (r: Option<usize>)
        ensures
            match r {
                Some(i) => i < self.len() && self.key_at(i as int) == key@,
                None => !self.has_key(key@),
            },
    {
        let mut i: usize = 0;
        while i < self.assets.len()
            invariant
                i <= self.len(),
                forall|j: int| 0 <= j < i ==> self.key_at(j) != key@,
            decreases self.len() - i,
        {
            if self.assets[i].0 == *key {
                return Some(i);
            }
            i = i + 1;
        }
        None
    }

    /// Drop the key's entry; the written bytes stay where they are and
    /// are never reused.
    pub fn del_key(&mut self, memory: &StableMemory, key: &String)
        requires
            old(self).wf(),
            old(self).mem_ok(*memory),
        ensures
            final(self).wf(),
            final(self).mem_ok(*memory),
            final(self).offset == old(self).offset,
            final(self).upgradable == old(self).upgradable,
            final(self).threshold == old(self).threshold,
            final(self).reserved_pages == old(self).reserved_pages,
            !old(self).has_key(key@) ==> *final(self) == *old(self),
            forall|k2: Seq<char>|
                #![trigger final(self).has_key(k2)]
                final(self).has_key(k2) <==> (old(self).has_key(k2) && k2 != key@),
            forall|k2: Seq<char>|
                #![trigger final(self).fields_of(k2)]
                final(self).has_key(k2) ==> final(self).fields_of(k2) == old(self).fields_of(k2),
            bucket_contents(*final(self), memory@) == bucket_contents(*old(self), memory@).remove(
                key@,
            ),
    {
        let ghost pre = *self;
        match self.find(key) {
            None => {
                proof {
                    assert(bucket_contents(*self, memory@) =~= bucket_contents(
                        pre,
                        memory@,
                    ).remove(key@));
                }
            }
            Some(i) => {
                proof {
                    self.lemma_index_of(i as int);
                }
                let _removed = self.assets.remove(i);
                proof {
                    pre.lemma_remove_reindex(*self, i as int);
                    let c1 = bucket_contents(pre, memory@);
                    let c2 = bucket_contents(*self, memory@);
                    assert forall|k: Seq<char>| #[trigger] c2.dom().contains(k) implies c1.remove(
                        key@,
                    ).dom().contains(k) && c2[k] == c1.remove(key@)[k] by {
                        assert(self.fields_of(k) == pre.fields_of(k));
                    }
                    assert(c2 =~= c1.remove(key@));
                }
            }
        }
    }

    /// Removing entry `i` leaves every other key's entry where it was.
    proof fn lemma_remove_reindex(self, post: Bucket, i: int)
        requires
            self.wf(),
            0 <= i < self.len(),
            post.assets@ == self.assets@.remove(i),
            post.offset == self.offset,
            post.threshold == self.threshold,
            post.reserved_pages == self.reserved_pages,
            post.upgradable == self.upgradable,
        ensures
            post.wf(),
            forall|k: Seq<char>|
                #![trigger post.has_key(k)]
                post.has_key(k) <==> (self.has_key(k) && k != self.key_at(i)),
            forall|k: Seq<char>|
                #![trigger post.fields_of(k)]
                post.has_key(k) ==> post.fields_of(k) == self.fields_of(k),
    {
        assert(post.len() == self.len() - 1);
        assert forall|j1: int, j2: int| 0 <= j1 < j2 < post.len() implies post.key_at(j1)
            != post.key_at(j2) by {
            let o1: int = if j1 < i {
                j1
            } else {
                j1 + 1
            };
            let o2: int = if j2 < i {
                j2
            } else {
                j2 + 1
            };
            assert(self.key_at(o1) != self.key_at(o2));
        }
        assert forall|j: int, fi: int|
            #![trigger post.fields_at(j)[fi]]
            0 <= j < post.len() && 0 <= fi < post.fields_at(j).len() implies {
            &&& post.reserved_space() <= post.fields_at(j)[fi].0
            &&& post.fields_at(j)[fi].0 + post.fields_at(j)[fi].1 <= post.offset
        } by {
            let oj: int = if j < i {
                j
            } else {
                j + 1
            };
            assert(post.fields_at(j) == self.fields_at(oj));
            assert(self.reserved_space() <= self.fields_at(oj)[fi].0 && self.fields_at(oj)[fi].0
                + self.fields_at(oj)[fi].1 <= self.offset);
        }
        assert forall|k: Seq<char>|
            #![trigger post.has_key(k)]
            post.has_key(k) <==> (self.has_key(k) && k != self.key_at(i)) by {
            if post.has_key(k) {
                let j = choose|j: int| 0 <= j < post.len() && post.key_at(j) == k;
                let oj: int = if j < i {
                    j
                } else {
                    j + 1
                };
                assert(self.key_at(oj) == k);
                assert(self.has_key(k));
                assert(self.key_at(i) != self.key_at(oj) || i == oj);
            }
            if self.has_key(k) && k != self.key_at(i) {
                let oj = choose|oj: int| 0 <= oj < self.len() && self.key_at(oj) == k;
                assert(oj != i);
                let j: int = if oj < i {
                    oj
                } else {
                    oj - 1
                };
                assert(post.key_at(j) == k);
                assert(post.has_key(k));
            }
        }
        assert forall|k: Seq<char>| #![trigger post.fields_of(k)] post.has_key(k) implies post
            .fields_of(k) == self.fields_of(k) by {
            let j = post.index_of(k);
            post.lemma_index_of(j);
            let oj: int = if j < i {
                j
            } else {
                j + 1
            };
            assert(self.key_at(oj) == k);
            self.lemma_index_of(oj);
        }
    }
}


impl Bucket {
    /// Bytes still usable under the ceiling: only half of it when the
    /// upgrade reservation is on.
    pub open spec fn spec_avail(self) -> int {
        if self.upgradable {
            self.threshold as int / 2 - self.offset
        } else {
            self.threshold as int - self.offset
        }
    }

    /// Grow the backing memory far enough to hold `size` further bytes
    /// past the write offset.
    fn _grow_stable_memory_page(&self, memory: &mut StableMemory, size: u64)
        requires
            self.wf(),
            self.mem_ok(*old(memory)),
            self.offset + size <= self.threshold,
        ensures
            self.mem_ok(*final(memory)),
            final(memory)@.len() >= self.offset + size,
            final(memory)@.len() >= old(memory)@.len(),
            final(memory).max_pages == old(memory).max_pages,
            forall|j: int| 0 <= j < old(memory)@.len() ==> final(memory)@[j] == old(memory)@[j],
    {
        let available_mem: u64 = memory.size() * MAX_PAGE_BYTE - self.offset;
        if available_mem < size {
            let need_allo_size: u64 = size - available_mem;
            let grow_page: u64 = (need_allo_size + (MAX_PAGE_BYTE - 1)) / MAX_PAGE_BYTE;
            proof {
                vstd::arithmetic::div_mod::lemma_fundamental_div_mod(
                    need_allo_size as int + (MAX_PAGE_BYTE as int - 1),
                    MAX_PAGE_BYTE as int,
                );
                vstd::arithmetic::div_mod::lemma_fundamental_div_mod(
                    self.threshold as int,
                    MAX_PAGE_BYTE as int,
                );
                assert(memory.spec_pages() + grow_page <= memory.max_pages) by {
                    assert(memory@.len() + grow_page * (MAX_PAGE_BYTE as int)
                        <= self.threshold) by {
                        assert(grow_page * (MAX_PAGE_BYTE as int) < need_allo_size + (
                        MAX_PAGE_BYTE as int));
                        assert(memory@.len() + need_allo_size == self.offset + size);
                        assert(memory@.len() + grow_page * (MAX_PAGE_BYTE as int) < self.threshold
                            + (MAX_PAGE_BYTE as int));
                        assert((memory@.len() + grow_page * (MAX_PAGE_BYTE as int)) % (
                        MAX_PAGE_BYTE as int) == 0) by {
                            vstd::arithmetic::div_mod::lemma_mod_multiples_vanish(
                                memory.spec_pages() + grow_page,
                                0,
                                MAX_PAGE_BYTE as int,
                            );
                            assert(memory@.len() + grow_page * (MAX_PAGE_BYTE as int) == (
                            memory.spec_pages() + grow_page) * (MAX_PAGE_BYTE as int));
                        }
                        assert(self.threshold as int % (MAX_PAGE_BYTE as int) == 0);
                        lemma_page_multiple_below(
                            memory@.len() + grow_page * (MAX_PAGE_BYTE as int),
                            self.threshold as int,
                        );
                    }
                    vstd::arithmetic::mul::lemma_mul_inequality_converse(
                        memory.spec_pages() + grow_page,
                        memory.max_pages as int,
                        MAX_PAGE_BYTE as int,
                    );
                    assert(memory.max_pages * (MAX_PAGE_BYTE as int) == self.threshold) by {
                        assert(memory.max_pages == self.threshold as int / (
                        MAX_PAGE_BYTE as int));
                    }
                }
            }
            match memory.grow(grow_page) {
                Ok(_) => {}
                Err(_) => {
                    proof {
                        assert(false);
                    }
                }
            }
            proof {
                assert(need_allo_size <= grow_page * (MAX_PAGE_BYTE as int));
            }
        }
    }

    /// Reserve the next `total_size` bytes of the address space: check
    /// the ceiling, grow the memory to cover them, and advance the
    /// write offset past them.
    fn _get_field(&mut self, memory: &mut StableMemory, total_size: u64) -> (r: Result<
        (u64, u64),
        Error,
    >)
        requires
            old(self).wf(),
            old(self).mem_ok(*old(memory)),
        ensures
            final(self).wf(),
            final(self).mem_ok(*final(memory)),
            final(self).assets == old(self).assets,
            final(self).upgradable == old(self).upgradable,
            final(self).threshold == old(self).threshold,
            final(self).reserved_pages == old(self).reserved_pages,
            final(memory).max_pages == old(memory).max_pages,
            r is Ok <==> total_size <= old(self).spec_avail(),
            r is Err ==> *final(self) == *old(self) && *final(memory) == *old(memory),
            r matches Err(e) ==> e is InsufficientMemory,
            r matches Ok(f) ==> {
                &&& f == (old(self).offset, total_size)
                &&& final(self).offset == old(self).offset + total_size
                &&& final(memory)@.len() >= final(self).offset
                &&& final(memory)@.len() >= old(memory)@.len()
                &&& forall|j: int|
                    0 <= j < old(memory)@.len() ==> final(memory)@[j] == old(memory)@[j]
            },
    {
        let avail: u64 = if self.upgradable {
            self.threshold / 2 - self.offset
        } else {
            self.threshold - self.offset
        };
        if total_size > avail {
            return Err(Error::InsufficientMemory);
        }
        proof {
            vstd::arithmetic::div_mod::lemma_fundamental_div_mod(self.threshold as int, 2);
        }
        let field: (u64, u64) = (self.offset, total_size);
        self._grow_stable_memory_page(memory, total_size);
        self.offset = self.offset + total_size;
        proof {
            assert forall|i: int, j: int| 0 <= i < j < self.len() implies self.key_at(i)
                != self.key_at(j) by {
                assert(old(self).key_at(i) != old(self).key_at(j));
            }
            assert forall|i: int, fi: int|
                #![trigger self.fields_at(i)[fi]]
                0 <= i < self.len() && 0 <= fi < self.fields_at(i).len() implies {
                &&& self.reserved_space() <= self.fields_at(i)[fi].0
                &&& self.fields_at(i)[fi].0 + self.fields_at(i)[fi].1 <= self.offset
            } by {
                assert(self.fields_at(i) == old(self).fields_at(i));
                assert(old(self).reserved_space() <= old(self).fields_at(i)[fi].0 && old(
                    self,
                ).fields_at(i)[fi].0 + old(self).fields_at(i)[fi].1 <= old(self).offset);
            }
        }
        Ok(field)
    }
}

/// A multiple of the page size strictly below the next page boundary
/// of a page-aligned bound stays at or below the bound.
proof fn lemma_page_multiple_below(x: int, bound: int)
    requires
        x % (MAX_PAGE_BYTE as int) == 0,
        bound % (MAX_PAGE_BYTE as int) == 0,
        x < bound + (MAX_PAGE_BYTE as int),
    ensures
        x <= bound,
{
    if x > bound {
        vstd::arithmetic::div_mod::lemma_fundamental_div_mod(x, MAX_PAGE_BYTE as int);
        vstd::arithmetic::div_mod::lemma_fundamental_div_mod(bound, MAX_PAGE_BYTE as int);
        let qx = x / (MAX_PAGE_BYTE as int);
        let qb = bound / (MAX_PAGE_BYTE as int);
        assert(qx * (MAX_PAGE_BYTE as int) > qb * (MAX_PAGE_BYTE as int));
        vstd::arithmetic::mul::lemma_mul_inequality_converse(qb, qx, MAX_PAGE_BYTE as int);
        assert(qx >= qb + 1);
        vstd::arithmetic::mul::lemma_mul_inequality(qb + 1, qx, MAX_PAGE_BYTE as int);
        assert(false);
    }
}


/// Bytes written at or past the write offset change no key's fields.
proof fn lemma_contents_frame(b: Bucket, m_a: Seq<u8>, m_b: Seq<u8>)
    requires
        b.wf(),
        m_b.len() >= m_a.len() >= b.offset,
        forall|j: int| #![trigger m_b[j]] 0 <= j < b.offset ==> m_b[j] == m_a[j],
    ensures
        bucket_contents(b, m_b) == bucket_contents(b, m_a),
{
    let ca = bucket_contents(b, m_a);
    let cb = bucket_contents(b, m_b);
    assert forall|k: Seq<char>| #[trigger] cb.dom().contains(k) implies ca.dom().contains(k)
        && cb[k] == ca[k] by {
        let i = b.index_of(k);
        b.lemma_index_of(i);
        let fields = b.fields_at(i);
        assert forall|fi: int| 0 <= fi < fields.len() implies seg_bytes(m_b, #[trigger] fields[fi])
            == seg_bytes(m_a, fields[fi]) by {
            assert(b.reserved_space() <= b.fields_at(i)[fi].0 && b.fields_at(i)[fi].0
                + b.fields_at(i)[fi].1 <= b.offset);
            assert_seqs_equal!(
                m_b.subrange(fields[fi].0 as int, fields[fi].0 + fields[fi].1)
                    == m_a.subrange(fields[fi].0 as int, fields[fi].0 + fields[fi].1),
                o => {
                    assert(m_b[fields[fi].0 + o] == m_a[fields[fi].0 + o]);
                }
            );
        }
        assert(segs_bytes(m_b, fields) =~= segs_bytes(m_a, fields));
    }
    assert(cb =~= ca);
}

impl Bucket {
    /// Appending one entry for a fresh key moves no other key.
    proof fn lemma_push_reindex(self, post: Bucket)
        requires
            self.wf(),
            post.len() == self.len() + 1,
            forall|j: int| 0 <= j < self.len() ==> post.assets@[j] == self.assets@[j],
            !self.has_key(post.key_at(self.len())),
        ensures
            post.index_of(post.key_at(self.len())) == self.len(),
            post.has_key(post.key_at(self.len())),
            forall|i: int, j: int| 0 <= i < j < post.len() ==> post.key_at(i) != post.key_at(j),
            forall|k: Seq<char>|
                #![trigger post.has_key(k)]
                post.has_key(k) <==> (self.has_key(k) || k == post.key_at(self.len())),
            forall|k: Seq<char>|
                #![trigger post.index_of(k)]
                self.has_key(k) ==> post.index_of(k) == self.index_of(k) && post.fields_of(k)
                    == self.fields_of(k),
    {
        let n = self.len();
        assert forall|i: int, j: int| 0 <= i < j < post.len() implies post.key_at(i)
            != post.key_at(j) by {
            if j < n {
                assert(self.key_at(i) != self.key_at(j));
                assert(post.key_at(i) == self.key_at(i));
                assert(post.key_at(j) == self.key_at(j));
            } else {
                assert(post.key_at(i) == self.key_at(i));
                assert(self.has_key(self.key_at(i))) by {
                    self.lemma_index_of(i);
                }
            }
        }
        let kx = post.key_at(n);
        assert(post.has_key(kx));
        let jx = post.index_of(kx);
        if jx != n {
            assert(0 <= jx < post.len() && post.key_at(jx) == kx);
            if jx < n {
                assert(self.key_at(jx) == kx);
                assert(self.has_key(kx));
            }
        }
        assert forall|k: Seq<char>|
            #![trigger post.has_key(k)]
            post.has_key(k) <==> (self.has_key(k) || k == kx) by {
            if post.has_key(k) {
                let j = choose|j: int| 0 <= j < post.len() && post.key_at(j) == k;
                if j < n {
                    assert(self.key_at(j) == k);
                    assert(self.has_key(k));
                }
            }
            if self.has_key(k) {
                let j = choose|j: int| 0 <= j < self.len() && self.key_at(j) == k;
                assert(post.key_at(j) == k);
                assert(post.has_key(k));
            }
        }
        assert forall|k: Seq<char>| #![trigger post.index_of(k)] self.has_key(k) implies post
            .index_of(k) == self.index_of(k) && post.fields_of(k) == self.fields_of(k) by {
            let j = self.index_of(k);
            assert(0 <= j < n && self.key_at(j) == k);
            assert(post.key_at(j) == k);
            assert(post.has_key(k));
            let j2 = post.index_of(k);
            assert(0 <= j2 < post.len() && post.key_at(j2) == k);
            if j2 != j {
                if j2 < j {
                    assert(post.key_at(j2) != post.key_at(j));
                } else {
                    assert(post.key_at(j) != post.key_at(j2));
                }
            }
        }
    }

    /// Replacing entry `i` with one that keeps its key moves no other
    /// key.
    proof fn lemma_update_reindex(self, post: Bucket, i: int)
        requires
            self.wf(),
            0 <= i < self.len(),
            post.len() == self.len(),
            forall|j: int| 0 <= j < self.len() && j != i ==> post.assets@[j] == self.assets@[j],
            post.key_at(i) == self.key_at(i),
        ensures
            forall|i2: int, j2: int|
                0 <= i2 < j2 < post.len() ==> post.key_at(i2) != post.key_at(j2),
            forall|k: Seq<char>|
                #![trigger post.has_key(k)]
                post.has_key(k) <==> self.has_key(k),
            forall|k: Seq<char>|
                #![trigger post.index_of(k)]
                self.has_key(k) ==> post.index_of(k) == self.index_of(k),
    {
        assert forall|j: int| 0 <= j < self.len() implies post.key_at(j) == self.key_at(j) by {}
        assert forall|i2: int, j2: int| 0 <= i2 < j2 < post.len() implies post.key_at(i2)
            != post.key_at(j2) by {
            assert(self.key_at(i2) != self.key_at(j2));
        }
        assert forall|k: Seq<char>| #![trigger post.has_key(k)] post.has_key(k) <==> self.has_key(
            k,
        ) by {
            if post.has_key(k) {
                let j = choose|j: int| 0 <= j < post.len() && post.key_at(j) == k;
                assert(self.key_at(j) == k);
                assert(self.has_key(k));
            }
            if self.has_key(k) {
                let j = choose|j: int| 0 <= j < self.len() && self.key_at(j) == k;
                assert(post.key_at(j) == k);
                assert(post.has_key(k));
            }
        }
        assert forall|k: Seq<char>| #![trigger post.index_of(k)] self.has_key(k) implies post
            .index_of(k) == self.index_of(k) by {
            let j = self.index_of(k);
            assert(0 <= j < self.len() && self.key_at(j) == k);
            assert(post.key_at(j) == k);
            let j2 = post.index_of(k);
            assert(0 <= j2 < post.len() && post.key_at(j2) == k);
            if j2 != j {
                if j2 < j {
                    assert(post.key_at(j2) != post.key_at(j));
                } else {
                    assert(post.key_at(j) != post.key_at(j2));
                }
            }
        }
    }

    /// Store `value` as one further field of the key, writing it at the
    /// current write offset. Fails with no state change when the bytes
    /// do not fit under the ceiling.
    pub fn put(&mut self, memory: &mut StableMemory, key: &String, value: Vec<u8>) -> (r: Result<
        (),
        Error,
    >)
        requires
            old(self).wf(),
            old(self).mem_ok(*old(memory)),
        ensures
            final(self).wf(),
            final(self).mem_ok(*final(memory)),
            final(self).threshold == old(self).threshold,
            final(self).upgradable == old(self).upgradable,
            final(self).reserved_pages == old(self).reserved_pages,
            r is Ok <==> value@.len() <= old(self).spec_avail(),
            r is Err ==> *final(self) == *old(self) && *final(memory) == *old(memory),
            r matches Err(e) ==> e is InsufficientMemory,
            r is Ok ==> bucket_contents(*final(self), final(memory)@) == bucket_contents(
                *old(self),
                old(memory)@,
            ).insert(
                key@,
                (if old(self).has_key(key@) {
                    bucket_contents(*old(self), old(memory)@)[key@]
                } else {
                    Seq::<Seq<u8>>::empty()
                }).push(value@),
            ),
            r is Ok ==> final(self).offset == old(self).offset + value@.len(),
            r is Ok ==> final(self).fields_of(key@) == (if old(self).has_key(key@) {
                old(self).fields_of(key@)
            } else {
                Seq::<(u64, u64)>::empty()
            }).push((old(self).offset, value@.len() as u64)),
    {
        let iopt = self.find(key);
        let ghost pre = *self;
        let ghost m0 = old(memory)@;
        let size: u64 = value.len() as u64;
        let field: (u64, u64) = match self._get_field(memory, size) {
            Ok(f) => f,
            Err(e) => {
                return Err(e);
            },
        };
        let ghost m1 = memory@;
        let ghost value_view = value@;
        crate::stable::storage_data(memory, field.0, value);
        let ghost m2 = memory@;
        proof {
            lemma_contents_frame(pre, m0, m2);
            assert_seqs_equal!(
                m2.subrange(field.0 as int, field.0 + field.1) == value_view,
                o => {
                    assert(m2[field.0 + o] == value_view[o]);
                }
            );
        }
        match iopt {
            None => {
                let mut fields: Vec<(u64, u64)> = Vec::new();
                fields.push(field);
                self.assets.push((key.clone(), (fields)));
                proof {
                    pre.lemma_push_reindex(*self);
                    self.lemma_bucket_wf_after(pre, field);
                    assert(self.fields_of(key@) =~= Seq::<(u64, u64)>::empty().push(field));
                    let c0 = bucket_contents(pre, m0);
                    let c2 = bucket_contents(*self, m2);
                    assert forall|k: Seq<char>| #[trigger] c2.dom().contains(k) implies c0.insert(
                        key@,
                        Seq::<Seq<u8>>::empty().push(value_view),
                    ).dom().contains(k) && c2[k] == c0.insert(
                        key@,
                        Seq::<Seq<u8>>::empty().push(value_view),
                    )[k] by {
                        if k == key@ {
                            assert(self.fields_of(k) =~= Seq::<(u64, u64)>::empty().push(field));
                            assert(segs_bytes(m2, self.fields_of(k))
                                =~= Seq::<Seq<u8>>::empty().push(value_view));
                        } else {
                            assert(self.fields_of(k) == pre.fields_of(k));
                            assert(c2[k] == segs_bytes(m2, pre.fields_of(k)));
                            assert(bucket_contents(pre, m2)[k] == segs_bytes(
                                m2,
                                pre.fields_of(k),
                            ));
                        }
                    }
                    assert(c2 =~= c0.insert(key@, Seq::<Seq<u8>>::empty().push(value_view)));
                }
                Ok(())
            }
            Some(i) => {
                proof {
                    pre.lemma_index_of(i as int);
                }
                let mut entry = self.assets.remove(i);
                entry.1.push(field);
                self.assets.insert(i, entry);
                proof {
                    assert(self.assets@ =~= pre.assets@.update(
                        i as int,
                        (pre.assets@[i as int].0, self.assets@[i as int].1),
                    ));
                    pre.lemma_update_reindex(*self, i as int);
                    self.lemma_bucket_wf_after(pre, field);
                    assert(self.index_of(key@) == i as int && pre.index_of(key@) == i as int);
                    assert(self.fields_of(key@) =~= pre.fields_of(key@).push(field));
                    let c0 = bucket_contents(pre, m0);
                    let c2 = bucket_contents(*self, m2);
                    assert forall|k: Seq<char>| #[trigger] c2.dom().contains(k) implies c0.insert(
                        key@,
                        c0[key@].push(value_view),
                    ).dom().contains(k) && c2[k] == c0.insert(
                        key@,
                        c0[key@].push(value_view),
                    )[k] by {
                        if k == key@ {
                            assert(self.index_of(k) == i as int);
                            assert(self.fields_of(k) =~= pre.fields_of(k).push(field));
                            assert(bucket_contents(pre, m2)[k] == segs_bytes(
                                m2,
                                pre.fields_of(k),
                            ));
                            assert(segs_bytes(m2, self.fields_of(k)) =~= segs_bytes(
                                m2,
                                pre.fields_of(k),
                            ).push(value_view));
                        } else {
                            let j = self.index_of(k);
                            assert(j != i);
                            assert(self.fields_of(k) == pre.fields_at(j));
                            assert(pre.index_of(k) == j);
                        }
                    }
                    assert(c2 =~= c0.insert(key@, c0[key@].push(value_view)));
                }
                Ok(())
            }
        }
    }

    /// After reserving one further field below the new write offset,
    /// the index is sound again.
    proof fn lemma_bucket_wf_after(self, pre: Bucket, field: (u64, u64))
        requires
            pre.wf(),
            self.threshold == pre.threshold,
            self.upgradable == pre.upgradable,
            self.reserved_pages == pre.reserved_pages,
            self.offset == pre.offset + field.1,
            self.offset <= pre.threshold,
            self.upgradable ==> 2 * self.offset <= self.threshold,
            field.0 == pre.offset,
            forall|i2: int, j2: int|
                0 <= i2 < j2 < self.len() ==> self.key_at(i2) != self.key_at(j2),
            pre.len() <= self.len() <= pre.len() + 1,
            forall|i: int|
                0 <= i < pre.len() ==> (#[trigger] self.fields_at(i) == pre.fields_at(i)
                    || self.fields_at(i) == pre.fields_at(i).push(field) || self.fields_at(i)
                    == Seq::<(u64, u64)>::empty().push(field)),
            self.len() == pre.len() + 1 ==> self.fields_at(pre.len()) =~= Seq::<(
                u64,
                u64,
            )>::empty().push(field),
        ensures
            self.wf(),
    {
        assert forall|i: int, fi: int|
            #![trigger self.fields_at(i)[fi]]
            0 <= i < self.len() && 0 <= fi < self.fields_at(i).len() implies {
            &&& self.reserved_space() <= self.fields_at(i)[fi].0
            &&& self.fields_at(i)[fi].0 + self.fields_at(i)[fi].1 <= self.offset
        } by {
            if i < pre.len() {
                if self.fields_at(i) == pre.fields_at(i) {
                    assert(pre.reserved_space() <= pre.fields_at(i)[fi].0 && pre.fields_at(
                        i,
                    )[fi].0 + pre.fields_at(i)[fi].1 <= pre.offset);
                } else if self.fields_at(i) == Seq::<(u64, u64)>::empty().push(field) {
                    assert(self.fields_at(i)[fi] == field);
                } else {
                    if fi < pre.fields_at(i).len() {
                        assert(self.fields_at(i)[fi] == pre.fields_at(i)[fi]);
                        assert(pre.reserved_space() <= pre.fields_at(i)[fi].0 && pre.fields_at(
                            i,
                        )[fi].0 + pre.fields_at(i)[fi].1 <= pre.offset);
                    } else {
                        assert(self.fields_at(i)[fi] == field);
                    }
                }
            } else {
                assert(self.fields_at(i)[fi] == field);
            }
        }
    }
}


impl Bucket {
    /// Store `value` as the key's only field, replacing whatever list
    /// it had; earlier bytes stay where they are, unreachable.
    pub fn set(&mut self, memory: &mut StableMemory, key: &String, value: Vec<u8>) -> (r: Result<
        (),
        Error,
    >)
        requires
            old(self).wf(),
            old(self).mem_ok(*old(memory)),
        ensures
            final(self).wf(),
            final(self).mem_ok(*final(memory)),
            final(self).threshold == old(self).threshold,
            final(self).upgradable == old(self).upgradable,
            final(self).reserved_pages == old(self).reserved_pages,
            r is Ok <==> value@.len() <= old(self).spec_avail(),
            r is Err ==> *final(self) == *old(self) && *final(memory) == *old(memory),
            r matches Err(e) ==> e is InsufficientMemory,
            r is Ok ==> bucket_contents(*final(self), final(memory)@) == bucket_contents(
                *old(self),
                old(memory)@,
            ).insert(key@, Seq::<Seq<u8>>::empty().push(value@)),
            r is Ok ==> final(self).offset == old(self).offset + value@.len(),
            r is Ok ==> final(self).fields_of(key@) == Seq::<(u64, u64)>::empty().push(
                (old(self).offset, value@.len() as u64),
            ),
    {
        let iopt = self.find(key);
        let ghost pre = *self;
        let ghost m0 = old(memory)@;
        let size: u64 = value.len() as u64;
        let field: (u64, u64) = match self._get_field(memory, size) {
            Ok(f) => f,
            Err(e) => {
                return Err(e);
            },
        };
        let ghost value_view = value@;
        crate::stable::storage_data(memory, field.0, value);
        let ghost m2 = memory@;
        proof {
            lemma_contents_frame(pre, m0, m2);
            assert_seqs_equal!(
                m2.subrange(field.0 as int, field.0 + field.1) == value_view,
                o => {
                    assert(m2[field.0 + o] == value_view[o]);
                }
            );
        }
        let mut fields: Vec<(u64, u64)> = Vec::new();
        fields.push(field);
        match iopt {
            None => {
                self.assets.push((key.clone(), fields));
                proof {
                    pre.lemma_push_reindex(*self);
                    self.lemma_bucket_wf_after(pre, field);
                    assert(self.fields_of(key@) =~= Seq::<(u64, u64)>::empty().push(field));
                }
            }
            Some(i) => {
                proof {
                    pre.lemma_index_of(i as int);
                }
                let mut entry = self.assets.remove(i);
                entry.1 = fields;
                self.assets.insert(i, entry);
                proof {
                    assert(self.assets@ =~= pre.assets@.update(
                        i as int,
                        (pre.assets@[i as int].0, self.assets@[i as int].1),
                    ));
                    pre.lemma_update_reindex(*self, i as int);
                    assert(self.fields_at(i as int) =~= Seq::<(u64, u64)>::empty().push(field));
                    self.lemma_bucket_wf_after(pre, field);
                    assert(self.index_of(key@) == i as int);
                    assert(self.fields_of(key@) =~= Seq::<(u64, u64)>::empty().push(field));
                }
            }
        }
        proof {
            let c0 = bucket_contents(pre, m0);
            let c2 = bucket_contents(*self, m2);
            assert forall|k: Seq<char>| #[trigger] c2.dom().contains(k) implies c0.insert(
                key@,
                Seq::<Seq<u8>>::empty().push(value_view),
            ).dom().contains(k) && c2[k] == c0.insert(
                key@,
                Seq::<Seq<u8>>::empty().push(value_view),
            )[k] by {
                if k == key@ {
                    assert(self.fields_of(k) =~= Seq::<(u64, u64)>::empty().push(field));
                    assert(segs_bytes(m2, self.fields_of(k)) =~= Seq::<Seq<u8>>::empty().push(
                        value_view,
                    ));
                } else {
                    assert(self.fields_of(k) == pre.fields_of(k));
                    assert(bucket_contents(pre, m2)[k] == segs_bytes(m2, pre.fields_of(k)));
                }
            }
            assert(c2 =~= c0.insert(key@, Seq::<Seq<u8>>::empty().push(value_view)));
        }
        Ok(())
    }

    /// Add a synthetic zero-length field under the key, consuming no
    /// space: exercises index growth without touching the memory.
    pub fn insert_test(&mut self, key: &String)
        requires
            old(self).wf(),
        ensures
            final(self).wf(),
            final(self).offset == old(self).offset,
            final(self).threshold == old(self).threshold,
            final(self).upgradable == old(self).upgradable,
            final(self).reserved_pages == old(self).reserved_pages,
            forall|m: Seq<u8>|
                #![trigger bucket_contents(*final(self), m)]
                m.len() >= old(self).offset ==> bucket_contents(*final(self), m)
                    == bucket_contents(*old(self), m).insert(
                    key@,
                    (if old(self).has_key(key@) {
                        bucket_contents(*old(self), m)[key@]
                    } else {
                        Seq::<Seq<u8>>::empty()
                    }).push(Seq::<u8>::empty()),
                ),
    {
        let ghost pre = *self;
        let field: (u64, u64) = (self.offset, 0);
        match self.find(key) {
            None => {
                let mut fields: Vec<(u64, u64)> = Vec::new();
                fields.push(field);
                self.assets.push((key.clone(), fields));
                proof {
                    pre.lemma_push_reindex(*self);
                    self.lemma_bucket_wf_after(pre, field);
                }
            }
            Some(i) => {
                proof {
                    pre.lemma_index_of(i as int);
                }
                let mut entry = self.assets.remove(i);
                entry.1.push(field);
                self.assets.insert(i, entry);
                proof {
                    assert(self.assets@ =~= pre.assets@.update(
                        i as int,
                        (pre.assets@[i as int].0, self.assets@[i as int].1),
                    ));
                    pre.lemma_update_reindex(*self, i as int);
                    self.lemma_bucket_wf_after(pre, field);
                }
            }
        }
        proof {
            assert forall|m: Seq<u8>|
                #![trigger bucket_contents(*self, m)]
                m.len() >= pre.offset implies bucket_contents(*self, m) == bucket_contents(
                pre,
                m,
            ).insert(
                key@,
                (if pre.has_key(key@) {
                    bucket_contents(pre, m)[key@]
                } else {
                    Seq::<Seq<u8>>::empty()
                }).push(Seq::<u8>::empty()),
            ) by {
                let c0 = bucket_contents(pre, m);
                let c2 = bucket_contents(*self, m);
                let segs = (if pre.has_key(key@) {
                    c0[key@]
                } else {
                    Seq::<Seq<u8>>::empty()
                }).push(Seq::<u8>::empty());
                assert forall|k: Seq<char>| #[trigger] c2.dom().contains(k) implies c0.insert(
                    key@,
                    segs,
                ).dom().contains(k) && c2[k] == c0.insert(key@, segs)[k] by {
                    if k == key@ {
                        assert(seg_bytes(m, field) =~= Seq::<u8>::empty());
                        if pre.has_key(key@) {
                            assert(self.fields_of(k) =~= pre.fields_of(k).push(field));
                            assert(segs_bytes(m, self.fields_of(k)) =~= segs_bytes(
                                m,
                                pre.fields_of(k),
                            ).push(Seq::<u8>::empty()));
                        } else {
                            assert(self.fields_of(k) =~= Seq::<(u64, u64)>::empty().push(field));
                            assert(segs_bytes(m, self.fields_of(k))
                                =~= Seq::<Seq<u8>>::empty().push(Seq::<u8>::empty()));
                        }
                    } else {
                        assert(self.fields_of(k) == pre.fields_of(k));
                    }
                }
                assert(c2 =~= c0.insert(key@, segs));
            }
        }
    }

    /// Read back every field written under the key, each as one byte
    /// string, in write order.
    pub fn get(&self, memory: &StableMemory, key: &String) -> (r: Result<Vec<Vec<u8>>, Error>)
        requires
            self.wf(),
            self.mem_ok(*memory),
        ensures
            r is Ok <==> self.has_key(key@),
            r matches Err(e) ==> e is InvalidKey,
            r matches Ok(v) ==> {
                &&& v@.len() == bucket_contents(*self, memory@)[key@].len()
                &&& forall|i: int|
                    0 <= i < v@.len() ==> (#[trigger] v@[i])@ == bucket_contents(
                        *self,
                        memory@,
                    )[key@][i]
            },
    {
        match self.find(key) {
            None => Err(Error::InvalidKey),
            Some(i) => {
                proof {
                    self.lemma_index_of(i as int);
                }
                let fields: &Vec<(u64, u64)> = &self.assets[i].1;
                let mut res: Vec<Vec<u8>> = Vec::new();
                let mut fi: usize = 0;
                while fi < fields.len()
                    invariant
                        fi <= fields@.len(),
                        fields@ == self.fields_at(i as int),
                        0 <= i < self.len(),
                        self.wf(),
                        self.mem_ok(*memory),
                        res@.len() == fi,
                        forall|x: int|
                            0 <= x < fi ==> (#[trigger] res@[x])@ == seg_bytes(
                                memory@,
                                self.fields_at(i as int)[x],
                            ),
                    decreases fields@.len() - fi,
                {
                    let f = fields[fi];
                    proof {
                        assert(self.fields_at(i as int)[fi as int] == f);
                        assert(self.reserved_space() <= self.fields_at(i as int)[fi as int].0
                            && self.fields_at(i as int)[fi as int].0 + self.fields_at(
                            i as int,
                        )[fi as int].1 <= self.offset);
                    }
                    let chunk = memory.read(f.0, f.1);
                    res.push(chunk);
                    fi = fi + 1;
                }
                Ok(res)
            }
        }
    }
}


impl Default for Bucket {
    /// The configuration the bucket ships with: an 8 GiB ceiling, the
    /// default reserved header region, and the upgrade reservation on.
    /// Pair it with a memory from [`StableMemory::new`] grown to the
    /// reserved region.
    fn default() -> (r: Bucket)
        ensures
            r.wf(),
            r.len() == 0,
            forall|k: Seq<char>| !r.has_key(k),
            r.upgradable,
            r.threshold == THRESHOLD,
            r.reserved_pages == RESERVED_PAGE,
            r.offset == r.reserved_space(),
    {
        Bucket {
            upgradable: true,
            offset: RESERVED_PAGE * MAX_PAGE_BYTE,
            assets: Vec::new(),
            threshold: THRESHOLD,
            reserved_pages: RESERVED_PAGE,
        }
    }
}


impl Bucket {
    /// Bytes still usable under the ceiling: only half of it while the
    /// upgrade reservation is on.
    pub fn get_available_memory_size(&self) -> (r: u64)
        requires
            self.wf(),
        ensures
            r == self.spec_avail(),
    {
        if self.upgradable {
            proof {
                vstd::arithmetic::div_mod::lemma_fundamental_div_mod(self.threshold as int, 2);
            }
            self.threshold / 2 - self.offset
        } else {
            self.threshold - self.offset
        }
    }
}


/// The data a bucket snapshot carries, seen abstractly.
pub struct BucketModel {
    pub upgradable: bool,
    pub offset: u64,
    pub threshold: u64,
    pub reserved_pages: u64,
    pub entries: Seq<(Seq<char>, Seq<(u64, u64)>)>,
}

/// A field list as bytes: each pair as two little-endian numbers.
pub open spec fn spec_encode_fields(fields: Seq<(u64, u64)>) -> Seq<u8>
    decreases fields.len(),
{
    if fields.len() == 0 {
        Seq::empty()
    } else {
        spec_u64_to_le_bytes(fields[0].0) + spec_u64_to_le_bytes(fields[0].1)
            + spec_encode_fields(fields.drop_first())
    }
}

/// One bucket entry as bytes: the key's UTF-8 length and bytes, then
/// the field count and the fields.
pub open spec fn spec_encode_bucket_entry(key: Seq<char>, fields: Seq<(u64, u64)>) -> Seq<u8> {
    spec_u64_to_le_bytes(encode_utf8(key).len() as u64) + encode_utf8(key) + spec_u64_to_le_bytes(
        fields.len() as u64,
    ) + spec_encode_fields(fields)
}

/// The bucket entries from `i` on, one after the other.
pub open spec fn spec_encode_bucket_entries(b: Bucket, i: int) -> Seq<u8>
    decreases b.len() - i,
{
    if i < 0 || i >= b.len() {
        Seq::empty()
    } else {
        spec_encode_bucket_entry(b.key_at(i), b.fields_at(i)) + spec_encode_bucket_entries(
            b,
            i + 1,
        )
    }
}

/// The bucket entries before `i`, one after the other.
pub open spec fn spec_encode_bucket_entries_upto(b: Bucket, i: int) -> Seq<u8>
    decreases i,
{
    if i <= 0 {
        Seq::empty()
    } else {
        spec_encode_bucket_entries_upto(b, i - 1) + spec_encode_bucket_entry(
            b.key_at(i - 1),
            b.fields_at(i - 1),
        )
    }
}

/// A whole bucket snapshot: the four plain fields (the flag as one
/// word), then the entry count and the entries.
pub open spec fn spec_encode_bucket(b: Bucket) -> Seq<u8> {
    spec_u64_to_le_bytes(
        if b.upgradable {
            1u64
        } else {
            0u64
        },
    ) + spec_u64_to_le_bytes(b.offset) + spec_u64_to_le_bytes(b.threshold) + spec_u64_to_le_bytes(
        b.reserved_pages,
    ) + spec_u64_to_le_bytes(b.len() as u64) + spec_encode_bucket_entries(b, 0)
}

proof fn lemma_encode_fields_snoc(fields: Seq<(u64, u64)>, f: (u64, u64))
    ensures
        spec_encode_fields(fields.push(f)) == spec_encode_fields(fields) + spec_u64_to_le_bytes(
            f.0,
        ) + spec_u64_to_le_bytes(f.1),
    decreases fields.len(),
{
    lemma_auto_spec_u64_to_from_le_bytes();
    if fields.len() == 0 {
        assert(fields.push(f).drop_first() =~= Seq::<(u64, u64)>::empty());
        assert(fields.push(f)[0] == f);
        assert(spec_encode_fields(fields.push(f).drop_first()) =~= Seq::<u8>::empty());
        assert(spec_encode_fields(fields.push(f)) =~= spec_u64_to_le_bytes(f.0)
            + spec_u64_to_le_bytes(f.1));
        assert(spec_encode_fields(fields) + spec_u64_to_le_bytes(f.0) + spec_u64_to_le_bytes(f.1)
            =~= spec_u64_to_le_bytes(f.0) + spec_u64_to_le_bytes(f.1));
    } else {
        assert(fields.push(f).drop_first() =~= fields.drop_first().push(f));
        lemma_encode_fields_snoc(fields.drop_first(), f);
        assert(spec_encode_fields(fields.push(f)) =~= spec_encode_fields(fields)
            + spec_u64_to_le_bytes(f.0) + spec_u64_to_le_bytes(f.1));
    }
}


proof fn lemma_encode_bucket_entries_split(b: Bucket, i: int, n: int)
    requires
        0 <= i <= n == b.len(),
    ensures
        spec_encode_bucket_entries_upto(b, n) == spec_encode_bucket_entries_upto(b, i)
            + spec_encode_bucket_entries(b, i),
    decreases n - i,
{
    if i == n {
        assert(spec_encode_bucket_entries(b, i) =~= Seq::<u8>::empty());
        assert(spec_encode_bucket_entries_upto(b, i) + Seq::<u8>::empty()
            =~= spec_encode_bucket_entries_upto(b, i));
    } else {
        lemma_encode_bucket_entries_split(b, i + 1, n);
        assert(spec_encode_bucket_entries_upto(b, i) + spec_encode_bucket_entries(b, i)
            =~= spec_encode_bucket_entries_upto(b, i + 1) + spec_encode_bucket_entries(b, i + 1));
    }
}

/// Serialize the bucket's index state to its snapshot byte format.
pub fn encode_bucket(b: &Bucket) -> (r: Vec<u8>)
    ensures
        r@ == spec_encode_bucket(*b),
{
    let mut out: Vec<u8> = Vec::new();
    push_u64(&mut out, if b.upgradable { 1 } else { 0 });
    push_u64(&mut out, b.offset);
    push_u64(&mut out, b.threshold);
    push_u64(&mut out, b.reserved_pages);
    push_u64(&mut out, b.assets.len() as u64);
    let ghost header = out@;
    let mut i: usize = 0;
    while i < b.assets.len()
        invariant
            i <= b.len(),
            out@ == header + spec_encode_bucket_entries_upto(*b, i as int),
        decreases b.len() - i,
    {
        let entry = &b.assets[i];
        let key_bytes: &[u8] = entry.0.as_str().as_bytes();
        push_u64(&mut out, key_bytes.len() as u64);
        let mut kb = vstd::slice::slice_to_vec(key_bytes);
        out.append(&mut kb);
        push_u64(&mut out, entry.1.len() as u64);
        let ghost with_fields_header = out@;
        let mut j: usize = 0;
        while j < entry.1.len()
            invariant
                j <= entry.1@.len(),
                entry == &b.assets[i as int],
                i < b.len(),
                out@ == with_fields_header + spec_encode_fields(entry.1@.take(j as int)),
            decreases entry.1@.len() - j,
        {
            let ghost prefix = entry.1@.take(j as int);
            let f = entry.1[j];
            push_u64(&mut out, f.0);
            push_u64(&mut out, f.1);
            proof {
                lemma_encode_fields_snoc(prefix, entry.1@[j as int]);
                assert(prefix.push(entry.1@[j as int]) =~= entry.1@.take(j as int + 1));
            }
            j = j + 1;
        }
        proof {
            assert(entry.1@.take(entry.1@.len() as int) =~= entry.1@);
            assert(key_bytes@ == encode_utf8(b.key_at(i as int)));
            assert(out@ == header + spec_encode_bucket_entries_upto(*b, i as int + 1));
        }
        i = i + 1;
    }
    proof {
        lemma_encode_bucket_entries_split(*b, 0, b.len());
        assert(out@ == spec_encode_bucket(*b));
    }
    out
}


/// `n` fields, each two little-endian numbers, and the rest.
pub open spec fn spec_decode_fields(b: Seq<u8>, n: int) -> Option<(Seq<(u64, u64)>, Seq<u8>)>
    decreases n,
{
    if n <= 0 {
        Some((Seq::empty(), b))
    } else {
        match spec_take_u64(b) {
            None => None,
            Some((off, r1)) => match spec_take_u64(r1) {
                None => None,
                Some((len, r2)) => match spec_decode_fields(r2, n - 1) {
                    None => None,
                    Some((fs, r3)) => Some((seq![(off, len)] + fs, r3)),
                },
            },
        }
    }
}

/// One bucket entry: key length, UTF-8 key bytes, field count, fields.
pub open spec fn spec_decode_bucket_entry(b: Seq<u8>) -> Option<
    ((Seq<char>, Seq<(u64, u64)>), Seq<u8>),
> {
    match spec_take_u64(b) {
        None => None,
        Some((klen, r1)) => match spec_take_bytes(r1, klen as int) {
            None => None,
            Some((kb, r2)) => if !valid_utf8(kb) {
                None
            } else {
                match spec_take_u64(r2) {
                    None => None,
                    Some((flen, r3)) => match spec_decode_fields(r3, flen as int) {
                        None => None,
                        Some((fs, r4)) => Some(((decode_utf8(kb), fs), r4)),
                    },
                }
            },
        },
    }
}

/// `n` bucket entries one after the other, and the rest.
pub open spec fn spec_decode_bucket_entries(b: Seq<u8>, n: int) -> Option<
    (Seq<(Seq<char>, Seq<(u64, u64)>)>, Seq<u8>),
>
    decreases n,
{
    if n <= 0 {
        Some((Seq::empty(), b))
    } else {
        match spec_decode_bucket_entry(b) {
            None => None,
            Some((e, r)) => match spec_decode_bucket_entries(r, n - 1) {
                None => None,
                Some((es, r2)) => Some((seq![e] + es, r2)),
            },
        }
    }
}

/// A whole bucket snapshot, refusing trailing garbage and any flag
/// word other than zero or one.
pub open spec fn spec_decode_bucket(b: Seq<u8>) -> Option<BucketModel> {
    match spec_take_u64(b) {
        None => None,
        Some((flag, r1)) => if flag > 1 {
            None
        } else {
            match spec_take_u64(r1) {
                None => None,
                Some((offset, r2)) => match spec_take_u64(r2) {
                    None => None,
                    Some((thr, r3)) => match spec_take_u64(r3) {
                        None => None,
                        Some((rp, r4)) => match spec_take_u64(r4) {
                            None => None,
                            Some((count, r5)) => match spec_decode_bucket_entries(
                                r5,
                                count as int,
                            ) {
                                None => None,
                                Some((entries, r6)) => if r6.len() == 0 {
                                    Some(
                                        BucketModel {
                                            upgradable: flag == 1,
                                            offset,
                                            threshold: thr,
                                            reserved_pages: rp,
                                            entries,
                                        },
                                    )
                                } else {
                                    None
                                },
                            },
                        },
                    },
                },
            }
        },
    }
}

/// True when the bucket carries exactly the snapshot's data.
pub open spec fn bucket_model_matches(m: BucketModel, b: Bucket) -> bool {
    &&& b.upgradable == m.upgradable
    &&& b.offset == m.offset
    &&& b.threshold == m.threshold
    &&& b.reserved_pages == m.reserved_pages
    &&& b.len() == m.entries.len()
    &&& forall|i: int|
        0 <= i < b.len() ==> b.key_at(i) == (#[trigger] m.entries[i]).0 && b.fields_at(i)
            == m.entries[i].1
}

/// The bucket's index, seen abstractly.
pub open spec fn bucket_models(b: Bucket) -> Seq<(Seq<char>, Seq<(u64, u64)>)> {
    Seq::new(b.len() as nat, |i: int| (b.key_at(i), b.fields_at(i)))
}

proof fn lemma_decode_fields_of_encode(fields: Seq<(u64, u64)>, rest: Seq<u8>)
    requires
        fields.len() <= u64::MAX,
    ensures
        spec_decode_fields(spec_encode_fields(fields) + rest, fields.len() as int) == Some(
            (fields, rest),
        ),
    decreases fields.len(),
{
    if fields.len() == 0 {
        assert(spec_encode_fields(fields) + rest =~= rest);
        assert(fields =~= Seq::<(u64, u64)>::empty());
    } else {
        let tail = fields.drop_first();
        lemma_decode_fields_of_encode(tail, rest);
        assert(spec_encode_fields(fields) + rest =~= spec_u64_to_le_bytes(fields[0].0) + (
        spec_u64_to_le_bytes(fields[0].1) + (spec_encode_fields(tail) + rest)));
        lemma_take_u64_of_encode(
            fields[0].0,
            spec_u64_to_le_bytes(fields[0].1) + (spec_encode_fields(tail) + rest),
        );
        lemma_take_u64_of_encode(fields[0].1, spec_encode_fields(tail) + rest);
        assert(seq![(fields[0].0, fields[0].1)] + tail =~= fields);
    }
}

#[verifier::rlimit(80)]
#[verifier::spinoff_prover]
proof fn lemma_decode_bucket_entry_of_encode(
    key: Seq<char>,
    fields: Seq<(u64, u64)>,
    rest: Seq<u8>,
)
    requires
        encode_utf8(key).len() <= u64::MAX,
        fields.len() <= u64::MAX,
    ensures
        spec_decode_bucket_entry(spec_encode_bucket_entry(key, fields) + rest) == Some(
            ((key, fields), rest),
        ),
{
    let kb = encode_utf8(key);
    let part2 = kb + spec_u64_to_le_bytes(fields.len() as u64) + spec_encode_fields(fields) + rest;
    assert(spec_encode_bucket_entry(key, fields) + rest =~= spec_u64_to_le_bytes(kb.len() as u64)
        + part2);
    lemma_take_u64_of_encode(kb.len() as u64, part2);
    let part3 = spec_u64_to_le_bytes(fields.len() as u64) + spec_encode_fields(fields) + rest;
    assert(part2.take(kb.len() as int) =~= kb);
    assert(part2.skip(kb.len() as int) =~= part3);
    encode_utf8_valid_utf8(key);
    encode_utf8_decode_utf8(key);
    let part4 = spec_encode_fields(fields) + rest;
    assert(part3 =~= spec_u64_to_le_bytes(fields.len() as u64) + part4);
    lemma_take_u64_of_encode(fields.len() as u64, part4);
    lemma_decode_fields_of_encode(fields, rest);
}

proof fn lemma_decode_bucket_entries_of_encode(b: Bucket, i: int, rest: Seq<u8>)
    requires
        0 <= i <= b.len(),
        b.len() <= u64::MAX,
        forall|j: int|
            0 <= j < b.len() ==> encode_utf8(#[trigger] b.key_at(j)).len() <= u64::MAX
                && b.fields_at(j).len() <= u64::MAX,
    ensures
        spec_decode_bucket_entries(spec_encode_bucket_entries(b, i) + rest, b.len() - i) == Some(
            (bucket_models(b).skip(i), rest),
        ),
    decreases b.len() - i,
{
    if i == b.len() {
        assert(spec_encode_bucket_entries(b, i) + rest =~= rest);
        assert(bucket_models(b).skip(i) =~= Seq::<(Seq<char>, Seq<(u64, u64)>)>::empty());
    } else {
        lemma_decode_bucket_entries_of_encode(b, i + 1, rest);
        assert(spec_encode_bucket_entries(b, i) + rest =~= spec_encode_bucket_entry(
            b.key_at(i),
            b.fields_at(i),
        ) + (spec_encode_bucket_entries(b, i + 1) + rest));
        lemma_decode_bucket_entry_of_encode(
            b.key_at(i),
            b.fields_at(i),
            spec_encode_bucket_entries(b, i + 1) + rest,
        );
        assert(seq![(b.key_at(i), b.fields_at(i))] + bucket_models(b).skip(i + 1)
            =~= bucket_models(b).skip(i));
    }
}

/// Decoding a bucket snapshot someone encoded gives exactly the
/// encoded state back.
#[verifier::rlimit(80)]
#[verifier::spinoff_prover]
pub proof fn lemma_decode_bucket_of_encode(b: Bucket)
    requires
        b.len() <= u64::MAX,
        forall|j: int|
            0 <= j < b.len() ==> encode_utf8(#[trigger] b.key_at(j)).len() <= u64::MAX
                && b.fields_at(j).len() <= u64::MAX,
    ensures
        spec_decode_bucket(spec_encode_bucket(b)) matches Some(m) && bucket_model_matches(m, b),
{
    let flag: u64 = if b.upgradable {
        1u64
    } else {
        0u64
    };
    let bytes = spec_encode_bucket(b);
    let p1 = spec_u64_to_le_bytes(b.offset) + spec_u64_to_le_bytes(b.threshold)
        + spec_u64_to_le_bytes(b.reserved_pages) + spec_u64_to_le_bytes(b.len() as u64)
        + spec_encode_bucket_entries(b, 0);
    assert(bytes =~= spec_u64_to_le_bytes(flag) + p1);
    lemma_take_u64_of_encode(flag, p1);
    let p2 = spec_u64_to_le_bytes(b.threshold) + spec_u64_to_le_bytes(b.reserved_pages)
        + spec_u64_to_le_bytes(b.len() as u64) + spec_encode_bucket_entries(b, 0);
    assert(p1 =~= spec_u64_to_le_bytes(b.offset) + p2);
    lemma_take_u64_of_encode(b.offset, p2);
    let p3 = spec_u64_to_le_bytes(b.reserved_pages) + spec_u64_to_le_bytes(b.len() as u64)
        + spec_encode_bucket_entries(b, 0);
    assert(p2 =~= spec_u64_to_le_bytes(b.threshold) + p3);
    lemma_take_u64_of_encode(b.threshold, p3);
    let p4 = spec_u64_to_le_bytes(b.len() as u64) + spec_encode_bucket_entries(b, 0);
    assert(p3 =~= spec_u64_to_le_bytes(b.reserved_pages) + p4);
    lemma_take_u64_of_encode(b.reserved_pages, p4);
    let p5 = spec_encode_bucket_entries(b, 0) + Seq::<u8>::empty();
    assert(p4 =~= spec_u64_to_le_bytes(b.len() as u64) + p5);
    lemma_take_u64_of_encode(b.len() as u64, p5);
    lemma_decode_bucket_entries_of_encode(b, 0, Seq::<u8>::empty());
    assert(bucket_models(b).skip(0) =~= bucket_models(b));
    let m = spec_decode_bucket(bytes).unwrap();
    assert(m.entries == bucket_models(b));
    assert forall|i: int| 0 <= i < b.len() implies b.key_at(i) == (#[trigger] m.entries[i]).0
        && b.fields_at(i) == m.entries[i].1 by {
        assert(bucket_models(b)[i] == (b.key_at(i), b.fields_at(i)));
    }
}


fn parse_fields(bytes: &Vec<u8>, cursor: usize, n: u64) -> (r: Option<(Vec<(u64, u64)>, usize)>)
    requires
        cursor <= bytes@.len(),
    ensures
        match r {
            Some((fs, c2)) => {
                &&& c2 <= bytes@.len()
                &&& spec_decode_fields(bytes@.skip(cursor as int), n as int) == Some(
                    (fs@, bytes@.skip(c2 as int)),
                )
            },
            None => spec_decode_fields(bytes@.skip(cursor as int), n as int) is None,
        },
    decreases n,
{
    if n == 0 {
        let fs: Vec<(u64, u64)> = Vec::new();
        proof {
            assert(fs@ =~= Seq::<(u64, u64)>::empty());
        }
        return Some((fs, cursor));
    }
    match read_u64(bytes, cursor) {
        None => None,
        Some((off, c1)) => match read_u64(bytes, c1) {
            None => None,
            Some((len, c2)) => match parse_fields(bytes, c2, n - 1) {
                None => None,
                Some((fs, c3)) => {
                    let mut fs2 = fs;
                    fs2.insert(0, (off, len));
                    proof {
                        assert(fs2@ =~= seq![(off, len)] + fs2@.drop_first());
                    }
                    Some((fs2, c3))
                },
            },
        },
    }
}

fn parse_bucket_entry(bytes: &Vec<u8>, cursor: usize) -> (r: Option<
    ((String, Vec<(u64, u64)>), usize),
>)
    requires
        cursor <= bytes@.len(),
    ensures
        match r {
            Some((e, c2)) => {
                &&& c2 <= bytes@.len()
                &&& spec_decode_bucket_entry(bytes@.skip(cursor as int)) == Some(
                    ((e.0@, e.1@), bytes@.skip(c2 as int)),
                )
            },
            None => spec_decode_bucket_entry(bytes@.skip(cursor as int)) is None,
        },
{
    let (klen, c1) = match read_u64(bytes, cursor) {
        None => {
            return None;
        },
        Some(x) => x,
    };
    if klen > (bytes.len() - c1) as u64 {
        return None;
    }
    let kend: usize = c1 + klen as usize;
    let kb = vstd::slice::slice_subrange(bytes.as_slice(), c1, kend);
    proof {
        assert(kb@ =~= bytes@.skip(c1 as int).take(klen as int));
        assert(bytes@.skip(c1 as int).skip(klen as int) =~= bytes@.skip(kend as int));
    }
    let key: String = match bytes_to_str(kb) {
        None => {
            return None;
        },
        Some(st) => st.to_owned(),
    };
    proof {
        encode_utf8_decode_utf8(key@);
    }
    let (flen, c2) = match read_u64(bytes, kend) {
        None => {
            return None;
        },
        Some(x) => x,
    };
    let (fields, c3) = match parse_fields(bytes, c2, flen) {
        None => {
            return None;
        },
        Some(x) => x,
    };
    Some(((key, fields), c3))
}

/// The exec entry list, seen abstractly.
pub open spec fn bucket_entries_models(s: Seq<(String, Vec<(u64, u64)>)>) -> Seq<
    (Seq<char>, Seq<(u64, u64)>),
> {
    Seq::new(s.len(), |i: int| (s[i].0@, s[i].1@))
}

fn parse_bucket_entries(bytes: &Vec<u8>, cursor: usize, n: u64) -> (r: Option<
    (Vec<(String, Vec<(u64, u64)>)>, usize),
>)
    requires
        cursor <= bytes@.len(),
    ensures
        match r {
            Some((es, c2)) => {
                &&& c2 <= bytes@.len()
                &&& spec_decode_bucket_entries(bytes@.skip(cursor as int), n as int) == Some(
                    (bucket_entries_models(es@), bytes@.skip(c2 as int)),
                )
            },
            None => spec_decode_bucket_entries(bytes@.skip(cursor as int), n as int) is None,
        },
    decreases n,
{
    if n == 0 {
        let es: Vec<(String, Vec<(u64, u64)>)> = Vec::new();
        proof {
            assert(bucket_entries_models(es@) =~= Seq::<(Seq<char>, Seq<(u64, u64)>)>::empty());
        }
        return Some((es, cursor));
    }
    match parse_bucket_entry(bytes, cursor) {
        None => None,
        Some((e, c1)) => match parse_bucket_entries(bytes, c1, n - 1) {
            None => None,
            Some((es, c2)) => {
                let ghost em = (e.0@, e.1@);
                let ghost tail_models = bucket_entries_models(es@);
                let mut es2 = es;
                es2.insert(0, e);
                proof {
                    assert(bucket_entries_models(es2@) =~= seq![em] + tail_models);
                }
                Some((es2, c2))
            },
        },
    }
}

/// Deserialize a bucket snapshot; yields the index state exactly when
/// the bytes parse whole, with no trailing garbage.
pub fn decode_bucket(bytes: &Vec<u8>) -> (r: Option<Bucket>)
    ensures
        r is Some <==> spec_decode_bucket(bytes@) is Some,
        r matches Some(b) ==> (spec_decode_bucket(bytes@) matches Some(m) && bucket_model_matches(
            m,
            b,
        )),
{
    proof {
        assert(bytes@.skip(0) =~= bytes@);
    }
    let (flag, c1) = match read_u64(bytes, 0) {
        None => {
            return None;
        },
        Some(x) => x,
    };
    if flag > 1 {
        return None;
    }
    let (offset, c2) = match read_u64(bytes, c1) {
        None => {
            return None;
        },
        Some(x) => x,
    };
    let (thr, c3) = match read_u64(bytes, c2) {
        None => {
            return None;
        },
        Some(x) => x,
    };
    let (rp, c4) = match read_u64(bytes, c3) {
        None => {
            return None;
        },
        Some(x) => x,
    };
    let (count, c5) = match read_u64(bytes, c4) {
        None => {
            return None;
        },
        Some(x) => x,
    };
    let (entries, c6) = match parse_bucket_entries(bytes, c5, count) {
        None => {
            return None;
        },
        Some(x) => x,
    };
    if c6 != bytes.len() {
        proof {
            assert(bytes@.skip(c6 as int).len() != 0);
        }
        return None;
    }
    proof {
        assert(bytes@.skip(c6 as int).len() == 0);
    }
    let b = Bucket {
        upgradable: flag == 1,
        offset,
        assets: entries,
        threshold: thr,
        reserved_pages: rp,
    };
    proof {
        let m = spec_decode_bucket(bytes@).unwrap();
        assert forall|i: int| 0 <= i < b.len() implies b.key_at(i) == (
        #[trigger] m.entries[i]).0 && b.fields_at(i) == m.entries[i].1 by {
            assert(bucket_entries_models(b.assets@)[i] == (b.key_at(i), b.fields_at(i)));
        }
    }
    Some(b)
}


/// True when the snapshot's data could have come from a sound bucket
/// whose backing memory is `memory`.
pub open spec fn bucket_model_fits(m: BucketModel, memory: StableMemory) -> bool {
    &&& m.threshold <= THRESHOLD
    &&& m.threshold % MAX_PAGE_BYTE == 0
    &&& 2 * (m.reserved_pages * (MAX_PAGE_BYTE as int)) <= m.threshold
    &&& m.reserved_pages * (MAX_PAGE_BYTE as int) <= m.offset <= m.threshold
    &&& m.upgradable ==> 2 * m.offset <= m.threshold
    &&& forall|i: int, j: int|
        0 <= i < j < m.entries.len() ==> (#[trigger] m.entries[i]).0 != (
        #[trigger] m.entries[j]).0
    &&& forall|i: int, fi: int|
        #![trigger m.entries[i].1[fi]]
        0 <= i < m.entries.len() && 0 <= fi < m.entries[i].1.len() ==> {
            &&& m.reserved_pages * (MAX_PAGE_BYTE as int) <= m.entries[i].1[fi].0
            &&& m.entries[i].1[fi].0 + m.entries[i].1[fi].1 <= m.offset
        }
    &&& memory.wf()
    &&& memory.max_pages == m.threshold as int / MAX_PAGE_BYTE as int
    &&& m.offset <= memory@.len()
    &&& memory@.len() <= m.threshold
}

/// A bucket carrying a snapshot's data is sound over `memory` exactly
/// when the snapshot fits it.
pub proof fn lemma_bucket_fits_iff_wf(m: BucketModel, b: Bucket, memory: StableMemory)
    requires
        bucket_model_matches(m, b),
    ensures
        bucket_model_fits(m, memory) <==> (b.wf() && b.mem_ok(memory)),
{
    if bucket_model_fits(m, memory) {
        assert forall|i: int, j: int| 0 <= i < j < b.len() implies b.key_at(i) != b.key_at(
            j,
        ) by {
            assert(m.entries[i].0 != m.entries[j].0);
        }
        assert forall|i: int, fi: int|
            #![trigger b.fields_at(i)[fi]]
            0 <= i < b.len() && 0 <= fi < b.fields_at(i).len() implies {
            &&& b.reserved_space() <= b.fields_at(i)[fi].0
            &&& b.fields_at(i)[fi].0 + b.fields_at(i)[fi].1 <= b.offset
        } by {
            assert(b.fields_at(i)[fi] == m.entries[i].1[fi]);
        }
        assert(b.wf());
    }
    if b.wf() && b.mem_ok(memory) {
        assert forall|i: int, j: int| 0 <= i < j < m.entries.len() implies (
        #[trigger] m.entries[i]).0 != (#[trigger] m.entries[j]).0 by {
            assert(b.key_at(i) != b.key_at(j));
        }
        assert forall|i: int, fi: int|
            #![trigger m.entries[i].1[fi]]
            0 <= i < m.entries.len() && 0 <= fi < m.entries[i].1.len() implies {
            &&& m.reserved_pages * (MAX_PAGE_BYTE as int) <= m.entries[i].1[fi].0
            &&& m.entries[i].1[fi].0 + m.entries[i].1[fi].1 <= m.offset
        } by {
            assert(m.entries[i].1[fi] == b.fields_at(i)[fi]);
            assert(b.reserved_space() <= b.fields_at(i)[fi].0 && b.fields_at(i)[fi].0
                + b.fields_at(i)[fi].1 <= b.offset);
        }
        assert(bucket_model_fits(m, memory));
    }
}

/// Decide well-formedness of a parsed bucket state.
pub fn bucket_wf_check(b: &Bucket) -> (r: bool)
    ensures
        r == b.wf(),
{
    if b.threshold > THRESHOLD {
        return false;
    }
    if b.threshold % MAX_PAGE_BYTE != 0 {
        return false;
    }
    proof {
        assert(b.threshold / MAX_PAGE_BYTE <= 131072) by {
            vstd::arithmetic::div_mod::lemma_div_is_ordered(
                b.threshold as int,
                THRESHOLD as int,
                MAX_PAGE_BYTE as int,
            );
            assert(THRESHOLD / MAX_PAGE_BYTE == 131072);
        }
    }
    if b.reserved_pages > b.threshold / MAX_PAGE_BYTE / 2 {
        proof {
            vstd::arithmetic::div_mod::lemma_fundamental_div_mod(
                b.threshold as int,
                MAX_PAGE_BYTE as int,
            );
            vstd::arithmetic::div_mod::lemma_fundamental_div_mod(
                b.threshold as int / (MAX_PAGE_BYTE as int),
                2,
            );
        }
        return false;
    }
    let rs: u64 = b.reserved_pages * MAX_PAGE_BYTE;
    proof {
        vstd::arithmetic::div_mod::lemma_fundamental_div_mod(
            b.threshold as int,
            MAX_PAGE_BYTE as int,
        );
        vstd::arithmetic::div_mod::lemma_fundamental_div_mod(
            b.threshold as int / (MAX_PAGE_BYTE as int),
            2,
        );
    }
    if b.offset < rs || b.offset > b.threshold {
        return false;
    }
    if b.upgradable && b.offset > b.threshold / 2 {
        proof {
            vstd::arithmetic::div_mod::lemma_fundamental_div_mod(b.threshold as int, 2);
        }
        return false;
    }
    proof {
        vstd::arithmetic::div_mod::lemma_fundamental_div_mod(b.threshold as int, 2);
    }
    let n: usize = b.assets.len();
    let mut i: usize = 0;
    while i < n
        invariant
            i <= n,
            n == b.len(),
            forall|x: int, y: int| 0 <= x < y < i ==> b.key_at(x) != b.key_at(y),
        decreases n - i,
    {
        let mut j: usize = 0;
        while j < i
            invariant
                j <= i < n,
                n == b.len(),
                forall|x: int| 0 <= x < j ==> b.key_at(x) != b.key_at(i as int),
            decreases i - j,
        {
            if b.assets[j].0 == b.assets[i].0 {
                proof {
                    assert(b.key_at(j as int) == b.key_at(i as int));
                }
                return false;
            }
            j = j + 1;
        }
        i = i + 1;
    }
    let mut i: usize = 0;
    while i < n
        invariant
            i <= n,
            n == b.len(),
            rs == b.reserved_space(),
            forall|x: int, fi: int|
                #![trigger b.fields_at(x)[fi]]
                0 <= x < i && 0 <= fi < b.fields_at(x).len() ==> {
                    &&& b.reserved_space() <= b.fields_at(x)[fi].0
                    &&& b.fields_at(x)[fi].0 + b.fields_at(x)[fi].1 <= b.offset
                },
        decreases n - i,
    {
        let fields: &Vec<(u64, u64)> = &b.assets[i].1;
        let mut fi: usize = 0;
        while fi < fields.len()
            invariant
                fi <= fields@.len(),
                fields@ == b.fields_at(i as int),
                i < n,
                n == b.len(),
                rs == b.reserved_space(),
                forall|x: int|
                    0 <= x < fi ==> {
                        &&& b.reserved_space() <= (#[trigger] b.fields_at(i as int)[x]).0
                        &&& b.fields_at(i as int)[x].0 + b.fields_at(i as int)[x].1 <= b.offset
                    },
            decreases fields@.len() - fi,
        {
            let f = fields[fi];
            if f.0 < rs {
                return false;
            }
            if f.1 > b.offset || f.0 > b.offset - f.1 {
                proof {
                    assert(!(b.fields_at(i as int)[fi as int].0 + b.fields_at(
                        i as int,
                    )[fi as int].1 <= b.offset));
                }
                return false;
            }
            fi = fi + 1;
        }
        i = i + 1;
    }
    true
}


/// Writes below the reserved header region change no key's segments.
proof fn lemma_bucket_header_agree(b: Bucket, m_a: Seq<u8>, m_b: Seq<u8>)
    requires
        b.wf(),
        m_a.len() >= b.offset,
        m_b.len() == m_a.len(),
        forall|oo: int|
            #![trigger m_b[oo]]
            b.reserved_space() <= oo < m_a.len() ==> m_b[oo] == m_a[oo],
    ensures
        bucket_contents(b, m_b) == bucket_contents(b, m_a),
{
    let ca = bucket_contents(b, m_a);
    let cb = bucket_contents(b, m_b);
    assert forall|k: Seq<char>| #[trigger] cb.dom().contains(k) implies ca.dom().contains(k)
        && cb[k] == ca[k] by {
        let i = b.index_of(k);
        b.lemma_index_of(i);
        let fields = b.fields_at(i);
        assert forall|fi: int| 0 <= fi < fields.len() implies seg_bytes(m_b, #[trigger] fields[fi])
            == seg_bytes(m_a, fields[fi]) by {
            assert(b.reserved_space() <= b.fields_at(i)[fi].0 && b.fields_at(i)[fi].0
                + b.fields_at(i)[fi].1 <= b.offset);
            assert_seqs_equal!(
                m_b.subrange(fields[fi].0 as int, fields[fi].0 + fields[fi].1)
                    == m_a.subrange(fields[fi].0 as int, fields[fi].0 + fields[fi].1),
                o => {
                    assert(m_b[fields[fi].0 + o] == m_a[fields[fi].0 + o]);
                }
            );
        }
        assert(segs_bytes(m_b, fields) =~= segs_bytes(m_a, fields));
    }
    assert(cb =~= ca);
}

/// The snapshot length a bucket header records.
pub open spec fn spec_bucket_header_len(mem: Seq<u8>) -> int
    recommends
        mem.len() >= 8,
{
    spec_u64_from_le_bytes(mem.take(8)) as int
}

/// The snapshot bytes a bucket header points at.
pub open spec fn spec_bucket_header_payload(mem: Seq<u8>) -> Seq<u8>
    recommends
        mem.len() >= 8,
{
    mem.subrange(8, 8 + spec_bucket_header_len(mem))
}

/// True when the memory's header region holds a bucket snapshot a
/// restore accepts.
pub open spec fn spec_bucket_restore_ok(mem: Seq<u8>, memory: StableMemory) -> bool {
    &&& mem.len() >= 8
    &&& 8 + spec_bucket_header_len(mem) <= mem.len()
    &&& match spec_decode_bucket(spec_bucket_header_payload(mem)) {
        Some(m) => bucket_model_fits(m, memory),
        None => false,
    }
}

impl Bucket {
    /// True when a snapshot taken now would fit the reserved header
    /// region together with its 8-byte length prefix.
    pub fn check_self_bytes_len(&self) -> (r: bool)
        requires
            self.wf(),
        ensures
            r == (8 + spec_encode_bucket(*self).len() < self.reserved_space()),
    {
        let bytes = encode_bucket(self);
        let len: u64 = bytes.len() as u64;
        let rs: u64 = self.reserved_pages * MAX_PAGE_BYTE;
        if rs < 8 {
            return false;
        }
        len < rs - 8
    }

    /// Serialize the index state and write it to the reserved header
    /// region: an 8-byte length at offset 0, the snapshot at offset 8.
    /// The caller must have seen `check_self_bytes_len` pass.
    pub fn update_self_to_stable(&self, memory: &mut StableMemory)
        requires
            self.wf(),
            self.mem_ok(*old(memory)),
            8 + spec_encode_bucket(*self).len() < self.reserved_space(),
        ensures
            self.mem_ok(*final(memory)),
            final(memory)@.len() == old(memory)@.len(),
            final(memory).max_pages == old(memory).max_pages,
            final(memory).spec_pages() == old(memory).spec_pages(),
            final(memory)@.subrange(0, 8) == spec_u64_to_le_bytes(
                spec_encode_bucket(*self).len() as u64,
            ),
            final(memory)@.subrange(8, 8 + spec_encode_bucket(*self).len() as int)
                == spec_encode_bucket(*self),
            forall|j: int|
                self.reserved_space() <= j < old(memory)@.len() ==> final(memory)@[j] == old(
                    memory,
                )@[j],
            bucket_contents(*self, final(memory)@) == bucket_contents(*self, old(memory)@),
    {
        let ghost enc = spec_encode_bucket(*self);
        let bytes = encode_bucket(self);
        let blen: u64 = bytes.len() as u64;
        let len_bytes = u64_to_le_bytes(blen);
        crate::stable::storage_data(memory, 0, len_bytes);
        crate::stable::storage_data(memory, 8, bytes);
        proof {
            assert_seqs_equal!(
                memory@.subrange(0, 8) == spec_u64_to_le_bytes(enc.len() as u64)
            );
            assert_seqs_equal!(
                memory@.subrange(8, 8 + enc.len() as int) == enc,
                o => {
                    assert(memory@[8 + o] == enc[o]);
                }
            );
            lemma_bucket_header_agree(*self, old(memory)@, memory@);
        }
    }

    /// True when the header holds a snapshot `update_self_from_stable`
    /// accepts for this memory: the executable test for its
    /// precondition.
    pub fn check_stable_data(memory: &StableMemory) -> (r: bool)
        requires
            memory.wf(),
        ensures
            r == spec_bucket_restore_ok(memory@, *memory),
    {
        let pages: u64 = memory.size();
        let total: u64 = pages * MAX_PAGE_BYTE;
        if total < 8 {
            return false;
        }
        let len_bytes = memory.read(0, 8);
        let blen: u64 = u64_from_le_bytes(len_bytes.as_slice());
        proof {
            assert(len_bytes@ =~= memory@.take(8));
        }
        if blen > total - 8 {
            return false;
        }
        let payload = memory.read(8, blen);
        proof {
            assert(payload@ =~= spec_bucket_header_payload(memory@));
        }
        let b = match decode_bucket(&payload) {
            None => {
                return false;
            },
            Some(b) => b,
        };
        let ghost m = spec_decode_bucket(payload@).unwrap();
        proof {
            lemma_bucket_fits_iff_wf(m, b, *memory);
        }
        if !bucket_wf_check(&b) {
            return false;
        }
        if b.offset > total {
            return false;
        }
        if b.threshold / MAX_PAGE_BYTE != memory.max_pages {
            return false;
        }
        if total > b.threshold {
            return false;
        }
        true
    }

    /// Read the header region, deserialize the snapshot it holds, and
    /// replace the index state wholesale. A header holding no
    /// acceptable snapshot is fatal; the caller tests with
    /// `check_stable_data` and must abort the restart sequence instead
    /// of calling.
    pub fn update_self_from_stable(&mut self, memory: &StableMemory)
        requires
            memory.wf(),
            spec_bucket_restore_ok(memory@, *memory),
        ensures
            final(self).wf(),
            final(self).mem_ok(*memory),
            spec_decode_bucket(spec_bucket_header_payload(memory@)) matches Some(m)
                && bucket_model_matches(m, *final(self)),
    {
        let pages: u64 = memory.size();
        let total: u64 = pages * MAX_PAGE_BYTE;
        proof {
            assert(total >= 8);
        }
        let len_bytes = memory.read(0, 8);
        let blen: u64 = u64_from_le_bytes(len_bytes.as_slice());
        proof {
            assert(len_bytes@ =~= memory@.take(8));
            assert(blen <= total - 8);
        }
        let payload = memory.read(8, blen);
        proof {
            assert(payload@ =~= spec_bucket_header_payload(memory@));
        }
        let b = match decode_bucket(&payload) {
            None => {
                proof {
                    assert(false);
                }
                return ;
            },
            Some(b) => b,
        };
        proof {
            let m = spec_decode_bucket(payload@).unwrap();
            lemma_bucket_fits_iff_wf(m, b, *memory);
        }
        *self = b;
    }

    /// Snapshot, then restore, is faithful for the bucket too: the
    /// memory `update_self_to_stable` leaves behind is accepted by
    /// `update_self_from_stable`, which decodes the saved state datum
    /// for datum. Stated for states whose sizes fit the format's
    /// length prefixes, as every reachable state's do.
    pub proof fn lemma_bucket_snapshot_restore_fidelity(self, memory: StableMemory)
        requires
            self.wf(),
            self.mem_ok(memory),
            self.len() <= u64::MAX,
            forall|j: int|
                0 <= j < self.len() ==> encode_utf8(#[trigger] self.key_at(j)).len() <= u64::MAX
                    && self.fields_at(j).len() <= u64::MAX,
            8 + spec_encode_bucket(self).len() < self.reserved_space(),
            memory@.subrange(0, 8) == spec_u64_to_le_bytes(spec_encode_bucket(self).len() as u64),
            memory@.subrange(8, 8 + spec_encode_bucket(self).len() as int) == spec_encode_bucket(
                self,
            ),
        ensures
            spec_bucket_restore_ok(memory@, memory),
            spec_decode_bucket(spec_bucket_header_payload(memory@)) matches Some(m)
                && bucket_model_matches(m, self),
    {
        let enc = spec_encode_bucket(self);
        lemma_auto_spec_u64_to_from_le_bytes();
        assert(memory@.take(8) =~= memory@.subrange(0, 8));
        assert(spec_bucket_header_len(memory@) == enc.len());
        assert(spec_bucket_header_payload(memory@) == enc);
        lemma_decode_bucket_of_encode(self);
        let m = spec_decode_bucket(enc).unwrap();
        lemma_bucket_fits_iff_wf(m, self, memory);
    }
}


impl Bucket {
    /// The restart boundary, entered with the caller's staging blob:
    /// record it under the fixed staging key, then snapshot the index
    /// into the reserved header region. A blob that does not fit, or a
    /// snapshot that would overflow the header region after staging, is
    /// refused; the restart sequence must abort then, as the header is
    /// left unwritten.
    pub fn pre_upgrade(&mut self, memory: &mut StableMemory, buf: Vec<u8>) -> (r: Result<
        (),
        Error,
    >)
        requires
            old(self).wf(),
            old(self).mem_ok(*old(memory)),
        ensures
            final(self).wf(),
            final(self).mem_ok(*final(memory)),
            r matches Err(e) ==> e is InsufficientMemory,
            buf@.len() > old(self).spec_avail() ==> (r is Err && *final(self) == *old(self)
                && *final(memory) == *old(memory)),
            r is Ok ==> {
                &&& bucket_contents(*final(self), final(memory)@) == bucket_contents(
                    *old(self),
                    old(memory)@,
                ).insert(
                    "user_data"@,
                    (if old(self).has_key("user_data"@) {
                        bucket_contents(*old(self), old(memory)@)["user_data"@]
                    } else {
                        Seq::<Seq<u8>>::empty()
                    }).push(buf@),
                )
                &&& final(memory)@.subrange(0, 8) == spec_u64_to_le_bytes(
                    spec_encode_bucket(*final(self)).len() as u64,
                )
                &&& final(memory)@.subrange(8, 8 + spec_encode_bucket(*final(self)).len() as int)
                    == spec_encode_bucket(*final(self))
                &&& 8 + spec_encode_bucket(*final(self)).len() < final(self).reserved_space()
            },
    {
        let key = "user_data".to_owned();
        match self.put(memory, &key, buf) {
            Err(e) => Err(e),
            Ok(_) => {
                if !self.check_self_bytes_len() {
                    return Err(Error::InsufficientMemory);
                }
                self.update_self_to_stable(memory);
                Ok(())
            }
        }
    }

    /// The other side of the boundary: restore the index from the
    /// header, read the staging blob back, and drop its entry. The
    /// caller tests the header with `check_stable_data` first. Fails
    /// with the unknown-key error when the restored index holds no
    /// staging blob; the bytes it occupied are not reclaimed.
    pub fn post_upgrade(&mut self, memory: &StableMemory) -> (r: Result<Vec<u8>, Error>)
        requires
            memory.wf(),
            spec_bucket_restore_ok(memory@, *memory),
        ensures
            final(self).wf(),
            final(self).mem_ok(*memory),
            r matches Err(e) ==> e is InvalidKey,
            ({
                let m = spec_decode_bucket(spec_bucket_header_payload(memory@)).unwrap();
                &&& (r is Ok <==> (exists|i: int|
                    0 <= i < m.entries.len() && (#[trigger] m.entries[i]).0 == "user_data"@
                        && m.entries[i].1.len() >= 1))
                &&& (r matches Ok(buf) ==> (exists|i: int|
                    0 <= i < m.entries.len() && (#[trigger] m.entries[i]).0 == "user_data"@
                        && m.entries[i].1.len() >= 1 && buf@ == seg_bytes(
                        memory@,
                        m.entries[i].1[0],
                    )))
                &&& forall|k: Seq<char>|
                    #![trigger final(self).has_key(k)]
                    final(self).has_key(k) <==> ((exists|i: int|
                        0 <= i < m.entries.len() && (#[trigger] m.entries[i]).0 == k) && !(
                    r is Ok && k == "user_data"@))
            }),
    {
        self.update_self_from_stable(memory);
        let ghost m = spec_decode_bucket(spec_bucket_header_payload(memory@)).unwrap();
        let ghost restored = *self;
        proof {
            assert forall|k: Seq<char>|
                #![trigger restored.has_key(k)]
                restored.has_key(k) <==> (exists|i: int|
                    0 <= i < m.entries.len() && (#[trigger] m.entries[i]).0 == k) by {
                if restored.has_key(k) {
                    let i = choose|i: int| 0 <= i < restored.len() && restored.key_at(i) == k;
                    assert(m.entries[i].0 == k);
                }
                if exists|i: int|
                    0 <= i < m.entries.len() && (#[trigger] m.entries[i]).0 == k {
                    let i = choose|i: int|
                        0 <= i < m.entries.len() && (#[trigger] m.entries[i]).0 == k;
                    assert(restored.key_at(i) == k);
                    assert(restored.has_key(k));
                }
            }
        }
        let key = "user_data".to_owned();
        match self.get(memory, &key) {
            Err(_) => {
                proof {
                    assert(!restored.has_key("user_data"@));
                    assert forall|k: Seq<char>|
                        #![trigger self.has_key(k)]
                        self.has_key(k) <==> (exists|i: int|
                            0 <= i < m.entries.len() && (#[trigger] m.entries[i]).0 == k) by {
                        assert(*self == restored);
                        assert(restored.has_key(k) <==> (exists|i: int|
                            0 <= i < m.entries.len() && (#[trigger] m.entries[i]).0 == k));
                    }
                }
                Err(Error::InvalidKey)
            }
            Ok(mut segments) => {
                proof {
                    let i = restored.index_of("user_data"@);
                    restored.lemma_index_of(i);
                    assert(restored.fields_of("user_data"@) == m.entries[i].1);
                }
                if segments.len() == 0 {
                    proof {
                        let i = restored.index_of("user_data"@);
                        assert(m.entries[i].1.len() == 0);
                        assert forall|j: int|
                            0 <= j < m.entries.len() && (#[trigger] m.entries[j]).0
                                == "user_data"@ implies m.entries[j].1.len() == 0 by {
                            assert(restored.key_at(j) == "user_data"@);
                            restored.lemma_index_of(j);
                        }
                        assert forall|k: Seq<char>|
                            #![trigger self.has_key(k)]
                            self.has_key(k) <==> (exists|i2: int|
                                0 <= i2 < m.entries.len() && (#[trigger] m.entries[i2]).0
                                    == k) by {
                            assert(*self == restored);
                            assert(restored.has_key(k) <==> (exists|i2: int|
                                0 <= i2 < m.entries.len() && (#[trigger] m.entries[i2]).0 == k));
                        }
                    }
                    return Err(Error::InvalidKey);
                }
                let buf: Vec<u8> = segments.remove(0);
                proof {
                    let i = restored.index_of("user_data"@);
                    assert(buf@ == seg_bytes(memory@, m.entries[i].1[0]));
                }
                self.del_key(memory, &key);
                proof {
                    assert forall|k: Seq<char>|
                        #![trigger self.has_key(k)]
                        self.has_key(k) <==> ((exists|i2: int|
                            0 <= i2 < m.entries.len() && (#[trigger] m.entries[i2]).0 == k) && k
                            != "user_data"@) by {
                        assert(self.has_key(k) <==> (restored.has_key(k) && k != "user_data"@));
                        assert(restored.has_key(k) <==> (exists|i2: int|
                            0 <= i2 < m.entries.len() && (#[trigger] m.entries[i2]).0 == k));
                    }
                }
                Ok(buf)
            }
        }
    }
}

} // verus!
