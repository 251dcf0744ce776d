use crate::types::KvError;
use vstd::arithmetic::div_mod::{
    lemma_fundamental_div_mod, lemma_fundamental_div_mod_converse, lemma_multiply_divide_lt,
};
use vstd::prelude::*;

verus! {

/// Growth units set aside up front for the reserved header region.
pub const RESERVED_PAGE: u64 = 320;

/// Bytes in one growth unit (page) of the backing memory.
pub const MAX_PAGE_BYTE: u64 = 65536;

/// Largest page count a memory instance may be configured with: the
/// 8 GiB addressable ceiling divided by the page size.
pub const MAX_MEMORY_PAGES: u64 = 131072;

/// Model of the host's linear, byte-addressable, growable memory: a list
/// of fixed-size pages, grown one unit at a time, read and written at
/// byte offsets. Viewed as the flat byte sequence of all pages in order.
pub struct StableMemory {
    pub pages: Vec<Vec<u8>>,
    pub max_pages: u64,
}

impl View for StableMemory {
    type V = Seq<u8>;

    open spec fn view(&self) -> Seq<u8> {
        Seq::new(
            self.pages@.len() * (MAX_PAGE_BYTE as nat),
            |i: int| self.pages@[i / (MAX_PAGE_BYTE as int)]@[i % (MAX_PAGE_BYTE as int)],
        )
    }
}

impl StableMemory {
    /// Currently provisioned growth units.
    pub open spec fn spec_pages(self) -> int {
        self.pages@.len() as int
    }

    pub open spec fn wf(self) -> bool {
        &&& self.max_pages <= MAX_MEMORY_PAGES
        &&& self.pages@.len() <= self.max_pages
        &&& forall|p: int|
            0 <= p < self.pages@.len() ==> (#[trigger] self.pages@[p])@.len() == MAX_PAGE_BYTE
    }

    pub fn new(max_pages: u64) -> (r: StableMemory)
        requires
            max_pages <= MAX_MEMORY_PAGES,
        ensures
            r.wf(),
            r.max_pages == max_pages,
            r@.len() == 0,
            r.spec_pages() == 0,
    {
        StableMemory { pages: Vec::new(), max_pages }
    }

    /// Currently provisioned length, in growth units.
    pub fn size(&self) -> (r: u64)
        requires
            self.wf(),
        ensures
            r == self.spec_pages(),
            r * MAX_PAGE_BYTE == self@.len(),
    {
        self.pages.len() as u64
    }

    /// Provision `new_pages` further growth units, zero-filled. Fails
    /// exactly when that would pass the configured page ceiling.
    pub fn grow(&mut self, new_pages: u64) -> (r: Result<(), KvError>)
        requires
            old(self).wf(),
        ensures
            final(self).wf(),
            final(self).max_pages == old(self).max_pages,
            r is Ok <==> old(self).spec_pages() + new_pages <= old(self).max_pages,
            r is Ok ==> {
                &&& final(self).spec_pages() == old(self).spec_pages() + new_pages
                &&& final(self)@.len() == old(self)@.len() + new_pages * MAX_PAGE_BYTE
                &&& forall|j: int| 0 <= j < old(self)@.len() ==> final(self)@[j] == old(self)@[j]
                &&& forall|j: int|
                    old(self)@.len() <= j < final(self)@.len() ==> final(self)@[j] == 0u8
            },
            r is Err ==> *final(self) == *old(self),
            r matches Err(e) ==> e is InsufficientMemory,
    {
        let cur: u64 = self.pages.len() as u64;
        if new_pages > self.max_pages - cur {
            return Err(KvError::InsufficientMemory);
        }
        let ghost old_pages = self.pages@;
        let mut i: u64 = 0;
        while i < new_pages
            invariant
                i <= new_pages,
                cur == old_pages.len(),
                cur + new_pages <= self.max_pages <= MAX_MEMORY_PAGES,
                self.pages@.len() == cur + i,
                forall|p: int| 0 <= p < cur ==> self.pages@[p] == old_pages[p],
                forall|p: int|
                    cur <= p < self.pages@.len() ==> (#[trigger] self.pages@[p])@ == Seq::new(
                        MAX_PAGE_BYTE as nat,
                        |q: int| 0u8,
                    ),
                forall|p: int| 0 <= p < cur ==> (#[trigger] self.pages@[p])@.len() == MAX_PAGE_BYTE,
                self.max_pages == old(self).max_pages,
            decreases new_pages - i,
        {
            let page: Vec<u8> = vec![0u8; MAX_PAGE_BYTE as usize];
            proof {
                assert forall|q: int| 0 <= q < page@.len() implies page@[q] == 0u8 by {
                    assert(cloned(0u8, page@[q]));
                }
                assert(page@ =~= Seq::new(MAX_PAGE_BYTE as nat, |q: int| 0u8));
            }
            self.pages.push(page);
            i = i + 1;
        }
        proof {
            self.lemma_pointwise_from_pages(*old(self));
        }
        Ok(())
    }

    /// If every page shared with `prior` is unchanged, the shared prefix
    /// of the byte views agrees pointwise, and bytes of all-zero new
    /// pages are zero.
    proof fn lemma_pointwise_from_pages(self, prior: StableMemory)
        requires
            prior.wf(),
            self.wf(),
            prior.pages@.len() <= self.pages@.len(),
            forall|p: int| 0 <= p < prior.pages@.len() ==> self.pages@[p] == prior.pages@[p],
            forall|p: int|
                prior.pages@.len() <= p < self.pages@.len() ==> (#[trigger] self.pages@[p])@
                    == Seq::new(MAX_PAGE_BYTE as nat, |q: int| 0u8),
        ensures
            self@.len() == self.pages@.len() * MAX_PAGE_BYTE,
            forall|j: int| 0 <= j < prior@.len() ==> self@[j] == prior@[j],
            forall|j: int| prior@.len() <= j < self@.len() ==> self@[j] == 0u8,
    {
        let page = MAX_PAGE_BYTE as int;
        assert forall|j: int| 0 <= j < prior@.len() implies self@[j] == prior@[j] by {
            lemma_fundamental_div_mod(j, page);
            lemma_multiply_divide_lt(j, page, prior.pages@.len() as int);
            assert(prior@.len() == prior.pages@.len() * page);
        }
        assert forall|j: int| prior@.len() <= j < self@.len() implies self@[j] == 0u8 by {
            lemma_fundamental_div_mod(j, page);
            lemma_multiply_divide_lt(j, page, self.pages@.len() as int);
            let p = j / page;
            if p < prior.pages@.len() {
                // then j < (p + 1) * page <= prior@.len(): contradiction
                assert(j == page * p + j % page);
                assert(j % page < page);
                assert((p + 1) * page <= prior.pages@.len() * page) by {
                    vstd::arithmetic::mul::lemma_mul_inequality(
                        p + 1,
                        prior.pages@.len() as int,
                        page,
                    );
                }
                assert((p + 1) * page == p * page + page);
                assert(page * p == p * page);
                assert(false);
            }
        }
    }

    fn get_byte(&self, offset: u64) -> (b: u8)
        requires
            self.wf(),
            offset < self@.len(),
        ensures
            b == self@[offset as int],
    {
        proof {
            lemma_multiply_divide_lt(offset as int, MAX_PAGE_BYTE as int, self.pages@.len() as int);
        }
        let p: usize = (offset / MAX_PAGE_BYTE) as usize;
        let r: usize = (offset % MAX_PAGE_BYTE) as usize;
        self.pages[p][r]
    }

    fn set_byte(&mut self, offset: u64, b: u8)
        requires
            old(self).wf(),
            offset < old(self)@.len(),
        ensures
            final(self).wf(),
            final(self).max_pages == old(self).max_pages,
            final(self).spec_pages() == old(self).spec_pages(),
            final(self)@ == old(self)@.update(offset as int, b),
    {
        proof {
            lemma_multiply_divide_lt(
                offset as int,
                MAX_PAGE_BYTE as int,
                old(self).pages@.len() as int,
            );
        }
        let p: usize = (offset / MAX_PAGE_BYTE) as usize;
        let r: usize = (offset % MAX_PAGE_BYTE) as usize;
        let page: &mut Vec<u8> = &mut self.pages[p];
        page[r] = b;
        proof {
            let pagelen = MAX_PAGE_BYTE as int;
            assert forall|j: int| 0 <= j < self@.len() implies self@[j] == old(self)@.update(
                offset as int,
                b,
            )[j] by {
                lemma_fundamental_div_mod(j, pagelen);
                lemma_fundamental_div_mod(offset as int, pagelen);
                if j == offset as int {
                } else {
                    if j / pagelen == p && j % pagelen == r {
                        assert(j == pagelen * (j / pagelen) + j % pagelen);
                        assert(offset as int == pagelen * p + r);
                        assert(false);
                    }
                }
            }
            assert(self@ =~= old(self)@.update(offset as int, b));
        }
    }

    /// Write `bytes` at byte offset `offset`; the range must already be
    /// provisioned.
    pub fn write(&mut self, offset: u64, bytes: &[u8])
        requires
            old(self).wf(),
            offset + bytes@.len() <= old(self)@.len(),
        ensures
            final(self).wf(),
            final(self).max_pages == old(self).max_pages,
            final(self).spec_pages() == old(self).spec_pages(),
            final(self)@.len() == old(self)@.len(),
            forall|j: int|
                offset <= j < offset + bytes@.len() ==> final(self)@[j] == bytes@[j - offset],
            forall|j: int|
                0 <= j < old(self)@.len() && !(offset <= j < offset + bytes@.len())
                    ==> final(self)@[j] == old(self)@[j],
    {
        let mut i: usize = 0;
        while i < bytes.len()
            invariant
                i <= bytes@.len(),
                offset + bytes@.len() <= old(self)@.len(),
                self.wf(),
                self.max_pages == old(self).max_pages,
                self.spec_pages() == old(self).spec_pages(),
                self@.len() == old(self)@.len(),
                forall|j: int| offset <= j < offset + i ==> self@[j] == bytes@[j - offset],
                forall|j: int|
                    0 <= j < old(self)@.len() && !(offset <= j < offset + i) ==> self@[j] == old(
                        self,
                    )@[j],
            decreases bytes@.len() - i,
        {
            let b: u8 = *vstd::slice::slice_index_get(bytes, i);
            self.set_byte(offset + i as u64, b);
            i = i + 1;
        }
    }

    /// Read `len` bytes starting at byte offset `offset`; exact length,
    /// no short reads.
    pub fn read(&self, offset: u64, len: u64) -> (r: Vec<u8>)
        requires
            self.wf(),
            offset + len <= self@.len(),
        ensures
            r@ == self@.subrange(offset as int, offset as int + len as int),
            r@.len() == len,
    {
        let mut out: Vec<u8> = Vec::new();
        let mut i: u64 = 0;
        while i < len
            invariant
                i <= len,
                offset + len <= self@.len(),
                self.wf(),
                out@.len() == i,
                forall|j: int| 0 <= j < i ==> out@[j] == self@[offset + j],
            decreases len - i,
        {
            let b = self.get_byte(offset + i);
            out.push(b);
            i = i + 1;
        }
        proof {
            assert(out@ =~= self@.subrange(offset as int, offset as int + len as int));
        }
        out
    }
}

/// Provision further growth units of backing memory.
pub fn stable_grow_memory_page(memory: &mut StableMemory, page_count: u64) -> (r: Result<
    (),
    KvError,
>)
    requires
        old(memory).wf(),
    ensures
        final(memory).wf(),
        final(memory).max_pages == old(memory).max_pages,
        r is Ok <==> old(memory).spec_pages() + page_count <= old(memory).max_pages,
        r is Ok ==> {
            &&& final(memory).spec_pages() == old(memory).spec_pages() + page_count
            &&& final(memory)@.len() == old(memory)@.len() + page_count * MAX_PAGE_BYTE
            &&& forall|j: int| 0 <= j < old(memory)@.len() ==> final(memory)@[j] == old(memory)@[j]
            &&& forall|j: int|
                old(memory)@.len() <= j < final(memory)@.len() ==> final(memory)@[j] == 0u8
        },
        r is Err ==> *final(memory) == *old(memory),
        r matches Err(e) ==> e is InsufficientMemory,
{
    memory.grow(page_count)
}

/// Write `data` to the backing memory at byte offset `start`.
pub fn storage_data(memory: &mut StableMemory, start: u64, data: Vec<u8>)
    requires
        old(memory).wf(),
        start + data@.len() <= old(memory)@.len(),
    ensures
        final(memory).wf(),
        final(memory).max_pages == old(memory).max_pages,
        final(memory).spec_pages() == old(memory).spec_pages(),
        final(memory)@.len() == old(memory)@.len(),
        forall|j: int| start <= j < start + data@.len() ==> final(memory)@[j] == data@[j - start],
        forall|j: int|
            0 <= j < old(memory)@.len() && !(start <= j < start + data@.len())
                ==> final(memory)@[j] == old(memory)@[j],
{
    memory.write(start, data.as_slice())
}

/// Read `len` bytes of backing memory starting at byte offset `position`.
pub fn load_from_stable(memory: &StableMemory, position: u64, len: usize) -> (r: Vec<u8>)
    requires
        memory.wf(),
        position + len <= memory@.len(),
    ensures
        r@ == memory@.subrange(position as int, position as int + len as int),
        r@.len() == len,
{
    memory.read(position, len as u64)
}

} // verus!
