use crate::kv::kv_contents;
use crate::layout::{KV_BLOCK_SIZE, THRESHOLD};
use crate::stable::{StableMemory, MAX_PAGE_BYTE};
use crate::types::{Kv, KvError, Layout, StableStruct, Store};
use vstd::assert_seqs_equal;
use vstd::bytes::{
    lemma_auto_spec_u64_to_from_le_bytes, spec_u64_from_le_bytes, spec_u64_to_le_bytes,
    u64_from_le_bytes, u64_to_le_bytes,
};
use vstd::prelude::*;
use vstd::utf8::{decode_utf8, encode_utf8, encode_utf8_decode_utf8, encode_utf8_valid_utf8,
    valid_utf8};

verus! {

/// The data a snapshot carries, seen abstractly: the allocator's plain
/// fields and bit sequence, and one (key, blocks, fill) triple per
/// index entry.
pub struct SnapshotModel {
    pub stable_blocks_count: u64,
    pub kv_block_size: u64,
    pub threshold: u64,
    pub reserved_pages: u64,
    pub bit_map: Seq<u8>,
    pub entries: Seq<(Seq<char>, Seq<u64>, u64)>,
}

/// A block chain as bytes: each index in eight little-endian bytes.
pub open spec fn spec_encode_u64s(blocks: Seq<u64>) -> Seq<u8>
    decreases blocks.len(),
{
    if blocks.len() == 0 {
        Seq::empty()
    } else {
        spec_u64_to_le_bytes(blocks[0]) + spec_encode_u64s(blocks.drop_first())
    }
}

/// One entry as bytes: the key's UTF-8 length and bytes, the chain's
/// length and blocks, then the fill.
pub open spec fn spec_encode_entry(key: Seq<char>, blocks: Seq<u64>, fill: u64) -> Seq<u8> {
    spec_u64_to_le_bytes(encode_utf8(key).len() as u64) + encode_utf8(key) + spec_u64_to_le_bytes(
        blocks.len() as u64,
    ) + spec_encode_u64s(blocks) + spec_u64_to_le_bytes(fill)
}

/// The index entries from `i` on, one after the other.
pub open spec fn spec_encode_entries(kv: Kv, i: int) -> Seq<u8>
    decreases kv.len() - i,
{
    if i < 0 || i >= kv.len() {
        Seq::empty()
    } else {
        spec_encode_entry(kv.key_at(i), kv.blocks_at(i), kv.fill_at(i)) + spec_encode_entries(
            kv,
            i + 1,
        )
    }
}

/// A whole snapshot: the allocator's four plain fields, its bit map
/// with a length prefix, then the entry count and the entries.
pub open spec fn spec_encode(layout: Layout, kv: Kv) -> Seq<u8> {
    spec_u64_to_le_bytes(layout.stable_blocks_count) + spec_u64_to_le_bytes(layout.kv_block_size)
        + spec_u64_to_le_bytes(layout.threshold) + spec_u64_to_le_bytes(layout.reserved_pages)
        + spec_u64_to_le_bytes(layout.bit_map@.len() as u64) + layout.bit_map@
        + spec_u64_to_le_bytes(kv.len() as u64) + spec_encode_entries(kv, 0)
}

impl StableStruct {
    /// Serialize the pair of structures to the snapshot byte format.
    pub fn to_bytes(&self) -> (r: Vec<u8>)
        ensures
            r@ == spec_encode(self.layout, self.kv),
    {
        encode_state(&self.layout, &self.kv)
    }
}

pub(crate) fn push_u64(out: &mut Vec<u8>, x: u64)
    ensures
        final(out)@ == old(out)@ + spec_u64_to_le_bytes(x),
{
    let mut b = u64_to_le_bytes(x);
    out.append(&mut b);
}

/// Serialize allocator and index to the snapshot byte format.
pub fn encode_state(layout: &Layout, kv: &Kv) -> (r: Vec<u8>)
    ensures
        r@ == spec_encode(*layout, *kv),
{
    let mut out: Vec<u8> = Vec::new();
    push_u64(&mut out, layout.stable_blocks_count);
    push_u64(&mut out, layout.kv_block_size);
    push_u64(&mut out, layout.threshold);
    push_u64(&mut out, layout.reserved_pages);
    push_u64(&mut out, layout.bit_map.len() as u64);
    let mut bits = layout.bit_map();
    out.append(&mut bits);
    push_u64(&mut out, kv.kv_set.len() as u64);
    let ghost header = out@;
    let mut i: usize = 0;
    while i < kv.kv_set.len()
        invariant
            i <= kv.len(),
            out@ == header + spec_encode_entries_upto(*kv, i as int),
        decreases kv.len() - i,
    {
        let entry = &kv.kv_set[i];
        let key_bytes: &[u8] = entry.0.as_str().as_bytes();
        push_u64(&mut out, key_bytes.len() as u64);
        let mut kb = vstd::slice::slice_to_vec(key_bytes);
        out.append(&mut kb);
        push_u64(&mut out, entry.1.0.len() as u64);
        let ghost with_blocks_header = out@;
        let mut j: usize = 0;
        while j < entry.1.0.len()
            invariant
                j <= entry.1.0@.len(),
                entry == &kv.kv_set[i as int],
                i < kv.len(),
                out@ == with_blocks_header + spec_encode_u64s(entry.1.0@.take(j as int)),
            decreases entry.1.0@.len() - j,
        {
            let ghost prefix = entry.1.0@.take(j as int);
            push_u64(&mut out, entry.1.0[j]);
            proof {
                lemma_encode_u64s_snoc(prefix, entry.1.0@[j as int]);
                assert(prefix.push(entry.1.0@[j as int]) =~= entry.1.0@.take(j as int + 1));
            }
            j = j + 1;
        }
        push_u64(&mut out, entry.1.1);
        proof {
            assert(entry.1.0@.take(entry.1.0@.len() as int) =~= entry.1.0@);
            assert(key_bytes@ == encode_utf8(kv.key_at(i as int)));
            lemma_encode_entries_upto_snoc(*kv, i as int);
            assert(out@ == header + spec_encode_entries_upto(*kv, i as int + 1));
        }
        i = i + 1;
    }
    proof {
        lemma_encode_entries_split(*kv, 0, kv.len());
        assert(spec_encode_entries_upto(*kv, kv.len()) == spec_encode_entries(*kv, 0));
        assert(out@ == spec_encode(*layout, *kv));
    }
    out
}

/// The entries before `i`, one after the other.
pub open spec fn spec_encode_entries_upto(kv: Kv, i: int) -> Seq<u8>
    decreases i,
{
    if i <= 0 {
        Seq::empty()
    } else {
        spec_encode_entries_upto(kv, i - 1) + spec_encode_entry(
            kv.key_at(i - 1),
            kv.blocks_at(i - 1),
            kv.fill_at(i - 1),
        )
    }
}

proof fn lemma_encode_u64s_snoc(blocks: Seq<u64>, b: u64)
    ensures
        spec_encode_u64s(blocks.push(b)) == spec_encode_u64s(blocks) + spec_u64_to_le_bytes(b),
    decreases blocks.len(),
{
    lemma_auto_spec_u64_to_from_le_bytes();
    if blocks.len() == 0 {
        assert(blocks.push(b).drop_first() =~= Seq::<u64>::empty());
        assert(blocks.push(b)[0] == b);
        assert(spec_encode_u64s(blocks.push(b).drop_first()) =~= Seq::<u8>::empty());
        assert(spec_encode_u64s(blocks.push(b)) =~= spec_u64_to_le_bytes(b));
        assert(spec_encode_u64s(blocks) + spec_u64_to_le_bytes(b) =~= spec_u64_to_le_bytes(b));
    } else {
        assert(blocks.push(b).drop_first() =~= blocks.drop_first().push(b));
        lemma_encode_u64s_snoc(blocks.drop_first(), b);
        assert(spec_encode_u64s(blocks.push(b)) =~= spec_encode_u64s(blocks)
            + spec_u64_to_le_bytes(b));
    }
}

proof fn lemma_encode_entries_upto_snoc(kv: Kv, i: int)
    requires
        0 <= i < kv.len(),
    ensures
        spec_encode_entries_upto(kv, i + 1) == spec_encode_entries_upto(kv, i)
            + spec_encode_entry(kv.key_at(i), kv.blocks_at(i), kv.fill_at(i)),
{
}

/// Counting from the front or from the back writes the same bytes.
proof fn lemma_encode_entries_split(kv: Kv, i: int, n: int)
    requires
        0 <= i <= n == kv.len(),
    ensures
        spec_encode_entries_upto(kv, n) == spec_encode_entries_upto(kv, i)
            + spec_encode_entries(kv, i),
    decreases n - i,
{
    if i == n {
        assert(spec_encode_entries(kv, i) =~= Seq::<u8>::empty());
        assert(spec_encode_entries_upto(kv, i) + Seq::<u8>::empty() =~= spec_encode_entries_upto(
            kv,
            i,
        ));
    } else {
        lemma_encode_entries_split(kv, i + 1, n);
        lemma_encode_entries_upto_snoc(kv, i);
        assert(spec_encode_entries_upto(kv, i) + spec_encode_entries(kv, i)
            =~= spec_encode_entries_upto(kv, i + 1) + spec_encode_entries(kv, i + 1));
    }
}


/// Eight bytes as a little-endian number, and the rest.
pub open spec fn spec_take_u64(b: Seq<u8>) -> Option<(u64, Seq<u8>)> {
    if b.len() >= 8 {
        Some((spec_u64_from_le_bytes(b.take(8)), b.skip(8)))
    } else {
        None
    }
}

/// The first `n` bytes, and the rest.
pub open spec fn spec_take_bytes(b: Seq<u8>, n: int) -> Option<(Seq<u8>, Seq<u8>)> {
    if 0 <= n <= b.len() {
        Some((b.take(n), b.skip(n)))
    } else {
        None
    }
}

/// `n` block indices, each eight little-endian bytes, and the rest.
pub open spec fn spec_decode_u64s(b: Seq<u8>, n: int) -> Option<(Seq<u64>, Seq<u8>)>
    decreases n,
{
    if n <= 0 {
        Some((Seq::empty(), b))
    } else {
        match spec_take_u64(b) {
            None => None,
            Some((v, r)) => match spec_decode_u64s(r, n - 1) {
                None => None,
                Some((vs, r2)) => Some((seq![v] + vs, r2)),
            },
        }
    }
}

/// One entry: key length, UTF-8 key bytes, chain length, blocks, fill.
pub open spec fn spec_decode_entry(b: Seq<u8>) -> Option<((Seq<char>, Seq<u64>, u64), Seq<u8>)> {
    match spec_take_u64(b) {
        None => None,
        Some((klen, r1)) => match spec_take_bytes(r1, klen as int) {
            None => None,
            Some((kb, r2)) => if !valid_utf8(kb) {
                None
            } else {
                match spec_take_u64(r2) {
                    None => None,
                    Some((blen, r3)) => match spec_decode_u64s(r3, blen as int) {
                        None => None,
                        Some((blocks, r4)) => match spec_take_u64(r4) {
                            None => None,
                            Some((fill, r5)) => Some(((decode_utf8(kb), blocks, fill), r5)),
                        },
                    },
                }
            },
        },
    }
}

/// `n` entries one after the other, and the rest.
pub open spec fn spec_decode_entries(b: Seq<u8>, n: int) -> Option<
    (Seq<(Seq<char>, Seq<u64>, u64)>, Seq<u8>),
>
    decreases n,
{
    if n <= 0 {
        Some((Seq::empty(), b))
    } else {
        match spec_decode_entry(b) {
            None => None,
            Some((e, r)) => match spec_decode_entries(r, n - 1) {
                None => None,
                Some((es, r2)) => Some((seq![e] + es, r2)),
            },
        }
    }
}

/// A whole snapshot, refusing trailing garbage.
pub open spec fn spec_decode(b: Seq<u8>) -> Option<SnapshotModel> {
    match spec_take_u64(b) {
        None => None,
        Some((sbc, r1)) => match spec_take_u64(r1) {
            None => None,
            Some((kbs, r2)) => match spec_take_u64(r2) {
                None => None,
                Some((thr, r3)) => match spec_take_u64(r3) {
                    None => None,
                    Some((rp, r4)) => match spec_take_u64(r4) {
                        None => None,
                        Some((bitlen, r5)) => match spec_take_bytes(r5, bitlen as int) {
                            None => None,
                            Some((bitmap, r6)) => match spec_take_u64(r6) {
                                None => None,
                                Some((count, r7)) => match spec_decode_entries(r7, count as int) {
                                    None => None,
                                    Some((entries, r8)) => if r8.len() == 0 {
                                        Some(
                                            SnapshotModel {
                                                stable_blocks_count: sbc,
                                                kv_block_size: kbs,
                                                threshold: thr,
                                                reserved_pages: rp,
                                                bit_map: bitmap,
                                                entries: entries,
                                            },
                                        )
                                    } else {
                                        None
                                    },
                                },
                            },
                        },
                    },
                },
            },
        },
    }
}

/// True when the pair of structures carries exactly the snapshot's data.
pub open spec fn model_matches(m: SnapshotModel, layout: Layout, kv: Kv) -> bool {
    &&& layout.stable_blocks_count == m.stable_blocks_count
    &&& layout.kv_block_size == m.kv_block_size
    &&& layout.threshold == m.threshold
    &&& layout.reserved_pages == m.reserved_pages
    &&& layout.bit_map@ == m.bit_map
    &&& kv.len() == m.entries.len()
    &&& forall|i: int|
        0 <= i < kv.len() ==> kv.key_at(i) == (#[trigger] m.entries[i]).0 && kv.blocks_at(i)
            == m.entries[i].1 && kv.fill_at(i) == m.entries[i].2
}

/// Parsing eight encoded bytes gives the number back.
pub(crate) proof fn lemma_take_u64_of_encode(x: u64, rest: Seq<u8>)
    ensures
        spec_take_u64(spec_u64_to_le_bytes(x) + rest) == Some((x, rest)),
{
    lemma_auto_spec_u64_to_from_le_bytes();
    let b = spec_u64_to_le_bytes(x) + rest;
    assert(b.take(8) =~= spec_u64_to_le_bytes(x));
    assert(b.skip(8) =~= rest);
}

/// Parsing an encoded chain gives the chain back.
proof fn lemma_decode_u64s_of_encode(blocks: Seq<u64>, rest: Seq<u8>)
    requires
        blocks.len() <= u64::MAX,
    ensures
        spec_decode_u64s(spec_encode_u64s(blocks) + rest, blocks.len() as int) == Some(
            (blocks, rest),
        ),
    decreases blocks.len(),
{
    if blocks.len() == 0 {
        assert(spec_encode_u64s(blocks) + rest =~= rest);
        assert(blocks =~= Seq::<u64>::empty());
    } else {
        let tail = blocks.drop_first();
        lemma_decode_u64s_of_encode(tail, rest);
        assert(spec_encode_u64s(blocks) + rest =~= spec_u64_to_le_bytes(blocks[0]) + (
        spec_encode_u64s(tail) + rest));
        lemma_take_u64_of_encode(blocks[0], spec_encode_u64s(tail) + rest);
        assert(seq![blocks[0]] + tail =~= blocks);
    }
}

/// Parsing an encoded entry gives the entry back.
#[verifier::rlimit(80)]
#[verifier::spinoff_prover]
proof fn lemma_decode_entry_of_encode(key: Seq<char>, blocks: Seq<u64>, fill: u64, rest: Seq<u8>)
    requires
        encode_utf8(key).len() <= u64::MAX,
        blocks.len() <= u64::MAX,
    ensures
        spec_decode_entry(spec_encode_entry(key, blocks, fill) + rest) == Some(
            ((key, blocks, fill), rest),
        ),
{
    let kb = encode_utf8(key);
    let part2 = kb + spec_u64_to_le_bytes(blocks.len() as u64) + spec_encode_u64s(blocks)
        + spec_u64_to_le_bytes(fill) + rest;
    assert(spec_encode_entry(key, blocks, fill) + rest =~= spec_u64_to_le_bytes(kb.len() as u64)
        + part2);
    lemma_take_u64_of_encode(kb.len() as u64, part2);
    let part3 = spec_u64_to_le_bytes(blocks.len() as u64) + spec_encode_u64s(blocks)
        + spec_u64_to_le_bytes(fill) + rest;
    assert(part2.take(kb.len() as int) =~= kb);
    assert(part2.skip(kb.len() as int) =~= part3);
    encode_utf8_valid_utf8(key);
    encode_utf8_decode_utf8(key);
    let part4 = spec_encode_u64s(blocks) + (spec_u64_to_le_bytes(fill) + rest);
    assert(part3 =~= spec_u64_to_le_bytes(blocks.len() as u64) + part4);
    lemma_take_u64_of_encode(blocks.len() as u64, part4);
    lemma_decode_u64s_of_encode(blocks, spec_u64_to_le_bytes(fill) + rest);
    lemma_take_u64_of_encode(fill, rest);
}

/// Parsing encoded entries gives them all back.
proof fn lemma_decode_entries_of_encode(kv: Kv, i: int, rest: Seq<u8>)
    requires
        0 <= i <= kv.len(),
        kv.len() <= u64::MAX,
        forall|j: int|
            0 <= j < kv.len() ==> encode_utf8(#[trigger] kv.key_at(j)).len() <= u64::MAX
                && kv.blocks_at(j).len() <= u64::MAX,
    ensures
        spec_decode_entries(spec_encode_entries(kv, i) + rest, kv.len() - i) == Some(
            (kv_models(kv).skip(i), rest),
        ),
    decreases kv.len() - i,
{
    if i == kv.len() {
        assert(spec_encode_entries(kv, i) + rest =~= rest);
        assert(kv_models(kv).skip(i) =~= Seq::<(Seq<char>, Seq<u64>, u64)>::empty());
    } else {
        lemma_decode_entries_of_encode(kv, i + 1, rest);
        assert(spec_encode_entries(kv, i) + rest =~= spec_encode_entry(
            kv.key_at(i),
            kv.blocks_at(i),
            kv.fill_at(i),
        ) + (spec_encode_entries(kv, i + 1) + rest));
        lemma_decode_entry_of_encode(
            kv.key_at(i),
            kv.blocks_at(i),
            kv.fill_at(i),
            spec_encode_entries(kv, i + 1) + rest,
        );
        assert(seq![(kv.key_at(i), kv.blocks_at(i), kv.fill_at(i))] + kv_models(kv).skip(i + 1)
            =~= kv_models(kv).skip(i));
    }
}

/// The index, seen abstractly: one (key, blocks, fill) triple per entry.
pub open spec fn kv_models(kv: Kv) -> Seq<(Seq<char>, Seq<u64>, u64)> {
    Seq::new(kv.len() as nat, |i: int| (kv.key_at(i), kv.blocks_at(i), kv.fill_at(i)))
}

/// Decoding a snapshot someone encoded gives exactly the encoded state
/// back: the byte format loses nothing.
#[verifier::rlimit(80)]
#[verifier::spinoff_prover]
pub proof fn lemma_decode_of_encode(layout: Layout, kv: Kv)
    requires
        layout.bit_map@.len() <= u64::MAX,
        kv.len() <= u64::MAX,
        forall|j: int|
            0 <= j < kv.len() ==> encode_utf8(#[trigger] kv.key_at(j)).len() <= u64::MAX
                && kv.blocks_at(j).len() <= u64::MAX,
    ensures
        spec_decode(spec_encode(layout, kv)) matches Some(m) && model_matches(m, layout, kv),
{
    let b = spec_encode(layout, kv);
    let bm = layout.bit_map@;
    let p1 = spec_u64_to_le_bytes(layout.kv_block_size) + spec_u64_to_le_bytes(layout.threshold)
        + spec_u64_to_le_bytes(layout.reserved_pages) + spec_u64_to_le_bytes(bm.len() as u64) + bm
        + spec_u64_to_le_bytes(kv.len() as u64) + spec_encode_entries(kv, 0);
    assert(b =~= spec_u64_to_le_bytes(layout.stable_blocks_count) + p1);
    lemma_take_u64_of_encode(layout.stable_blocks_count, p1);
    let p2 = spec_u64_to_le_bytes(layout.threshold) + spec_u64_to_le_bytes(layout.reserved_pages)
        + spec_u64_to_le_bytes(bm.len() as u64) + bm + spec_u64_to_le_bytes(kv.len() as u64)
        + spec_encode_entries(kv, 0);
    assert(p1 =~= spec_u64_to_le_bytes(layout.kv_block_size) + p2);
    lemma_take_u64_of_encode(layout.kv_block_size, p2);
    let p3 = spec_u64_to_le_bytes(layout.reserved_pages) + spec_u64_to_le_bytes(bm.len() as u64)
        + bm + spec_u64_to_le_bytes(kv.len() as u64) + spec_encode_entries(kv, 0);
    assert(p2 =~= spec_u64_to_le_bytes(layout.threshold) + p3);
    lemma_take_u64_of_encode(layout.threshold, p3);
    let p4 = spec_u64_to_le_bytes(bm.len() as u64) + bm + spec_u64_to_le_bytes(kv.len() as u64)
        + spec_encode_entries(kv, 0);
    assert(p3 =~= spec_u64_to_le_bytes(layout.reserved_pages) + p4);
    lemma_take_u64_of_encode(layout.reserved_pages, p4);
    let p5 = bm + spec_u64_to_le_bytes(kv.len() as u64) + spec_encode_entries(kv, 0);
    assert(p4 =~= spec_u64_to_le_bytes(bm.len() as u64) + p5);
    lemma_take_u64_of_encode(bm.len() as u64, p5);
    let p6 = spec_u64_to_le_bytes(kv.len() as u64) + spec_encode_entries(kv, 0);
    assert(p5.take(bm.len() as int) =~= bm);
    assert(p5.skip(bm.len() as int) =~= p6);
    let p7 = spec_encode_entries(kv, 0) + Seq::<u8>::empty();
    assert(p6 =~= spec_u64_to_le_bytes(kv.len() as u64) + (spec_encode_entries(kv, 0)
        + Seq::<u8>::empty()));
    lemma_take_u64_of_encode(kv.len() as u64, p7);
    lemma_decode_entries_of_encode(kv, 0, Seq::<u8>::empty());
    assert(kv_models(kv).skip(0) =~= kv_models(kv));
    let m = spec_decode(b).unwrap();
    assert(m.entries == kv_models(kv));
    assert forall|i: int| 0 <= i < kv.len() implies kv.key_at(i) == (#[trigger] m.entries[i]).0
        && kv.blocks_at(i) == m.entries[i].1 && kv.fill_at(i) == m.entries[i].2 by {
        assert(kv_models(kv)[i] == (kv.key_at(i), kv.blocks_at(i), kv.fill_at(i)));
    }
}


/// Relies on core::str::from_utf8: accepts exactly the valid UTF-8
/// byte strings, giving back the characters they encode.
#[verifier::external_body]
pub(crate) fn bytes_to_str(v: &[u8]) -> (r: Option<&str>)
    ensures
        r is Some <==> valid_utf8(v@),
        r matches Some(s) ==> encode_utf8(s@) == v@,
{
    match core::str::from_utf8(v) {
        Ok(s) => Some(s),
        Err(_) => None,
    }
}

pub(crate) fn read_u64(bytes: &Vec<u8>, cursor: usize) -> (r: Option<(u64, usize)>)
    requires
        cursor <= bytes@.len(),
    ensures
        match r {
            Some((v, c2)) => {
                &&& c2 <= bytes@.len()
                &&& spec_take_u64(bytes@.skip(cursor as int)) == Some(
                    (v, bytes@.skip(c2 as int)),
                )
            },
            None => spec_take_u64(bytes@.skip(cursor as int)) is None,
        },
{
    let n = bytes.len();
    if n - cursor < 8 {
        return None;
    }
    let s = vstd::slice::slice_subrange(bytes.as_slice(), cursor, cursor + 8);
    let v = u64_from_le_bytes(s);
    proof {
        assert(bytes@.skip(cursor as int).take(8) =~= bytes@.subrange(
            cursor as int,
            cursor as int + 8,
        ));
        assert(bytes@.skip(cursor as int).skip(8) =~= bytes@.skip(cursor as int + 8));
    }
    Some((v, cursor + 8))
}

fn parse_u64s(bytes: &Vec<u8>, cursor: usize, n: u64) -> (r: Option<(Vec<u64>, usize)>)
    requires
        cursor <= bytes@.len(),
    ensures
        match r {
            Some((vs, c2)) => {
                &&& c2 <= bytes@.len()
                &&& spec_decode_u64s(bytes@.skip(cursor as int), n as int) == Some(
                    (vs@, bytes@.skip(c2 as int)),
                )
            },
            None => spec_decode_u64s(bytes@.skip(cursor as int), n as int) is None,
        },
    decreases n,
{
    if n == 0 {
        let vs: Vec<u64> = Vec::new();
        proof {
            assert(vs@ =~= Seq::<u64>::empty());
        }
        return Some((vs, cursor));
    }
    match read_u64(bytes, cursor) {
        None => None,
        Some((v, c1)) => match parse_u64s(bytes, c1, n - 1) {
            None => None,
            Some((vs, c2)) => {
                let mut vs2 = vs;
                vs2.insert(0, v);
                proof {
                    assert(vs2@ =~= seq![v] + vs2@.drop_first());
                }
                Some((vs2, c2))
            },
        },
    }
}

fn parse_entry(bytes: &Vec<u8>, cursor: usize) -> (r: Option<((String, (Vec<u64>, u64)), usize)>)
    requires
        cursor <= bytes@.len(),
    ensures
        match r {
            Some((e, c2)) => {
                &&& c2 <= bytes@.len()
                &&& spec_decode_entry(bytes@.skip(cursor as int)) == Some(
                    ((e.0@, e.1.0@, e.1.1), bytes@.skip(c2 as int)),
                )
            },
            None => spec_decode_entry(bytes@.skip(cursor as int)) is None,
        },
{
    let (klen, c1) = match read_u64(bytes, cursor) {
        None => {
            return None;
        },
        Some(x) => x,
    };
    if klen > (bytes.len() - c1) as u64 {
        return None;
    }
    let kend: usize = c1 + klen as usize;
    let kb = vstd::slice::slice_subrange(bytes.as_slice(), c1, kend);
    proof {
        assert(kb@ =~= bytes@.skip(c1 as int).take(klen as int));
        assert(bytes@.skip(c1 as int).skip(klen as int) =~= bytes@.skip(kend as int));
    }
    let key: String = match bytes_to_str(kb) {
        None => {
            return None;
        },
        Some(st) => st.to_owned(),
    };
    proof {
        encode_utf8_decode_utf8(key@);
    }
    let (blen, c2) = match read_u64(bytes, kend) {
        None => {
            return None;
        },
        Some(x) => x,
    };
    let (blocks, c3) = match parse_u64s(bytes, c2, blen) {
        None => {
            return None;
        },
        Some(x) => x,
    };
    let (fill, c4) = match read_u64(bytes, c3) {
        None => {
            return None;
        },
        Some(x) => x,
    };
    Some(((key, (blocks, fill)), c4))
}

/// The exec entry list, seen abstractly.
pub open spec fn entries_models(s: Seq<(String, (Vec<u64>, u64))>) -> Seq<
    (Seq<char>, Seq<u64>, u64),
> {
    Seq::new(s.len(), |i: int| (s[i].0@, s[i].1.0@, s[i].1.1))
}

fn parse_entries(bytes: &Vec<u8>, cursor: usize, n: u64) -> (r: Option<
    (Vec<(String, (Vec<u64>, u64))>, usize),
>)
    requires
        cursor <= bytes@.len(),
    ensures
        match r {
            Some((es, c2)) => {
                &&& c2 <= bytes@.len()
                &&& spec_decode_entries(bytes@.skip(cursor as int), n as int) == Some(
                    (entries_models(es@), bytes@.skip(c2 as int)),
                )
            },
            None => spec_decode_entries(bytes@.skip(cursor as int), n as int) is None,
        },
    decreases n,
{
    if n == 0 {
        let es: Vec<(String, (Vec<u64>, u64))> = Vec::new();
        proof {
            assert(entries_models(es@) =~= Seq::<(Seq<char>, Seq<u64>, u64)>::empty());
        }
        return Some((es, cursor));
    }
    match parse_entry(bytes, cursor) {
        None => None,
        Some((e, c1)) => match parse_entries(bytes, c1, n - 1) {
            None => None,
            Some((es, c2)) => {
                let ghost em = (e.0@, e.1.0@, e.1.1);
                let ghost tail_models = entries_models(es@);
                let mut es2 = es;
                es2.insert(0, e);
                proof {
                    assert(entries_models(es2@) =~= seq![em] + tail_models);
                }
                Some((es2, c2))
            },
        },
    }
}

/// Deserialize a snapshot; yields the pair of structures exactly when
/// the bytes parse whole, with no trailing garbage.
pub fn decode_state(bytes: &Vec<u8>) -> (r: Option<StableStruct>)
    ensures
        r is Some <==> spec_decode(bytes@) is Some,
        r matches Some(ss) ==> (spec_decode(bytes@) matches Some(m) && model_matches(
            m,
            ss.layout,
            ss.kv,
        )),
{
    proof {
        assert(bytes@.skip(0) =~= bytes@);
    }
    let (sbc, c1) = match read_u64(bytes, 0) {
        None => {
            return None;
        },
        Some(x) => x,
    };
    let (kbs, c2) = match read_u64(bytes, c1) {
        None => {
            return None;
        },
        Some(x) => x,
    };
    let (thr, c3) = match read_u64(bytes, c2) {
        None => {
            return None;
        },
        Some(x) => x,
    };
    let (rp, c4) = match read_u64(bytes, c3) {
        None => {
            return None;
        },
        Some(x) => x,
    };
    let (bitlen, c5) = match read_u64(bytes, c4) {
        None => {
            return None;
        },
        Some(x) => x,
    };
    if bitlen > (bytes.len() - c5) as u64 {
        return None;
    }
    let bend: usize = c5 + bitlen as usize;
    let bitmap_slice = vstd::slice::slice_subrange(bytes.as_slice(), c5, bend);
    let bit_map: Vec<u8> = vstd::slice::slice_to_vec(bitmap_slice);
    proof {
        assert(bit_map@ =~= bytes@.skip(c5 as int).take(bitlen as int));
        assert(bytes@.skip(c5 as int).skip(bitlen as int) =~= bytes@.skip(bend as int));
    }
    let (count, c6) = match read_u64(bytes, bend) {
        None => {
            return None;
        },
        Some(x) => x,
    };
    let (entries, c7) = match parse_entries(bytes, c6, count) {
        None => {
            return None;
        },
        Some(x) => x,
    };
    if c7 != bytes.len() {
        proof {
            assert(bytes@.skip(c7 as int).len() != 0);
        }
        return None;
    }
    proof {
        assert(bytes@.skip(c7 as int).len() == 0);
    }
    let layout = Layout {
        stable_blocks_count: sbc,
        bit_map,
        kv_block_size: kbs,
        threshold: thr,
        reserved_pages: rp,
    };
    let kv = Kv { kv_set: entries };
    proof {
        let m = spec_decode(bytes@).unwrap();
        assert forall|i: int| 0 <= i < kv.len() implies kv.key_at(i) == (
        #[trigger] m.entries[i]).0 && kv.blocks_at(i) == m.entries[i].1 && kv.fill_at(i)
            == m.entries[i].2 by {
            assert(entries_models(kv.kv_set@)[i] == (kv.key_at(i), kv.blocks_at(i), kv.fill_at(
                i,
            )));
        }
    }
    Some(StableStruct { layout, kv })
}


/// True when the snapshot's data could have come from a sound store
/// whose backing memory is `memory`: the allocator shape, the index
/// soundness, and the provisioned growth units all line up.
pub open spec fn snapshot_fits(m: SnapshotModel, memory: StableMemory) -> bool {
    &&& m.kv_block_size == KV_BLOCK_SIZE
    &&& m.threshold <= THRESHOLD
    &&& m.reserved_pages <= m.threshold as int / MAX_PAGE_BYTE as int
    &&& m.bit_map.len() == (m.threshold as int / MAX_PAGE_BYTE as int - m.reserved_pages) * ((
    MAX_PAGE_BYTE / KV_BLOCK_SIZE / 8) as int)
    &&& m.reserved_pages <= m.stable_blocks_count
    &&& m.stable_blocks_count <= m.threshold as int / MAX_PAGE_BYTE as int
    &&& forall|b: int|
        0 <= b < m.bit_map.len() * 8 && #[trigger] Layout::bit_at(m.bit_map, b)
            ==> m.reserved_pages * (MAX_PAGE_BYTE as int) + (b + 1) * (KV_BLOCK_SIZE as int)
            <= m.stable_blocks_count * (MAX_PAGE_BYTE as int)
    &&& forall|i: int, j: int|
        0 <= i < j < m.entries.len() ==> (#[trigger] m.entries[i]).0 != (
        #[trigger] m.entries[j]).0
    &&& forall|i: int|
        0 <= i < m.entries.len() ==> {
            &&& (#[trigger] m.entries[i]).1.len() >= 1
            &&& 1 <= m.entries[i].2 <= KV_BLOCK_SIZE
            &&& forall|bi: int|
                0 <= bi < m.entries[i].1.len() ==> (#[trigger] m.entries[i].1[bi]) < m.bit_map.len()
                    * 8 && Layout::bit_at(m.bit_map, m.entries[i].1[bi] as int)
        }
    &&& forall|i: int, j: int, bi: int, bj: int|
        #![trigger m.entries[i].1[bi], m.entries[j].1[bj]]
        0 <= i < m.entries.len() && 0 <= j < m.entries.len() && 0 <= bi < m.entries[i].1.len() && 0
            <= bj < m.entries[j].1.len() && (i != j || bi != bj) ==> m.entries[i].1[bi]
            != m.entries[j].1[bj]
    &&& memory.wf()
    &&& memory.spec_pages() == m.stable_blocks_count
    &&& memory.max_pages == m.threshold as int / MAX_PAGE_BYTE as int
}

/// A pair of structures carrying a snapshot's data is sound exactly
/// when the snapshot fits.
pub proof fn lemma_fits_iff_wf(m: SnapshotModel, layout: Layout, kv: Kv, memory: StableMemory)
    requires
        model_matches(m, layout, kv),
    ensures
        snapshot_fits(m, memory) <==> (layout.wf() && kv.wf(layout) && layout.mem_match(memory)),
{
    assert(layout.bit_map@ == m.bit_map);
    if snapshot_fits(m, memory) {
        assert forall|b: int| #[trigger] layout.allocated(b) implies layout.block_covered(b) by {
            assert(Layout::bit_at(m.bit_map, b));
        }
        assert(layout.wf());
        assert forall|i: int| 0 <= i < kv.len() implies kv.entry_wf(layout, i) by {
            assert(m.entries[i].0 == kv.key_at(i));
            assert(kv.blocks_at(i) == m.entries[i].1);
            assert forall|bi: int| 0 <= bi < kv.blocks_at(i).len() implies layout.allocated(
                #[trigger] kv.blocks_at(i)[bi] as int,
            ) by {
                assert(m.entries[i].1[bi] == kv.blocks_at(i)[bi]);
            }
        }
        assert forall|i: int, j: int| 0 <= i < j < kv.len() implies kv.key_at(i) != kv.key_at(
            j,
        ) by {
            assert(m.entries[i].0 != m.entries[j].0);
        }
        assert forall|i: int, j: int, bi: int, bj: int|
            0 <= i < kv.len() && 0 <= j < kv.len() && 0 <= bi < kv.blocks_at(i).len() && 0 <= bj
                < kv.blocks_at(j).len() && (i != j || bi != bj) implies #[trigger] kv.blocks_at(
            i,
        )[bi] != #[trigger] kv.blocks_at(j)[bj] by {
            assert(m.entries[i].1[bi] != m.entries[j].1[bj]);
        }
        assert(kv.wf(layout));
    }
    if layout.wf() && kv.wf(layout) && layout.mem_match(memory) {
        assert forall|b: int|
            0 <= b < m.bit_map.len() * 8 && #[trigger] Layout::bit_at(m.bit_map, b) implies m
            .reserved_pages * (MAX_PAGE_BYTE as int) + (b + 1) * (KV_BLOCK_SIZE as int)
            <= m.stable_blocks_count * (MAX_PAGE_BYTE as int) by {
            assert(layout.allocated(b));
            assert(layout.block_covered(b));
        }
        assert forall|i: int, j: int| 0 <= i < j < m.entries.len() implies (
        #[trigger] m.entries[i]).0 != (#[trigger] m.entries[j]).0 by {
            assert(kv.key_at(i) != kv.key_at(j));
        }
        assert forall|i: int| 0 <= i < m.entries.len() implies {
            &&& (#[trigger] m.entries[i]).1.len() >= 1
            &&& 1 <= m.entries[i].2 <= KV_BLOCK_SIZE
            &&& forall|bi: int|
                0 <= bi < m.entries[i].1.len() ==> (#[trigger] m.entries[i].1[bi]) < m.bit_map.len()
                    * 8 && Layout::bit_at(m.bit_map, m.entries[i].1[bi] as int)
        } by {
            assert(kv.entry_wf(layout, i));
            assert forall|bi: int|
                0 <= bi < m.entries[i].1.len() implies (#[trigger] m.entries[i].1[bi])
                < m.bit_map.len() * 8 && Layout::bit_at(m.bit_map, m.entries[i].1[bi] as int) by {
                assert(layout.allocated(kv.blocks_at(i)[bi] as int));
                assert(m.entries[i].1[bi] == kv.blocks_at(i)[bi]);
            }
        }
        assert forall|i: int, j: int, bi: int, bj: int|
            #![trigger m.entries[i].1[bi], m.entries[j].1[bj]]
            0 <= i < m.entries.len() && 0 <= j < m.entries.len() && 0 <= bi < m.entries[i].1.len()
                && 0 <= bj < m.entries[j].1.len() && (i != j || bi != bj) implies m.entries[i].1[bi]
            != m.entries[j].1[bj] by {
            assert(kv.blocks_at(i)[bi] != kv.blocks_at(j)[bj]);
        }
        assert(snapshot_fits(m, memory));
    }
}

/// Decide well-formedness of a parsed allocator state.
pub fn layout_wf_check(layout: &Layout) -> (r: bool)
    ensures
        r == layout.wf(),
{
    if layout.kv_block_size != KV_BLOCK_SIZE {
        return false;
    }
    if layout.threshold > THRESHOLD {
        return false;
    }
    let tp: u64 = layout.threshold / MAX_PAGE_BYTE;
    proof {
        assert(tp <= 131072) by {
            vstd::arithmetic::div_mod::lemma_div_is_ordered(
                layout.threshold as int,
                THRESHOLD as int,
                MAX_PAGE_BYTE as int,
            );
            assert(THRESHOLD / MAX_PAGE_BYTE == 131072);
        }
    }
    if layout.reserved_pages > tp {
        return false;
    }
    let per: u64 = MAX_PAGE_BYTE / KV_BLOCK_SIZE / 8;
    proof {
        assert(per == 16);
    }
    if (layout.bit_map.len() as u64) != (tp - layout.reserved_pages) * per {
        return false;
    }
    if layout.stable_blocks_count < layout.reserved_pages || layout.stable_blocks_count > tp {
        return false;
    }
    let total_bits: u64 = (layout.bit_map.len() as u64) * 8;
    let limit: u64 = layout.stable_blocks_count * MAX_PAGE_BYTE;
    let rs: u64 = layout.reserved_pages * MAX_PAGE_BYTE;
    let mut b: u64 = 0;
    while b < total_bits
        invariant
            b <= total_bits,
            total_bits == layout.bit_map@.len() * 8,
            layout.kv_block_size == KV_BLOCK_SIZE,
            layout.threshold <= THRESHOLD,
            layout.reserved_pages <= layout.stable_blocks_count <= tp,
            tp == layout.total_pages(),
            tp <= 131072,
            layout.bit_map@.len() == (layout.total_pages() - layout.reserved_pages) * ((
            MAX_PAGE_BYTE / KV_BLOCK_SIZE / 8) as int),
            limit == layout.stable_blocks_count * MAX_PAGE_BYTE,
            rs == layout.reserved_space(),
            forall|j: int| 0 <= j < b && #[trigger] layout.allocated(j) ==> layout.block_covered(j),
        decreases total_bits - b,
    {
        if layout.get_bit(b) {
            if rs + (b + 1) * KV_BLOCK_SIZE > limit {
                proof {
                    assert(layout.allocated(b as int));
                    assert(!layout.block_covered(b as int));
                }
                return false;
            }
        }
        b = b + 1;
    }
    proof {
        assert forall|j: int| #[trigger] layout.allocated(j) implies layout.block_covered(j) by {
            assert(0 <= j < total_bits);
        }
    }
    true
}

/// Decide well-formedness of a parsed index against a sound allocator.
pub fn kv_wf_check(kv: &Kv, layout: &Layout) -> (r: bool)
    requires
        layout.wf(),
    ensures
        r == kv.wf(*layout),
{
    proof {
        layout.lemma_wf_bounds();
    }
    let n: usize = kv.kv_set.len();
    let total_bits: u64 = (layout.bit_map.len() as u64) * 8;
    // distinct keys
    let mut i: usize = 0;
    while i < n
        invariant
            i <= n,
            n == kv.len(),
            forall|x: int, y: int| 0 <= x < y < i ==> kv.key_at(x) != kv.key_at(y),
        decreases n - i,
    {
        let mut j: usize = 0;
        while j < i
            invariant
                j <= i < n,
                n == kv.len(),
                forall|x: int| 0 <= x < j ==> kv.key_at(x) != kv.key_at(i as int),
            decreases i - j,
        {
            if kv.kv_set[j].0 == kv.kv_set[i].0 {
                proof {
                    assert(kv.key_at(j as int) == kv.key_at(i as int));
                    assert(!kv.wf_keys());
                }
                return false;
            }
            j = j + 1;
        }
        i = i + 1;
    }
    // sound entries
    let mut i: usize = 0;
    while i < n
        invariant
            i <= n,
            n == kv.len(),
            total_bits == layout.bit_map@.len() * 8,
            forall|x: int| 0 <= x < i ==> kv.entry_wf(*layout, x),
        decreases n - i,
    {
        if kv.kv_set[i].1.0.len() == 0 {
            proof {
                assert(!kv.entry_wf(*layout, i as int));
            }
            return false;
        }
        let f: u64 = kv.kv_set[i].1.1;
        if f < 1 || f > KV_BLOCK_SIZE {
            proof {
                assert(!kv.entry_wf(*layout, i as int));
            }
            return false;
        }
        let blocks: &Vec<u64> = &kv.kv_set[i].1.0;
        let mut bi: usize = 0;
        while bi < blocks.len()
            invariant
                bi <= blocks@.len(),
                blocks@ == kv.blocks_at(i as int),
                i < n,
                n == kv.len(),
                total_bits == layout.bit_map@.len() * 8,
                forall|x: int|
                    0 <= x < bi ==> layout.allocated(#[trigger] kv.blocks_at(i as int)[x] as int),
            decreases blocks@.len() - bi,
        {
            let bb: u64 = blocks[bi];
            if bb >= total_bits {
                proof {
                    assert(!layout.allocated(kv.blocks_at(i as int)[bi as int] as int));
                    assert(!kv.entry_wf(*layout, i as int));
                }
                return false;
            }
            if !layout.get_bit(bb) {
                proof {
                    assert(!layout.allocated(kv.blocks_at(i as int)[bi as int] as int));
                    assert(!kv.entry_wf(*layout, i as int));
                }
                return false;
            }
            bi = bi + 1;
        }
        i = i + 1;
    }
    // no block referenced twice
    let mut i1: usize = 0;
    while i1 < n
        invariant
            i1 <= n,
            n == kv.len(),
            forall|x1: int, y1: int, x2: int, y2: int|
                #![trigger kv.blocks_at(x1)[y1], kv.blocks_at(x2)[y2]]
                0 <= x1 < i1 && 0 <= x2 < n && 0 <= y1 < kv.blocks_at(x1).len() && 0 <= y2
                    < kv.blocks_at(x2).len() && (x1 != x2 || y1 != y2) ==> kv.blocks_at(x1)[y1]
                    != kv.blocks_at(x2)[y2],
        decreases n - i1,
    {
        let len1: usize = kv.kv_set[i1].1.0.len();
        let mut b1: usize = 0;
        while b1 < len1
            invariant
                b1 <= len1,
                i1 < n,
                n == kv.len(),
                len1 == kv.blocks_at(i1 as int).len(),
                forall|x1: int, y1: int, x2: int, y2: int|
                    #![trigger kv.blocks_at(x1)[y1], kv.blocks_at(x2)[y2]]
                    0 <= x1 < i1 && 0 <= x2 < n && 0 <= y1 < kv.blocks_at(x1).len() && 0 <= y2
                        < kv.blocks_at(x2).len() && (x1 != x2 || y1 != y2) ==> kv.blocks_at(
                        x1,
                    )[y1] != kv.blocks_at(x2)[y2],
                forall|y1: int, x2: int, y2: int|
                    #![trigger kv.blocks_at(i1 as int)[y1], kv.blocks_at(x2)[y2]]
                    0 <= y1 < b1 && 0 <= x2 < n && 0 <= y2 < kv.blocks_at(x2).len() && (
                    i1 as int != x2 || y1 != y2) ==> kv.blocks_at(i1 as int)[y1] != kv.blocks_at(
                        x2,
                    )[y2],
            decreases len1 - b1,
        {
            let v1: u64 = kv.kv_set[i1].1.0[b1];
            let mut i2: usize = 0;
            while i2 < n
                invariant
                    i2 <= n,
                    i1 < n,
                    b1 < len1,
                    n == kv.len(),
                    len1 == kv.blocks_at(i1 as int).len(),
                    v1 == kv.blocks_at(i1 as int)[b1 as int],
                    forall|x2: int, y2: int|
                        #![trigger kv.blocks_at(x2)[y2]]
                        0 <= x2 < i2 && 0 <= y2 < kv.blocks_at(x2).len() && (i1 as int != x2
                            || b1 as int != y2) ==> kv.blocks_at(i1 as int)[b1 as int]
                            != kv.blocks_at(x2)[y2],
                decreases n - i2,
            {
                let len2: usize = kv.kv_set[i2].1.0.len();
                let mut b2: usize = 0;
                while b2 < len2
                    invariant
                        b2 <= len2,
                        i2 < n,
                        i1 < n,
                        b1 < len1,
                        n == kv.len(),
                        len1 == kv.blocks_at(i1 as int).len(),
                        len2 == kv.blocks_at(i2 as int).len(),
                        v1 == kv.blocks_at(i1 as int)[b1 as int],
                        forall|y2: int|
                            0 <= y2 < b2 && (i1 as int != i2 as int || b1 as int != y2)
                                ==> kv.blocks_at(i1 as int)[b1 as int] != kv.blocks_at(
                                i2 as int,
                            )[y2],
                    decreases len2 - b2,
                {
                    if (i1 != i2 || b1 != b2) && v1 == kv.kv_set[i2].1.0[b2] {
                        proof {
                            assert(kv.blocks_at(i1 as int)[b1 as int] == kv.blocks_at(
                                i2 as int,
                            )[b2 as int]);
                            assert(!kv.wf(*layout));
                        }
                        return false;
                    }
                    b2 = b2 + 1;
                }
                i2 = i2 + 1;
            }
            b1 = b1 + 1;
        }
        i1 = i1 + 1;
    }
    true
}


/// The snapshot length the header records.
pub open spec fn spec_header_len(mem: Seq<u8>) -> int
    recommends
        mem.len() >= 8,
{
    spec_u64_from_le_bytes(mem.take(8)) as int
}

/// The snapshot bytes the header points at.
pub open spec fn spec_header_payload(mem: Seq<u8>) -> Seq<u8>
    recommends
        mem.len() >= 8,
{
    mem.subrange(8, 8 + spec_header_len(mem))
}

/// True when the memory's header region holds a snapshot a restore
/// accepts: a length that fits, bytes that parse, and parsed data that
/// fits this memory.
pub open spec fn spec_restore_ok(mem: Seq<u8>, memory: StableMemory) -> bool {
    &&& mem.len() >= 8
    &&& 8 + spec_header_len(mem) <= mem.len()
    &&& match spec_decode(spec_header_payload(mem)) {
        Some(m) => snapshot_fits(m, memory),
        None => false,
    }
}

/// Writes below the reserved header region change no key's bytes.
proof fn lemma_contents_header_agree(kv: Kv, layout: Layout, m_a: Seq<u8>, m_b: Seq<u8>)
    requires
        kv.wf(layout),
        layout.wf(),
        layout.mem_match_len(m_a),
        m_b.len() == m_a.len(),
        forall|oo: int|
            #![trigger m_b[oo]]
            layout.reserved_space() <= oo < m_a.len() ==> m_b[oo] == m_a[oo],
    ensures
        kv_contents(kv, layout, m_b) == kv_contents(kv, layout, m_a),
{
    let rs = layout.reserved_space();
    let ca = kv_contents(kv, layout, m_a);
    let cb = kv_contents(kv, layout, m_b);
    assert forall|k: Seq<char>| #[trigger] cb.dom().contains(k) implies ca.dom().contains(k)
        && cb[k] == ca[k] by {
        let j = kv.index_of(k);
        kv.lemma_index_of(j);
        assert(kv.entry_wf(layout, j));
        let blocks = kv.blocks_at(j);
        assert forall|bi: int|
            0 <= bi < blocks.len() implies crate::kv::block_start(
            rs,
            #[trigger] blocks[bi] as int,
        ) + (KV_BLOCK_SIZE as int) <= m_b.len() && crate::kv::block_start(rs, blocks[bi] as int)
            + (KV_BLOCK_SIZE as int) <= m_a.len() by {
            assert(layout.allocated(blocks[bi] as int));
            assert(layout.block_covered(blocks[bi] as int));
        }
        assert forall|bi: int, o: int|
            #![trigger m_b[crate::kv::block_start(rs, blocks[bi] as int) + o]]
            0 <= bi < blocks.len() && 0 <= o < (KV_BLOCK_SIZE as int) && (bi < blocks.len() - 1
                || o < kv.fill_at(j)) implies m_b[crate::kv::block_start(rs, blocks[bi] as int)
            + o] == m_a[crate::kv::block_start(rs, blocks[bi] as int) + o] by {
            assert(layout.allocated(blocks[bi] as int));
            assert(layout.block_covered(blocks[bi] as int));
            assert(rs <= crate::kv::block_start(rs, blocks[bi] as int) + o);
        }
        crate::kv::lemma_entry_bytes_agree(m_b, m_a, rs, blocks, kv.fill_at(j) as int);
    }
    assert(cb =~= ca);
}

/// Serialize the allocator and index and write them to the reserved
/// header region: an 8-byte length at offset 0, the snapshot at offset
/// 8. The caller must have checked the snapshot fits the region.
pub fn pre_upgrade(store: &mut Store)
    requires
        old(store).wf(),
        8 + spec_encode(old(store).layout, old(store).kv).len() < old(
            store,
        ).layout.reserved_space(),
    ensures
        final(store).wf(),
        final(store).kv == old(store).kv,
        final(store).layout == old(store).layout,
        final(store).contents() == old(store).contents(),
        final(store).memory@.len() == old(store).memory@.len(),
        final(store).memory.max_pages == old(store).memory.max_pages,
        final(store).memory.spec_pages() == old(store).memory.spec_pages(),
        final(store).memory@.subrange(0, 8) == spec_u64_to_le_bytes(
            spec_encode(old(store).layout, old(store).kv).len() as u64,
        ),
        final(store).memory@.subrange(
            8,
            8 + spec_encode(old(store).layout, old(store).kv).len() as int,
        ) == spec_encode(old(store).layout, old(store).kv),
        forall|j: int|
            old(store).layout.reserved_space() <= j < old(store).memory@.len()
                ==> final(store).memory@[j] == old(store).memory@[j],
    {
        let ghost enc = spec_encode(old(store).layout, old(store).kv);
        let bytes = encode_state(&store.layout, &store.kv);
        let blen: u64 = bytes.len() as u64;
        proof {
            store.layout.lemma_wf_bounds();
            vstd::arithmetic::mul::lemma_mul_inequality(
                store.layout.reserved_pages as int,
                store.layout.stable_blocks_count as int,
                MAX_PAGE_BYTE as int,
            );
            assert(store.layout.reserved_space() <= store.memory@.len());
        }
        let len_bytes = u64_to_le_bytes(blen);
        crate::stable::storage_data(&mut store.memory, 0, len_bytes);
        crate::stable::storage_data(&mut store.memory, 8, bytes);
        proof {
            assert_seqs_equal!(
                store.memory@.subrange(0, 8) == spec_u64_to_le_bytes(enc.len() as u64)
            );
            assert_seqs_equal!(
                store.memory@.subrange(8, 8 + enc.len() as int) == enc,
                o => {
                    assert(store.memory@[8 + o] == enc[o]);
                }
            );
            lemma_contents_header_agree(
                store.kv,
                store.layout,
                old(store).memory@,
                store.memory@,
            );
        }
    }

/// Read the header region, deserialize the snapshot it holds, and
/// replace allocator and index wholesale. Fails with no state change
/// when the header holds no acceptable snapshot; there is no partial
/// or degraded continuation.
pub fn post_upgrade(store: &mut Store) -> (r: Result<(), KvError>)
    requires
        old(store).wf(),
    ensures
        final(store).wf(),
        final(store).memory == old(store).memory,
        r is Err ==> *final(store) == *old(store),
        r matches Err(e) ==> e matches KvError::Other(s) && s@ == "deserialization failure"@,
        r is Ok <==> spec_restore_ok(old(store).memory@, old(store).memory),
        r is Ok ==> (spec_decode(spec_header_payload(old(store).memory@)) matches Some(m)
            && model_matches(m, final(store).layout, final(store).kv)),
    {
        let pages: u64 = store.memory.size();
        let total: u64 = pages * MAX_PAGE_BYTE;
        if total < 8 {
            return Err(KvError::Other("deserialization failure".to_owned()));
        }
        let len_bytes = store.memory.read(0, 8);
        let blen: u64 = u64_from_le_bytes(len_bytes.as_slice());
        proof {
            assert(len_bytes@ =~= store.memory@.take(8));
        }
        if blen > total - 8 {
            return Err(KvError::Other("deserialization failure".to_owned()));
        }
        let payload = store.memory.read(8, blen);
        proof {
            assert(payload@ =~= spec_header_payload(store.memory@));
        }
        let ss = match decode_state(&payload) {
            None => {
                return Err(KvError::Other("deserialization failure".to_owned()));
            },
            Some(ss) => ss,
        };
        let ghost m = spec_decode(payload@).unwrap();
        if !layout_wf_check(&ss.layout) {
            proof {
                lemma_fits_iff_wf(m, ss.layout, ss.kv, store.memory);
            }
            return Err(KvError::Other("deserialization failure".to_owned()));
        }
        if !kv_wf_check(&ss.kv, &ss.layout) {
            proof {
                lemma_fits_iff_wf(m, ss.layout, ss.kv, store.memory);
            }
            return Err(KvError::Other("deserialization failure".to_owned()));
        }
        if ss.layout.stable_blocks_count != pages {
            proof {
                lemma_fits_iff_wf(m, ss.layout, ss.kv, store.memory);
            }
            return Err(KvError::Other("deserialization failure".to_owned()));
        }
        if ss.layout.threshold / MAX_PAGE_BYTE != store.memory.max_pages {
            proof {
                lemma_fits_iff_wf(m, ss.layout, ss.kv, store.memory);
            }
            return Err(KvError::Other("deserialization failure".to_owned()));
        }
        proof {
            lemma_fits_iff_wf(m, ss.layout, ss.kv, store.memory);
        }
        store.layout = ss.layout;
        store.kv = ss.kv;
        Ok(())
    }

/// Snapshot, then restore, is faithful: the memory a snapshot leaves
/// behind is accepted by a restore, and what the restore decodes is the
/// saved allocator and index, datum for datum. Stated for states whose
/// sizes fit the format's length prefixes, as every reachable state's
/// do.
pub proof fn lemma_snapshot_restore_fidelity(s1: Store, s2: Store)
    requires
        s1.wf(),
        s1.kv.len() <= u64::MAX,
        forall|j: int|
            0 <= j < s1.kv.len() ==> encode_utf8(#[trigger] s1.kv.key_at(j)).len() <= u64::MAX
                && s1.kv.blocks_at(j).len() <= u64::MAX,
        8 + spec_encode(s1.layout, s1.kv).len() < s1.layout.reserved_space(),
        s2.kv == s1.kv,
        s2.layout == s1.layout,
        s2.memory.wf(),
        s2.memory.spec_pages() == s1.memory.spec_pages(),
        s2.memory.max_pages == s1.memory.max_pages,
        s2.memory@.len() == s1.memory@.len(),
        s2.memory@.subrange(0, 8) == spec_u64_to_le_bytes(
            spec_encode(s1.layout, s1.kv).len() as u64,
        ),
        s2.memory@.subrange(8, 8 + spec_encode(s1.layout, s1.kv).len() as int) == spec_encode(
            s1.layout,
            s1.kv,
        ),
    ensures
        spec_restore_ok(s2.memory@, s2.memory),
        spec_decode(spec_header_payload(s2.memory@)) matches Some(m) && model_matches(
            m,
            s1.layout,
            s1.kv,
        ),
{
    let enc = spec_encode(s1.layout, s1.kv);
    let mem = s2.memory@;
    s1.layout.lemma_wf_bounds();
    vstd::arithmetic::mul::lemma_mul_inequality(
        s1.layout.reserved_pages as int,
        s1.layout.stable_blocks_count as int,
        MAX_PAGE_BYTE as int,
    );
    assert(s1.layout.reserved_space() <= s1.memory@.len());
    lemma_auto_spec_u64_to_from_le_bytes();
    assert(mem.take(8) =~= mem.subrange(0, 8));
    assert(spec_header_len(mem) == enc.len());
    assert(spec_header_payload(mem) == enc);
    lemma_decode_of_encode(s1.layout, s1.kv);
    let m = spec_decode(enc).unwrap();
    lemma_fits_iff_wf(m, s1.layout, s1.kv, s2.memory);
    assert(s1.layout.mem_match(s2.memory));
    assert(snapshot_fits(m, s2.memory));
}


/// Two sound stores that share allocator and index and whose memories
/// differ only inside the reserved header region hold the same
/// contents: a snapshot write changes what no key reads.
pub proof fn lemma_header_writes_preserve_contents(s1: Store, s2: Store)
    requires
        s1.wf(),
        s2.kv == s1.kv,
        s2.layout == s1.layout,
        s2.memory@.len() == s1.memory@.len(),
        forall|j: int|
            #![trigger s2.memory@[j]]
            s1.layout.reserved_space() <= j < s1.memory@.len() ==> s2.memory@[j] == s1.memory@[j],
    ensures
        s2.contents() == s1.contents(),
{
    lemma_contents_header_agree(s1.kv, s1.layout, s1.memory@, s2.memory@);
}

/// A snapshot's data determines what is read back: two pairs of
/// structures carrying the same snapshot with distinct keys hold the
/// same keys and the same bytes over any one memory.
pub proof fn lemma_model_determines_contents(
    m: SnapshotModel,
    l1: Layout,
    k1: Kv,
    l2: Layout,
    k2: Kv,
    mem: Seq<u8>,
)
    requires
        model_matches(m, l1, k1),
        model_matches(m, l2, k2),
        forall|i: int, j: int|
            0 <= i < j < m.entries.len() ==> (#[trigger] m.entries[i]).0 != (
            #[trigger] m.entries[j]).0,
    ensures
        kv_contents(k2, l2, mem) == kv_contents(k1, l1, mem),
{
    let c1 = kv_contents(k1, l1, mem);
    let c2 = kv_contents(k2, l2, mem);
    assert forall|i: int, j: int| 0 <= i < j < k1.len() implies k1.key_at(i) != k1.key_at(j) by {
        assert(m.entries[i].0 != m.entries[j].0);
    }
    assert forall|i: int, j: int| 0 <= i < j < k2.len() implies k2.key_at(i) != k2.key_at(j) by {
        assert(m.entries[i].0 != m.entries[j].0);
    }
    assert forall|k: Seq<char>| #[trigger] c2.dom().contains(k) implies c1.dom().contains(k)
        && c2[k] == c1[k] by {
        let j2 = k2.index_of(k);
        assert(0 <= j2 < k2.len() && k2.key_at(j2) == k);
        assert(m.entries[j2].0 == k);
        assert(k1.key_at(j2) == k);
        assert(k1.has_key(k));
        let j1 = k1.index_of(k);
        assert(0 <= j1 < k1.len() && k1.key_at(j1) == k);
        if j1 != j2 {
            if j1 < j2 {
                assert(m.entries[j1].0 != m.entries[j2].0);
            } else {
                assert(m.entries[j2].0 != m.entries[j1].0);
            }
        }
        assert(k2.blocks_of(k) == m.entries[j2].1 && k1.blocks_of(k) == m.entries[j2].1);
        assert(k2.fill_of(k) == m.entries[j2].2 && k1.fill_of(k) == m.entries[j2].2);
        assert(l1.reserved_space() == l2.reserved_space());
    }
    assert forall|k: Seq<char>| #[trigger] c1.dom().contains(k) implies c2.dom().contains(k) by {
        let j1 = k1.index_of(k);
        assert(0 <= j1 < k1.len() && k1.key_at(j1) == k);
        assert(m.entries[j1].0 == k);
        assert(k2.key_at(j1) == k);
        assert(k2.has_key(k));
    }
    assert(c2 =~= c1);
}


/// Snapshot, then restore, rebuilds the saved state bit for bit: for a
/// sound store, the memory its snapshot leaves behind, and the state a
/// successful restore of that memory decodes, the restored allocator
/// and index equal the saved ones datum for datum, and every key reads
/// back the same bytes as before the boundary. Stated for states whose
/// sizes fit the format's length prefixes, as every reachable state's
/// do.
pub proof fn lemma_restore_rebuilds_state(s1: Store, s2: Store, s3: Store)
    requires
        s1.wf(),
        s1.kv.len() <= u64::MAX,
        forall|j: int|
            0 <= j < s1.kv.len() ==> encode_utf8(#[trigger] s1.kv.key_at(j)).len() <= u64::MAX
                && s1.kv.blocks_at(j).len() <= u64::MAX,
        8 + spec_encode(s1.layout, s1.kv).len() < s1.layout.reserved_space(),
        // `s2` is the store as `pre_upgrade` leaves it
        s2.kv == s1.kv,
        s2.layout == s1.layout,
        s2.memory.wf(),
        s2.memory.spec_pages() == s1.memory.spec_pages(),
        s2.memory.max_pages == s1.memory.max_pages,
        s2.memory@.len() == s1.memory@.len(),
        s2.memory@.subrange(0, 8) == spec_u64_to_le_bytes(
            spec_encode(s1.layout, s1.kv).len() as u64,
        ),
        s2.memory@.subrange(8, 8 + spec_encode(s1.layout, s1.kv).len() as int) == spec_encode(
            s1.layout,
            s1.kv,
        ),
        forall|j: int|
            #![trigger s2.memory@[j]]
            s1.layout.reserved_space() <= j < s1.memory@.len() ==> s2.memory@[j] == s1.memory@[j],
        // `s3` is the store a successful `post_upgrade` of `s2` leaves
        s3.memory == s2.memory,
        spec_decode(spec_header_payload(s2.memory@)) matches Some(m) && model_matches(
            m,
            s3.layout,
            s3.kv,
        ),
    ensures
        spec_restore_ok(s2.memory@, s2.memory),
        s3.layout.bit_map@ == s1.layout.bit_map@,
        s3.layout.stable_blocks_count == s1.layout.stable_blocks_count,
        s3.layout.kv_block_size == s1.layout.kv_block_size,
        s3.layout.threshold == s1.layout.threshold,
        s3.layout.reserved_pages == s1.layout.reserved_pages,
        s3.kv.len() == s1.kv.len(),
        forall|i: int|
            0 <= i < s1.kv.len() ==> #[trigger] s3.kv.key_at(i) == s1.kv.key_at(i)
                && s3.kv.blocks_at(i) == s1.kv.blocks_at(i) && s3.kv.fill_at(i) == s1.kv.fill_at(
                i,
            ),
        s3.contents() == s1.contents(),
{
    lemma_snapshot_restore_fidelity(s1, s2);
    let m = spec_decode(spec_header_payload(s2.memory@)).unwrap();
    assert(model_matches(m, s1.layout, s1.kv));
    assert forall|i: int, j: int| 0 <= i < j < m.entries.len() implies (
    #[trigger] m.entries[i]).0 != (#[trigger] m.entries[j]).0 by {
        assert(s1.kv.key_at(i) != s1.kv.key_at(j));
    }
    lemma_model_determines_contents(m, s1.layout, s1.kv, s3.layout, s3.kv, s2.memory@);
    assert forall|i: int|
        0 <= i < s1.kv.len() implies #[trigger] s3.kv.key_at(i) == s1.kv.key_at(i)
        && s3.kv.blocks_at(i) == s1.kv.blocks_at(i) && s3.kv.fill_at(i) == s1.kv.fill_at(i) by {
        assert(s1.kv.key_at(i) == m.entries[i].0 && s1.kv.blocks_at(i) == m.entries[i].1
            && s1.kv.fill_at(i) == m.entries[i].2);
        assert(s3.kv.key_at(i) == m.entries[i].0 && s3.kv.blocks_at(i) == m.entries[i].1
            && s3.kv.fill_at(i) == m.entries[i].2);
    }
    let staged = Store { kv: s1.kv, layout: s1.layout, memory: s2.memory };
    lemma_header_writes_preserve_contents(s1, staged);
    assert(s3.contents() == kv_contents(s3.kv, s3.layout, s2.memory@));
    assert(kv_contents(s1.kv, s1.layout, s2.memory@) == s1.contents());
}

} // verus!
