//! Laws of the chunk format: which bytes stand where in a chunk file, which
//! bits a bloom filter has, and which keys the key index samples.

use crate::chunk::{
    bloom_admits, bloom_bit, body_bytes, chunk_file, entry_bytes, entry_key, entry_keys,
    entry_payload, footer_bytes, header_bytes, is_chunk_footer, key_index_bytes, key_samples,
    lemma_meta_then, meta_then, ChunkEntryView, ChunkFooterView, ChunkHeaderView, ChunkWriterView,
};
use crate::outside::{crc32, row_bytes, xxh3};
use vstd::bytes::*;
use vstd::prelude::*;
use vstd::utf8::*;

verus! {

/// Bytes of a pair of a metadata list: each part behind its length.
pub open spec fn pair_bytes(p: (Seq<char>, Seq<char>)) -> Seq<u8> {
    seq![encode_utf8(p.0).len() as u8] + encode_utf8(p.0) + seq![encode_utf8(p.1).len() as u8]
        + encode_utf8(p.1)
}

/// Metadata is stored pair by pair.
pub proof fn law_metadata_is_stored_pair_by_pair(
    meta: Seq<(Seq<char>, Seq<char>)>,
    p: (Seq<char>, Seq<char>),
)
    ensures
        meta_then(Seq::empty(), Seq::empty()).len() == 0,
        meta_then(meta.push(p), Seq::empty()) == meta_then(meta, Seq::empty()) + pair_bytes(p),
    decreases meta.len(),
{
    let all = meta.push(p);
    let nil = Seq::<u8>::empty();
    if meta.len() == 0 {
        assert(all.drop_first() =~= Seq::empty());
        assert(meta_then(all.drop_first(), nil) == nil);
        assert(meta_then(all, nil) =~= pair_bytes(p));
        assert(meta_then(meta, nil) + pair_bytes(p) =~= pair_bytes(p));
    } else {
        let rest = meta.drop_first();
        law_metadata_is_stored_pair_by_pair(rest, p);
        assert(all.drop_first() =~= rest.push(p));
        assert(all[0] == meta[0]);
        assert(meta_then(all, nil) =~= meta_then(meta, nil) + pair_bytes(p));
    }
}

/// An entry is stored field by field: the key `space \\0 table \\0 id` behind its
/// length, the value behind its length, content type, metadata, schema version,
/// transaction, version, log sequence, a flag byte that is 1 for a delete, and
/// the checksum of all before it. All numbers are little-endian.
pub proof fn law_entry_is_stored_field_by_field(e: ChunkEntryView)
    ensures
        ({
            let key = encode_utf8(e.space) + seq![0u8] + encode_utf8(e.table) + seq![0u8]
                + encode_utf8(e.record_id);
            let ct = if e.content_type is Some {
                encode_utf8(e.content_type->0)
            } else {
                encode_utf8(Seq::empty())
            };
            let txn = encode_utf8(e.txn_id);
            let front = spec_u16_to_le_bytes(key.len() as u16) + key + spec_u32_to_le_bytes(
                e.value.len() as u32,
            ) + e.value + seq![ct.len() as u8] + ct + seq![e.user_meta.len() as u8];
            let back = spec_u32_to_le_bytes(e.schema_version) + seq![txn.len() as u8] + txn
                + spec_u64_to_le_bytes(e.commit_version) + spec_u64_to_le_bytes(e.wal_seq)
                + seq![
                if e.deleted {
                    1u8
                } else {
                    0u8
                },
            ];
            let all = front + meta_then(e.user_meta, Seq::empty()) + back;
            entry_bytes(e) == all + spec_u32_to_le_bytes(crc32(all))
        }),
{
    let nil = Seq::<u8>::empty();
    let end = crate::chunk::entry_end_then(e, nil);
    lemma_meta_then(e.user_meta, nil, end);
    assert(nil + end =~= end);
    let key = entry_key(e);
    let ct = encode_utf8(crate::chunk::stored_content_type(e));
    lemma_entry_back(e);
    let m = meta_then(e.user_meta, end);
    let f0 = spec_u16_to_le_bytes(key.len() as u16);
    let f1 = key;
    let f2 = spec_u32_to_le_bytes(e.value.len() as u32);
    let f3 = e.value;
    let f4 = seq![ct.len() as u8];
    let f5 = ct;
    let f6 = seq![e.user_meta.len() as u8];
    let r6 = f6 + m;
    let r5 = f5 + r6;
    let r4 = f4 + r5;
    let r3 = f3 + r4;
    let r2 = f2 + r3;
    let r1 = f1 + r2;
    let a0 = f0;
    let a1 = a0 + f1;
    let a2 = a1 + f2;
    let a3 = a2 + f3;
    let a4 = a3 + f4;
    let a5 = a4 + f5;
    let a6 = a5 + f6;
    lemma_regroup(a0, f1, r2);
    lemma_regroup(a1, f2, r3);
    lemma_regroup(a2, f3, r4);
    lemma_regroup(a3, f4, r5);
    lemma_regroup(a4, f5, r6);
    lemma_regroup(a5, f6, m);
    assert(entry_payload(e) == f0 + r1);
    lemma_regroup(a6, meta_then(e.user_meta, nil), end);
}

proof fn lemma_entry_back(e: ChunkEntryView)
    ensures
        ({
            let txn = encode_utf8(e.txn_id);
            crate::chunk::entry_end_then(e, Seq::empty()) == spec_u32_to_le_bytes(e.schema_version)
                + seq![txn.len() as u8] + txn + spec_u64_to_le_bytes(e.commit_version)
                + spec_u64_to_le_bytes(e.wal_seq) + seq![
                if e.deleted {
                    1u8
                } else {
                    0u8
                },
            ]
        }),
{
    let nil = Seq::<u8>::empty();
    let txn = encode_utf8(e.txn_id);
    let flag = if e.deleted {
        1u8
    } else {
        0u8
    };
    let f0 = spec_u32_to_le_bytes(e.schema_version);
    let f1 = seq![txn.len() as u8];
    let f2 = txn;
    let f3 = spec_u64_to_le_bytes(e.commit_version);
    let f4 = spec_u64_to_le_bytes(e.wal_seq);
    let f5 = seq![flag];
    let r5 = f5 + nil;
    let r4 = f4 + r5;
    let r3 = f3 + r4;
    let r2 = f2 + r3;
    let r1 = f1 + r2;
    let a0 = f0;
    let a1 = a0 + f1;
    let a2 = a1 + f2;
    let a3 = a2 + f3;
    let a4 = a3 + f4;
    let a5 = a4 + f5;
    lemma_regroup(a0, f1, r2);
    lemma_regroup(a1, f2, r3);
    lemma_regroup(a2, f3, r4);
    lemma_regroup(a3, f4, r5);
    lemma_regroup(a4, f5, nil);
    assert(crate::chunk::entry_end_then(e, nil) == f0 + r1);
    assert(a5 + nil =~= a5);
}

/// Fields may be grouped either way.
proof fn lemma_regroup(a: Seq<u8>, b: Seq<u8>, c: Seq<u8>)
    ensures
        (a + b) + c == a + (b + c),
{
    assert((a + b) + c =~= a + (b + c));
}

/// A header is stored field by field behind the four bytes `XTC1` and the
/// format version 1.
pub proof fn law_header_is_stored_field_by_field(h: ChunkHeaderView)
    ensures
        ({
            let id = encode_utf8(h.chunk_id);
            let space = encode_utf8(h.space);
            let table = encode_utf8(h.table);
            header_bytes(h) == seq![0x58u8, 0x54, 0x43, 0x31] + spec_u16_to_le_bytes(1)
                + spec_u16_to_le_bytes(id.len() as u16) + id + spec_u64_to_le_bytes(
                h.created_at_ms as u64,
            ) + spec_u64_to_le_bytes(h.compressed_body_len) + spec_u64_to_le_bytes(
                h.uncompressed_len,
            ) + spec_u16_to_le_bytes(space.len() as u16) + space + spec_u16_to_le_bytes(
                table.len() as u16,
            ) + table + spec_u16_to_le_bytes(h.key_min.len() as u16) + h.key_min
                + spec_u16_to_le_bytes(h.key_max.len() as u16) + h.key_max
                + spec_u64_to_le_bytes(h.record_count)
        }),
{
    let nil = Seq::<u8>::empty();
    let id = encode_utf8(h.chunk_id);
    let space = encode_utf8(h.space);
    let table = encode_utf8(h.table);
    let f0 = seq![0x58u8, 0x54, 0x43, 0x31];
    let f1 = spec_u16_to_le_bytes(1);
    let f2 = spec_u16_to_le_bytes(id.len() as u16);
    let f3 = id;
    let f4 = spec_u64_to_le_bytes(h.created_at_ms as u64);
    let f5 = spec_u64_to_le_bytes(h.compressed_body_len);
    let f6 = spec_u64_to_le_bytes(h.uncompressed_len);
    let f7 = spec_u16_to_le_bytes(space.len() as u16);
    let f8 = space;
    let f9 = spec_u16_to_le_bytes(table.len() as u16);
    let f10 = table;
    let f11 = spec_u16_to_le_bytes(h.key_min.len() as u16);
    let f12 = h.key_min;
    let f13 = spec_u16_to_le_bytes(h.key_max.len() as u16);
    let f14 = h.key_max;
    let f15 = spec_u64_to_le_bytes(h.record_count);
    let r15 = f15 + nil;
    let r14 = f14 + r15;
    let r13 = f13 + r14;
    let r12 = f12 + r13;
    let r11 = f11 + r12;
    let r10 = f10 + r11;
    let r9 = f9 + r10;
    let r8 = f8 + r9;
    let r7 = f7 + r8;
    let r6 = f6 + r7;
    let r5 = f5 + r6;
    let r4 = f4 + r5;
    let r3 = f3 + r4;
    let r2 = f2 + r3;
    let r1 = f1 + r2;
    let a0 = f0;
    let a1 = a0 + f1;
    let a2 = a1 + f2;
    let a3 = a2 + f3;
    let a4 = a3 + f4;
    let a5 = a4 + f5;
    let a6 = a5 + f6;
    let a7 = a6 + f7;
    let a8 = a7 + f8;
    let a9 = a8 + f9;
    let a10 = a9 + f10;
    let a11 = a10 + f11;
    let a12 = a11 + f12;
    let a13 = a12 + f13;
    let a14 = a13 + f14;
    let a15 = a14 + f15;
    lemma_regroup(a0, f1, r2);
    lemma_regroup(a1, f2, r3);
    lemma_regroup(a2, f3, r4);
    lemma_regroup(a3, f4, r5);
    lemma_regroup(a4, f5, r6);
    lemma_regroup(a5, f6, r7);
    lemma_regroup(a6, f7, r8);
    lemma_regroup(a7, f8, r9);
    lemma_regroup(a8, f9, r10);
    lemma_regroup(a9, f10, r11);
    lemma_regroup(a10, f11, r12);
    lemma_regroup(a11, f12, r13);
    lemma_regroup(a12, f13, r14);
    lemma_regroup(a13, f14, r15);
    lemma_regroup(a14, f15, nil);
    assert(header_bytes(h) == f0 + r1);
    assert(a15 + nil =~= a15);
}

/// A footer holds the bloom filter and the key index, each behind its length,
/// the checksum of the body, and the four bytes `XTCF`. The key index begins
/// with the number of its rows.
pub proof fn law_footer_is_stored_field_by_field(f: ChunkFooterView)
    ensures
        ({
            let rows = f.key_index.map_values(
                |k: crate::chunk::KeyIndexEntryView|
                    (k.key_bytes, k.body_offset, k.commit_version),
            );
            let ki = spec_u64_to_le_bytes(f.key_index.len() as u64) + row_bytes(rows);
            footer_bytes(f) == spec_u32_to_le_bytes(f.bloom.len() as u32) + f.bloom
                + spec_u32_to_le_bytes(ki.len() as u32) + ki + spec_u32_to_le_bytes(f.body_crc32c)
                + seq![0x58u8, 0x54, 0x43, 0x46]
        }),
{
    let ki = key_index_bytes(f.key_index);
    assert(footer_bytes(f) =~= spec_u32_to_le_bytes(f.bloom.len() as u32) + f.bloom
        + spec_u32_to_le_bytes(ki.len() as u32) + ki + spec_u32_to_le_bytes(f.body_crc32c)
        + seq![0x58u8, 0x54, 0x43, 0x46]);
}

/// A chunk file is its header, its compressed body, its footer, and the length
/// of the footer; a body is its entries, one behind the other.
pub proof fn law_file_is_header_body_footer(
    h: ChunkHeaderView,
    frame: Seq<u8>,
    f: ChunkFooterView,
    es: Seq<ChunkEntryView>,
    e: ChunkEntryView,
)
    ensures
        chunk_file(h, frame, f) == header_bytes(h) + frame + footer_bytes(f)
            + spec_u32_to_le_bytes(footer_bytes(f).len() as u32),
        body_bytes(Seq::empty()).len() == 0,
        body_bytes(es.push(e)) == body_bytes(es) + entry_bytes(e),
{
    assert(es.push(e).drop_last() =~= es);
}

// ----- bloom filter -----

/// Bit of a filter of `len` bytes for a hash.
pub open spec fn bit_for(hash: u64, len: nat) -> int {
    (hash as usize) as int % (len * 8) as int
}

/// Bit `pos` of the filter is set.
pub open spec fn is_set(bloom: Seq<u8>, pos: int) -> bool {
    bloom[pos / 8] & (1u8 << ((pos % 8) as u8)) != 0
}

/// The filter of a chunk has ten bits per key, 64 at least, in whole bytes, and
/// its set bits are those of the keys' hashes: of each key, and of the bytes of
/// that hash.
pub proof fn law_bloom_sets_two_bits_per_key(
    w: ChunkWriterView,
    f: ChunkFooterView,
    at: int,
    pos: int,
)
    requires
        is_chunk_footer(w, f),
        0 <= at < w.entries.len(),
        0 <= pos < f.bloom.len() * 8,
    ensures
        ({
            let e = w.entries[at];
            let key = encode_utf8(e.space) + seq![0u8] + encode_utf8(e.table) + seq![0u8]
                + encode_utf8(e.record_id);
            let len = f.bloom.len();
            let bits = if w.entries.len() * 10 < 64 {
                64
            } else {
                w.entries.len() * 10
            };
            &&& len == (bits + 7) / 8
            &&& is_set(f.bloom, bit_for(xxh3(key), len))
            &&& is_set(f.bloom, bit_for(xxh3(spec_u64_to_le_bytes(xxh3(key))), len))
            &&& is_set(f.bloom, pos) ==> exists|i: int|
                0 <= i < w.entries.len() && (bit_for(
                    xxh3(entry_key(#[trigger] w.entries[i])),
                    len,
                ) == pos || bit_for(
                    xxh3(spec_u64_to_le_bytes(xxh3(entry_key(w.entries[i])))),
                    len,
                ) == pos)
        }),
{
    let keys = entry_keys(w.entries);
    let len = f.bloom.len();
    assert(keys[at] == entry_key(w.entries[at]));
    let k = keys[at];
    let p1 = bit_for(xxh3(k), len);
    let p2 = bit_for(xxh3(spec_u64_to_le_bytes(xxh3(k))), len);
    assert(len >= 8);
    assert(crate::chunk::bit_of_keys(keys, keys.len() as int, len, p1));
    assert(crate::chunk::bit_of_keys(keys, keys.len() as int, len, p2));
    assert(bloom_bit(f.bloom, p1));
    assert(bloom_bit(f.bloom, p2));
    assert(bloom_bit(f.bloom, pos) == is_set(f.bloom, pos));
    if is_set(f.bloom, pos) {
        let i = choose|i: int|
            0 <= i < keys.len() && (crate::chunk::bloom_position(
                crate::chunk::first_hash(#[trigger] keys[i]),
                len,
            ) == pos || crate::chunk::bloom_position(
                crate::chunk::second_hash(keys[i]),
                len,
            ) == pos);
        assert(keys[i] == entry_key(w.entries[i]));
    }
}

/// A filter admits a key exactly if it is empty or both bits of the key are set.
pub proof fn law_bloom_admits_by_two_bits(bloom: Seq<u8>, key: Seq<u8>)
    ensures
        bloom_admits(bloom, key) <==> bloom.len() == 0 || (is_set(
            bloom,
            bit_for(xxh3(key), bloom.len()),
        ) && is_set(bloom, bit_for(xxh3(spec_u64_to_le_bytes(xxh3(key))), bloom.len()))),
{
}

// ----- key index -----

/// The key index samples the first of every 256 entries: its key, where in the
/// body it begins, and its version.
pub proof fn law_key_index_samples_every_256th_entry(es: Seq<ChunkEntryView>)
    ensures
        key_samples(es).len() == (es.len() + 255) / 256,
        forall|j: int|
            0 <= j < key_samples(es).len() ==> {
                let k = #[trigger] key_samples(es)[j];
                &&& 256 * j < es.len()
                &&& k.key_bytes == entry_key(es[256 * j])
                &&& k.body_offset == body_bytes(es.take(256 * j)).len() as u64
                &&& k.commit_version == es[256 * j].commit_version
            },
    decreases es.len(),
{
    if es.len() > 0 {
        let before = es.drop_last();
        law_key_index_samples_every_256th_entry(before);
        assert forall|j: int| 0 <= j < key_samples(es).len() implies {
            let k = #[trigger] key_samples(es)[j];
            &&& 256 * j < es.len()
            &&& k.key_bytes == entry_key(es[256 * j])
            &&& k.body_offset == body_bytes(es.take(256 * j)).len() as u64
            &&& k.commit_version == es[256 * j].commit_version
        } by {
            if j < key_samples(before).len() {
                assert(key_samples(es)[j] == key_samples(before)[j]);
                assert(before.take(256 * j) =~= es.take(256 * j));
            } else {
                assert(256 * j == before.len());
                assert(es.take(256 * j) =~= before);
            }
        }
    }
}

/// The checksum in a chunk footer is that of the uncompressed body.
pub proof fn law_footer_checks_the_body(w: ChunkWriterView, f: ChunkFooterView)
    requires
        is_chunk_footer(w, f),
    ensures
        f.body_crc32c == crc32(body_bytes(w.entries)),
        f.key_index == key_samples(w.entries),
{
}

} // verus!
