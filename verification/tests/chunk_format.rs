use xtable::chunk::{
    bloom_may_contain, build_bloom, compose_key_bytes, decode_body_entries, decode_entry,
    decompress_body, read_footer, ChunkEntry, ChunkFooter, ChunkHeader, ChunkWriter,
    BLOOM_BITS_PER_KEY, CHUNK_MAGIC, CHUNK_VERSION, FOOTER_MAGIC, MULTIPART_PART_SIZE, MULTIPART_THRESHOLD,
};
use xtable::codec::{decode_text, read_bytes, read_text, read_u16, read_u32, read_u64, read_u8};

fn entry(rid: &str, cv: u64, body: &[u8]) -> ChunkEntry {
    ChunkEntry {
        space: "s".into(),
        table: "t".into(),
        record_id: rid.into(),
        value: body.to_vec(),
        commit_version: cv,
        txn_id: "T1".into(),
        deleted: false,
        content_type: None,
        user_meta: vec![],
        schema_version: 1,
        wal_seq: cv,
    }
}

#[test]
fn compose_key_is_stable() {
    let k1 = compose_key_bytes("a", "b", "c");
    let k2 = compose_key_bytes("a", "b", "c");
    assert_eq!(k1, k2);
}

#[test]
fn compose_key_orders_lexicographically() {
    let a = compose_key_bytes("s", "t", "a");
    let b = compose_key_bytes("s", "t", "b");
    assert!(a < b);
}

#[test]
fn chunk_roundtrips() {
    let mut w = ChunkWriter::new("C1".into(), "s".into(), "t".into());
    for i in 0..10 {
        w.append(entry(&format!("r{i}"), i + 1, b"hello")).unwrap();
    }
    let (file, header, _footer) = w.finalize().unwrap();
    assert_eq!(header.record_count, 10);
    assert_eq!(header.space, "s");
    assert_eq!(header.table, "t");
    assert!(!header.key_min.is_empty());
    assert!(!header.key_max.is_empty());
    let body = decompress_body(&file).unwrap();
    let entries = decode_body_entries(&body, 10).unwrap();
    assert_eq!(entries.len(), 10);
    assert_eq!(entries[0].record_id, "r0");
    assert_eq!(entries[9].record_id, "r9");
    assert_eq!(entries[0].commit_version, 1);
    let footer_len =
        u32::from_le_bytes(file[file.len() - 4..file.len()].try_into().unwrap()) as usize;
    let footer_bytes = &file[file.len() - 4 - footer_len..file.len() - 4];
    let _ = ChunkFooter::decode(footer_bytes).unwrap();
}

#[test]
fn bloom_rejects_absent_keys() {
    let keys: Vec<Vec<u8>> = (0..1000).map(|i| format!("k{i}").into_bytes()).collect();
    let bloom = build_bloom(&keys, 10);
    let mut fp = 0;
    for i in 10000..10100 {
        if bloom_may_contain(&bloom, format!("k{i}").as_bytes()) {
            fp += 1;
        }
    }
    assert!(fp <= 5, "too many false positives: {}", fp);
}

#[test]
fn bloom_admits_every_key_it_was_built_from() {
    let keys: Vec<Vec<u8>> = (0..500).map(|i| format!("k{i}").into_bytes()).collect();
    let bloom = build_bloom(&keys, BLOOM_BITS_PER_KEY);
    for k in &keys {
        assert!(bloom_may_contain(&bloom, k));
    }
    // Ten bits per key, rounded up to whole bytes.
    assert_eq!(bloom.len(), 625);
}

#[test]
fn multipart_threshold_documented() {
    assert_eq!(MULTIPART_THRESHOLD, 16 * 1024 * 1024);
    assert_eq!(MULTIPART_PART_SIZE, 16 * 1024 * 1024);
    assert!(BLOOM_BITS_PER_KEY >= 8);
}

#[test]
fn truncated_chunk_header_does_not_panic() {
    let r = ChunkHeader::decode(&[b'X', b'T', b'C', b'1']);
    assert!(r.is_err(), "expected Storage error, got {:?}", r.ok());

    let buf = vec![b'X', b'T', b'C', b'1', 0x01, 0x00];
    let r = ChunkHeader::decode(&buf);
    assert!(r.is_err(), "expected Storage error, got {:?}", r.ok());

    let r = ChunkHeader::decode(&[0u8; 100]);
    assert!(r.is_err());
}

#[test]
fn truncated_header_names_what_is_missing() {
    let buf = vec![b'X', b'T', b'C', b'1', 0x01, 0x00];
    let e = ChunkHeader::decode(&buf).unwrap_err();
    assert_eq!(e.message(), "chunk: truncated, need 2 bytes at offset 6, have 6");
    assert_eq!(e.http_status(), 500);
}

#[test]
fn truncated_body_decode_does_not_panic() {
    let r = decode_body_entries(&[], 0);
    assert!(r.is_ok());
    assert_eq!(r.unwrap().len(), 0);

    let r = decode_body_entries(&[], 1);
    let _ = r;
}

#[test]
fn every_truncation_of_a_chunk_is_an_error_or_reads() {
    let mut w = ChunkWriter::new("C1".into(), "s".into(), "t".into());
    for i in 0..3 {
        w.append(entry(&format!("r{i}"), i + 1, b"hello")).unwrap();
    }
    let (file, _header, _footer) = w.finalize().unwrap();
    for n in 0..file.len() {
        assert!(decompress_body(&file[..n]).is_err(), "prefix of {} bytes", n);
    }
    assert!(decompress_body(&file).is_ok());
}

#[test]
fn chunk_format_md_byte_layout_match() {
    let mut w = ChunkWriter::new("C1".into(), "s".into(), "t".into());
    for i in 0..3 {
        w.append(entry(&format!("r{i}"), i + 1, b"hello")).unwrap();
    }
    let (file, _header, footer) = w.finalize().unwrap();

    assert_eq!(&file[0..4], b"XTC1", "magic mismatch");
    assert_eq!(u16::from_le_bytes([file[4], file[5]]), CHUNK_VERSION);
    assert_eq!(u16::from_le_bytes([file[6], file[7]]), 2);
    assert_eq!(&file[8..10], b"C1");
    assert_eq!(file[10..18].len(), 8);
    assert_eq!(file[18..26].len(), 8);
    assert_eq!(file[26..34].len(), 8);
    let space_len = u16::from_le_bytes([file[34], file[35]]);
    assert_eq!(space_len, 1);
    assert_eq!(file[36], b's');
    let table_len = u16::from_le_bytes([file[37], file[38]]);
    assert_eq!(table_len, 1);
    assert_eq!(file[39], b't');
    let key_min_len = u16::from_le_bytes([file[40], file[41]]);
    assert!(key_min_len >= 6, "key_min too short: {}", key_min_len);

    let footer_len = u32::from_le_bytes([
        file[file.len() - 4],
        file[file.len() - 3],
        file[file.len() - 2],
        file[file.len() - 1],
    ]) as usize;
    let footer_start = file.len() - 4 - footer_len;
    assert_eq!(
        &file[footer_start + footer_len - 4..footer_start + footer_len],
        b"XTCF",
        "footer must end with FOOTER_MAGIC (chunk_format.md)"
    );
    let decoded_footer =
        ChunkFooter::decode(&file[footer_start..footer_start + footer_len]).expect("footer decode");
    assert_eq!(decoded_footer.body_crc32c, footer.body_crc32c);
    assert_eq!(decoded_footer.bloom, footer.bloom);
    assert_eq!(decoded_footer.key_index, footer.key_index);

    let body = decompress_body(&file).expect("decompress");
    let entries = decode_body_entries(&body, 3).expect("decode body");
    assert_eq!(entries.len(), 3);
    assert_eq!(entries[0].record_id, "r0");
    assert_eq!(entries[0].commit_version, 1);
    assert_eq!(entries[2].record_id, "r2");
    assert_eq!(entries[2].commit_version, 3);

    assert_eq!(&CHUNK_MAGIC, b"XTC1");
    assert_eq!(&FOOTER_MAGIC, b"XTCF");
    assert_eq!(CHUNK_VERSION, 1);
    assert_eq!(MULTIPART_THRESHOLD, 16 * 1024 * 1024);
    assert_eq!(MULTIPART_PART_SIZE, 16 * 1024 * 1024);
}

#[test]
fn checksum_is_that_of_the_body() {
    let mut w = ChunkWriter::new("C1".into(), "s".into(), "t".into());
    w.append(entry("r", 1, b"hello")).unwrap();
    let body = w.encode_body();
    let (file, header, footer) = w.finalize().unwrap();
    assert_eq!(decompress_body(&file).unwrap(), body);
    assert_eq!(header.uncompressed_len, body.len() as u64);
    assert_eq!(footer.body_crc32c, crc32fast::hash(&body));
    assert_ne!(footer.body_crc32c, 0);
    let again = read_footer(&file).unwrap();
    assert_eq!(again.bloom, footer.bloom);
    assert_eq!(again.body_crc32c, footer.body_crc32c);
}

#[test]
fn entries_come_out_in_key_order_with_all_their_fields() {
    let mut w = ChunkWriter::new("C1".into(), "s".into(), "t".into());
    let mut e = entry("b", 7, b"body");
    e.deleted = true;
    e.content_type = Some("application/json".into());
    e.user_meta = vec![("k".into(), "v".into()), ("k2".into(), "v2".into())];
    e.schema_version = 9;
    e.wal_seq = 11;
    w.append(e.clone()).unwrap();
    w.append(entry("a", 1, b"x")).unwrap();
    w.append(entry("c", 2, b"")).unwrap();
    let (file, header, _) = w.finalize().unwrap();
    let got = decode_body_entries(&decompress_body(&file).unwrap(), 3).unwrap();
    assert_eq!(
        got.iter().map(|e| e.record_id.clone()).collect::<Vec<_>>(),
        vec!["a", "b", "c"]
    );
    assert_eq!(got[1], e);
    assert_eq!(header.key_min, compose_key_bytes("s", "t", "a"));
    assert_eq!(header.key_max, compose_key_bytes("s", "t", "c"));
    let (back, _) = ChunkHeader::decode(&file).unwrap();
    assert_eq!(back, header);
}

#[test]
fn corrupt_files_are_storage_errors() {
    let mut w = ChunkWriter::new("C1".into(), "s".into(), "t".into());
    w.append(entry("r", 1, b"hello")).unwrap();
    let (file, _, _) = w.finalize().unwrap();
    let mut wrong_version = file.clone();
    wrong_version[4] = 9;
    let e = ChunkHeader::decode(&wrong_version).unwrap_err();
    assert_eq!(e.message(), "chunk version 9 unsupported");
    let mut wrong_magic = file.clone();
    wrong_magic[0] = b'Y';
    assert_eq!(
        ChunkHeader::decode(&wrong_magic).unwrap_err().message(),
        "chunk magic mismatch"
    );
    assert_eq!(
        ChunkHeader::decode(b"XTC1\x01").unwrap_err().message(),
        "chunk magic mismatch"
    );
    assert_eq!(
        ChunkFooter::decode(&[0u8; 16]).unwrap_err().message(),
        "chunk footer magic mismatch"
    );
    let mut wrong_len = file.clone();
    let n = wrong_len.len();
    wrong_len[n - 1] = 0xff;
    assert!(decompress_body(&wrong_len).is_err());
    assert!(read_footer(&wrong_len).is_err());
    assert!(decode_body_entries(&[9, 0, 0, 0], 1).is_err());
}

#[test]
fn every_header_prefix_is_refused() {
    let mut w = ChunkWriter::new("C1".into(), "space".into(), "table".into());
    w.append(entry("r", 1, b"hello")).unwrap();
    let (_, header, _) = w.finalize().unwrap();
    let whole = header.encode().unwrap();
    for n in 0..whole.len() {
        assert!(ChunkHeader::decode(&whole[..n]).is_err(), "prefix of {} bytes", n);
    }
    assert_eq!(ChunkHeader::decode(&whole).unwrap(), (header, whole.len()));
}

#[test]
fn entries_decode_one_by_one() {
    let mut w = ChunkWriter::new("C1".into(), "s".into(), "t".into());
    w.append(entry("a", 1, b"one")).unwrap();
    w.append(entry("b", 2, b"two")).unwrap();
    let body = w.encode_body();
    let (first, next) = decode_entry(&body, 0).unwrap();
    assert_eq!(first, entry("a", 1, b"one"));
    let (second, end) = decode_entry(&body, next).unwrap();
    assert_eq!(second, entry("b", 2, b"two"));
    assert_eq!(end, body.len());
}

#[test]
fn fields_behind_the_end_are_truncated() {
    let buf = [1u8, 2, 3];
    let text = |need: usize| format!("chunk: truncated, need {} bytes at offset 9, have 3", need);
    assert_eq!(read_bytes(&buf, 9, 5).unwrap_err().message(), text(5));
    assert_eq!(read_bytes(&buf, 9, 0).unwrap_err().message(), text(0));
    assert_eq!(read_u8(&buf, 9).unwrap_err().message(), text(1));
    assert_eq!(read_u16(&buf, 9).unwrap_err().message(), text(2));
    assert_eq!(read_u32(&buf, 9).unwrap_err().message(), text(4));
    assert_eq!(read_u64(&buf, 9).unwrap_err().message(), text(8));
    assert_eq!(read_text(&buf, 9, 7, "f: ").unwrap_err().message(), text(7));
    assert_eq!(decode_entry(&buf, 9).unwrap_err().message(), text(2));
    assert_eq!(read_u16(&buf, 1).unwrap(), (0x0302, 3));
    assert_eq!(read_bytes(&buf, 3, 0).unwrap(), (vec![], 3));
}

fn entry_error(buf: &[u8]) -> String {
    decode_entry(buf, 0).unwrap_err().message().to_string()
}

#[test]
fn decode_errors_name_what_failed() {
    assert_eq!(
        decode_body_entries(&[9, 0, 0, 0], 1).unwrap_err().message(),
        "chunk: truncated, need 9 bytes at offset 2, have 4"
    );
    let why = "invalid utf-8 sequence of 1 bytes from index 0";
    assert_eq!(decode_text(&[0xff], "f: ").unwrap_err().message(), format!("f: {why}"));
    // Keys with a part that is no UTF-8.
    let space = entry_error(&[1, 0, 0xff]);
    assert_eq!(space, format!("space utf8: {why}"));
    let table = entry_error(&[3, 0, b's', 0, 0xff]);
    assert_eq!(table, format!("table utf8: {why}"));
    let record = entry_error(&[5, 0, b's', 0, b't', 0, 0xff]);
    assert_eq!(record, format!("record_id utf8: {why}"));
    // An empty key and value, then a content type that is no UTF-8.
    let ct = entry_error(&[0, 0, 0, 0, 0, 0, 1, 0xff]);
    assert_eq!(ct, format!("ct utf8: {why}"));
    let meta_key = entry_error(&[0, 0, 0, 0, 0, 0, 0, 1, 1, 0xff]);
    assert_eq!(meta_key, format!("um k utf8: {why}"));
    let meta = entry_error(&[0, 0, 0, 0, 0, 0, 0, 1, 0, 1, 0xff]);
    assert_eq!(meta, format!("um v utf8: {why}"));
    let txn = entry_error(&[0, 0, 0, 0, 0, 0, 0, 0, 1, 0, 0, 0, 1, 0xff]);
    assert_eq!(txn, format!("txn utf8: {why}"));
    let id = ChunkHeader::decode(b"XTC1\x01\x00\x01\x00\xff").unwrap_err();
    assert_eq!(id.message(), format!("chunk_id utf8: {why}"));
}

#[test]
fn unreadable_files_say_why() {
    let mut w = ChunkWriter::new("C1".into(), "s".into(), "t".into());
    w.append(entry("r", 1, b"hello")).unwrap();
    let (file, header, _) = w.finalize().unwrap();
    let head = header.encode().unwrap();
    assert_eq!(
        decompress_body(&head).unwrap_err().message(),
        format!("chunk too short for footer (len={0}, body_offset={0})", head.len())
    );
    let mut wrong_len = file.clone();
    let n = wrong_len.len();
    wrong_len[n - 1] = 0xff;
    assert_eq!(
        decompress_body(&wrong_len).unwrap_err().message(),
        "chunk footer overlaps its header"
    );
    assert_eq!(
        read_footer(&wrong_len).unwrap_err().message(),
        "chunk footer longer than the file"
    );
    assert_eq!(read_footer(&[1, 2]).unwrap_err().message(), "chunk too short for footer");
    let mut wrong_frame = file.clone();
    wrong_frame[head.len()] ^= 0xff;
    assert!(decompress_body(&wrong_frame).unwrap_err().message().starts_with("zstd decode: "));
    // A footer whose key index is no list of rows.
    let mut footer = vec![0u8, 0, 0, 0, 1, 0, 0, 0, 7, 0, 0, 0, 0];
    footer.extend_from_slice(&FOOTER_MAGIC);
    assert!(ChunkFooter::decode(&footer).unwrap_err().message().starts_with("bincode: "));
    assert_eq!(
        ChunkFooter::decode(b"\x09\x00\x00\x00XTCF").unwrap_err().message(),
        "chunk: truncated, need 9 bytes at offset 4, have 8"
    );
}

#[test]
fn keys_sort_by_space_then_table_then_record() {
    let parts = ["", "a", "a!", "ab", "b", "\u{e4}"];
    let mut all = vec![];
    for s in parts {
        for t in parts {
            for r in parts {
                all.push((s, t, r));
            }
        }
    }
    for a in &all {
        for b in &all {
            let x = compose_key_bytes(a.0, a.1, a.2);
            let y = compose_key_bytes(b.0, b.1, b.2);
            assert_eq!(x < y, a < b);
            assert_eq!(x == y, a == b);
        }
    }
}
