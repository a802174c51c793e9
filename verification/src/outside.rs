//! Calls into other crates.
//!
//! Each function here makes one outside call. Its contract is what the rest
//! of the library relies on.

use vstd::bytes::*;
use vstd::prelude::*;
use vstd::utf8::*;

verus! {

/// Milliseconds since the Unix epoch, by `chrono::Utc::now` and
/// `timestamp_millis`. The clock decides the value; nothing is said of it.
#[verifier::external_body]
pub(crate) fn now_ms() -> (r: i64)
{
    chrono::Utc::now().timestamp_millis()
}

/// A character of Crockford's base 32.
pub open spec fn is_ulid_char(c: char) -> bool {
    ('0' <= c <= '9') || ('A' <= c <= 'Z' && c != 'I' && c != 'L' && c != 'O' && c != 'U')
}

/// A fresh ULID as text, by `ulid::Ulid::new` and `to_string`: 26 characters
/// of Crockford's base 32. Time and chance decide which ones.
#[verifier::external_body]
pub(crate) fn fresh_ulid() -> (r: String)
    ensures
        r@.len() == 26,
        forall|i: int| 0 <= i < r@.len() ==> is_ulid_char(#[trigger] r@[i]),
{
    ulid::Ulid::new().to_string()
}

/// Message of `std::str::from_utf8` for bytes that are no UTF-8.
pub uninterp spec fn utf8_failure(bytes: Seq<u8>) -> Seq<char>;

/// The text that `bytes` encode, by `std::str::from_utf8`: there is one
/// exactly when the bytes are valid UTF-8. The error carries std's message,
/// which depends on the bytes alone.
#[verifier::external_body]
pub(crate) fn text_from_utf8(bytes: &[u8]) -> (r: Result<String, String>)
    ensures
        match r {
            Ok(t) => valid_utf8(bytes@) && encode_utf8(t@) == bytes@,
            Err(m) => !valid_utf8(bytes@) && m@ == utf8_failure(bytes@),
        },
{
    match std::str::from_utf8(bytes) {
        Ok(t) => Ok(t.to_string()),
        Err(e) => Err(e.to_string()),
    }
}

/// CRC-32 checksum of a byte sequence.
pub uninterp spec fn crc32(bytes: Seq<u8>) -> u32;

/// The checksum of `bytes`, by `crc32fast::hash`, a function of the bytes
/// alone.
#[verifier::external_body]
pub(crate) fn crc32_hash(bytes: &[u8]) -> (r: u32)
    ensures
        r == crc32(bytes@),
{
    crc32fast::hash(bytes)
}

/// 64-bit XXH3 hash of a byte sequence.
pub uninterp spec fn xxh3(bytes: Seq<u8>) -> u64;

/// The hash of `bytes`, by `xxhash_rust::xxh3::xxh3_64`, a function of the
/// bytes alone.
#[verifier::external_body]
pub(crate) fn xxh3_hash(bytes: &[u8]) -> (r: u64)
    ensures
        r == xxh3(bytes@),
{
    xxhash_rust::xxh3::xxh3_64(bytes)
}

/// SHA-256 digest of a byte sequence.
pub uninterp spec fn sha256(bytes: Seq<u8>) -> Seq<u8>;

/// The digest of `bytes`, by `sha2::Sha256::digest`: 32 bytes, a function of
/// the input alone.
#[verifier::external_body]
pub(crate) fn sha256_digest(bytes: &[u8]) -> (r: Vec<u8>)
    ensures
        r@ == sha256(bytes@),
        r@.len() == 32,
{
    <sha2::Sha256 as sha2::Digest>::digest(bytes).to_vec()
}

/// Lower-case hexadecimal digit.
pub open spec fn hex_digit(d: int) -> char {
    if d < 10 {
        ('0' as int + d) as char
    } else {
        ('a' as int + (d - 10)) as char
    }
}

/// Two hexadecimal digits per byte, the high half first.
pub open spec fn hex_text(bytes: Seq<u8>) -> Seq<char> {
    Seq::new(
        2 * bytes.len(),
        |i: int|
            hex_digit(
                if i % 2 == 0 {
                    bytes[i / 2] as int / 16
                } else {
                    bytes[i / 2] as int % 16
                },
            ),
    )
}

/// Lower-case hexadecimal text of `bytes`, by `hex::encode`.
#[verifier::external_body]
pub(crate) fn hex_encode(bytes: &[u8]) -> (r: String)
    ensures
        r@ == hex_text(bytes@),
{
    hex::encode(bytes)
}

/// Zstandard frame that holds `bytes`, compressed at `level`.
pub uninterp spec fn zstd_frame(bytes: Seq<u8>, level: i32) -> Seq<u8>;

/// Content of a Zstandard frame, or the message where the bytes are none.
pub uninterp spec fn zstd_content(frame: Seq<u8>) -> Result<Seq<u8>, Seq<char>>;

/// Compresses `bytes`, by `zstd::encode_all`. What it returns is a frame that
/// depends on the bytes and the level alone and holds the bytes. It succeeds:
/// it reads from memory and writes to memory, and zstd brings every level into
/// its range.
#[verifier::external_body]
pub(crate) fn zstd_compress(bytes: &[u8], level: i32) -> (r: Result<Vec<u8>, String>)
    ensures
        r is Ok,
        r matches Ok(v) ==> v@ == zstd_frame(bytes@, level) && (zstd_content(v@) matches Ok(c) && c
            == bytes@),
{
    match zstd::encode_all(bytes, level) {
        Ok(v) => Ok(v),
        Err(e) => Err(e.to_string()),
    }
}

/// Decompresses `frame`, by `zstd::decode_all`, a function of the frame alone.
/// The error carries zstd's message.
#[verifier::external_body]
pub(crate) fn zstd_decompress(frame: &[u8]) -> (r: Result<Vec<u8>, String>)
    ensures
        match r {
            Ok(v) => zstd_content(frame@) matches Ok(c) && c == v@,
            Err(m) => zstd_content(frame@) matches Err(t) && t == m@,
        },
{
    match zstd::decode_all(frame) {
        Ok(v) => Ok(v),
        Err(e) => Err(e.to_string()),
    }
}

/// A key with two numbers.
pub type IndexRow = (Vec<u8>, u64, u64);

/// Views of rows of a key with two numbers.
pub open spec fn index_rows(rows: Seq<IndexRow>) -> Seq<(Seq<u8>, u64, u64)> {
    rows.map_values(|r: IndexRow| (r.0@, r.1, r.2))
}

/// Bytes of rows: each key behind its length, then the two numbers, all
/// numbers in eight little-endian bytes.
pub open spec fn row_bytes(rows: Seq<(Seq<u8>, u64, u64)>) -> Seq<u8>
    decreases rows.len(),
{
    if rows.len() == 0 {
        Seq::empty()
    } else {
        let row = rows.last();
        row_bytes(rows.drop_last()) + spec_u64_to_le_bytes(row.0.len() as u64) + row.0
            + spec_u64_to_le_bytes(row.1) + spec_u64_to_le_bytes(row.2)
    }
}

/// What `bincode::deserialize` reads from bytes as a list of rows, or its
/// message.
pub uninterp spec fn bincode_rows(bytes: Seq<u8>) -> Result<Seq<(Seq<u8>, u64, u64)>, Seq<char>>;

/// Serialises rows, by `bincode::serialize` with its fixed-width little-endian
/// integers: the number of rows, then the rows. It succeeds on every list of
/// plain values, and `bincode::deserialize` reads the same rows back.
#[verifier::external_body]
pub(crate) fn bincode_write_rows(rows: &Vec<IndexRow>) -> (r: Result<Vec<u8>, String>)
    ensures
        r is Ok,
        r matches Ok(v) ==> v@ == spec_u64_to_le_bytes(rows@.len() as u64) + row_bytes(
            index_rows(rows@),
        ) && (bincode_rows(v@) matches Ok(x) && x == index_rows(rows@)),
{
    match bincode::serialize(rows) {
        Ok(v) => Ok(v),
        Err(e) => Err(e.to_string()),
    }
}

/// Reads rows, by `bincode::deserialize`, a function of the bytes alone. The
/// error carries bincode's message.
#[verifier::external_body]
pub(crate) fn bincode_read_rows(bytes: &[u8]) -> (r: Result<Vec<IndexRow>, String>)
    ensures
        match r {
            Ok(rows) => bincode_rows(bytes@) matches Ok(x) && x == index_rows(rows@),
            Err(m) => bincode_rows(bytes@) matches Err(t) && t == m@,
        },
{
    match bincode::deserialize(bytes) {
        Ok(rows) => Ok(rows),
        Err(e) => Err(e.to_string()),
    }
}

/// Message of `serde_json::from_str` for a text that is no JSON value, `None`
/// for one that is.
pub uninterp spec fn json_failure(text: Seq<char>) -> Option<Seq<char>>;

/// The text is a JSON value that `serde_json` reads; the empty text is none.
pub open spec fn json_reads(text: Seq<char>) -> bool {
    text.len() > 0 && json_failure(text) is None
}

/// Whether `text` is a JSON value, by `serde_json::from_str` into
/// `serde_json::Value`, a function of the text alone. The empty text is none.
/// The error carries serde_json's message.
#[verifier::external_body]
pub(crate) fn json_check(text: &str) -> (r: Result<(), String>)
    ensures
        match r {
            Ok(_) => json_failure(text@) is None,
            Err(m) => json_failure(text@) == Some(m@),
        },
        text@.len() == 0 ==> r is Err,
{
    match serde_json::from_str::<serde_json::Value>(text) {
        Ok(_) => Ok(()),
        Err(e) => Err(e.to_string()),
    }
}

/// `bytes::Bytes`, a shared immutable byte buffer.
#[verifier::external_type_specification]
#[verifier::external_body]
pub struct ExBytes(bytes::Bytes);

/// The bytes that a buffer holds.
pub uninterp spec fn bytes_held(b: bytes::Bytes) -> Seq<u8>;

/// A buffer of the given bytes, by `bytes::Bytes::from` of a vector.
#[verifier::external_body]
pub(crate) fn bytes_from(v: Vec<u8>) -> (r: bytes::Bytes)
    ensures
        bytes_held(r) == v@,
{
    bytes::Bytes::from(v)
}

/// The bytes of a buffer, by its slice's `to_vec`.
#[verifier::external_body]
pub(crate) fn bytes_to_vec(b: &bytes::Bytes) -> (r: Vec<u8>)
    ensures
        r@ == bytes_held(*b),
{
    b.to_vec()
}

/// Another handle to the same bytes, by `bytes::Bytes::clone`.
#[verifier::external_body]
pub(crate) fn bytes_share(b: &bytes::Bytes) -> (r: bytes::Bytes)
    ensures
        bytes_held(r) == bytes_held(*b),
{
    b.clone()
}

/// `dashmap::DashMap`, a sharded hash map.
#[verifier::external_type_specification]
#[verifier::external_body]
#[verifier::reject_recursive_types(K)]
#[verifier::reject_recursive_types(V)]
#[verifier::reject_recursive_types(S)]
pub struct ExDashMap<K, V, S>(dashmap::DashMap<K, V, S>);

/// A map from record keys to positions.
pub type SlotMap = dashmap::DashMap<(String, String, String), usize>;

/// The positions that a map holds, by the texts of their keys.
pub uninterp spec fn slots_held(m: SlotMap) -> Map<(Seq<char>, Seq<char>, Seq<char>), usize>;

/// The map without positions.
pub open spec fn no_slots() -> Map<(Seq<char>, Seq<char>, Seq<char>), usize> {
    Map::empty()
}

/// An empty map, by `dashmap::DashMap::with_shard_amount`, which wants a
/// power of two above one.
#[verifier::external_body]
pub(crate) fn slots_new(shards: usize) -> (r: SlotMap)
    requires
        shards > 1,
        shards & (shards - 1) as usize == 0,
    ensures
        slots_held(r) == no_slots(),
{
    dashmap::DashMap::with_shard_amount(shards)
}

/// The position under `key`, by `dashmap::DashMap::get`.
#[verifier::external_body]
pub(crate) fn slots_get(m: &SlotMap, key: &(String, String, String)) -> (r: Option<usize>)
    ensures
        match r {
            Some(i) => slots_held(*m).contains_key(key@) && slots_held(*m)[key@] == i,
            None => !slots_held(*m).contains_key(key@),
        },
{
    m.get(key).map(|slot| *slot)
}

/// Stores a position under `key`, by `dashmap::DashMap::insert`.
#[verifier::external_body]
pub(crate) fn slots_insert(m: &mut SlotMap, key: (String, String, String), slot: usize)
    ensures
        slots_held(*final(m)) == slots_held(*old(m)).insert(key@, slot),
{
    m.insert(key, slot);
}

/// The time span of a number of seconds.
pub uninterp spec fn seconds(n: u64) -> std::time::Duration;

/// A span of `n` seconds, by `std::time::Duration::from_secs`, a function of
/// the number alone.
#[verifier::external_body]
pub(crate) fn span_of_seconds(n: u64) -> (r: std::time::Duration)
    ensures
        r == seconds(n),
{
    std::time::Duration::from_secs(n)
}

} // verus!
