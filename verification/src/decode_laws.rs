//! Laws of reading chunk files: what a file must hold to be accepted, and
//! where the parts that are read stand in it.

use crate::chunk::{p_entries, p_entry, p_file_footer, p_footer, p_frame, p_header, ChunkEntryView};
use crate::codec::{p_bytes, p_text, p_u8};
use crate::rebuild::chunk_key;
use crate::version_chain::{latest_version, Chain, VersionEntryView};
use vstd::bytes::*;
use vstd::prelude::*;
use vstd::utf8::*;

verus! {

/// A field is taken off the front: it and what is left make up the input. It is
/// missing exactly if the input is too short.
pub proof fn law_field_is_taken_off_the_front(s: Seq<u8>, n: nat)
    ensures
        match p_bytes(s, n) {
            Some((field, rest)) => field.len() == n && field + rest == s,
            None => s.len() < n,
        },
        match p_u8(s) {
            Some((b, rest)) => seq![b] + rest == s,
            None => s.len() == 0,
        },
        match p_text(s, n) {
            Some((text, rest)) => encode_utf8(text).len() == n && encode_utf8(text) + rest == s,
            None => s.len() < n || !valid_utf8(s.take(n as int)),
        },
{
    if n <= s.len() {
        assert(s.take(n as int) + s.skip(n as int) =~= s);
        if valid_utf8(s.take(n as int)) {
            decode_utf8_encode_utf8(s.take(n as int));
        }
    }
    if s.len() >= 1 {
        assert(seq![s[0]] + s.skip(1) =~= s);
    }
}

/// A file is accepted only with the letters `XTC1` and version 1 in front.
pub proof fn law_header_starts_with_magic_and_version(s: Seq<u8>)
    ensures
        p_header(s) is Some ==> {
            &&& s.len() >= 6
            &&& s[0] == 'X' as u8
            &&& s[1] == 'T' as u8
            &&& s[2] == 'C' as u8
            &&& s[3] == '1' as u8
            &&& spec_u16_from_le_bytes(s.subrange(4, 6)) == 1
        },
{
    if p_header(s) is Some {
        let m = s.take(4);
        assert(s[0] == m[0] && s[1] == m[1] && s[2] == m[2] && s[3] == m[3]);
        assert(s.skip(4).take(2) =~= s.subrange(4, 6));
    }
}

/// The compressed body is what stands between the header and the footer, whose
/// length is in the last four bytes.
pub proof fn law_frame_stands_between_header_and_footer(file: Seq<u8>)
    ensures
        p_frame(file) matches Some(frame) ==> {
            let rest = (p_header(file)->0).1;
            let footer = spec_u32_from_le_bytes(file.skip(file.len() - 4)) as int;
            &&& p_header(file) is Some
            &&& rest.len() == frame.len() + footer + 4
            &&& file.len() >= rest.len()
            &&& forall|i: int|
                0 <= i < frame.len() ==> #[trigger] frame[i] == file[file.len() - rest.len() + i]
        },
        p_frame(file) is None ==> p_header(file) is None || {
            let rest = (p_header(file)->0).1;
            rest.len() < 4 || rest.len() < 4 + spec_u32_from_le_bytes(
                file.skip(file.len() - 4),
            )
        },
{
    if p_header(file) is Some {
        lemma_header_is_a_front(file);
    }
}

proof fn lemma_header_is_a_front(s: Seq<u8>)
    requires
        p_header(s) is Some,
    ensures
        (p_header(s)->0).1.len() <= s.len(),
{
}

/// The footer is read from the bytes before the last four, and ends with the
/// letters `XTCF`.
pub proof fn law_footer_ends_with_magic(file: Seq<u8>)
    ensures
        p_file_footer(file) matches Some(f) ==> {
            let n = spec_u32_from_le_bytes(file.skip(file.len() - 4)) as int;
            let footer = file.subrange(file.len() - 4 - n, file.len() - 4);
            &&& n + 4 <= file.len()
            &&& n >= 8
            &&& p_footer(footer) == Some(f)
            &&& file[file.len() - 8] == 'X' as u8
            &&& file[file.len() - 7] == 'T' as u8
            &&& file[file.len() - 6] == 'C' as u8
            &&& file[file.len() - 5] == 'F' as u8
        },
{
    if p_file_footer(file) is Some {
        let n = spec_u32_from_le_bytes(file.skip(file.len() - 4)) as int;
        let footer = file.subrange(file.len() - 4 - n, file.len() - 4);
        let m = footer.skip(footer.len() - 4);
        assert(m[0] == file[file.len() - 8] && m[1] == file[file.len() - 7] && m[2]
            == file[file.len() - 6] && m[3] == file[file.len() - 5]);
    }
}

/// Entries are read one behind the other: those read before stay in front, and
/// the next one is that at the front of the body. An empty body adds none.
pub proof fn law_entries_are_read_in_order(s: Seq<u8>, before: Seq<ChunkEntryView>)
    ensures
        s.len() == 0 ==> p_entries(s, before) == Some(before),
        p_entries(s, before) matches Some(es) ==> before.is_prefix_of(es),
        s.len() > 0 && p_entries(s, before) is Some ==> p_entry(s) is Some && p_entries(
            s,
            before,
        )->0.len() > before.len() && p_entries(s, before)->0[before.len() as int] == (p_entry(
            s,
        )->0).0,
        p_entry(s) is None && s.len() > 0 ==> p_entries(s, before) is None,
    decreases s.len(),
{
    if s.len() > 0 && p_entry(s) is Some {
        let (e, rest) = p_entry(s)->0;
        if rest.len() < s.len() {
            law_entries_are_read_in_order(rest, before.push(e));
            if let Some(es) = p_entries(rest, before.push(e)) {
                assert(before.push(e)[before.len() as int] == e);
                let longer = before.push(e);
                assert(es.subrange(0, longer.len() as int) == longer);
                assert(es[before.len() as int] == longer[before.len() as int]);
                assert forall|i: int| 0 <= i < before.len() implies es[i] == before[i] by {
                    assert(es.subrange(0, longer.len() as int)[i] == longer[i]);
                }
                assert(es.subrange(0, before.len() as int) =~= before);
            }
        }
    }
}

/// A key is that of a chunk exactly if it ends with the suffix of chunk files.
pub proof fn law_chunk_keys_end_with_their_suffix(head: Seq<char>, key: Seq<char>)
    ensures
        chunk_key(head + ".xtc"@),
        chunk_key(key) ==> key == key.take(key.len() - ".xtc"@.len()) + ".xtc"@,
{
    let n = ".xtc"@.len() as int;
    assert((head + ".xtc"@).skip((head + ".xtc"@).len() - n) =~= ".xtc"@);
    if chunk_key(key) {
        assert(key =~= key.take(key.len() - n) + key.skip(key.len() - n));
    }
}

/// The latest version of a chain is that of the entry appended last, and 0
/// where there is none.
pub proof fn law_latest_version_is_that_of_the_last_entry(c: Chain, e: VersionEntryView)
    ensures
        latest_version(Seq::empty()) == 0,
        latest_version(c.push(e)) == e.commit_version,
{
}

} // verus!
