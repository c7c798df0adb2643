//! Library-wide guarantees, stated and proved once.
//!
//! The lemmas here connect the three halves of the container codec:
//! appending builds blocks, serializing frames them behind markers, and
//! scanning plus parsing reads them back.  They pin down when that read
//! returns exactly what was appended, and that block starts in a
//! serialized tape stay on 8-byte boundaries.

use vstd::prelude::*;

use crate::is_marker_at;
use crate::marker;
use crate::marker_free;
use crate::scan::lemma_marker_bytes;
use crate::scan::lemma_no_overlap;
use crate::scan::lemma_positions_none;
use crate::scan::lemma_positions_skip;
use crate::scan::marker_positions;
use crate::scan::positions_from;
use crate::scan::scan_spec;
use crate::tape::ascii_block_payload;
use crate::tape::basic_block_payload;
use crate::tape::bin_block_payload;
use crate::tape::custom_block_payload;
use crate::tape::header_name;
use crate::tape::header_payload;
use crate::tape::is_header;
use crate::tape::le16;
use crate::tape::pad256;
use crate::tape::pad8;
use crate::tape::parse_files;
use crate::tape::serialize_spec;
use crate::tape::strip_fe;
use crate::tape::zeros;
use crate::tape::FileModel;
use crate::ascii::ascii_chars;
use crate::ascii::seq_is_ascii;

verus! {

/// The byte offset at which block `k` starts (its marker's first byte)
/// in the serialized image of `blocks`.
pub open spec fn block_offset(blocks: Seq<Seq<u8>>, k: int) -> int {
    serialize_spec(blocks.take(k)).len() as int
}

/// Each block adds its marker and payload to the offset of the next.
proof fn lemma_block_offset_step(blocks: Seq<Seq<u8>>, k: int)
    requires
        0 <= k < blocks.len(),
    ensures
        block_offset(blocks, k + 1) == block_offset(blocks, k) + 8 + blocks[k].len(),
{
    assert(blocks.take(k + 1) =~= blocks.take(k).push(blocks[k]));
    crate::tape::lemma_serialize_snoc(blocks.take(k), blocks[k]);
}

proof fn lemma_block_offset_aligned(blocks: Seq<Seq<u8>>, k: int)
    requires
        0 <= k <= blocks.len(),
        forall|j: int| 0 <= j < blocks.len() ==> (#[trigger] blocks[j].len()) % 8 == 0,
    ensures
        block_offset(blocks, k) % 8 == 0,
    decreases k,
{
    if k == 0 {
        assert(blocks.take(0) =~= Seq::<Seq<u8>>::empty());
    } else {
        lemma_block_offset_aligned(blocks, k - 1);
        lemma_block_offset_step(blocks, k - 1);
    }
}

/// When every payload length is a multiple of 8, every block start in
/// the serialized tape falls on an 8-byte boundary.
pub proof fn lemma_aligned_offsets(blocks: Seq<Seq<u8>>)
    requires
        forall|j: int| 0 <= j < blocks.len() ==> (#[trigger] blocks[j].len()) % 8 == 0,
    ensures
        forall|k: int| 0 <= k <= blocks.len() ==> #[trigger] block_offset(blocks, k) % 8 == 0,
{
    assert forall|k: int| 0 <= k <= blocks.len() implies #[trigger] block_offset(blocks, k) % 8
        == 0 by {
        lemma_block_offset_aligned(blocks, k);
    }
}

/// The padding the appends insert is the least that restores alignment.
pub proof fn lemma_pad8_minimal(len: int)
    requires
        len >= 0,
    ensures
        0 <= pad8(len) < 8,
        (len + pad8(len)) % 8 == 0,
{
}

/// The filler count for text entries is the least that reaches a
/// 256-byte boundary.
pub proof fn lemma_pad256_minimal(len: int)
    requires
        len >= 0,
    ensures
        0 <= pad256(len) < 256,
        (len + pad256(len)) % 256 == 0,
{
}

/// A scan finds one block per marker occurrence; an empty buffer holds
/// none and decodes to an empty file list.
pub proof fn lemma_scan_counts(s: Seq<u8>)
    ensures
        scan_spec(s).len() == marker_positions(s).len(),
        s.len() == 0 ==> scan_spec(s).len() == 0 && parse_files(scan_spec(s)) == Some(
            Seq::<FileModel>::empty(),
        ),
{
    if s.len() == 0 {
        assert(marker_positions(s) == Seq::<int>::empty());
        assert(scan_spec(s) =~= Seq::<Seq<u8>>::empty());
    }
}

/// A header payload never contains the marker: its first ten bytes are
/// the pilot byte `0xd0`, so no window of it can start with `0x1f`.
pub proof fn lemma_header_marker_free(name: Seq<u8>)
    requires
        name.len() == 6,
    ensures
        marker_free(header_payload(name)),
{
    let h = header_payload(name);
    lemma_marker_bytes();
    assert forall|q: int| !is_marker_at(h, q) by {
        if 0 <= q && q + 8 <= h.len() {
            assert(h.len() == 16);
            assert(h[q] == 0xd0);
            if h.subrange(q, q + 8) == marker() {
                assert(h[q] == h.subrange(q, q + 8)[0]);
            }
        }
    }
}

/// In `marker ++ p0 ++ marker ++ p1` with marker-free payloads, the
/// markers stand exactly at offsets 0 and `8 + p0.len()`.
proof fn lemma_two_block_markers(p0: Seq<u8>, p1: Seq<u8>)
    requires
        marker_free(p0),
        marker_free(p1),
    ensures
        ({
            let s = marker() + p0 + marker() + p1;
            let m1 = 8 + p0.len() as int;
            forall|q: int| is_marker_at(s, q) <==> (q == 0 || q == m1)
        }),
{
    let s = marker() + p0 + marker() + p1;
    let m1 = 8 + p0.len() as int;
    lemma_marker_bytes();
    assert(s.len() == 16 + p0.len() + p1.len());
    assert(s.subrange(0, 8) =~= marker());
    assert(s.subrange(m1, m1 + 8) =~= marker());
    assert forall|q: int| is_marker_at(s, q) implies (q == 0 || q == m1) by {
        if q != 0 && q != m1 {
            if q < 0 {
                assert(false);
            } else if q < 8 {
                lemma_no_overlap(s, 0, q);
            } else if q + 8 <= m1 {
                assert(p0.subrange(q - 8, q) =~= s.subrange(q, q + 8));
                assert(is_marker_at(p0, q - 8));
            } else if q < m1 {
                lemma_no_overlap(s, q, m1);
            } else if q < m1 + 8 {
                lemma_no_overlap(s, m1, q);
            } else {
                assert(p1.subrange(q - m1 - 8, q - m1) =~= s.subrange(q, q + 8));
                assert(is_marker_at(p1, q - m1 - 8));
            }
        }
    }
    assert(is_marker_at(s, 0));
    assert(is_marker_at(s, m1));
}

/// Scanning the serialized image of two marker-free payloads yields
/// exactly those two payloads.
pub proof fn lemma_scan_two(p0: Seq<u8>, p1: Seq<u8>)
    requires
        marker_free(p0),
        marker_free(p1),
    ensures
        scan_spec(serialize_spec(seq![p0, p1])) == seq![p0, p1],
{
    let s = marker() + p0 + marker() + p1;
    let m1 = 8 + p0.len() as int;
    let bl2 = seq![p0, p1];
    let one = seq![p1];
    assert(bl2[0] == p0);
    assert(one[0] == p1);
    assert(one.skip(1) =~= Seq::<Seq<u8>>::empty());
    assert(serialize_spec(Seq::<Seq<u8>>::empty()) == Seq::<u8>::empty());
    assert(serialize_spec(one) =~= marker() + p1);
    assert(bl2.skip(1) =~= one);
    assert(serialize_spec(bl2) == marker() + bl2[0] + serialize_spec(bl2.skip(1)));
    assert(serialize_spec(seq![p0, p1]) =~= s);
    lemma_two_block_markers(p0, p1);
    assert(is_marker_at(s, 0));
    assert(is_marker_at(s, m1));
    lemma_positions_skip(s, 1, m1);
    lemma_positions_none(s, m1 + 1);
    assert(positions_from(s, 0) == seq![0int] + positions_from(s, 1));
    assert(positions_from(s, m1) == seq![m1] + positions_from(s, m1 + 1));
    assert(marker_positions(s) =~= seq![0int, m1]);
    let ps = marker_positions(s);
    assert(ps.len() == 2);
    assert(ps[0] == 0 && ps[1] == m1);
    assert(scan_spec(s)[0] == s.subrange(8, m1));
    assert(scan_spec(s)[1] == s.subrange(m1 + 8, s.len() as int));
    assert(s.subrange(8, m1) =~= p0);
    assert(s.subrange(m1 + 8, s.len() as int) =~= p1);
    assert(scan_spec(s) =~= seq![p0, p1]);
    assert(scan_spec(serialize_spec(seq![p0, p1])) == scan_spec(s));
}

/// Scanning the serialized image of one marker-free payload yields
/// exactly that payload.
pub proof fn lemma_scan_one(p0: Seq<u8>)
    requires
        marker_free(p0),
    ensures
        scan_spec(serialize_spec(seq![p0])) == seq![p0],
{
    let s = marker() + p0;
    let bl1 = seq![p0];
    assert(bl1[0] == p0);
    assert(bl1.skip(1) =~= Seq::<Seq<u8>>::empty());
    assert(serialize_spec(Seq::<Seq<u8>>::empty()) == Seq::<u8>::empty());
    assert(serialize_spec(seq![p0]) =~= s);
    lemma_marker_bytes();
    assert(s.subrange(0, 8) =~= marker());
    assert(is_marker_at(s, 0));
    assert forall|q: int| is_marker_at(s, q) implies q == 0 by {
        if q != 0 {
            if q < 0 {
                assert(false);
            } else if q < 8 {
                lemma_no_overlap(s, 0, q);
            } else {
                assert(p0.subrange(q - 8, q) =~= s.subrange(q, q + 8));
                assert(is_marker_at(p0, q - 8));
            }
        }
    }
    lemma_positions_none(s, 1);
    assert(positions_from(s, 0) == seq![0int] + positions_from(s, 1));
    assert(marker_positions(s) =~= seq![0int]);
    assert(scan_spec(s)[0] == s.subrange(8, s.len() as int));
    assert(s.subrange(8, s.len() as int) =~= p0);
    assert(scan_spec(s) =~= seq![p0]);
}

/// Scanning and parsing the serialized image of one header payload and
/// one marker-free data payload of at least 6 bytes yields exactly the
/// binary entry the two payloads spell.
pub proof fn lemma_pair_round_trip(name: Seq<u8>, d: Seq<u8>)
    requires
        name.len() == 6,
        seq_is_ascii(name),
        d.len() >= 6,
        marker_free(d),
    ensures
        parse_files(scan_spec(serialize_spec(seq![header_payload(name), d]))) == Some(seq![
            crate::tape::bin_model(header_payload(name), d),
        ]),
{
    let h = header_payload(name);
    lemma_header_marker_free(name);
    lemma_scan_two(h, d);
    crate::tape::lemma_header_payload(name);
    let bl = seq![h, d];
    assert(bl[0] == h && bl[1] == d);
    assert(bl.skip(2) =~= Seq::<Seq<u8>>::empty());
    assert(parse_files(Seq::<Seq<u8>>::empty()) == Some(Seq::<FileModel>::empty()));
    assert(seq_is_ascii(header_name(h)));
    assert(parse_files(bl) == Some(seq![crate::tape::bin_model(h, d)] + Seq::<FileModel>::empty()));
    assert(seq![crate::tape::bin_model(h, d)] + Seq::<FileModel>::empty() =~= seq![
        crate::tape::bin_model(h, d),
    ]);
}

/// Round trip for a named binary entry: appending it to an empty tape,
/// serializing, scanning and parsing yields one binary file whose name
/// and addresses are the ones appended and whose bytes are the appended
/// bytes followed by the declared zero padding.
pub proof fn lemma_bin_round_trip(name: Seq<u8>, data: Seq<u8>)
    requires
        name.len() == 6,
        seq_is_ascii(name),
        strip_fe(data).len() >= 6,
        marker_free(bin_block_payload(data)),
    ensures
        ({
            let stripped = strip_fe(data);
            parse_files(scan_spec(serialize_spec(seq![
                header_payload(name),
                bin_block_payload(data),
            ]))) == Some(seq![FileModel::Bin {
                name: ascii_chars(name),
                load: le16(stripped[0], stripped[1]),
                end: le16(stripped[2], stripped[3]),
                start: le16(stripped[4], stripped[5]),
                data: stripped.skip(6) + zeros(pad8(stripped.len() as int)),
            }])
        }),
{
    let h = header_payload(name);
    let d = bin_block_payload(data);
    let stripped = strip_fe(data);
    lemma_pair_round_trip(name, d);
    let expect = FileModel::Bin {
        name: ascii_chars(name),
        load: le16(stripped[0], stripped[1]),
        end: le16(stripped[2], stripped[3]),
        start: le16(stripped[4], stripped[5]),
        data: stripped.skip(6) + zeros(pad8(stripped.len() as int)),
    };
    assert(d[0] == stripped[0] && d[1] == stripped[1] && d[2] == stripped[2] && d[3] == stripped[3]
        && d[4] == stripped[4] && d[5] == stripped[5]);
    assert(d.skip(6) =~= stripped.skip(6) + zeros(pad8(stripped.len() as int)));
    assert(crate::tape::bin_model(h, d) =~~= expect);
    assert(seq![crate::tape::bin_model(h, d)] =~~= seq![expect]);
}

/// What survives a round trip of a tokenized-program append: the entry
/// comes back alone, under its name, with its padded bytes intact --
/// but read as a binary entry, since the container records no entry
/// kind next to the name.
pub proof fn lemma_basic_round_trip(name: Seq<u8>, data: Seq<u8>)
    requires
        name.len() == 6,
        seq_is_ascii(name),
        data.len() > 0,
        marker_free(basic_block_payload(data)),
    ensures
        parse_files(scan_spec(serialize_spec(seq![
            header_payload(name),
            basic_block_payload(data),
        ]))) == Some(seq![
            crate::tape::bin_model(header_payload(name), basic_block_payload(data)),
        ]),
{
    crate::laws::lemma_pad8_minimal(data.len() as int);
    lemma_pair_round_trip(name, basic_block_payload(data));
}

/// What survives a round trip of a text append: the entry comes back
/// alone, under its name, with its EOF-filled bytes intact -- but read
/// as a binary entry, since the container records no entry kind next
/// to the name.
pub proof fn lemma_ascii_round_trip(name: Seq<u8>, data: Seq<u8>)
    requires
        name.len() == 6,
        seq_is_ascii(name),
        data.len() > 0,
        marker_free(ascii_block_payload(data)),
    ensures
        parse_files(scan_spec(serialize_spec(seq![
            header_payload(name),
            ascii_block_payload(data),
        ]))) == Some(seq![
            crate::tape::bin_model(header_payload(name), ascii_block_payload(data)),
        ]),
{
    lemma_pad256_minimal(data.len() as int);
    lemma_pair_round_trip(name, ascii_block_payload(data));
}

/// Round trip for an opaque entry: appending it to an empty tape,
/// serializing, scanning and parsing yields one opaque file holding the
/// appended bytes followed by the declared zero padding, provided the
/// padded bytes do not themselves spell a header block.
pub proof fn lemma_custom_round_trip(data: Seq<u8>)
    requires
        marker_free(custom_block_payload(data)),
        !is_header(custom_block_payload(data)),
    ensures
        parse_files(scan_spec(serialize_spec(seq![custom_block_payload(data)]))) == Some(seq![
            FileModel::Custom { data: data + zeros(pad8(data.len() as int)) },
        ]),
{
    let c = custom_block_payload(data);
    lemma_scan_one(c);
    let bl = seq![c];
    assert(bl[0] == c);
    assert(bl.skip(1) =~= Seq::<Seq<u8>>::empty());
    assert(parse_files(Seq::<Seq<u8>>::empty()) == Some(Seq::<FileModel>::empty()));
    assert(parse_files(bl) == Some(
        seq![FileModel::Custom { data: c }] + Seq::<FileModel>::empty(),
    ));
    assert(seq![FileModel::Custom { data: c }] + Seq::<FileModel>::empty() =~~= seq![
        FileModel::Custom { data: data + zeros(pad8(data.len() as int)) },
    ]);
}

} // verus!
