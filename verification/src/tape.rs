//! The cassette container: blocks, tapes, and typed files.
//!
//! A tape image is a byte buffer in which every block is introduced by
//! the 8-byte synchronization marker; a block's payload runs from just
//! past its marker to the next marker (or to the end of the buffer).
//! A payload that starts with ten `0xd0` pilot bytes and a 6-byte name
//! is a header block; a header and the block after it form one named
//! binary entry, and every other block is an opaque entry of its own.

use vstd::prelude::*;
use vstd::slice::slice_subrange;
use vstd::slice::slice_to_vec;

use crate::ascii::ascii_chars;
use crate::ascii::ascii_to_string;
use crate::ascii::is_ascii_bytes;
use crate::ascii::seq_is_ascii;
use crate::is_marker_at;
use crate::marker;
use crate::scan::lemma_no_overlap;
use crate::scan::lemma_positions_are_markers;
use crate::scan::lemma_positions_sorted;
use crate::scan::marker_positions;
use crate::scan::positions_from;
use crate::scan::scan_spec;

verus! {

/// One block payload: the bytes carved between two markers.
#[derive(Debug)]
pub struct Block {
    data: Vec<u8>,
}

impl View for Block {
    type V = Seq<u8>;

    closed spec fn view(&self) -> Seq<u8> {
        self.data@
    }
}

/// True iff a payload opens a named entry: ten pilot bytes `0xd0`
/// followed by a 6-byte name field.
pub open spec fn is_header(b: Seq<u8>) -> bool {
    b.len() >= 16 && (forall|i: int| 0 <= i < 10 ==> b[i] == 0xd0u8)
}

/// The 6-byte name field of a header payload.
pub open spec fn header_name(b: Seq<u8>) -> Seq<u8> {
    b.subrange(10, 16)
}

impl Block {
    /// The block's payload bytes.
    pub fn data(&self) -> (r: &Vec<u8>)
        ensures
            r@ == self@,
    {
        &self.data
    }

    /// True iff this block is the header of a named binary entry.
    pub fn is_bin_header(&self) -> (r: bool)
        ensures
            r == is_header(self@),
    {
        if self.data.len() < 16 {
            return false;
        }
        for i in 0..10
            invariant
                self.data@.len() >= 16,
                forall|j: int| 0 <= j < i ==> self.data@[j] == 0xd0u8,
        {
            if self.data[i] != 0xd0 {
                return false;
            }
        }
        true
    }

    /// The entry name a header block declares, when its 6 name bytes are
    /// ASCII text; `None` for data and opaque blocks.
    pub fn file_name(&self) -> (r: Option<String>)
        ensures
            match r {
                Some(s) => is_header(self@) && seq_is_ascii(header_name(self@)) && s@
                    == ascii_chars(header_name(self@)),
                None => !is_header(self@) || !seq_is_ascii(header_name(self@)),
            },
    {
        if self.is_bin_header() {
            let name = slice_subrange(self.data.as_slice(), 10, 16);
            if is_ascii_bytes(name) {
                Some(ascii_to_string(name))
            } else {
                None
            }
        } else {
            None
        }
    }
}

/// True iff the marker occurs in `bytes` at offset `i`.
fn marker_at(bytes: &[u8], i: usize) -> (r: bool)
    requires
        i + 8 <= bytes@.len(),
    ensures
        r == is_marker_at(bytes@, i as int),
{
    let r = bytes[i] == 0x1f && bytes[i + 1] == 0xa6 && bytes[i + 2] == 0xde && bytes[i + 3]
        == 0xba && bytes[i + 4] == 0xcc && bytes[i + 5] == 0x13 && bytes[i + 6] == 0x7d && bytes[i
        + 7] == 0x74;
    proof {
        let s = bytes@.subrange(i as int, i as int + 8);
        if r {
            assert(s =~= marker());
        } else {
            if s == marker() {
                assert(bytes@[i as int] == s[0]);
                assert(bytes@[i + 1] == s[1]);
                assert(bytes@[i + 2] == s[2]);
                assert(bytes@[i + 3] == s[3]);
                assert(bytes@[i + 4] == s[4]);
                assert(bytes@[i + 5] == s[5]);
                assert(bytes@[i + 6] == s[6]);
                assert(bytes@[i + 7] == s[7]);
            }
        }
    }
    r
}

/// Collect the offsets of every marker occurrence, in order.
fn find_markers(bytes: &[u8]) -> (hindex: Vec<usize>)
    ensures
        hindex@.map_values(|u: usize| u as int) == marker_positions(bytes@),
{
    let s = Ghost(bytes@);
    let mut hindex: Vec<usize> = Vec::new();
    let n_bytes = bytes.len();
    if n_bytes >= 8 {
        let last = n_bytes - 8;
        let mut i: usize = 0;
        while i <= last
            invariant
                s@ == bytes@,
                n_bytes == bytes@.len(),
                n_bytes >= 8,
                last == n_bytes - 8,
                i <= last + 1,
                marker_positions(s@) == hindex@.map_values(|u: usize| u as int) + positions_from(
                    s@,
                    i as int,
                ),
            decreases last + 1 - i,
        {
            if marker_at(bytes, i) {
                let ghost old_map = hindex@.map_values(|u: usize| u as int);
                hindex.push(i);
                proof {
                    assert(hindex@.map_values(|u: usize| u as int) =~= old_map + seq![i as int]);
                    assert(positions_from(s@, i as int) == seq![i as int] + positions_from(
                        s@,
                        i as int + 1,
                    ));
                    assert(marker_positions(s@) =~= hindex@.map_values(|u: usize| u as int)
                        + positions_from(s@, i as int + 1));
                }
            }
            i = i + 1;
        }
        proof {
            assert(positions_from(s@, i as int) == Seq::<int>::empty());
        }
    } else {
        proof {
            assert(positions_from(s@, 0) == Seq::<int>::empty());
        }
    }
    proof {
        assert(marker_positions(s@) =~= hindex@.map_values(|u: usize| u as int));
    }
    hindex
}

/// Split a raw buffer into the payloads its markers delimit.
#[verifier::rlimit(50)]
pub(crate) fn parse_blocks(bytes: &[u8]) -> (blocks: Vec<Block>)
    ensures
        blocks@.map_values(|b: Block| b@) == scan_spec(bytes@),
        blocks@.len() == marker_positions(bytes@).len(),
{
    let s = Ghost(bytes@);
    let hindex = find_markers(bytes);
    let ghost ps = marker_positions(s@);
    proof {
        lemma_positions_are_markers(s@, 0);
        lemma_positions_sorted(s@, 0);
    }
    let n_bytes = bytes.len();
    let n = hindex.len();
    let mut blocks: Vec<Block> = Vec::new();
    let mut j: usize = 0;
    while j < n
        invariant
            s@ == bytes@,
            n_bytes == bytes@.len(),
            n == hindex@.len(),
            j <= n,
            ps == marker_positions(s@),
            ps == hindex@.map_values(|u: usize| u as int),
            forall|k: int| 0 <= k < n ==> is_marker_at(s@, #[trigger] ps[k]),
            forall|k: int| 0 <= k && k + 1 < n ==> #[trigger] ps[k] < ps[k + 1],
            blocks@.len() == j,
            forall|k: int| 0 <= k < j ==> #[trigger] blocks@[k]@ == scan_spec(s@)[k],
        decreases n - j,
    {
        proof {
            assert(ps[j as int] == hindex@[j as int] as int);
            assert(is_marker_at(s@, ps[j as int]));
            assert(hindex@[j as int] + 8 <= s@.len());
            if j + 1 < n {
                assert(ps[j + 1] == hindex@[j + 1] as int);
                lemma_no_overlap(s@, ps[j as int], ps[j + 1]);
            }
        }
        let from = hindex[j] + 8;
        let to = if j == n - 1 {
            n_bytes
        } else {
            hindex[j + 1]
        };
        let piece = slice_subrange(bytes, from, to);
        blocks.push(Block { data: slice_to_vec(piece) });
        proof {
            assert(scan_spec(s@).len() == ps.len());
            assert(scan_spec(s@)[j as int] == s@.subrange(
                ps[j as int] + 8,
                if j as int == ps.len() - 1 {
                    s@.len() as int
                } else {
                    ps[j as int + 1]
                },
            ));
            assert(blocks@[j as int]@ == scan_spec(s@)[j as int]);
        }
        j = j + 1;
    }
    proof {
        assert(blocks@.map_values(|b: Block| b@) =~= scan_spec(s@));
    }
    blocks
}

/// The value of two little-endian bytes.
pub open spec fn le16(lo: u8, hi: u8) -> int {
    lo + 256 * hi
}

/// The logical content of one tape entry.
#[verifier::ext_equal]
pub ghost enum FileModel {
    Bin { name: Seq<char>, load: int, end: int, start: int, data: Seq<u8> },
    Basic { name: Seq<char>, data: Seq<u8> },
    Ascii { name: Seq<char>, chunks: Seq<Seq<u8>> },
    Custom { data: Seq<u8> },
}

/// The named binary entry a header payload and its data payload spell:
/// the data payload opens with three little-endian 16-bit addresses and
/// carries the entry bytes after them.
pub open spec fn bin_model(h: Seq<u8>, d: Seq<u8>) -> FileModel {
    FileModel::Bin {
        name: ascii_chars(header_name(h)),
        load: le16(d[0], d[1]),
        end: le16(d[2], d[3]),
        start: le16(d[4], d[5]),
        data: d.skip(6),
    }
}

/// Interpret a block sequence as typed files: a header block consumes
/// the block after it and yields a named binary entry; any other block
/// yields an opaque entry.  `None` when a header lacks its data block,
/// the data block cannot hold the three address fields, or the name
/// bytes are not ASCII text.
pub open spec fn parse_files(blocks: Seq<Seq<u8>>) -> Option<Seq<FileModel>>
    decreases blocks.len(),
{
    if blocks.len() == 0 {
        Some(Seq::empty())
    } else if is_header(blocks[0]) {
        if blocks.len() >= 2 && blocks[1].len() >= 6 && seq_is_ascii(header_name(blocks[0])) {
            match parse_files(blocks.skip(2)) {
                Some(rest) => Some(seq![bin_model(blocks[0], blocks[1])] + rest),
                None => None,
            }
        } else {
            None
        }
    } else {
        match parse_files(blocks.skip(1)) {
            Some(rest) => Some(seq![FileModel::Custom { data: blocks[0] }] + rest),
            None => None,
        }
    }
}

/// Parsing a well-formed prefix consumes exactly its own blocks: the
/// suffix parses independently and the file lists concatenate.
pub proof fn lemma_parse_compose(s: Seq<Seq<u8>>, t: Seq<Seq<u8>>)
    requires
        parse_files(s) is Some,
    ensures
        parse_files(s + t) is Some <==> parse_files(t) is Some,
        parse_files(t) is Some ==> parse_files(s + t) == Some(
            parse_files(s).unwrap() + parse_files(t).unwrap(),
        ),
    decreases s.len(),
{
    if s.len() == 0 {
        assert(s + t =~= t);
        if parse_files(t) is Some {
            assert(parse_files(s).unwrap() + parse_files(t).unwrap() =~= parse_files(t).unwrap());
        }
    } else if is_header(s[0]) {
        assert((s + t)[0] == s[0]);
        assert((s + t)[1] == s[1]);
        assert((s + t).skip(2) =~= s.skip(2) + t);
        lemma_parse_compose(s.skip(2), t);
        if parse_files(t) is Some {
            assert(seq![bin_model(s[0], s[1])] + (parse_files(s.skip(2)).unwrap() + parse_files(
                t,
            ).unwrap()) =~= (seq![bin_model(s[0], s[1])] + parse_files(s.skip(2)).unwrap())
                + parse_files(t).unwrap());
        }
    } else {
        assert((s + t)[0] == s[0]);
        assert((s + t).skip(1) =~= s.skip(1) + t);
        lemma_parse_compose(s.skip(1), t);
        if parse_files(t) is Some {
            assert(seq![FileModel::Custom { data: s[0] }] + (parse_files(s.skip(1)).unwrap()
                + parse_files(t).unwrap()) =~= (seq![FileModel::Custom { data: s[0] }]
                + parse_files(s.skip(1)).unwrap()) + parse_files(t).unwrap());
        }
    }
}

/// A decode error: the buffer's framing does not describe a file list.
#[derive(Debug, PartialEq, Eq)]
pub enum LoadError {
    MalformedContainer,
}

/// An append error: the entry cannot be represented in the container.
#[derive(Debug, PartialEq, Eq)]
pub enum CodecError {
    InvalidName,
}

/// An ordered sequence of blocks.
#[derive(Debug)]
pub struct Tape {
    blocks: Vec<Block>,
}

impl View for Tape {
    type V = Seq<Seq<u8>>;

    closed spec fn view(&self) -> Seq<Seq<u8>> {
        self.blocks@.map_values(|b: Block| b@)
    }
}

/// The byte image of a block sequence: each payload behind its marker.
pub open spec fn serialize_spec(blocks: Seq<Seq<u8>>) -> Seq<u8>
    decreases blocks.len(),
{
    if blocks.len() == 0 {
        Seq::empty()
    } else {
        marker() + blocks[0] + serialize_spec(blocks.skip(1))
    }
}

/// Serialization appends block by block.
pub proof fn lemma_serialize_snoc(s: Seq<Seq<u8>>, b: Seq<u8>)
    ensures
        serialize_spec(s.push(b)) == serialize_spec(s) + marker() + b,
    decreases s.len(),
{
    if s.len() == 0 {
        assert(s.push(b).skip(1) =~= Seq::<Seq<u8>>::empty());
        assert(s.push(b)[0] == b);
        assert(serialize_spec(s.push(b)) == marker() + b + serialize_spec(
            Seq::<Seq<u8>>::empty(),
        ));
        assert(marker() + b + serialize_spec(Seq::<Seq<u8>>::empty()) =~= serialize_spec(s)
            + marker() + b);
    } else {
        assert(s.push(b)[0] == s[0]);
        assert(s.push(b).skip(1) =~= s.skip(1).push(b));
        lemma_serialize_snoc(s.skip(1), b);
        assert(marker() + s[0] + (serialize_spec(s.skip(1)) + marker() + b) =~= (marker() + s[0]
            + serialize_spec(s.skip(1))) + marker() + b);
    }
}

impl Tape {
    /// True iff the blocks describe a file list.
    pub open spec fn well_formed(&self) -> bool {
        parse_files(self@) is Some
    }

    /// A tape with no blocks.
    pub fn new() -> (t: Tape)
        ensures
            t@ == Seq::<Seq<u8>>::empty(),
            t.well_formed(),
    {
        let t = Tape { blocks: Vec::new() };
        proof {
            assert(t@ =~= Seq::<Seq<u8>>::empty());
        }
        t
    }

    /// The tape's blocks, in order.
    pub fn blocks(&self) -> (r: &Vec<Block>)
        ensures
            r@.map_values(|b: Block| b@) == self@,
    {
        &self.blocks
    }

    /// Decode a raw buffer: scan it into blocks and reject it unless the
    /// blocks describe a file list.
    pub fn from_bytes(bytes: &[u8]) -> (r: Result<Tape, LoadError>)
        ensures
            match r {
                Ok(t) => t@ == scan_spec(bytes@) && t.well_formed(),
                Err(e) => parse_files(scan_spec(bytes@)) is None && e
                    == LoadError::MalformedContainer,
            },
    {
        let blocks = parse_blocks(bytes);
        let ghost bv = blocks@.map_values(|b: Block| b@);
        let n = blocks.len();
        let mut i: usize = 0;
        let mut ok = true;
        proof {
            assert(bv.skip(0) =~= bv);
        }
        while ok && i < n
            invariant
                n == blocks@.len(),
                bv == blocks@.map_values(|b: Block| b@),
                i <= n,
                ok ==> (parse_files(bv) is Some <==> parse_files(bv.skip(i as int)) is Some),
                !ok ==> parse_files(bv) is None,
            decreases n - i + (if ok { 1int } else { 0int }),
        {
            proof {
                assert(bv.skip(i as int)[0] == bv[i as int]);
                assert(bv[i as int] == blocks@[i as int]@);
            }
            let good: bool;
            let step: usize;
            if blocks[i].is_bin_header() {
                if i + 1 < n {
                    proof {
                        assert(bv.skip(i as int)[1] == bv[i + 1]);
                        assert(bv[i + 1] == blocks@[i + 1]@);
                    }
                    let name = slice_subrange(blocks[i].data.as_slice(), 10, 16);
                    proof {
                        assert(name@ =~= header_name(bv[i as int]));
                    }
                    if blocks[i + 1].data.len() >= 6 && is_ascii_bytes(name) {
                        proof {
                            assert(bv.skip(i as int).skip(2) =~= bv.skip(i + 2));
                        }
                        good = true;
                        step = 2;
                    } else {
                        good = false;
                        step = 0;
                    }
                } else {
                    proof {
                        assert(bv.skip(i as int).len() < 2);
                    }
                    good = false;
                    step = 0;
                }
            } else {
                proof {
                    assert(bv.skip(i as int).skip(1) =~= bv.skip(i + 1));
                }
                good = true;
                step = 1;
            }
            if good {
                i = i + step;
            } else {
                ok = false;
            }
        }
        if ok {
            proof {
                assert(bv.skip(n as int) =~= Seq::<Seq<u8>>::empty());
            }
            Ok(Tape { blocks })
        } else {
            Err(LoadError::MalformedContainer)
        }
    }

    /// Re-serialize the tape: every payload behind its own marker.
    pub fn serialize(&self) -> (out: Vec<u8>)
        ensures
            out@ == serialize_spec(self@),
    {
        let mut out: Vec<u8> = Vec::new();
        let n = self.blocks.len();
        for j in 0..n
            invariant
                n == self.blocks@.len(),
                out@ == serialize_spec(self@.take(j as int)),
        {
            let ghost before = out@;
            out.push(0x1f);
            out.push(0xa6);
            out.push(0xde);
            out.push(0xba);
            out.push(0xcc);
            out.push(0x13);
            out.push(0x7d);
            out.push(0x74);
            proof {
                assert(out@ =~= before + marker());
            }
            out.extend_from_slice(self.blocks[j].data.as_slice());
            proof {
                assert(self@[j as int] == self.blocks@[j as int]@);
                lemma_serialize_snoc(self@.take(j as int), self@[j as int]);
                assert(self@.take(j + 1) =~= self@.take(j as int).push(self@[j as int]));
                assert(out@ =~= serialize_spec(self@.take(j + 1)));
            }
        }
        proof {
            assert(self@.take(n as int) =~= self@);
        }
        out
    }
}

/// The low byte of a character's code point.
pub open spec fn char_byte(c: char) -> u8 {
    (c as u32) as u8
}

/// A 6-byte entry name: the stem's leading characters, space-padded.
pub open spec fn name_bytes(stem: Seq<char>) -> Seq<u8> {
    Seq::new(
        6,
        |i: int|
            if i < stem.len() {
                char_byte(stem[i])
            } else {
                0x20u8
            },
    )
}

/// One byte of the 6-byte entry name for `stem`.
fn name_byte(stem: &str, k: usize, n: usize) -> (b: u8)
    requires
        n == stem@.len(),
        k < 6,
    ensures
        b == name_bytes(stem@)[k as int],
{
    if k < n {
        let c = stem.get_char(k);
        (c as u32) as u8
    } else {
        0x20
    }
}

/// Shape a file-name stem into the container's 6-byte name field:
/// space-padded on the right when shorter, cut to its first 6
/// characters when longer.  The flag reports the cut.
pub fn file_name(stem: &str) -> (r: ([u8; 6], bool))
    ensures
        r.0@ == name_bytes(stem@),
        r.1 == (stem@.len() > 6),
{
    let n = stem.unicode_len();
    let arr: [u8; 6] = [
        name_byte(stem, 0, n),
        name_byte(stem, 1, n),
        name_byte(stem, 2, n),
        name_byte(stem, 3, n),
        name_byte(stem, 4, n),
        name_byte(stem, 5, n),
    ];
    proof {
        assert(arr@ =~= name_bytes(stem@));
    }
    (arr, n > 6)
}

/// The offset of the first EOF filler byte `0x1a` in `c`, or `c`'s
/// length when none occurs.
pub open spec fn eof_pos(c: Seq<u8>) -> int
    decreases c.len(),
{
    if c.len() == 0 {
        0
    } else if c[0] == 0x1a {
        0
    } else {
        1 + eof_pos(c.skip(1))
    }
}

/// What `eof_pos` points at: no filler before it, a filler at it
/// unless the sequence holds none.
pub proof fn lemma_eof_pos(c: Seq<u8>)
    ensures
        0 <= eof_pos(c) <= c.len(),
        forall|k: int| 0 <= k < eof_pos(c) ==> c[k] != 0x1a,
        eof_pos(c) < c.len() ==> c[eof_pos(c)] == 0x1a,
    decreases c.len(),
{
    if c.len() == 0 {
    } else if c[0] == 0x1a {
    } else {
        lemma_eof_pos(c.skip(1));
        assert(forall|k: int| 0 <= k < eof_pos(c.skip(1)) ==> c.skip(1)[k] != 0x1a);
        assert forall|k: int| 0 <= k < eof_pos(c) implies c[k] != 0x1a by {
            if k > 0 {
                assert(c.skip(1)[k - 1] != 0x1a);
            }
        }
    }
}

/// The text of an ASCII entry: each chunk up to its first EOF filler.
pub open spec fn chunks_text(chunks: Seq<Seq<u8>>) -> Seq<u8>
    decreases chunks.len(),
{
    if chunks.len() == 0 {
        Seq::empty()
    } else {
        chunks[0].take(eof_pos(chunks[0])) + chunks_text(chunks.skip(1))
    }
}

/// Chunk text accumulates chunk by chunk.
pub proof fn lemma_chunks_text_snoc(s: Seq<Seq<u8>>, c: Seq<u8>)
    ensures
        chunks_text(s.push(c)) == chunks_text(s) + c.take(eof_pos(c)),
    decreases s.len(),
{
    if s.len() == 0 {
        assert(s.push(c).skip(1) =~= Seq::<Seq<u8>>::empty());
        assert(s.push(c)[0] == c);
        assert(c.take(eof_pos(c)) + chunks_text(Seq::<Seq<u8>>::empty()) =~= chunks_text(s)
            + c.take(eof_pos(c)));
    } else {
        assert(s.push(c)[0] == s[0]);
        assert(s.push(c).skip(1) =~= s.skip(1).push(c));
        lemma_chunks_text_snoc(s.skip(1), c);
        assert(s[0].take(eof_pos(s[0])) + (chunks_text(s.skip(1)) + c.take(eof_pos(c))) =~= (
        s[0].take(eof_pos(s[0])) + chunks_text(s.skip(1))) + c.take(eof_pos(c)));
    }
}

/// The bytes written out when an entry is extracted from the tape: a
/// binary entry regains the `0xfe` kind byte the container drops, an
/// ASCII entry sheds its EOF filler, the rest pass through unchanged.
pub open spec fn extract_spec(f: FileModel) -> Seq<u8> {
    match f {
        FileModel::Bin { data, .. } => seq![0xfeu8] + data,
        FileModel::Basic { data, .. } => data,
        FileModel::Ascii { chunks, .. } => chunks_text(chunks),
        FileModel::Custom { data } => data,
    }
}

/// One entry of a tape.
#[derive(Debug, PartialEq)]
pub enum File {
    /// A named binary program: name, load, end and start addresses,
    /// and the program bytes.
    Bin(String, usize, usize, usize, Vec<u8>),
    /// A named tokenized program.
    Basic(String, Vec<u8>),
    /// A named text entry, split into chunks padded with EOF fillers.
    Ascii(String, Vec<Vec<u8>>),
    /// An opaque entry, preserved byte for byte.
    Custom(Vec<u8>),
}

impl View for File {
    type V = FileModel;

    open spec fn view(&self) -> FileModel {
        match self {
            File::Bin(name, load, end, start, data) => FileModel::Bin {
                name: name@,
                load: *load as int,
                end: *end as int,
                start: *start as int,
                data: data@,
            },
            File::Basic(name, data) => FileModel::Basic { name: name@, data: data@ },
            File::Ascii(name, chunks) => FileModel::Ascii {
                name: name@,
                chunks: chunks@.map_values(|c: Vec<u8>| c@),
            },
            File::Custom(data) => FileModel::Custom { data: data@ },
        }
    }
}

impl File {
    /// The entry's name; opaque entries have none.
    pub fn name(&self) -> (r: Option<String>)
        ensures
            match self {
                File::Bin(n, _, _, _, _) => r matches Some(s) && s@ == n@,
                File::Basic(n, _) => r matches Some(s) && s@ == n@,
                File::Ascii(n, _) => r matches Some(s) && s@ == n@,
                File::Custom(_) => r is None,
            },
    {
        match self {
            File::Bin(n, _, _, _, _) => Some(n.clone()),
            File::Basic(n, _) => Some(n.clone()),
            File::Ascii(n, _) => Some(n.clone()),
            File::Custom(_) => None,
        }
    }

        /// The offset of the first EOF filler in `chunk`, or its length
    /// when it holds none.
    fn find_eof(chunk: &Vec<u8>) -> (p: usize)
        ensures
            p == eof_pos(chunk@),
    {
        let m = chunk.len();
        let mut k: usize = 0;
        while k < m
            invariant
                m == chunk@.len(),
                k <= m,
                forall|t: int| 0 <= t < k ==> chunk@[t] != 0x1a,
            decreases m - k,
        {
            if chunk[k] == 0x1a {
                proof {
                    lemma_eof_pos(chunk@);
                }
                return k;
            }
            k = k + 1;
        }
        proof {
            lemma_eof_pos(chunk@);
        }
        m
    }

    /// The bytes this entry stands for outside the container.
    pub fn extract_bytes(&self) -> (out: Vec<u8>)
        ensures
            out@ == extract_spec(self@),
    {
        let mut out: Vec<u8> = Vec::new();
        match self {
            File::Bin(_, _, _, _, data) => {
                out.push(0xfe);
                out.extend_from_slice(data.as_slice());
                proof {
                    assert(out@ =~= extract_spec(self@));
                }
            },
            File::Basic(_, data) => {
                out.extend_from_slice(data.as_slice());
                proof {
                    assert(out@ =~= extract_spec(self@));
                }
            },
            File::Ascii(_, chunks) => {
                let ghost cm = chunks@.map_values(|c: Vec<u8>| c@);
                let n = chunks.len();
                for i in 0..n
                    invariant
                        n == chunks@.len(),
                        cm == chunks@.map_values(|c: Vec<u8>| c@),
                        out@ == chunks_text(cm.take(i as int)),
                {
                    let chunk = &chunks[i];
                    let p = Self::find_eof(chunk);
                    proof {
                        lemma_eof_pos(chunk@);
                    }
                    out.extend_from_slice(slice_subrange(chunk.as_slice(), 0, p));
                    proof {
                        assert(cm[i as int] == chunk@);
                        assert(chunk@.subrange(0, p as int) =~= chunk@.take(eof_pos(chunk@)));
                        lemma_chunks_text_snoc(cm.take(i as int), cm[i as int]);
                        assert(cm.take(i + 1) =~= cm.take(i as int).push(cm[i as int]));
                    }
                }
                proof {
                    assert(cm.take(n as int) =~= cm);
                }
            },
            File::Custom(data) => {
                out.extend_from_slice(data.as_slice());
                proof {
                    assert(out@ =~= extract_spec(self@));
                }
            },
        }
        out
    }
}

/// The entries of a tape, handed out front to back.
pub struct Files {
    rev: Vec<File>,
}

impl Files {
    /// The entries not yet handed out, in order.
    pub closed spec fn remaining(&self) -> Seq<FileModel> {
        self.rev@.map_values(|f: File| f@).reverse()
    }

    /// Hand out the next entry, or `None` when all are out.
    pub fn next(&mut self) -> (r: Option<File>)
        ensures
            old(self).remaining().len() == 0 ==> r is None && final(self).remaining() == old(
                self,
            ).remaining(),
            old(self).remaining().len() > 0 ==> (r matches Some(f) && f@ == old(
                self,
            ).remaining()[0] && final(self).remaining() == old(self).remaining().skip(1)),
    {
        let r = self.rev.pop();
        proof {
            let m = old(self).rev@.map_values(|f: File| f@);
            if m.len() > 0 {
                assert(self.rev@ == old(self).rev@.drop_last());
                assert(self.rev@.map_values(|f: File| f@) =~= m.drop_last());
                assert(m.drop_last().reverse() =~= m.reverse().skip(1));
            }
        }
        r
    }
}

impl Tape {
    /// Decode the tape's blocks into its entries.
    pub fn files(&self) -> (fs: Files)
        requires
            self.well_formed(),
        ensures
            fs.remaining() == parse_files(self@).unwrap(),
    {
        let ghost bv = self@;
        let n = self.blocks.len();
        let mut out: Vec<File> = Vec::new();
        let mut i: usize = 0;
        proof {
            assert(bv.skip(0) =~= bv);
        }
        while i < n
            invariant
                self.well_formed(),
                bv == self@,
                n == self.blocks@.len(),
                i <= n,
                parse_files(bv.skip(i as int)) is Some,
                out@.map_values(|f: File| f@) + parse_files(bv.skip(i as int)).unwrap()
                    == parse_files(bv).unwrap(),
            decreases n - i,
        {
            proof {
                assert(bv.skip(i as int)[0] == bv[i as int]);
                assert(bv[i as int] == self.blocks@[i as int]@);
            }
            if self.blocks[i].is_bin_header() {
                proof {
                    assert(bv.skip(i as int).len() >= 2);
                    assert(bv.skip(i as int)[1] == bv[i + 1]);
                    assert(bv[i + 1] == self.blocks@[i + 1]@);
                    assert(bv.skip(i as int).skip(2) =~= bv.skip(i + 2));
                }
                let name_bytes_slice = slice_subrange(self.blocks[i].data.as_slice(), 10, 16);
                proof {
                    assert(name_bytes_slice@ =~= header_name(bv[i as int]));
                }
                let name = ascii_to_string(name_bytes_slice);
                let content = &self.blocks[i + 1].data;
                let load = le16_value(content[0], content[1]);
                let end = le16_value(content[2], content[3]);
                let start = le16_value(content[4], content[5]);
                let data = slice_to_vec(slice_subrange(content.as_slice(), 6, content.len()));
                let ghost before = out@.map_values(|f: File| f@);
                out.push(File::Bin(name, load, end, start, data));
                proof {
                    assert(data@ =~= bv[i + 1].skip(6));
                    assert(out@.map_values(|f: File| f@) =~= before.push(
                        bin_model(bv[i as int], bv[i + 1]),
                    ));
                    assert(before.push(bin_model(bv[i as int], bv[i + 1])) + parse_files(
                        bv.skip(i + 2),
                    ).unwrap() =~= before + (seq![bin_model(bv[i as int], bv[i + 1])] + parse_files(
                        bv.skip(i + 2),
                    ).unwrap()));
                }
                i = i + 2;
            } else {
                proof {
                    assert(bv.skip(i as int).skip(1) =~= bv.skip(i + 1));
                }
                let data = slice_to_vec(self.blocks[i].data.as_slice());
                let ghost before = out@.map_values(|f: File| f@);
                out.push(File::Custom(data));
                proof {
                    assert(out@.map_values(|f: File| f@) =~= before.push(
                        FileModel::Custom { data: bv[i as int] },
                    ));
                    assert(before.push(FileModel::Custom { data: bv[i as int] }) + parse_files(
                        bv.skip(i + 1),
                    ).unwrap() =~= before + (seq![FileModel::Custom { data: bv[i as int] }]
                        + parse_files(bv.skip(i + 1)).unwrap()));
                }
                i = i + 1;
            }
        }
        proof {
            assert(bv.skip(n as int) =~= Seq::<Seq<u8>>::empty());
            assert(out@.map_values(|f: File| f@) =~= parse_files(bv).unwrap());
        }
        let mut rev: Vec<File> = Vec::new();
        let ghost full = out@.map_values(|f: File| f@);
        while out.len() > 0
            invariant
                out@.map_values(|f: File| f@) + rev@.map_values(|f: File| f@).reverse() == full,
            decreases out@.len(),
        {
            let ghost before_out = out@.map_values(|f: File| f@);
            let ghost before_rev = rev@.map_values(|f: File| f@);
            let f = out.pop().unwrap();
            rev.push(f);
            proof {
                assert(out@.map_values(|g: File| g@) =~= before_out.drop_last());
                assert(rev@.map_values(|g: File| g@) =~= before_rev.push(before_out.last()));
                assert(before_rev.push(before_out.last()).reverse() =~= seq![before_out.last()]
                    + before_rev.reverse());
                assert(before_out.drop_last() + (seq![before_out.last()] + before_rev.reverse())
                    =~= before_out + before_rev.reverse());
            }
        }
        let fs = Files { rev };
        proof {
            assert(out@.map_values(|f: File| f@) =~= Seq::<FileModel>::empty());
            assert(fs.remaining() =~= full);
        }
        fs
    }
}

/// The ten pilot bytes that open a header payload.
pub open spec fn ten_pilot() -> Seq<u8> {
    Seq::new(10, |i: int| 0xd0u8)
}

/// The header payload for an entry name: pilot bytes, then the name.
pub open spec fn header_payload(name: Seq<u8>) -> Seq<u8> {
    ten_pilot() + name
}

/// `n` zero bytes.
pub open spec fn zeros(n: int) -> Seq<u8> {
    Seq::new(n as nat, |i: int| 0u8)
}

/// `n` EOF filler bytes.
pub open spec fn eof_fillers(n: int) -> Seq<u8> {
    Seq::new(n as nat, |i: int| 0x1au8)
}

/// The zero bytes needed to carry `len` to the next 8-byte boundary.
pub open spec fn pad8(len: int) -> int {
    if len % 8 == 0 {
        0
    } else {
        8 - len % 8
    }
}

/// The filler bytes needed to carry `len` to the next 256-byte boundary.
pub open spec fn pad256(len: int) -> int {
    if len % 256 == 0 {
        0
    } else {
        256 - len % 256
    }
}

/// A binary entry's bytes without the foreign `0xfe` kind byte, which
/// marks a binary file outside the container and is not stored in it.
pub open spec fn strip_fe(d: Seq<u8>) -> Seq<u8> {
    if d.len() > 0 && d[0] == 0xfe {
        d.skip(1)
    } else {
        d
    }
}

/// The data payload a binary append builds: the stripped bytes, zero-
/// padded to an 8-byte boundary.
pub open spec fn bin_block_payload(d: Seq<u8>) -> Seq<u8> {
    strip_fe(d) + zeros(pad8(strip_fe(d).len() as int))
}

/// The data payload a tokenized-program append builds.
pub open spec fn basic_block_payload(d: Seq<u8>) -> Seq<u8> {
    d + zeros(pad8(d.len() as int))
}

/// The data payload a text append builds: EOF-filled to a 256-byte
/// boundary so the loading BIOS can find the end of the text.
pub open spec fn ascii_block_payload(d: Seq<u8>) -> Seq<u8> {
    d + eof_fillers(pad256(d.len() as int))
}

/// The payload an opaque append builds.
pub open spec fn custom_block_payload(d: Seq<u8>) -> Seq<u8> {
    d + zeros(pad8(d.len() as int))
}

/// Appending a valid header/data pair keeps the tape parseable.
pub proof fn lemma_wf_push_pair(blocks: Seq<Seq<u8>>, h: Seq<u8>, d: Seq<u8>)
    requires
        parse_files(blocks) is Some,
        is_header(h),
        d.len() >= 6,
        seq_is_ascii(header_name(h)),
    ensures
        parse_files(blocks + seq![h, d]) is Some,
{
    let t = seq![h, d];
    assert(t.len() == 2);
    assert(t[0] == h);
    assert(t[1] == d);
    assert(t.skip(2) =~= Seq::<Seq<u8>>::empty());
    assert(parse_files(Seq::<Seq<u8>>::empty()) == Some(Seq::<FileModel>::empty()));
    assert(parse_files(t) is Some);
    lemma_parse_compose(blocks, t);
}

/// The header payload built for `name` is a header block whose name
/// field is exactly `name`.
pub proof fn lemma_header_payload(name: Seq<u8>)
    requires
        name.len() == 6,
    ensures
        is_header(header_payload(name)),
        header_name(header_payload(name)) == name,
{
    assert(header_name(header_payload(name)) =~= name);
}

/// Build the header payload for an entry name.
fn make_header(name: &[u8; 6]) -> (h: Vec<u8>)
    ensures
        h@ == header_payload(name@),
{
    let mut h: Vec<u8> = Vec::new();
    let mut k: usize = 0;
    while k < 10
        invariant
            k <= 10,
            h@ =~= Seq::new(k as nat, |i: int| 0xd0u8),
        decreases 10 - k,
    {
        h.push(0xd0);
        proof {
            assert(h@ =~= Seq::new((k + 1) as nat, |i: int| 0xd0u8));
        }
        k = k + 1;
    }
    h.extend_from_slice(name.as_slice());
    proof {
        assert(h@ =~= header_payload(name@));
    }
    h
}

/// Append `count` copies of `b`.
fn pad_bytes(p: &mut Vec<u8>, count: usize, b: u8)
    ensures
        final(p)@ == old(p)@ + Seq::new(count as nat, |i: int| b),
{
    let mut k: usize = 0;
    while k < count
        invariant
            k <= count,
            p@ == old(p)@ + Seq::new(k as nat, |i: int| b),
        decreases count - k,
    {
        p.push(b);
        proof {
            assert(p@ =~= old(p)@ + Seq::new((k + 1) as nat, |i: int| b));
        }
        k = k + 1;
    }
}

/// Build a data payload zero-padded to the next 8-byte boundary,
/// optionally dropping a leading `0xfe` kind byte first; also returns
/// the number of zeros added.
fn build_zero_padded(data: &[u8], strip_kind: bool) -> (r: (Vec<u8>, usize))
    ensures
        strip_kind ==> r.0@ == bin_block_payload(data@) && r.1 == pad8(
            strip_fe(data@).len() as int,
        ),
        !strip_kind ==> r.0@ == basic_block_payload(data@) && r.1 == pad8(data@.len() as int),
        r.0@.len() as int % 8 == 0,
        strip_kind && strip_fe(data@).len() > 0 ==> r.0@.len() >= 6,
        !strip_kind && data@.len() > 0 ==> r.0@.len() >= 6,
{
    let mut p: Vec<u8> = Vec::new();
    if strip_kind && data.len() > 0 && data[0] == 0xfe {
        p.extend_from_slice(slice_subrange(data, 1, data.len()));
    } else {
        p.extend_from_slice(data);
    }
    proof {
        if strip_kind {
            assert(p@ =~= strip_fe(data@));
        }
    }
    let padding = if p.len() % 8 == 0 {
        0
    } else {
        8 - p.len() % 8
    };
    let base = p.len();
    pad_bytes(&mut p, padding, 0);
    proof {
        if strip_kind {
            assert(p@ =~= bin_block_payload(data@));
        } else {
            assert(p@ =~= basic_block_payload(data@));
        }
        assert(p@.len() == base + padding);
    }
    (p, padding)
}

/// Build a text payload filled with EOF bytes `0x1a` to the next
/// 256-byte boundary; also returns the number of fillers added.
fn build_eof_padded(data: &[u8]) -> (r: (Vec<u8>, usize))
    ensures
        r.0@ == ascii_block_payload(data@),
        r.1 == pad256(data@.len() as int),
        r.0@.len() as int % 8 == 0,
        data@.len() > 0 ==> r.0@.len() >= 6,
{
    let mut p: Vec<u8> = Vec::new();
    p.extend_from_slice(data);
    let padding = if p.len() % 256 == 0 {
        0
    } else {
        256 - p.len() % 256
    };
    let base = p.len();
    pad_bytes(&mut p, padding, 0x1a);
    proof {
        assert(p@ =~= ascii_block_payload(data@));
        assert(p@.len() == base + padding);
        let x = p@.len() as int;
        assert(x % 256 == 0);
        vstd::arithmetic::div_mod::lemma_fundamental_div_mod(x, 256);
        assert(x == 256 * (x / 256));
        assert(256 * (x / 256) == 8 * (32 * (x / 256))) by (nonlinear_arith);
        vstd::arithmetic::div_mod::lemma_mod_multiples_basic(32 * (x / 256), 8);
    }
    (p, padding)
}

impl Tape {
    /// True iff every block start in the serialized tape falls on an
    /// 8-byte boundary, i.e. every payload length is a multiple of 8.
    pub open spec fn aligned(&self) -> bool {
        forall|k: int| 0 <= k < self@.len() ==> (#[trigger] self@[k].len()) % 8 == 0
    }

    /// Push a header block and its data block, carrying alignment and
    /// parseability with them.
    fn push_pair(&mut self, h: Vec<u8>, p: Vec<u8>)
        ensures
            final(self)@ == old(self)@ + seq![h@, p@],
            old(self).aligned() && h@.len() % 8 == 0 && p@.len() % 8 == 0 ==> final(self).aligned(),
            old(self).well_formed() && is_header(h@) && p@.len() >= 6 && seq_is_ascii(
                header_name(h@),
            ) ==> final(self).well_formed(),
    {
        let ghost hv = h@;
        let ghost pv = p@;
        self.blocks.push(Block { data: h });
        self.blocks.push(Block { data: p });
        proof {
            assert(self@ =~= old(self)@ + seq![hv, pv]);
            assert(forall|k: int|
                0 <= k < old(self)@.len() ==> self@[k] == #[trigger] old(self)@[k]);
            if old(self).well_formed() && is_header(hv) && pv.len() >= 6 && seq_is_ascii(
                header_name(hv),
            ) {
                lemma_wf_push_pair(old(self)@, hv, pv);
            }
        }
    }

    /// Push one opaque block, carrying alignment and parseability.
    fn push_single(&mut self, p: Vec<u8>)
        ensures
            final(self)@ == old(self)@ + seq![p@],
            old(self).aligned() && p@.len() % 8 == 0 ==> final(self).aligned(),
            old(self).well_formed() ==> (final(self).well_formed() <==> !is_header(p@)),
    {
        let ghost pv = p@;
        self.blocks.push(Block { data: p });
        proof {
            assert(self@ =~= old(self)@ + seq![pv]);
            assert(forall|k: int|
                0 <= k < old(self)@.len() ==> self@[k] == #[trigger] old(self)@[k]);
            if old(self).well_formed() {
                let t = seq![pv];
                lemma_parse_compose(old(self)@, t);
                assert(t.len() == 1);
                assert(t[0] == pv);
                if !is_header(pv) {
                    assert(t.skip(1) =~= Seq::<Seq<u8>>::empty());
                    assert(parse_files(Seq::<Seq<u8>>::empty()) == Some(
                        Seq::<FileModel>::empty(),
                    ));
                    assert(parse_files(t) is Some);
                } else {
                    assert(parse_files(t) is None);
                }
            }
        }
    }

    /// Append a named binary entry.  The caller's bytes open with the
    /// three little-endian address words (after an optional leading
    /// `0xfe` kind byte, which is dropped); zero padding keeps the next
    /// block start on an 8-byte boundary, and its size is reported.
    pub fn append_bin(&mut self, name: &[u8; 6], data: &[u8]) -> (r: Result<usize, CodecError>)
        ensures
            !seq_is_ascii(name@) ==> r == Result::<usize, CodecError>::Err(CodecError::InvalidName)
                && final(self)@ == old(self)@,
            seq_is_ascii(name@) ==> r == Result::<usize, CodecError>::Ok(
                pad8(strip_fe(data@).len() as int) as usize,
            ) && final(self)@ == old(self)@ + seq![
                header_payload(name@),
                bin_block_payload(data@),
            ],
            old(self).aligned() ==> final(self).aligned(),
            old(self).well_formed() && strip_fe(data@).len() > 0 ==> final(self).well_formed(),
    {
        if !is_ascii_bytes(name.as_slice()) {
            return Err(CodecError::InvalidName);
        }
        let h = make_header(name);
        let (p, padding) = build_zero_padded(data, true);
        proof {
            lemma_header_payload(name@);
        }
        self.push_pair(h, p);
        Ok(padding)
    }

    /// Append a named tokenized program: a header block and the raw
    /// program bytes, zero-padded to an 8-byte boundary.
    pub fn append_basic(&mut self, name: &[u8; 6], data: &[u8]) -> (r: Result<usize, CodecError>)
        ensures
            !seq_is_ascii(name@) ==> r == Result::<usize, CodecError>::Err(CodecError::InvalidName)
                && final(self)@ == old(self)@,
            seq_is_ascii(name@) ==> r == Result::<usize, CodecError>::Ok(
                pad8(data@.len() as int) as usize,
            ) && final(self)@ == old(self)@ + seq![
                header_payload(name@),
                basic_block_payload(data@),
            ],
            old(self).aligned() ==> final(self).aligned(),
            old(self).well_formed() && data@.len() > 0 ==> final(self).well_formed(),
    {
        if !is_ascii_bytes(name.as_slice()) {
            return Err(CodecError::InvalidName);
        }
        let h = make_header(name);
        let (p, padding) = build_zero_padded(data, false);
        proof {
            lemma_header_payload(name@);
        }
        self.push_pair(h, p);
        Ok(padding)
    }

    /// Append a named text entry: a header block and the text filled
    /// with EOF bytes `0x1a` up to the next 256-byte boundary; the
    /// number of fillers is reported.
    pub fn append_ascii(&mut self, name: &[u8; 6], data: &[u8]) -> (r: Result<usize, CodecError>)
        ensures
            !seq_is_ascii(name@) ==> r == Result::<usize, CodecError>::Err(CodecError::InvalidName)
                && final(self)@ == old(self)@,
            seq_is_ascii(name@) ==> r == Result::<usize, CodecError>::Ok(
                pad256(data@.len() as int) as usize,
            ) && final(self)@ == old(self)@ + seq![
                header_payload(name@),
                ascii_block_payload(data@),
            ],
            old(self).aligned() ==> final(self).aligned(),
            old(self).well_formed() && data@.len() > 0 ==> final(self).well_formed(),
    {
        if !is_ascii_bytes(name.as_slice()) {
            return Err(CodecError::InvalidName);
        }
        let h = make_header(name);
        let (p, padding) = build_eof_padded(data);
        proof {
            lemma_header_payload(name@);
        }
        self.push_pair(h, p);
        Ok(padding)
    }

    /// Append an opaque entry as a single block with no header, zero-
    /// padded to an 8-byte boundary; what the padding means to the
    /// custom loader that reads it back is the caller's concern.
    pub fn append_custom(&mut self, data: &[u8]) -> (r: Result<usize, CodecError>)
        ensures
            r == Result::<usize, CodecError>::Ok(pad8(data@.len() as int) as usize),
            final(self)@ == old(self)@ + seq![custom_block_payload(data@)],
            old(self).aligned() ==> final(self).aligned(),
            old(self).well_formed() ==> (final(self).well_formed() <==> !is_header(
                custom_block_payload(data@),
            )),
    {
        let (p, padding) = build_zero_padded(data, false);
        proof {
            assert(basic_block_payload(data@) == custom_block_payload(data@));
        }
        self.push_single(p);
        Ok(padding)
    }
}

/// The value of two little-endian bytes, as the machine word the
/// decoded addresses are carried in.
fn le16_value(lo: u8, hi: u8) -> (r: usize)
    ensures
        r == le16(lo, hi),
{
    let v: u32 = (lo as u32) | ((hi as u32) << 8);
    proof {
        let l = lo as u32;
        let h = hi as u32;
        assert(l | (h << 8) == l + 256 * h) by (bit_vector)
            requires
                l < 256 && h < 256,
        ;
    }
    v as usize
}

} // verus!
