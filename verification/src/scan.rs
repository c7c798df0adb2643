//! Locating synchronization markers in a raw buffer.
//!
//! `marker_positions` is the mathematical description of the scan: the
//! ordered offsets of every marker occurrence.  The lemmas here pin down
//! the facts the block scanner and the round-trip arguments need: every
//! listed offset carries a marker, every marker offset is listed, the
//! list is ordered, and two occurrences can never overlap (the marker
//! byte `0x1f` occurs only at its start).

use vstd::prelude::*;

use crate::is_marker_at;
use crate::marker;

verus! {

/// The offsets `>= i` at which the marker occurs in `s`, in increasing order.
pub open spec fn positions_from(s: Seq<u8>, i: int) -> Seq<int>
    decreases s.len() - i,
{
    if i + 8 > s.len() {
        Seq::empty()
    } else if is_marker_at(s, i) {
        seq![i] + positions_from(s, i + 1)
    } else {
        positions_from(s, i + 1)
    }
}

/// All marker offsets of `s`, in increasing order.
pub open spec fn marker_positions(s: Seq<u8>) -> Seq<int> {
    positions_from(s, 0)
}

/// The blocks of `s`: for each marker, the bytes from just past that
/// marker up to the next marker (or up to the end of `s` for the last).
pub open spec fn scan_spec(s: Seq<u8>) -> Seq<Seq<u8>> {
    let ps = marker_positions(s);
    Seq::new(
        ps.len(),
        |j: int|
            s.subrange(ps[j] + 8, if j == ps.len() - 1 { s.len() as int } else { ps[j + 1] }),
    )
}

/// The marker's own bytes, index by index.
pub proof fn lemma_marker_bytes()
    ensures
        marker().len() == 8,
        marker()[0] == 0x1f,
        marker()[1] == 0xa6,
        marker()[2] == 0xde,
        marker()[3] == 0xba,
        marker()[4] == 0xcc,
        marker()[5] == 0x13,
        marker()[6] == 0x7d,
        marker()[7] == 0x74,
{
}

/// Two marker occurrences never overlap: `0x1f` stands only at the
/// marker's first byte, so a second occurrence must start 8 bytes on.
pub proof fn lemma_no_overlap(s: Seq<u8>, p: int, q: int)
    requires
        is_marker_at(s, p),
        is_marker_at(s, q),
        p < q,
    ensures
        q >= p + 8,
{
    lemma_marker_bytes();
    if q < p + 8 {
        let d = q - p;
        assert(s[q] == s.subrange(q, q + 8)[0]);
        assert(s[q] == marker()[0]);
        assert(s[p + d] == s.subrange(p, p + 8)[d]);
        assert(s[p + d] == marker()[d]);
        assert(marker()[d] == 0x1f);
        assert(false);
    }
}

/// Every listed offset is at least `i` and carries a marker.
pub proof fn lemma_positions_are_markers(s: Seq<u8>, i: int)
    ensures
        forall|k: int|
            0 <= k < positions_from(s, i).len() ==> i <= #[trigger] positions_from(s, i)[k]
                && is_marker_at(s, positions_from(s, i)[k]),
    decreases s.len() - i,
{
    if i + 8 > s.len() {
    } else {
        lemma_positions_are_markers(s, i + 1);
        assert forall|k: int| 0 <= k < positions_from(s, i).len() implies i
            <= #[trigger] positions_from(s, i)[k] && is_marker_at(s, positions_from(s, i)[k]) by {
            if is_marker_at(s, i) {
                if k > 0 {
                    assert(positions_from(s, i)[k] == positions_from(s, i + 1)[k - 1]);
                }
            } else {
                assert(positions_from(s, i)[k] == positions_from(s, i + 1)[k]);
            }
        }
    }
}

/// The listed offsets are strictly increasing.
pub proof fn lemma_positions_sorted(s: Seq<u8>, i: int)
    ensures
        forall|k: int|
            0 <= k && k + 1 < positions_from(s, i).len() ==> #[trigger] positions_from(s, i)[k]
                < positions_from(s, i)[k + 1],
    decreases s.len() - i,
{
    if i + 8 > s.len() {
    } else {
        lemma_positions_sorted(s, i + 1);
        lemma_positions_are_markers(s, i + 1);
        if is_marker_at(s, i) {
            assert forall|k: int|
                0 <= k && k + 1 < positions_from(s, i).len() implies #[trigger] positions_from(
                s,
                i,
            )[k] < positions_from(s, i)[k + 1] by {
                if k == 0 {
                    assert(positions_from(s, i)[1] == positions_from(s, i + 1)[0]);
                } else {
                    assert(positions_from(s, i)[k] == positions_from(s, i + 1)[k - 1]);
                    assert(positions_from(s, i)[k + 1] == positions_from(s, i + 1)[k]);
                }
            }
        }
    }
}

/// A range without markers contributes nothing to the list.
pub proof fn lemma_positions_skip(s: Seq<u8>, i: int, j: int)
    requires
        i <= j,
        forall|q: int| i <= q < j ==> !is_marker_at(s, q),
    ensures
        positions_from(s, i) == positions_from(s, j),
    decreases j - i,
{
    if i < j {
        assert(!is_marker_at(s, i));
        if i + 8 > s.len() {
            assert(positions_from(s, i) == Seq::<int>::empty());
            assert(j + 8 > s.len());
            assert(positions_from(s, j) == Seq::<int>::empty());
        } else {
            lemma_positions_skip(s, i + 1, j);
        }
    }
}

/// Past the last marker the list is empty.
pub proof fn lemma_positions_none(s: Seq<u8>, i: int)
    requires
        forall|q: int| i <= q ==> !is_marker_at(s, q),
    ensures
        positions_from(s, i) == Seq::<int>::empty(),
    decreases s.len() - i,
{
    if i + 8 <= s.len() {
        assert(!is_marker_at(s, i));
        lemma_positions_none(s, i + 1);
    }
}

} // verus!
