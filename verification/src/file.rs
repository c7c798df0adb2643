//! File-name handling around the container.
//!
//! Paths are plain strings here: the last `/`-separated component is
//! the file name, the part of it after a late dot its extension, the
//! rest its stem.  A component that is empty, `.` or `..` names no
//! file.  These rules carry entry names between host paths and the
//! container's 6-byte name fields, classify inputs by extension, and
//! derive temporary and collision-free output names.

use vstd::prelude::*;

use crate::ascii::dec_chars;
use crate::ascii::decimal_string;
use crate::tape::name_bytes;

verus! {

/// A path that yields no usable file name.
#[derive(Debug, PartialEq, Eq)]
pub enum NameError {
    InvalidName,
}

/// `p` without its trailing separators.
pub open spec fn strip_slashes(p: Seq<char>) -> Seq<char>
    decreases p.len(),
{
    if p.len() > 0 && p.last() == '/' {
        strip_slashes(p.drop_last())
    } else {
        p
    }
}

/// Stripping takes the longest prefix that does not end in a separator.
pub proof fn lemma_strip_slashes(p: Seq<char>)
    ensures
        strip_slashes(p).len() <= p.len(),
        strip_slashes(p) == p.take(strip_slashes(p).len() as int),
        forall|j: int| strip_slashes(p).len() <= j < p.len() ==> p[j] == '/',
        strip_slashes(p).len() > 0 ==> p[strip_slashes(p).len() - 1] != '/',
    decreases p.len(),
{
    if p.len() > 0 && p.last() == '/' {
        let q = p.drop_last();
        lemma_strip_slashes(q);
        assert(q.take(strip_slashes(q).len() as int) =~= p.take(strip_slashes(q).len() as int));
        assert forall|j: int| strip_slashes(p).len() <= j < p.len() implies p[j] == '/' by {
            if j < p.len() - 1 {
                assert(q[j] == '/');
            }
        }
    } else {
        assert(p.take(p.len() as int) =~= p);
    }
}

/// The index of the last occurrence of `c` in `p`, or -1.
pub open spec fn last_index_of(p: Seq<char>, c: char) -> int
    decreases p.len(),
{
    if p.len() == 0 {
        -1
    } else if p.last() == c {
        p.len() - 1
    } else {
        last_index_of(p.drop_last(), c)
    }
}

/// What the last index points at: `c` there, never after.
pub proof fn lemma_last_index_of(p: Seq<char>, c: char)
    ensures
        -1 <= last_index_of(p, c) < p.len(),
        forall|j: int| last_index_of(p, c) < j < p.len() ==> p[j] != c,
        last_index_of(p, c) >= 0 ==> p[last_index_of(p, c)] == c,
    decreases p.len(),
{
    if p.len() > 0 && p.last() != c {
        let q = p.drop_last();
        lemma_last_index_of(q, c);
        assert forall|j: int| last_index_of(p, c) < j < p.len() implies p[j] != c by {
            if j < p.len() - 1 {
                assert(q[j] != c);
            }
        }
    }
}

/// The file-name component of a path: what follows the last separator,
/// trailing separators ignored.
pub open spec fn name_component(p: Seq<char>) -> Seq<char> {
    let q = strip_slashes(p);
    q.skip(last_index_of(q, '/') + 1)
}

/// True iff the path names a file: its component is neither empty nor
/// one of the two directory references.
pub open spec fn has_name(p: Seq<char>) -> bool {
    let n = name_component(p);
    n.len() > 0 && n != seq!['.'] && n != seq!['.', '.']
}

/// The stem of a file name: everything before its last dot, unless the
/// only dot opens the name.
pub open spec fn stem_of_name(nm: Seq<char>) -> Seq<char> {
    if last_index_of(nm, '.') > 0 {
        nm.take(last_index_of(nm, '.'))
    } else {
        nm
    }
}

/// The extension of a file name: everything after its last dot, absent
/// when no dot follows the first character.
pub open spec fn ext_of_name(nm: Seq<char>) -> Option<Seq<char>> {
    if last_index_of(nm, '.') > 0 {
        Some(nm.skip(last_index_of(nm, '.') + 1))
    } else {
        None
    }
}

/// The stem of a path's file-name component.
pub open spec fn stem_of(p: Seq<char>) -> Seq<char> {
    stem_of_name(name_component(p))
}

/// A character's code point with an ASCII capital folded to lower case.
pub open spec fn lower_code(c: char) -> int {
    if 65 <= c as u32 <= 90 {
        c as u32 + 32
    } else {
        c as u32 as int
    }
}

/// Equality of two character sequences up to ASCII case.
pub open spec fn eq_ignore_case(a: Seq<char>, b: Seq<char>) -> bool {
    a.len() == b.len() && (forall|i: int|
        0 <= i < a.len() ==> lower_code(a[i]) == lower_code(b[i]))
}

/// True iff the path's file name carries extension `ext`, compared
/// without regard to ASCII case.
pub open spec fn has_ext_spec(p: Seq<char>, ext: Seq<char>) -> bool {
    has_name(p) && match ext_of_name(name_component(p)) {
        Some(e) => eq_ignore_case(e, ext),
        None => false,
    }
}

/// The index just past the stripped path, as the exec search finds it.
fn stripped_end(path: &str) -> (e: usize)
    ensures
        e == strip_slashes(path@).len(),
        e <= path@.len(),
{
    let n = path.unicode_len();
    let mut e: usize = n;
    while e > 0
        invariant
            n == path@.len(),
            e <= n,
            forall|j: int| e <= j < n ==> path@[j] == '/',
        decreases e,
    {
        if path.get_char(e - 1) != '/' {
            proof {
                lemma_strip_slashes(path@);
            }
            return e;
        }
        e = e - 1;
    }
    proof {
        lemma_strip_slashes(path@);
    }
    0
}

/// The index of the last occurrence of `c` in `path[from..to]`.
fn rfind_char(path: &str, from: usize, to: usize, c: char) -> (r: Option<usize>)
    requires
        from <= to <= path@.len(),
    ensures
        ({
            let sub = path@.subrange(from as int, to as int);
            match r {
                Some(k) => from <= k < to && k - from == last_index_of(sub, c),
                None => last_index_of(sub, c) == -1,
            }
        }),
{
    let ghost sub = path@.subrange(from as int, to as int);
    proof {
        lemma_last_index_of(sub, c);
    }
    let mut k: usize = to;
    while k > from
        invariant
            from <= k <= to <= path@.len(),
            sub == path@.subrange(from as int, to as int),
            forall|j: int| k - from <= j < sub.len() ==> sub[j] != c,
        decreases k,
    {
        if path.get_char(k - 1) == c {
            proof {
                lemma_last_index_of(sub, c);
                assert(sub[k - 1 - from] == path@[k - 1]);
            }
            return Some(k - 1);
        }
        proof {
            assert(sub[k - 1 - from] == path@[k - 1]);
        }
        k = k - 1;
    }
    None
}

/// The file-name component's bounds `[start, end)` in the path, or
/// `None` when the path names no file.
fn component_bounds(path: &str) -> (r: Option<(usize, usize)>)
    ensures
        match r {
            Some(b) => has_name(path@) && b.0 <= b.1 <= path@.len() && path@.subrange(
                b.0 as int,
                b.1 as int,
            ) == name_component(path@) && b.1 == strip_slashes(path@).len() && b.0 as int
                == last_index_of(strip_slashes(path@), '/') + 1,
            None => !has_name(path@),
        },
{
    let e = stripped_end(path);
    let start = match rfind_char(path, 0, e, '/') {
        Some(k) => k + 1,
        None => 0,
    };
    proof {
        let q = strip_slashes(path@);
        lemma_strip_slashes(path@);
        assert(q =~= path@.subrange(0, e as int));
        assert(start as int == last_index_of(q, '/') + 1);
        assert(path@.subrange(start as int, e as int) =~= name_component(path@));
    }
    let len = e - start;
    if len == 0 {
        proof {
            assert(name_component(path@).len() == 0);
        }
        return None;
    }
    if len == 1 && path.get_char(start) == '.' {
        proof {
            assert(name_component(path@) =~= seq!['.']);
        }
        return None;
    }
    if len == 2 && path.get_char(start) == '.' && path.get_char(start + 1) == '.' {
        proof {
            assert(name_component(path@) =~= seq!['.', '.']);
        }
        return None;
    }
    proof {
        let n = name_component(path@);
        if n == seq!['.'] {
            assert(n.len() == 1 && n[0] == '.');
        }
        if n == seq!['.', '.'] {
            assert(n.len() == 2 && n[0] == '.' && n[1] == '.');
        }
    }
    Some((start, e))
}

/// The name a temporary file stands under while its final place is
/// being written: the path with `.temp` appended.
pub fn temporary(path: &str) -> (r: Result<String, NameError>)
    ensures
        match r {
            Ok(s) => has_name(path@) && s@ == strip_slashes(path@) + seq![
                '.',
                't',
                'e',
                'm',
                'p',
            ],
            Err(e) => !has_name(path@) && e == NameError::InvalidName,
        },
{
    match component_bounds(path) {
        None => Err(NameError::InvalidName),
        Some((_start, e)) => {
            let base = path.substring_char(0, e);
            let mut out = String::from_str(base);
            out.append(".temp");
            proof {
                reveal_strlit(".temp");
                lemma_strip_slashes(path@);
                assert(strip_slashes(path@) =~= path@.subrange(0, e as int));
                assert((".temp")@ =~= seq!['.', 't', 'e', 'm', 'p']);
            }
            Ok(out)
        },
    }
}

/// The 6-byte entry name a path stands for: its stem, space-padded or
/// cut to 6 characters, with a flag for the cut.
pub fn file_name_of(path: &str) -> (r: Result<([u8; 6], bool), NameError>)
    ensures
        match r {
            Ok(nb) => has_name(path@) && nb.0@ == name_bytes(stem_of(path@)) && nb.1 == (stem_of(
                path@,
            ).len() > 6),
            Err(e) => !has_name(path@) && e == NameError::InvalidName,
        },
{
    match component_bounds(path) {
        None => Err(NameError::InvalidName),
        Some((start, e)) => {
            let dend = match rfind_char(path, start, e, '.') {
                Some(k) => if k > start {
                    k
                } else {
                    e
                },
                None => e,
            };
            proof {
                let nm = name_component(path@);
                assert(nm == path@.subrange(start as int, e as int));
                lemma_last_index_of(nm, '.');
                assert(stem_of(path@) =~= path@.subrange(start as int, dend as int));
            }
            let stem = path.substring_char(start, dend);
            let nb = crate::tape::file_name(stem);
            Ok(nb)
        },
    }
}

/// The 6-byte entry name for a path whose file name ends in a 4-
/// character extension: the name with those 4 characters cut off,
/// space-padded or cut to 6 bytes.
pub fn file_name(path: &str) -> (r: Result<[u8; 6], NameError>)
    ensures
        match r {
            Ok(b) => has_name(path@) && name_component(path@).len() >= 4 && b@ == name_bytes(
                name_component(path@).take(name_component(path@).len() - 4),
            ),
            Err(e) => (!has_name(path@) || name_component(path@).len() < 4) && e
                == NameError::InvalidName,
        },
{
    match component_bounds(path) {
        None => Err(NameError::InvalidName),
        Some((start, e)) => {
            if e - start < 4 {
                return Err(NameError::InvalidName);
            }
            let stem = path.substring_char(start, e - 4);
            proof {
                let nm = name_component(path@);
                assert(nm == path@.subrange(start as int, e as int));
                assert(nm.take(nm.len() - 4) =~= path@.subrange(start as int, e as int - 4));
            }
            let nb = crate::tape::file_name(stem);
            Ok(nb.0)
        },
    }
}

/// True iff `path[from..to]` spells `other` up to ASCII case.
fn range_eq_ignore_case(path: &str, from: usize, to: usize, other: &str) -> (r: bool)
    requires
        from <= to <= path@.len(),
    ensures
        r == eq_ignore_case(path@.subrange(from as int, to as int), other@),
{
    let ghost sub = path@.subrange(from as int, to as int);
    let xlen = other.unicode_len();
    if to - from != xlen {
        return false;
    }
    let mut i: usize = 0;
    while i < xlen
        invariant
            from + xlen == to,
            to <= path@.len(),
            sub == path@.subrange(from as int, to as int),
            xlen == other@.len(),
            i <= xlen,
            forall|j: int| 0 <= j < i ==> lower_code(sub[j]) == lower_code(other@[j]),
        decreases xlen - i,
    {
        let a = path.get_char(from + i);
        let b = other.get_char(i);
        let au = a as u32;
        let bu = b as u32;
        let al = if 65 <= au && au <= 90 {
            au + 32
        } else {
            au
        };
        let bl = if 65 <= bu && bu <= 90 {
            bu + 32
        } else {
            bu
        };
        if al != bl {
            proof {
                assert(sub[i as int] == path@[from + i]);
            }
            return false;
        }
        proof {
            assert(sub[i as int] == path@[from + i]);
        }
        i = i + 1;
    }
    true
}

/// True iff the path's extension is `ext` up to ASCII case.
fn has_extension(path: &str, ext: &str) -> (r: bool)
    ensures
        r == has_ext_spec(path@, ext@),
{
    match component_bounds(path) {
        None => false,
        Some((start, e)) => {
            match rfind_char(path, start, e, '.') {
                None => {
                    proof {
                        let nm = name_component(path@);
                        lemma_last_index_of(nm, '.');
                    }
                    false
                },
                Some(k) => {
                    if k == start {
                        proof {
                            let nm = name_component(path@);
                            lemma_last_index_of(nm, '.');
                        }
                        false
                    } else {
                        proof {
                            let nm = name_component(path@);
                            assert(nm == path@.subrange(start as int, e as int));
                            lemma_last_index_of(nm, '.');
                            assert(ext_of_name(nm) == Some(
                                path@.subrange(k as int + 1, e as int),
                            )) by {
                                assert(nm.skip(last_index_of(nm, '.') + 1) =~= path@.subrange(
                                    k as int + 1,
                                    e as int,
                                ));
                            }
                        }
                        range_eq_ignore_case(path, k + 1, e, ext)
                    }
                },
            }
        },
    }
}

/// True iff the path names a binary program file (`.bin`).
pub fn is_bin_file(path: &str) -> (r: bool)
    ensures
        r == has_ext_spec(path@, seq!['b', 'i', 'n']),
{
    let r = has_extension(path, "bin");
    proof {
        reveal_strlit("bin");
        assert(("bin")@ =~= seq!['b', 'i', 'n']);
    }
    r
}

/// True iff the path names a text file (`.asc`).
pub fn is_ascii_file(path: &str) -> (r: bool)
    ensures
        r == has_ext_spec(path@, seq!['a', 's', 'c']),
{
    let r = has_extension(path, "asc");
    proof {
        reveal_strlit("asc");
        assert(("asc")@ =~= seq!['a', 's', 'c']);
    }
    r
}

/// True iff the path names a tokenized program file (`.bas`).
pub fn is_basic_file(path: &str) -> (r: bool)
    ensures
        r == has_ext_spec(path@, seq!['b', 'a', 's']),
{
    let r = has_extension(path, "bas");
    proof {
        reveal_strlit("bas");
        assert(("bas")@ =~= seq!['b', 'a', 's']);
    }
    r
}

/// The alternative file name tried at collision round `suffix`: the
/// stem, a dash and the round number, then the original extension.
pub open spec fn suffixed_name(p: Seq<char>, suffix: nat) -> Seq<char> {
    let q = strip_slashes(p);
    let start = last_index_of(q, '/') + 1;
    let nm = q.skip(start);
    let tail = match ext_of_name(nm) {
        Some(e) => seq!['.'] + e,
        None => Seq::<char>::empty(),
    };
    q.take(start) + stem_of_name(nm) + seq!['-'] + dec_chars(suffix) + tail
}

/// A collision-avoiding variant of a path: its stem extended with a
/// dash and the round number, the extension kept.
pub fn unique_filename_for_suffix(path: &str, suffix: usize) -> (r: Result<String, NameError>)
    ensures
        match r {
            Ok(s) => has_name(path@) && s@ == suffixed_name(path@, suffix as nat),
            Err(e) => !has_name(path@) && e == NameError::InvalidName,
        },
{
    match component_bounds(path) {
        None => Err(NameError::InvalidName),
        Some((start, e)) => {
            let dot = match rfind_char(path, start, e, '.') {
                Some(k) => if k > start {
                    Some(k)
                } else {
                    None
                },
                None => None,
            };
            let dend = match dot {
                Some(k) => k,
                None => e,
            };
            proof {
                let q = strip_slashes(path@);
                lemma_strip_slashes(path@);
                assert(q =~= path@.subrange(0, e as int));
                let nm = name_component(path@);
                assert(nm == path@.subrange(start as int, e as int));
                lemma_last_index_of(nm, '.');
            }
            let mut out = String::from_str(path.substring_char(0, dend));
            out.append("-");
            let num = decimal_string(suffix);
            out.append(num.as_str());
            match dot {
                Some(k) => {
                    out.append(path.substring_char(k, e));
                },
                None => (),
            }
            proof {
                reveal_strlit("-");
                assert(("-")@ =~= seq!['-']);
                let q = strip_slashes(path@);
                let nm = name_component(path@);
                let st = last_index_of(q, '/') + 1;
                assert(q.take(st) + stem_of_name(nm) =~= path@.subrange(0, dend as int));
                match dot {
                    Some(k) => {
                        assert(seq!['.'] + nm.skip(last_index_of(nm, '.') + 1) =~= path@.subrange(
                            k as int,
                            e as int,
                        ));
                        assert(out@ =~= suffixed_name(path@, suffix as nat));
                    },
                    None => {
                        assert(out@ =~= suffixed_name(path@, suffix as nat));
                    },
                }
            }
            Ok(out)
        },
    }
}

} // verus!
