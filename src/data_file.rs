//! Segment files: their names, the parsing of a directory listing into
//! segment ids, and the decimal form used by the marker files.

use vstd::prelude::*;

use crate::errors::{Errors, Result};

verus! {

/// Ending of segment file names.
pub const DATA_FILE_NAME_SUFFIX: &'static str = ".data";
/// Name of the hint file a merge writes.
pub const HINT_FILE_NAME: &'static str = "hint-index";
/// Name of the file that marks a finished merge.
pub const MERGE_FINISHED_FILE_NAME: &'static str = "merge-finished";
/// Name of the file that keeps the sequence number across restarts.
pub const SEQ_NO_FILE_NAME: &'static str = "seq-no";
/// Name of the lock file that keeps a second process out.
pub const FILE_LOCK_NAME: &'static str = "flock";

/// The decimal digits of `n`, most significant first, without leading zeros.
pub open spec fn digits(n: nat) -> Seq<u8>
    decreases n,
{
    if n < 10 {
        seq![(48 + n) as u8]
    } else {
        digits(n / 10).push((48 + n % 10) as u8)
    }
}

/// Every byte is an ASCII digit.
pub open spec fn all_digits(s: Seq<u8>) -> bool {
    forall|i: int| 0 <= i < s.len() ==> 48 <= #[trigger] s[i] <= 57
}

/// The number that a string of ASCII digits spells.
pub open spec fn digits_value(s: Seq<u8>) -> nat
    decreases s.len(),
{
    if s.len() == 0 {
        0
    } else {
        digits_value(s.drop_last()) * 10 + (s.last() - 48) as nat
    }
}

pub proof fn lemma_digits(n: nat)
    ensures
        all_digits(digits(n)),
        digits_value(digits(n)) == n,
        1 <= digits(n).len(),
    decreases n,
{
    if n >= 10 {
        lemma_digits(n / 10);
        assert(digits(n).drop_last() =~= digits(n / 10));
        assert(digits(n).last() == (48 + n % 10) as u8);
        assert((n / 10) * 10 + n % 10 == n);
        let d = digits(n);
        assert(digits_value(d) == digits_value(d.drop_last()) * 10 + (d.last() - 48) as nat);
        assert((d.last() - 48) as nat == n % 10);
    } else {
        let d = digits(n);
        assert(d.drop_last() =~= Seq::<u8>::empty());
        assert(digits_value(d) == digits_value(d.drop_last()) * 10 + (d.last() - 48) as nat);
        assert(digits_value(Seq::<u8>::empty()) == 0);
        assert((d.last() - 48) as nat == n);
    }
}

fn push_digits(n: u64, buf: &mut Vec<u8>)
    ensures
        final(buf)@ == old(buf)@ + digits(n as nat),
    decreases n,
{
    if n >= 10 {
        push_digits(n / 10, buf);
    }
    buf.push((48 + n % 10) as u8);
    assert(final(buf)@ =~= old(buf)@ + digits(n as nat));
}

/// The decimal form of `n`.
pub fn format_decimal(n: u64) -> (r: Vec<u8>)
    ensures
        r@ == digits(n as nat),
{
    let mut buf: Vec<u8> = Vec::new();
    push_digits(n, &mut buf);
    assert(buf@ =~= digits(n as nat));
    buf
}

/// The number that `s` spells in decimal, where it is a nonempty string of
/// digits whose value fits 64 bits.
pub fn parse_decimal(s: &[u8]) -> (r: Option<u64>)
    ensures
        r == (if s@.len() > 0 && all_digits(s@) && digits_value(s@) <= u64::MAX {
            Some(digits_value(s@) as u64)
        } else {
            None::<u64>
        }),
{
    if s.len() == 0 {
        return None;
    }
    let mut acc: u64 = 0;
    let mut i: usize = 0;
    let mut fits = true;
    while i < s.len()
        invariant
            i <= s@.len(),
            all_digits(s@.subrange(0, i as int)),
            fits ==> acc == digits_value(s@.subrange(0, i as int)),
            !fits ==> digits_value(s@.subrange(0, i as int)) > u64::MAX,
        decreases s@.len() - i,
    {
        let c = s[i];
        assert(s@.subrange(0, i + 1).drop_last() =~= s@.subrange(0, i as int));
        if c < 48 || c > 57 {
            assert(!all_digits(s@)) by {
                assert(s@[i as int] == c);
            }
            return None;
        }
        let d = (c - 48) as u64;
        if fits {
            match acc.checked_mul(10) {
                Some(m) => match m.checked_add(d) {
                    Some(v) => {
                        acc = v;
                    },
                    None => {
                        fits = false;
                    },
                },
                None => {
                    fits = false;
                },
            }
        } else {
            assert(digits_value(s@.subrange(0, i + 1)) >= digits_value(s@.subrange(0, i as int)) * 10);
        }
        assert(all_digits(s@.subrange(0, i + 1))) by {
            assert forall|j: int| 0 <= j < i + 1 implies 48 <= #[trigger] s@.subrange(0, i + 1)[j] <= 57 by {
                if j < i {
                    assert(s@.subrange(0, i + 1)[j] == s@.subrange(0, i as int)[j]);
                }
            }
        }
        i = i + 1;
    }
    assert(s@.subrange(0, i as int) =~= s@);
    if fits {
        Some(acc)
    } else {
        None
    }
}

/// The ending of segment file names.
pub open spec fn data_suffix() -> Seq<u8> {
    seq![46u8, 100u8, 97u8, 116u8, 97u8]
}

/// `n` written with at least nine digits, zeros in front.
pub open spec fn padded9(n: nat) -> Seq<u8> {
    let d = digits(n);
    if d.len() >= 9 {
        d
    } else {
        Seq::new((9 - d.len()) as nat, |i: int| 48u8) + d
    }
}

/// `dir` joined with the file name `name`, as a path.
pub open spec fn join_path(dir: Seq<u8>, name: Seq<u8>) -> Seq<u8> {
    if dir.len() == 0 {
        name
    } else if dir.last() == 47u8 {
        dir + name
    } else {
        dir + seq![47u8] + name
    }
}

fn join(dir: &[u8], name: &[u8]) -> (r: Vec<u8>)
    ensures
        r@ == join_path(dir@, name@),
{
    let mut r = vstd::slice::slice_to_vec(dir);
    if dir.len() > 0 && dir[dir.len() - 1] != 47u8 {
        r.push(47u8);
    }
    r.extend_from_slice(name);
    assert(r@ =~= join_path(dir@, name@));
    r
}

/// The path of segment `file_id` in `dir_path`: the id in nine digits, then `.data`.
pub fn get_data_file_name(dir_path: &[u8], file_id: u32) -> (r: Vec<u8>)
    ensures
        r@ == join_path(dir_path@, padded9(file_id as nat) + data_suffix()),
{
    let d = format_decimal(file_id as u64);
    let mut name: Vec<u8> = Vec::new();
    let mut k: usize = d.len();
    while k < 9
        invariant
            d@ == digits(file_id as nat),
            d@.len() <= k <= 9 || (k == d@.len() && k >= 9),
            name@ == Seq::new((k - d@.len()) as nat, |i: int| 48u8),
        decreases 9 - k,
    {
        name.push(48u8);
        assert(name@ =~= Seq::new((k + 1 - d@.len()) as nat, |i: int| 48u8));
        k = k + 1;
    }
    name.extend_from_slice(d.as_slice());
    name.extend_from_slice(&[46u8, 100u8, 97u8, 116u8, 97u8]);
    assert(name@ =~= padded9(file_id as nat) + data_suffix());
    join(dir_path, name.as_slice())
}

/// `s` ends with `suffix`.
pub open spec fn ends_with(s: Seq<u8>, suffix: Seq<u8>) -> bool {
    suffix.len() <= s.len() && s.subrange(s.len() - suffix.len(), s.len() as int) == suffix
}

pub(crate) fn has_suffix(s: &[u8], suffix: &[u8]) -> (r: bool)
    ensures
        r == ends_with(s@, suffix@),
{
    if suffix.len() > s.len() {
        return false;
    }
    let n = s.len();
    let start = n - suffix.len();
    let mut i: usize = 0;
    while i < suffix.len()
        invariant
            n == s@.len(),
            suffix@.len() <= s@.len(),
            start == s@.len() - suffix@.len(),
            i <= suffix@.len(),
            forall|j: int| 0 <= j < i ==> s@[start + j] == suffix@[j],
        decreases suffix@.len() - i,
    {
        if s[start + i] != suffix[i] {
            assert(s@.subrange(start as int, s@.len() as int)[i as int] != suffix@[i as int]);
            return false;
        }
        i = i + 1;
    }
    assert(s@.subrange(start as int, s@.len() as int) =~= suffix@);
    true
}

/// The part of `s` before its first dot.
pub open spec fn before_dot(s: Seq<u8>) -> Seq<u8>
    decreases s.len(),
{
    if s.len() == 0 {
        s
    } else if s[0] == 46u8 {
        Seq::empty()
    } else {
        seq![s[0]] + before_dot(s.drop_first())
    }
}

proof fn lemma_before_dot(s: Seq<u8>, i: int)
    requires
        0 <= i <= s.len(),
        forall|j: int| 0 <= j < i ==> s[j] != 46u8,
        i == s.len() || s[i] == 46u8,
    ensures
        before_dot(s) == s.subrange(0, i),
    decreases i,
{
    if i == 0 {
        if s.len() == 0 {
            assert(s =~= s.subrange(0, 0));
        } else {
            assert(s.subrange(0, 0) =~= Seq::<u8>::empty());
        }
    } else {
        lemma_before_dot(s.drop_first(), i - 1);
        assert(s.subrange(0, i) =~= seq![s[0]] + s.drop_first().subrange(0, i - 1));
    }
}

/// The segment id that a file name gives, where its part before the first
/// dot is a decimal number that fits 32 bits.
pub open spec fn name_id(name: Seq<u8>) -> Option<u32> {
    let stem = before_dot(name);
    if stem.len() > 0 && all_digits(stem) && digits_value(stem) <= u32::MAX {
        Some(digits_value(stem) as u32)
    } else {
        None
    }
}

/// Classifies a directory entry: `None` for a file that is not a segment; the
/// segment id for one whose name ends with `.data`; an error for a segment
/// name that holds no id, which means the directory is corrupt.
pub fn data_file_id(name: &[u8]) -> (r: Result<Option<u32>>)
    ensures
        !ends_with(name@, data_suffix()) ==> r == Ok::<Option<u32>, Errors>(None),
        ends_with(name@, data_suffix()) ==> r == (match name_id(name@) {
            Some(id) => Ok::<Option<u32>, Errors>(Some(id)),
            None => Err(Errors::DatabaseDirectoryCorrupted),
        }),
{
    let suffix: [u8; 5] = [46u8, 100u8, 97u8, 116u8, 97u8];
    assert(suffix@ =~= data_suffix());
    if !has_suffix(name, &suffix) {
        return Ok(None);
    }
    let mut i: usize = 0;
    while i < name.len() && name[i] != 46u8
        invariant
            i <= name@.len(),
            forall|j: int| 0 <= j < i ==> name@[j] != 46u8,
        decreases name@.len() - i,
    {
        i = i + 1;
    }
    proof {
        lemma_before_dot(name@, i as int);
    }
    let stem = vstd::slice::slice_subrange(name, 0, i);
    match parse_decimal(stem) {
        Some(v) => {
            if v <= u32::MAX as u64 {
                Ok(Some(v as u32))
            } else {
                Err(Errors::DatabaseDirectoryCorrupted)
            }
        },
        None => Err(Errors::DatabaseDirectoryCorrupted),
    }
}

/// Each id is smaller than the next.
pub open spec fn ascending(ids: Seq<u32>) -> bool {
    forall|i: int, j: int| 0 <= i < j < ids.len() ==> #[trigger] ids[i] < #[trigger] ids[j]
}

/// Adds `x` to the ascending `v`, unless it is there already.
fn insert_id(v: &mut Vec<u32>, x: u32)
    requires
        ascending(old(v)@),
    ensures
        ascending(final(v)@),
        forall|y: u32| #[trigger] final(v)@.contains(y) <==> old(v)@.contains(y) || y == x,
{
    let mut i: usize = 0;
    while i < v.len() && v[i] < x
        invariant
            i <= v@.len(),
            forall|j: int| 0 <= j < i ==> v@[j] < x,
        decreases v@.len() - i,
    {
        i = i + 1;
    }
    if i < v.len() && v[i] == x {
        return;
    }
    let ghost before = v@;
    v.insert(i, x);
    proof {
        assert forall|a: int, b: int| 0 <= a < b < v@.len() implies #[trigger] v@[a] < #[trigger] v@[b] by {
            if b < i {
            } else if b == i {
            } else if a < i {
                assert(v@[b] == before[b - 1]);
                assert(before[i as int] > x);
                if b - 1 > i {
                    assert(before[i as int] < before[b - 1]);
                }
            } else if a == i {
                assert(v@[b] == before[b - 1]);
                if b - 1 > i {
                    assert(before[i as int] < before[b - 1]);
                }
            } else {
                assert(v@[a] == before[a - 1]);
                assert(v@[b] == before[b - 1]);
            }
        }
        assert forall|y: u32| #[trigger] v@.contains(y) <==> before.contains(y) || y == x by {
            if before.contains(y) {
                let j = choose|j: int| 0 <= j < before.len() && before[j] == y;
                if j < i {
                    assert(v@[j] == y);
                } else {
                    assert(v@[j + 1] == y);
                }
            }
            if y == x {
                assert(v@[i as int] == x);
            }
            if v@.contains(y) {
                let j = choose|j: int| 0 <= j < v@.len() && v@[j] == y;
                if j < i {
                    assert(before[j] == y);
                } else if j > i {
                    assert(before[j - 1] == y);
                }
            }
        }
    }
}

/// The ids in ascending order, each once.
pub fn sort_ids(ids: &[u32]) -> (r: Vec<u32>)
    ensures
        ascending(r@),
        forall|y: u32| #[trigger] r@.contains(y) <==> ids@.contains(y),
{
    let mut r: Vec<u32> = Vec::new();
    let mut i: usize = 0;
    while i < ids.len()
        invariant
            i <= ids@.len(),
            ascending(r@),
            forall|y: u32| #[trigger] r@.contains(y) <==> ids@.subrange(0, i as int).contains(y),
        decreases ids@.len() - i,
    {
        insert_id(&mut r, ids[i]);
        proof {
            assert forall|y: u32| #[trigger] ids@.subrange(0, i + 1).contains(y) <==> ids@.subrange(0, i as int).contains(y) || y == ids@[i as int] by {
                if ids@.subrange(0, i + 1).contains(y) {
                    let j = choose|j: int| 0 <= j < i + 1 && #[trigger] ids@.subrange(0, i + 1)[j] == y;
                    if j < i {
                        assert(ids@.subrange(0, i as int)[j] == y);
                    }
                }
                if ids@.subrange(0, i as int).contains(y) {
                    let j = choose|j: int| 0 <= j < i && #[trigger] ids@.subrange(0, i as int)[j] == y;
                    assert(ids@.subrange(0, i + 1)[j] == y);
                }
                if y == ids@[i as int] {
                    assert(ids@.subrange(0, i + 1)[i as int] == y);
                }
            }
        }
        i = i + 1;
    }
    assert(ids@.subrange(0, i as int) =~= ids@);
    r
}

/// A directory entry is a segment whose name gives `id`.
pub open spec fn names_segment(name: Seq<u8>, id: u32) -> bool {
    ends_with(name, data_suffix()) && name_id(name) == Some(id)
}

/// The ids of the segments among the directory entries `names`, ascending.
/// A segment name without an id means the directory is corrupt.
pub fn data_file_ids(names: &Vec<Vec<u8>>) -> (r: Result<Vec<u32>>)
    ensures
        r is Err <==> exists|i: int|
            0 <= i < names@.len() && ends_with(#[trigger] names@[i]@, data_suffix()) && name_id(
                names@[i]@,
            ) is None,
        r is Err ==> r == Err::<Vec<u32>, Errors>(Errors::DatabaseDirectoryCorrupted),
        r is Ok ==> ascending(r->Ok_0@) && forall|id: u32|
            #[trigger] r->Ok_0@.contains(id) <==> exists|i: int|
                0 <= i < names@.len() && names_segment(#[trigger] names@[i]@, id),
{
    let mut ids: Vec<u32> = Vec::new();
    let mut i: usize = 0;
    while i < names.len()
        invariant
            i <= names@.len(),
            forall|j: int|
                0 <= j < i ==> !(ends_with(#[trigger] names@[j]@, data_suffix()) && name_id(
                    names@[j]@,
                ) is None),
            forall|id: u32|
                #[trigger] ids@.contains(id) <==> exists|j: int|
                    0 <= j < i && names_segment(#[trigger] names@[j]@, id),
        decreases names@.len() - i,
    {
        match data_file_id(names[i].as_slice()) {
            Ok(Some(id)) => {
                let ghost before = ids@;
                ids.push(id);
                proof {
                    assert(names_segment(names@[i as int]@, id));
                    assert forall|y: u32| #[trigger] ids@.contains(y) <==> exists|j: int|
                        0 <= j < i + 1 && names_segment(#[trigger] names@[j]@, y) by {
                        if ids@.contains(y) {
                            let k = choose|k: int| 0 <= k < ids@.len() && ids@[k] == y;
                            if k < before.len() {
                                assert(before[k] == y);
                                assert(before.contains(y));
                                let j = choose|j: int| 0 <= j < i && names_segment(#[trigger] names@[j]@, y);
                                assert(0 <= j < i + 1 && names_segment(names@[j]@, y));
                            } else {
                                assert(y == id);
                                assert(names_segment(names@[i as int]@, y));
                            }
                        }
                        if exists|j: int| 0 <= j < i + 1 && names_segment(#[trigger] names@[j]@, y) {
                            let j = choose|j: int| 0 <= j < i + 1 && names_segment(#[trigger] names@[j]@, y);
                            if j < i {
                                assert(before.contains(y));
                                let k = choose|k: int| 0 <= k < before.len() && before[k] == y;
                                assert(ids@[k] == y);
                            } else {
                                assert(y == id);
                                assert(ids@[before.len() as int] == y);
                            }
                        }
                    }
                }
            },
            Ok(None) => {},
            Err(e) => {
                return Err(e);
            },
        }
        i = i + 1;
    }
    Ok(sort_ids(ids.as_slice()))
}

} // verus!
