//! The passes that turn a builder's records into a finished hierarchy:
//! folder totals, the child index, and the size order with prefix sums.
use crate::cancel::cancelled;
use crate::model::{
    range_of, dir_count, dirs_ok, kid_count, record_ok, records_ok, Dataset, Directory, LoadStats, Node,
    UNKNOWN_SIZE,
};
use crate::totals::{
    bytes_overflow, files_overflow, kids_bytes, kids_files, kids_unknown, lemma_kids_mono,
    lemma_kids_split_low, lemma_subtree_nonneg, subtree_bytes, subtree_files, subtree_unknown,
    with_totals,
};
use std::sync::atomic::AtomicBool;
use vstd::prelude::*;
use vstd::string::StringSliceAdditionalSpecFns;

verus! {

pub open spec fn lower(i: int, j: int) -> int {
    if i > j + 1 {
        i
    } else {
        j + 1
    }
}

/// Record `j` once the records from `i` on have been added to their parents.
pub open spec fn partly_totalled(s: Seq<Node>, j: int, i: int) -> Node {
    let n = s.len() as int;
    Node {
        bytes: (s[j].bytes + kids_bytes(s, j, lower(i, j), n)) as u64,
        flags: if s[j].flags != 0 || kids_unknown(s, j, lower(i, j), n) {
            1
        } else {
            0
        },
        ..s[j]
    }
}

/// The metadata of folder `j` once the records from `i` on are counted.
pub open spec fn partly_counted(s: Seq<Node>, j: int, i: int) -> Directory {
    let n = s.len() as int;
    Directory {
        child_start: 0,
        child_count: kid_count(s, j, n) as u32,
        file_count: kids_files(s, j, lower(i, j), n) as u32,
    }
}

pub proof fn lemma_flag_or(a: u8, b: u8)
    requires
        a == 0 || a == 1,
        b == 0 || b == 1,
    ensures
        (a | b) == (if a == 1 || b == 1 {
            1u8
        } else {
            0u8
        }),
{
    assert((a == 0 || a == 1) && (b == 0 || b == 1) ==> (a | b) == (if a == 1 || b == 1 {
        1u8
    } else {
        0u8
    })) by (bit_vector);
}

/// Adding record `c` to its parent leaves the other records as they were.
proof fn lemma_step_other(s: Seq<Node>, c: int, j: int)
    requires
        records_ok(s),
        0 < c < s.len(),
        0 <= j < s.len(),
        j != s[c].parent,
    ensures
        partly_totalled(s, j, c) == partly_totalled(s, j, c + 1),
        kids_files(s, j, lower(c, j), s.len() as int) == kids_files(s, j, lower(c + 1, j), s.len() as int),
{
    let n = s.len() as int;
    if j < c {
        lemma_kids_split_low(s, j, c, n);
        assert(lower(c, j) == c);
        assert(lower(c + 1, j) == c + 1);
    } else {
        assert(lower(c, j) == lower(c + 1, j));
    }
}

proof fn lemma_step_other_bytes(s: Seq<Node>, c: int, j: int)
    requires
        records_ok(s),
        0 < c < s.len(),
        0 <= j < s.len(),
        j != s[c].parent,
    ensures
        kids_bytes(s, j, lower(c, j), s.len() as int) == kids_bytes(s, j, lower(c + 1, j), s.len() as int),
{
    let n = s.len() as int;
    if j < c {
        lemma_kids_split_low(s, j, c, n);
        assert(lower(c, j) == c);
        assert(lower(c + 1, j) == c + 1);
    } else {
        assert(lower(c, j) == lower(c + 1, j));
    }
}

/// Adding record `c` to its parent: the parent's sums gain exactly `c`'s subtree.
proof fn lemma_step(s: Seq<Node>, c: int)
    requires
        records_ok(s),
        0 < c < s.len(),
    ensures
        forall|j: int|
            0 <= j < s.len() && j != s[c].parent ==> #[trigger] partly_totalled(s, j, c)
                == partly_totalled(s, j, c + 1) && kids_files(s, j, lower(c, j), s.len() as int)
                == kids_files(s, j, lower(c + 1, j), s.len() as int),
        ({
            let p = s[c].parent as int;
            let n = s.len() as int;
            &&& kids_bytes(s, p, c, n) == subtree_bytes(s, c) + kids_bytes(s, p, c + 1, n)
            &&& kids_files(s, p, c, n) == subtree_files(s, c) + kids_files(s, p, c + 1, n)
            &&& kids_unknown(s, p, c, n) == (subtree_unknown(s, c) || kids_unknown(s, p, c + 1, n))
            &&& lower(c, p) == c
            &&& lower(c + 1, p) == c + 1
        }),
        subtree_bytes(s, c) == s[c].bytes + kids_bytes(s, c, lower(c + 1, c), s.len() as int),
        subtree_files(s, c) == (if s[c].spec_is_dir() {
            kids_files(s, c, lower(c + 1, c), s.len() as int)
        } else {
            1
        }),
        subtree_unknown(s, c) == (s[c].flags != 0 || kids_unknown(s, c, lower(c + 1, c), s.len() as int)),
{
    let n = s.len() as int;
    let p = s[c].parent as int;
    assert(p < c);
    assert forall|j: int|
        0 <= j < s.len() && j != p implies #[trigger] partly_totalled(s, j, c) == partly_totalled(s, j, c + 1)
        && kids_files(s, j, lower(c, j), s.len() as int) == kids_files(s, j, lower(c + 1, j), s.len() as int) by {
        lemma_step_other(s, c, j);
    }
    lemma_kids_split_low(s, p, c, n);
}

/// Adds every record to its parent's size, file count and unknown flag. Every
/// parent precedes its children, so one reverse pass is sufficient.
pub fn add_totals(nodes: &mut Vec<Node>, dirs: &mut Vec<Directory>, cancel: &AtomicBool) -> (r:
    Result<(), String>)
    requires
        records_ok(old(nodes)@),
        dirs_ok(old(nodes)@, old(dirs)@),
    ensures
        r is Ok ==> {
            &&& final(nodes)@.len() == old(nodes)@.len()
            &&& final(dirs)@.len() == old(dirs)@.len()
            &&& forall|j: int|
                0 <= j < old(nodes)@.len() ==> #[trigger] final(nodes)@[j] == with_totals(
                    old(nodes)@,
                    j,
                )
            &&& forall|j: int|
                0 <= j < old(nodes)@.len() && (#[trigger] old(nodes)@[j]).spec_is_dir()
                    ==> final(dirs)@[old(nodes)@[j].directory as int] == (Directory {
                    child_start: 0,
                    child_count: kid_count(old(nodes)@, j, old(nodes)@.len() as int) as u32,
                    file_count: subtree_files(old(nodes)@, j) as u32,
                })
            &&& forall|j: int| 0 <= j < old(nodes)@.len() ==> subtree_bytes(old(nodes)@, j) <= u64::MAX
            &&& forall|j: int| 0 <= j < old(nodes)@.len() ==> subtree_files(old(nodes)@, j) <= u32::MAX
        },
        r matches Err(e) ==> (e@ == "Cancelled"@ || (e@ == "The total byte count overflowed u64."@
            && bytes_overflow(old(nodes)@)) || (e@ == "The file count overflowed u32."@
            && files_overflow(old(nodes)@))),
        !bytes_overflow(old(nodes)@) && !files_overflow(old(nodes)@) ==> (r is Ok || (r matches Err(
            e,
        ) && e@ == "Cancelled"@)),
        old(nodes)@.len() <= 65536 ==> (r matches Err(e) ==> e@ != "Cancelled"@),
{
    let ghost s = nodes@;
    let ghost d0 = dirs@;
    let count = nodes.len();
    let mut i = count;
    proof {
        assert forall|j: int|
            0 <= j < s.len() implies #[trigger] nodes@[j] == partly_totalled(s, j, i as int) && s[j].bytes
            + kids_bytes(s, j, lower(i as int, j), s.len() as int) <= u64::MAX by {
            assert(record_ok(s, j));
            lemma_subtree_nonneg(s, j);
            assert(kids_bytes(s, j, lower(i as int, j), s.len() as int) == 0);
            assert(!kids_unknown(s, j, lower(i as int, j), s.len() as int));
        }
    }
    while i > 1
        invariant
            1 <= i <= count,
            count == s.len(),
            s == old(nodes)@,
            d0 == old(dirs)@,
            records_ok(s),
            dirs_ok(s, d0),
            nodes@.len() == s.len(),
            dirs@.len() == d0.len(),
            forall|j: int|
                0 <= j < s.len() ==> #[trigger] nodes@[j] == partly_totalled(s, j, i as int) && s[j].bytes
                    + kids_bytes(s, j, lower(i as int, j), s.len() as int) <= u64::MAX,
            forall|j: int|
                0 <= j < s.len() && (#[trigger] s[j]).spec_is_dir() ==> dirs@[s[j].directory as int]
                    == partly_counted(s, j, i as int) && kids_files(s, j, lower(i as int, j), s.len() as int)
                    <= u32::MAX,
        decreases i,
    {
        i = i - 1;
        if i % 65536 == 0 && cancelled(cancel) {
            proof {
                assert(count > 65536);
            }
            return Err("Cancelled".to_string());
        }
        let n = nodes[i];
        let pi = n.parent as usize;
        proof {
            assert(n == partly_totalled(s, i as int, i + 1));
            assert(s[i as int].parent < i);
            lemma_step(s, i as int);
            assert(record_ok(s, pi as int));
            assert(record_ok(s, i as int));
            crate::model::lemma_dir_index_below_count(s, pi as int);
            if s[i as int].spec_is_dir() {
                crate::model::lemma_dir_index_below_count(s, i as int);
            }
        }
        let p = nodes[pi];
        let new_bytes = match p.bytes.checked_add(n.bytes) {
            Some(b) => b,
            None => {
                proof {
                    let nn = s.len() as int;
                    lemma_kids_mono(s, pi as int, pi + 1, i as int, nn);
                    assert(p == partly_totalled(s, pi as int, i + 1));
                    crate::totals::lemma_kids_nonneg(s, pi as int, i + 1, nn);
                    crate::totals::lemma_kids_nonneg(s, i as int, i + 1, nn);
                    assert(s[pi as int].bytes + kids_bytes(s, pi as int, lower(i + 1, pi as int), nn) <= u64::MAX);
                    assert(s[i as int].bytes + kids_bytes(s, i as int, lower(i + 1, i as int), nn) <= u64::MAX);
                    assert(lower(i + 1, pi as int) == i + 1);
                    assert(p.bytes == s[pi as int].bytes + kids_bytes(s, pi as int, i + 1, nn));
                    assert(n.bytes == subtree_bytes(s, i as int));
                    assert(kids_bytes(s, pi as int, i as int, nn) == subtree_bytes(s, i as int)
                        + kids_bytes(s, pi as int, i + 1, nn));
                    assert(subtree_bytes(s, pi as int) == s[pi as int].bytes + kids_bytes(s, pi as int, pi + 1, nn));
                    assert(subtree_bytes(s, pi as int) > u64::MAX);
                }
                proof {
                    reveal_strlit("Cancelled");
                    reveal_strlit("The total byte count overflowed u64.");
                    assert("Cancelled"@.len() != "The total byte count overflowed u64."@.len());
                }
                return Err("The total byte count overflowed u64.".to_string());
            },
        };
        let files: u32 = if n.is_dir() {
            dirs[n.directory as usize].file_count
        } else {
            1
        };
        let pd = p.directory as usize;
        let dp = dirs[pd];
        let new_files = match dp.file_count.checked_add(files) {
            Some(f) => f,
            None => {
                proof {
                    let nn = s.len() as int;
                    lemma_kids_mono(s, pi as int, pi + 1, i as int, nn);
                    crate::totals::lemma_kids_nonneg(s, pi as int, i + 1, nn);
                    crate::totals::lemma_kids_nonneg(s, i as int, i + 1, nn);
                    assert(record_ok(s, pi as int));
                    assert(s[pi as int].spec_is_dir());
                    assert(dirs@[s[pi as int].directory as int] == partly_counted(s, pi as int, i + 1));
                    assert(kids_files(s, pi as int, lower(i + 1, pi as int), nn) <= u32::MAX);
                    assert(dp.file_count == kids_files(s, pi as int, i + 1, nn));
                    if s[i as int].spec_is_dir() {
                        assert(dirs@[s[i as int].directory as int] == partly_counted(s, i as int, i + 1));
                        assert(kids_files(s, i as int, lower(i + 1, i as int), nn) <= u32::MAX);
                    }
                    assert(files == subtree_files(s, i as int));
                    assert(subtree_files(s, pi as int) == kids_files(s, pi as int, pi + 1, nn));
                    assert(subtree_files(s, pi as int) > u32::MAX);
                }
                proof {
                    reveal_strlit("Cancelled");
                    reveal_strlit("The file count overflowed u32.");
                    assert("Cancelled"@.len() != "The file count overflowed u32."@.len());
                }
                return Err("The file count overflowed u32.".to_string());
            },
        };
        proof {
            lemma_flag_or(p.flags, n.flags);
        }
        let ghost pre_nodes = nodes@;
        let ghost pre_dirs = dirs@;
        proof {
            assert forall|j: int| 0 <= j < s.len() implies #[trigger] pre_nodes[j] == partly_totalled(s, j, i + 1)
                && s[j].bytes + kids_bytes(s, j, lower(i + 1, j), s.len() as int) <= u64::MAX by {
                assert(nodes@[j] == partly_totalled(s, j, i + 1));
            }
            assert(p == partly_totalled(s, pi as int, i + 1));
            assert(pd == s[pi as int].directory);
        }
        nodes.set(
            pi,
            Node {
                bytes: new_bytes,
                name_offset: p.name_offset,
                parent: p.parent,
                directory: p.directory,
                name_len: p.name_len,
                kind: p.kind,
                flags: p.flags | n.flags,
            },
        );
        dirs.set(
            pd,
            Directory { child_start: dp.child_start, child_count: dp.child_count, file_count: new_files },
        );
        proof {
            assert forall|j: int|
                0 <= j < s.len() implies #[trigger] nodes@[j] == partly_totalled(s, j, i as int) && s[j].bytes
                + kids_bytes(s, j, lower(i as int, j), s.len() as int) <= u64::MAX by {
                if j != pi {
                    assert(pre_nodes[j] == partly_totalled(s, j, i + 1));
                    assert(s[j].bytes + kids_bytes(s, j, lower(i + 1, j), s.len() as int) <= u64::MAX);
                    assert(nodes@[j] == pre_nodes[j]);
                    lemma_step_other(s, i as int, j);
                    lemma_step_other_bytes(s, i as int, j);
                } else {
                    let nn = s.len() as int;
                    crate::totals::lemma_kids_nonneg(s, pi as int, i + 1, nn);
                    crate::totals::lemma_kids_nonneg(s, pi as int, i as int, nn);
                    crate::totals::lemma_kids_nonneg(s, i as int, i + 1, nn);
                    assert(s[pi as int].bytes + kids_bytes(s, pi as int, lower(i + 1, pi as int), nn) <= u64::MAX);
                    assert(s[i as int].bytes + kids_bytes(s, i as int, lower(i + 1, i as int), nn) <= u64::MAX);
                    assert(p.bytes == s[pi as int].bytes + kids_bytes(s, pi as int, i + 1, nn));
                    assert(n.bytes == subtree_bytes(s, i as int));
                    assert(new_bytes == s[pi as int].bytes + kids_bytes(s, pi as int, i as int, nn));
                    assert(nodes@[j].bytes == partly_totalled(s, j, i as int).bytes);
                    assert(nodes@[j].flags == partly_totalled(s, j, i as int).flags);
                }
            }
            assert forall|j: int|
                0 <= j < s.len() && (#[trigger] s[j]).spec_is_dir() implies dirs@[s[j].directory as int]
                == partly_counted(s, j, i as int) && kids_files(s, j, lower(i as int, j), s.len() as int)
                <= u32::MAX by {
                let nn = s.len() as int;
                if j != pi {
                    assert(record_ok(s, j));
                    assert(s[j].directory != s[pi as int].directory) by {
                        crate::model::lemma_dir_index_distinct(s, j, pi as int);
                    }
                    lemma_step_other(s, i as int, j);
                    assert(pre_dirs[s[j].directory as int] == partly_counted(s, j, i + 1));
                    crate::model::lemma_dir_index_below_count(s, j);
                    assert(dirs@[s[j].directory as int] == pre_dirs[s[j].directory as int]);
                } else {
                    crate::totals::lemma_kids_nonneg(s, pi as int, i + 1, nn);
                    crate::totals::lemma_kids_nonneg(s, i as int, i + 1, nn);
                    assert(dp == partly_counted(s, pi as int, i + 1));
                    assert(kids_files(s, pi as int, lower(i + 1, pi as int), nn) <= u32::MAX);
                    if s[i as int].spec_is_dir() {
                        assert(dirs@[s[i as int].directory as int] == partly_counted(s, i as int, i + 1))
                            by {
                            crate::model::lemma_dir_index_distinct(s, i as int, pi as int);
                        }
                        assert(kids_files(s, i as int, lower(i + 1, i as int), nn) <= u32::MAX);
                    }
                    assert(files == subtree_files(s, i as int));
                    assert(new_files == kids_files(s, pi as int, i as int, nn));
                }
            }
        }
    }
    proof {
        assert forall|j: int| 0 <= j < s.len() implies #[trigger] nodes@[j] == with_totals(s, j) by {
            assert(nodes@[j] == partly_totalled(s, j, 1));
        }
        assert forall|j: int| 0 <= j < s.len() implies subtree_bytes(s, j) <= u64::MAX by {
            assert(nodes@[j] == partly_totalled(s, j, 1) && s[j].bytes + kids_bytes(
                s,
                j,
                lower(1, j),
                s.len() as int,
            ) <= u64::MAX);
        }
        assert forall|j: int| 0 <= j < s.len() implies subtree_files(s, j) <= u32::MAX by {
            if s[j].spec_is_dir() {
                assert(kids_files(s, j, lower(1, j), s.len() as int) <= u32::MAX);
            }
        }
    }
    Ok(())
}

/// Folder-metadata index of the parent of record `c`.
pub open spec fn parent_dir(s: Seq<Node>, c: int) -> int {
    s[s[c].parent as int].directory as int
}

/// Number of records among `1..k` whose parent's metadata index is below `d`:
/// where the children of folder record `d` start in the child index.
pub open spec fn below(s: Seq<Node>, d: int, k: int) -> int
    decreases k,
{
    if k <= 1 || k > s.len() {
        0
    } else {
        below(s, d, k - 1) + if parent_dir(s, k - 1) < d {
            1int
        } else {
            0int
        }
    }
}

pub proof fn lemma_below_mono(s: Seq<Node>, d1: int, d2: int, k: int)
    requires
        d1 <= d2,
    ensures
        below(s, d1, k) <= below(s, d2, k),
    decreases k,
{
    if k > 1 && k <= s.len() {
        lemma_below_mono(s, d1, d2, k - 1);
    }
}

pub proof fn lemma_below_le(s: Seq<Node>, d: int, k: int)
    ensures
        0 <= below(s, d, k),
        k >= 1 ==> below(s, d, k) <= k - 1,
    decreases k,
{
    if k > 1 && k <= s.len() {
        lemma_below_le(s, d, k - 1);
    }
}

/// The children of folder `j` are exactly the records whose parent has `j`'s metadata index.
pub proof fn lemma_kid_count_below(s: Seq<Node>, j: int, k: int)
    requires
        records_ok(s),
        0 <= j < s.len(),
        s[j].spec_is_dir(),
        k <= s.len(),
    ensures
        kid_count(s, j, k) == below(s, s[j].directory + 1, k) - below(s, s[j].directory as int, k),
    decreases k,
{
    if k > 1 {
        lemma_kid_count_below(s, j, k - 1);
        let c = k - 1;
        let p = s[c].parent as int;
        assert(record_ok(s, j));
        assert(record_ok(s, p));
        if p != j {
            crate::model::lemma_dir_index_distinct(s, p, j);
        }
    }
}

/// Every record but the root has a parent with some metadata index below the count.
pub proof fn lemma_below_all(s: Seq<Node>, k: int)
    requires
        records_ok(s),
        1 <= k <= s.len(),
    ensures
        below(s, dir_count(s) as int, k) == k - 1,
    decreases k,
{
    if k > 1 {
        lemma_below_all(s, k - 1);
        let p = s[k - 1].parent as int;
        assert(record_ok(s, p));
        crate::model::lemma_dir_index_below_count(s, p);
    }
}

/// Every metadata index belongs to some folder record.
pub proof fn lemma_dir_owner(s: Seq<Node>, d: int, m: int)
    requires
        records_ok(s),
        0 <= m <= s.len(),
        0 <= d < dir_count(s.take(m)),
    ensures
        exists|j: int| 0 <= j < m && (#[trigger] s[j]).spec_is_dir() && s[j].directory == d,
    decreases m,
{
    if m > 0 {
        crate::model::lemma_dir_count_take(s, m - 1);
        if d < dir_count(s.take(m - 1)) {
            lemma_dir_owner(s, d, m - 1);
        } else {
            assert(record_ok(s, m - 1));
            assert(s[m - 1].spec_is_dir());
        }
    } else {
        assert(s.take(0) =~= Seq::<Node>::empty());
    }
}

/// Each folder's metadata counts its children and has no child range yet.
pub open spec fn counts_ok(s: Seq<Node>, dirs: Seq<Directory>) -> bool {
    &&& dirs.len() == dir_count(s)
    &&& forall|j: int|
        0 <= j < s.len() && (#[trigger] s[j]).spec_is_dir() ==> dirs[s[j].directory as int].child_start == 0
            && dirs[s[j].directory as int].child_count == kid_count(s, j, s.len() as int)
}

pub proof fn lemma_kids_len(s: Seq<Node>, j: int, k: int)
    ensures
        crate::totals::kids(s, j, 1, k).len() == kid_count(s, j, k),
    decreases k,
{
    if k > 1 && k <= s.len() {
        lemma_kids_len(s, j, k - 1);
    }
}

pub proof fn lemma_kid_count_mono(s: Seq<Node>, j: int, k1: int, k2: int)
    requires
        k1 <= k2 <= s.len(),
    ensures
        kid_count(s, j, k1) <= kid_count(s, j, k2),
    decreases k2 - k1,
{
    if k1 < k2 {
        lemma_kid_count_mono(s, j, k1, k2 - 1);
    }
}

/// Places every record in its parent's range of the child index, in id order.
pub fn index_children(nodes: &Vec<Node>, dirs: &mut Vec<Directory>, cancel: &AtomicBool, Ghost(
    s,
): Ghost<Seq<Node>>) -> (r: Result<Vec<crate::model::Id>, String>)
    requires
        records_ok(s),
        counts_ok(s, old(dirs)@),
        nodes@.len() == s.len(),
        forall|j: int|
            0 <= j < s.len() ==> (#[trigger] nodes@[j]).parent == s[j].parent && nodes@[j].directory
                == s[j].directory && nodes@[j].kind == s[j].kind,
    ensures
        r matches Err(e) ==> e@ == "Cancelled"@,
        r matches Ok(children) ==> {
            &&& children@.len() == s.len() - 1
            &&& final(dirs)@.len() == old(dirs)@.len()
            &&& forall|j: int|
                0 <= j < s.len() && (#[trigger] s[j]).spec_is_dir() ==> {
                    let d = s[j].directory as int;
                    &&& final(dirs)@[d] == Directory {
                        child_start: below(s, d, s.len() as int) as u32,
                        child_count: kid_count(s, j, s.len() as int) as u32,
                        file_count: old(dirs)@[d].file_count,
                    }
                    &&& below(s, d + 1, s.len() as int) <= s.len() - 1
                    &&& children@.subrange(
                        below(s, d, s.len() as int),
                        below(s, d + 1, s.len() as int),
                    ) == crate::totals::kids(s, j, 1, s.len() as int)
                }
        },
{
    let count = nodes.len();
    let ghost n = s.len() as int;
    let ghost d0 = dirs@;
    let ghost dn = dir_count(s) as int;
    proof {
        lemma_below_all(s, n);
        crate::model::lemma_dir_count_le(s);
        assert(s.take(n) =~= s);
        lemma_below_zero(s, n);
    }
    let mut offset: u32 = 0;
    let mut d: usize = 0;
    while d < dirs.len()
        invariant
            records_ok(s),
            counts_ok(s, d0),
            n == s.len(),
            dirs@.len() == d0.len(),
            d0.len() == dn,
            dn == dir_count(s),
            below(s, dn, n) == n - 1,
            d <= dirs@.len(),
            offset == below(s, d as int, n),
            forall|dd: int| d <= dd < d0.len() ==> #[trigger] dirs@[dd] == d0[dd],
            forall|dd: int|
                0 <= dd < d ==> #[trigger] dirs@[dd] == (Directory {
                    child_start: below(s, dd, n) as u32,
                    child_count: 0,
                    file_count: d0[dd].file_count,
                }),
        decreases dirs@.len() - d,
    {
        let x = dirs[d];
        proof {
            assert(s.take(n) =~= s);
            lemma_dir_owner(s, d as int, n);
            let j = choose|j: int| 0 <= j < n && (#[trigger] s[j]).spec_is_dir() && s[j].directory == d;
            lemma_kid_count_below(s, j, n);
            lemma_below_mono(s, d + 1, dn, n);
            lemma_below_le(s, d as int, n);
            assert(x.child_count == below(s, d + 1, n) - below(s, d as int, n));
        }
        dirs.set(d, Directory { child_start: offset, child_count: 0, file_count: x.file_count });
        offset = offset + x.child_count;
        d = d + 1;
    }
    let mut children: Vec<crate::model::Id> = vec![0; count - 1];
    let mut i: usize = 1;
    proof {
        assert forall|j: int| 0 <= j < n && (#[trigger] s[j]).spec_is_dir() implies {
            let dj = s[j].directory as int;
            &&& dirs@[dj] == Directory {
                child_start: below(s, dj, n) as u32,
                child_count: kid_count(s, j, 1) as u32,
                file_count: d0[dj].file_count,
            }
            &&& children@.subrange(below(s, dj, n), below(s, dj, n) + kid_count(s, j, 1))
                == crate::totals::kids(s, j, 1, 1)
        } by {
            assert(record_ok(s, j));
            crate::model::lemma_dir_index_below_count(s, j);
            assert(crate::totals::kids(s, j, 1, 1) =~= Seq::<crate::model::Id>::empty());
            lemma_below_le(s, s[j].directory as int, n);
        }
    }
    while i < count
        invariant
            records_ok(s),
            n == s.len(),
            count == n,
            1 <= i <= count,
            children@.len() == n - 1,
            dirs@.len() == d0.len(),
            d0.len() == dn,
            dn == dir_count(s),
            below(s, dn, n) == n - 1,
            counts_ok(s, d0),
            nodes@.len() == s.len(),
            forall|j: int|
                0 <= j < s.len() ==> (#[trigger] nodes@[j]).parent == s[j].parent && nodes@[j].directory
                    == s[j].directory && nodes@[j].kind == s[j].kind,
            forall|j: int|
                0 <= j < n && (#[trigger] s[j]).spec_is_dir() ==> {
                    let dj = s[j].directory as int;
                    &&& dirs@[dj] == Directory {
                        child_start: below(s, dj, n) as u32,
                        child_count: kid_count(s, j, i as int) as u32,
                        file_count: d0[dj].file_count,
                    }
                    &&& children@.subrange(below(s, dj, n), below(s, dj, n) + kid_count(s, j, i as int))
                        == crate::totals::kids(s, j, 1, i as int)
                },
        decreases count - i,
    {
        if i % 65536 == 0 && cancelled(cancel) {
            return Err("Cancelled".to_string());
        }
        let parent = nodes[i].parent as usize;
        let pd = nodes[parent].directory as usize;
        let ghost p = parent as int;
        let ghost pre = children@;
        let ghost pre_dirs = dirs@;
        proof {
            assert(nodes@[i as int].parent == s[i as int].parent);
            assert(s[i as int].parent < i);
            assert(nodes@[p].directory == s[p].directory);
            assert(record_ok(s, p));
            crate::model::lemma_dir_index_below_count(s, p);
            lemma_kid_count_below(s, p, n);
            lemma_kid_count_mono(s, p, i + 1, n);
            lemma_below_mono(s, pd + 1, dn, n);
            lemma_below_le(s, pd as int, n);
        }
        let x = dirs[pd];
        proof {
            assert(s[p].spec_is_dir());
            assert(x.child_start == below(s, pd as int, n));
            assert(x.child_count == kid_count(s, p, i as int));
        }
        let pos = (x.child_start + x.child_count) as usize;
        children.set(pos, i as crate::model::Id);
        dirs.set(
            pd,
            Directory { child_start: x.child_start, child_count: x.child_count + 1, file_count: x.file_count },
        );
        proof {
            assert forall|j: int| 0 <= j < n && (#[trigger] s[j]).spec_is_dir() implies {
                let dj = s[j].directory as int;
                &&& dirs@[dj] == Directory {
                    child_start: below(s, dj, n) as u32,
                    child_count: kid_count(s, j, i + 1) as u32,
                    file_count: d0[dj].file_count,
                }
                &&& children@.subrange(below(s, dj, n), below(s, dj, n) + kid_count(s, j, i + 1))
                    == crate::totals::kids(s, j, 1, i + 1)
            } by {
                let dj = s[j].directory as int;
                assert(pre_dirs[dj] == Directory {
                    child_start: below(s, dj, n) as u32,
                    child_count: kid_count(s, j, i as int) as u32,
                    file_count: d0[dj].file_count,
                });
                assert(pre.subrange(below(s, dj, n), below(s, dj, n) + kid_count(s, j, i as int))
                    == crate::totals::kids(s, j, 1, i as int));
                lemma_place_step(s, i as int, j, pre, children@, pos as int);
                if j != p {
                    crate::model::lemma_dir_index_distinct(s, j, p);
                    assert(record_ok(s, j));
                    crate::model::lemma_dir_index_below_count(s, j);
                    assert(pd == s[p].directory);
                    assert(dj != pd as int);
                    assert(dirs@[dj] == pre_dirs[dj]);
                }
            }
        }
        i = i + 1;
    }
    proof {
        assert forall|j: int| 0 <= j < s.len() && (#[trigger] s[j]).spec_is_dir() implies {
            let d = s[j].directory as int;
            &&& dirs@[d] == Directory {
                child_start: below(s, d, s.len() as int) as u32,
                child_count: kid_count(s, j, s.len() as int) as u32,
                file_count: d0[d].file_count,
            }
            &&& below(s, d + 1, s.len() as int) <= s.len() - 1
            &&& children@.subrange(below(s, d, s.len() as int), below(s, d + 1, s.len() as int))
                == crate::totals::kids(s, j, 1, s.len() as int)
        } by {
            let d = s[j].directory as int;
            assert(record_ok(s, j));
            crate::model::lemma_dir_index_below_count(s, j);
            lemma_kid_count_below(s, j, n);
            lemma_below_mono(s, d + 1, dn, n);
        }
    }
    Ok(children)
}

/// Placing record `i` at `pos`, the start of its parent's free slots, extends
/// its parent's range by `i` and leaves every other folder's range as it was.
proof fn lemma_place_step(s: Seq<Node>, i: int, j: int, pre: Seq<crate::model::Id>, post: Seq<
    crate::model::Id,
>, pos: int)
    requires
        records_ok(s),
        0 < i < s.len(),
        0 <= j < s.len(),
        s[j].spec_is_dir(),
        pre.len() == s.len() - 1,
        below(s, dir_count(s) as int, s.len() as int) == s.len() - 1,
        pos == below(s, parent_dir(s, i), s.len() as int) + kid_count(s, s[i].parent as int, i),
        0 <= pos < pre.len(),
        post == pre.update(pos, i as crate::model::Id),
        pre.subrange(
            below(s, s[j].directory as int, s.len() as int),
            below(s, s[j].directory as int, s.len() as int) + kid_count(s, j, i),
        ) == crate::totals::kids(s, j, 1, i),
    ensures
        post.subrange(
            below(s, s[j].directory as int, s.len() as int),
            below(s, s[j].directory as int, s.len() as int) + kid_count(s, j, i + 1),
        ) == crate::totals::kids(s, j, 1, i + 1),
{
    let n = s.len() as int;
    let p = s[i].parent as int;
    let dj = s[j].directory as int;
    let pd = parent_dir(s, i);
    let bj = below(s, dj, n);
    assert(record_ok(s, j));
    assert(record_ok(s, p));
    crate::model::lemma_dir_index_below_count(s, j);
    crate::model::lemma_dir_index_below_count(s, p);
    lemma_kid_count_below(s, j, n);
    lemma_kid_count_below(s, p, n);
    lemma_kid_count_mono(s, j, i + 1, n);
    lemma_kid_count_mono(s, p, i + 1, n);
    lemma_kids_len(s, j, i);
    lemma_below_le(s, dj, n);
    if j == p {
        assert(post.subrange(bj, bj + kid_count(s, j, i + 1)) =~= pre.subrange(bj, bj + kid_count(
            s,
            j,
            i,
        )).push(i as crate::model::Id));
    } else {
        crate::model::lemma_dir_index_distinct(s, j, p);
        assert(kid_count(s, j, i + 1) == kid_count(s, j, i));
        lemma_below_mono(s, dj + 1, dir_count(s) as int, n);
        lemma_below_le(s, dj + 1, n);
        if dj < pd {
            lemma_below_mono(s, dj + 1, pd, n);
            assert(bj + kid_count(s, j, i) <= pos);
        } else {
            lemma_below_mono(s, pd + 1, dj, n);
            assert(pos < bj);
        }
        assert(post.subrange(bj, bj + kid_count(s, j, i + 1)) =~= pre.subrange(bj, bj + kid_count(s, j, i)));
    }
}

pub proof fn lemma_below_zero(s: Seq<Node>, k: int)
    ensures
        below(s, 0, k) == 0,
    decreases k,
{
    if k > 1 && k <= s.len() {
        lemma_below_zero(s, k - 1);
    }
}

/// The child index holds, for each folder, its children listed by id.
pub open spec fn index_ok(s: Seq<Node>, dirs: Seq<Directory>, children: Seq<crate::model::Id>) -> bool {
    let n = s.len() as int;
    &&& children.len() == n - 1
    &&& dirs.len() == dir_count(s)
    &&& forall|j: int|
        0 <= j < n && (#[trigger] s[j]).spec_is_dir() ==> {
            let d = s[j].directory as int;
            &&& dirs[d].child_start == below(s, d, n)
            &&& dirs[d].child_count == kid_count(s, j, n)
            &&& below(s, d + 1, n) <= n - 1
            &&& children.subrange(below(s, d, n), below(s, d + 1, n)) == crate::totals::kids(s, j, 1, n)
        }
}

/// Folder `j`'s range of the child index is in display order, holds exactly its
/// children, and `prefix` holds the running totals of their sizes.
pub open spec fn range_done(
    s: Seq<Node>,
    fin: Seq<Node>,
    children: Seq<crate::model::Id>,
    prefix: Seq<u64>,
    j: int,
) -> bool {
    let n = s.len() as int;
    let d = s[j].directory as int;
    let r = children.subrange(below(s, d, n), below(s, d + 1, n));
    &&& crate::order::sorted_by_size(fin, r)
    &&& r.to_multiset() == crate::totals::kids(s, j, 1, n).to_multiset()
    &&& forall|t: int|
        0 <= t < r.len() ==> #[trigger] prefix[below(s, d, n) + t] == crate::totals::sum_bytes(
            fin,
            r.take(t + 1),
        )
}

/// Writes the running totals of the sizes of `children[start..end]` into the
/// same positions of `prefix`.
fn running_totals(
    nodes: &Vec<Node>,
    children: &Vec<crate::model::Id>,
    prefix: &mut Vec<u64>,
    start: usize,
    end: usize,
)
    requires
        start <= end <= children@.len(),
        old(prefix)@.len() == children@.len(),
        forall|t: int| start <= t < end ==> #[trigger] children@[t] < nodes@.len(),
        crate::totals::sum_bytes(nodes@, range_of(children@, start, end)) <= u64::MAX,
    ensures
        final(prefix)@.len() == old(prefix)@.len(),
        forall|i: int|
            0 <= i < old(prefix)@.len() && !(start <= i < end) ==> #[trigger] final(prefix)@[i]
                == old(prefix)@[i],
        forall|t: int|
            0 <= t < end - start ==> #[trigger] final(prefix)@[start + t] == crate::totals::sum_bytes(
                nodes@,
                range_of(children@, start, end).take(t + 1),
            ),
{
    let ghost sorted = range_of(children@, start, end);
    let ghost pre = prefix@;
    let mut sum: u64 = 0;
    let mut k = start;
    proof {
        assert(sorted.take(0) =~= Seq::<crate::model::Id>::empty());
    }
    while k < end
        invariant
            start <= k <= end,
            end <= children@.len(),
            sorted == range_of(children@, start, end),
            forall|t: int| start <= t < end ==> #[trigger] children@[t] < nodes@.len(),
            sum == crate::totals::sum_bytes(nodes@, sorted.take(k - start)),
            prefix@.len() == pre.len(),
            pre.len() == children@.len(),
            crate::totals::sum_bytes(nodes@, sorted) <= u64::MAX,
            forall|t: int|
                0 <= t < k - start ==> #[trigger] prefix@[start + t] == crate::totals::sum_bytes(
                    nodes@,
                    sorted.take(t + 1),
                ),
            forall|i: int| 0 <= i < pre.len() && !(start <= i < k) ==> #[trigger] prefix@[i] == pre[i],
        decreases end - k,
    {
        let id = children[k];
        proof {
            let t = k - start;
            assert(id == sorted[t]);
            assert(sorted.take(t + 1) =~= sorted.take(t).push(sorted[t]));
            crate::totals::lemma_sum_push(nodes@, sorted.take(t), sorted[t]);
            crate::totals::lemma_sum_take_le(nodes@, sorted, t + 1);
        }
        sum = sum + crate::model::bytes_of(nodes, id);
        prefix.set(k, sum);
        k = k + 1;
    }
}

/// Sorts folder `j`'s range of the child index into display order and writes
/// the running totals of its sizes.
fn order_folder(
    nodes: &Vec<Node>,
    children: &mut Vec<crate::model::Id>,
    prefix: &mut Vec<u64>,
    start: usize,
    end: usize,
    Ghost(s): Ghost<Seq<Node>>,
    Ghost(j): Ghost<int>,
)
    requires
        records_ok(s),
        nodes@.len() == s.len(),
        forall|c: int| 0 <= c < s.len() ==> #[trigger] nodes@[c] == with_totals(s, c),
        forall|c: int| 0 <= c < s.len() ==> subtree_bytes(s, c) <= u64::MAX,
        0 <= j < s.len(),
        s[j].spec_is_dir(),
        start == below(s, s[j].directory as int, s.len() as int),
        end == below(s, s[j].directory + 1, s.len() as int),
        start <= end <= s.len() - 1,
        old(children)@.len() == s.len() - 1,
        old(prefix)@.len() == s.len() - 1,
        range_of(old(children)@, start, end) == crate::totals::kids(s, j, 1, s.len() as int),
    ensures
        final(children)@.len() == old(children)@.len(),
        final(prefix)@.len() == old(prefix)@.len(),
        forall|i: int|
            0 <= i < old(children)@.len() && !(start <= i < end) ==> #[trigger] final(children)@[i]
                == old(children)@[i],
        forall|i: int|
            0 <= i < old(prefix)@.len() && !(start <= i < end) ==> #[trigger] final(prefix)@[i]
                == old(prefix)@[i],
        range_done(s, nodes@, final(children)@, final(prefix)@, j),
{
    let ghost n = s.len() as int;
    let ghost ks = crate::totals::kids(s, j, 1, n);
    proof {
        crate::totals::lemma_kids_members(s, j, 1, n);
        assert forall|k: int| start <= k < end implies #[trigger] children@[k] < nodes@.len() by {
            assert(children@[k] == range_of(children@, start, end)[k - start]);
        }
    }
    crate::order::sort_by_size(children, start, end, nodes);
    let ghost sorted = range_of(children@, start, end);
    proof {
        assert forall|k: int| start <= k < end implies #[trigger] children@[k] < nodes@.len() by {
            broadcast use vstd::seq_lib::group_to_multiset_ensures;
            assert(children@[k] == sorted[k - start]);
            assert(sorted.contains(sorted[k - start]));
            assert(sorted.to_multiset().count(sorted[k - start]) > 0);
            assert(ks.contains(sorted[k - start]));
        }
        assert forall|c: int| 0 <= c < s.len() implies #[trigger] nodes@[c].bytes == subtree_bytes(s, c) by {
            crate::totals::lemma_subtree_nonneg(s, c);
        }
        crate::totals::lemma_sum_perm(nodes@, sorted, ks);
        crate::totals::lemma_sum_kids(s, nodes@, j, n);
        assert(record_ok(s, j));
        crate::totals::lemma_kids_nonneg(s, j, j + 1, n);
        assert(subtree_bytes(s, j) == s[j].bytes + kids_bytes(s, j, j + 1, n));
        assert(crate::totals::sum_bytes(nodes@, sorted) == kids_bytes(s, j, j + 1, n));
        assert(crate::totals::sum_bytes(nodes@, sorted) <= u64::MAX);
    }
    running_totals(nodes, children, prefix, start, end);
    proof {
        lemma_range_sorted_done(s, nodes@, children@, prefix@, j, start as int, sorted);
    }
}

/// Sorts each folder's children largest first and records their running totals.
pub fn sort_and_sum<F: Fn(&str, usize, usize)>(
    nodes: &Vec<Node>,
    dirs: &Vec<Directory>,
    children: &mut Vec<crate::model::Id>,
    cancel: &AtomicBool,
    progress: &F,
    Ghost(s): Ghost<Seq<Node>>,
) -> (r: Result<Vec<u64>, String>)
    requires
        forall|m: &str, a: usize, b: usize| progress.requires((m, a, b)),
        records_ok(s),
        index_ok(s, dirs@, old(children)@),
        nodes@.len() == s.len(),
        forall|j: int| 0 <= j < s.len() ==> #[trigger] nodes@[j] == with_totals(s, j),
        forall|j: int| 0 <= j < s.len() ==> subtree_bytes(s, j) <= u64::MAX,
    ensures
        r matches Err(e) ==> e@ == "Cancelled"@,
        r matches Ok(prefix) ==> {
            &&& prefix@.len() == s.len() - 1
            &&& final(children)@.len() == s.len() - 1
            &&& forall|j: int|
                0 <= j < s.len() && (#[trigger] s[j]).spec_is_dir() ==> range_done(
                    s,
                    nodes@,
                    final(children)@,
                    prefix@,
                    j,
                )
        },
{
    let ghost n = s.len() as int;
    let ghost dn = dir_count(s) as int;
    let ghost c0 = children@;
    let mut prefix_bytes: Vec<u64> = vec![0; children.len()];
    let mut d: usize = 0;
    proof {
        lemma_below_all(s, n);
        assert(s.take(n) =~= s);
    }
    while d < dirs.len()
        invariant
            records_ok(s),
            index_ok(s, dirs@, c0),
            n == s.len(),
            dn == dir_count(s),
            below(s, dn, n) == n - 1,
            forall|m: &str, a: usize, b: usize| progress.requires((m, a, b)),
            nodes@.len() == s.len(),
            forall|j: int| 0 <= j < s.len() ==> #[trigger] nodes@[j] == with_totals(s, j),
            forall|j: int| 0 <= j < s.len() ==> subtree_bytes(s, j) <= u64::MAX,
            d <= dirs@.len(),
            children@.len() == n - 1,
            prefix_bytes@.len() == n - 1,
            pending(s, c0, children@, d as int),
            forall|j: int|
                0 <= j < n && (#[trigger] s[j]).spec_is_dir() && s[j].directory < d ==> range_done(
                    s,
                    nodes@,
                    children@,
                    prefix_bytes@,
                    j,
                ),
        decreases dirs@.len() - d,
    {
        if d % 65536 == 0 {
            if cancelled(cancel) {
                return Err("Cancelled".to_string());
            }
            progress("Sorting folders by size", d, dirs.len());
        }
        let x = dirs[d];
        let ghost j = choose|j: int| 0 <= j < n && (#[trigger] s[j]).spec_is_dir() && s[j].directory == d;
        proof {
            assert(s.take(n) =~= s);
            lemma_dir_owner(s, d as int, n);
            assert(s[j].spec_is_dir() && s[j].directory == d);
            assert(record_ok(s, j));
            lemma_below_mono(s, d + 1, dn, n);
            lemma_below_mono(s, d as int, d + 1, n);
            lemma_kid_count_below(s, j, n);
            lemma_below_le(s, d as int, n);
            assert(x.child_start == below(s, d as int, n));
            assert(x.child_count == below(s, d + 1, n) - below(s, d as int, n));
        }
        let ghost pre_children = children@;
        let ghost pre_prefix = prefix_bytes@;
        let start = x.child_start as usize;
        let end = start + x.child_count as usize;
        proof {
            assert(children@.subrange(start as int, end as int) == c0.subrange(start as int, end as int));
        }
        order_folder(nodes, children, &mut prefix_bytes, start, end, Ghost(s), Ghost(j));
        proof {
            lemma_sort_step(s, nodes@, c0, pre_children, children@, pre_prefix, prefix_bytes@, d as int, j);
        }
        d = d + 1;
    }
    proof {
        assert forall|j: int| 0 <= j < n && (#[trigger] s[j]).spec_is_dir() implies s[j].directory < d by {
            assert(record_ok(s, j));
            crate::model::lemma_dir_index_below_count(s, j);
        }
    }
    Ok(prefix_bytes)
}

/// The ranges of the folders with metadata index `d` or above are as the child
/// index first had them.
pub open spec fn pending(s: Seq<Node>, c0: Seq<crate::model::Id>, c: Seq<crate::model::Id>, d: int) -> bool {
    let n = s.len() as int;
    forall|j: int|
        0 <= j < n && (#[trigger] s[j]).spec_is_dir() && s[j].directory >= d ==> c.subrange(
            below(s, s[j].directory as int, n),
            below(s, s[j].directory + 1, n),
        ) == c0.subrange(below(s, s[j].directory as int, n), below(s, s[j].directory + 1, n))
}

/// One step of the sorting loop: folder `j`, with metadata index `d`, is done,
/// the ones before it stay done and the ones after it stay untouched.
proof fn lemma_sort_step(
    s: Seq<Node>,
    fin: Seq<Node>,
    c0: Seq<crate::model::Id>,
    c_old: Seq<crate::model::Id>,
    c_new: Seq<crate::model::Id>,
    p_old: Seq<u64>,
    p_new: Seq<u64>,
    d: int,
    j: int,
)
    requires
        records_ok(s),
        0 <= j < s.len(),
        s[j].spec_is_dir(),
        s[j].directory == d,
        d < dir_count(s),
        below(s, dir_count(s) as int, s.len() as int) == s.len() - 1,
        c_old.len() == s.len() - 1,
        c_new.len() == c_old.len(),
        p_old.len() == c_old.len(),
        p_new.len() == p_old.len(),
        pending(s, c0, c_old, d),
        forall|i: int|
            0 <= i < c_old.len() && !(below(s, d, s.len() as int) <= i < below(s, d + 1, s.len() as int))
                ==> #[trigger] c_new[i] == c_old[i],
        forall|i: int|
            0 <= i < p_old.len() && !(below(s, d, s.len() as int) <= i < below(s, d + 1, s.len() as int))
                ==> #[trigger] p_new[i] == p_old[i],
        range_done(s, fin, c_new, p_new, j),
        forall|i: int|
            0 <= i < s.len() && (#[trigger] s[i]).spec_is_dir() && s[i].directory < d ==> range_done(
                s,
                fin,
                c_old,
                p_old,
                i,
            ),
    ensures
        pending(s, c0, c_new, d + 1),
        forall|i: int|
            0 <= i < s.len() && (#[trigger] s[i]).spec_is_dir() && s[i].directory < d + 1 ==> range_done(
                s,
                fin,
                c_new,
                p_new,
                i,
            ),
{
    let n = s.len() as int;
    let dn = dir_count(s) as int;
    let lo = below(s, d, n);
    let hi = below(s, d + 1, n);
    assert forall|j2: int|
        0 <= j2 < n && (#[trigger] s[j2]).spec_is_dir() && s[j2].directory >= d + 1 implies c_new.subrange(
        below(s, s[j2].directory as int, n),
        below(s, s[j2].directory + 1, n),
    ) == c0.subrange(below(s, s[j2].directory as int, n), below(s, s[j2].directory + 1, n)) by {
        let d2 = s[j2].directory as int;
        assert(record_ok(s, j2));
        crate::model::lemma_dir_index_below_count(s, j2);
        lemma_below_mono(s, d + 1, d2, n);
        lemma_below_mono(s, d2 + 1, dn, n);
        lemma_below_mono(s, d2, d2 + 1, n);
        lemma_below_le(s, d2, n);
        assert(c_new.subrange(below(s, d2, n), below(s, d2 + 1, n)) =~= c_old.subrange(
            below(s, d2, n),
            below(s, d2 + 1, n),
        ));
    }
    assert forall|j2: int|
        0 <= j2 < n && (#[trigger] s[j2]).spec_is_dir() && s[j2].directory < d + 1 implies range_done(
        s,
        fin,
        c_new,
        p_new,
        j2,
    ) by {
        if s[j2].directory < d {
            let d2 = s[j2].directory as int;
            crate::model::lemma_dir_index_below_count(s, j2);
            lemma_below_mono(s, d2 + 1, d, n);
            lemma_below_mono(s, d2, d2 + 1, n);
            lemma_below_mono(s, d + 1, dn, n);
            lemma_below_mono(s, d, d + 1, n);
            lemma_below_le(s, d2, n);
            lemma_frame(s, fin, c_old, c_new, p_old, p_new, lo, hi, j2);
        } else {
            assert(record_ok(s, j2));
            assert(record_ok(s, j));
            if j2 != j {
                crate::model::lemma_dir_index_distinct(s, j2, j);
            }
        }
    }
}

/// Changing the child index and the prefix sums only inside `lo..hi` leaves
/// finished ranges outside it finished.
proof fn lemma_frame(
    s: Seq<Node>,
    fin: Seq<Node>,
    c_old: Seq<crate::model::Id>,
    c_new: Seq<crate::model::Id>,
    p_old: Seq<u64>,
    p_new: Seq<u64>,
    lo: int,
    hi: int,
    j: int,
)
    requires
        0 <= j < s.len(),
        c_old.len() == c_new.len(),
        p_old.len() == p_new.len(),
        p_old.len() == c_old.len(),
        0 <= below(s, s[j].directory as int, s.len() as int) <= below(
            s,
            s[j].directory + 1,
            s.len() as int,
        ) <= c_old.len(),
        below(s, s[j].directory + 1, s.len() as int) <= lo,
        forall|i: int| 0 <= i < c_old.len() && !(lo <= i < hi) ==> c_new[i] == c_old[i],
        forall|i: int| 0 <= i < p_old.len() && !(lo <= i < hi) ==> p_new[i] == p_old[i],
        range_done(s, fin, c_old, p_old, j),
    ensures
        range_done(s, fin, c_new, p_new, j),
{
    let n = s.len() as int;
    let d = s[j].directory as int;
    let a = below(s, d, n);
    let b = below(s, d + 1, n);
    assert(c_new.subrange(a, b) =~= c_old.subrange(a, b));
    let r = c_new.subrange(a, b);
    assert forall|t: int| 0 <= t < r.len() implies #[trigger] p_new[a + t] == crate::totals::sum_bytes(
        fin,
        r.take(t + 1),
    ) by {
        assert(p_new[a + t] == p_old[a + t]);
    }
}

/// A folder whose range was just sorted and summed is finished.
proof fn lemma_range_sorted_done(
    s: Seq<Node>,
    fin: Seq<Node>,
    children: Seq<crate::model::Id>,
    prefix: Seq<u64>,
    j: int,
    start: int,
    sorted: Seq<crate::model::Id>,
)
    requires
        0 <= j < s.len(),
        start == below(s, s[j].directory as int, s.len() as int),
        sorted == children.subrange(start, below(s, s[j].directory + 1, s.len() as int)),
        crate::order::sorted_by_size(fin, sorted),
        sorted.to_multiset() == crate::totals::kids(s, j, 1, s.len() as int).to_multiset(),
        forall|t: int|
            0 <= t < sorted.len() ==> #[trigger] prefix[start + t] == crate::totals::sum_bytes(
                fin,
                sorted.take(t + 1),
            ),
    ensures
        range_done(s, fin, children, prefix, j),
{
}

/// `d` is the hierarchy that finishing the builder records `s`, with name pool
/// `names` and `unknown` files of unknown size, gives: each record with its
/// folder totals, each folder's metadata with its child range and file count,
/// each child range in display order with its running totals.
pub open spec fn built(s: Seq<Node>, names: Seq<u8>, unknown: u64, d: Dataset) -> bool {
    let n = s.len() as int;
    &&& d.nodes@.len() == n
    &&& forall|j: int| 0 <= j < n ==> #[trigger] d.nodes@[j] == with_totals(s, j)
    &&& d.names@ == names
    &&& d.directories@.len() == dir_count(s)
    &&& d.children@.len() == n - 1
    &&& d.prefix_bytes@.len() == n - 1
    &&& forall|j: int| 0 <= j < n ==> #[trigger] subtree_bytes(s, j) <= u64::MAX
    &&& forall|j: int| 0 <= j < n ==> #[trigger] subtree_files(s, j) <= u32::MAX
    &&& forall|j: int|
        0 <= j < n && (#[trigger] s[j]).spec_is_dir() ==> {
            &&& d.directories@[s[j].directory as int] == Directory {
                child_start: below(s, s[j].directory as int, n) as u32,
                child_count: kid_count(s, j, n) as u32,
                file_count: subtree_files(s, j) as u32,
            }
            &&& below(s, s[j].directory + 1, n) <= n - 1
            &&& range_done(s, d.nodes@, d.children@, d.prefix_bytes@, j)
        }
    &&& d.unknown_sizes == unknown
    &&& d.source@ == Seq::<char>::empty()
    &&& d.query@ == Seq::<char>::empty()
    &&& d.capture_note@ == Seq::<char>::empty()
    &&& !d.synthetic
    &&& d.import_peak_memory == 0
    &&& d.load_stats == LoadStats::spec_zero()
}

/// Why finishing the records `s` fails when it does not run to the end.
pub open spec fn finish_refusal(s: Seq<Node>, e: Seq<char>) -> bool {
    ||| e == "Cancelled"@
    ||| e == "The total byte count overflowed u64."@ && bytes_overflow(s)
    ||| e == "The file count overflowed u32."@ && files_overflow(s)
}

impl Default for crate::model::Builder {
    /// A builder that expects no particular number of files.
    fn default() -> (r: Self)
        ensures
            r.inv(),
            r.spec_nodes().len() == 1,
            r.spec_unknown_sizes() == 0,
            r.spec_names() == "All indexed files".spec_bytes(),
            r.spec_nodes()[0] == (crate::model::Node {
                bytes: 0,
                name_offset: 0,
                name_len: 17,
                parent: crate::model::ROOT,
                kind: crate::model::DIRECTORY,
                flags: 0,
                directory: 0,
            }),
            crate::totals::file_records(r.spec_nodes()) == 0,
            crate::totals::total_bytes(r.spec_nodes()) == 0,
    {
        crate::model::Builder::new(0)
    }
}

} // verus!
