//! Folder totals of a hierarchy given as records in creation order (every
//! parent before its children): bytes, file counts and unknown sizes.
use crate::model::{Id, Node};
use vstd::prelude::*;

verus! {

/// The children of `j` among the records `lo..hi`, in id order.
pub open spec fn kids(s: Seq<Node>, j: int, lo: int, hi: int) -> Seq<Id>
    decreases hi - lo,
{
    if lo < 0 || lo >= hi || hi > s.len() {
        Seq::empty()
    } else {
        kids(s, j, lo, hi - 1) + if s[hi - 1].parent == j {
            seq![(hi - 1) as Id]
        } else {
            Seq::empty()
        }
    }
}

/// Bytes below record `j`: its own plus those of every record under it.
pub open spec fn subtree_bytes(s: Seq<Node>, j: int) -> int
    decreases s.len() - j, 1int, 0int,
{
    if 0 <= j < s.len() {
        s[j].bytes + kids_bytes(s, j, j + 1, s.len() as int)
    } else {
        0
    }
}

/// The subtree bytes of the children of `j` among the records `lo..hi`.
pub open spec fn kids_bytes(s: Seq<Node>, j: int, lo: int, hi: int) -> int
    decreases s.len() - j, 0int, hi - lo,
{
    if 0 <= j < lo < hi <= s.len() {
        kids_bytes(s, j, lo, hi - 1) + if s[hi - 1].parent == j {
            subtree_bytes(s, hi - 1)
        } else {
            0
        }
    } else {
        0
    }
}

/// Files below record `j`; a file counts itself.
pub open spec fn subtree_files(s: Seq<Node>, j: int) -> int
    decreases s.len() - j, 1int, 0int,
{
    if 0 <= j < s.len() {
        if s[j].spec_is_dir() {
            kids_files(s, j, j + 1, s.len() as int)
        } else {
            1
        }
    } else {
        0
    }
}

/// The subtree file counts of the children of `j` among the records `lo..hi`.
pub open spec fn kids_files(s: Seq<Node>, j: int, lo: int, hi: int) -> int
    decreases s.len() - j, 0int, hi - lo,
{
    if 0 <= j < lo < hi <= s.len() {
        kids_files(s, j, lo, hi - 1) + if s[hi - 1].parent == j {
            subtree_files(s, hi - 1)
        } else {
            0
        }
    } else {
        0
    }
}

/// Whether record `j` or any record under it has an unknown size.
pub open spec fn subtree_unknown(s: Seq<Node>, j: int) -> bool
    decreases s.len() - j, 1int, 0int,
{
    if 0 <= j < s.len() {
        s[j].flags != 0 || kids_unknown(s, j, j + 1, s.len() as int)
    } else {
        false
    }
}

/// Whether a child of `j` among the records `lo..hi` has an unknown size below it.
pub open spec fn kids_unknown(s: Seq<Node>, j: int, lo: int, hi: int) -> bool
    decreases s.len() - j, 0int, hi - lo,
{
    if 0 <= j < lo < hi <= s.len() {
        kids_unknown(s, j, lo, hi - 1) || (s[hi - 1].parent == j && subtree_unknown(s, hi - 1))
    } else {
        false
    }
}

/// Some folder's total size does not fit in 64 bits.
pub open spec fn bytes_overflow(s: Seq<Node>) -> bool {
    exists|j: int| 0 <= j < s.len() && #[trigger] subtree_bytes(s, j) > u64::MAX
}

/// Some folder's file count does not fit in 32 bits.
pub open spec fn files_overflow(s: Seq<Node>) -> bool {
    exists|j: int| 0 <= j < s.len() && #[trigger] subtree_files(s, j) > u32::MAX
}

/// The record `j` with its folder totals filled in.
pub open spec fn with_totals(s: Seq<Node>, j: int) -> Node {
    Node {
        bytes: subtree_bytes(s, j) as u64,
        flags: if subtree_unknown(s, j) {
            1
        } else {
            0
        },
        ..s[j]
    }
}

pub proof fn lemma_kids_split_low(s: Seq<Node>, j: int, lo: int, hi: int)
    requires
        0 <= j < lo < hi <= s.len(),
    ensures
        kids_bytes(s, j, lo, hi) == (if s[lo].parent == j {
            subtree_bytes(s, lo)
        } else {
            0
        }) + kids_bytes(s, j, lo + 1, hi),
        kids_files(s, j, lo, hi) == (if s[lo].parent == j {
            subtree_files(s, lo)
        } else {
            0
        }) + kids_files(s, j, lo + 1, hi),
        kids_unknown(s, j, lo, hi) == ((s[lo].parent == j && subtree_unknown(s, lo))
            || kids_unknown(s, j, lo + 1, hi)),
        kids(s, j, lo, hi) == (if s[lo].parent == j {
            seq![lo as Id]
        } else {
            Seq::<Id>::empty()
        }) + kids(s, j, lo + 1, hi),
    decreases hi - lo,
{
    let tb = if s[hi - 1].parent == j {
        subtree_bytes(s, hi - 1)
    } else {
        0
    };
    let tf = if s[hi - 1].parent == j {
        subtree_files(s, hi - 1)
    } else {
        0
    };
    assert(kids_bytes(s, j, lo, hi) == kids_bytes(s, j, lo, hi - 1) + tb);
    assert(kids_files(s, j, lo, hi) == kids_files(s, j, lo, hi - 1) + tf);
    let tu = s[hi - 1].parent == j && subtree_unknown(s, hi - 1);
    assert(kids_unknown(s, j, lo, hi) == (kids_unknown(s, j, lo, hi - 1) || tu));
    if hi == lo + 1 {
        assert(!kids_unknown(s, j, lo, hi - 1));
        assert(!kids_unknown(s, j, lo + 1, hi));
        assert(kids_bytes(s, j, lo, hi - 1) == 0);
        assert(kids_files(s, j, lo, hi - 1) == 0);
        assert(kids_bytes(s, j, lo + 1, hi) == 0);
        assert(kids_files(s, j, lo + 1, hi) == 0);
        assert(kids(s, j, lo, hi - 1) =~= Seq::<Id>::empty());
        assert(kids(s, j, lo + 1, hi) =~= Seq::<Id>::empty());
        assert(kids(s, j, lo, hi) =~= (if s[lo].parent == j {
            seq![lo as Id]
        } else {
            Seq::<Id>::empty()
        }));
    } else {
        lemma_kids_split_low(s, j, lo, hi - 1);
        assert(kids_bytes(s, j, lo + 1, hi) == kids_bytes(s, j, lo + 1, hi - 1) + tb);
        assert(kids_files(s, j, lo + 1, hi) == kids_files(s, j, lo + 1, hi - 1) + tf);
        assert(kids_unknown(s, j, lo + 1, hi) == (kids_unknown(s, j, lo + 1, hi - 1) || tu));
        let head = if s[lo].parent == j {
            seq![lo as Id]
        } else {
            Seq::<Id>::empty()
        };
        let last = if s[hi - 1].parent == j {
            seq![(hi - 1) as Id]
        } else {
            Seq::<Id>::empty()
        };
        assert(kids(s, j, lo, hi) =~= head + kids(s, j, lo + 1, hi - 1) + last);
        assert(kids(s, j, lo + 1, hi) =~= kids(s, j, lo + 1, hi - 1) + last);
    }
}

pub proof fn lemma_subtree_nonneg(s: Seq<Node>, j: int)
    ensures
        subtree_bytes(s, j) >= 0,
        subtree_files(s, j) >= 0,
    decreases s.len() - j, 1int, 0int,
{
    if 0 <= j < s.len() {
        lemma_kids_nonneg(s, j, j + 1, s.len() as int);
    }
}

pub proof fn lemma_kids_nonneg(s: Seq<Node>, j: int, lo: int, hi: int)
    ensures
        kids_bytes(s, j, lo, hi) >= 0,
        kids_files(s, j, lo, hi) >= 0,
    decreases s.len() - j, 0int, hi - lo,
{
    if 0 <= j < lo < hi <= s.len() {
        lemma_kids_nonneg(s, j, lo, hi - 1);
        lemma_subtree_nonneg(s, hi - 1);
    }
}

/// Dropping children at the low end never raises a sum.
pub proof fn lemma_kids_mono(s: Seq<Node>, j: int, lo1: int, lo2: int, hi: int)
    requires
        0 <= j < lo1 <= lo2 <= hi <= s.len(),
    ensures
        kids_bytes(s, j, lo2, hi) <= kids_bytes(s, j, lo1, hi),
        kids_files(s, j, lo2, hi) <= kids_files(s, j, lo1, hi),
    decreases lo2 - lo1,
{
    if lo1 < lo2 {
        lemma_kids_mono(s, j, lo1 + 1, lo2, hi);
        if lo1 < hi {
            lemma_kids_split_low(s, j, lo1, hi);
            lemma_subtree_nonneg(s, lo1);
        }
    }
}

/// A record that is not a parent of anything has no children.
pub proof fn lemma_kids_empty_when_none(s: Seq<Node>, j: int, lo: int, hi: int)
    requires
        0 <= j < lo <= hi <= s.len(),
        forall|c: int| lo <= c < hi ==> (#[trigger] s[c]).parent != j,
    ensures
        kids_bytes(s, j, lo, hi) == 0,
        kids_files(s, j, lo, hi) == 0,
        !kids_unknown(s, j, lo, hi),
        kids(s, j, lo, hi) == Seq::<Id>::empty(),
    decreases hi - lo,
{
    if lo < hi {
        lemma_kids_empty_when_none(s, j, lo, hi - 1);
        assert(kids(s, j, lo, hi) =~= kids(s, j, lo, hi - 1));
    }
}

/// Total bytes recorded in `nodes` for the records `ids`.
pub open spec fn sum_bytes(nodes: Seq<Node>, ids: Seq<Id>) -> int
    decreases ids.len(),
{
    if ids.len() == 0 {
        0
    } else {
        sum_bytes(nodes, ids.drop_last()) + nodes[ids.last() as int].bytes
    }
}

pub proof fn lemma_sum_push(nodes: Seq<Node>, ids: Seq<Id>, x: Id)
    ensures
        sum_bytes(nodes, ids.push(x)) == sum_bytes(nodes, ids) + nodes[x as int].bytes,
{
    assert(ids.push(x).drop_last() =~= ids);
}

pub proof fn lemma_sum_concat(nodes: Seq<Node>, a: Seq<Id>, b: Seq<Id>)
    ensures
        sum_bytes(nodes, a + b) == sum_bytes(nodes, a) + sum_bytes(nodes, b),
    decreases b.len(),
{
    if b.len() > 0 {
        lemma_sum_concat(nodes, a, b.drop_last());
        assert((a + b).drop_last() =~= a + b.drop_last());
    } else {
        assert(a + b =~= a);
    }
}

/// Records of no size add nothing.
pub proof fn lemma_sum_zero(nodes: Seq<Node>, ids: Seq<Id>)
    requires
        forall|k: int| 0 <= k < ids.len() ==> nodes[#[trigger] ids[k] as int].bytes == 0,
    ensures
        sum_bytes(nodes, ids) == 0,
    decreases ids.len(),
{
    if ids.len() > 0 {
        let rest = ids.drop_last();
        assert forall|k: int| 0 <= k < rest.len() implies nodes[#[trigger] rest[k] as int].bytes == 0 by {
            assert(rest[k] == ids[k]);
        }
        lemma_sum_zero(nodes, rest);
        assert(nodes[ids[ids.len() - 1] as int].bytes == 0);
    }
}

pub proof fn lemma_sum_nonneg(nodes: Seq<Node>, ids: Seq<Id>)
    ensures
        sum_bytes(nodes, ids) >= 0,
    decreases ids.len(),
{
    if ids.len() > 0 {
        lemma_sum_nonneg(nodes, ids.drop_last());
    }
}

/// A prefix never sums to more than the whole.
pub proof fn lemma_sum_take_le(nodes: Seq<Node>, ids: Seq<Id>, t: int)
    requires
        0 <= t <= ids.len(),
    ensures
        sum_bytes(nodes, ids.take(t)) <= sum_bytes(nodes, ids),
{
    lemma_sum_concat(nodes, ids.take(t), ids.skip(t));
    assert(ids.take(t) + ids.skip(t) =~= ids);
    lemma_sum_nonneg(nodes, ids.skip(t));
}

proof fn lemma_sum_remove(nodes: Seq<Node>, ids: Seq<Id>, i: int)
    requires
        0 <= i < ids.len(),
    ensures
        sum_bytes(nodes, ids) == sum_bytes(nodes, ids.remove(i)) + nodes[ids[i] as int].bytes,
{
    let a = ids.take(i);
    let b = ids.skip(i + 1);
    assert(ids =~= a.push(ids[i]) + b);
    assert(ids.remove(i) =~= a + b);
    lemma_sum_concat(nodes, a.push(ids[i]), b);
    lemma_sum_concat(nodes, a, b);
    lemma_sum_push(nodes, a, ids[i]);
}

/// Reordering records does not change their total.
pub proof fn lemma_sum_perm(nodes: Seq<Node>, a: Seq<Id>, b: Seq<Id>)
    requires
        a.to_multiset() == b.to_multiset(),
    ensures
        sum_bytes(nodes, a) == sum_bytes(nodes, b),
    decreases a.len(),
{
    a.to_multiset_ensures();
    b.to_multiset_ensures();
    if a.len() == 0 {
        assert(b.to_multiset().len() == 0);
        assert(b.len() == 0);
    } else {
        let x = a.last();
        let a0 = a.drop_last();
        a0.to_multiset_ensures();
        assert(a0.push(x) =~= a);
        assert(a0.push(x).to_multiset() == a0.to_multiset().insert(x));
        assert(a.to_multiset() == a0.to_multiset().insert(x));
        assert(a.to_multiset().count(x) > 0);
        assert(b.to_multiset().count(x) > 0);
        assert(b.contains(x));
        let i = b.index_of(x);
        assert(b.remove(i).to_multiset() =~= b.to_multiset().remove(x));
        assert(a0.to_multiset() =~= a.to_multiset().remove(x));
        lemma_sum_perm(nodes, a.drop_last(), b.remove(i));
        lemma_sum_remove(nodes, b, i);
    }
}

/// The children of `j` listed by id sum to the children's subtree bytes.
pub proof fn lemma_sum_kids(s: Seq<Node>, fin: Seq<Node>, j: int, hi: int)
    requires
        fin.len() == s.len(),
        s.len() <= u32::MAX + 1,
        0 <= j < s.len(),
        hi <= s.len(),
        forall|c: int| 0 < c < s.len() ==> (#[trigger] s[c]).parent < c,
        forall|c: int| 0 <= c < s.len() ==> #[trigger] fin[c].bytes == subtree_bytes(s, c),
    ensures
        sum_bytes(fin, kids(s, j, 1, hi)) == kids_bytes(s, j, j + 1, hi),
    decreases hi,
{
    if hi <= 1 {
        assert(kids(s, j, 1, hi) =~= Seq::<Id>::empty());
    } else {
        lemma_sum_kids(s, fin, j, hi - 1);
        let c = hi - 1;
        let prev = kids(s, j, 1, hi - 1);
        if s[c].parent == j {
            assert(kids(s, j, 1, hi) =~= prev.push(c as Id));
            lemma_sum_push(fin, prev, c as Id);
        } else {
            assert(kids(s, j, 1, hi) =~= prev);
        }
        if hi <= j + 1 {
            assert(s[c].parent != j) by {
                if c > 0 {
                    assert(s[c].parent < c);
                }
            }
        }
    }
}

/// Every child listed for `j` among `lo..hi` is a record in that range whose parent is `j`,
/// and each appears once.
pub proof fn lemma_kids_members(s: Seq<Node>, j: int, lo: int, hi: int)
    requires
        s.len() <= u32::MAX + 1,
    ensures
        forall|t: int|
            0 <= t < kids(s, j, lo, hi).len() ==> lo <= #[trigger] kids(s, j, lo, hi)[t] < hi && s[kids(
                s,
                j,
                lo,
                hi,
            )[t] as int].parent == j,
        forall|t: int, u: int|
            0 <= t < u < kids(s, j, lo, hi).len() ==> #[trigger] kids(s, j, lo, hi)[t] < #[trigger] kids(
                s,
                j,
                lo,
                hi,
            )[u],
    decreases hi - lo,
{
    if !(lo < 0 || lo >= hi || hi > s.len()) {
        lemma_kids_members(s, j, lo, hi - 1);
        let prev = kids(s, j, lo, hi - 1);
        let k = kids(s, j, lo, hi);
        if s[hi - 1].parent == j {
            assert(k == prev.push((hi - 1) as Id));
            assert(((hi - 1) as Id) as int == hi - 1);
        } else {
            assert(k == prev);
        }
    }
}

/// The total of `f` over the records `ids`.
pub open spec fn sum_by(ids: Seq<Id>, f: spec_fn(Id) -> int) -> int
    decreases ids.len(),
{
    if ids.len() == 0 {
        0
    } else {
        sum_by(ids.drop_last(), f) + f(ids.last())
    }
}

proof fn lemma_sum_by_concat(a: Seq<Id>, b: Seq<Id>, f: spec_fn(Id) -> int)
    ensures
        sum_by(a + b, f) == sum_by(a, f) + sum_by(b, f),
    decreases b.len(),
{
    if b.len() > 0 {
        lemma_sum_by_concat(a, b.drop_last(), f);
        assert((a + b).drop_last() =~= a + b.drop_last());
    } else {
        assert(a + b =~= a);
    }
}

proof fn lemma_sum_by_remove(ids: Seq<Id>, i: int, f: spec_fn(Id) -> int)
    requires
        0 <= i < ids.len(),
    ensures
        sum_by(ids, f) == sum_by(ids.remove(i), f) + f(ids[i]),
{
    let a = ids.take(i);
    let b = ids.skip(i + 1);
    assert(ids =~= a.push(ids[i]) + b);
    assert(ids.remove(i) =~= a + b);
    lemma_sum_by_concat(a.push(ids[i]), b, f);
    lemma_sum_by_concat(a, b, f);
    assert(a.push(ids[i]).drop_last() =~= a);
}

/// Reordering records does not change a total over them.
pub proof fn lemma_sum_by_perm(a: Seq<Id>, b: Seq<Id>, f: spec_fn(Id) -> int)
    requires
        a.to_multiset() == b.to_multiset(),
    ensures
        sum_by(a, f) == sum_by(b, f),
    decreases a.len(),
{
    a.to_multiset_ensures();
    b.to_multiset_ensures();
    if a.len() == 0 {
        assert(b.to_multiset().len() == 0);
        assert(b.len() == 0);
    } else {
        let x = a.last();
        let a0 = a.drop_last();
        a0.to_multiset_ensures();
        assert(a0.push(x) =~= a);
        assert(a.to_multiset() == a0.to_multiset().insert(x));
        assert(b.to_multiset().count(x) > 0);
        assert(b.contains(x));
        let i = b.index_of(x);
        assert(b.remove(i).to_multiset() =~= b.to_multiset().remove(x));
        assert(a0.to_multiset() =~= a.to_multiset().remove(x));
        lemma_sum_by_perm(a0, b.remove(i), f);
        lemma_sum_by_remove(b, i, f);
    }
}

/// Two measures that agree on every listed record give the same total.
pub proof fn lemma_sum_by_agree(ids: Seq<Id>, f: spec_fn(Id) -> int, g: spec_fn(Id) -> int)
    requires
        forall|t: int| 0 <= t < ids.len() ==> f(#[trigger] ids[t]) == g(ids[t]),
    ensures
        sum_by(ids, f) == sum_by(ids, g),
    decreases ids.len(),
{
    if ids.len() > 0 {
        let rest = ids.drop_last();
        assert forall|t: int| 0 <= t < rest.len() implies f(#[trigger] rest[t]) == g(rest[t]) by {
            assert(rest[t] == ids[t]);
        }
        lemma_sum_by_agree(rest, f, g);
        assert(f(ids.last()) == g(ids[ids.len() - 1]));
    }
}

/// The children of `j` listed by id total their subtree file counts.
pub proof fn lemma_files_kids(s: Seq<Node>, j: int, hi: int)
    requires
        s.len() <= u32::MAX + 1,
        0 <= j < s.len(),
        hi <= s.len(),
        forall|c: int| 0 < c < s.len() ==> (#[trigger] s[c]).parent < c,
    ensures
        sum_by(kids(s, j, 1, hi), |c: Id| subtree_files(s, c as int)) == kids_files(s, j, j + 1, hi),
    decreases hi,
{
    let f = |c: Id| subtree_files(s, c as int);
    if hi <= 1 {
        assert(kids(s, j, 1, hi) =~= Seq::<Id>::empty());
    } else {
        lemma_files_kids(s, j, hi - 1);
        let c = hi - 1;
        let prev = kids(s, j, 1, hi - 1);
        if s[c].parent == j {
            assert(kids(s, j, 1, hi) =~= prev.push(c as Id));
            assert(prev.push(c as Id).drop_last() =~= prev);
        } else {
            assert(kids(s, j, 1, hi) =~= prev);
        }
        if hi <= j + 1 {
            assert(s[c].parent != j) by {
                if c > 0 {
                    assert(s[c].parent < c);
                }
            }
        }
    }
}

/// Some child of `j` listed by id has an unknown size below it exactly when
/// the children of `j` do.
pub proof fn lemma_unknown_kids(s: Seq<Node>, j: int, hi: int)
    requires
        s.len() <= u32::MAX + 1,
        0 <= j < s.len(),
        hi <= s.len(),
        forall|c: int| 0 < c < s.len() ==> (#[trigger] s[c]).parent < c,
    ensures
        kids_unknown(s, j, j + 1, hi) <==> exists|t: int|
            0 <= t < kids(s, j, 1, hi).len() && subtree_unknown(s, #[trigger] kids(s, j, 1, hi)[t] as int),
    decreases hi,
{
    if hi <= 1 {
        assert(kids(s, j, 1, hi) =~= Seq::<Id>::empty());
    } else {
        lemma_unknown_kids(s, j, hi - 1);
        let c = hi - 1;
        let prev = kids(s, j, 1, hi - 1);
        let k = kids(s, j, 1, hi);
        if s[c].parent == j {
            assert(k =~= prev.push(c as Id));
            if kids_unknown(s, j, j + 1, hi - 1) {
                let t = choose|t: int| 0 <= t < prev.len() && subtree_unknown(s, #[trigger] prev[t] as int);
                assert(k[t] == prev[t]);
            }
            if subtree_unknown(s, c) {
                assert(k[prev.len() as int] == c as Id);
            }
            if exists|t: int| 0 <= t < k.len() && subtree_unknown(s, #[trigger] k[t] as int) {
                let t = choose|t: int| 0 <= t < k.len() && subtree_unknown(s, #[trigger] k[t] as int);
                if t < prev.len() {
                    assert(prev[t] == k[t]);
                }
            }
        } else {
            assert(k =~= prev);
        }
        if hi <= j + 1 {
            assert(s[c].parent != j) by {
                if c > 0 {
                    assert(s[c].parent < c);
                }
            }
        }
    }
}


/// How many of the records `0..m` are files.
pub open spec fn files_upto(s: Seq<Node>, m: int) -> nat
    decreases m,
{
    if m <= 0 {
        0
    } else {
        files_upto(s, m - 1) + if s[m - 1].spec_is_dir() {
            0nat
        } else {
            1nat
        }
    }
}

/// How many records are files.
pub open spec fn file_records(s: Seq<Node>) -> nat {
    files_upto(s, s.len() as int)
}

/// What record `k` holds of the files once the records from `i` on have
/// handed their counts to their parents: one for a file, and for a folder
/// the files below its children from `i` on.
pub open spec fn held(s: Seq<Node>, i: int, k: int) -> int {
    if s[k].spec_is_dir() {
        kids_files(s, k, i, s.len() as int)
    } else {
        1
    }
}

/// What the records `0..m` hold, once the records from `i` on have handed
/// their counts to their parents.
pub open spec fn held_upto(s: Seq<Node>, i: int, m: int) -> int
    decreases m,
{
    if m <= 0 {
        0
    } else {
        held_upto(s, i, m - 1) + held(s, i, m - 1)
    }
}

/// Handing record `i`'s count to its parent moves it into the records before `i`.
proof fn lemma_hand_over(s: Seq<Node>, i: int, m: int)
    requires
        1 <= i < s.len(),
        0 <= m <= i,
        forall|c: int| 0 < c < s.len() ==> (#[trigger] s[c]).parent < c && s[s[c].parent as int].spec_is_dir(),
    ensures
        held_upto(s, i, m) == held_upto(s, i + 1, m) + if s[i].parent < m {
            subtree_files(s, i)
        } else {
            0
        },
    decreases m,
{
    if m > 0 {
        lemma_hand_over(s, i, m - 1);
        let k = m - 1;
        if s[k].spec_is_dir() {
            lemma_kids_split_low(s, k, i, s.len() as int);
        } else {
            assert(s[i].parent != k);
        }
    }
}

/// Every file of a hierarchy is counted once at its root.
pub proof fn lemma_root_counts_files(s: Seq<Node>)
    requires
        1 <= s.len(),
        s[0].spec_is_dir(),
        forall|c: int| 0 < c < s.len() ==> (#[trigger] s[c]).parent < c && s[s[c].parent as int].spec_is_dir(),
    ensures
        subtree_files(s, 0) == file_records(s),
{
    let n = s.len() as int;
    lemma_held_at_end(s, n);
    lemma_hand_all(s, n);
    assert(held_upto(s, 1, 1) == held_upto(s, 1, 0) + held(s, 1, 0));
}

proof fn lemma_held_at_end(s: Seq<Node>, m: int)
    requires
        0 <= m <= s.len(),
    ensures
        held_upto(s, s.len() as int, m) == files_upto(s, m),
    decreases m,
{
    if m > 0 {
        lemma_held_at_end(s, m - 1);
    }
}

/// Handing over the counts of all records from `i` on keeps the total.
proof fn lemma_hand_all(s: Seq<Node>, i: int)
    requires
        1 <= i <= s.len(),
        forall|c: int| 0 < c < s.len() ==> (#[trigger] s[c]).parent < c && s[s[c].parent as int].spec_is_dir(),
    ensures
        held_upto(s, 1, 1) == held_upto(s, i, i),
    decreases i,
{
    if i > 1 {
        lemma_hand_all(s, i - 1);
        let j = i - 1;
        lemma_hand_over(s, j, j);
        assert(held_upto(s, i, i) == held_upto(s, i, j) + held(s, i, j));
        if !s[j].spec_is_dir() {
            assert(subtree_files(s, j) == 1);
        }
    }
}


/// A record added at the end is one more file when it is a file.
pub proof fn lemma_files_push(s: Seq<Node>, x: Node)
    ensures
        file_records(s.push(x)) == file_records(s) + if x.spec_is_dir() {
            0nat
        } else {
            1nat
        },
{
    lemma_files_upto_prefix(s, s.push(x), s.len() as int);
}

/// Records added at the end that are all folders add no file.
pub proof fn lemma_files_folders_added(s: Seq<Node>, t: Seq<Node>)
    requires
        s.len() <= t.len(),
        forall|i: int| 0 <= i < s.len() ==> #[trigger] t[i] == s[i],
        forall|i: int| s.len() <= i < t.len() ==> (#[trigger] t[i]).spec_is_dir(),
    ensures
        file_records(t) == file_records(s),
{
    lemma_files_upto_prefix(s, t, s.len() as int);
    lemma_files_upto_dirs(t, s.len() as int, t.len() as int);
}

proof fn lemma_files_upto_prefix(s: Seq<Node>, t: Seq<Node>, m: int)
    requires
        0 <= m <= s.len() <= t.len(),
        forall|i: int| 0 <= i < s.len() ==> #[trigger] t[i] == s[i],
    ensures
        files_upto(t, m) == files_upto(s, m),
    decreases m,
{
    if m > 0 {
        lemma_files_upto_prefix(s, t, m - 1);
        assert(t[m - 1] == s[m - 1]);
    }
}

proof fn lemma_files_upto_dirs(t: Seq<Node>, lo: int, m: int)
    requires
        0 <= lo <= m <= t.len(),
        forall|i: int| lo <= i < t.len() ==> (#[trigger] t[i]).spec_is_dir(),
    ensures
        files_upto(t, m) == files_upto(t, lo),
    decreases m - lo,
{
    if m > lo {
        lemma_files_upto_dirs(t, lo, m - 1);
        assert(t[m - 1].spec_is_dir());
    }
}


/// The sizes recorded in the records `0..m`.
pub open spec fn bytes_upto(s: Seq<Node>, m: int) -> int
    decreases m,
{
    if m <= 0 {
        0
    } else {
        bytes_upto(s, m - 1) + s[m - 1].bytes
    }
}

/// The sizes recorded in all the records.
pub open spec fn total_bytes(s: Seq<Node>) -> int {
    bytes_upto(s, s.len() as int)
}

/// What record `k` holds of the sizes once the records from `i` on have
/// handed their totals to their parents.
pub open spec fn held_bytes(s: Seq<Node>, i: int, k: int) -> int {
    s[k].bytes + kids_bytes(s, k, i, s.len() as int)
}

/// What the records `0..m` hold of the sizes, once the records from `i` on
/// have handed their totals to their parents.
pub open spec fn held_bytes_upto(s: Seq<Node>, i: int, m: int) -> int
    decreases m,
{
    if m <= 0 {
        0
    } else {
        held_bytes_upto(s, i, m - 1) + held_bytes(s, i, m - 1)
    }
}

proof fn lemma_hand_over_bytes(s: Seq<Node>, i: int, m: int)
    requires
        1 <= i < s.len(),
        0 <= m <= i,
        s[i].parent < i,
    ensures
        held_bytes_upto(s, i, m) == held_bytes_upto(s, i + 1, m) + if s[i].parent < m {
            subtree_bytes(s, i)
        } else {
            0
        },
    decreases m,
{
    if m > 0 {
        lemma_hand_over_bytes(s, i, m - 1);
        lemma_kids_split_low(s, m - 1, i, s.len() as int);
    }
}

proof fn lemma_hand_all_bytes(s: Seq<Node>, i: int)
    requires
        1 <= i <= s.len(),
        forall|c: int| 0 < c < s.len() ==> (#[trigger] s[c]).parent < c,
    ensures
        held_bytes_upto(s, 1, 1) == held_bytes_upto(s, i, i),
    decreases i,
{
    if i > 1 {
        lemma_hand_all_bytes(s, i - 1);
        let j = i - 1;
        lemma_hand_over_bytes(s, j, j);
    }
}

proof fn lemma_held_bytes_at_end(s: Seq<Node>, m: int)
    requires
        0 <= m <= s.len(),
    ensures
        held_bytes_upto(s, s.len() as int, m) == bytes_upto(s, m),
    decreases m,
{
    if m > 0 {
        lemma_held_bytes_at_end(s, m - 1);
    }
}

/// The root's total is the sum of every record's size.
pub proof fn lemma_root_sums_bytes(s: Seq<Node>)
    requires
        1 <= s.len(),
        forall|c: int| 0 < c < s.len() ==> (#[trigger] s[c]).parent < c,
    ensures
        subtree_bytes(s, 0) == total_bytes(s),
{
    let n = s.len() as int;
    lemma_held_bytes_at_end(s, n);
    lemma_hand_all_bytes(s, n);
    assert(held_bytes_upto(s, 1, 1) == held_bytes_upto(s, 1, 0) + held_bytes(s, 1, 0));
}

/// A record added at the end adds its size to the total.
pub proof fn lemma_bytes_push(s: Seq<Node>, x: Node)
    ensures
        total_bytes(s.push(x)) == total_bytes(s) + x.bytes,
{
    lemma_bytes_upto_prefix(s, s.push(x), s.len() as int);
}

/// Records of no size added at the end leave the total as it was.
pub proof fn lemma_bytes_zero_added(s: Seq<Node>, t: Seq<Node>)
    requires
        s.len() <= t.len(),
        forall|i: int| 0 <= i < s.len() ==> #[trigger] t[i] == s[i],
        forall|i: int| s.len() <= i < t.len() ==> (#[trigger] t[i]).bytes == 0,
    ensures
        total_bytes(t) == total_bytes(s),
{
    lemma_bytes_upto_prefix(s, t, s.len() as int);
    lemma_bytes_upto_zero(t, s.len() as int, t.len() as int);
}

proof fn lemma_bytes_upto_prefix(s: Seq<Node>, t: Seq<Node>, m: int)
    requires
        0 <= m <= s.len() <= t.len(),
        forall|i: int| 0 <= i < s.len() ==> #[trigger] t[i] == s[i],
    ensures
        bytes_upto(t, m) == bytes_upto(s, m),
    decreases m,
{
    if m > 0 {
        lemma_bytes_upto_prefix(s, t, m - 1);
        assert(t[m - 1] == s[m - 1]);
    }
}

proof fn lemma_bytes_upto_zero(t: Seq<Node>, lo: int, m: int)
    requires
        0 <= lo <= m <= t.len(),
        forall|i: int| lo <= i < t.len() ==> (#[trigger] t[i]).bytes == 0,
    ensures
        bytes_upto(t, m) == bytes_upto(t, lo),
    decreases m - lo,
{
    if m > lo {
        lemma_bytes_upto_zero(t, lo, m - 1);
        assert(t[m - 1].bytes == 0);
    }
}


proof fn lemma_held_nonneg(s: Seq<Node>, i: int, m: int)
    requires
        0 <= m <= s.len(),
        0 <= m <= i,
    ensures
        held_upto(s, i, m) >= 0,
        held_bytes_upto(s, i, m) >= 0,
    decreases m,
{
    if m > 0 {
        lemma_held_nonneg(s, i, m - 1);
        lemma_kids_nonneg(s, m - 1, i, s.len() as int);
    }
}

/// No record's totals exceed those of the whole hierarchy.
pub proof fn lemma_subtree_within(s: Seq<Node>, j: int)
    requires
        1 <= s.len(),
        0 <= j < s.len(),
        s[0].spec_is_dir(),
        forall|c: int| 0 < c < s.len() ==> (#[trigger] s[c]).parent < c && s[s[c].parent as int].spec_is_dir(),
    ensures
        subtree_bytes(s, j) <= total_bytes(s),
        subtree_files(s, j) <= file_records(s),
{
    let n = s.len() as int;
    lemma_root_sums_bytes(s);
    lemma_root_counts_files(s);
    lemma_hand_all_bytes(s, j + 1);
    lemma_hand_all(s, j + 1);
    lemma_hand_all_bytes(s, n);
    lemma_hand_all(s, n);
    lemma_held_bytes_at_end(s, n);
    lemma_held_at_end(s, n);
    assert(held_bytes_upto(s, 1, 1) == held_bytes_upto(s, 1, 0) + held_bytes(s, 1, 0));
    assert(held_upto(s, 1, 1) == held_upto(s, 1, 0) + held(s, 1, 0));
    lemma_held_nonneg(s, j + 1, j);
    assert(held_bytes_upto(s, j + 1, j + 1) == held_bytes_upto(s, j + 1, j) + held_bytes(s, j + 1, j));
    assert(held_upto(s, j + 1, j + 1) == held_upto(s, j + 1, j) + held(s, j + 1, j));
    if !s[j].spec_is_dir() {
        assert(subtree_files(s, j) == 1);
    }
}

/// Some folder total overflows exactly when the whole hierarchy's does.
pub proof fn lemma_overflow_is_total(s: Seq<Node>)
    requires
        1 <= s.len(),
        s[0].spec_is_dir(),
        forall|c: int| 0 < c < s.len() ==> (#[trigger] s[c]).parent < c && s[s[c].parent as int].spec_is_dir(),
    ensures
        bytes_overflow(s) <==> total_bytes(s) > u64::MAX,
        files_overflow(s) <==> file_records(s) > u32::MAX,
{
    lemma_root_sums_bytes(s);
    lemma_root_counts_files(s);
    if bytes_overflow(s) {
        let j = choose|j: int| 0 <= j < s.len() && #[trigger] subtree_bytes(s, j) > u64::MAX;
        lemma_subtree_within(s, j);
    }
    if total_bytes(s) > u64::MAX {
        assert(subtree_bytes(s, 0) > u64::MAX);
    }
    if files_overflow(s) {
        let j = choose|j: int| 0 <= j < s.len() && #[trigger] subtree_files(s, j) > u32::MAX;
        lemma_subtree_within(s, j);
    }
    if file_records(s) > u32::MAX {
        assert(subtree_files(s, 0) > u32::MAX);
    }
}

} // verus!
