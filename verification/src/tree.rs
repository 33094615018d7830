//! Virtual tree rows represented by ranges of children, not one row per file.
use crate::model::{lineage, Dataset, Id, ROOT};
use std::collections::HashSet;
use vstd::prelude::*;
use vstd::std_specs::iter::IteratorSpec;

verus! {

/// Child `k` of folder `p`, in display order.
pub open spec fn kid(d: Dataset, p: Id, k: int) -> Id {
    d.spec_child_ids(p)[k]
}

/// Folder `p` shows the children of its child `c` in the rows below `c`.
pub open spec fn opens(d: Dataset, e: Set<Id>, p: Id, c: Id) -> bool {
    e.contains(c) && p < c < d.nodes@.len()
}

/// The rows shown below folder `p` from its child `k` on, at `depth`: each
/// child, then the rows below it if it is expanded.
pub open spec fn rows_from(d: Dataset, e: Set<Id>, p: Id, k: int, depth: int) -> Seq<(Id, int)>
    decreases d.nodes@.len() - p, d.spec_child_ids(p).len() - k,
{
    if p >= d.nodes@.len() || k < 0 || k >= d.spec_child_ids(p).len() {
        Seq::empty()
    } else {
        let c = kid(d, p, k);
        let below = if opens(d, e, p, c) {
            rows_from(d, e, c, 0, depth + 1)
        } else {
            Seq::empty()
        };
        seq![(c, depth)] + below + rows_from(d, e, p, k + 1, depth)
    }
}

/// The rows of the tree with the folders `e` expanded: the root's children
/// at depth 0, and below each expanded folder its own rows.
pub open spec fn rows(d: Dataset, e: Set<Id>) -> Seq<(Id, int)> {
    rows_from(d, e, ROOT, 0, 0)
}

/// Children `a..b` of `p` as rows at `depth`, none opened.
pub open spec fn plain_rows(d: Dataset, p: Id, a: int, b: int, depth: int) -> Seq<(Id, int)> {
    Seq::new((b - a) as nat, |t: int| (kid(d, p, a + t), depth))
}

/// The ids of a sequence of rows.
pub open spec fn row_ids(r: Seq<(Id, int)>) -> Seq<int> {
    r.map_values(|x: (Id, int)| x.0 as int)
}

/// `p` is a proper ancestor of `x`.
pub open spec fn under(d: Dataset, x: int, p: int) -> bool {
    x != p && lineage(d.nodes@, x).contains(p as Id)
}

/// The child of `p` on the way from `p` down to `x`.
pub open spec fn branch(d: Dataset, x: int, p: int) -> Id {
    lineage(d.nodes@, x)[lineage(d.nodes@, p).len() as int]
}

/// Children with nothing expanded among them show one row each.
pub proof fn lemma_rows_skip(d: Dataset, e: Set<Id>, p: Id, a: int, b: int, depth: int)
    requires
        p < d.nodes@.len(),
        0 <= a <= b <= d.spec_child_ids(p).len(),
        forall|k: int| a <= k < b ==> !opens(d, e, p, #[trigger] kid(d, p, k)),
    ensures
        rows_from(d, e, p, a, depth) == plain_rows(d, p, a, b, depth) + rows_from(d, e, p, b, depth),
    decreases b - a,
{
    if a < b {
        lemma_rows_skip(d, e, p, a + 1, b, depth);
        assert(plain_rows(d, p, a, b, depth) =~= seq![(kid(d, p, a), depth)] + plain_rows(
            d,
            p,
            a + 1,
            b,
            depth,
        ));
        assert(rows_from(d, e, p, a, depth) =~= seq![(kid(d, p, a), depth)] + rows_from(
            d,
            e,
            p,
            a + 1,
            depth,
        ));
    } else {
        assert(plain_rows(d, p, a, b, depth) =~= Seq::<(Id, int)>::empty());
    }
}

/// The lineage of a record runs from the root to the record, through its parent.
pub proof fn lemma_lineage_shape(d: Dataset, x: int)
    requires
        d.tree_ok(),
        0 <= x < d.nodes@.len(),
    ensures
        lineage(d.nodes@, x).len() >= 1,
        lineage(d.nodes@, x).last() == x,
        lineage(d.nodes@, x)[0] == ROOT,
        forall|i: int| 0 <= i < lineage(d.nodes@, x).len() ==> lineage(d.nodes@, x)[i] <= x,
        x > 0 ==> lineage(d.nodes@, x) == lineage(d.nodes@, d.nodes@[x].parent as int).push(x as Id),
    decreases x,
{
    if x > 0 {
        let p = d.nodes@[x].parent as int;
        lemma_lineage_shape(d, p);
    }
}

/// Every record on the lineage of `x` has its own lineage as a prefix of it.
pub proof fn lemma_lineage_prefix(d: Dataset, x: int, c: int)
    requires
        d.tree_ok(),
        0 <= x < d.nodes@.len(),
        lineage(d.nodes@, x).contains(c as Id),
        0 <= c <= u32::MAX,
    ensures
        c <= x,
        lineage(d.nodes@, c).len() <= lineage(d.nodes@, x).len(),
        lineage(d.nodes@, x).take(lineage(d.nodes@, c).len() as int) == lineage(d.nodes@, c),
    decreases x,
{
    lemma_lineage_shape(d, x);
    let l = lineage(d.nodes@, x);
    if x == 0 {
        assert(l == seq![ROOT]);
        assert(l[0] == c as Id);
        assert(l.take(1) =~= l);
    } else if c == x {
        assert(l.take(l.len() as int) =~= l);
    } else {
        let p = d.nodes@[x].parent as int;
        let lp = lineage(d.nodes@, p);
        assert(l == lp.push(x as Id));
        let i = choose|i: int| 0 <= i < l.len() && l[i] == c as Id;
        assert(i < lp.len());
        assert(lp[i] == c as Id);
        lemma_lineage_prefix(d, p, c);
        assert(l.take(lineage(d.nodes@, c).len() as int) =~= lp.take(
            lineage(d.nodes@, c).len() as int,
        ));
    }
}

/// A child `c` of `p` lies under `p`, and is its own branch.
proof fn lemma_child_under(d: Dataset, p: Id, k: int)
    requires
        d.wf(),
        p < d.nodes@.len(),
        0 <= k < d.spec_child_ids(p).len(),
    ensures
        0 < kid(d, p, k) < d.nodes@.len(),
        p < kid(d, p, k),
        under(d, kid(d, p, k) as int, p as int),
        branch(d, kid(d, p, k) as int, p as int) == kid(d, p, k),
        lineage(d.nodes@, kid(d, p, k) as int) == lineage(d.nodes@, p as int).push(kid(d, p, k)),
{
    let c = kid(d, p, k);
    assert(0 < c < d.nodes@.len() && d.nodes@[c as int].parent == p);
    lemma_lineage_shape(d, c as int);
    lemma_lineage_shape(d, p as int);
    let lp = lineage(d.nodes@, p as int);
    assert(lineage(d.nodes@, c as int)[lp.len() - 1] == p);
}

/// The rows below `p` from child `k` on show records under `p`, each reached
/// through a child of `p` from `k` on, and none twice.
pub proof fn lemma_rows_below(d: Dataset, e: Set<Id>, p: Id, k: int, depth: int)
    requires
        d.wf(),
        p < d.nodes@.len(),
        0 <= k,
    ensures
        ({
            let r = rows_from(d, e, p, k, depth);
            &&& forall|i: int|
                0 <= i < r.len() ==> {
                    &&& (#[trigger] r[i]).0 < d.nodes@.len()
                    &&& under(d, r[i].0 as int, p as int)
                    &&& exists|j: int|
                        k <= j < d.spec_child_ids(p).len() && #[trigger] kid(d, p, j) == branch(
                            d,
                            r[i].0 as int,
                            p as int,
                        )
                }
            &&& row_ids(r).no_duplicates()
        }),
    decreases d.nodes@.len() - p, d.spec_child_ids(p).len() - k,
{
    let r = rows_from(d, e, p, k, depth);
    let len = d.spec_child_ids(p).len();
    if k >= len {
        assert(row_ids(r) =~= Seq::<int>::empty());
        return;
    }
    let c = kid(d, p, k);
    lemma_child_under(d, p, k);
    let lp = lineage(d.nodes@, p as int);
    let a: Seq<(Id, int)> = seq![(c, depth)];
    let b = if opens(d, e, p, c) {
        rows_from(d, e, c, 0, depth + 1)
    } else {
        Seq::empty()
    };
    let rest = rows_from(d, e, p, k + 1, depth);
    assert(r == a + b + rest);
    lemma_rows_below(d, e, p, k + 1, depth);
    if opens(d, e, p, c) {
        lemma_rows_below(d, e, c, 0, depth + 1);
    }
    // Rows below `c` lie under `p` through `c`.
    assert forall|i: int| 0 <= i < b.len() implies {
        &&& (#[trigger] b[i]).0 < d.nodes@.len()
        &&& under(d, b[i].0 as int, p as int)
        &&& branch(d, b[i].0 as int, p as int) == c
        &&& b[i].0 > c
    } by {
        let x = b[i].0 as int;
        assert(under(d, x, c as int));
        lemma_lineage_prefix(d, x, c as int);
        let lx = lineage(d.nodes@, x);
        let lc = lineage(d.nodes@, c as int);
        assert(lx.take(lc.len() as int) == lc);
        assert(lx[lp.len() - 1] == lc[lp.len() - 1]);
        assert(lc[lp.len() - 1] == p);
        assert(lx[lp.len() as int] == lc[lp.len() as int]);
    }
    assert forall|i: int| 0 <= i < r.len() implies {
        &&& (#[trigger] r[i]).0 < d.nodes@.len()
        &&& under(d, r[i].0 as int, p as int)
        &&& exists|j: int|
            k <= j < len && #[trigger] kid(d, p, j) == branch(d, r[i].0 as int, p as int)
    } by {
        if i == 0 {
            assert(r[i] == (c, depth));
            assert(kid(d, p, k) == branch(d, c as int, p as int));
        } else if i < 1 + b.len() {
            assert(r[i] == b[i - 1]);
            assert(kid(d, p, k) == branch(d, r[i].0 as int, p as int));
        } else {
            assert(r[i] == rest[i - 1 - b.len()]);
        }
    }
    // No record shows twice.
    let ia = row_ids(a);
    let ib = row_ids(b);
    let ir = row_ids(rest);
    assert(row_ids(r) =~= ia + ib + ir);
    assert(ia.no_duplicates());
    if !opens(d, e, p, c) {
        assert(ib =~= Seq::<int>::empty());
    }
    assert forall|i: int, j: int| 0 <= i < ia.len() && 0 <= j < ib.len() implies ia[i] != ib[j] by {
        assert(b[j].0 > c);
    }
    vstd::seq_lib::lemma_no_dup_in_concat(ia, ib);
    assert forall|i: int, j: int| 0 <= i < (ia + ib).len() && 0 <= j < ir.len() implies (ia + ib)[i]
        != ir[j] by {
        let y = rest[j].0 as int;
        let jj = choose|jj: int| k + 1 <= jj < len && #[trigger] kid(d, p, jj) == branch(d, y, p as int);
        assert(d.spec_child_ids(p).no_duplicates());
        if i == 0 {
            if ia[i] == ir[j] {
                assert(kid(d, p, jj) == c);
            }
        } else {
            let x = b[i - 1].0 as int;
            if ia.len() + ib.len() > i && (ia + ib)[i] == ir[j] {
                assert((ia + ib)[i] == ib[i - 1]);
                assert(branch(d, x, p as int) == c);
                assert(kid(d, p, jj) == c);
            }
        }
    }
    vstd::seq_lib::lemma_no_dup_in_concat(ia + ib, ir);
}

/// No record shows in two rows, so a tree never has more rows than records
/// below the root.
pub proof fn lemma_rows_len(d: Dataset, e: Set<Id>)
    requires
        d.wf(),
    ensures
        row_ids(rows(d, e)).no_duplicates(),
        rows(d, e).len() <= d.nodes@.len() - 1,
{
    let r = rows(d, e);
    lemma_rows_below(d, e, ROOT, 0, 0);
    let ids = row_ids(r);
    ids.unique_seq_to_set();
    let range = vstd::set_lib::set_int_range(1, d.nodes@.len() as int);
    vstd::set_lib::lemma_int_range(1, d.nodes@.len() as int);
    assert forall|x: int| ids.to_set().contains(x) implies range.contains(x) by {
        let i = choose|i: int| 0 <= i < ids.len() && ids[i] == x;
        assert(r[i].0 < d.nodes@.len());
        assert(under(d, x, 0));
    }
    vstd::set_lib::lemma_len_subset(ids.to_set(), range);
}

/// Two distinct children are always ordered one way or the other.
proof fn lemma_order_total(d: Dataset, a: Id, b: Id)
    requires
        a != b,
    ensures
        crate::order::comes_before(d.nodes@, a, b) != crate::order::comes_before(d.nodes@, b, a),
{
}

/// Where `id` stands among the children of `parent`, found by binary search
/// in the display order.
fn child_index(data: &Dataset, parent: Id, id: Id) -> (r: Option<usize>)
    requires
        data.wf(),
        parent < data.nodes@.len(),
        id < data.nodes@.len(),
    ensures
        match r {
            Some(k) => k < data.spec_child_ids(parent).len() && kid(*data, parent, k as int) == id,
            None => !data.spec_child_ids(parent).contains(id),
        },
{
    let ids = data.child_ids(parent);
    let ghost s = data.spec_child_ids(parent);
    let target = crate::model::bytes_of(&data.nodes, id);
    let mut lo: usize = 0;
    let mut hi: usize = ids.len();
    proof {
        assert(crate::order::sorted_by_size(data.nodes@, s));
        assert(s.no_duplicates());
    }
    while lo < hi
        invariant
            data.wf(),
            parent < data.nodes@.len(),
            id < data.nodes@.len(),
            ids@ == s,
            s == data.spec_child_ids(parent),
            crate::order::sorted_by_size(data.nodes@, s),
            s.no_duplicates(),
            target == data.nodes@[id as int].bytes,
            lo <= hi <= s.len(),
            forall|k: int| 0 <= k < lo ==> crate::order::comes_before(data.nodes@, #[trigger] s[k], id),
            forall|k: int|
                hi <= k < s.len() ==> crate::order::comes_before(data.nodes@, id, #[trigger] s[k]),
        decreases hi - lo,
    {
        let mid = lo + (hi - lo) / 2;
        let c = ids[mid];
        proof {
            assert(0 < c < data.nodes@.len()) by {
                assert(s[mid as int] == c);
            }
        }
        if c == id {
            return Some(mid);
        }
        let b = crate::model::bytes_of(&data.nodes, c);
        if b > target || (b == target && c < id) {
            proof {
                assert forall|k: int| 0 <= k < mid + 1 implies crate::order::comes_before(
                    data.nodes@,
                    #[trigger] s[k],
                    id,
                ) by {
                    if k < mid {
                        assert(!crate::order::comes_before(data.nodes@, s[mid as int], s[k]));
                        lemma_order_total(*data, s[k], s[mid as int]);
                    }
                }
            }
            lo = mid + 1;
        } else {
            proof {
                assert forall|k: int| mid <= k < s.len() implies crate::order::comes_before(
                    data.nodes@,
                    id,
                    #[trigger] s[k],
                ) by {
                    if k > mid {
                        assert(!crate::order::comes_before(data.nodes@, s[k], s[mid as int]));
                        lemma_order_total(*data, s[k], s[mid as int]);
                    }
                }
            }
            hi = mid;
        }
    }
    proof {
        if s.contains(id) {
            let k = choose|k: int| 0 <= k < s.len() && s[k] == id;
            assert(crate::order::comes_before(data.nodes@, s[k], id) || crate::order::comes_before(
                data.nodes@,
                id,
                s[k],
            ));
        }
    }
    None
}

/// A run of consecutive children of one folder, shown as consecutive rows.
struct Span {
    parent: Id,
    start: usize,
    end: usize,
    depth: usize,
    first: usize,
}

/// The rows that the spans `spans` show, in order.
#[verifier::opaque]
spec fn spans_rows(d: Dataset, spans: Seq<Span>) -> Seq<(Id, int)>
    decreases spans.len(),
{
    if spans.len() == 0 {
        Seq::empty()
    } else {
        let x = spans.last();
        spans_rows(d, spans.drop_last()) + plain_rows(
            d,
            x.parent,
            x.start as int,
            x.end as int,
            x.depth as int,
        )
    }
}

/// Each span names a non-empty run of children and knows the row it starts at.
closed spec fn spans_ok(d: Dataset, spans: Seq<Span>) -> bool {
    forall|k: int|
        0 <= k < spans.len() ==> {
            let x = #[trigger] spans[k];
            &&& x.parent < d.nodes@.len()
            &&& x.start < x.end <= d.spec_child_ids(x.parent).len()
            &&& x.first == spans_rows(d, spans.take(k)).len()
        }
}

/// Runs that are not empty give at least one row each.
proof fn lemma_spans_len(d: Dataset, spans: Seq<Span>)
    requires
        forall|k: int| 0 <= k < spans.len() ==> (#[trigger] spans[k]).start < spans[k].end,
    ensures
        spans.len() <= spans_rows(d, spans).len(),
    decreases spans.len(),
{
    if spans.len() > 0 {
        let r = spans.drop_last();
        assert forall|k: int| 0 <= k < r.len() implies (#[trigger] r[k]).start < r[k].end by {
            assert(r[k] == spans[k]);
        }
        lemma_spans_len(d, r);
        let x = spans.last();
        assert(x.start < x.end);
        assert(plain_rows(d, x.parent, x.start as int, x.end as int, x.depth as int).len() == x.end - x.start);
        assert(spans_rows(d, spans).len() == spans_rows(d, r).len() + (x.end - x.start)) by {
            reveal(spans_rows);
        }
    }
}

/// The rows of the first `m` spans begin the rows of all of them.
proof fn lemma_spans_prefix(d: Dataset, spans: Seq<Span>, m: int)
    requires
        0 <= m <= spans.len(),
    ensures
        spans_rows(d, spans.take(m)).len() <= spans_rows(d, spans).len(),
        spans_rows(d, spans).take(spans_rows(d, spans.take(m)).len() as int) == spans_rows(
            d,
            spans.take(m),
        ),
    decreases spans.len(),
{
    reveal(spans_rows);
    if m == spans.len() {
        assert(spans.take(m) =~= spans);
        assert(spans_rows(d, spans).take(spans_rows(d, spans).len() as int) =~= spans_rows(d, spans));
    } else {
        assert(spans.take(m) =~= spans.drop_last().take(m));
        lemma_spans_prefix(d, spans.drop_last(), m);
    }
}

/// Row `first + t` of the spans is row `t` of span `k`, and span `k` ends
/// where the next one starts.
#[verifier::rlimit(40)]
proof fn lemma_span_rows(d: Dataset, spans: Seq<Span>, k: int)
    requires
        spans_ok(d, spans),
        0 <= k < spans.len(),
    ensures
        ({
            let x = spans[k];
            let size = x.end - x.start;
            &&& spans_rows(d, spans.take(k + 1)).len() == x.first + size
            &&& x.first + size <= spans_rows(d, spans).len()
            &&& forall|t: int|
                0 <= t < size ==> #[trigger] spans_rows(d, spans)[x.first + t] == (
                    kid(d, x.parent, x.start + t),
                    x.depth as int,
                )
            &&& k + 1 < spans.len() ==> spans[k + 1].first == x.first + size
            &&& k + 1 == spans.len() ==> spans_rows(d, spans).len() == x.first + size
        }),
{
    reveal(spans_rows);
    let x = spans[k];
    let pre = spans.take(k + 1);
    assert(pre.drop_last() =~= spans.take(k));
    assert(pre.last() == x);
    lemma_spans_prefix(d, spans, k + 1);
    let all = spans_rows(d, spans);
    let part = spans_rows(d, pre);
    assert forall|t: int| 0 <= t < x.end - x.start implies #[trigger] all[x.first + t] == (
        kid(d, x.parent, x.start + t),
        x.depth as int,
    ) by {
        assert(all[x.first + t] == part[x.first + t]);
    }
    if k + 1 < spans.len() {
        assert(spans[k + 1].first == spans_rows(d, spans.take(k + 1)).len());
    } else {
        assert(pre =~= spans);
    }
}

/// Every row lies in some span.
proof fn lemma_row_in_span(d: Dataset, spans: Seq<Span>, i: int) -> (k: int)
    requires
        spans_ok(d, spans),
        0 <= i < spans_rows(d, spans).len(),
    ensures
        0 <= k < spans.len(),
        spans[k].first <= i < spans[k].first + spans[k].end - spans[k].start,
    decreases spans.len(),
{
    reveal(spans_rows);
    let last = spans.len() - 1;
    let x = spans[last];
    lemma_span_rows(d, spans, last);
    if i >= x.first {
        last
    } else {
        let rest = spans.drop_last();
        assert forall|j: int| 0 <= j < rest.len() implies {
            let y = #[trigger] rest[j];
            &&& y.parent < d.nodes@.len()
            &&& y.start < y.end <= d.spec_child_ids(y.parent).len()
            &&& y.first == spans_rows(d, rest.take(j)).len()
        } by {
            assert(rest.take(j) =~= spans.take(j));
            assert(rest[j] == spans[j]);
        }
        assert(spans.take(last) =~= rest);
        lemma_row_in_span(d, rest, i)
    }
}

/// The folder rows of a hierarchy, with the expanded folders opened.
#[derive(Default)]
pub struct Tree {
    expanded: HashSet<Id>,
    spans: Vec<Span>,
    pub len: usize,
}

impl Tree {
    /// The expanded folders.
    pub closed spec fn spec_expanded(&self) -> Set<Id> {
        self.expanded@
    }

    /// The rows the tree shows for `d`.
    pub open spec fn spec_rows(&self, d: Dataset) -> Seq<(Id, int)> {
        rows(d, self.spec_expanded())
    }

    /// The spans show exactly the rows of `d` with this tree's folders expanded.
    pub closed spec fn inv(&self, d: Dataset) -> bool {
        &&& forall|id: Id| #[trigger] self.expanded@.contains(id) ==> id < d.nodes@.len()
        &&& spans_ok(d, self.spans@)
        &&& spans_rows(d, self.spans@) == rows(d, self.expanded@)
        &&& self.len == rows(d, self.expanded@).len()
    }

    /// How many runs of children the rows are kept as.
    pub closed spec fn spec_span_count(&self) -> nat {
        self.spans@.len()
    }

    /// The value of the public field `len`.
    pub closed spec fn spec_len(&self) -> nat {
        self.len as nat
    }

    /// The number of rows, as the field `len` holds it.
    pub fn row_count(&self) -> (r: usize)
        ensures
            r == self.spec_len(),
    {
        self.len
    }

    /// A tree that shows `d` counts its rows in `len`, and keeps them as at
    /// most that many runs of children.
    pub proof fn lemma_len(&self, d: Dataset)
        requires
            self.inv(d),
        ensures
            self.spec_len() == self.spec_rows(d).len(),
            self.spec_span_count() <= self.spec_len(),
    {
        assert forall|k: int| 0 <= k < self.spans@.len() implies (#[trigger] self.spans@[k]).start
            < self.spans@[k].end by {
            assert(spans_ok(d, self.spans@));
        }
        lemma_spans_len(d, self.spans@);
    }

    /// How many runs of children the rows are kept as.
    pub fn span_count(&self) -> (r: usize)
        ensures
            r == self.spec_span_count(),
    {
        self.spans.len()
    }

    pub fn is_expanded(&self, id: Id) -> (r: bool)
        ensures
            r == self.spec_expanded().contains(id),
    {
        self.expanded.contains(&id)
    }

    /// The record shown in row `index` and its depth.
    pub fn row(&self, data: &Dataset, index: usize) -> (r: Option<(Id, usize)>)
        requires
            data.wf(),
            self.inv(*data),
        ensures
            r is None <==> index >= self.spec_rows(*data).len(),
            r matches Some((id, depth)) ==> self.spec_rows(*data)[index as int] == (id, depth as int),
    {
        if index >= self.len {
            return None;
        }
        let ghost sp = self.spans@;
        let k = span_at(&self.spans, index, Ghost(*data));
        let span = &self.spans[k];
        proof {
            lemma_span_rows(*data, sp, k as int);
            assert(sp[k as int] == *span);
            let t = index - span.first;
            assert(spans_rows(*data, sp)[span.first + t] == (
                kid(*data, span.parent, span.start + t),
                span.depth as int,
            ));
            assert(span.first + t == index);
        }
        let ids = data.child_ids(span.parent);
        Some((ids[span.start + (index - span.first)], span.depth))
    }

    /// The row that shows `id`, if one does.
    pub fn row_of(&self, data: &Dataset, id: Id) -> (r: Option<usize>)
        requires
            data.wf(),
            self.inv(*data),
            id < data.nodes@.len(),
        ensures
            r matches Some(i) ==> i < self.spec_rows(*data).len() && self.spec_rows(*data)[i as int].0
                == id,
            r is None ==> id == ROOT || !row_ids(self.spec_rows(*data)).contains(id as int),
            id == ROOT ==> r is None,
    {
        if id == ROOT {
            return None;
        }
        let parent = data.node(id).parent;
        let index = match child_index(data, parent, id) {
            Some(i) => i,
            None => {
                return None;
            },
        };
        let ghost sp = self.spans@;
        match span_holding(&self.spans, parent, index) {
            Some(k) => {
                let s = &self.spans[k];
                proof {
                    lemma_span_rows(*data, sp, k as int);
                    let t = index - s.start;
                    assert(spans_rows(*data, sp)[s.first + t] == (
                        kid(*data, s.parent, s.start + t),
                        s.depth as int,
                    ));
                }
                Some(s.first + (index - s.start))
            },
            None => {
                proof {
                    let rs = self.spec_rows(*data);
                    if row_ids(rs).contains(id as int) {
                        let i = choose|i: int| 0 <= i < row_ids(rs).len() && row_ids(rs)[i] == id as int;
                        let j = lemma_row_in_span(*data, sp, i);
                        let x = sp[j];
                        let t = i - x.first;
                        lemma_span_rows(*data, sp, j);
                        assert(spans_rows(*data, sp)[x.first + t] == (
                            kid(*data, x.parent, x.start + t),
                            x.depth as int,
                        ));
                        assert(rs[i].0 == id);
                        assert(data.nodes@[id as int].parent == x.parent);
                        assert(data.spec_child_ids(parent).no_duplicates());
                        assert(x.start + t == index);
                        assert(!(sp[j].parent == parent && sp[j].start <= index < sp[j].end));
                    }
                }
                None
            },
        }
    }
}

/// The last span that starts at or before row `index`.
fn span_at(spans: &Vec<Span>, index: usize, Ghost(d): Ghost<Dataset>) -> (k: usize)
    requires
        spans_ok(d, spans@),
        index < spans_rows(d, spans@).len(),
    ensures
        k < spans@.len(),
        spans@[k as int].first <= index < spans@[k as int].first + spans@[k as int].end
            - spans@[k as int].start,
{
    let ghost sp = spans@;
    proof {
        let k0 = lemma_row_in_span(d, sp, index as int);
        lemma_span_rows(d, sp, 0);
        assert(sp[0].first == 0) by {
            assert(sp.take(0) =~= Seq::<Span>::empty());
            reveal(spans_rows);
        }
    }
    let mut lo: usize = 0;
    let mut hi: usize = spans.len();
    while lo < hi
        invariant
            spans_ok(d, sp),
            sp == spans@,
            lo <= hi <= sp.len(),
            index < spans_rows(d, sp).len(),
            sp.len() > 0,
            sp[0].first == 0,
            forall|k: int| 0 <= k < lo ==> (#[trigger] sp[k]).first <= index,
            forall|k: int| hi <= k < sp.len() ==> (#[trigger] sp[k]).first > index,
        decreases hi - lo,
    {
        let mid = lo + (hi - lo) / 2;
        if spans[mid].first <= index {
            proof {
                assert forall|k: int| 0 <= k < mid + 1 implies (#[trigger] sp[k]).first <= index by {
                    if k < mid {
                        lemma_spans_first_mono(d, sp, k, mid as int);
                    }
                }
            }
            lo = mid + 1;
        } else {
            proof {
                assert forall|k: int| mid <= k < sp.len() implies (#[trigger] sp[k]).first > index by {
                    if k > mid {
                        lemma_spans_first_mono(d, sp, mid as int, k);
                    }
                }
            }
            hi = mid;
        }
    }
    proof {
        lemma_span_rows(d, sp, lo - 1);
    }
    lo - 1
}

/// The first span that shows child `index` of `parent`.
fn span_holding(spans: &Vec<Span>, parent: Id, index: usize) -> (r: Option<usize>)
    ensures
        r matches Some(k) ==> k < spans@.len() && spans@[k as int].parent == parent
            && spans@[k as int].start <= index < spans@[k as int].end,
        r is None ==> forall|k: int|
            0 <= k < spans@.len() ==> !((#[trigger] spans@[k]).parent == parent && spans@[k].start
                <= index < spans@[k].end),
{
    let mut k: usize = 0;
    while k < spans.len()
        invariant
            k <= spans@.len(),
            forall|j: int|
                0 <= j < k ==> !((#[trigger] spans@[j]).parent == parent && spans@[j].start <= index
                    < spans@[j].end),
        decreases spans@.len() - k,
    {
        let s = &spans[k];
        if s.parent == parent && s.start <= index && index < s.end {
            return Some(k);
        }
        k = k + 1;
    }
    None
}

/// Spans start at increasing rows.
proof fn lemma_spans_first_mono(d: Dataset, spans: Seq<Span>, a: int, b: int)
    requires
        spans_ok(d, spans),
        0 <= a <= b < spans.len(),
    ensures
        spans[a].first <= spans[b].first,
        a < b ==> spans[a].first < spans[b].first,
    decreases b - a,
{
    if a < b {
        lemma_spans_first_mono(d, spans, a, b - 1);
        lemma_span_rows(d, spans, b - 1);
    }
}

/// An expanded folder as the rebuild finds it: its parent, its position
/// among the parent's children, and its id.
pub type Entry = (Id, usize, Id);

/// `x` names the expanded folder `x.2`, child `x.1` of `x.0`.
pub open spec fn entry_ok(d: Dataset, e: Set<Id>, x: Entry) -> bool {
    &&& x.0 < d.nodes@.len()
    &&& x.1 < d.spec_child_ids(x.0).len()
    &&& kid(d, x.0, x.1 as int) == x.2
    &&& 0 < x.2 < d.nodes@.len()
    &&& d.nodes@[x.2 as int].parent == x.0
    &&& e.contains(x.2)
}

/// Tuples in the order std gives them: by parent, then position, then id.
pub open spec fn entry_le(a: Entry, b: Entry) -> bool {
    a.0 < b.0 || (a.0 == b.0 && (a.1 < b.1 || (a.1 == b.1 && a.2 <= b.2)))
}

/// The entries list every expanded folder but the root once, ordered by
/// parent and then by position.
pub open spec fn entries_ok(d: Dataset, e: Set<Id>, ents: Seq<Entry>) -> bool {
    &&& forall|j: int| 0 <= j < ents.len() ==> entry_ok(d, e, #[trigger] ents[j])
    &&& forall|a: int, b: int|
        0 <= a < b < ents.len() ==> (#[trigger] ents[a]).0 < (#[trigger] ents[b]).0 || (ents[a].0
            == ents[b].0 && ents[a].1 < ents[b].1)
    &&& forall|c: Id|
        e.contains(c) && c != ROOT ==> exists|j: int| 0 <= j < ents.len() && (#[trigger] ents[j]).2 == c
}

/// Sorts the entries with `<[T]>::sort_unstable`, whose order on tuples is
/// the lexicographic order of their fields.
#[verifier::external_body]
fn sort_entries(v: &mut Vec<Entry>)
    ensures
        final(v)@.to_multiset() == old(v)@.to_multiset(),
        forall|a: int, b: int|
            0 <= a < b < final(v)@.len() ==> entry_le(#[trigger] final(v)@[a], #[trigger] final(v)@[b]),
{
    v.sort_unstable();
}

/// The expanded folders, each once, in the order the set hands them out.
fn expanded_list(expanded: &HashSet<Id>) -> (r: Vec<Id>)
    ensures
        r@.to_set() == expanded@,
        r@.no_duplicates(),
{
    broadcast use vstd::std_specs::hash::group_hash_axioms;

    let mut out: Vec<Id> = Vec::new();
    let ghost keys = vstd::std_specs::hash::spec_hash_keys_iter(expanded).remaining().unref();
    for id in it: expanded.iter()
        invariant
            keys == vstd::std_specs::hash::spec_hash_keys_iter(expanded).remaining().unref(),
            out@ == it.seq().take(it.index() as int).unref(),
            it.seq().unref() == keys,
        ensures
            out@ == keys,
    {
        out.push(*id);
    }
    out
}

/// Every expanded folder but the root, with its parent and position, in order.
fn collect_entries(expanded: &HashSet<Id>, data: &Dataset) -> (r: Vec<Entry>)
    requires
        data.wf(),
        forall|id: Id| #[trigger] expanded@.contains(id) ==> id < data.nodes@.len(),
    ensures
        entries_ok(*data, expanded@, r@),
{
    let ghost e = expanded@;
    let keys = expanded_list(expanded);
    let ghost ks = keys@;
    let mut out: Vec<Entry> = Vec::new();
    let ghost mut src: Seq<int> = Seq::empty();
    let ghost mut pos: Seq<int> = Seq::empty();
    let mut i: usize = 0;
    while i < keys.len()
        invariant
            data.wf(),
            ks == keys@,
            ks.to_set() == e,
            ks.no_duplicates(),
            forall|c: Id| #[trigger] e.contains(c) ==> c < data.nodes@.len(),
            i <= ks.len(),
            src.len() == out@.len(),
            pos.len() == i,
            forall|j: int| 0 <= j < out@.len() ==> entry_ok(*data, e, #[trigger] out@[j]),
            forall|j: int|
                0 <= j < out@.len() ==> 0 <= #[trigger] src[j] < i && ks[src[j]] == out@[j].2,
            forall|j1: int, j2: int| 0 <= j1 < j2 < out@.len() ==> #[trigger] src[j1] < #[trigger] src[j2],
            forall|t: int|
                0 <= t < i && ks[t] != ROOT ==> 0 <= #[trigger] pos[t] < out@.len() && out@[pos[t]].2
                    == ks[t],
        decreases ks.len() - i,
    {
        let c = keys[i];
        proof {
            assert(ks.to_set().contains(c));
        }
        if c != ROOT {
            let parent = data.node(c).parent;
            match child_index(data, parent, c) {
                Some(index) => {
                    proof {
                        src = src.push(i as int);
                        pos = pos.push(out@.len() as int);
                    }
                    out.push((parent, index, c));
                },
                None => {
                    proof {
                        assert(data.spec_child_ids(data.nodes@[c as int].parent).contains(c));
                    }
                },
            }
        } else {
            proof {
                pos = pos.push(-1);
            }
        }
        i = i + 1;
    }
    proof {
        assert forall|j1: int, j2: int| 0 <= j1 < out@.len() && 0 <= j2 < out@.len() && j1 != j2 implies out@[j1]
            != out@[j2] by {
            if j1 < j2 {
                assert(src[j1] < src[j2]);
            } else {
                assert(src[j2] < src[j1]);
            }
        }
        assert(out@.no_duplicates());
        assert forall|c: Id| e.contains(c) && c != ROOT implies exists|j: int|
            0 <= j < out@.len() && (#[trigger] out@[j]).2 == c by {
            assert(ks.to_set().contains(c));
            let t = choose|t: int| 0 <= t < ks.len() && ks[t] == c;
            assert(out@[pos[t]].2 == c);
        }
    }
    let ghost unsorted = out@;
    sort_entries(&mut out);
    proof {
        lemma_sorted_entries(*data, e, unsorted, out@);
    }
    out
}

/// Sorting the entries keeps what they say and puts them in order.
proof fn lemma_sorted_entries(d: Dataset, e: Set<Id>, unsorted: Seq<Entry>, v: Seq<Entry>)
    requires
        d.wf(),
        forall|j: int| 0 <= j < unsorted.len() ==> entry_ok(d, e, #[trigger] unsorted[j]),
        unsorted.no_duplicates(),
        forall|c: Id|
            e.contains(c) && c != ROOT ==> exists|j: int|
                0 <= j < unsorted.len() && (#[trigger] unsorted[j]).2 == c,
        v.to_multiset() == unsorted.to_multiset(),
        forall|a: int, b: int| 0 <= a < b < v.len() ==> entry_le(#[trigger] v[a], #[trigger] v[b]),
    ensures
        entries_ok(d, e, v),
{
    broadcast use vstd::seq_lib::group_to_multiset_ensures;

    assert forall|j: int| 0 <= j < v.len() implies entry_ok(d, e, #[trigger] v[j]) by {
        assert(v.contains(v[j]));
        assert(unsorted.to_multiset().count(v[j]) > 0);
        assert(unsorted.contains(v[j]));
    }
    unsorted.lemma_multiset_has_no_duplicates();
    v.lemma_multiset_has_no_duplicates_conv();
    assert forall|a: int, b: int| 0 <= a < b < v.len() implies (#[trigger] v[a]).0 < (
    #[trigger] v[b]).0 || (v[a].0 == v[b].0 && v[a].1 < v[b].1) by {
        assert(entry_le(v[a], v[b]));
        assert(entry_ok(d, e, v[a]));
        assert(entry_ok(d, e, v[b]));
        if v[a].0 == v[b].0 && v[a].1 == v[b].1 {
            assert(v[a] == v[b]);
        }
    }
    assert forall|c: Id| e.contains(c) && c != ROOT implies exists|j: int|
        0 <= j < v.len() && (#[trigger] v[j]).2 == c by {
        let j0 = choose|j: int| 0 <= j < unsorted.len() && (#[trigger] unsorted[j]).2 == c;
        assert(unsorted.contains(unsorted[j0]));
        assert(v.to_multiset().count(unsorted[j0]) > 0);
        assert(v.contains(unsorted[j0]));
    }
}

/// The entries of the children of `p`: those from `lo` up to `hi`.
fn entries_of(ents: &Vec<Entry>, p: Id, Ghost(d): Ghost<Dataset>, Ghost(e): Ghost<Set<Id>>) -> (r: (
    usize,
    usize,
))
    requires
        entries_ok(d, e, ents@),
    ensures
        r.0 <= r.1 <= ents@.len(),
        forall|j: int| 0 <= j < r.0 ==> (#[trigger] ents@[j]).0 < p,
        forall|j: int| r.0 <= j < r.1 ==> (#[trigger] ents@[j]).0 == p,
        forall|j: int| r.1 <= j < ents@.len() ==> (#[trigger] ents@[j]).0 > p,
{
    let mut lo: usize = 0;
    let mut hi: usize = ents.len();
    while lo < hi
        invariant
            entries_ok(d, e, ents@),
            lo <= hi <= ents@.len(),
            forall|j: int| 0 <= j < lo ==> (#[trigger] ents@[j]).0 < p,
            forall|j: int| hi <= j < ents@.len() ==> (#[trigger] ents@[j]).0 >= p,
        decreases hi - lo,
    {
        let mid = lo + (hi - lo) / 2;
        if ents[mid].0 < p {
            proof {
                assert forall|j: int| 0 <= j < mid + 1 implies (#[trigger] ents@[j]).0 < p by {
                    if j < mid {
                        assert(ents@[j].0 <= ents@[mid as int].0);
                    }
                }
            }
            lo = mid + 1;
        } else {
            proof {
                assert forall|j: int| mid <= j < ents@.len() implies (#[trigger] ents@[j]).0 >= p by {
                    if j > mid {
                        assert(ents@[mid as int].0 <= ents@[j].0);
                    }
                }
            }
            hi = mid;
        }
    }
    let first = lo;
    let mut hi: usize = ents.len();
    while lo < hi
        invariant
            entries_ok(d, e, ents@),
            first <= lo <= hi <= ents@.len(),
            forall|j: int| 0 <= j < first ==> (#[trigger] ents@[j]).0 < p,
            forall|j: int| first <= j < lo ==> (#[trigger] ents@[j]).0 == p,
            forall|j: int| first <= j < ents@.len() ==> (#[trigger] ents@[j]).0 >= p,
            forall|j: int| hi <= j < ents@.len() ==> (#[trigger] ents@[j]).0 > p,
        decreases hi - lo,
    {
        let mid = lo + (hi - lo) / 2;
        if ents[mid].0 == p {
            proof {
                assert forall|j: int| first <= j < mid + 1 implies (#[trigger] ents@[j]).0 == p by {
                    if j < mid {
                        assert(ents@[j].0 <= ents@[mid as int].0);
                    }
                }
            }
            lo = mid + 1;
        } else {
            proof {
                assert forall|j: int| mid <= j < ents@.len() implies (#[trigger] ents@[j]).0 > p by {
                    if j > mid {
                        assert(ents@[mid as int].0 <= ents@[j].0);
                    }
                }
            }
            hi = mid;
        }
    }
    (first, lo)
}

/// Work left for the rebuild: show a folder's children with the expanded
/// ones opened, or show a run of children as they are.
enum Task {
    Children(Id, usize),
    Range(Id, usize, usize, usize),
}

/// The rows a task shows.
spec fn task_rows(d: Dataset, e: Set<Id>, t: Task) -> Seq<(Id, int)> {
    match t {
        Task::Children(p, depth) => rows_from(d, e, p, 0, depth as int),
        Task::Range(p, a, b, depth) => plain_rows(d, p, a as int, b as int, depth as int),
    }
}

/// A task names a folder of `d` and, for a run, a range of its children.
spec fn task_ok(d: Dataset, t: Task) -> bool {
    match t {
        Task::Children(p, depth) => p < d.nodes@.len() && depth <= p,
        Task::Range(p, a, b, depth) => p < d.nodes@.len() && a <= b <= d.spec_child_ids(p).len(),
    }
}

/// How much work a task still holds; opening a folder costs more than the
/// runs and folders it leaves behind.
spec fn task_weight(d: Dataset, e: Set<Id>, t: Task) -> nat {
    match t {
        Task::Children(p, depth) => 3 * rows_from(d, e, p, 0, depth as int).len() + 2,
        Task::Range(..) => 1,
    }
}

/// The rows the stack shows, top first.
spec fn stack_rows(d: Dataset, e: Set<Id>, s: Seq<Task>) -> Seq<(Id, int)>
    decreases s.len(),
{
    if s.len() == 0 {
        Seq::empty()
    } else {
        task_rows(d, e, s.last()) + stack_rows(d, e, s.drop_last())
    }
}

spec fn stack_weight(d: Dataset, e: Set<Id>, s: Seq<Task>) -> nat
    decreases s.len(),
{
    if s.len() == 0 {
        0
    } else {
        task_weight(d, e, s.last()) + stack_weight(d, e, s.drop_last())
    }
}

proof fn lemma_stack_push(d: Dataset, e: Set<Id>, s: Seq<Task>, t: Task)
    ensures
        stack_rows(d, e, s.push(t)) == task_rows(d, e, t) + stack_rows(d, e, s),
        stack_weight(d, e, s.push(t)) == task_weight(d, e, t) + stack_weight(d, e, s),
{
    assert(s.push(t).drop_last() =~= s);
}

/// The rows of `p` after entry `j` of its expanded children, past that child's own row.
spec fn rows_after(d: Dataset, e: Set<Id>, ents: Seq<Entry>, p: Id, j: int, hi: int, depth: int) -> Seq<
    (Id, int),
> {
    if j >= hi {
        Seq::empty()
    } else {
        rows_from(d, e, p, ents[j].1 as int, depth).drop_first()
    }
}

/// No child of `p` strictly between two consecutive expanded ones is opened.
proof fn lemma_gap(d: Dataset, e: Set<Id>, ents: Seq<Entry>, p: Id, lo: int, hi: int, j: int, k: int)
    requires
        d.wf(),
        entries_ok(d, e, ents),
        p < d.nodes@.len(),
        0 <= lo <= j <= hi <= ents.len(),
        forall|x: int| 0 <= x < lo ==> (#[trigger] ents[x]).0 < p,
        forall|x: int| lo <= x < hi ==> (#[trigger] ents[x]).0 == p,
        forall|x: int| hi <= x < ents.len() ==> (#[trigger] ents[x]).0 > p,
        0 <= k < d.spec_child_ids(p).len(),
        j > lo ==> ents[j - 1].1 < k,
        j < hi ==> k < ents[j].1,
    ensures
        !opens(d, e, p, kid(d, p, k)),
{
    let c = kid(d, p, k);
    if opens(d, e, p, c) {
        assert(d.nodes@[c as int].parent == p);
        let x = choose|x: int| 0 <= x < ents.len() && (#[trigger] ents[x]).2 == c;
        assert(entry_ok(d, e, ents[x]));
        assert(lo <= x < hi) by {
            if x < lo {
                assert(ents[x].0 < p);
            }
            if x >= hi {
                assert(ents[x].0 > p);
            }
        }
        assert(d.spec_child_ids(p).no_duplicates());
        assert(ents[x].1 == k);
        if x < j {
            if x < j - 1 {
                assert(ents[x].1 < ents[j - 1].1);
            }
        } else {
            if x > j {
                assert(ents[j].1 < ents[x].1);
            }
        }
    }
}

proof fn lemma_plain_concat(d: Dataset, p: Id, a: int, b: int, c: int, depth: int)
    requires
        a <= b <= c,
    ensures
        plain_rows(d, p, a, b, depth) + plain_rows(d, p, b, c, depth) == plain_rows(d, p, a, c, depth),
{
    assert(plain_rows(d, p, a, b, depth) + plain_rows(d, p, b, c, depth) =~= plain_rows(
        d,
        p,
        a,
        c,
        depth,
    ));
}

/// The rows of `p` after an expanded child continue with a plain run and the
/// rows after the next expanded child.
#[verifier::rlimit(60)]
#[verifier::spinoff_prover]
proof fn lemma_push_step(
    d: Dataset,
    e: Set<Id>,
    ents: Seq<Entry>,
    p: Id,
    lo: int,
    hi: int,
    j: int,
    cursor: int,
    depth: int,
)
    requires
        d.wf(),
        entries_ok(d, e, ents),
        p < d.nodes@.len(),
        0 <= lo <= j < hi <= ents.len(),
        forall|x: int| 0 <= x < lo ==> (#[trigger] ents[x]).0 < p,
        forall|x: int| lo <= x < hi ==> (#[trigger] ents[x]).0 == p,
        forall|x: int| hi <= x < ents.len() ==> (#[trigger] ents[x]).0 > p,
        cursor == (if j + 1 == hi {
            d.spec_child_ids(p).len() as int
        } else {
            ents[j + 1].1 + 1
        }),
    ensures
        ({
            let i = ents[j].1 as int;
            let id = ents[j].2;
            &&& i + 1 <= cursor <= d.spec_child_ids(p).len()
            &&& opens(d, e, p, id)
            &&& rows_after(d, e, ents, p, j, hi, depth) == rows_from(d, e, id, 0, depth + 1) + plain_rows(
                d,
                p,
                i + 1,
                cursor,
                depth,
            ) + rows_after(d, e, ents, p, j + 1, hi, depth)
            &&& rows_after(d, e, ents, p, j, hi, depth).len() >= rows_from(d, e, id, 0, depth + 1).len()
                + (if j + 1 < hi {
                1int
            } else {
                0int
            }) + rows_after(d, e, ents, p, j + 1, hi, depth).len()
        }),
{
    let i = ents[j].1 as int;
    let id = ents[j].2;
    let count = d.spec_child_ids(p).len() as int;
    assert(entry_ok(d, e, ents[j]));
    assert(opens(d, e, p, id));
    if j + 1 < hi {
        assert(entry_ok(d, e, ents[j + 1]));
        assert(ents[j].1 < ents[j + 1].1);
    }
    let next = if j + 1 == hi {
        count
    } else {
        ents[j + 1].1 as int
    };
    assert forall|k: int| i + 1 <= k < next implies !opens(d, e, p, #[trigger] kid(d, p, k)) by {
        lemma_gap(d, e, ents, p, lo, hi, j + 1, k);
    }
    lemma_rows_skip(d, e, p, i + 1, next, depth);
    let r = rows_from(d, e, p, i, depth);
    assert(r == seq![(id, depth)] + rows_from(d, e, id, 0, depth + 1) + rows_from(d, e, p, i + 1, depth));
    assert(r.drop_first() =~= rows_from(d, e, id, 0, depth + 1) + rows_from(d, e, p, i + 1, depth));
    if j + 1 == hi {
        assert(rows_from(d, e, p, count, depth) =~= Seq::<(Id, int)>::empty());
        assert(rows_from(d, e, p, i + 1, depth) =~= plain_rows(d, p, i + 1, cursor, depth));
    } else {
        let r2 = rows_from(d, e, p, next, depth);
        assert(r2 =~= seq![(kid(d, p, next), depth)] + r2.drop_first());
        assert(plain_rows(d, p, next, cursor, depth) =~= seq![(kid(d, p, next), depth)]);
        lemma_plain_concat(d, p, i + 1, next, cursor, depth);
    }
    assert(rows_after(d, e, ents, p, j, hi, depth) =~= rows_from(d, e, id, 0, depth + 1) + plain_rows(
        d,
        p,
        i + 1,
        cursor,
        depth,
    ) + rows_after(d, e, ents, p, j + 1, hi, depth));
}

/// The rows of `p` are a plain run up to its first expanded child, then the
/// rows after it.
proof fn lemma_push_first(d: Dataset, e: Set<Id>, ents: Seq<Entry>, p: Id, lo: int, hi: int, depth: int)
    requires
        d.wf(),
        entries_ok(d, e, ents),
        p < d.nodes@.len(),
        0 <= lo <= hi <= ents.len(),
        forall|x: int| 0 <= x < lo ==> (#[trigger] ents[x]).0 < p,
        forall|x: int| lo <= x < hi ==> (#[trigger] ents[x]).0 == p,
        forall|x: int| hi <= x < ents.len() ==> (#[trigger] ents[x]).0 > p,
    ensures
        ({
            let cursor = if lo == hi {
                d.spec_child_ids(p).len() as int
            } else {
                ents[lo].1 + 1
            };
            &&& 0 <= cursor <= d.spec_child_ids(p).len()
            &&& rows_from(d, e, p, 0, depth) == plain_rows(d, p, 0, cursor, depth) + rows_after(
                d,
                e,
                ents,
                p,
                lo,
                hi,
                depth,
            )
            &&& lo < hi ==> cursor >= 1
        }),
{
    let count = d.spec_child_ids(p).len() as int;
    let next = if lo == hi {
        count
    } else {
        ents[lo].1 as int
    };
    if lo < hi {
        assert(entry_ok(d, e, ents[lo]));
    }
    assert forall|k: int| 0 <= k < next implies !opens(d, e, p, #[trigger] kid(d, p, k)) by {
        lemma_gap(d, e, ents, p, lo, hi, lo, k);
    }
    lemma_rows_skip(d, e, p, 0, next, depth);
    if lo == hi {
        assert(rows_from(d, e, p, count, depth) =~= Seq::<(Id, int)>::empty());
    } else {
        let r2 = rows_from(d, e, p, next, depth);
        assert(r2 =~= seq![(kid(d, p, next), depth)] + r2.drop_first());
        assert(plain_rows(d, p, next, next + 1, depth) =~= seq![(kid(d, p, next), depth)]);
        lemma_plain_concat(d, p, 0, next, next + 1, depth);
    }
}

/// Replaces the work of opening folder `p` with its runs of plain children
/// and the folders to open among them, so that they pop in display order.
#[verifier::rlimit(60)]
fn push_children(
    stack: &mut Vec<Task>,
    data: &Dataset,
    ents: &Vec<Entry>,
    p: Id,
    depth: usize,
    Ghost(e): Ghost<Set<Id>>,
)
    requires
        data.wf(),
        entries_ok(*data, e, ents@),
        p < data.nodes@.len(),
        depth <= p,
        forall|k: int| 0 <= k < old(stack)@.len() ==> task_ok(*data, #[trigger] old(stack)@[k]),
    ensures
        stack_rows(*data, e, final(stack)@) == rows_from(*data, e, p, 0, depth as int) + stack_rows(
            *data,
            e,
            old(stack)@,
        ),
        stack_weight(*data, e, final(stack)@) < stack_weight(*data, e, old(stack)@) + 3 * rows_from(
            *data,
            e,
            p,
            0,
            depth as int,
        ).len() + 2,
        forall|k: int| 0 <= k < final(stack)@.len() ==> task_ok(*data, #[trigger] final(stack)@[k]),
{
    let ghost d = *data;
    let ghost base = stack@;
    let count = data.child_ids(p).len();
    let (lo, hi) = entries_of(ents, p, Ghost(d), Ghost(e));
    let mut cursor = count;
    let mut j = hi;
    while j > lo
        invariant
            d == *data,
            data.wf(),
            entries_ok(d, e, ents@),
            p < d.nodes@.len(),
            depth <= p,
            count == d.spec_child_ids(p).len(),
            lo <= j <= hi <= ents@.len(),
            forall|x: int| 0 <= x < lo ==> (#[trigger] ents@[x]).0 < p,
            forall|x: int| lo <= x < hi ==> (#[trigger] ents@[x]).0 == p,
            forall|x: int| hi <= x < ents@.len() ==> (#[trigger] ents@[x]).0 > p,
            cursor == (if j == hi {
                count as int
            } else {
                ents@[j as int].1 + 1
            }),
            stack_rows(d, e, stack@) == rows_after(d, e, ents@, p, j as int, hi as int, depth as int)
                + stack_rows(d, e, base),
            stack_weight(d, e, stack@) <= stack_weight(d, e, base) + 3 * rows_after(
                d,
                e,
                ents@,
                p,
                j as int,
                hi as int,
                depth as int,
            ).len() + (if j < hi {
                3int
            } else {
                0int
            }),
            forall|k: int| 0 <= k < stack@.len() ==> task_ok(d, #[trigger] stack@[k]),
        decreases j,
    {
        j = j - 1;
        let (_, index, id) = ents[j];
        proof {
            lemma_push_step(d, e, ents@, p, lo as int, hi as int, j as int, cursor as int, depth as int);
            assert(entry_ok(d, e, ents@[j as int]));
            assert(p < id);
        }
        let ghost s0 = stack@;
        stack.push(Task::Range(p, index + 1, cursor, depth));
        proof {
            lemma_stack_push(d, e, s0, Task::Range(p, (index + 1) as usize, cursor, depth));
        }
        let ghost s1 = stack@;
        stack.push(Task::Children(id, depth + 1));
        proof {
            lemma_stack_push(d, e, s1, Task::Children(id, (depth + 1) as usize));
            assert(task_rows(d, e, Task::Range(p, (index + 1) as usize, cursor, depth)) == plain_rows(
                d,
                p,
                index + 1,
                cursor as int,
                depth as int,
            ));
        }
        cursor = index + 1;
    }
    proof {
        lemma_push_first(d, e, ents@, p, lo as int, hi as int, depth as int);
    }
    let ghost s2 = stack@;
    stack.push(Task::Range(p, 0, cursor, depth));
    proof {
        lemma_stack_push(d, e, s2, Task::Range(p, 0, cursor, depth));
    }
}

/// Adding a span at the end adds its rows at the end.
proof fn lemma_spans_push(d: Dataset, spans: Seq<Span>, x: Span)
    requires
        spans_ok(d, spans),
        x.parent < d.nodes@.len(),
        x.start < x.end <= d.spec_child_ids(x.parent).len(),
        x.first == spans_rows(d, spans).len(),
    ensures
        spans_ok(d, spans.push(x)),
        spans_rows(d, spans.push(x)) == spans_rows(d, spans) + plain_rows(
            d,
            x.parent,
            x.start as int,
            x.end as int,
            x.depth as int,
        ),
{
    let s2 = spans.push(x);
    assert(s2.drop_last() =~= spans);
    reveal(spans_rows);
    assert forall|k: int| 0 <= k < s2.len() implies {
        let y = #[trigger] s2[k];
        &&& y.parent < d.nodes@.len()
        &&& y.start < y.end <= d.spec_child_ids(y.parent).len()
        &&& y.first == spans_rows(d, s2.take(k)).len()
    } by {
        if k < spans.len() {
            assert(s2.take(k) =~= spans.take(k));
            assert(s2[k] == spans[k]);
        } else {
            assert(s2.take(k) =~= spans);
        }
    }
}

impl Tree {
    /// Lays out the rows again from the expanded set: one pass over the
    /// expanded folders, then a depth-first walk that records runs of children.
    fn rebuild(&mut self, data: &Dataset)
        requires
            data.wf(),
            forall|id: Id| #[trigger] old(self).expanded@.contains(id) ==> id < data.nodes@.len(),
        ensures
            final(self).inv(*data),
            final(self).expanded@ == old(self).expanded@,
    {
        let ghost d = *data;
        let ghost e = self.expanded@;
        self.spans.clear();
        self.len = 0;
        let ents = collect_entries(&self.expanded, data);
        let mut stack: Vec<Task> = Vec::new();
        stack.push(Task::Children(ROOT, 0));
        proof {
            lemma_rows_len(d, e);
            reveal(spans_rows);
            assert(stack@ =~= Seq::<Task>::empty().push(Task::Children(ROOT, 0)));
            lemma_stack_push(d, e, Seq::<Task>::empty(), Task::Children(ROOT, 0));
            assert(stack_rows(d, e, stack@) =~= rows(d, e));
            assert(spans_rows(d, self.spans@) =~= Seq::<(Id, int)>::empty());
        }
        while stack.len() > 0
            invariant
                d == *data,
                data.wf(),
                e == self.expanded@,
                forall|id: Id| #[trigger] e.contains(id) ==> id < d.nodes@.len(),
                entries_ok(d, e, ents@),
                rows(d, e).len() <= d.nodes@.len() - 1,
                spans_ok(d, self.spans@),
                self.len == spans_rows(d, self.spans@).len(),
                spans_rows(d, self.spans@) + stack_rows(d, e, stack@) == rows(d, e),
                forall|k: int| 0 <= k < stack@.len() ==> task_ok(d, #[trigger] stack@[k]),
            decreases stack_weight(d, e, stack@),
        {
            let ghost s0 = stack@;
            let task = stack.pop().unwrap();
            proof {
                assert(s0 == stack@.push(task));
                lemma_stack_push(d, e, stack@, task);
                assert(task_ok(d, s0[s0.len() - 1]));
            }
            match task {
                Task::Range(parent, start, end, depth) => {
                    if start < end {
                        let x = Span { parent, start, end, depth, first: self.len };
                        proof {
                            lemma_spans_push(d, self.spans@, x);
                            assert(spans_rows(d, self.spans@) + plain_rows(
                                d,
                                parent,
                                start as int,
                                end as int,
                                depth as int,
                            ) + stack_rows(d, e, stack@) =~= rows(d, e));
                        }
                        self.spans.push(x);
                        self.len = self.len + (end - start);
                    } else {
                        proof {
                            assert(plain_rows(d, parent, start as int, end as int, depth as int)
                                =~= Seq::<(Id, int)>::empty());
                            assert(spans_rows(d, self.spans@) + stack_rows(d, e, stack@) =~= rows(d, e));
                        }
                    }
                },
                Task::Children(parent, depth) => {
                    let ghost s1 = stack@;
                    push_children(&mut stack, data, &ents, parent, depth, Ghost(e));
                    proof {
                        assert(spans_rows(d, self.spans@) + stack_rows(d, e, stack@) =~= rows(d, e));
                    }
                },
            }
        }
        proof {
            assert(stack_rows(d, e, stack@) =~= Seq::<(Id, int)>::empty());
            assert(spans_rows(d, self.spans@) =~= rows(d, e));
        }
    }
}

/// Every row shown from child `k` on is also shown from an earlier child on.
proof fn lemma_rows_suffix(d: Dataset, e: Set<Id>, p: Id, j: int, k: int, depth: int)
    requires
        0 <= j <= k,
    ensures
        forall|i: int|
            0 <= i < rows_from(d, e, p, k, depth).len() ==> rows_from(d, e, p, j, depth).contains(
                #[trigger] rows_from(d, e, p, k, depth)[i],
            ),
    decreases k - j,
{
    if j < k {
        lemma_rows_suffix(d, e, p, j + 1, k, depth);
        if p < d.nodes@.len() && j < d.spec_child_ids(p).len() {
            let r = rows_from(d, e, p, j, depth);
            let r1 = rows_from(d, e, p, j + 1, depth);
            let head = r.len() - r1.len();
            assert forall|i: int| 0 <= i < rows_from(d, e, p, k, depth).len() implies r.contains(
                #[trigger] rows_from(d, e, p, k, depth)[i],
            ) by {
                let x = rows_from(d, e, p, k, depth)[i];
                let t = choose|t: int| #![auto] 0 <= t < r1.len() && r1[t] == x;
                assert(r[head + t] == r1[t]);
            }
        }
    }
}

/// A folder whose lineage below the root is expanded shows all its rows in the tree.
proof fn lemma_visible_rows(d: Dataset, e: Set<Id>, y: Id) -> (depth: int)
    requires
        d.wf(),
        y < d.nodes@.len(),
        forall|c: Id| lineage(d.nodes@, y as int).contains(c) && c != ROOT ==> e.contains(c),
    ensures
        forall|i: int|
            0 <= i < rows_from(d, e, y, 0, depth).len() ==> rows(d, e).contains(
                #[trigger] rows_from(d, e, y, 0, depth)[i],
            ),
    decreases y,
{
    if y == ROOT {
        assert forall|i: int| 0 <= i < rows_from(d, e, y, 0, 0).len() implies rows(d, e).contains(
            #[trigger] rows_from(d, e, y, 0, 0)[i],
        ) by {
            assert(rows(d, e)[i] == rows_from(d, e, y, 0, 0)[i]);
        }
        0
    } else {
        let p = d.nodes@[y as int].parent;
        lemma_lineage_shape(d, y as int);
        let lp = lineage(d.nodes@, p as int);
        assert(lineage(d.nodes@, y as int) == lp.push(y));
        assert forall|c: Id| lp.contains(c) && c != ROOT implies e.contains(c) by {
            let t = choose|t: int| #![auto] 0 <= t < lp.len() && lp[t] == c;
            assert(lineage(d.nodes@, y as int)[t] == c);
        }
        let dp = lemma_visible_rows(d, e, p);
        assert(d.spec_child_ids(p).contains(y));
        let k = choose|k: int| #![auto] 0 <= k < d.spec_child_ids(p).len() && d.spec_child_ids(p)[k] == y;
        assert(lineage(d.nodes@, y as int).contains(y)) by {
            assert(lineage(d.nodes@, y as int)[lp.len() as int] == y);
        }
        assert(opens(d, e, p, y));
        lemma_rows_suffix(d, e, p, 0, k, dp);
        let rk = rows_from(d, e, p, k, dp);
        let below = rows_from(d, e, y, 0, dp + 1);
        assert(rk == seq![(y, dp)] + below + rows_from(d, e, p, k + 1, dp));
        assert forall|i: int| 0 <= i < below.len() implies rows(d, e).contains(#[trigger] below[i]) by {
            assert(rk[1 + i] == below[i]);
            assert(rows_from(d, e, p, 0, dp).contains(rk[1 + i]));
            let t = choose|t: int|
                0 <= t < rows_from(d, e, p, 0, dp).len() && rows_from(d, e, p, 0, dp)[t] == rk[1 + i];
        }
        dp + 1
    }
}

/// Once every folder above a record is expanded, the record shows in a row.
pub proof fn lemma_revealed_shows(d: Dataset, e: Set<Id>, x: Id)
    requires
        d.wf(),
        0 < x < d.nodes@.len(),
        forall|c: Id| #[trigger] lineage(d.nodes@, d.nodes@[x as int].parent as int).contains(c) ==> e.contains(c),
    ensures
        row_ids(rows(d, e)).contains(x as int),
{
    let p = d.nodes@[x as int].parent;
    let dp = lemma_visible_rows(d, e, p);
    assert(d.spec_child_ids(p).contains(x));
    let k = choose|k: int| #![auto] 0 <= k < d.spec_child_ids(p).len() && d.spec_child_ids(p)[k] == x;
    lemma_rows_suffix(d, e, p, 0, k, dp);
    let rk = rows_from(d, e, p, k, dp);
    assert(rk[0] == (x, dp));
    assert(rows_from(d, e, p, 0, dp).contains(rk[0]));
    let t = choose|t: int| #![auto] 0 <= t < rows_from(d, e, p, 0, dp).len() && rows_from(d, e, p, 0, dp)[t] == rk[0];
    assert(rows(d, e).contains(rk[0]));
    let i = choose|i: int| #![auto] 0 <= i < rows(d, e).len() && rows(d, e)[i] == rk[0];
    assert(row_ids(rows(d, e))[i] == x as int);
}

/// The expanded set after toggling `id`.
pub open spec fn toggled(e: Set<Id>, id: Id) -> Set<Id> {
    if e.contains(id) {
        e.remove(id)
    } else {
        e.insert(id)
    }
}

/// Toggling a folder twice leaves the expanded set as it was.
pub proof fn lemma_toggle_twice(e: Set<Id>, id: Id)
    ensures
        toggled(toggled(e, id), id) == e,
{
    assert(toggled(toggled(e, id), id) =~= e);
}

/// The folders expanded when a tree is first shown: the root and the folders directly in it.
pub open spec fn initially_expanded(d: Dataset) -> Set<Id> {
    Set::new(
        |c: Id|
            c == ROOT || (d.spec_child_ids(ROOT).contains(c) && d.nodes@[c as int].spec_is_dir()),
    )
}

impl Tree {
    pub fn new(data: &Dataset) -> (r: Self)
        requires
            data.wf(),
        ensures
            r.inv(*data),
            r.spec_expanded() == initially_expanded(*data),
            r.spec_len() == r.spec_rows(*data).len(),
            r.spec_span_count() <= r.spec_len(),
    {
        broadcast use vstd::std_specs::hash::group_hash_axioms;

        let mut tree = Tree { expanded: HashSet::new(), spans: Vec::new(), len: 0 };
        tree.expanded.insert(ROOT);
        let ids = data.child_ids(ROOT);
        let mut k: usize = 0;
        while k < ids.len()
            invariant
                data.wf(),
                ids@ == data.spec_child_ids(ROOT),
                k <= ids@.len(),
                tree.expanded@ == Set::new(
                    |c: Id|
                        c == ROOT || (ids@.take(k as int).contains(c)
                            && data.nodes@[c as int].spec_is_dir()),
                ),
            decreases ids@.len() - k,
        {
            let id = ids[k];
            let ghost before = tree.expanded@;
            proof {
                assert(0 < id < data.nodes@.len()) by {
                    assert(ids@[k as int] == id);
                }
            }
            if data.node(id).is_dir() {
                tree.expanded.insert(id);
            }
            proof {
                assert(ids@.take(k + 1) == ids@.take(k as int).push(id));
                assert(tree.expanded@ =~= Set::new(
                    |c: Id|
                        c == ROOT || (ids@.take(k + 1).contains(c)
                            && data.nodes@[c as int].spec_is_dir()),
                )) by {
                    let t1 = ids@.take(k + 1);
                    let t0 = ids@.take(k as int);
                    assert forall|c: Id| t1.contains(c) <==> (t0.contains(c) || c == id) by {
                        if t1.contains(c) {
                            let t = choose|t: int| 0 <= t < t1.len() && #[trigger] t1[t] == c;
                            if t < k {
                                assert(t0[t] == c);
                            }
                        }
                        if t0.contains(c) {
                            let t = choose|t: int| 0 <= t < t0.len() && #[trigger] t0[t] == c;
                            assert(t1[t] == c);
                        }
                        if c == id {
                            assert(t1[k as int] == c);
                        }
                    }
                }
            }
            k = k + 1;
        }
        proof {
            assert(ids@.take(ids@.len() as int) =~= ids@);
            assert(tree.expanded@ =~= initially_expanded(*data));
            assert forall|id: Id| #[trigger] tree.expanded@.contains(id) implies id < data.nodes@.len() by {
                if id != ROOT {
                    let t = choose|t: int| #![auto] 0 <= t < ids@.len() && ids@[t] == id;
                }
            }
        }
        tree.rebuild(data);
        proof {
            tree.lemma_len(*data);
        }
        tree
    }

    /// Expands a collapsed folder, or collapses an expanded one.
    pub fn toggle(&mut self, data: &Dataset, id: Id)
        requires
            data.wf(),
            old(self).inv(*data),
            id < data.nodes@.len(),
        ensures
            final(self).inv(*data),
            final(self).spec_expanded() == toggled(old(self).spec_expanded(), id),
            final(self).spec_len() == final(self).spec_rows(*data).len(),
            final(self).spec_span_count() <= final(self).spec_len(),
    {
        broadcast use vstd::std_specs::hash::group_hash_axioms;

        if !self.expanded.remove(&id) {
            self.expanded.insert(id);
        }
        self.rebuild(data);
        proof {
            self.lemma_len(*data);
        }
    }

    /// Expands every folder above `id` so that it shows, and gives its row.
    pub fn reveal_entry(&mut self, data: &Dataset, id: Id) -> (r: Option<usize>)
        requires
            data.wf(),
            old(self).inv(*data),
            id < data.nodes@.len(),
        ensures
            final(self).inv(*data),
            final(self).spec_expanded() == old(self).spec_expanded() + lineage(
                data.nodes@,
                data.nodes@[id as int].parent as int,
            ).to_set(),
            r matches Some(i) ==> i < final(self).spec_rows(*data).len() && final(self).spec_rows(
                *data,
            )[i as int].0 == id,
            r is None <==> id == ROOT,
            final(self).spec_len() == final(self).spec_rows(*data).len(),
            final(self).spec_span_count() <= final(self).spec_len(),
    {
        let ghost d = *data;
        let p0 = data.node(id).parent;
        proof {
            if id > 0 {
                assert(p0 < id);
            }
        }
        let changed = expand_above(&mut self.expanded, data, p0);
        proof {
            let l0 = lineage(d.nodes@, p0 as int);
            lemma_lineage_shape(d, p0 as int);
            assert forall|c: Id| #[trigger] self.expanded@.contains(c) implies c < d.nodes@.len() by {
                if !old(self).expanded@.contains(c) {
                    assert(l0.to_set().contains(c));
                    let t = choose|t: int| 0 <= t < l0.len() && #[trigger] l0[t] == c;
                }
            }
        }
        if changed {
            self.rebuild(data);
        }
        proof {
            if id != ROOT {
                let l0 = lineage(d.nodes@, p0 as int);
                assert forall|c: Id| #[trigger] l0.contains(c) implies self.expanded@.contains(c) by {
                    assert(l0.to_set().contains(c));
                }
                lemma_revealed_shows(d, self.expanded@, id);
            }
            self.lemma_len(*data);
        }
        self.row_of(data, id)
    }
}

/// Adds `p0` and every folder above it to `expanded`; says whether any was new.
fn expand_above(expanded: &mut HashSet<Id>, data: &Dataset, p0: Id) -> (changed: bool)
    requires
        data.wf(),
        p0 < data.nodes@.len(),
    ensures
        final(expanded)@ == old(expanded)@ + lineage(data.nodes@, p0 as int).to_set(),
        !changed ==> final(expanded)@ == old(expanded)@,
{
    broadcast use vstd::std_specs::hash::group_hash_axioms;

    let ghost d = *data;
    let ghost e0 = expanded@;
    let ghost l0 = lineage(d.nodes@, p0 as int);
    let mut changed = false;
    let mut parent = p0;
    proof {
        lemma_lineage_shape(d, p0 as int);
        assert(l0.skip(l0.len() as int) =~= Seq::<Id>::empty());
        assert(expanded@ =~= e0 + l0.skip(l0.len() as int).to_set());
        assert(l0.take(l0.len() as int) =~= l0);
        assert(l0.contains(p0)) by {
            assert(l0[l0.len() - 1] == p0);
        }
    }
    loop
        invariant_except_break
            d == *data,
            data.wf(),
            parent < d.nodes@.len(),
            l0 == lineage(d.nodes@, p0 as int),
            l0.contains(parent),
            lineage(d.nodes@, parent as int).len() <= l0.len(),
            l0.take(lineage(d.nodes@, parent as int).len() as int) == lineage(d.nodes@, parent as int),
            expanded@ == e0 + l0.skip(lineage(d.nodes@, parent as int).len() as int).to_set(),
            !changed ==> expanded@ == e0,
        ensures
            expanded@ == e0 + l0.to_set(),
            !changed ==> expanded@ == e0,
        decreases parent,
    {
        let ghost lp = lineage(d.nodes@, parent as int);
        proof {
            lemma_lineage_shape(d, parent as int);
            assert(l0[lp.len() - 1] == lp[lp.len() - 1]);
            let sa = l0.skip(lp.len() - 1);
            let sb = l0.skip(lp.len() as int);
            assert(sa.to_set() =~= sb.to_set().insert(parent)) by {
                assert forall|c: Id| sa.to_set().contains(c) <==> (sb.to_set().contains(c) || c == parent) by {
                    if sa.contains(c) {
                        let t = choose|t: int| 0 <= t < sa.len() && #[trigger] sa[t] == c;
                        if t > 0 {
                            assert(sb[t - 1] == c);
                        }
                    }
                    if sb.contains(c) {
                        let t = choose|t: int| 0 <= t < sb.len() && #[trigger] sb[t] == c;
                        assert(sa[t + 1] == c);
                    }
                    if c == parent {
                        assert(sa[0] == c);
                    }
                }
            }
        }
        let inserted = expanded.insert(parent);
        changed = changed || inserted;
        if parent == ROOT {
            proof {
                assert(lp == seq![ROOT]);
                assert(l0.skip(0) =~= l0);
            }
            break;
        }
        let next = data.node(parent).parent;
        proof {
            lemma_lineage_shape(d, next as int);
            assert(lp == lineage(d.nodes@, next as int).push(parent));
            let ln = lineage(d.nodes@, next as int);
            assert(l0[ln.len() - 1] == lp[ln.len() - 1]);
            assert(l0.contains(next)) by {
                assert(l0[ln.len() - 1] == next);
            }
            assert(l0.take(ln.len() as int) =~= ln);
        }
        parent = next;
    }
    changed
}

} // verus!
