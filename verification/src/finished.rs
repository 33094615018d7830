//! What every finished hierarchy keeps true: its shape, its child index, the
//! size order, the running totals and the folder totals.
use crate::finish::{below, built, lemma_below_le, lemma_below_mono, lemma_dir_owner, lemma_kid_count_below, range_done};
use crate::model::{
    dir_count, kid_count, names_ok, record_ok, records_ok, Dataset, Id, Node, ROOT,
};
use crate::totals::{file_records, kids, total_bytes, kids_bytes, subtree_bytes, subtree_files, subtree_unknown, sum_by, sum_bytes, with_totals};
use vstd::prelude::*;

verus! {

/// A record whose parent is `p` is listed among `p`'s children.
proof fn lemma_kid_listed(s: Seq<Node>, p: int, c: int, hi: int)
    requires
        1 <= c < hi <= s.len(),
        s[c].parent == p,
    ensures
        kids(s, p, 1, hi).contains(c as Id),
    decreases hi,
{
    let prev = kids(s, p, 1, hi - 1);
    if c == hi - 1 {
        assert(kids(s, p, 1, hi) == prev + seq![c as Id]);
        assert(kids(s, p, 1, hi)[prev.len() as int] == c as Id);
    } else {
        lemma_kid_listed(s, p, c, hi - 1);
        let k = choose|k: int| 0 <= k < prev.len() && prev[k] == c as Id;
        assert(kids(s, p, 1, hi)[k] == c as Id);
    }
}

/// The child range and the prefix range that a finished hierarchy shows for
/// folder record `j`.
proof fn lemma_folder_ranges(s: Seq<Node>, names: Seq<u8>, unknown: u64, d: Dataset, j: int)
    requires
        records_ok(s),
        built(s, names, unknown, d),
        0 <= j < s.len(),
        s[j].spec_is_dir(),
    ensures
        ({
            let n = s.len() as int;
            let dd = s[j].directory as int;
            &&& 0 <= below(s, dd, n) <= below(s, dd + 1, n) <= n - 1
            &&& d.spec_child_ids(j as Id) == d.children@.subrange(below(s, dd, n), below(s, dd + 1, n))
            &&& d.spec_child_prefix_bytes(j as Id) == d.prefix_bytes@.subrange(
                below(s, dd, n),
                below(s, dd + 1, n),
            )
        }),
{
    let n = s.len() as int;
    let dd = s[j].directory as int;
    lemma_kid_count_below(s, j, n);
    lemma_below_le(s, dd, n);
    lemma_below_mono(s, dd, dd + 1, n);
    assert(d.nodes@[j] == with_totals(s, j));
}

/// The shape and tree checks hold of a finished hierarchy.
proof fn lemma_finished_shape(s: Seq<Node>, names: Seq<u8>, unknown: u64, d: Dataset)
    requires
        records_ok(s),
        names_ok(s, names),
        built(s, names, unknown, d),
    ensures
        d.shape_ok(),
        d.tree_ok(),
{
    let n = s.len() as int;
    assert(record_ok(s, 0));
    crate::model::lemma_dir_index_below_count(s, 0);
    assert(d.nodes@[0] == with_totals(s, 0));
    assert forall|i: int| 0 <= i < n && (#[trigger] d.nodes@[i]).spec_is_dir() implies d.nodes@[i].directory
        < d.directories@.len() by {
        assert(d.nodes@[i] == with_totals(s, i));
        assert(record_ok(s, i));
        crate::model::lemma_dir_index_below_count(s, i);
    }
    assert forall|x: int| 0 <= x < d.directories@.len() implies (#[trigger] d.directories@[x]).child_start
        + d.directories@[x].child_count <= d.children@.len() by {
        assert(s.take(n) =~= s);
        lemma_dir_owner(s, x, n);
        let j = choose|j: int| 0 <= j < n && (#[trigger] s[j]).spec_is_dir() && s[j].directory == x;
        lemma_folder_ranges(s, names, unknown, d, j);
        lemma_kid_count_below(s, j, n);
    }
    assert forall|i: int| 0 < i < n implies (#[trigger] d.nodes@[i]).parent < i by {
        assert(d.nodes@[i] == with_totals(s, i));
    }
    assert forall|i: int| 0 <= i < n implies crate::model::name_ok(d.names@, #[trigger] d.nodes@[i]) by {
        assert(d.nodes@[i] == with_totals(s, i));
    }
}

/// The child index, size order, running totals and folder totals hold of the
/// folder record `j` of a finished hierarchy.
proof fn lemma_finished_folder(s: Seq<Node>, names: Seq<u8>, unknown: u64, d: Dataset, j: int)
    requires
        records_ok(s),
        built(s, names, unknown, d),
        0 <= j < s.len(),
        s[j].spec_is_dir(),
    ensures
        ({
            let ids = d.spec_child_ids(j as Id);
            &&& forall|t: int|
                0 <= t < ids.len() ==> {
                    let c = #[trigger] ids[t];
                    &&& 0 < c < s.len()
                    &&& s[c as int].parent == j
                }
            &&& forall|c: int| 1 <= c < s.len() && s[c].parent == j ==> ids.contains(c as Id)
            &&& ids.no_duplicates()
            &&& crate::order::sorted_by_size(d.nodes@, ids)
            &&& forall|t: int|
                0 <= t < d.spec_child_prefix_bytes(j as Id).len() ==> #[trigger] d.spec_child_prefix_bytes(
                    j as Id,
                )[t] == sum_bytes(d.nodes@, ids.take(t + 1))
            &&& d.nodes@[j].bytes == sum_bytes(d.nodes@, ids)
        }),
{
    broadcast use vstd::seq_lib::group_to_multiset_ensures;

    let n = s.len() as int;
    let dd = s[j].directory as int;
    lemma_folder_ranges(s, names, unknown, d, j);
    let ids = d.spec_child_ids(j as Id);
    let ks = kids(s, j, 1, n);
    assert(range_done(s, d.nodes@, d.children@, d.prefix_bytes@, j));
    assert(ids.to_multiset() == ks.to_multiset());
    crate::totals::lemma_kids_members(s, j, 1, n);
    assert forall|t: int| 0 <= t < ids.len() implies {
        let c = #[trigger] ids[t];
        &&& 0 < c < s.len()
        &&& s[c as int].parent == j
    } by {
        assert(ids.contains(ids[t]));
        assert(ids.to_multiset().count(ids[t]) > 0);
        assert(ks.contains(ids[t]));
    }
    assert forall|c: int| 1 <= c < s.len() && s[c].parent == j implies ids.contains(c as Id) by {
        lemma_kid_listed(s, j, c, n);
        assert(ks.to_multiset().count(c as Id) > 0);
    }
    assert(ks.no_duplicates());
    ks.lemma_multiset_has_no_duplicates();
    ids.lemma_multiset_has_no_duplicates_conv();
    assert forall|t: int| 0 <= t < d.spec_child_prefix_bytes(j as Id).len() implies #[trigger] d.spec_child_prefix_bytes(
        j as Id,
    )[t] == sum_bytes(d.nodes@, ids.take(t + 1)) by {
        assert(d.spec_child_prefix_bytes(j as Id)[t] == d.prefix_bytes@[below(s, dd, n) + t]);
    }
    assert forall|c: int| 0 <= c < n implies #[trigger] d.nodes@[c].bytes == subtree_bytes(s, c) by {
        assert(d.nodes@[c] == with_totals(s, c));
        crate::totals::lemma_subtree_nonneg(s, c);
    }
    crate::totals::lemma_sum_perm(d.nodes@, ids, ks);
    crate::totals::lemma_sum_kids(s, d.nodes@, j, n);
    assert(record_ok(s, j));
    assert(subtree_bytes(s, j) == s[j].bytes + kids_bytes(s, j, j + 1, n));
}

/// Every hierarchy that `Builder::finish` returns is well formed: its shape
/// checks pass, parents precede children, each folder lists exactly its
/// children, largest first, with running totals that end at the folder's size.
pub proof fn lemma_finished_wf(s: Seq<Node>, names: Seq<u8>, unknown: u64, d: Dataset)
    requires
        records_ok(s),
        names_ok(s, names),
        built(s, names, unknown, d),
    ensures
        d.wf(),
{
    let n = s.len() as int;
    lemma_finished_shape(s, names, unknown, d);
    assert forall|j: int| 0 <= j < n implies #[trigger] d.nodes@[j] == with_totals(s, j) by {}
    assert forall|id: Id, t: int|
        id < d.nodes@.len() && 0 <= t < d.spec_child_ids(id).len() implies {
            let c = #[trigger] d.spec_child_ids(id)[t];
            &&& 0 < c < d.nodes@.len()
            &&& d.nodes@[c as int].parent == id
        } by {
        assert(d.nodes@[id as int] == with_totals(s, id as int));
        lemma_finished_folder(s, names, unknown, d, id as int);
        let c = d.spec_child_ids(id)[t];
        assert(d.nodes@[c as int] == with_totals(s, c as int));
    }
    assert forall|c: int| 0 < c < d.nodes@.len() implies d.spec_child_ids(
        #[trigger] d.nodes@[c].parent,
    ).contains(c as Id) by {
        assert(d.nodes@[c] == with_totals(s, c));
        let p = s[c].parent;
        assert(d.nodes@[p as int] == with_totals(s, p as int));
        lemma_finished_folder(s, names, unknown, d, p as int);
    }
    assert forall|id: Id| id < d.nodes@.len() implies (#[trigger] d.spec_child_ids(id)).no_duplicates() by {
        assert(d.nodes@[id as int] == with_totals(s, id as int));
        if s[id as int].spec_is_dir() {
            lemma_finished_folder(s, names, unknown, d, id as int);
        }
    }
    assert forall|id: Id| id < d.nodes@.len() implies crate::order::sorted_by_size(
        d.nodes@,
        #[trigger] d.spec_child_ids(id),
    ) by {
        assert(d.nodes@[id as int] == with_totals(s, id as int));
        if s[id as int].spec_is_dir() {
            lemma_finished_folder(s, names, unknown, d, id as int);
        }
    }
    assert forall|id: Id, t: int|
        id < d.nodes@.len() && 0 <= t < d.spec_child_prefix_bytes(id).len() implies #[trigger] d.spec_child_prefix_bytes(
        id,
    )[t] == sum_bytes(d.nodes@, d.spec_child_ids(id).take(t + 1)) by {
        assert(d.nodes@[id as int] == with_totals(s, id as int));
        lemma_finished_folder(s, names, unknown, d, id as int);
    }
    assert forall|id: Id|
        id < d.nodes@.len() && (#[trigger] d.nodes@[id as int]).spec_is_dir() implies d.nodes@[id as int].bytes
        == sum_bytes(d.nodes@, d.spec_child_ids(id)) by {
        assert(d.nodes@[id as int] == with_totals(s, id as int));
        lemma_finished_folder(s, names, unknown, d, id as int);
    }
}

/// In a hierarchy whose prefix entries are running totals, the entries of a
/// folder never decrease, so `range_bytes` can be asked of any two positions.
pub proof fn lemma_prefix_monotone(d: Dataset, id: Id, a: int, b: int)
    requires
        d.shape_ok(),
        d.sums_ok(),
        id < d.nodes@.len(),
        0 <= a <= b < d.spec_child_prefix_bytes(id).len(),
    ensures
        d.spec_child_prefix_bytes(id)[a] <= d.spec_child_prefix_bytes(id)[b],
{
    let ids = d.spec_child_ids(id);
    assert(d.spec_child_prefix_bytes(id)[a] == sum_bytes(d.nodes@, ids.take(a + 1)));
    assert(d.spec_child_prefix_bytes(id)[b] == sum_bytes(d.nodes@, ids.take(b + 1)));
    assert(ids.take(b + 1).take(a + 1) =~= ids.take(a + 1));
    crate::totals::lemma_sum_take_le(d.nodes@, ids.take(b + 1), a + 1);
}

/// Well-formedness depends only on the records, folder metadata, names,
/// child index and running totals.
pub proof fn lemma_wf_same_parts(a: Dataset, b: Dataset)
    requires
        a.wf(),
        a.nodes@ == b.nodes@,
        a.directories@ == b.directories@,
        a.names@ == b.names@,
        a.children@ == b.children@,
        a.prefix_bytes@ == b.prefix_bytes@,
    ensures
        b.wf(),
{
    assert forall|id: Id| #![all_triggers] b.spec_child_ids(id) == a.spec_child_ids(id)
        && b.spec_child_prefix_bytes(id) == a.spec_child_prefix_bytes(id) by {}
    assert(b.shape_ok());
    assert(b.tree_ok());
    assert(b.children_ok());
    assert(b.distinct_ok());
    assert(b.sorted_ok());
    assert(b.sums_ok());
    assert(b.totals_ok());
}


/// In every hierarchy that `Builder::finish` returns, a folder's file count is
/// the total of its children's file counts (a file counts one), and a folder's
/// size is marked unknown exactly when some child's size is.
pub proof fn lemma_finished_counts(s: Seq<Node>, names: Seq<u8>, unknown: u64, d: Dataset, id: Id)
    requires
        records_ok(s),
        names_ok(s, names),
        built(s, names, unknown, d),
        id < d.nodes@.len(),
        d.nodes@[id as int].spec_is_dir(),
    ensures
        d.spec_file_count(id) == sum_by(d.spec_child_ids(id), |c: Id| d.spec_file_count(c) as int),
        d.nodes@[id as int].spec_size_unknown() <==> exists|t: int|
            0 <= t < d.spec_child_ids(id).len() && (#[trigger] d.nodes@[d.spec_child_ids(id)[t] as int]).spec_size_unknown(),
{
    broadcast use vstd::seq_lib::group_to_multiset_ensures;

    let n = s.len() as int;
    let j = id as int;
    assert(d.nodes@[j] == with_totals(s, j));
    lemma_finished_folder(s, names, unknown, d, j);
    lemma_folder_ranges(s, names, unknown, d, j);
    let ids = d.spec_child_ids(id);
    let ks = kids(s, j, 1, n);
    assert(range_done(s, d.nodes@, d.children@, d.prefix_bytes@, j));
    assert(ids.to_multiset() == ks.to_multiset());
    assert forall|c: int| 0 <= c < n implies #[trigger] d.nodes@[c] == with_totals(s, c) by {}
    assert forall|c: int| 0 <= c < n implies (#[trigger] d.nodes@[c]).spec_size_unknown() == subtree_unknown(s, c) by {
        let f = d.nodes@[c].flags;
        assert(f == 0 || f == 1);
        assert(1u8 & 1u8 != 0u8) by (bit_vector);
        assert(0u8 & 1u8 == 0u8) by (bit_vector);
    }
    let fd = |c: Id| d.spec_file_count(c) as int;
    let fs = |c: Id| subtree_files(s, c as int);
    assert forall|t: int| 0 <= t < ids.len() implies fd(#[trigger] ids[t]) == fs(ids[t]) by {
        let c = ids[t] as int;
        assert(0 < c < n);
        assert(record_ok(s, c));
        crate::totals::lemma_subtree_nonneg(s, c);
    }
    crate::totals::lemma_sum_by_agree(ids, fd, fs);
    crate::totals::lemma_sum_by_perm(ids, ks, fs);
    crate::totals::lemma_files_kids(s, j, n);
    assert(record_ok(s, j));
    crate::totals::lemma_subtree_nonneg(s, j);
    crate::totals::lemma_unknown_kids(s, j, n);
    if d.nodes@[j].spec_size_unknown() {
        let t = choose|t: int| 0 <= t < ks.len() && subtree_unknown(s, #[trigger] ks[t] as int);
        assert(ks.contains(ks[t]));
        assert(ids.to_multiset().count(ks[t]) > 0);
        assert(ids.contains(ks[t]));
        let u = ids.index_of(ks[t]);
        assert(ids[u] == ks[t]);
        assert(0 < ids[u] < n);
        assert(d.nodes@[ids[u] as int].spec_size_unknown());
    }
    if exists|t: int| 0 <= t < ids.len() && (#[trigger] d.nodes@[ids[t] as int]).spec_size_unknown() {
        let t = choose|t: int| 0 <= t < ids.len() && (#[trigger] d.nodes@[ids[t] as int]).spec_size_unknown();
        assert(0 < ids[t] < n);
        assert(ids.contains(ids[t]));
        assert(ks.to_multiset().count(ids[t]) > 0);
        assert(ks.contains(ids[t]));
        let u = ks.index_of(ids[t]);
        assert(subtree_unknown(s, ks[u] as int));
    }
}


/// Every hierarchy that `Builder::finish` returns counts at its root every
/// file record it was built from, each once, and gives the root the sum of
/// all their sizes.
pub proof fn lemma_finished_files(s: Seq<Node>, names: Seq<u8>, unknown: u64, d: Dataset)
    requires
        records_ok(s),
        built(s, names, unknown, d),
    ensures
        d.spec_file_count(ROOT) == file_records(s),
        d.nodes@[ROOT as int].bytes == total_bytes(s),
{
    assert(d.nodes@[0] == with_totals(s, 0));
    assert(record_ok(s, 0));
    crate::totals::lemma_root_counts_files(s);
    crate::totals::lemma_root_sums_bytes(s);
    crate::totals::lemma_subtree_nonneg(s, 0);
}

} // verus!
