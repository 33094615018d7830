//! The integer decisions of the weighted binary treemap: which range of a
//! folder's children a tile stands for and where a range is cut in two.
//! Prefix sums allow bounded traversal even when a single folder has
//! millions of children.
use crate::model::{Dataset, Id};
use crate::totals::sum_bytes;
use vstd::prelude::*;
use vstd::view::View as _;

verus! {

/// The children `start..end` of folder `parent`, in display order.
#[derive(Clone, Copy, Debug, PartialEq, Eq, Structural)]
pub struct View {
    pub parent: Id,
    pub start: usize,
    pub end: usize,
}

impl View {
    /// The children of `view` as ids.
    pub open spec fn spec_ids(&self, data: &Dataset) -> Seq<Id> {
        data.spec_child_ids(self.parent).subrange(self.start as int, self.end as int)
    }

    /// The view fits the folder it names.
    pub open spec fn fits(&self, data: &Dataset) -> bool {
        &&& self.parent < data.nodes@.len()
        &&& self.start <= self.end <= data.spec_child_ids(self.parent).len()
    }

    /// Every child of `parent`.
    pub fn folder(data: &Dataset, parent: Id) -> (r: Self)
        requires
            data.shape_ok(),
            parent < data.nodes@.len(),
        ensures
            r == (View { parent, start: 0, end: data.spec_child_ids(parent).len() as usize }),
    {
        View { parent, start: 0, end: data.child_ids(parent).len() }
    }

    /// Total size of the children in the view.
    pub fn bytes(&self, data: &Dataset) -> (r: u64)
        requires
            data.wf(),
            self.fits(data),
        ensures
            r == sum_bytes(data.nodes@, self.spec_ids(data)),
    {
        proof {
            if 0 < self.start < self.end {
                crate::finished::lemma_prefix_monotone(
                    *data,
                    self.parent,
                    self.start - 1,
                    self.end - 1,
                );
            }
        }
        data.range_bytes(self.parent, self.start, self.end)
    }

    /// The view shows only part of its folder.
    pub fn is_group(&self, data: &Dataset) -> (r: bool)
        requires
            data.shape_ok(),
            self.parent < data.nodes@.len(),
        ensures
            r == (self.start != 0 || self.end != data.spec_child_ids(self.parent).len()),
    {
        self.start != 0 || self.end != data.child_ids(self.parent).len()
    }
}

/// What a treemap tile stands for: one entry, or a range of children drawn as one.
#[derive(Clone, Copy, Debug)]
pub enum TileKind {
    Entry(Id),
    Group(View),
}

/// How finely the treemap divides the space.
#[derive(Clone, Copy, Debug, Default, PartialEq, Eq, Structural)]
pub enum Detail {
    Balanced,
    #[default]
    Fine,
    Pixel,
}

impl Detail {
    pub fn label(self) -> (r: &'static str)
        ensures
            r@ == (match self {
                Detail::Balanced => "Balanced"@,
                Detail::Fine => "Fine"@,
                Detail::Pixel => "Pixel"@,
            }),
    {
        match self {
            Detail::Balanced => "Balanced",
            Detail::Fine => "Fine",
            Detail::Pixel => "Pixel",
        }
    }
}

/// Size of the first `m - start` children of `view`, as the running totals give it.
pub open spec fn size_to(data: &Dataset, view: View, m: int) -> int {
    sum_bytes(data.nodes@, data.spec_child_ids(view.parent).subrange(view.start as int, m))
}

/// The first cut `m` in `from..=view.end` whose left part holds at least
/// `half`, or `view.end + 1` when there is none.
pub open spec fn first_reaching(data: &Dataset, view: View, half: int, from: int) -> int
    decreases view.end + 1 - from,
{
    if from > view.end {
        view.end + 1
    } else if size_to(data, view, from) >= half {
        from
    } else {
        first_reaching(data, view, half, from + 1)
    }
}

/// Where `split_point` cuts a view: the first cut whose left part holds half
/// the bytes, kept inside the view, moved one child left when that lands
/// nearer to half.
pub open spec fn spec_split_point(data: &Dataset, view: View) -> int {
    let half = size_to(data, view, view.end as int) / 2;
    let raw = first_reaching(data, view, half, view.start + 1);
    let m = if raw < view.start + 1 {
        view.start + 1
    } else if raw > view.end - 1 {
        view.end - 1
    } else {
        raw
    };
    let dist = |x: int| if x >= half { x - half } else { half - x };
    if m > view.start + 1 && dist(size_to(data, view, m - 1)) < dist(size_to(data, view, m)) {
        m - 1
    } else {
        m
    }
}

/// The characterization of `first_reaching` by its two sides.
proof fn lemma_first_reaching(data: &Dataset, view: View, half: int, from: int, m: int)
    requires
        from <= m <= view.end + 1,
        forall|k: int| from <= k < m ==> size_to(data, view, k) < half,
        m <= view.end ==> size_to(data, view, m) >= half,
    ensures
        first_reaching(data, view, half, from) == m,
    decreases m - from,
{
    if from < m {
        lemma_first_reaching(data, view, half, from + 1, m);
    }
}

/// How far `x` lies from `h`.
pub open spec fn gap(x: int, h: int) -> int {
    if x >= h {
        x - h
    } else {
        h - x
    }
}

/// A longer left part holds at least as many bytes.
pub proof fn lemma_size_to_mono(data: &Dataset, view: View, a: int, b: int)
    requires
        view.fits(data),
        view.start <= a <= b <= view.end,
    ensures
        size_to(data, view, a) <= size_to(data, view, b),
{
    let ids = data.spec_child_ids(view.parent);
    let x = ids.subrange(view.start as int, a);
    let y = ids.subrange(a, b);
    assert(x + y =~= ids.subrange(view.start as int, b));
    crate::totals::lemma_sum_concat(data.nodes@, x, y);
    crate::totals::lemma_sum_nonneg(data.nodes@, y);
}

/// What `first_reaching` finds: every cut before it falls short of `half`,
/// and it reaches `half` when it lies inside the view.
proof fn lemma_first_reaching_sides(data: &Dataset, view: View, half: int, from: int)
    requires
        from <= view.end + 1,
    ensures
        from <= first_reaching(data, view, half, from) <= view.end + 1,
        forall|k: int| from <= k < first_reaching(data, view, half, from) ==> size_to(data, view, k) < half,
        first_reaching(data, view, half, from) <= view.end ==> size_to(
            data,
            view,
            first_reaching(data, view, half, from),
        ) >= half,
    decreases view.end + 1 - from,
{
    if from <= view.end && size_to(data, view, from) < half {
        lemma_first_reaching_sides(data, view, half, from + 1);
    }
}

/// Law: of all the cuts that leave a child on each side, the cut that
/// `split_point` makes puts on its left the part nearest to half of the
/// view's bytes.
pub proof fn lemma_split_nearest_half(data: &Dataset, view: View, m: int)
    requires
        view.fits(data),
        view.end - view.start >= 2,
        view.start + 1 <= m <= view.end - 1,
    ensures
        gap(size_to(data, view, spec_split_point(data, view)), size_to(data, view, view.end as int) / 2)
            <= gap(size_to(data, view, m), size_to(data, view, view.end as int) / 2),
{
    let middle_bytes = size_to(data, view, view.end as int) / 2;
    let lo = view.start + 1;
    let hi = view.end - 1;
    let raw = first_reaching(data, view, middle_bytes, lo);
    lemma_first_reaching_sides(data, view, middle_bytes, lo);
    let c = if raw > hi {
        hi
    } else {
        raw
    };
    let r = spec_split_point(data, view);
    assert(r == c || (r == c - 1 && c > lo && gap(size_to(data, view, c - 1), middle_bytes) < gap(
        size_to(data, view, c),
        middle_bytes,
    )));
    if raw > hi {
        // No allowed cut reaches half: the last one is nearest.
        assert(size_to(data, view, hi) < middle_bytes);
        lemma_size_to_mono(data, view, m, hi);
        if r == c - 1 {
            lemma_size_to_mono(data, view, c - 1, c);
        }
    } else {
        // `raw` is the first cut reaching half, `raw - 1` the last short of it.
        if m >= raw {
            lemma_size_to_mono(data, view, raw, m);
        } else {
            assert(size_to(data, view, m) < middle_bytes);
            lemma_size_to_mono(data, view, m, raw - 1);
            assert(size_to(data, view, raw - 1) < middle_bytes);
        }
    }
}

/// A longer left part of children that all have a size holds more bytes.
proof fn lemma_size_to_strict(data: &Dataset, view: View, a: int, b: int)
    requires
        view.fits(data),
        view.start <= a < b <= view.end,
        forall|k: int|
            view.start <= k < view.end ==> data.nodes@[#[trigger] data.spec_child_ids(view.parent)[k] as int].bytes
                > 0,
    ensures
        size_to(data, view, a) < size_to(data, view, b),
{
    let ids = data.spec_child_ids(view.parent);
    lemma_size_to_mono(data, view, a, b - 1);
    assert(ids.subrange(view.start as int, b).drop_last() =~= ids.subrange(view.start as int, b - 1));
    assert(ids.subrange(view.start as int, b).last() == ids[b - 1]);
}

/// Law: when every child of the view has a size, a cut as near to half as
/// the one `split_point` makes is that cut, or falls short of half: a tie is
/// settled towards the cut whose left part reaches half.
pub proof fn lemma_split_ties(data: &Dataset, view: View, m: int)
    requires
        view.fits(data),
        view.end - view.start >= 2,
        view.start + 1 <= m <= view.end - 1,
        forall|k: int|
            view.start <= k < view.end ==> data.nodes@[#[trigger] data.spec_child_ids(view.parent)[k] as int].bytes
                > 0,
        m != spec_split_point(data, view),
        gap(size_to(data, view, m), size_to(data, view, view.end as int) / 2) == gap(
            size_to(data, view, spec_split_point(data, view)),
            size_to(data, view, view.end as int) / 2,
        ),
    ensures
        size_to(data, view, m) < size_to(data, view, view.end as int) / 2,
{
    let middle_bytes = size_to(data, view, view.end as int) / 2;
    let lo = view.start + 1;
    let hi = view.end - 1;
    let raw = first_reaching(data, view, middle_bytes, lo);
    lemma_first_reaching_sides(data, view, middle_bytes, lo);
    let r = spec_split_point(data, view);
    if raw <= hi && m >= raw {
        if m > raw {
            lemma_size_to_strict(data, view, raw, m);
        }
        if r < raw {
            assert(r == raw - 1);
        }
        if r == raw - 1 {
            lemma_size_to_mono(data, view, raw, m);
        }
    }
}

/// Children of `view` that have a size come first; this is where they end.
pub fn positive_end(data: &Dataset, view: View) -> (r: usize)
    requires
        data.wf(),
        view.fits(data),
    ensures
        view.start <= r <= view.end,
        forall|k: int|
            view.start <= k < r ==> data.nodes@[#[trigger] data.spec_child_ids(view.parent)[k] as int].bytes
                > 0,
        forall|k: int|
            r <= k < view.end ==> data.nodes@[#[trigger] data.spec_child_ids(view.parent)[k] as int].bytes
                == 0,
{
    let children = data.child_ids(view.parent);
    let ghost ids = data.spec_child_ids(view.parent);
    proof {
        assert(crate::order::sorted_by_size(data.nodes@, ids));
    }
    let mut lo = view.start;
    let mut hi = view.end;
    while lo < hi
        invariant
            data.wf(),
            view.fits(data),
            children@ == ids,
            ids == data.spec_child_ids(view.parent),
            view.start <= lo <= hi <= view.end,
            crate::order::sorted_by_size(data.nodes@, ids),
            forall|k: int| view.start <= k < lo ==> data.nodes@[#[trigger] ids[k] as int].bytes > 0,
            forall|k: int| hi <= k < view.end ==> data.nodes@[#[trigger] ids[k] as int].bytes == 0,
        decreases hi - lo,
    {
        let mid = lo + (hi - lo) / 2;
        let id = children[mid];
        proof {
            assert(0 < id < data.nodes@.len()) by {
                assert(ids[mid as int] == id);
            }
        }
        if data.node(id).bytes > 0 {
            proof {
                assert forall|k: int| view.start <= k < mid + 1 implies data.nodes@[#[trigger] ids[k] as int].bytes
                    > 0 by {
                    if k < mid {
                        assert(!crate::order::comes_before(data.nodes@, ids[mid as int], ids[k]));
                    }
                }
            }
            lo = mid + 1;
        } else {
            proof {
                assert forall|k: int| mid <= k < view.end implies data.nodes@[#[trigger] ids[k] as int].bytes
                    == 0 by {
                    if k > mid {
                        assert(!crate::order::comes_before(data.nodes@, ids[k], ids[mid as int]));
                    }
                }
            }
            hi = mid;
        }
    }
    lo
}

/// The running totals of a view, taken relative to the total before it.
proof fn lemma_relative_totals(data: &Dataset, view: View, before: int)
    requires
        data.wf(),
        view.fits(data),
        before == (if view.start == 0 {
            0
        } else {
            data.spec_child_prefix_bytes(view.parent)[view.start - 1] as int
        }),
    ensures
        forall|k: int|
            view.start <= k < view.end ==> #[trigger] data.spec_child_prefix_bytes(view.parent)[k]
                == before + size_to(data, view, k + 1),
        before >= 0,
{
    let ids = data.spec_child_ids(view.parent);
    let prefix = data.spec_child_prefix_bytes(view.parent);
    let a = view.start as int;
    assert forall|k: int| view.start <= k < view.end implies #[trigger] prefix[k] == before + size_to(
        data,
        view,
        k + 1,
    ) by {
        assert(prefix[k] == sum_bytes(data.nodes@, ids.take(k + 1)));
        assert(ids.take(a) + ids.subrange(a, k + 1) =~= ids.take(k + 1));
        crate::totals::lemma_sum_concat(data.nodes@, ids.take(a), ids.subrange(a, k + 1));
        if a == 0 {
            assert(ids.take(0) =~= Seq::<Id>::empty());
        } else {
            assert(prefix[a - 1] == sum_bytes(data.nodes@, ids.take(a)));
        }
    }
}

/// The first position of the view whose running total reaches `target`, or
/// the view's end when none does.
fn first_at_least(data: &Dataset, view: View, prefix: &[u64], target: u64) -> (r: usize)
    requires
        data.wf(),
        view.fits(data),
        prefix@ == data.spec_child_prefix_bytes(view.parent),
    ensures
        view.start <= r <= view.end,
        forall|k: int| view.start <= k < r ==> #[trigger] prefix@[k] < target,
        forall|k: int| r <= k < view.end ==> #[trigger] prefix@[k] >= target,
{
    let mut lo = view.start;
    let mut hi = view.end;
    while lo < hi
        invariant
            data.wf(),
            view.fits(data),
            prefix@ == data.spec_child_prefix_bytes(view.parent),
            view.start <= lo <= hi <= view.end,
            forall|k: int| view.start <= k < lo ==> #[trigger] prefix@[k] < target,
            forall|k: int| hi <= k < view.end ==> #[trigger] prefix@[k] >= target,
        decreases hi - lo,
    {
        let mid = lo + (hi - lo) / 2;
        if prefix[mid] < target {
            proof {
                assert forall|k: int| view.start <= k < mid + 1 implies #[trigger] prefix@[k] < target by {
                    crate::finished::lemma_prefix_monotone(*data, view.parent, k, mid as int);
                }
            }
            lo = mid + 1;
        } else {
            proof {
                assert forall|k: int| mid <= k < view.end implies #[trigger] prefix@[k] >= target by {
                    crate::finished::lemma_prefix_monotone(*data, view.parent, mid as int, k);
                }
            }
            hi = mid;
        }
    }
    lo
}

/// The size of the first `m - start` children of a view, read off the running totals.
fn size_of_part(data: &Dataset, view: View, m: usize) -> (r: u64)
    requires
        data.wf(),
        view.fits(data),
        view.start <= m <= view.end,
    ensures
        r == size_to(data, view, m as int),
{
    let part = View { parent: view.parent, start: view.start, end: m };
    part.bytes(data)
}

/// Where to cut a view of at least two children, all with a size, into two
/// parts of as nearly equal size as the running totals allow.
pub fn split_point(data: &Dataset, view: View) -> (r: usize)
    requires
        data.wf(),
        view.fits(data),
        view.end - view.start >= 2,
    ensures
        view.start + 1 <= r <= view.end - 1,
        r == spec_split_point(data, view),
        forall|m: int|
            view.start + 1 <= m <= view.end - 1 ==> gap(size_to(data, view, r as int), size_to(data, view, view.end as int) / 2)
                <= gap(#[trigger] size_to(data, view, m), size_to(data, view, view.end as int) / 2),
{
    let prefix = data.child_prefix_bytes(view.parent);
    let bytes = size_of_part(data, view, view.end);
    let ghost half = bytes as int / 2;
    let before: u64 = if view.start == 0 {
        0
    } else {
        prefix[view.start - 1]
    };
    proof {
        lemma_relative_totals(data, view, before as int);
        assert(prefix@[view.end - 1] == before + size_to(data, view, view.end as int));
    }
    let target = before + bytes / 2;
    let lo = first_at_least(data, view, prefix, target);
    proof {
        let raw = lo + 1;
        assert forall|k: int| view.start + 1 <= k < raw implies size_to(data, view, k) < half by {
            assert(prefix@[k - 1] < target);
        }
        if raw <= view.end {
            assert(prefix@[raw - 1] >= target);
        }
        lemma_first_reaching(data, view, half, view.start + 1, raw as int);
    }
    let mut middle = lo + 1;
    if middle > view.end - 1 {
        middle = view.end - 1;
    }
    if middle > view.start + 1 {
        let current = size_of_part(data, view, middle);
        let previous = size_of_part(data, view, middle - 1);
        let h = bytes / 2;
        let current_gap = if current >= h {
            current - h
        } else {
            h - current
        };
        let previous_gap = if previous >= h {
            previous - h
        } else {
            h - previous
        };
        if previous_gap < current_gap {
            middle = middle - 1;
        }
    }
    proof {
        assert forall|m: int| view.start + 1 <= m <= view.end - 1 implies gap(
            size_to(data, view, middle as int),
            size_to(data, view, view.end as int) / 2,
        ) <= gap(#[trigger] size_to(data, view, m), size_to(data, view, view.end as int) / 2) by {
            lemma_split_nearest_half(data, view, m);
        }
    }
    middle
}

/// Cutting a view anywhere splits its bytes between the two parts without
/// losing or adding any.
pub proof fn lemma_split_conserves(data: &Dataset, view: View, m: int)
    requires
        view.fits(data),
        view.start <= m <= view.end,
    ensures
        size_to(data, view, m) + sum_bytes(
            data.nodes@,
            data.spec_child_ids(view.parent).subrange(m, view.end as int),
        ) == sum_bytes(data.nodes@, view.spec_ids(data)),
{
    let ids = data.spec_child_ids(view.parent);
    let a = ids.subrange(view.start as int, m);
    let b = ids.subrange(m, view.end as int);
    assert(a + b =~= view.spec_ids(data));
    crate::totals::lemma_sum_concat(data.nodes@, a, b);
}


/// Leaving out the children of no size, as `positive_end` does, keeps all of
/// a view's bytes.
pub proof fn lemma_positive_part_conserves(data: &Dataset, view: View, m: int)
    requires
        view.fits(data),
        view.start <= m <= view.end,
        forall|k: int|
            m <= k < view.end ==> data.nodes@[#[trigger] data.spec_child_ids(view.parent)[k] as int].bytes
                == 0,
    ensures
        size_to(data, view, m) == sum_bytes(data.nodes@, view.spec_ids(data)),
{
    let ids = data.spec_child_ids(view.parent);
    let tail = ids.subrange(m, view.end as int);
    assert forall|k: int| 0 <= k < tail.len() implies data.nodes@[#[trigger] tail[k] as int].bytes == 0 by {
        assert(tail[k] == ids[m + k]);
    }
    crate::totals::lemma_sum_zero(data.nodes@, tail);
    lemma_split_conserves(data, view, m);
}


/// The view holds exactly one child, and that child is a file.
pub fn lone_file(data: &Dataset, view: View) -> (r: bool)
    requires
        data.wf(),
        view.fits(data),
    ensures
        r == (view.end - view.start == 1 && !data.nodes@[data.spec_child_ids(
            view.parent,
        )[view.start as int] as int].spec_is_dir()),
{
    if view.end - view.start != 1 {
        return false;
    }
    let children = data.child_ids(view.parent);
    let id = children[view.start];
    proof {
        assert(data.spec_child_ids(view.parent)[view.start as int] == id);
        assert(id < data.nodes@.len());
    }
    !data.node(id).is_dir()
}

/// How many of `budget` tiles the left part of a cut gets: its proportional
/// share `scaled`, kept between one and all but one; a lone file on the left
/// gets one tile, and a lone file on the right leaves all but one to the left.
pub fn left_budget(budget: usize, scaled: usize, left_file: bool, right_file: bool) -> (r: usize)
    requires
        budget >= 2,
    ensures
        r == (if left_file {
            1
        } else if right_file {
            budget - 1
        } else if scaled < 1 {
            1
        } else if scaled > budget - 1 {
            budget - 1
        } else {
            scaled as int
        }),
        1 <= r <= budget - 1,
{
    if left_file {
        1
    } else if right_file {
        budget - 1
    } else if scaled < 1 {
        1
    } else if scaled > budget - 1 {
        budget - 1
    } else {
        scaled
    }
}

} // verus!
