//! Deciding whether a hierarchy that came from elsewhere keeps everything a
//! finished one keeps, so that it can be browsed and laid out.
use crate::model::{Dataset, Id, DIRECTORY, ROOT};
use crate::order::{comes_before, sorted_by_size};
use crate::totals::sum_bytes;
use crate::utf8_text::utf8_str;
use vstd::prelude::*;

verus! {

impl Dataset {
    /// The records, folder metadata and child ranges fit together.
    fn shape_is_ok(&self) -> (r: bool)
        ensures
            r == self.shape_ok(),
    {
        let n = self.nodes.len();
        if n < 1 || self.children.len() != n - 1 || self.prefix_bytes.len() != self.children.len()
            || self.directories.len() < 1 {
            return false;
        }
        if self.nodes[0].kind != DIRECTORY {
            return false;
        }
        let mut i: usize = 0;
        while i < n
            invariant
                n == self.nodes@.len(),
                i <= n,
                forall|j: int|
                    0 <= j < i && (#[trigger] self.nodes@[j]).spec_is_dir() ==> self.nodes@[j].directory
                        < self.directories@.len(),
            decreases n - i,
        {
            if self.nodes[i].kind == DIRECTORY && self.nodes[i].directory as usize >= self.directories.len() {
                assert(self.nodes@[i as int].spec_is_dir());
                return false;
            }
            i = i + 1;
        }
        let mut d: usize = 0;
        while d < self.directories.len()
            invariant
                d <= self.directories@.len(),
                forall|e: int|
                    0 <= e < d ==> (#[trigger] self.directories@[e]).child_start
                        + self.directories@[e].child_count <= self.children@.len(),
            decreases self.directories@.len() - d,
        {
            let x = self.directories[d];
            if x.child_start as u64 + x.child_count as u64 > self.children.len() as u64 {
                assert(self.directories@[d as int] == x);
                return false;
            }
            d = d + 1;
        }
        true
    }

    /// Parents come before their children and every name is UTF-8 inside the pool.
    fn tree_is_ok(&self) -> (r: bool)
        ensures
            r == self.tree_ok(),
    {
        let n = self.nodes.len();
        if n < 1 || n as u64 > 0x1_0000_0000u64 {
            return false;
        }
        if self.nodes[0].parent != ROOT {
            return false;
        }
        let mut i: usize = 0;
        while i < n
            invariant
                n == self.nodes@.len(),
                1 <= n <= u32::MAX + 1,
                i <= n,
                forall|j: int| 0 < j < i ==> (#[trigger] self.nodes@[j]).parent < j,
                forall|j: int|
                    0 <= j < i ==> crate::model::name_ok(self.names@, #[trigger] self.nodes@[j]),
            decreases n - i,
        {
            let x = self.nodes[i];
            if i > 0 && x.parent as usize >= i {
                return false;
            }
            let start = x.name_offset as usize;
            if x.name_offset as u64 + x.name_len as u64 > self.names.len() as u64 {
                return false;
            }
            let end = start + x.name_len as usize;
            if utf8_str(&self.names[start..end]).is_none() {
                assert(self.names@.subrange(start as int, end as int) == crate::model::name_bytes(
                    self.names@,
                    x,
                ));
                return false;
            }
            assert(self.names@.subrange(start as int, end as int) == crate::model::name_bytes(
                self.names@,
                x,
            ));
            i = i + 1;
        }
        true
    }

    /// Every folder lists only its own children, each once, and every record
    /// but the root is listed by its parent.
    fn children_are_ok(&self) -> (r: bool)
        requires
            self.shape_ok(),
            self.tree_ok(),
        ensures
            r == (self.children_ok() && self.distinct_ok()),
    {
        let n = self.nodes.len();
        let mut seen: Vec<bool> = Vec::new();
        let mut k: usize = 0;
        while k < n
            invariant
                seen@.len() == k,
                k <= n,
                forall|j: int| 0 <= j < k ==> !(#[trigger] seen@[j]),
            decreases n - k,
        {
            seen.push(false);
            k = k + 1;
        }
        let ghost mut from: Seq<(Id, int)> = Seq::new(n as nat, |c: int| (0u32, 0int));
        let mut id: usize = 0;
        while id < n
            invariant
                n == self.nodes@.len(),
                self.shape_ok(),
                self.tree_ok(),
                id <= n,
                seen@.len() == n,
                from.len() == n,
                forall|i: Id, t: int|
                    i < id && 0 <= t < self.spec_child_ids(i).len() ==> {
                        let c = #[trigger] self.spec_child_ids(i)[t];
                        &&& 0 < c < n
                        &&& self.nodes@[c as int].parent == i
                        &&& seen@[c as int]
                    },
                forall|i: Id| i < id ==> (#[trigger] self.spec_child_ids(i)).no_duplicates(),
                forall|c: int|
                    0 <= c < n && #[trigger] seen@[c] ==> {
                        &&& from[c].0 < id
                        &&& 0 <= from[c].1 < self.spec_child_ids(from[c].0).len()
                        &&& self.spec_child_ids(from[c].0)[from[c].1] == c
                    },
            decreases n - id,
        {
            if self.nodes[id].kind == DIRECTORY {
                assert(self.nodes@[id as int].spec_is_dir());
                let x = self.directories[self.nodes[id].directory as usize];
                let start = x.child_start as usize;
                let count = x.child_count as usize;
                let ghost ids = self.spec_child_ids(id as Id);
                assert(ids =~= self.children@.subrange(start as int, start + count));
                let mut t: usize = 0;
                while t < count
                    invariant
                        n == self.nodes@.len(),
                        self.shape_ok(),
                        self.tree_ok(),
                        id < n,
                        ids == self.spec_child_ids(id as Id),
                        ids =~= self.children@.subrange(start as int, start + count),
                        start + count <= self.children@.len(),
                        t <= count,
                        seen@.len() == n,
                        from.len() == n,
                        forall|i: Id, u: int|
                            i < id && 0 <= u < self.spec_child_ids(i).len() ==> {
                                let c = #[trigger] self.spec_child_ids(i)[u];
                                &&& 0 < c < n
                                &&& self.nodes@[c as int].parent == i
                                &&& seen@[c as int]
                            },
                        forall|i: Id| i < id ==> (#[trigger] self.spec_child_ids(i)).no_duplicates(),
                        forall|u: int|
                            0 <= u < t ==> {
                                let c = #[trigger] ids[u];
                                &&& 0 < c < n
                                &&& self.nodes@[c as int].parent == id
                                &&& seen@[c as int]
                            },
                        forall|u: int, v: int| 0 <= u < v < t ==> #[trigger] ids[u] != #[trigger] ids[v],
                        forall|c: int|
                            0 <= c < n && #[trigger] seen@[c] ==> {
                                &&& from[c].0 < id || (from[c].0 == id && from[c].1 < t)
                                &&& 0 <= from[c].1 < self.spec_child_ids(from[c].0).len()
                                &&& self.spec_child_ids(from[c].0)[from[c].1] == c
                            },
                    decreases count - t,
                {
                    let c = self.children[start + t];
                    assert(ids[t as int] == c);
                    if c == 0 || c as usize >= n || self.nodes[c as usize].parent != id as u32 {
                        assert(!self.children_ok()) by {
                            assert(self.spec_child_ids(id as Id)[t as int] == c);
                        }
                        return false;
                    }
                    if seen[c as usize] {
                        assert(!self.distinct_ok()) by {
                            let w = from[c as int];
                            assert(self.spec_child_ids(w.0)[w.1] == c);
                            assert(w.0 == id);
                            assert(ids[w.1] == ids[t as int]);
                            assert(!self.spec_child_ids(id as Id).no_duplicates());
                        }
                        return false;
                    }
                    seen.set(c as usize, true);
                    proof {
                        from = from.update(c as int, (id as Id, t as int));
                    }
                    t = t + 1;
                }
                assert(forall|u: int, v: int|
                    0 <= u < v < ids.len() ==> #[trigger] ids[u] != #[trigger] ids[v]);
                assert(ids.no_duplicates());
            } else {
                assert(self.spec_child_ids(id as Id) =~= Seq::<Id>::empty());
            }
            id = id + 1;
        }
        let mut c: usize = 1;
        while c < n
            invariant
                n == self.nodes@.len(),
                1 <= c <= n,
                seen@.len() == n,
                self.tree_ok(),
                forall|i: Id, t: int|
                    i < n && 0 <= t < self.spec_child_ids(i).len() ==> {
                        let x = #[trigger] self.spec_child_ids(i)[t];
                        &&& 0 < x < n
                        &&& seen@[x as int]
                    },
                forall|j: int| 1 <= j < c ==> #[trigger] seen@[j],
            decreases n - c,
        {
            if !seen[c] {
                assert(!self.children_ok()) by {
                    if self.children_ok() {
                        let p = self.nodes@[c as int].parent;
                        assert(self.spec_child_ids(p).contains(c as Id));
                        let u = choose|u: int|
                            0 <= u < self.spec_child_ids(p).len() && self.spec_child_ids(p)[u] == c as Id;
                        assert(self.spec_child_ids(p)[u] == c as Id);
                    }
                }
                return false;
            }
            c = c + 1;
        }
        assert(self.children_ok()) by {
            assert forall|j: int| 0 < j < n implies self.spec_child_ids(
                #[trigger] self.nodes@[j].parent,
            ).contains(j as Id) by {
                assert(seen@[j]);
                let w = from[j];
                assert(self.spec_child_ids(w.0)[w.1] == j as Id);
            }
        }
        true
    }

    /// Every folder lists its children largest first, its prefix entries are
    /// the running totals of their sizes, and its own size is their total.
    fn lists_are_ordered(&self) -> (r: bool)
        requires
            self.shape_ok(),
            self.tree_ok(),
            self.children_ok(),
        ensures
            r == (self.sorted_ok() && self.sums_ok() && self.totals_ok()),
    {
        let n = self.nodes.len();
        let mut id: usize = 0;
        while id < n
            invariant
                n == self.nodes@.len(),
                self.shape_ok(),
                self.tree_ok(),
                self.children_ok(),
                id <= n,
                forall|i: Id| i < id ==> sorted_by_size(self.nodes@, #[trigger] self.spec_child_ids(i)),
                forall|i: Id, t: int|
                    i < id && 0 <= t < self.spec_child_prefix_bytes(i).len() ==> #[trigger] self.spec_child_prefix_bytes(
                        i,
                    )[t] == sum_bytes(self.nodes@, self.spec_child_ids(i).take(t + 1)),
                forall|i: Id|
                    i < id && (#[trigger] self.nodes@[i as int]).spec_is_dir() ==> self.nodes@[i as int].bytes
                        == sum_bytes(self.nodes@, self.spec_child_ids(i)),
            decreases n - id,
        {
            if self.nodes[id].kind == DIRECTORY {
                assert(self.nodes@[id as int].spec_is_dir());
                let x = self.directories[self.nodes[id].directory as usize];
                let start = x.child_start as usize;
                let count = x.child_count as usize;
                let ghost ids = self.spec_child_ids(id as Id);
                let ghost pre = self.spec_child_prefix_bytes(id as Id);
                assert(ids =~= self.children@.subrange(start as int, start + count));
                assert(pre =~= self.prefix_bytes@.subrange(start as int, start + count));
                let mut sum: u64 = 0;
                let mut t: usize = 0;
                proof {
                    assert(ids.take(0) =~= Seq::<Id>::empty());
                }
                while t < count
                    invariant
                        n == self.nodes@.len(),
                        self.shape_ok(),
                        self.tree_ok(),
                        self.children_ok(),
                        id < n,
                        ids == self.spec_child_ids(id as Id),
                        pre == self.spec_child_prefix_bytes(id as Id),
                        ids =~= self.children@.subrange(start as int, start + count),
                        pre =~= self.prefix_bytes@.subrange(start as int, start + count),
                        start + count <= self.children@.len(),
                        self.prefix_bytes@.len() == self.children@.len(),
                        t <= count,
                        sum == sum_bytes(self.nodes@, ids.take(t as int)),
                        forall|u: int, v: int|
                            0 <= u < v < t ==> !comes_before(self.nodes@, #[trigger] ids[v], #[trigger] ids[u]),
                        forall|u: int|
                            0 <= u < t ==> #[trigger] pre[u] == sum_bytes(self.nodes@, ids.take(u + 1)),
                    decreases count - t,
                {
                    let c = self.children[start + t];
                    assert(self.spec_child_ids(id as Id)[t as int] == c);
                    let b = self.nodes[c as usize].bytes;
                    if t > 0 {
                        let p = self.children[start + t - 1];
                        assert(self.spec_child_ids(id as Id)[t - 1] == p);
                        if b > self.nodes[p as usize].bytes || (b == self.nodes[p as usize].bytes && c < p) {
                            assert(!self.sorted_ok()) by {
                                assert(ids[t as int] == c && ids[t - 1] == p);
                                assert(!sorted_by_size(self.nodes@, self.spec_child_ids(id as Id)));
                            }
                            return false;
                        }
                    }
                    proof {
                        assert(ids.take(t + 1).drop_last() =~= ids.take(t as int));
                        assert(ids.take(t + 1).last() == c);
                    }
                    let next = match sum.checked_add(b) {
                        Some(v) => v,
                        None => {
                            assert(!self.sums_ok()) by {
                                assert(self.spec_child_prefix_bytes(id as Id)[t as int] == pre[t as int]);
                            }
                            return false;
                        },
                    };
                    if self.prefix_bytes[start + t] != next {
                        assert(!self.sums_ok()) by {
                            assert(self.spec_child_prefix_bytes(id as Id)[t as int] == pre[t as int]);
                        }
                        return false;
                    }
                    sum = next;
                    t = t + 1;
                }
                assert(ids.take(count as int) =~= ids);
                if self.nodes[id].bytes != sum {
                    assert(!self.totals_ok()) by {
                        assert(self.nodes@[id as int].spec_is_dir());
                    }
                    return false;
                }
            } else {
                assert(self.spec_child_ids(id as Id) =~= Seq::<Id>::empty());
                assert(self.spec_child_prefix_bytes(id as Id) =~= Seq::<u64>::empty());
            }
            id = id + 1;
        }
        true
    }

    /// Whether this hierarchy keeps everything that a finished one keeps.
    pub fn well_formed(&self) -> (r: bool)
        ensures
            r == self.wf(),
    {
        self.shape_is_ok() && self.tree_is_ok() && self.children_are_ok() && self.lists_are_ordered()
    }
}

} // verus!
