//! The file hierarchy: compact node records, folder-only metadata, name pool,
//! and the per-folder child index sorted by size with prefix sums.
use crate::utf8_text::{text_of, utf8_str, BACKSLASH};
use crate::finish::{add_totals, built, finish_refusal, index_children, sort_and_sum};
use crate::totals::{bytes_overflow, files_overflow, with_totals};
use crate::folder_index::{absent, indexed, key_of, lemma_file_added, lemma_folder_added, names_inside, paths_unique};
use std::collections::HashMap;
use std::sync::atomic::AtomicBool;
use std::time::Duration;

pub use crate::numbers::format_count;
pub use crate::synthetic::synthetic;
use vstd::prelude::*;
use vstd::string::StringSliceAdditionalSpecFns;
use vstd::string::StrSliceExecFns;
use vstd::string::StringExecFns;
use vstd::utf8::*;

verus! {

pub type Id = u32;

pub const ROOT: Id = 0;

pub const DIRECTORY: u8 = 1;

pub const UNKNOWN_SIZE: u8 = 1;

/// `Duration::ZERO`; a load starts with no measured time.
#[verifier::external_body]
fn zero_duration() -> Duration {
    Duration::ZERO
}

/// Exactly 24 bytes. Folder-only metadata lives in a separate, compact buffer.
/// Names and children remain contiguous; file records carry no child counters.
#[derive(Clone, Copy, Debug, Default)]
pub struct Node {
    pub bytes: u64,
    pub name_offset: u32,
    pub parent: Id,
    pub directory: u32,
    pub name_len: u16,
    pub kind: u8,
    pub flags: u8,
}

impl Node {
    pub open spec fn spec_is_dir(&self) -> bool {
        self.kind == DIRECTORY
    }

    pub open spec fn spec_size_unknown(&self) -> bool {
        self.flags & UNKNOWN_SIZE != 0
    }

    #[verifier::when_used_as_spec(spec_is_dir)]
    pub fn is_dir(&self) -> (r: bool)
        ensures
            r == self.spec_is_dir(),
    {
        self.kind == DIRECTORY
    }

    #[verifier::when_used_as_spec(spec_size_unknown)]
    pub fn size_unknown(&self) -> (r: bool)
        ensures
            r == self.spec_size_unknown(),
    {
        self.flags & UNKNOWN_SIZE != 0
    }
}

/// Only directories need child ranges and recursive file counts (12 bytes).
#[derive(Clone, Copy, Debug, Default)]
pub struct Directory {
    pub child_start: u32,
    pub child_count: u32,
    pub file_count: u32,
}

#[derive(Default, Clone, Copy, Debug)]
pub struct LoadStats {
    pub query_us: u64,
    pub decode_us: u64,
    pub finalize_us: u64,
    pub queries: u64,
    pub changes: u64,
}

impl LoadStats {
    pub open spec fn spec_zero() -> LoadStats {
        LoadStats { query_us: 0, decode_us: 0, finalize_us: 0, queries: 0, changes: 0 }
    }

    pub fn zero() -> (r: LoadStats)
        ensures
            r == LoadStats::spec_zero(),
    {
        LoadStats { query_us: 0, decode_us: 0, finalize_us: 0, queries: 0, changes: 0 }
    }
}

pub struct Dataset {
    pub nodes: Vec<Node>,
    pub directories: Vec<Directory>,
    pub names: Vec<u8>,
    pub children: Vec<Id>,
    /// Inclusive prefix sums, restarted for each parent's sorted child range.
    pub prefix_bytes: Vec<u64>,
    pub source: String,
    pub query: String,
    pub elapsed: Duration,
    pub unknown_sizes: u64,
    pub synthetic: bool,
    pub import_peak_memory: u64,
    pub load_stats: LoadStats,
    pub capture_note: String,
}

/// Number of folder records among `s`.
pub open spec fn dir_count(s: Seq<Node>) -> nat
    decreases s.len(),
{
    if s.len() == 0 {
        0
    } else {
        dir_count(s.drop_last()) + if s.last().spec_is_dir() {
            1nat
        } else {
            0nat
        }
    }
}

/// The name bytes of record `n` in pool `names`.
pub open spec fn name_bytes(names: Seq<u8>, n: Node) -> Seq<u8> {
    names.subrange(n.name_offset as int, n.name_offset + n.name_len)
}

/// The record's name lies inside the pool and is UTF-8.
pub open spec fn name_ok(names: Seq<u8>, n: Node) -> bool {
    &&& n.name_offset + n.name_len <= names.len()
    &&& valid_utf8(name_bytes(names, n))
}

/// Text of the path of node `id` below the root: the top-level name, then
/// each further name after a backslash.
pub open spec fn path_text(nodes: Seq<Node>, names: Seq<u8>, id: int) -> Seq<char>
    decreases id,
{
    if id <= 0 || id >= nodes.len() {
        Seq::empty()
    } else {
        let n = nodes[id];
        let name = text_of(name_bytes(names, n));
        if n.parent == ROOT || n.parent >= id {
            name
        } else {
            path_text(nodes, names, n.parent as int) + seq!['\\'] + name
        }
    }
}

/// The ids from the root down to `id`, both included.
pub open spec fn lineage(nodes: Seq<Node>, id: int) -> Seq<Id>
    decreases id,
{
    if id <= 0 || id >= nodes.len() {
        seq![ROOT]
    } else if nodes[id].parent >= id {
        seq![ROOT, id as Id]
    } else {
        lineage(nodes, nodes[id].parent as int).push(id as Id)
    }
}

impl Dataset {
    /// What the transfer format checks before it accepts a hierarchy: every
    /// folder record points at folder metadata, and every child range lies
    /// inside the child index.
    pub open spec fn shape_ok(&self) -> bool {
        &&& self.nodes@.len() >= 1
        &&& self.children@.len() == self.nodes@.len() - 1
        &&& self.prefix_bytes@.len() == self.children@.len()
        &&& self.directories@.len() >= 1
        &&& self.nodes@[0].spec_is_dir()
        &&& forall|i: int|
            0 <= i < self.nodes@.len() && (#[trigger] self.nodes@[i]).spec_is_dir()
                ==> self.nodes@[i].directory < self.directories@.len()
        &&& forall|d: int|
            0 <= d < self.directories@.len() ==> (#[trigger] self.directories@[d]).child_start
                + self.directories@[d].child_count <= self.children@.len()
    }

    /// Parents precede their children, and every name is UTF-8 inside the pool.
    pub open spec fn tree_ok(&self) -> bool {
        &&& 1 <= self.nodes@.len() <= u32::MAX + 1
        &&& self.nodes@[0].parent == ROOT
        &&& forall|i: int|
            0 < i < self.nodes@.len() ==> (#[trigger] self.nodes@[i]).parent < i
        &&& forall|i: int| 0 <= i < self.nodes@.len() ==> name_ok(self.names@, #[trigger] self.nodes@[i])
    }

    /// Every folder lists each of its children once at least, and nothing else.
    pub open spec fn children_ok(&self) -> bool {
        &&& forall|id: Id, t: int|
            id < self.nodes@.len() && 0 <= t < self.spec_child_ids(id).len() ==> {
                let c = #[trigger] self.spec_child_ids(id)[t];
                &&& 0 < c < self.nodes@.len()
                &&& self.nodes@[c as int].parent == id
            }
        &&& forall|c: int|
            0 < c < self.nodes@.len() ==> self.spec_child_ids(
                #[trigger] self.nodes@[c].parent,
            ).contains(c as Id)
    }

    /// No folder lists a child twice.
    pub open spec fn distinct_ok(&self) -> bool {
        forall|id: Id| id < self.nodes@.len() ==> (#[trigger] self.spec_child_ids(id)).no_duplicates()
    }

    /// Every folder lists its children largest first, equal sizes by id.
    pub open spec fn sorted_ok(&self) -> bool {
        forall|id: Id|
            id < self.nodes@.len() ==> crate::order::sorted_by_size(
                self.nodes@,
                #[trigger] self.spec_child_ids(id),
            )
    }

    /// Each prefix entry is the total size of the children up to and including its own.
    pub open spec fn sums_ok(&self) -> bool {
        forall|id: Id, t: int|
            id < self.nodes@.len() && 0 <= t < self.spec_child_prefix_bytes(id).len() ==> #[trigger] self.spec_child_prefix_bytes(
                id,
            )[t] == crate::totals::sum_bytes(self.nodes@, self.spec_child_ids(id).take(t + 1))
    }

    /// A folder's size is the total size of its children.
    pub open spec fn totals_ok(&self) -> bool {
        forall|id: Id|
            id < self.nodes@.len() && (#[trigger] self.nodes@[id as int]).spec_is_dir()
                ==> self.nodes@[id as int].bytes == crate::totals::sum_bytes(
                self.nodes@,
                self.spec_child_ids(id),
            )
    }

    /// What a finished hierarchy keeps true.
    pub open spec fn wf(&self) -> bool {
        &&& self.shape_ok()
        &&& self.tree_ok()
        &&& self.children_ok()
        &&& self.distinct_ok()
        &&& self.sorted_ok()
        &&& self.sums_ok()
        &&& self.totals_ok()
    }

    pub open spec fn spec_child_ids(&self, id: Id) -> Seq<Id> {
        let n = self.nodes@[id as int];
        if n.spec_is_dir() {
            let d = self.directories@[n.directory as int];
            self.children@.subrange(d.child_start as int, d.child_start + d.child_count)
        } else {
            Seq::empty()
        }
    }

    pub open spec fn spec_child_prefix_bytes(&self, id: Id) -> Seq<u64> {
        let n = self.nodes@[id as int];
        if n.spec_is_dir() {
            let d = self.directories@[n.directory as int];
            self.prefix_bytes@.subrange(d.child_start as int, d.child_start + d.child_count)
        } else {
            Seq::empty()
        }
    }

    pub open spec fn spec_file_count(&self, id: Id) -> u32 {
        let n = self.nodes@[id as int];
        if n.spec_is_dir() {
            self.directories@[n.directory as int].file_count
        } else {
            1
        }
    }

    pub open spec fn spec_name(&self, id: Id) -> Seq<char> {
        text_of(name_bytes(self.names@, self.nodes@[id as int]))
    }

    pub open spec fn spec_folder_records(&self) -> nat {
        self.directories@.len()
    }

    /// The text that `path` shows for `id`.
    pub open spec fn spec_path(&self, id: Id) -> Seq<char> {
        if id == ROOT {
            "All indexed files"@
        } else {
            let p = path_text(self.nodes@, self.names@, id as int);
            if p.len() == 2 && (p[0] as u32) < 0x80 && p[1] == ':' {
                p.push('\\')
            } else {
                p
            }
        }
    }

    pub open spec fn spec_ancestors(&self, id: Id) -> Seq<Id> {
        lineage(self.nodes@, id as int)
    }

    pub fn node(&self, id: Id) -> (r: &Node)
        requires
            id < self.nodes@.len(),
        ensures
            *r == self.nodes@[id as int],
    {
        &self.nodes[id as usize]
    }

    pub fn name(&self, id: Id) -> (r: &str)
        requires
            id < self.nodes@.len(),
            name_ok(self.names@, self.nodes@[id as int]),
        ensures
            r.spec_bytes() == name_bytes(self.names@, self.nodes@[id as int]),
            r@ == self.spec_name(id),
    {
        let n = self.node(id);
        assert(n.name_offset + n.name_len <= self.names.len());
        let start = n.name_offset as usize;
        let end = start + n.name_len as usize;
        let r = utf8_str(&self.names[start..end]);
        proof {
            decode_utf8_encode_utf8(name_bytes(self.names@, *n));
            encode_utf8_decode_utf8(r.unwrap()@);
        }
        // Builder only appends valid UTF-8 strings.
        r.unwrap()
    }

    pub fn child_ids(&self, id: Id) -> (r: &[Id])
        requires
            self.shape_ok(),
            id < self.nodes@.len(),
        ensures
            r@ == self.spec_child_ids(id),
    {
        let Some(dir) = self.directory(id) else {
            return &[];
        };
        proof {
            let d = self.nodes@[id as int].directory as int;
            assert(self.directories@[d].child_start + self.directories@[d].child_count
                <= self.children.len());
            assert(*dir == self.directories@[d]);
        }
        let start = dir.child_start as usize;
        &self.children[start..start + dir.child_count as usize]
    }

    fn directory(&self, id: Id) -> (r: Option<&Directory>)
        requires
            self.shape_ok(),
            id < self.nodes@.len(),
        ensures
            self.nodes@[id as int].spec_is_dir() ==> r == Some(
                &self.directories@[self.nodes@[id as int].directory as int],
            ),
            !self.nodes@[id as int].spec_is_dir() ==> r is None,
    {
        let node = self.node(id);
        if node.is_dir() {
            Some(&self.directories[node.directory as usize])
        } else {
            None
        }
    }

    pub fn file_count(&self, id: Id) -> (r: u32)
        requires
            self.shape_ok(),
            id < self.nodes@.len(),
        ensures
            r == self.spec_file_count(id),
    {
        match self.directory(id) {
            Some(dir) => dir.file_count,
            None => 1,
        }
    }

    pub fn child_prefix_bytes(&self, id: Id) -> (r: &[u64])
        requires
            self.shape_ok(),
            id < self.nodes@.len(),
        ensures
            r@ == self.spec_child_prefix_bytes(id),
    {
        let Some(dir) = self.directory(id) else {
            return &[];
        };
        let start = dir.child_start as usize;
        proof {
            let d = self.nodes@[id as int].directory as int;
            assert(self.directories@[d].child_start + self.directories@[d].child_count
                <= self.children.len());
            assert(*dir == self.directories@[d]);
        }
        &self.prefix_bytes[start..start + dir.child_count as usize]
    }

    /// Bytes of the children `start..end` of `parent`, read off the prefix sums.
    pub fn range_bytes(&self, parent: Id, start: usize, end: usize) -> (r: u64)
        requires
            self.shape_ok(),
            parent < self.nodes@.len(),
            start <= end <= self.spec_child_prefix_bytes(parent).len(),
            0 < start < end ==> self.spec_child_prefix_bytes(parent)[start - 1]
                <= self.spec_child_prefix_bytes(parent)[end - 1],
        ensures
            start == end ==> r == 0,
            start < end ==> r == self.spec_child_prefix_bytes(parent)[end - 1] - (if start == 0 {
                0
            } else {
                self.spec_child_prefix_bytes(parent)[start - 1] as int
            }),
            self.sums_ok() ==> r == crate::totals::sum_bytes(
                self.nodes@,
                self.spec_child_ids(parent).subrange(start as int, end as int),
            ),
    {
        proof {
            if self.sums_ok() {
                let ids = self.spec_child_ids(parent);
                let a = start as int;
                let b = end as int;
                assert(ids.take(a) + ids.subrange(a, b) =~= ids.take(b));
                crate::totals::lemma_sum_concat(self.nodes@, ids.take(a), ids.subrange(a, b));
                if a == b {
                    assert(ids.subrange(a, b) =~= Seq::<Id>::empty());
                }
                if a == 0 {
                    assert(ids.take(0) =~= Seq::<Id>::empty());
                }
                if b > 0 {
                    assert(self.spec_child_prefix_bytes(parent)[b - 1] == crate::totals::sum_bytes(
                        self.nodes@,
                        ids.take(b),
                    ));
                }
                if a > 0 {
                    assert(self.spec_child_prefix_bytes(parent)[a - 1] == crate::totals::sum_bytes(
                        self.nodes@,
                        ids.take(a),
                    ));
                }
            }
        }
        if start == end {
            return 0;
        }
        let prefix = self.child_prefix_bytes(parent);
        let before = if start == 0 {
            0
        } else {
            prefix[start - 1]
        };
        prefix[end - 1] - before
    }

    pub fn path(&self, id: Id) -> (r: String)
        requires
            self.tree_ok(),
            id < self.nodes@.len(),
        ensures
            r@ == self.spec_path(id),
    {
        if id == ROOT {
            broadcast use vstd::string::to_string_from_display_ensures_for_str;
            return "All indexed files".to_string();
        }
        let mut parts: Vec<&str> = Vec::new();
        let mut current = id;
        while current != ROOT
            invariant
                self.tree_ok(),
                current < self.nodes@.len(),
                0 < id < self.nodes@.len(),
                parts@.len() == 0 ==> current == id,
                parts@.len() > 0 ==> path_text(self.nodes@, self.names@, id as int) == (if current
                    == ROOT {
                    joined(parts@)
                } else {
                    path_text(self.nodes@, self.names@, current as int) + seq!['\\'] + joined(
                        parts@,
                    )
                }),
            decreases current,
        {
            let ghost before = parts@;
            let name = self.name(current);
            let n = self.node(current);
            proof {
                assert(self.nodes@[current as int].parent < current);
                if before.len() > 0 {
                    lemma_joined_push(before, name);
                } else {
                    assert(joined(before.push(name)) == name@);
                }
            }
            parts.push(name);
            current = n.parent;
        }
        let mut path = String::new();
        let mut k = parts.len();
        proof {
            reveal_strlit("\\");
        }
        while k > 0
            invariant
                0 <= k <= parts@.len(),
                parts@.len() > 0,
                k == parts@.len() ==> path@ == Seq::<char>::empty(),
                k < parts@.len() ==> path@ == joined(parts@.subrange(k as int, parts@.len() as int)),
            decreases k,
        {
            k = k - 1;
            let ghost before = path@;
            proof {
                reveal_strlit("\\");
            }
            if k + 1 < parts.len() {
                path.append("\\");
            }
            path.append(parts[k]);
            proof {
                let sub = parts@.subrange(k as int, parts@.len() as int);
                assert(sub.drop_first() =~= parts@.subrange(k + 1, parts@.len() as int));
                assert(sub[0] == parts@[k as int]);
                if k + 1 < parts@.len() {
                    assert(sub.len() >= 2);
                    assert(joined(sub) == joined(sub.drop_first()) + seq!['\\'] + sub[0]@);
                } else {
                    assert(sub.len() == 1);
                }
            }
        }
        proof {
            assert(parts@.subrange(0, parts@.len() as int) =~= parts@);
        }
        assert(path@ == joined(parts@));
        let s = path.as_str();
        proof {
            reveal_strlit("\\");
        }
        proof {
            let p = path@;
            if p.len() == 2 && (p[0] as u32) < 0x80 && p[1] == ':' {
                reveal_with_fuel(encode_utf8, 3);
                assert(p.drop_first().drop_first().len() == 0);
                assert(encode_utf8(p).len() == 2);
            }
        }
        if s.len() == 2 && s.unicode_len() == 2 && (s.get_char(0) as u32) < 0x80 && s.get_char(1)
            == ':' {
            path.append("\\");
            assert(path@ == path_text(self.nodes@, self.names@, id as int).push('\\'));
        } else {
            assert(path@ == path_text(self.nodes@, self.names@, id as int));
        }
        path
    }

    pub fn ancestors(&self, id: Id) -> (r: Vec<Id>)
        requires
            self.tree_ok(),
            id < self.nodes@.len(),
        ensures
            r@ == self.spec_ancestors(id),
    {
        let mut out: Vec<Id> = Vec::new();
        out.push(id);
        let mut current = id;
        while current != ROOT
            invariant
                self.tree_ok(),
                current < self.nodes@.len(),
                id < self.nodes@.len(),
                out@.len() > 0,
                lineage(self.nodes@, id as int) == lineage(self.nodes@, current as int).drop_last()
                    + out@.reverse(),
            decreases current,
        {
            current = self.node(current).parent;
            out.push(current);
        }
        let mut result: Vec<Id> = Vec::new();
        let mut k = out.len();
        while k > 0
            invariant
                0 <= k <= out@.len(),
                result@ == out@.subrange(k as int, out@.len() as int).reverse(),
            decreases k,
        {
            k = k - 1;
            result.push(out[k]);
        }
        result
    }

    pub fn folder_count(&self) -> (r: usize)
        requires
            self.directories@.len() >= 1,
        ensures
            r == self.spec_folder_records() - 1,
    {
        self.directories.len() - 1
    }
}


/// Number of records in `s[1..k)` whose parent is `j`.
pub open spec fn kid_count(s: Seq<Node>, j: int, k: int) -> nat
    decreases k,
{
    if k <= 1 || k > s.len() {
        0
    } else {
        kid_count(s, j, k - 1) + if s[k - 1].parent == j {
            1nat
        } else {
            0nat
        }
    }
}

/// Number of records whose size is unknown.
pub open spec fn unknown_count(s: Seq<Node>) -> nat
    decreases s.len(),
{
    if s.len() == 0 {
        0
    } else {
        unknown_count(s.drop_last()) + if s.last().flags != 0 {
            1nat
        } else {
            0nat
        }
    }
}

/// Bytes of the path of node `id` below the root, as `path_text` reads them.
pub open spec fn path_bytes(nodes: Seq<Node>, names: Seq<u8>, id: int) -> Seq<u8>
    decreases id,
{
    if id <= 0 || id >= nodes.len() {
        Seq::empty()
    } else {
        let n = nodes[id];
        if n.parent == ROOT || n.parent >= id {
            name_bytes(names, n)
        } else {
            path_bytes(nodes, names, n.parent as int) + seq![BACKSLASH] + name_bytes(names, n)
        }
    }
}

/// A record as the builder keeps it: folders carry their metadata index, no
/// size and no flags; files carry at most the unknown-size flag.
pub open spec fn record_ok(s: Seq<Node>, i: int) -> bool {
    let n = s[i];
    if n.spec_is_dir() {
        &&& n.directory == dir_count(s.take(i))
        &&& n.bytes == 0
        &&& n.flags == 0
    } else {
        &&& n.kind == 0
        &&& n.directory == 0
        &&& (n.flags == 0 || n.flags == UNKNOWN_SIZE)
    }
}

/// Parents precede their children and are folders.
pub open spec fn parents_ok(s: Seq<Node>) -> bool {
    forall|i: int|
        0 < i < s.len() ==> (#[trigger] s[i]).parent < i && s[s[i].parent as int].spec_is_dir()
}

pub proof fn lemma_dir_count_take(s: Seq<Node>, i: int)
    requires
        0 <= i < s.len(),
    ensures
        dir_count(s.take(i + 1)) == dir_count(s.take(i)) + if s[i].spec_is_dir() {
            1nat
        } else {
            0nat
        },
{
    assert(s.take(i + 1).drop_last() =~= s.take(i));
}

pub proof fn lemma_dir_count_take_mono(s: Seq<Node>, i: int, j: int)
    requires
        0 <= i <= j <= s.len(),
    ensures
        dir_count(s.take(i)) <= dir_count(s.take(j)),
    decreases j - i,
{
    if i < j {
        lemma_dir_count_take(s, j - 1);
        lemma_dir_count_take_mono(s, i, j - 1);
    }
}

pub proof fn lemma_dir_index_below_count(s: Seq<Node>, i: int)
    requires
        0 <= i < s.len(),
        s[i].spec_is_dir(),
    ensures
        dir_count(s.take(i)) < dir_count(s),
{
    lemma_dir_count_take(s, i);
    lemma_dir_count_take_mono(s, i + 1, s.len() as int);
    assert(s.take(s.len() as int) =~= s);
}

/// Distinct folders have distinct metadata records.
pub proof fn lemma_dir_index_distinct(s: Seq<Node>, i: int, j: int)
    requires
        0 <= i < s.len(),
        0 <= j < s.len(),
        i != j,
        s[i].spec_is_dir(),
        s[j].spec_is_dir(),
        record_ok(s, i),
        record_ok(s, j),
    ensures
        s[i].directory != s[j].directory,
{
    if i < j {
        lemma_dir_count_take(s, i);
        lemma_dir_count_take_mono(s, i + 1, j);
    } else {
        lemma_dir_count_take(s, j);
        lemma_dir_count_take_mono(s, j + 1, i);
    }
}

pub proof fn lemma_dir_count_le(s: Seq<Node>)
    ensures
        dir_count(s) <= s.len(),
    decreases s.len(),
{
    if s.len() > 0 {
        lemma_dir_count_le(s.drop_last());
    }
}

proof fn lemma_unknown_count_le(s: Seq<Node>)
    ensures
        unknown_count(s) <= s.len(),
    decreases s.len(),
{
    if s.len() > 0 {
        lemma_unknown_count_le(s.drop_last());
    }
}

proof fn lemma_kid_count_push(s: Seq<Node>, x: Node, j: int, k: int)
    requires
        0 <= k <= s.len(),
    ensures
        kid_count(s.push(x), j, k) == kid_count(s, j, k),
    decreases k,
{
    if k > 1 {
        lemma_kid_count_push(s, x, j, k - 1);
    }
}

pub proof fn lemma_kid_count_none_before(s: Seq<Node>, j: int, k: int)
    requires
        parents_ok(s),
        k <= j + 1,
        k <= s.len(),
    ensures
        kid_count(s, j, k) == 0,
    decreases k,
{
    if k > 1 {
        assert(s[k - 1].parent < k - 1);
        lemma_kid_count_none_before(s, j, k - 1);
    }
}

pub proof fn lemma_kid_count_le(s: Seq<Node>, j: int, k: int)
    requires
        1 <= k <= s.len(),
    ensures
        kid_count(s, j, k) <= k - 1,
    decreases k,
{
    if k > 1 {
        lemma_kid_count_le(s, j, k - 1);
    }
}

pub proof fn lemma_path_bytes_push(s: Seq<Node>, names: Seq<u8>, extra: Seq<u8>, x: Node, id: int)
    requires
        0 <= id < s.len(),
        parents_ok(s),
        forall|i: int| 0 <= i < s.len() ==> #[trigger] s[i].name_offset + s[i].name_len <= names.len(),
    ensures
        path_bytes(s.push(x), names + extra, id) == path_bytes(s, names, id),
    decreases id,
{
    if id > 0 {
        let n = s[id];
        assert(s.push(x)[id] == n);
        assert(name_bytes(names + extra, n) =~= name_bytes(names, n));
        if n.parent != ROOT {
            lemma_path_bytes_push(s, names, extra, x, n.parent as int);
        }
    }
}


/// Records and name bytes added only at the end leave the paths of the
/// records there were unchanged.
proof fn lemma_path_bytes_prefix(s: Seq<Node>, names: Seq<u8>, t: Seq<Node>, more: Seq<u8>, id: int)
    requires
        s.len() <= t.len(),
        t.take(s.len() as int) == s,
        names.len() <= more.len(),
        more.take(names.len() as int) == names,
        forall|i: int| 0 <= i < s.len() ==> #[trigger] s[i].name_offset + s[i].name_len <= names.len(),
        id < s.len(),
    ensures
        path_bytes(t, more, id) == path_bytes(s, names, id),
    decreases id,
{
    if id > 0 {
        let n = s[id];
        assert(t.take(s.len() as int)[id] == t[id]);
        assert(name_bytes(more, n) =~= name_bytes(names, n)) by {
            assert forall|k: int| 0 <= k < n.name_len implies #[trigger] more[n.name_offset + k] == names[n.name_offset + k] by {
                assert(more.take(names.len() as int)[n.name_offset + k] == more[n.name_offset + k]);
            }
        }
        if n.parent != ROOT && n.parent < id {
            lemma_path_bytes_prefix(s, names, t, more, n.parent as int);
        }
    }
}

/// Folder metadata of a builder: one record per folder, each counting the
/// folder's children so far.
pub open spec fn dirs_ok(s: Seq<Node>, dirs: Seq<Directory>) -> bool {
    &&& dirs.len() == dir_count(s)
    &&& forall|i: int|
        0 <= i < s.len() && (#[trigger] s[i]).spec_is_dir() ==> dirs[s[i].directory as int] == (
        Directory { child_start: 0, child_count: kid_count(s, i, s.len() as int) as u32, file_count: 0 })
}

pub open spec fn names_ok(s: Seq<Node>, names: Seq<u8>) -> bool {
    &&& names.len() <= u32::MAX
    &&& forall|i: int| 0 <= i < s.len() ==> name_ok(names, #[trigger] s[i])
}

pub open spec fn records_ok(s: Seq<Node>) -> bool {
    &&& 1 <= s.len() <= u32::MAX + 1
    &&& s[0].spec_is_dir()
    &&& s[0].parent == ROOT
    &&& parents_ok(s)
    &&& forall|i: int| 0 <= i < s.len() ==> #[trigger] record_ok(s, i)
}

/// What a builder keeps true between calls.
pub open spec fn builder_ok(s: Seq<Node>, dirs: Seq<Directory>, names: Seq<u8>, unknown: u64) -> bool {
    &&& records_ok(s)
    &&& dirs_ok(s, dirs)
    &&& names_ok(s, names)
    &&& unknown == unknown_count(s)
}

proof fn lemma_push_records(s: Seq<Node>, x: Node)
    requires
        records_ok(s),
        s.len() <= u32::MAX,
        x.parent < s.len(),
        s[x.parent as int].spec_is_dir(),
        x.spec_is_dir() ==> x.directory == dir_count(s) && x.bytes == 0 && x.flags == 0,
        !x.spec_is_dir() ==> x.kind == 0 && x.directory == 0 && (x.flags == 0 || x.flags
            == UNKNOWN_SIZE),
    ensures
        records_ok(s.push(x)),
{
    let t = s.push(x);
    let n = t.len() as int;
    assert(t.take(n - 1) =~= s);
    assert forall|i: int| 0 <= i < n implies #[trigger] record_ok(t, i) by {
        if i < n - 1 {
            assert(t.take(i) =~= s.take(i));
            assert(record_ok(s, i));
            assert(t[i] == s[i]);
        }
    }
    assert forall|i: int| 0 < i < n implies (#[trigger] t[i]).parent < i && t[t[i].parent as int].spec_is_dir() by {
        if i < n - 1 {
            assert(t[i] == s[i]);
        }
    }
}

proof fn lemma_push_dirs(s: Seq<Node>, dirs: Seq<Directory>, x: Node, new_dirs: Seq<Directory>)
    requires
        records_ok(s),
        dirs_ok(s, dirs),
        records_ok(s.push(x)),
        x.parent < s.len(),
        s[x.parent as int].spec_is_dir(),
        x.spec_is_dir() ==> x.directory == dir_count(s),
        ({
            let pd = s[x.parent as int].directory as int;
            let base = if x.spec_is_dir() {
                dirs.push(Directory { child_start: 0, child_count: 0, file_count: 0 })
            } else {
                dirs
            };
            new_dirs == base.update(
                pd,
                Directory {
                    child_start: 0,
                    child_count: (kid_count(s, x.parent as int, s.len() as int) + 1) as u32,
                    file_count: 0,
                },
            )
        }),
        kid_count(s, x.parent as int, s.len() as int) + 1 <= u32::MAX,
    ensures
        dirs_ok(s.push(x), new_dirs),
{
    let t = s.push(x);
    let n = t.len() as int;
    assert(t.drop_last() =~= s);
    lemma_dir_index_below_count(s, x.parent as int);
    assert(record_ok(s, x.parent as int));
    assert forall|i: int| 0 <= i < n && (#[trigger] t[i]).spec_is_dir() implies new_dirs[(
    t[i].directory as int)] == (Directory {
        child_start: 0,
        child_count: kid_count(t, i, n) as u32,
        file_count: 0,
    }) by {
        lemma_kid_count_push(s, x, i, n - 1);
        if i < n - 1 {
            assert(t[i] == s[i]);
            assert(record_ok(s, i));
            lemma_dir_index_below_count(s, i);
            if i != x.parent {
                if i < x.parent {
                    lemma_dir_count_take(s, i);
                    lemma_dir_count_take_mono(s, i + 1, x.parent as int);
                } else {
                    lemma_dir_count_take(s, x.parent as int);
                    lemma_dir_count_take_mono(s, x.parent + 1, i);
                }
            }
        } else {
            lemma_kid_count_none_before(s, i, n - 1);
            assert(t[i] == x);
            assert(x.directory == dirs.len());
            assert(record_ok(s, x.parent as int));
            assert(new_dirs[x.directory as int] == Directory { child_start: 0, child_count: 0, file_count: 0 });
        }
    }
}

proof fn lemma_push_names(s: Seq<Node>, names: Seq<u8>, x: Node, extra: Seq<u8>)
    requires
        names_ok(s, names),
        names.len() + extra.len() <= u32::MAX,
        x.name_offset == names.len(),
        x.name_len == extra.len(),
        valid_utf8(extra),
    ensures
        names_ok(s.push(x), names + extra),
{
    let t = s.push(x);
    let n = t.len() as int;
    assert forall|i: int| 0 <= i < n implies name_ok(names + extra, #[trigger] t[i]) by {
        if i < n - 1 {
            assert(t[i] == s[i]);
            assert(name_ok(names, s[i]));
            assert(name_bytes(names + extra, t[i]) =~= name_bytes(names, t[i]));
        } else {
            assert(name_bytes(names + extra, t[i]) =~= extra);
        }
    }
}

proof fn lemma_push_unknown(s: Seq<Node>, x: Node)
    ensures
        unknown_count(s.push(x)) == unknown_count(s) + if x.flags != 0 {
            1nat
        } else {
            0nat
        },
{
    assert(s.push(x).drop_last() =~= s);
}

/// The entries `start..end` of `v`.
pub open spec fn range_of(v: Seq<Id>, start: usize, end: usize) -> Seq<Id> {
    v.subrange(start as int, end as int)
}

/// The size recorded for `id`.
pub fn bytes_of(nodes: &Vec<Node>, id: Id) -> (r: u64)
    requires
        id < nodes@.len(),
    ensures
        r == nodes@[id as int].bytes,
{
    nodes[id as usize].bytes
}

/// Appends `more` to `v`.
pub fn append_bytes(v: &mut Vec<u8>, more: &[u8])
    ensures
        final(v)@ == old(v)@ + more@,
{
    v.extend_from_slice(more);
    assert forall|i: int| 0 <= i < final(v)@.len() implies final(v)@[i] == (old(v)@ + more@)[i] by {
        if i >= old(v)@.len() {
            assert(cloned::<u8>(more@[i - old(v)@.len()], final(v)@[i]));
        }
    }
    assert(final(v)@ =~= old(v)@ + more@);
}


/// `b` without its trailing backslashes.
pub open spec fn trim_seps(b: Seq<u8>) -> Seq<u8>
    decreases b.len(),
{
    if b.len() > 0 && b.last() == BACKSLASH {
        trim_seps(b.drop_last())
    } else {
        b
    }
}

/// `p` is the position of the last backslash in `b`.
pub open spec fn last_sep_at(b: Seq<u8>, p: int) -> bool {
    &&& 0 <= p < b.len()
    &&& b[p] == BACKSLASH
    &&& forall|q: int| p < q < b.len() ==> #[trigger] b[q] != BACKSLASH
}

/// `shorter` is `longer` cut just before its last backslash.
pub open spec fn cut_at_last_sep(longer: Seq<u8>, shorter: Seq<u8>) -> bool {
    exists|p: int| #[trigger] last_sep_at(longer, p) && shorter == longer.take(p)
}

/// Cutting `longer` at `p` gives the path of the folder that holds the
/// folder at `longer`: `p` is its last backslash, past its root, and not its
/// first byte.
pub open spec fn parent_cut_at(longer: Seq<u8>, p: int) -> bool {
    &&& last_sep_at(longer, p)
    &&& p >= spec_root_end(longer)
    &&& p > 0
}

/// The folder at path `t` lies inside another folder rather than at the top.
pub open spec fn has_parent_path(t: Seq<u8>) -> bool {
    exists|p: int| parent_cut_at(t, p)
}

/// Where the path of the folder that holds the folder at `t` ends.
pub open spec fn parent_end(t: Seq<u8>) -> int {
    choose|p: int| parent_cut_at(t, p)
}

/// The path of the folder that holds the folder at `t`.
pub open spec fn parent_path(t: Seq<u8>) -> Seq<u8> {
    t.take(parent_end(t))
}

/// The name of the folder at path `t`: its last component, or the whole
/// path for a folder at the top.
pub open spec fn last_name(t: Seq<u8>) -> Seq<u8> {
    if has_parent_path(t) {
        t.skip(parent_end(t) + 1)
    } else {
        t
    }
}

/// Every folder but the root sits in the folder at its path cut at the last
/// backslash past the root, or at the top when there is no such backslash.
#[verifier::opaque]
pub open spec fn shaped(s: Seq<Node>, names: Seq<u8>) -> bool {
    forall|i: int|
        0 < i < s.len() && (#[trigger] s[i]).spec_is_dir() ==> {
            let t = path_bytes(s, names, i);
            if has_parent_path(t) {
                s[i].parent != ROOT && path_bytes(s, names, s[i].parent as int) == parent_path(t)
            } else {
                s[i].parent == ROOT
            }
        }
}

/// A path has one last backslash.
proof fn lemma_last_sep_unique(b: Seq<u8>, p: int, q: int)
    requires
        last_sep_at(b, p),
        last_sep_at(b, q),
    ensures
        p == q,
{
    if p < q {
        assert(b[q] == BACKSLASH);
    }
    if q < p {
        assert(b[p] == BACKSLASH);
    }
}

/// A cut at a valid position is the parent path.
/// `made` is the last of `m` first, then the one before, and so on.
#[verifier::opaque]
pub open spec fn made_from(made: Seq<Seq<u8>>, m: Seq<Seq<u8>>) -> bool {
    forall|j: int| 0 <= j < made.len() ==> #[trigger] made[j] == m[m.len() - 1 - j]
}

/// The bytes of each text of `m`.
pub open spec fn byte_paths(m: Seq<&str>) -> Seq<Seq<u8>> {
    m.map_values(|x: &str| x.spec_bytes())
}

/// The folders that adding the folder at path `t` to records `s` with
/// names `names` creates, top first: none when `t` is empty or already a
/// folder's path; else those for the path of the folder that holds `t`, then
/// `t` itself.
#[verifier::opaque]
pub open spec fn new_folders(s: Seq<Node>, names: Seq<u8>, t: Seq<u8>) -> Seq<Seq<u8>>
    decreases t.len(),
{
    if t.len() == 0 || !crate::folder_index::absent(s, names, t) {
        Seq::empty()
    } else if has_parent_path(t) && parent_path(t).len() < t.len() {
        new_folders(s, names, parent_path(t)) + seq![t]
    } else {
        seq![t]
    }
}

proof fn lemma_parent_cut(t: Seq<u8>, p: int)
    requires
        parent_cut_at(t, p),
    ensures
        has_parent_path(t),
        parent_end(t) == p,
        parent_path(t) == t.take(p),
{
    let q = parent_end(t);
    lemma_last_sep_unique(t, p, q);
}

/// A record added at the end keeps every folder where its path puts it,
/// when a new folder is put where its own path says.
proof fn lemma_shape_kept(s: Seq<Node>, names: Seq<u8>, extra: Seq<u8>, x: Node, full: Seq<u8>)
    requires
        shaped(s, names),
        parents_ok(s),
        forall|i: int| 0 <= i < s.len() ==> #[trigger] s[i].name_offset + s[i].name_len <= names.len(),
        x.parent < s.len(),
        x.spec_is_dir() ==> path_bytes(s.push(x), names + extra, s.len() as int) == full,
        x.spec_is_dir() && has_parent_path(full) ==> x.parent != ROOT && path_bytes(s, names, x.parent as int)
            == parent_path(full),
        x.spec_is_dir() && !has_parent_path(full) ==> x.parent == ROOT,
    ensures
        shaped(s.push(x), names + extra),
{
    reveal(shaped);
    let t = s.push(x);
    let more = names + extra;
    assert forall|i: int| 0 < i < t.len() && (#[trigger] t[i]).spec_is_dir() implies {
        let pt = path_bytes(t, more, i);
        if has_parent_path(pt) {
            t[i].parent != ROOT && path_bytes(t, more, t[i].parent as int) == parent_path(pt)
        } else {
            t[i].parent == ROOT
        }
    } by {
        if i < s.len() {
            assert(t[i] == s[i]);
            lemma_path_bytes_push(s, names, extra, x, i);
            lemma_path_bytes_push(s, names, extra, x, s[i].parent as int);
        } else {
            lemma_path_bytes_push(s, names, extra, x, x.parent as int);
        }
    }
}

/// The name of a folder is the last component of its path.
pub proof fn lemma_shaped_name(s: Seq<Node>, names: Seq<u8>, i: int)
    requires
        shaped(s, names),
        parents_ok(s),
        0 < i < s.len(),
        s[i].spec_is_dir(),
    ensures
        name_bytes(names, s[i]) == last_name(path_bytes(s, names, i)),
{
    reveal(shaped);
    let t = path_bytes(s, names, i);
    assert(s[i].spec_is_dir());
    if has_parent_path(t) {
        let p = parent_end(t);
        let pp = path_bytes(s, names, s[i].parent as int);
        assert(t == pp + seq![BACKSLASH] + name_bytes(names, s[i]));
        assert(pp == t.take(p));
        assert(t.skip(p + 1) =~= name_bytes(names, s[i]));
    }
}

/// A path cut at its last backslash is shorter.
proof fn lemma_cut_shorter(longer: Seq<u8>, shorter: Seq<u8>)
    requires
        cut_at_last_sep(longer, shorter),
    ensures
        shorter.len() < longer.len(),
{
    let p = choose|p: int| #[trigger] last_sep_at(longer, p) && shorter == longer.take(p);
    assert(last_sep_at(longer, p));
}

/// Position of the last backslash before `end`, as `str::rfind` finds it.
fn rfind_sep(b: &[u8], end: usize) -> (r: Option<usize>)
    requires
        end <= b@.len(),
    ensures
        r matches Some(p) ==> last_sep_at(b@.take(end as int), p as int),
        r is None ==> forall|q: int| 0 <= q < end ==> b@[q] != BACKSLASH,
{
    let mut k = end;
    while k > 0
        invariant
            k <= end <= b@.len(),
            forall|q: int| k <= q < end ==> b@[q] != BACKSLASH,
        decreases k,
    {
        if b[k - 1] == BACKSLASH {
            return Some(k - 1);
        }
        k = k - 1;
    }
    None
}

/// Position of the first backslash at or after `from`, or the length of
/// `b` when there is none.
pub open spec fn first_sep_from(b: Seq<u8>, from: int) -> int
    decreases b.len() - from,
{
    if from >= b.len() {
        b.len() as int
    } else if b[from] == BACKSLASH {
        from
    } else {
        first_sep_from(b, from + 1)
    }
}

/// Where the root of a path ends: for `\\server\share` just before the
/// backslash after the share (or the end), else at the start.
pub open spec fn spec_root_end(b: Seq<u8>) -> int {
    if b.len() >= 2 && b[0] == BACKSLASH && b[1] == BACKSLASH {
        let p = first_sep_from(b, 2);
        if p >= b.len() {
            b.len() as int
        } else {
            first_sep_from(b, p + 1)
        }
    } else {
        0
    }
}

/// `first_sep_from` is the first backslash from `from` on, or the length.
proof fn lemma_first_sep(b: Seq<u8>, from: int, p: int)
    requires
        0 <= from <= p <= b.len(),
        forall|q: int| from <= q < p ==> b[q] != BACKSLASH,
        p < b.len() ==> b[p] == BACKSLASH,
    ensures
        first_sep_from(b, from) == p,
    decreases p - from,
{
    if from < p {
        lemma_first_sep(b, from + 1, p);
    }
}

/// Position of the first backslash at or after `from`, as `str::find` finds it.
fn find_sep(b: &[u8], from: usize) -> (r: Option<usize>)
    requires
        from <= b@.len(),
    ensures
        r matches Some(p) ==> p == first_sep_from(b@, from as int),
        r is None ==> first_sep_from(b@, from as int) == b@.len(),
        r matches Some(p) ==> from <= p < b@.len() && b@[p as int] == BACKSLASH && forall|q: int|
            from <= q < p ==> b@[q] != BACKSLASH,
        r is None ==> forall|q: int| from <= q < b@.len() ==> b@[q] != BACKSLASH,
{
    let mut k = from;
    while k < b.len()
        invariant
            from <= k <= b@.len(),
            forall|q: int| from <= q < k ==> b@[q] != BACKSLASH,
        decreases b@.len() - k,
    {
        if b[k] == BACKSLASH {
            proof {
                lemma_first_sep(b@, from as int, k as int);
            }
            return Some(k);
        }
        k = k + 1;
    }
    proof {
        lemma_first_sep(b@, from as int, b@.len() as int);
    }
    None
}

/// Where the root of `b` ends: `\\server\share` is one root that a path is
/// never cut inside; other paths may be cut anywhere after their first byte.
fn root_end(b: &[u8]) -> (r: usize)
    ensures
        r <= b@.len(),
        r == spec_root_end(b@),
{
    if b.len() >= 2 && b[0] == BACKSLASH && b[1] == BACKSLASH {
        match find_sep(b, 2) {
            Some(p) => match find_sep(b, p + 1) {
                Some(q) => q,
                None => b.len(),
            },
            None => b.len(),
        }
    } else {
        0
    }
}

/// `s` with its trailing backslashes removed, as `trim_end_matches('\\')` does.
fn trim_trailing_seps(s: &str) -> (r: &str)
    ensures
        r.spec_bytes() == trim_seps(s.spec_bytes()),
{
    let b = s.as_bytes();
    let mut k = b.len();
    proof {
        assert(b@.take(k as int) =~= b@);
    }
    while k > 0 && b[k - 1] == BACKSLASH
        invariant
            k <= b@.len(),
            trim_seps(b@) == trim_seps(b@.take(k as int)),
            forall|q: int| k <= q < b@.len() ==> b@[q] == BACKSLASH,
        decreases k,
    {
        proof {
            assert(b@.take(k as int).drop_last() =~= b@.take(k - 1));
        }
        k = k - 1;
    }
    proof {
        encode_utf8_valid_utf8(s@);
        crate::utf8_text::lemma_prefix_before_ascii(b@, k as int);
        assert(trim_seps(b@.take(k as int)) == b@.take(k as int));
    }
    let (head, _) = s.split_at(k);
    head
}


proof fn lemma_path_bytes_new(s: Seq<Node>, names: Seq<u8>, x: Node)
    requires
        x.parent < s.len(),
    ensures
        path_bytes(s.push(x), names, s.len() as int) == if x.parent == ROOT {
            name_bytes(names, x)
        } else {
            path_bytes(s.push(x), names, x.parent as int) + seq![BACKSLASH] + name_bytes(names, x)
        },
{
    assert(s.push(x)[s.len() as int] == x);
}

proof fn lemma_concat3_eq(a: Seq<u8>, b: u8, c: Seq<u8>, k: Seq<u8>)
    requires
        k.len() == a.len() + 1 + c.len(),
    ensures
        (a + seq![b] + c == k) <==> (k.take(a.len() as int) == a && k[a.len() as int] == b
            && k.skip(a.len() + 1int) == c),
{
    let x = a + seq![b] + c;
    if x == k {
        assert(k.take(a.len() as int) =~= a);
        assert(k.skip(a.len() + 1int) =~= c);
    }
    if k.take(a.len() as int) == a && k[a.len() as int] == b && k.skip(a.len() + 1int) == c {
        assert(x =~= k);
    }
}


proof fn lemma_path_bytes_len(s: Seq<Node>, names: Seq<u8>, id: int)
    requires
        0 < id < s.len(),
        parents_ok(s),
    ensures
        path_bytes(s, names, id).len() >= name_bytes(names, s[id]).len(),
        s[id].parent == ROOT ==> path_bytes(s, names, id) == name_bytes(names, s[id]),
{
}

proof fn lemma_path_bytes_suffix(s: Seq<Node>, names: Seq<u8>, id: int, k: Seq<u8>)
    requires
        0 < id < s.len(),
        parents_ok(s),
        name_bytes(names, s[id]).len() <= k.len(),
        name_bytes(names, s[id]) != k.skip(k.len() - name_bytes(names, s[id]).len()),
    ensures
        path_bytes(s, names, id) != k,
{
    let nb = name_bytes(names, s[id]);
    if path_bytes(s, names, id) == k {
        if s[id].parent != ROOT {
            let pp = path_bytes(s, names, s[id].parent as int);
            assert(k.skip(k.len() - nb.len()) =~= nb);
        } else {
            assert(k.skip(0) =~= k);
        }
    }
}

proof fn lemma_trim_seps_len(names: Seq<u8>, b: Seq<u8>)
    ensures
        trim_seps(b).len() <= b.len(),
        trim_seps(b) == b.take(trim_seps(b).len() as int),
    decreases b.len(),
{
    if b.len() > 0 && b.last() == BACKSLASH {
        lemma_trim_seps_len(names, b.drop_last());
        assert(b.drop_last().take(trim_seps(b).len() as int) =~= b.take(trim_seps(b).len() as int));
    } else {
        assert(b.take(b.len() as int) =~= b);
    }
}

proof fn lemma_new_folder_path(
    s0: Seq<Node>,
    names0: Seq<u8>,
    name: Seq<u8>,
    x: Node,
    full: Seq<u8>,
    want: Seq<u8>,
    p: int,
)
    requires
        parents_ok(s0),
        forall|i: int| 0 <= i < s0.len() ==> #[trigger] s0[i].name_offset + s0[i].name_len <= names0.len(),
        x.parent < s0.len(),
        x.name_offset == names0.len(),
        x.name_len == name.len(),
        x.parent == ROOT ==> name == full,
        x.parent != ROOT ==> path_bytes(s0, names0, x.parent as int) == want && last_sep_at(full, p)
            && want == full.take(p) && name == full.skip(p + 1),
    ensures
        path_bytes(s0.push(x), names0 + name, s0.len() as int) == full,
{
    lemma_path_bytes_new(s0, names0 + name, x);
    assert(name_bytes(names0 + name, x) =~= name);
    if x.parent != ROOT {
        lemma_path_bytes_push(s0, names0, name, x, x.parent as int);
        assert(full =~= full.take(p) + seq![BACKSLASH] + full.skip(p + 1));
    }
}

proof fn lemma_new_nodes_dirs(s_old: Seq<Node>, s0: Seq<Node>, x: Node)
    requires
        forall|i: int| s_old.len() <= i < s0.len() ==> (#[trigger] s0[i]).spec_is_dir(),
        x.spec_is_dir(),
    ensures
        forall|i: int| s_old.len() <= i < s0.len() + 1 ==> (#[trigger] s0.push(x)[i]).spec_is_dir(),
{
    assert forall|i: int| s_old.len() <= i < s0.len() + 1 implies (#[trigger] s0.push(x)[i]).spec_is_dir() by {
        if i < s0.len() {
            assert(s0.push(x)[i] == s0[i]);
        }
    }
}

/// The messages with which the builder refuses a record.
pub open spec fn refusal_text(m: Seq<char>) -> bool {
    ||| m == "The 32-bit node ID capacity has been reached."@
    ||| m == "A filename is too long to represent."@
    ||| m == "The filename pool exceeded 4 GiB."@
}

pub struct Builder {
    nodes: Vec<Node>,
    directories: Vec<Directory>,
    names: Vec<u8>,
    folders: HashMap<u64, Vec<Id>>,
    unknown_sizes: u64,
}

impl Builder {
    pub closed spec fn spec_nodes(&self) -> Seq<Node> {
        self.nodes@
    }

    pub closed spec fn spec_names(&self) -> Seq<u8> {
        self.names@
    }

    pub closed spec fn spec_unknown_sizes(&self) -> u64 {
        self.unknown_sizes
    }

    pub closed spec fn spec_folder_records(&self) -> Seq<Directory> {
        self.directories@
    }

    /// The builder's records form a tree rooted at folder 0, in creation
    /// order, each folder is listed under the hash of its path, and no two
    /// folders share a path.
    pub closed spec fn inv(&self) -> bool {
        &&& self.records_ready()
        &&& indexed(self.nodes@, self.names@, self.folders@)
        &&& paths_unique(self.nodes@, self.names@)
        &&& shaped(self.nodes@, self.names@)
    }

    /// The records, folder metadata, names and unknown count agree.
    closed spec fn records_ready(&self) -> bool {
        builder_ok(self.nodes@, self.directories@, self.names@, self.unknown_sizes)
    }

    /// The path, below the root, of record `id` of this builder.
    pub closed spec fn spec_path_bytes(&self, id: Id) -> Seq<u8> {
        path_bytes(self.nodes@, self.names@, id as int)
    }

    /// `next` holds every record and name of `self`, unchanged, and more at the end.
    pub proof fn lemma_grows_refl(&self)
        ensures
            self.grows_into(self),
    {
        assert(self.nodes@.take(self.nodes@.len() as int) =~= self.nodes@);
        assert(self.names@.take(self.names@.len() as int) =~= self.names@);
    }

    pub proof fn lemma_grows_trans(&self, b: &Builder, c: &Builder)
        requires
            self.grows_into(b),
            b.grows_into(c),
        ensures
            self.grows_into(c),
    {
        assert(c.nodes@.take(self.nodes@.len() as int) =~= b.nodes@.take(self.nodes@.len() as int));
        assert(c.names@.take(self.names@.len() as int) =~= b.names@.take(self.names@.len() as int));
    }

    /// A builder's first record is the root folder, and it has at most as many
    /// records as 32-bit ids can name.
    pub proof fn lemma_root_folder(&self)
        requires
            self.inv(),
        ensures
            1 <= self.spec_nodes().len() <= u32::MAX + 1,
            self.spec_nodes()[0].spec_is_dir(),
    {
    }

    /// A builder that grows keeps every record it had.
    pub proof fn lemma_grows_nodes(&self, next: &Builder)
        requires
            self.grows_into(next),
        ensures
            self.spec_nodes().len() <= next.spec_nodes().len(),
            forall|i: int|
                0 <= i < self.spec_nodes().len() ==> #[trigger] next.spec_nodes()[i] == self.spec_nodes()[i],
    {
        assert forall|i: int| 0 <= i < self.spec_nodes().len() implies #[trigger] next.spec_nodes()[i]
            == self.spec_nodes()[i] by {
            assert(next.nodes@.take(self.nodes@.len() as int)[i] == next.nodes@[i]);
        }
    }

    /// `push` refuses a record exactly when the builder holds as many
    /// records as 32-bit ids can name, or the name is too long, or the name
    /// pool would pass 4 GiB.
    pub proof fn lemma_push_refusal(&self, name_len: nat)
        ensures
            self.push_refusal(name_len) is Some <==> (self.spec_nodes().len() > u32::MAX || name_len
                > u16::MAX || self.spec_names().len() + name_len > u32::MAX),
    {
    }

    /// A record that `push` accepts fits the name pool and the name length.
    pub proof fn lemma_push_bounds(&self, name_len: nat)
        requires
            self.push_refusal(name_len) is None,
        ensures
            self.spec_names().len() + name_len <= u32::MAX,
            name_len <= u16::MAX,
    {
    }

    /// A builder's records form a tree of folders and files whose names lie
    /// in its pool.
    pub proof fn lemma_records_ok(&self)
        requires
            self.inv(),
        ensures
            records_ok(self.spec_nodes()),
            names_ok(self.spec_nodes(), self.spec_names()),
    {
    }

    /// Where a builder's folder sits: in the folder at its path cut at the
    /// last backslash past the root, or at the top when there is none; its
    /// name is the last component of its path.
    pub proof fn lemma_folder_place(&self, id: Id)
        requires
            self.inv(),
            0 < id < self.spec_nodes().len(),
            self.spec_nodes()[id as int].spec_is_dir(),
        ensures
            has_parent_path(self.spec_path_bytes(id)) ==> self.spec_nodes()[id as int].parent != ROOT
                && self.spec_path_bytes(self.spec_nodes()[id as int].parent) == parent_path(self.spec_path_bytes(id)),
            !has_parent_path(self.spec_path_bytes(id)) ==> self.spec_nodes()[id as int].parent == ROOT,
            name_bytes(self.spec_names(), self.spec_nodes()[id as int]) == last_name(self.spec_path_bytes(id)),
    {
        reveal(shaped);
        assert(self.nodes@[id as int].spec_is_dir());
        lemma_shaped_name(self.nodes@, self.names@, id as int);
    }

    /// A builder's folders carry no size of their own.
    pub proof fn lemma_folders_unsized(&self)
        requires
            self.inv(),
        ensures
            forall|i: int| 0 <= i < self.spec_nodes().len() && (#[trigger] self.spec_nodes()[i]).spec_is_dir() ==> self.spec_nodes()[i].bytes == 0,
    {
        assert forall|i: int| 0 <= i < self.spec_nodes().len() && (#[trigger] self.spec_nodes()[i]).spec_is_dir() implies self.spec_nodes()[i].bytes == 0 by {
            assert(record_ok(self.nodes@, i));
        }
    }

    /// No two folders of a builder share a path: asking for a folder by a
    /// path it already has gives that folder.
    pub proof fn lemma_one_folder_per_path(&self, a: Id, b: Id)
        requires
            self.inv(),
            0 < a < self.spec_nodes().len(),
            0 < b < self.spec_nodes().len(),
            self.spec_nodes()[a as int].spec_is_dir(),
            self.spec_nodes()[b as int].spec_is_dir(),
            self.spec_path_bytes(a) == self.spec_path_bytes(b),
        ensures
            a == b,
    {
        assert(self.nodes@[a as int].spec_is_dir() && self.nodes@[b as int].spec_is_dir());
    }

    /// A builder that grows keeps the path of every record it had.
    /// The path of a record, as the records and names of the builder give it.
    pub proof fn lemma_path_bytes_are(&self, id: Id)
        ensures
            self.spec_path_bytes(id) == path_bytes(self.spec_nodes(), self.spec_names(), id as int),
    {
    }

    /// A builder that grows keeps the name of every record it had.
    pub proof fn lemma_names_kept(&self, next: &Builder, id: int)
        requires
            self.inv(),
            self.grows_into(next),
            0 <= id < self.spec_nodes().len(),
        ensures
            next.spec_nodes()[id] == self.spec_nodes()[id],
            name_bytes(next.spec_names(), next.spec_nodes()[id]) == name_bytes(
                self.spec_names(),
                self.spec_nodes()[id],
            ),
    {
        self.lemma_grows_nodes(next);
        let n = self.nodes@[id];
        assert(name_ok(self.names@, n));
        assert(next.names@.take(self.names@.len() as int) == self.names@);
        assert(name_bytes(next.names@, n) =~= name_bytes(self.names@, n)) by {
            assert forall|k: int| 0 <= k < n.name_len implies name_bytes(next.names@, n)[k] == name_bytes(
                self.names@,
                n,
            )[k] by {
                assert(next.names@.take(self.names@.len() as int)[n.name_offset + k] == next.names@[n.name_offset
                    + k]);
            }
        }
    }

    /// The records from `base` on have the paths `made`, in order.
    #[verifier::opaque]
    pub closed spec fn made_at(&self, base: int, made: Seq<Seq<u8>>) -> bool {
        &&& base + made.len() <= self.nodes@.len()
        &&& forall|j: int| 0 <= j < made.len() ==> #[trigger] self.spec_path_bytes((base + j) as Id) == made[j]
    }

    /// A folder added at the end extends the paths made from `base`.
    proof fn lemma_made_grows(&self, next: &Builder, base: int, made: Seq<Seq<u8>>, p: Seq<u8>)
        requires
            self.inv(),
            self.grows_into(next),
            0 <= base,
            base + made.len() == self.nodes@.len(),
            self.made_at(base, made),
            next.nodes@.len() == self.nodes@.len() + 1,
            next.spec_path_bytes(self.nodes@.len() as Id) == p,
            self.nodes@.len() <= u32::MAX,
        ensures
            next.made_at(base, made.push(p)),
    {
        reveal(Builder::made_at);
        assert forall|j: int| 0 <= j < made.len() + 1 implies #[trigger] next.spec_path_bytes((base + j) as Id)
            == made.push(p)[j] by {
            if j < made.len() {
                self.lemma_grows_paths(next, (base + j) as Id);
            }
        }
    }

    pub proof fn lemma_grows_paths(&self, next: &Builder, id: Id)
        requires
            self.inv(),
            self.grows_into(next),
            id < self.spec_nodes().len(),
        ensures
            next.spec_path_bytes(id) == self.spec_path_bytes(id),
    {
        lemma_path_bytes_prefix(self.nodes@, self.names@, next.nodes@, next.names@, id as int);
    }

    pub closed spec fn grows_into(&self, next: &Builder) -> bool {
        &&& self.nodes@.len() <= next.nodes@.len()
        &&& next.nodes@.take(self.nodes@.len() as int) == self.nodes@
        &&& self.names@.len() <= next.names@.len()
        &&& next.names@.take(self.names@.len() as int) == self.names@
    }

    /// Why `push` refuses a record named `name_len` bytes, if it does.
    pub closed spec fn push_refusal(&self, name_len: nat) -> Option<Seq<char>> {
        if self.nodes@.len() > u32::MAX {
            Some("The 32-bit node ID capacity has been reached."@)
        } else if name_len > u16::MAX {
            Some("A filename is too long to represent."@)
        } else if self.names@.len() + name_len > u32::MAX {
            Some("The filename pool exceeded 4 GiB."@)
        } else {
            None
        }
    }

    pub fn new(expected_files: usize) -> (r: Self)
        ensures
            r.inv(),
            r.spec_nodes().len() == 1,
            r.spec_unknown_sizes() == 0,
            r.spec_names() == "All indexed files".spec_bytes(),
            r.spec_nodes()[0] == (Node {
                bytes: 0,
                name_offset: 0,
                name_len: 17,
                parent: ROOT,
                kind: DIRECTORY,
                flags: 0,
                directory: 0,
            }),
            crate::totals::file_records(r.spec_nodes()) == 0,
            crate::totals::total_bytes(r.spec_nodes()) == 0,
    {
        let capacity = expected_files.saturating_add(expected_files / 16).saturating_add(1);
        let pool = match expected_files.checked_mul(20) {
            Some(n) => n,
            None => usize::MAX,
        };
        let mut out = Builder {
            nodes: Vec::with_capacity(capacity),
            directories: Vec::new(),
            names: Vec::with_capacity(pool),
            folders: HashMap::new(),
            unknown_sizes: 0,
        };
        let root_name = "All indexed files";
        proof {
            reveal_strlit("All indexed files");
            encode_utf8_valid_utf8(root_name@);
        }
        let name = root_name.as_bytes();
        let len = name.len();
        proof {
            reveal_with_fuel(encode_utf8, 18);
        }
        assert(len == 17);
        append_bytes(&mut out.names, name);
        out.directories.push(Directory { child_start: 0, child_count: 0, file_count: 0 });
        out.nodes.push(
            Node {
                bytes: 0,
                name_offset: 0,
                name_len: len as u16,
                parent: ROOT,
                kind: DIRECTORY,
                flags: 0,
                directory: 0,
            },
        );
        proof {
            let s = out.nodes@;
            assert(s.take(0) =~= Seq::<Node>::empty());
            assert(s.drop_last() =~= Seq::<Node>::empty());
            assert(record_ok(s, 0));
            assert(name_bytes(out.names@, s[0]) =~= name@);
            assert(unknown_count(s) == 0) by {
                assert(unknown_count(s.drop_last()) == 0);
            }
            reveal_with_fuel(crate::totals::files_upto, 2);
            reveal_with_fuel(crate::totals::bytes_upto, 2);
            reveal(shaped);
        }
        out
    }

    fn push(&mut self, parent: Id, name: &str, bytes: u64, dir: bool, unknown: bool) -> (r: Result<
        Id,
        String,
    >)
        requires
            old(self).records_ready(),
            parent < old(self).spec_nodes().len(),
            old(self).spec_nodes()[parent as int].spec_is_dir(),
            dir ==> bytes == 0 && !unknown,
        ensures
            old(self).push_refusal(name.spec_bytes().len()) matches Some(m) ==> (r matches Err(e)
                && e@ == m && *final(self) == *old(self)),
            old(self).push_refusal(name.spec_bytes().len()) is None ==> (r matches Ok(id) && {
                &&& id == old(self).spec_nodes().len()
                &&& final(self).records_ready()
                &&& final(self).folders == old(self).folders
                &&& final(self).spec_nodes() == old(self).spec_nodes().push(
                    Node {
                        bytes,
                        name_offset: old(self).spec_names().len() as u32,
                        name_len: name.spec_bytes().len() as u16,
                        parent,
                        kind: if dir {
                            DIRECTORY
                        } else {
                            0
                        },
                        flags: if unknown {
                            UNKNOWN_SIZE
                        } else {
                            0
                        },
                        directory: if dir {
                            dir_count(old(self).spec_nodes()) as u32
                        } else {
                            0
                        },
                    },
                )
                &&& final(self).spec_names() == old(self).spec_names() + name.spec_bytes()
                &&& final(self).spec_unknown_sizes() == old(self).spec_unknown_sizes() + if unknown {
                    1int
                } else {
                    0int
                }
                &&& old(self).grows_into(final(self))
            }),
    {
        let name_bytes_ref = name.as_bytes();
        if self.nodes.len() > u32::MAX as usize {
            return Err("The 32-bit node ID capacity has been reached.".to_string());
        }
        let id = self.nodes.len() as u32;
        if self.names.len() > u32::MAX as usize {
            return Err("The filename pool exceeded 4 GiB.".to_string());
        }
        let offset = self.names.len() as u32;
        if name_bytes_ref.len() > u16::MAX as usize {
            return Err("A filename is too long to represent.".to_string());
        }
        let len = name_bytes_ref.len() as u16;
        if name_bytes_ref.len() > (u32::MAX as usize) - self.names.len() {
            return Err("The filename pool exceeded 4 GiB.".to_string());
        }
        let ghost old_nodes = self.nodes@;
        let ghost old_names = self.names@;
        let ghost old_dirs = self.directories@;
        proof {
            lemma_dir_count_le(old_nodes);
            lemma_unknown_count_le(old_nodes);
            lemma_kid_count_le(old_nodes, parent as int, old_nodes.len() as int);
            lemma_dir_index_below_count(old_nodes, parent as int);
            assert(record_ok(old_nodes, parent as int));
            encode_utf8_valid_utf8(name@);
        }
        let directory = if dir {
            if self.directories.len() > u32::MAX as usize {
                return Err("The directory ID capacity has been reached.".to_string());
            }
            let index = self.directories.len() as u32;
            self.directories.push(Directory { child_start: 0, child_count: 0, file_count: 0 });
            index
        } else {
            0  // Unused for files.

        };
        append_bytes(&mut self.names, name_bytes_ref);
        let node = Node {
            bytes,
            name_offset: offset,
            name_len: len,
            parent,
            kind: if dir {
                DIRECTORY
            } else {
                0
            },
            flags: if unknown {
                UNKNOWN_SIZE
            } else {
                0
            },
            directory,
        };
        let pd = self.nodes[parent as usize].directory as usize;
        self.nodes.push(node);
        if id != ROOT {
            let d = self.directories[pd];
            self.directories.set(
                pd,
                Directory { child_start: d.child_start, child_count: d.child_count + 1, file_count: d.file_count },
            );
        }
        if unknown {
            self.unknown_sizes = self.unknown_sizes + 1;
        }
        proof {
            lemma_push_records(old_nodes, node);
            lemma_push_dirs(old_nodes, old_dirs, node, self.directories@);
            lemma_push_names(old_nodes, old_names, node, name.spec_bytes());
            lemma_push_unknown(old_nodes, node);
            assert(self.names@.take(old_names.len() as int) =~= old_names);
            assert(self.nodes@.take(old_nodes.len() as int) =~= old_nodes);
            assert(records_ok(self.nodes@));
            assert(dirs_ok(self.nodes@, self.directories@));
            assert(names_ok(self.nodes@, self.names@));
            assert(self.unknown_sizes == unknown_count(self.nodes@));
            assert(self.records_ready());
            assert(self.names@ == old_names + name.spec_bytes());
        }
        Ok(id)
    }


    /// Lists folder `id`, just added with path `full`, under the hash of its path.
    fn list_folder(&mut self, id: Id, full: &[u8], Ghost(prev): Ghost<Builder>, Ghost(name): Ghost<Seq<u8>>)
        requires
            old(self).records_ready(),
            shaped(old(self).nodes@, old(self).names@),
            prev.inv(),
            old(self).nodes@ == prev.nodes@.push(old(self).nodes@.last()),
            old(self).names@ == prev.names@ + name,
            old(self).folders@ == prev.folders@,
            old(self).nodes@.last().spec_is_dir(),
            id == prev.nodes@.len(),
            path_bytes(old(self).nodes@, old(self).names@, id as int) == full@,
            absent(prev.nodes@, prev.names@, full@),
        ensures
            final(self).inv(),
            final(self).nodes@ == old(self).nodes@,
            final(self).names@ == old(self).names@,
            final(self).directories@ == old(self).directories@,
            final(self).unknown_sizes == old(self).unknown_sizes,
            forall|p: Seq<u8>|
                absent(prev.nodes@, prev.names@, p) && p != full@ ==> #[trigger] absent(
                    final(self).nodes@,
                    final(self).names@,
                    p,
                ),
    {
        broadcast use vstd::std_specs::hash::group_hash_axioms;

        let key = key_of(full);
        let ghost m0 = self.folders@;
        let mut bucket: Vec<Id> = match self.folders.remove(&key) {
            Some(v) => v,
            None => Vec::new(),
        };
        bucket.push(id);
        self.folders.insert(key, bucket);
        proof {
            let s0 = prev.nodes@;
            let x = self.nodes@.last();
            assert(self.folders@ =~= m0.insert(key, bucket));
            assert(names_inside(s0, prev.names@)) by {
                assert forall|i: int| 0 <= i < s0.len() implies #[trigger] s0[i].name_offset + s0[i].name_len
                    <= prev.names@.len() by {
                    assert(name_ok(prev.names@, s0[i]));
                }
            }
            lemma_folder_added(s0, prev.names@, name, x, m0, self.folders@, bucket, full@, full@);
            assert forall|p: Seq<u8>| absent(prev.nodes@, prev.names@, p) && p != full@ implies #[trigger] absent(
                self.nodes@,
                self.names@,
                p,
            ) by {
                lemma_folder_added(s0, prev.names@, name, x, m0, self.folders@, bucket, full@, p);
            }
        }
    }

    /// The folder whose path is `key`, the root aside, if there is one.
    fn lookup(&self, key: &[u8]) -> (r: Option<Id>)
        requires
            self.inv(),
        ensures
            r matches Some(id) ==> id < self.spec_nodes().len() && id != ROOT && self.spec_nodes()[id as int].spec_is_dir()
                && self.spec_path_bytes(id) == key@,
            r is None ==> absent(self.nodes@, self.names@, key@),
    {
        broadcast use vstd::std_specs::hash::group_hash_axioms;

        let k = key_of(key);
        match self.folders.get(&k) {
            None => {
                proof {
                    assert forall|i: int| 0 < i < self.nodes@.len() && (#[trigger] self.nodes@[i]).spec_is_dir() implies path_bytes(
                        self.nodes@,
                        self.names@,
                        i,
                    ) != key@ by {
                        if path_bytes(self.nodes@, self.names@, i) == key@ {
                            assert(self.folders@.contains_key(k));
                        }
                    }
                }
                None
            },
            Some(bucket) => {
                let mut t: usize = 0;
                while t < bucket.len()
                    invariant
                        self.inv(),
                        self.folders@.contains_key(k),
                        self.folders@[k] == *bucket,
                        k == crate::folder_index::path_key(key@),
                        t <= bucket@.len(),
                        forall|u: int|
                            0 <= u < t ==> !(#[trigger] bucket@[u] < self.spec_nodes().len() && bucket@[u] != ROOT
                                && self.spec_nodes()[bucket@[u] as int].spec_is_dir() && self.spec_path_bytes(
                                bucket@[u],
                            ) == key@),
                    decreases bucket@.len() - t,
                {
                    if self.path_is(bucket[t], key) {
                        return Some(bucket[t]);
                    }
                    t = t + 1;
                }
                proof {
                    assert forall|i: int| 0 < i < self.nodes@.len() && (#[trigger] self.nodes@[i]).spec_is_dir() implies path_bytes(
                        self.nodes@,
                        self.names@,
                        i,
                    ) != key@ by {
                        if path_bytes(self.nodes@, self.names@, i) == key@ {
                            assert(bucket@.contains(i as Id));
                            let u = choose|u: int| 0 <= u < bucket@.len() && bucket@[u] == i as Id;
                            assert(bucket@[u] == i as Id);
                            assert(self.spec_path_bytes(i as Id) == key@);
                        }
                    }
                }
                None
            },
        }
    }

    /// Whether `key` is the path of folder `id`, the root aside.
    fn path_is(&self, id: Id, key: &[u8]) -> (r: bool)
        requires
            self.inv(),
        ensures
            r == (id < self.spec_nodes().len() && id != ROOT && self.spec_nodes()[id as int].spec_is_dir()
                && self.spec_path_bytes(id) == key@),
    {
        if id == ROOT || id as usize >= self.nodes.len() || !self.nodes[id as usize].is_dir() {
            return false;
        }
        let ghost s = self.nodes@;
        let ghost names = self.names@;
        let mut cur = id;
        let mut end = key.len();
        proof {
            assert(key@.take(end as int) =~= key@);
        }
        loop
            invariant
                self.inv(),
                s == self.nodes@,
                names == self.names@,
                0 < cur < s.len(),
                0 < id < s.len(),
                s[id as int].spec_is_dir(),
                end <= key@.len(),
                (path_bytes(s, names, id as int) == key@) <==> (path_bytes(s, names, cur as int)
                    == key@.take(end as int)),
            decreases cur,
        {
            let n = self.nodes[cur as usize];
            proof {
                assert(name_ok(names, s[cur as int]));
                assert(s[cur as int].parent < cur);
            }
            let off = n.name_offset as usize;
            let len = n.name_len as usize;
            if len > end {
                proof {
                    lemma_path_bytes_len(s, names, cur as int);
                }
                return false;
            }
            let ghost nb = name_bytes(names, n);
            let ghost kt = key@.take(end as int);
            let ghost ks = kt.skip(end - len);
            let mut i: usize = 0;
            while i < len
                invariant
                    self.inv(),
                    s == self.nodes@,
                    0 < cur < s.len(),
                    0 < id < s.len(),
                    s[id as int].spec_is_dir(),
                    n == s[cur as int],
                    (path_bytes(s, names, id as int) == key@) <==> (path_bytes(s, names, cur as int)
                        == key@.take(end as int)),
                    i <= len <= end <= key@.len(),
                    off + len <= self.names.len(),
                    names == self.names@,
                    nb == name_bytes(names, n),
                    n.name_offset == off,
                    n.name_len == len,
                    kt == key@.take(end as int),
                    ks == kt.skip(end - len),
                    forall|t: int| 0 <= t < i ==> #[trigger] nb[t] == ks[t],
                decreases len - i,
            {
                if self.names[off + i] != key[end - len + i] {
                    proof {
                        assert(nb[i as int] != ks[i as int]);
                        lemma_path_bytes_suffix(s, names, cur as int, kt);
                    }
                    return false;
                }
                i = i + 1;
            }
            proof {
                assert(nb =~= ks);
            }
            if n.parent == ROOT {
                proof {
                    if end == len {
                        assert(kt =~= kt.skip(0));
                    }
                    lemma_path_bytes_len(s, names, cur as int);
                }
                proof {
                    assert(path_bytes(s, names, cur as int) == nb);
                    if end != len {
                        assert(nb.len() != kt.len());
                    }
                }
                return end == len;
            }
            if end == len || key[end - len - 1] != BACKSLASH {
                proof {
                    let pp = path_bytes(s, names, n.parent as int);
                    if path_bytes(s, names, cur as int) == kt {
                        assert(kt.len() == pp.len() + 1 + nb.len());
                        lemma_concat3_eq(pp, BACKSLASH, nb, kt);
                    }
                }
                return false;
            }
            proof {
                let pp = path_bytes(s, names, n.parent as int);
                let e2 = end - len - 1;
                if pp.len() == e2 {
                    lemma_concat3_eq(pp, BACKSLASH, nb, kt);
                    assert(kt.take(e2) =~= key@.take(e2));
                    assert(kt.skip(e2 + 1) =~= kt.skip(end - len));
                } else {
                    if path_bytes(s, names, cur as int) == kt {
                        assert(false);
                    }
                    if pp == key@.take(e2) {
                        assert(false);
                    }
                }
            }
            end = end - len - 1;
            cur = n.parent;
        }
    }

    /// Folder-only lookup table. Full file paths are never retained.
    /// Exact case is preserved, including on case-sensitive Windows directories.
    #[verifier::rlimit(100)]
    #[verifier::spinoff_prover]
    pub fn folder(&mut self, path: &str) -> (r: Result<Id, String>)
        requires
            old(self).inv(),
        ensures
            final(self).inv(),
            old(self).grows_into(final(self)),
            final(self).spec_unknown_sizes() == old(self).spec_unknown_sizes(),
            forall|i: int|
                old(self).spec_nodes().len() <= i < final(self).spec_nodes().len() ==> (#[trigger] final(self).spec_nodes()[i]).spec_is_dir(),
            r matches Ok(id) ==> id < final(self).spec_nodes().len() && final(self).spec_nodes()[id as int].spec_is_dir() && final(self).spec_path_bytes(id) == trim_seps(
                path.spec_bytes(),
            ),
            trim_seps(path.spec_bytes()).len() == 0 ==> r == Ok::<Id, String>(ROOT),
            trim_seps(path.spec_bytes()).len() > 0 ==> (r matches Ok(id) ==> {
                let t = trim_seps(path.spec_bytes());
                let n = final(self).spec_nodes()[id as int];
                &&& id != ROOT
                &&& has_parent_path(t) ==> n.parent != ROOT && final(self).spec_path_bytes(n.parent)
                    == parent_path(t)
                &&& !has_parent_path(t) ==> n.parent == ROOT
                &&& name_bytes(final(self).spec_names(), n) == last_name(t)
            }),
            forall|i: int|
                0 < i < old(self).spec_nodes().len() && (#[trigger] old(self).spec_nodes()[i]).spec_is_dir()
                    && trim_seps(path.spec_bytes()).len() > 0
                    && old(self).spec_path_bytes(i as Id) == trim_seps(path.spec_bytes()) ==> r == Ok::<
                    Id,
                    String,
                >(i as Id) && *final(self) == *old(self),
            r is Err ==> final(self).spec_nodes().len() > u32::MAX || path.spec_bytes().len() > u16::MAX
                || final(self).spec_names().len() + path.spec_bytes().len() > u32::MAX,
            r matches Err(e) ==> refusal_text(e@),
            final(self).spec_nodes().len() <= old(self).spec_nodes().len() + path.spec_bytes().len(),
            final(self).spec_names().len() <= old(self).spec_names().len() + path.spec_bytes().len(),
            r is Ok ==> {
                let nf = new_folders(old(self).spec_nodes(), old(self).spec_names(), trim_seps(path.spec_bytes()));
                &&& final(self).spec_nodes().len() == old(self).spec_nodes().len() + nf.len()
                &&& forall|j: int|
                    0 <= j < nf.len() ==> #[trigger] final(self).spec_path_bytes(
                        (old(self).spec_nodes().len() + j) as Id,
                    ) == nf[j]
            },
    {
        let trimmed = trim_trailing_seps(path);
        let ghost t = trimmed.spec_bytes();
        proof {
            old(self).lemma_grows_refl();
            lemma_trim_seps_len(old(self).spec_names(), path.spec_bytes());
            assert(t.len() <= path.spec_bytes().len());
        }
        if trimmed.as_bytes().len() == 0 {
            proof {
                reveal(new_folders);
                assert(new_folders(old(self).nodes@, old(self).names@, t) =~= Seq::<Seq<u8>>::empty());
            }
            return Ok(ROOT);
        }
        if let Some(id) = self.lookup(trimmed.as_bytes()) {
            proof {
                reveal(new_folders);
                assert(!crate::folder_index::absent(old(self).nodes@, old(self).names@, t)) by {
                    assert(old(self).nodes@[id as int].spec_is_dir());
                }
                assert(new_folders(old(self).nodes@, old(self).names@, t) =~= Seq::<Seq<u8>>::empty());
                old(self).lemma_grows_refl();
                assert forall|i: int|
                    0 < i < old(self).spec_nodes().len() && (#[trigger] old(self).spec_nodes()[i]).spec_is_dir()
                        && old(self).spec_path_bytes(i as Id) == t implies id == i as Id by {
                    assert(old(self).nodes@[id as int].spec_is_dir());
                }
                self.lemma_folder_place(id);
            }
            return Ok(id);
        }
        let mut missing: Vec<&str> = Vec::new();
        let mut rest: &str = trimmed;
        let mut parent: Id = ROOT;
        loop
            invariant_except_break
                self.inv(),
                rest.spec_bytes().len() > 0,
                new_folders(old(self).nodes@, old(self).names@, t) == new_folders(
                    old(self).nodes@,
                    old(self).names@,
                    rest.spec_bytes(),
                ) + byte_paths(missing@).reverse(),
                missing@.len() == 0 ==> rest.spec_bytes() == t,
                missing@.len() > 0 ==> missing@[0].spec_bytes() == t && cut_at_last_sep(
                    missing@.last().spec_bytes(),
                    rest.spec_bytes(),
                ),
                forall|k: int|
                    0 <= k < missing@.len() - 1 ==> cut_at_last_sep(
                        (#[trigger] missing@[k]).spec_bytes(),
                        missing@[k + 1].spec_bytes(),
                    ),
                forall|k: int|
                    0 <= k < missing@.len() ==> 0 < (#[trigger] missing@[k]).spec_bytes().len()
                        <= t.len(),
                rest.spec_bytes().len() <= t.len(),
                missing@.len() + rest.spec_bytes().len() <= t.len(),
                forall|k: int|
                    0 <= k < missing@.len() ==> absent(self.nodes@, self.names@, (#[trigger] missing@[k]).spec_bytes()),
                forall|j: int, k: int|
                    0 <= j < k < missing@.len() ==> (#[trigger] missing@[k]).spec_bytes().len() < (
                    #[trigger] missing@[j]).spec_bytes().len(),
                *self == *old(self),
                absent(old(self).nodes@, old(self).names@, t),
                forall|j: int|
                    0 <= j < missing@.len() - 1 ==> has_parent_path((#[trigger] missing@[j]).spec_bytes())
                        && parent_path(missing@[j].spec_bytes()) == missing@[j + 1].spec_bytes(),
                missing@.len() > 0 ==> has_parent_path(missing@.last().spec_bytes()) && parent_path(
                    missing@.last().spec_bytes(),
                ) == rest.spec_bytes(),
            ensures
                self.inv(),
                forall|k: int|
                    0 <= k < missing@.len() - 1 ==> cut_at_last_sep(
                        (#[trigger] missing@[k]).spec_bytes(),
                        missing@[k + 1].spec_bytes(),
                    ),
                forall|k: int|
                    0 <= k < missing@.len() ==> 0 < (#[trigger] missing@[k]).spec_bytes().len()
                        <= t.len(),
                missing@.len() > 0 ==> missing@[0].spec_bytes() == t,
                missing@.len() <= t.len(),
                new_folders(old(self).nodes@, old(self).names@, t) == byte_paths(missing@).reverse(),
                rest.spec_bytes().len() <= t.len(),
                forall|k: int|
                    0 <= k < missing@.len() ==> absent(self.nodes@, self.names@, (#[trigger] missing@[k]).spec_bytes()),
                forall|j: int, k: int|
                    0 <= j < k < missing@.len() ==> (#[trigger] missing@[k]).spec_bytes().len() < (
                    #[trigger] missing@[j]).spec_bytes().len(),
                *self == *old(self),
                absent(old(self).nodes@, old(self).names@, t),
                forall|j: int|
                    0 <= j < missing@.len() - 1 ==> has_parent_path((#[trigger] missing@[j]).spec_bytes())
                        && parent_path(missing@[j].spec_bytes()) == missing@[j + 1].spec_bytes(),
                parent == ROOT ==> !has_parent_path(missing@.last().spec_bytes()),
                parent != ROOT && missing@.len() > 0 ==> has_parent_path(missing@.last().spec_bytes())
                    && parent_path(missing@.last().spec_bytes()) == rest.spec_bytes(),
                parent == ROOT ==> missing@.len() > 0,
                parent != ROOT ==> {
                    &&& parent < self.spec_nodes().len()
                    &&& self.spec_nodes()[parent as int].spec_is_dir()
                    &&& self.spec_path_bytes(parent) == rest.spec_bytes()
                    &&& missing@.len() == 0 ==> rest.spec_bytes() == t
                    &&& missing@.len() > 0 ==> cut_at_last_sep(
                        missing@.last().spec_bytes(),
                        rest.spec_bytes(),
                    )
                },
            decreases rest.spec_bytes().len(),
        {
            let rb = rest.as_bytes();
            if let Some(id) = self.lookup(rb) {
                proof {
                    reveal(new_folders);
                    assert(!crate::folder_index::absent(old(self).nodes@, old(self).names@, rest.spec_bytes())) by {
                        assert(old(self).nodes@[id as int].spec_is_dir());
                    }
                    assert(byte_paths(missing@).reverse() =~= Seq::<Seq<u8>>::empty() + byte_paths(
                        missing@,
                    ).reverse());
                }
                parent = id;
                break ;
            }
            let ghost before = missing@;
            let ghost rest_before = rest.spec_bytes();
            missing.push(rest);
            proof {
                assert(crate::folder_index::absent(old(self).nodes@, old(self).names@, rest_before));
                assert(byte_paths(missing@).reverse() =~= seq![rest_before] + byte_paths(before).reverse()) by {
                    assert(byte_paths(missing@) =~= byte_paths(before).push(rest_before));
                }
            }
            proof {
                assert(missing@.last() == rest);
                if before.len() > 0 {
                    lemma_cut_shorter(before.last().spec_bytes(), rest.spec_bytes());
                }
                assert forall|k: int| 0 <= k < missing@.len() implies absent(
                    self.nodes@,
                    self.names@,
                    (#[trigger] missing@[k]).spec_bytes(),
                ) by {
                    if k < before.len() {
                        assert(missing@[k] == before[k]);
                    }
                }
                assert forall|j: int, k: int| 0 <= j < k < missing@.len() implies (
                #[trigger] missing@[k]).spec_bytes().len() < (#[trigger] missing@[j]).spec_bytes().len() by {
                    assert(missing@[j] == before[j]);
                    if k < before.len() {
                        assert(missing@[k] == before[k]);
                    } else {
                        if j < before.len() - 1 {
                            assert(before[before.len() - 1].spec_bytes().len() < before[j].spec_bytes().len());
                        }
                    }
                }
                assert forall|k: int| 0 <= k < missing@.len() - 1 implies cut_at_last_sep(
                    (#[trigger] missing@[k]).spec_bytes(),
                    missing@[k + 1].spec_bytes(),
                ) by {
                    if k < before.len() - 1 {
                        assert(missing@[k] == before[k]);
                        assert(missing@[k + 1] == before[k + 1]);
                    } else {
                        assert(missing@[k] == before.last());
                    }
                }
                assert(missing@[0].spec_bytes() == t);
                assert forall|j: int| 0 <= j < missing@.len() - 1 implies has_parent_path(
                    (#[trigger] missing@[j]).spec_bytes(),
                ) && parent_path(missing@[j].spec_bytes()) == missing@[j + 1].spec_bytes() by {
                    assert(missing@[j] == before[j]);
                    if j < before.len() - 1 {
                        assert(missing@[j + 1] == before[j + 1]);
                    } else {
                        assert(missing@[j + 1] == rest);
                    }
                }
            }
            let re = root_end(rb);
            let found = rfind_sep(rb, rb.len());
            let split = match found {
                Some(pos) => if pos >= re && pos > 0 {
                    Some(pos)
                } else {
                    None
                },
                None => None,
            };
            match split {
                Some(pos) => {
                    proof {
                        assert(rb@.take(rb@.len() as int) =~= rb@);
                        encode_utf8_valid_utf8(rest@);
                        crate::utf8_text::lemma_prefix_before_ascii(rb@, pos as int);
                    }
                    let (head, _) = rest.split_at(pos);
                    proof {
                        assert(last_sep_at(rest.spec_bytes(), pos as int));
                        assert(head.spec_bytes() == rest.spec_bytes().take(pos as int));
                        lemma_parent_cut(rest.spec_bytes(), pos as int);
                        reveal(new_folders);
                        assert(new_folders(old(self).nodes@, old(self).names@, rest_before) == new_folders(
                            old(self).nodes@,
                            old(self).names@,
                            head.spec_bytes(),
                        ) + seq![rest_before]);
                        assert(new_folders(old(self).nodes@, old(self).names@, t) =~= new_folders(
                            old(self).nodes@,
                            old(self).names@,
                            head.spec_bytes(),
                        ) + byte_paths(missing@).reverse());
                    }
                    rest = head;
                },
                None => {
                    proof {
                        assert(rb@.take(rb@.len() as int) =~= rb@);
                        if has_parent_path(rb@) {
                            let p = parent_end(rb@);
                            assert(parent_cut_at(rb@, p));
                            assert(rb@[p] == BACKSLASH);
                            match found {
                                Some(pos) => {
                                    lemma_last_sep_unique(rb@, p, pos as int);
                                },
                                None => {},
                            }
                        }
                    }
                    proof {
                        reveal(new_folders);
                        assert(!has_parent_path(rest_before));
                        assert(new_folders(old(self).nodes@, old(self).names@, rest_before) == seq![rest_before]);
                        assert(new_folders(old(self).nodes@, old(self).names@, t) =~= byte_paths(missing@).reverse());
                    }
                    parent = ROOT;
                    break ;
                },
            }
        }
        let ghost want = rest.spec_bytes();
        let r = self.create_missing(&missing, parent, path, Ghost(t), Ghost(want));
        match r {
            Ok(id) => {
                proof {
                    self.lemma_folder_place(id);
                    assert(byte_paths(missing@).reverse().len() == missing@.len());
                }
                Ok(id)
            },
            Err(e) => Err(e),
        }
    }

    /// Adds the folders `missing`, the last of them first and each later one
    /// inside the one before, the first inside `start`; `missing` runs from
    /// the path `t` up to the first folder that was not there.
    #[verifier::rlimit(100)]
    #[verifier::spinoff_prover]
    fn create_missing<'a>(
        &mut self,
        missing: &Vec<&'a str>,
        start: Id,
        path: &str,
        Ghost(t): Ghost<Seq<u8>>,
        Ghost(want0): Ghost<Seq<u8>>,
    ) -> (r: Result<Id, String>)
        requires
            old(self).inv(),
            missing@.len() <= t.len(),
            want0.len() <= t.len(),
            forall|j: int|
                0 <= j < missing@.len() - 1 ==> cut_at_last_sep(
                    (#[trigger] missing@[j]).spec_bytes(),
                    missing@[j + 1].spec_bytes(),
                ),
            forall|j: int| 0 <= j < missing@.len() ==> 0 < (#[trigger] missing@[j]).spec_bytes().len() <= t.len(),
            missing@.len() > 0 ==> missing@[0].spec_bytes() == t,
            t.len() <= path.spec_bytes().len(),
            t == trim_seps(path.spec_bytes()),
            t.len() > 0,
            start < old(self).spec_nodes().len(),
            old(self).spec_nodes()[start as int].spec_is_dir(),
            start == ROOT ==> missing@.len() > 0,
            start != ROOT ==> old(self).spec_path_bytes(start) == want0,
            start != ROOT && missing@.len() > 0 ==> cut_at_last_sep(missing@[missing@.len() - 1].spec_bytes(), want0),
            start != ROOT && missing@.len() == 0 ==> want0 == t,
            forall|j: int|
                0 <= j < missing@.len() ==> absent(old(self).nodes@, old(self).names@, (#[trigger] missing@[j]).spec_bytes()),
            absent(old(self).nodes@, old(self).names@, t),
            forall|j: int|
                0 <= j < missing@.len() - 1 ==> has_parent_path((#[trigger] missing@[j]).spec_bytes()) && parent_path(
                    missing@[j].spec_bytes(),
                ) == missing@[j + 1].spec_bytes(),
            start == ROOT ==> !has_parent_path(missing@[missing@.len() - 1].spec_bytes()),
            start != ROOT && missing@.len() > 0 ==> has_parent_path(missing@[missing@.len() - 1].spec_bytes())
                && parent_path(missing@[missing@.len() - 1].spec_bytes()) == want0,
            forall|j: int, l: int|
                0 <= j < l < missing@.len() ==> (#[trigger] missing@[l]).spec_bytes().len() < (
                #[trigger] missing@[j]).spec_bytes().len(),
        ensures
            final(self).inv(),
            old(self).grows_into(final(self)),
            final(self).spec_unknown_sizes() == old(self).spec_unknown_sizes(),
            forall|i: int|
                old(self).spec_nodes().len() <= i < final(self).spec_nodes().len() ==> (
                #[trigger] final(self).spec_nodes()[i]).spec_is_dir(),
            final(self).spec_nodes().len() <= old(self).spec_nodes().len() + missing@.len(),
            final(self).spec_names().len() <= old(self).spec_names().len() + t.len(),
            r is Ok ==> final(self).spec_nodes().len() == old(self).spec_nodes().len() + missing@.len(),
            r is Ok ==> forall|j: int|
                0 <= j < missing@.len() ==> #[trigger] final(self).spec_path_bytes(
                    (old(self).spec_nodes().len() + j) as Id,
                ) == byte_paths(missing@).reverse()[j],
            r matches Ok(id) ==> id != ROOT && id < final(self).spec_nodes().len()
                && final(self).spec_nodes()[id as int].spec_is_dir() && final(self).spec_path_bytes(id) == t,
            r is Err ==> final(self).spec_nodes().len() > u32::MAX || path.spec_bytes().len() > u16::MAX
                || final(self).spec_names().len() + path.spec_bytes().len() > u32::MAX,
            r matches Err(e) ==> refusal_text(e@),
    {
        let mut parent = start;
        let ghost mut want = want0;
        let ghost mut made: Seq<Seq<u8>> = Seq::empty();
        proof {
            old(self).lemma_grows_refl();
            reveal(made_from);
            reveal(Builder::made_at);
        }
        let mut k = missing.len();
        while k > 0
            invariant
                self.inv(),
                old(self).grows_into(self),
                self.spec_unknown_sizes() == old(self).spec_unknown_sizes(),
                forall|i: int|
                    old(self).spec_nodes().len() <= i < self.spec_nodes().len() ==> (
                    #[trigger] self.spec_nodes()[i]).spec_is_dir(),
                k <= missing@.len(),
                missing@.len() <= t.len(),
                want.len() <= t.len(),
                self.spec_nodes().len() + k == old(self).spec_nodes().len() + missing@.len(),
                made.len() + k == missing@.len(),
                made_from(made, byte_paths(missing@)),
                self.made_at(old(self).spec_nodes().len() as int, made),
                parent == ROOT ==> self.spec_names().len() == old(self).spec_names().len(),
                parent != ROOT ==> self.spec_names().len() <= old(self).spec_names().len() + want.len(),
                forall|j: int|
                    0 <= j < missing@.len() - 1 ==> cut_at_last_sep(
                        (#[trigger] missing@[j]).spec_bytes(),
                        missing@[j + 1].spec_bytes(),
                    ),
                forall|j: int|
                    0 <= j < missing@.len() ==> 0 < (#[trigger] missing@[j]).spec_bytes().len()
                        <= t.len(),
                missing@.len() > 0 ==> missing@[0].spec_bytes() == t,
                t.len() <= path.spec_bytes().len(),
                t == trim_seps(path.spec_bytes()),
                t.len() > 0,
                parent < self.spec_nodes().len(),
                self.spec_nodes()[parent as int].spec_is_dir(),
                parent == ROOT ==> k == missing@.len() && k > 0,
                parent != ROOT ==> self.spec_path_bytes(parent) == want,
                parent != ROOT && k > 0 ==> cut_at_last_sep(missing@[k - 1].spec_bytes(), want),
                parent != ROOT && k == 0 ==> want == t,
                forall|j: int|
                    0 <= j < k ==> absent(self.nodes@, self.names@, (#[trigger] missing@[j]).spec_bytes()),
                absent(old(self).nodes@, old(self).names@, t),
                forall|j: int|
                    0 <= j < missing@.len() - 1 ==> has_parent_path((#[trigger] missing@[j]).spec_bytes())
                        && parent_path(missing@[j].spec_bytes()) == missing@[j + 1].spec_bytes(),
                parent == ROOT ==> !has_parent_path(missing@[k - 1].spec_bytes()),
                parent != ROOT && k > 0 ==> has_parent_path(missing@[k - 1].spec_bytes()) && parent_path(
                    missing@[k - 1].spec_bytes(),
                ) == want,
                forall|j: int, l: int|
                    0 <= j < l < missing@.len() ==> (#[trigger] missing@[l]).spec_bytes().len() < (
                    #[trigger] missing@[j]).spec_bytes().len(),
            decreases k,
        {
            k = k - 1;
            let full = missing[k];
            let fb = full.as_bytes();
            proof {
                encode_utf8_valid_utf8(full@);
            }
            let name: &str = if parent == ROOT {
                full
            } else {
                match rfind_sep(fb, fb.len()) {
                    Some(p) => {
                        proof {
                            assert(fb@.take(fb@.len() as int) =~= fb@);
                            crate::utf8_text::lemma_ascii_is_boundary(fb@, p as int);
                            crate::utf8_text::lemma_next_boundary_after_ascii(fb@, p as int);
                        }
                        let (_, tail) = full.split_at(p + 1);
                        tail
                    },
                    None => full,
                }
            };
            let ghost before = *self;
            let ghost want_full = full.spec_bytes();
            proof {
                lemma_dir_count_le(before.spec_nodes());
                if parent != ROOT {
                    let p = choose|p: int| #[trigger] last_sep_at(full.spec_bytes(), p) && want
                        == full.spec_bytes().take(p);
                    assert(last_sep_at(full.spec_bytes(), p));
                    assert(name.spec_bytes() == full.spec_bytes().skip(p + 1));
                    assert(want == full.spec_bytes().take(p));
                    assert(name.spec_bytes().len() <= full.spec_bytes().len());
                    assert(name.spec_bytes().len() + want.len() + 1 == full.spec_bytes().len());
                } else {
                    assert(name == full);
                }
            }
            proof {
                assert(name.spec_bytes().len() <= full.spec_bytes().len());
                assert(name.spec_bytes().len() <= path.spec_bytes().len());
            }
            let id = match self.push(parent, name, 0, true, false) {
                Ok(id) => id,
                Err(e) => {
                    return Err(e);
                },
            };
            proof {
                let s0 = before.spec_nodes();
                let x = self.spec_nodes().last();
                assert(self.spec_nodes() == s0.push(x));
                if parent != ROOT {
                    let p = choose|p: int| #[trigger] last_sep_at(full.spec_bytes(), p) && want
                        == full.spec_bytes().take(p);
                    lemma_new_folder_path(s0, before.spec_names(), name.spec_bytes(), x, want_full, want, p);
                } else {
                    lemma_new_folder_path(s0, before.spec_names(), name.spec_bytes(), x, want_full, want, 0);
                }
                lemma_new_nodes_dirs(old(self).spec_nodes(), s0, x);
                old(self).lemma_grows_trans(&before, self);
                assert(self.spec_nodes()[parent as int] == s0[parent as int]);
                lemma_shape_kept(s0, before.spec_names(), name.spec_bytes(), x, want_full);
            }
            let ghost pushed = *self;
            self.list_folder(id, fb, Ghost(before), Ghost(name.spec_bytes()));
            assert(self.spec_nodes().len() == pushed.spec_nodes().len() && pushed.spec_nodes().len()
                == before.spec_nodes().len() + 1 && self.spec_names().len() <= old(self).spec_names().len()
                + want_full.len()) by {
                assert(pushed.spec_nodes().len() == before.spec_nodes().len() + 1);
                assert(pushed.spec_names().len() == before.spec_names().len() + name.spec_bytes().len());
                assert(self.spec_nodes() == pushed.spec_nodes());
                assert(self.spec_names() == pushed.spec_names());
            }
            proof {
                assert forall|j: int| 0 <= j < k implies absent(self.nodes@, self.names@, (#[trigger] missing@[j]).spec_bytes()) by {
                    assert(missing@[j].spec_bytes().len() > want_full.len());
                }
            }
            parent = id;
            proof {
                want = want_full;
                before.lemma_made_grows(self, old(self).spec_nodes().len() as int, made, want_full);
                let ghost made_before = made;
                made = made.push(want_full);
                assert(made_from(made, byte_paths(missing@))) by {
                    reveal(made_from);
                    assert forall|j: int| 0 <= j < made.len() implies #[trigger] made[j] == byte_paths(missing@)[
                        byte_paths(missing@).len() - 1 - j] by {
                        if j < made_before.len() {
                            assert(made[j] == made_before[j]);
                        }
                    }
                }
            }
        }
        proof {
            reveal(made_from);
            reveal(Builder::made_at);
            assert(made =~= byte_paths(missing@).reverse());
        }
        Ok(parent)
    }

    pub fn add_file(&mut self, parent: Id, name: &str, bytes: Option<u64>) -> (r: Result<Id, String>)
        requires
            old(self).inv(),
            parent < old(self).spec_nodes().len(),
            old(self).spec_nodes()[parent as int].spec_is_dir(),
        ensures
            r matches Err(e) ==> refusal_text(e@),
            old(self).push_refusal(name.spec_bytes().len()) matches Some(m) ==> (r matches Err(e)
                && e@ == m && *final(self) == *old(self)),
            old(self).push_refusal(name.spec_bytes().len()) is None ==> (r matches Ok(id) && {
                &&& id == old(self).spec_nodes().len()
                &&& final(self).inv()
                &&& final(self).spec_nodes() == old(self).spec_nodes().push(
                    Node {
                        bytes: match bytes {
                            Some(b) => b,
                            None => 0,
                        },
                        name_offset: old(self).spec_names().len() as u32,
                        name_len: name.spec_bytes().len() as u16,
                        parent,
                        kind: 0,
                        flags: if bytes is None {
                            UNKNOWN_SIZE
                        } else {
                            0
                        },
                        directory: 0,
                    },
                )
                &&& final(self).spec_names() == old(self).spec_names() + name.spec_bytes()
                &&& final(self).spec_unknown_sizes() == old(self).spec_unknown_sizes() + if bytes is None {
                    1int
                } else {
                    0int
                }
                &&& old(self).grows_into(final(self))
            }),
    {
        let size = match bytes {
            Some(b) => b,
            None => 0,
        };
        let ghost before = *self;
        let r = self.push(parent, name, size, false, bytes.is_none());
        proof {
            if r is Ok {
                let x = self.nodes@.last();
                assert(self.nodes@ == before.nodes@.push(x));
                assert(names_inside(before.nodes@, before.names@)) by {
                    assert forall|i: int| 0 <= i < before.nodes@.len() implies #[trigger] before.nodes@[i].name_offset
                        + before.nodes@[i].name_len <= before.names@.len() by {
                        assert(name_ok(before.names@, before.nodes@[i]));
                    }
                }
                lemma_file_added(before.nodes@, before.names@, name.spec_bytes(), x, before.folders@, Seq::empty());
                lemma_shape_kept(before.nodes@, before.names@, name.spec_bytes(), x, Seq::empty());
            }
        }
        r
    }

    /// Adds the folder totals, builds the child index, and sorts every
    /// folder's children largest first with their running totals.
    pub fn finish<F: Fn(&str, usize, usize)>(self, cancel: &AtomicBool, progress: F) -> (r: Result<
        Dataset,
        String,
    >)
        requires
            self.inv(),
            forall|m: &str, a: usize, b: usize| progress.requires((m, a, b)),
        ensures
            r matches Ok(d) ==> built(
                self.spec_nodes(),
                self.spec_names(),
                self.spec_unknown_sizes(),
                d,
            ) && d.wf(),
            r matches Ok(d) ==> d.spec_file_count(ROOT) == crate::totals::file_records(self.spec_nodes())
                && d.nodes@[ROOT as int].bytes == crate::totals::total_bytes(self.spec_nodes()),
            r matches Err(e) ==> finish_refusal(self.spec_nodes(), e@),
            r matches Err(e) ==> e@ == "Cancelled"@ || crate::totals::total_bytes(self.spec_nodes()) > u64::MAX
                || crate::totals::file_records(self.spec_nodes()) > u32::MAX,
            crate::totals::total_bytes(self.spec_nodes()) <= u64::MAX && crate::totals::file_records(
                self.spec_nodes(),
            ) <= u32::MAX ==> (r is Ok || (r matches Err(e) && e@ == "Cancelled"@)),
            self.spec_nodes().len() <= 65536 && (crate::totals::total_bytes(self.spec_nodes()) > u64::MAX
                || crate::totals::file_records(self.spec_nodes()) > u32::MAX) ==> (r matches Err(e) && e@
                != "Cancelled"@),
    {
        let ghost s = self.nodes@;
        proof {
            crate::totals::lemma_overflow_is_total(s);
        }
        let mut nodes = self.nodes;
        let mut directories = self.directories;
        let names = self.names;
        let unknown_sizes = self.unknown_sizes;
        let count = nodes.len();
        progress("Adding folder totals", 0, count);
        let ghost d_start = directories@;
        match add_totals(&mut nodes, &mut directories, cancel) {
            Ok(()) => {},
            Err(e) => {
                return Err(e);
            },
        }
        proof {
            assert forall|j: int|
                0 <= j < s.len() implies (#[trigger] nodes@[j]).parent == s[j].parent
                && nodes@[j].directory == s[j].directory && nodes@[j].kind == s[j].kind by {
                assert(nodes@[j] == with_totals(s, j));
            }
            assert forall|j: int| 0 <= j < s.len() && (#[trigger] s[j]).spec_is_dir() implies directories@[s[
                j].directory as int].child_start == 0 && directories@[s[j].directory as int].child_count
                == kid_count(s, j, s.len() as int) by {
                lemma_kid_count_le(s, j, s.len() as int);
            }
            assert(crate::finish::counts_ok(s, directories@));
        }
        progress("Building child index", 0, count);
        let ghost d_totalled = directories@;
        let mut children = match index_children(&nodes, &mut directories, cancel, Ghost(s)) {
            Ok(c) => c,
            Err(e) => {
                return Err(e);
            },
        };
        proof {
            assert forall|j: int| 0 <= j < s.len() && (#[trigger] s[j]).spec_is_dir() implies {
                let d = s[j].directory as int;
                &&& directories@[d].child_start == crate::finish::below(s, d, s.len() as int)
                &&& directories@[d].child_count == kid_count(s, j, s.len() as int)
            } by {
                lemma_kid_count_le(s, j, s.len() as int);
                crate::finish::lemma_below_le(s, s[j].directory as int, s.len() as int);
            }
            assert(crate::finish::index_ok(s, directories@, children@));
        }
        progress("Sorting folders by size", 0, directories.len());
        let prefix_bytes = match sort_and_sum(&nodes, &directories, &mut children, cancel, &progress, Ghost(s)) {
            Ok(p) => p,
            Err(e) => {
                return Err(e);
            },
        };
        let d = Dataset {
            nodes,
            directories,
            names,
            children,
            prefix_bytes,
            source: String::new(),
            query: String::new(),
            elapsed: zero_duration(),
            unknown_sizes,
            synthetic: false,
            import_peak_memory: 0,
            load_stats: LoadStats::zero(),
            capture_note: String::new(),
        };
        proof {
            crate::finished::lemma_finished_wf(s, d.names@, unknown_sizes, d);
            crate::finished::lemma_finished_files(s, d.names@, unknown_sizes, d);
        }
        Ok(d)
    }
}

/// `parts` (leaf first) joined root first, with a backslash between names.
pub open spec fn joined(parts: Seq<&str>) -> Seq<char>
    decreases parts.len(),
{
    if parts.len() == 0 {
        Seq::empty()
    } else if parts.len() == 1 {
        parts[0]@
    } else {
        joined(parts.drop_first()) + seq!['\\'] + parts[0]@
    }
}

proof fn lemma_joined_push(parts: Seq<&str>, top: &str)
    requires
        parts.len() > 0,
    ensures
        joined(parts.push(top)) == top@ + seq!['\\'] + joined(parts),
    decreases parts.len(),
{
    let s = parts.push(top);
    assert(s.len() >= 2);
    assert(s[0] == parts[0]);
    if parts.len() == 1 {
        assert(s.drop_first() =~= seq![top]);
        assert(joined(seq![top]) == top@);
        assert(joined(parts) == parts[0]@);
    } else {
        assert(s.drop_first() =~= parts.drop_first().push(top));
        lemma_joined_push(parts.drop_first(), top);
        assert(joined(parts) == joined(parts.drop_first()) + seq!['\\'] + parts[0]@);
    }
}

} // verus!
