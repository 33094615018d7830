//! The index that finds a folder by its path: folders listed under a 64-bit
//! hash of their path's bytes. Every folder is listed under the hash of its
//! path, and no two folders share a path.
use crate::model::{lemma_path_bytes_push, parents_ok, path_bytes, Id, Node};
use vstd::prelude::*;

verus! {

/// Where the path hash starts.
pub const KEY_START: u64 = 14695981039346656037;

/// What the path hash multiplies by after each byte.
pub const KEY_FACTOR: u64 = 1099511628211;

/// The 64-bit FNV-1a hash of the bytes of a path.
pub open spec fn path_key(b: Seq<u8>) -> u64
    decreases b.len(),
{
    if b.len() == 0 {
        KEY_START
    } else {
        vstd::wrapping::u64_specs::wrapping_mul(path_key(b.drop_last()) ^ (b.last() as u64), KEY_FACTOR)
    }
}

/// The hash of the bytes of a path.
pub fn key_of(b: &[u8]) -> (r: u64)
    ensures
        r == path_key(b@),
{
    let mut h: u64 = KEY_START;
    let mut k: usize = 0;
    while k < b.len()
        invariant
            k <= b@.len(),
            h == path_key(b@.take(k as int)),
        decreases b@.len() - k,
    {
        h = (h ^ (b[k] as u64)).wrapping_mul(KEY_FACTOR);
        proof {
            assert(b@.take(k + 1).drop_last() =~= b@.take(k as int));
        }
        k = k + 1;
    }
    proof {
        assert(b@.take(b@.len() as int) =~= b@);
    }
    h
}

/// Every folder but the root is listed under the hash of its path.
pub open spec fn indexed(s: Seq<Node>, names: Seq<u8>, m: Map<u64, Vec<Id>>) -> bool {
    forall|i: int|
        0 < i < s.len() && (#[trigger] s[i]).spec_is_dir() ==> {
            let k = path_key(path_bytes(s, names, i));
            m.contains_key(k) && m[k]@.contains(i as Id)
        }
}

/// No two folders but the root share a path.
pub open spec fn paths_unique(s: Seq<Node>, names: Seq<u8>) -> bool {
    forall|i: int, j: int|
        0 < i < s.len() && 0 < j < s.len() && (#[trigger] s[i]).spec_is_dir() && (#[trigger] s[j]).spec_is_dir()
            && path_bytes(s, names, i) == path_bytes(s, names, j) ==> i == j
}

/// No folder but the root has the path `p`.
pub open spec fn absent(s: Seq<Node>, names: Seq<u8>, p: Seq<u8>) -> bool {
    forall|i: int| 0 < i < s.len() && (#[trigger] s[i]).spec_is_dir() ==> path_bytes(s, names, i) != p
}

/// The names of the records lie inside the name pool.
pub open spec fn names_inside(s: Seq<Node>, names: Seq<u8>) -> bool {
    forall|i: int| 0 <= i < s.len() ==> #[trigger] s[i].name_offset + s[i].name_len <= names.len()
}

/// A file added at the end changes neither the index nor which paths the
/// folders have.
pub proof fn lemma_file_added(s: Seq<Node>, names: Seq<u8>, extra: Seq<u8>, x: Node, m: Map<u64, Vec<Id>>, p: Seq<u8>)
    requires
        indexed(s, names, m),
        paths_unique(s, names),
        parents_ok(s),
        names_inside(s, names),
        !x.spec_is_dir(),
    ensures
        indexed(s.push(x), names + extra, m),
        paths_unique(s.push(x), names + extra),
        absent(s, names, p) ==> absent(s.push(x), names + extra, p),
{
    let t = s.push(x);
    let more = names + extra;
    assert forall|i: int| 0 <= i < s.len() implies #[trigger] path_bytes(t, more, i) == path_bytes(s, names, i) by {
        lemma_path_bytes_push(s, names, extra, x, i);
    }
    assert forall|i: int| 0 < i < t.len() && (#[trigger] t[i]).spec_is_dir() implies {
        let k = path_key(path_bytes(t, more, i));
        m.contains_key(k) && m[k]@.contains(i as Id)
    } by {
        assert(t[i] == s[i]);
        assert(path_bytes(t, more, i) == path_bytes(s, names, i));
    }
    assert forall|i: int, j: int|
        0 < i < t.len() && 0 < j < t.len() && (#[trigger] t[i]).spec_is_dir() && (#[trigger] t[j]).spec_is_dir()
            && path_bytes(t, more, i) == path_bytes(t, more, j) implies i == j by {
        assert(t[i] == s[i]);
        assert(t[j] == s[j]);
        assert(path_bytes(t, more, i) == path_bytes(s, names, i));
        assert(path_bytes(t, more, j) == path_bytes(s, names, j));
    }
    if absent(s, names, p) {
        assert forall|i: int| 0 < i < t.len() && (#[trigger] t[i]).spec_is_dir() implies path_bytes(t, more, i) != p by {
            assert(t[i] == s[i]);
            assert(path_bytes(t, more, i) == path_bytes(s, names, i));
        }
    }
}

/// A folder added at the end with a path no folder had, and listed under
/// its hash, keeps the index whole and the paths distinct; paths that were
/// absent stay absent unless they are the new folder's.
pub proof fn lemma_folder_added(
    s: Seq<Node>,
    names: Seq<u8>,
    extra: Seq<u8>,
    x: Node,
    m0: Map<u64, Vec<Id>>,
    m1: Map<u64, Vec<Id>>,
    bucket: Vec<Id>,
    full: Seq<u8>,
    p: Seq<u8>,
)
    requires
        indexed(s, names, m0),
        paths_unique(s, names),
        parents_ok(s),
        names_inside(s, names),
        x.spec_is_dir(),
        path_bytes(s.push(x), names + extra, s.len() as int) == full,
        absent(s, names, full),
        m1 == m0.insert(path_key(full), bucket),
        bucket@ == (if m0.contains_key(path_key(full)) {
            m0[path_key(full)]@
        } else {
            Seq::<Id>::empty()
        }).push(s.len() as Id),
    ensures
        indexed(s.push(x), names + extra, m1),
        paths_unique(s.push(x), names + extra),
        absent(s, names, p) && p != full ==> absent(s.push(x), names + extra, p),
{
    let t = s.push(x);
    let more = names + extra;
    let n = s.len() as int;
    let kf = path_key(full);
    assert forall|i: int| 0 <= i < s.len() implies #[trigger] path_bytes(t, more, i) == path_bytes(s, names, i) by {
        lemma_path_bytes_push(s, names, extra, x, i);
    }
    assert forall|i: int| 0 < i < t.len() && (#[trigger] t[i]).spec_is_dir() implies {
        let k = path_key(path_bytes(t, more, i));
        m1.contains_key(k) && m1[k]@.contains(i as Id)
    } by {
        if i == n {
            assert(bucket@[bucket@.len() - 1] == n as Id);
        } else {
            assert(t[i] == s[i]);
            assert(path_bytes(t, more, i) == path_bytes(s, names, i));
            let k = path_key(path_bytes(s, names, i));
            if k == kf {
                let j = choose|j: int| 0 <= j < m0[k]@.len() && m0[k]@[j] == i as Id;
                assert(bucket@[j] == i as Id);
            }
        }
    }
    assert forall|i: int, j: int|
        0 < i < t.len() && 0 < j < t.len() && (#[trigger] t[i]).spec_is_dir() && (#[trigger] t[j]).spec_is_dir()
            && path_bytes(t, more, i) == path_bytes(t, more, j) implies i == j by {
        if i < n {
            assert(t[i] == s[i]);
            assert(path_bytes(t, more, i) == path_bytes(s, names, i));
        }
        if j < n {
            assert(t[j] == s[j]);
            assert(path_bytes(t, more, j) == path_bytes(s, names, j));
        }
    }
    if absent(s, names, p) && p != full {
        assert forall|i: int| 0 < i < t.len() && (#[trigger] t[i]).spec_is_dir() implies path_bytes(t, more, i) != p by {
            if i < n {
                assert(t[i] == s[i]);
                assert(path_bytes(t, more, i) == path_bytes(s, names, i));
            }
        }
    }
}

} // verus!
