//! A generated hierarchy for trying the viewer without an index: folders of
//! eight kinds, files with pseudo-random sizes and one large file in 997.
use crate::cancel::cancelled;
use crate::clock::{now, since};
use crate::finish::finish_refusal;
use crate::model::{dir_count, name_bytes, path_bytes, refusal_text, trim_seps, Builder, Dataset, Id, Node, ROOT};
use crate::numbers::padded;
use crate::numbers::push_padded;
use crate::totals::{
    file_records, lemma_bytes_push, lemma_bytes_zero_added, lemma_files_folders_added, lemma_files_push,
    total_bytes,
};
use std::sync::atomic::AtomicBool;
use vstd::prelude::*;
use vstd::utf8::encode_utf8;
use vstd::string::StringExecFns;

verus! {

/// Why generating a sample hierarchy can stop: a cancel request, a limit of
/// the builder, or a total that does not fit.
pub open spec fn sample_refusal(e: Seq<char>) -> bool {
    ||| e == "Cancelled"@
    ||| refusal_text(e)
    ||| e == "The total byte count overflowed u64."@
    ||| e == "The file count overflowed u32."@
}

/// The size of sample file `i` of kind `category`, drawn from `seed`.
pub open spec fn sample_size(i: int, category: int, seed: u64) -> u64 {
    if i % 997 == 0 {
        ((seed % 8000 + 500) * 1048576) as u64
    } else {
        let weight: u64 = if category == 1 {
            64
        } else if category == 2 || category == 4 {
            16
        } else if category == 3 {
            8
        } else if category == 5 {
            2
        } else {
            1
        };
        ((seed % 500000 + 256) * weight) as u64
    }
}

/// The folder name of sample kind `k`.
pub open spec fn kind_folder(k: int) -> Seq<char> {
    if k == 0 {
        "Projects"@
    } else if k == 1 {
        "Video"@
    } else if k == 2 {
        "Games"@
    } else if k == 3 {
        "Photos"@
    } else if k == 4 {
        "Archives"@
    } else if k == 5 {
        "Applications"@
    } else if k == 6 {
        "Documents"@
    } else {
        "Cache"@
    }
}

/// The file extension of sample kind `k`.
pub open spec fn kind_extension(k: int) -> Seq<char> {
    if k == 0 {
        "rs"@
    } else if k == 1 {
        "mp4"@
    } else if k == 2 {
        "pak"@
    } else if k == 3 {
        "jpg"@
    } else if k == 4 {
        "zip"@
    } else if k == 5 {
        "dll"@
    } else if k == 6 {
        "pdf"@
    } else {
        "bin"@
    }
}

/// One step of the generator that draws the sample sizes.
pub open spec fn next_seed(s: u64) -> u64 {
    let a = s ^ (s << 13u64);
    let b = a ^ (a >> 7u64);
    b ^ (b << 17u64)
}

/// The generator's state after `i` steps from its fixed start.
pub open spec fn seed_after(i: nat) -> u64
    decreases i,
{
    if i == 0 {
        0x123456789abcdefu64
    } else {
        next_seed(seed_after((i - 1) as nat))
    }
}

/// How many folders a mixed sample of `files` files spreads them over: one per
/// 256 files, at least 8 and at most 200000.
pub open spec fn sample_folders(files: int) -> int {
    if files / 256 < 8 {
        8
    } else if files / 256 > 200000 {
        200000
    } else {
        files / 256
    }
}

/// The kind of sample file `i` of `files`.
pub open spec fn sample_kind(i: int, files: int, flat: bool) -> int {
    if flat {
        i % 8
    } else {
        (i % sample_folders(files)) % 8
    }
}

/// The total size of the first `n` sample files of `files`: file `i` has
/// `sample_size` of its kind, drawn after `i + 1` generator steps.
pub open spec fn sample_bytes(n: nat, files: int, flat: bool) -> int
    decreases n,
{
    if n == 0 {
        0
    } else {
        sample_bytes((n - 1) as nat, files, flat) + sample_size(
            n - 1,
            sample_kind(n - 1, files, flat),
            seed_after(n),
        )
    }
}

/// Every sample file has at least 256 bytes, so `n` files have at least
/// `256 * n`.
pub proof fn lemma_sample_bytes_floor(n: nat, files: int, flat: bool)
    ensures
        sample_bytes(n, files, flat) >= 256 * n,
    decreases n,
{
    if n > 0 {
        lemma_sample_bytes_floor((n - 1) as nat, files, flat);
        let i = n - 1;
        let seed = seed_after(n);
        let k = sample_kind(i, files, flat);
        if i % 997 != 0 {
            let weight: u64 = if k == 1 {
                64
            } else if k == 2 || k == 4 {
                16
            } else if k == 3 {
                8
            } else if k == 5 {
                2
            } else {
                1
            };
            let base = seed % 500000 + 256;
            assert(256 <= base * weight <= 500255 * 64) by (nonlinear_arith)
                requires
                    256 <= base <= 500255,
                    1 <= weight <= 64,
            ;
        } else {
            assert(256 <= (seed % 8000 + 500) * 1048576 <= 8500 * 1048576) by (nonlinear_arith);
        }
    }
}

/// The folder of sample batch `k`.
pub open spec fn batch_path(k: int) -> Seq<char> {
    "DEMO:\\"@ + kind_folder(k % 8) + "\\Collection "@ + padded((k / 128) as nat, 4) + "\\Batch "@ + padded(
        (k % 128) as nat,
        3,
    )
}

/// The folder of sample file `i` of `files`: the one folder of a flat sample,
/// else batch `i` modulo the number of batches.
pub open spec fn sample_folder_path(i: int, files: int, flat: bool) -> Seq<char> {
    if flat {
        "DEMO:\\One million siblings"@
    } else {
        batch_path(i % sample_folders(files))
    }
}

/// The name of sample file `i` of `files`.
pub open spec fn sample_name(i: int, files: int, flat: bool) -> Seq<char> {
    "file_"@ + padded(i as nat, 8) + "."@ + kind_extension(sample_kind(i, files, flat))
}

/// Record `j` of `nodes` with names `names` is sample file `i` of `files`:
/// a file of its size, with its name, in its folder.
pub open spec fn sample_file(nodes: Seq<Node>, names: Seq<u8>, j: int, i: int, files: int, flat: bool) -> bool {
    let n = nodes[j];
    &&& !n.spec_is_dir()
    &&& n.bytes == sample_size(i, sample_kind(i, files, flat), seed_after((i + 1) as nat))
    &&& n.flags == 0
    &&& name_bytes(names, n) == encode_utf8(sample_name(i, files, flat))
    &&& path_bytes(nodes, names, n.parent as int) == trim_seps(encode_utf8(sample_folder_path(i, files, flat)))
}

/// Every sample file has at least 256 bytes.
pub proof fn lemma_sample_size_floor(i: int, k: int, seed: u64)
    ensures
        sample_size(i, k, seed) >= 256,
{
    if i % 997 != 0 {
        let weight: u64 = if k == 1 {
            64
        } else if k == 2 || k == 4 {
            16
        } else if k == 3 {
            8
        } else if k == 5 {
            2
        } else {
            1
        };
        let base = seed % 500000 + 256;
        assert(256 <= base * weight <= 500255 * 64) by (nonlinear_arith)
            requires
                256 <= base <= 500255,
                1 <= weight <= 64,
        ;
    } else {
        assert(256 <= (seed % 8000 + 500) * 1048576 <= 8500 * 1048576) by (nonlinear_arith);
    }
}

/// Records that agree on names and parents have the same paths.
proof fn lemma_paths_kept(s: Seq<Node>, t: Seq<Node>, names: Seq<u8>, id: int)
    requires
        s.len() == t.len(),
        forall|j: int|
            0 <= j < s.len() ==> (#[trigger] t[j]).name_offset == s[j].name_offset && t[j].name_len
                == s[j].name_len && t[j].parent == s[j].parent,
    ensures
        path_bytes(t, names, id) == path_bytes(s, names, id),
    decreases id,
{
    if 0 < id < s.len() {
        let p = s[id].parent;
        assert(t[id].parent == p);
        if p != ROOT && p < id {
            lemma_paths_kept(s, t, names, p as int);
        }
        assert(name_bytes(names, t[id]) == name_bytes(names, s[id]));
    }
}

/// Folders followed by files: as many folder records as folders.
proof fn lemma_dirs_then_files(s: Seq<Node>, base: int)
    requires
        0 <= base <= s.len(),
        forall|j: int| 0 <= j < base ==> (#[trigger] s[j]).spec_is_dir(),
        forall|j: int| base <= j < s.len() ==> !(#[trigger] s[j]).spec_is_dir(),
    ensures
        dir_count(s) == base,
    decreases s.len(),
{
    if s.len() > 0 {
        let r = s.drop_last();
        let b2 = if base == s.len() {
            base - 1
        } else {
            base
        };
        assert forall|j: int| 0 <= j < b2 implies (#[trigger] r[j]).spec_is_dir() by {
            assert(r[j] == s[j]);
        }
        assert forall|j: int| b2 <= j < r.len() implies !(#[trigger] r[j]).spec_is_dir() by {
            assert(r[j] == s[j]);
        }
        lemma_dirs_then_files(r, b2);
    }
}

fn category_name(k: usize) -> (r: &'static str)
    requires
        k < 8,
    ensures
        r@ == kind_folder(k as int),
{
    if k == 0 {
        "Projects"
    } else if k == 1 {
        "Video"
    } else if k == 2 {
        "Games"
    } else if k == 3 {
        "Photos"
    } else if k == 4 {
        "Archives"
    } else if k == 5 {
        "Applications"
    } else if k == 6 {
        "Documents"
    } else {
        "Cache"
    }
}

fn extension(k: usize) -> (r: &'static str)
    requires
        k < 8,
    ensures
        r@ == kind_extension(k as int),
{
    if k == 0 {
        "rs"
    } else if k == 1 {
        "mp4"
    } else if k == 2 {
        "pak"
    } else if k == 3 {
        "jpg"
    } else if k == 4 {
        "zip"
    } else if k == 5 {
        "dll"
    } else if k == 6 {
        "pdf"
    } else {
        "bin"
    }
}

fn size_for(i: usize, category: usize, seed: u64) -> (r: u64)
    requires
        category < 8,
    ensures
        r == sample_size(i as int, category as int, seed),
{
    if i % 997 == 0 {
        (seed % 8000 + 500) * 1048576
    } else {
        let weight: u64 = if category == 1 {
            64
        } else if category == 2 || category == 4 {
            16
        } else if category == 3 {
            8
        } else if category == 5 {
            2
        } else {
            1
        };
        (seed % 500000 + 256) * weight
    }
}

/// Generates `files` sample files, all in one folder when `flat`, else
/// spread over folders of eight kinds, and finishes the hierarchy.
#[verifier::rlimit(100)]
#[verifier::spinoff_prover]
pub fn synthetic<F: Fn(&str, usize, usize)>(files: usize, flat: bool, cancel: &AtomicBool, progress: F) -> (r:
    Result<Dataset, String>)
    requires
        forall|m: &str, a: usize, b: usize| progress.requires((m, a, b)),
    ensures
        r matches Ok(d) ==> {
            &&& d.wf()
            &&& d.spec_file_count(ROOT) == files
            &&& d.nodes@[ROOT as int].bytes == sample_bytes(files as nat, files as int, flat)
            &&& d.unknown_sizes == 0
            &&& flat ==> forall|j: int, k: int|
                0 <= j < d.nodes@.len() && 0 <= k < d.nodes@.len() && !(#[trigger] d.nodes@[j]).spec_is_dir()
                    && !(#[trigger] d.nodes@[k]).spec_is_dir() ==> d.nodes@[j].parent == d.nodes@[k].parent
            &&& d.nodes@.len() == d.spec_folder_records() + files
            &&& forall|j: int| 0 <= j < d.spec_folder_records() ==> (#[trigger] d.nodes@[j]).spec_is_dir()
            &&& forall|i: int|
                0 <= i < files ==> #[trigger] sample_file(
                    d.nodes@,
                    d.names@,
                    d.spec_folder_records() + i,
                    i,
                    files as int,
                    flat,
                ) && d.nodes@[d.spec_folder_records() + i].bytes >= 256
            &&& d.synthetic
            &&& d.source@ == (if flat {
                "Synthetic / flat hierarchy"@
            } else {
                "Synthetic / mixed hierarchy"@
            })
        },
        r matches Err(e) ==> sample_refusal(e@),
{
    let start = now();
    let mut b = Builder::new(files);

    let mut seed: u64 = 0x123456789abcdef;
    let ghost fresh = b;
    let flat_parent: Id = if flat {
        match b.folder("DEMO:\\One million siblings") {
            Ok(id) => id,
            Err(e) => {
                return Err(e);
            },
        }
    } else {
        ROOT
    };
    proof {
        fresh.lemma_grows_refl();
        if flat {
            fresh.lemma_grows_nodes(&b);
            lemma_files_folders_added(fresh.spec_nodes(), b.spec_nodes());
            b.lemma_folders_unsized();
            lemma_bytes_zero_added(fresh.spec_nodes(), b.spec_nodes());
            b.lemma_path_bytes_are(flat_parent);
        }
        assert forall|j: int| 0 <= j < b.spec_nodes().len() implies (#[trigger] b.spec_nodes()[j]).spec_is_dir() by {
            if j < fresh.spec_nodes().len() {
                fresh.lemma_grows_nodes(&b);
            }
        }
    }
    let mut folders: Vec<Id> = Vec::new();
    if !flat {
        let mut count = files / 256;
        if count < 8 {
            count = 8;
        }
        if count > 200000 {
            count = 200000;
        }
        let mut i: usize = 0;
        while i < count
            invariant
                b.inv(),
                file_records(b.spec_nodes()) == 0,
                total_bytes(b.spec_nodes()) == 0,
                b.spec_unknown_sizes() == 0,
                count == sample_folders(files as int),
                i <= count,
                folders@.len() == i,
                forall|j: int| 0 <= j < b.spec_nodes().len() ==> (#[trigger] b.spec_nodes()[j]).spec_is_dir(),
                forall|k: int|
                    0 <= k < folders@.len() ==> path_bytes(b.spec_nodes(), b.spec_names(), #[trigger] folders@[k] as int)
                        == trim_seps(encode_utf8(batch_path(k))),
                forall|k: int|
                    0 <= k < folders@.len() ==> #[trigger] folders@[k] < b.spec_nodes().len()
                        && b.spec_nodes()[folders@[k] as int].spec_is_dir(),
            decreases count - i,
        {
            let mut path = String::from_str("DEMO:\\");
            path.append(category_name(i % 8));
            path.append("\\Collection ");
            push_padded(&mut path, (i / 128) as u64, 4);
            path.append("\\Batch ");
            push_padded(&mut path, (i % 128) as u64, 3);
            let ghost before = b;
            let id = match b.folder(path.as_str()) {
                Ok(id) => id,
                Err(e) => {
                    return Err(e);
                },
            };
            proof {
                lemma_dirs_kept(before, b, folders@);
                before.lemma_grows_nodes(&b);
                lemma_files_folders_added(before.spec_nodes(), b.spec_nodes());
                b.lemma_folders_unsized();
                lemma_bytes_zero_added(before.spec_nodes(), b.spec_nodes());
                assert(path@ == batch_path(i as int));
                b.lemma_path_bytes_are(id);
                assert forall|k: int|
                    0 <= k < folders@.len() implies path_bytes(b.spec_nodes(), b.spec_names(), #[trigger] folders@[k] as int)
                    == trim_seps(encode_utf8(batch_path(k))) by {
                    before.lemma_grows_paths(&b, folders@[k]);
                    before.lemma_path_bytes_are(folders@[k]);
                    b.lemma_path_bytes_are(folders@[k]);
                }
                assert forall|j: int| 0 <= j < b.spec_nodes().len() implies (#[trigger] b.spec_nodes()[j]).spec_is_dir() by {
                    if j < before.spec_nodes().len() {
                        assert(b.spec_nodes()[j] == before.spec_nodes()[j]);
                    }
                }
            }
            let ghost folders_before = folders@;
            folders.push(id);
            proof {
                assert forall|k: int|
                    0 <= k < folders@.len() implies path_bytes(b.spec_nodes(), b.spec_names(), #[trigger] folders@[k] as int)
                    == trim_seps(encode_utf8(batch_path(k))) by {
                    if k < folders_before.len() {
                        assert(folders@[k] == folders_before[k]);
                    }
                }
            }
            i = i + 1;
        }
    }
    let ghost base = b.spec_nodes().len() as int;
    proof {
        b.lemma_root_folder();
    }
    let mut i: usize = 0;
    while i < files
        invariant
            b.inv(),
            b.spec_nodes().len() == base + i,
            1 <= base,
            forall|j: int| 0 <= j < base ==> (#[trigger] b.spec_nodes()[j]).spec_is_dir(),
            !flat ==> forall|k: int|
                0 <= k < folders@.len() ==> path_bytes(b.spec_nodes(), b.spec_names(), #[trigger] folders@[k] as int)
                    == trim_seps(encode_utf8(batch_path(k))),
            flat ==> path_bytes(b.spec_nodes(), b.spec_names(), flat_parent as int) == trim_seps(encode_utf8("DEMO:\\One million siblings"@)),
            forall|j: int|
                0 <= j < i ==> #[trigger] sample_file(b.spec_nodes(), b.spec_names(), base + j, j, files as int, flat),
            file_records(b.spec_nodes()) == i,
            total_bytes(b.spec_nodes()) == sample_bytes(i as nat, files as int, flat),
            b.spec_unknown_sizes() == 0,
            seed == seed_after(i as nat),
            !flat ==> folders@.len() == sample_folders(files as int),
            flat ==> forall|j: int|
                0 <= j < b.spec_nodes().len() && !(#[trigger] b.spec_nodes()[j]).spec_is_dir()
                    ==> b.spec_nodes()[j].parent == flat_parent,
            i <= files,
            flat ==> flat_parent < b.spec_nodes().len() && b.spec_nodes()[flat_parent as int].spec_is_dir(),
            !flat ==> folders@.len() >= 8,
            forall|k: int|
                0 <= k < folders@.len() ==> #[trigger] folders@[k] < b.spec_nodes().len()
                    && b.spec_nodes()[folders@[k] as int].spec_is_dir(),
            forall|m: &str, a: usize, c: usize| progress.requires((m, a, c)),
        decreases files - i,
    {
        if i % 65536 == 0 {
            if cancelled(cancel) {
                return Err("Cancelled".to_string());
            }
            progress("Generating sample files", i, files);
        }
        seed = seed ^ (seed << 13u64);
        seed = seed ^ (seed >> 7u64);
        seed = seed ^ (seed << 17u64);
        let category = if flat {
            i % 8
        } else {
            (i % folders.len()) % 8
        };
        let size = size_for(i, category, seed);
        let parent = if flat {
            flat_parent
        } else {
            folders[i % folders.len()]
        };
        let mut name = String::from_str("file_");
        push_padded(&mut name, i as u64, 8);
        name.append(".");
        name.append(extension(category));
        let ghost before = b;
        match b.add_file(parent, name.as_str(), Some(size)) {
            Ok(_) => {},
            Err(e) => {
                return Err(e);
            },
        }
        proof {
            assert(name@ == sample_name(i as int, files as int, flat));
            assert(category == sample_kind(i as int, files as int, flat));
            let ghost pnew = b.spec_nodes()[base + i];
            let ghost e = encode_utf8(name@);
            before.lemma_push_bounds(e.len());
            assert(name_bytes(b.spec_names(), pnew) =~= e) by {
                assert(b.spec_names() == before.spec_names() + e);
                assert(pnew.name_offset == before.spec_names().len());
                assert(pnew.name_len == e.len());
            }
            before.lemma_grows_paths(&b, parent);
            before.lemma_path_bytes_are(parent);
            b.lemma_path_bytes_are(parent);
            assert(sample_file(b.spec_nodes(), b.spec_names(), base + i, i as int, files as int, flat));
            assert(before.spec_nodes().len() == base + i);
            before.lemma_records_ok();
            assert forall|j: int|
                0 <= j < i + 1 implies #[trigger] sample_file(b.spec_nodes(), b.spec_names(), base + j, j, files as int, flat) by {
                if j < i {
                    let pj = before.spec_nodes()[base + j].parent;
                    assert(sample_file(before.spec_nodes(), before.spec_names(), base + j, j, files as int, flat));
                    before.lemma_names_kept(&b, base + j);
                    before.lemma_grows_paths(&b, pj);
                    before.lemma_path_bytes_are(pj);
                    b.lemma_path_bytes_are(pj);
                }
            }
            if flat {
                before.lemma_grows_paths(&b, flat_parent);
                before.lemma_path_bytes_are(flat_parent);
                b.lemma_path_bytes_are(flat_parent);
            } else {
                assert forall|k: int|
                    0 <= k < folders@.len() implies path_bytes(b.spec_nodes(), b.spec_names(), #[trigger] folders@[k] as int)
                    == trim_seps(encode_utf8(batch_path(k))) by {
                    before.lemma_grows_paths(&b, folders@[k]);
                    before.lemma_path_bytes_are(folders@[k]);
                    b.lemma_path_bytes_are(folders@[k]);
                }
            }
            assert forall|j: int| 0 <= j < base implies (#[trigger] b.spec_nodes()[j]).spec_is_dir() by {
                assert(b.spec_nodes()[j] == before.spec_nodes()[j]);
            }
            lemma_dirs_kept(before, b, folders@);
            lemma_files_push(before.spec_nodes(), b.spec_nodes().last());
            lemma_bytes_push(before.spec_nodes(), b.spec_nodes().last());
            assert(before.spec_nodes().push(b.spec_nodes().last()) =~= b.spec_nodes());
            if flat {
                lemma_dirs_kept(before, b, seq![flat_parent]);
            }
        }
        i = i + 1;
    }
    let ghost last = b;
    let mut data = match b.finish(cancel, progress) {
        Ok(d) => d,
        Err(e) => {
            return Err(e);
        },
    };
    proof {
        lemma_sample_finished(last, data, base, files as int, flat);
        if flat {
            assert forall|j: int, k: int|
                0 <= j < data.nodes@.len() && 0 <= k < data.nodes@.len() && !(#[trigger] data.nodes@[j]).spec_is_dir()
                    && !(#[trigger] data.nodes@[k]).spec_is_dir() implies data.nodes@[j].parent == data.nodes@[k].parent by {
                assert(data.nodes@[j] == crate::totals::with_totals(last.spec_nodes(), j));
                assert(data.nodes@[k] == crate::totals::with_totals(last.spec_nodes(), k));
            }
        }
    }
    let ghost finished = data;
    data.source = if flat {
        String::from_str("Synthetic / flat hierarchy")
    } else {
        String::from_str("Synthetic / mixed hierarchy")
    };
    data.synthetic = true;
    data.elapsed = since(&start);
    proof {
        crate::finished::lemma_wf_same_parts(finished, data);
    }
    Ok(data)
}

/// Finishing the sample builder keeps its folders first and its files, as
/// generated, after them.
proof fn lemma_sample_finished(last: Builder, data: Dataset, base: int, files: int, flat: bool)
    requires
        last.inv(),
        crate::finish::built(last.spec_nodes(), last.spec_names(), last.spec_unknown_sizes(), data),
        1 <= base,
        0 <= files,
        last.spec_nodes().len() == base + files,
        forall|j: int| 0 <= j < base ==> (#[trigger] last.spec_nodes()[j]).spec_is_dir(),
        forall|i: int|
            0 <= i < files ==> #[trigger] sample_file(last.spec_nodes(), last.spec_names(), base + i, i, files, flat),
    ensures
        data.spec_folder_records() == base,
        data.nodes@.len() == base + files,
        forall|j: int| 0 <= j < base ==> (#[trigger] data.nodes@[j]).spec_is_dir(),
        forall|i: int|
            0 <= i < files ==> #[trigger] sample_file(data.nodes@, data.names@, base + i, i, files, flat)
                && data.nodes@[base + i].bytes >= 256,
{
    let sn = last.spec_nodes();
    last.lemma_records_ok();
    assert(sn.len() == base + files);
    assert forall|j: int| base <= j < sn.len() implies !(#[trigger] sn[j]).spec_is_dir() by {
        assert(sample_file(sn, last.spec_names(), base + (j - base), j - base, files, flat));
    }
    lemma_dirs_then_files(sn, base);
    assert(data.directories@.len() == base);
    assert forall|j: int| 0 <= j < base implies (#[trigger] data.nodes@[j]).spec_is_dir() by {
        assert(data.nodes@[j] == crate::totals::with_totals(sn, j));
    }
    assert forall|i: int| 0 <= i < files implies #[trigger] sample_file(
        data.nodes@,
        data.names@,
        base + i,
        i,
        files,
        flat,
    ) && data.nodes@[base + i].bytes >= 256 by {
        let j = base + i;
        assert(sample_file(sn, last.spec_names(), j, i, files, flat));
        assert forall|c: int| j + 1 <= c < sn.len() implies (#[trigger] sn[c]).parent != j by {
            assert(sn[sn[c].parent as int].spec_is_dir());
        }
        crate::totals::lemma_kids_empty_when_none(sn, j, j + 1, sn.len() as int);
        assert(data.nodes@[j] == crate::totals::with_totals(sn, j));
        assert forall|x: int| 0 <= x < sn.len() implies (#[trigger] data.nodes@[x]).name_offset
            == sn[x].name_offset && data.nodes@[x].name_len == sn[x].name_len && data.nodes@[x].parent
            == sn[x].parent by {
            assert(data.nodes@[x] == crate::totals::with_totals(sn, x));
        }
        lemma_paths_kept(sn, data.nodes@, last.spec_names(), sn[j].parent as int);
        lemma_sample_size_floor(i, sample_kind(i, files, flat), seed_after((i + 1) as nat));
    }
}

/// Folders of a builder stay folders as it grows.
proof fn lemma_dirs_kept(before: Builder, after: Builder, ids: Seq<Id>)
    requires
        before.grows_into(&after),
        forall|k: int|
            0 <= k < ids.len() ==> #[trigger] ids[k] < before.spec_nodes().len()
                && before.spec_nodes()[ids[k] as int].spec_is_dir(),
    ensures
        forall|k: int|
            0 <= k < ids.len() ==> #[trigger] ids[k] < after.spec_nodes().len()
                && after.spec_nodes()[ids[k] as int].spec_is_dir(),
{
    before.lemma_grows_nodes(&after);
}

} // verus!
