//! Importing the whole Everything index through a page source: the search
//! that is asked, one restart when the index moves under the cursor, and the
//! finished hierarchy with what the capture noted.
use crate::clock::{micros_since, now, since};
use crate::finish::built;
use crate::ingest::{
    collect_traced, distinct_idents, logs_placed, read_from, stopped, taken_bytes, Capture, Entry, Ident,
    Source, Trace, MOVED,
};
use crate::model::{records_ok, Dataset, Node, ROOT};
use std::sync::atomic::AtomicBool;
use vstd::prelude::*;
use vstd::string::{StrSliceExecFns, StringExecFns};

verus! {

/// How many records one query asks for.
pub const PAGE_SIZE: usize = 500000;

/// The error when the index still moves too far after one restart.
pub const TOO_RAPID: &'static str = "The index is changing too rapidly to resume safely. Your existing view is preserved; refresh after the bulk operation finishes.";

/// The note on a hierarchy whose files changed while it was read.
pub const CHANGED_NOTE: &'static str = "Files changed while loading. Refresh to include the latest changes.";

/// The characters of Unicode's White_Space property.
pub open spec fn white_space(c: char) -> bool {
    let u = c as u32;
    ||| 0x9 <= u <= 0xD
    ||| u == 0x20
    ||| u == 0x85
    ||| u == 0xA0
    ||| u == 0x1680
    ||| 0x2000 <= u <= 0x200A
    ||| u == 0x2028
    ||| u == 0x2029
    ||| u == 0x202F
    ||| u == 0x205F
    ||| u == 0x3000
}

/// How many white space characters `t` begins with.
pub open spec fn leading_space(t: Seq<char>) -> nat
    decreases t.len(),
{
    if t.len() == 0 || !white_space(t[0]) {
        0
    } else {
        1 + leading_space(t.drop_first())
    }
}

/// How many white space characters `t` ends with.
pub open spec fn trailing_space(t: Seq<char>) -> nat
    decreases t.len(),
{
    if t.len() == 0 || !white_space(t.last()) {
        0
    } else {
        1 + trailing_space(t.drop_last())
    }
}

/// A text without its leading and trailing white space.
pub open spec fn trim_text(t: Seq<char>) -> Seq<char> {
    if leading_space(t) == t.len() {
        Seq::empty()
    } else {
        t.subrange(leading_space(t) as int, t.len() - trailing_space(t))
    }
}

/// `str::trim`: the text without the leading and trailing characters that
/// have Unicode's White_Space property.
#[verifier::external_body]
fn trimmed(text: &str) -> (r: &str)
    ensures
        r@ == trim_text(text@),
{
    text.trim()
}

/// The search for all files under a query: every file when the query is
/// blank, else the files that match the trimmed query as a group.
pub open spec fn search_for(trimmed_query: Seq<char>) -> Seq<char> {
    if trimmed_query.len() == 0 {
        "file:"@
    } else {
        "file: <"@ + trimmed_query + ">"@
    }
}

/// The Everything search that an import asks for under `query`.
pub fn search_text(query: &str) -> (r: String)
    ensures
        r@ == search_for(trim_text(query@)),
{
    let q = trimmed(query);
    if q.unicode_len() == 0 {
        String::from_str("file:")
    } else {
        let mut s = String::from_str("file: <");
        s.append(q);
        s.append(">");
        s
    }
}

/// A capture that ended this way is tried once more: it stopped because the
/// index moved too far under the cursor.
pub fn moved_too_far(outcome: &Result<Capture, String>) -> (r: bool)
    ensures
        r == (outcome matches Err(e) && e@ == MOVED@),
{
    match outcome {
        Ok(_) => false,
        Err(e) => *e == String::from_str(MOVED),
    }
}

/// The error an import reports for a capture that failed for good: a second
/// stop because the index moved becomes `TOO_RAPID`; any other error stays.
pub fn settled_error(e: String) -> (r: String)
    ensures
        r@ == (if e@ == MOVED@ {
            TOO_RAPID@
        } else {
            e@
        }),
        r@ != MOVED@,
{
    proof {
        reveal_strlit("The index moved too far to resume safely");
        reveal_strlit("The index is changing too rapidly to resume safely. Your existing view is preserved; refresh after the bulk operation finishes.");
        assert(MOVED@.len() != TOO_RAPID@.len());
    }
    if e == String::from_str(MOVED) {
        String::from_str(TOO_RAPID)
    } else {
        e
    }
}

/// `d` holds, besides what an import notes, the hierarchy that finishing
/// some builder's records gives.
pub open spec fn finished_capture(d: Dataset) -> bool {
    exists|s: Seq<Node>, names: Seq<u8>, unknown: u64, f: Dataset|
        #![trigger built(s, names, unknown, f)]
        {
            &&& records_ok(s)
            &&& built(s, names, unknown, f)
            &&& f.nodes@ == d.nodes@
            &&& f.directories@ == d.directories@
            &&& f.names@ == d.names@
            &&& f.children@ == d.children@
            &&& f.prefix_bytes@ == d.prefix_bytes@
            &&& f.unknown_sizes == d.unknown_sizes
        }
}

/// Some capture's reads lie behind `d`: whenever all that it read agrees
/// with one index whose records differ in name or path, `d` holds each of
/// that index's records once, and their total size.
pub open spec fn holds_what_was_read(d: Dataset) -> bool {
    exists|
        requests: Seq<(usize, usize, usize)>,
        counts: Seq<usize>,
        reads: Seq<(int, int, Entry)>,
        scans: Seq<(int, int, Ident)>,
    |
        #![trigger logs_placed(requests, counts, reads, scans)]
        {
            &&& logs_placed(requests, counts, reads, scans)
            &&& forall|index: Seq<Entry>|
                #[trigger] read_from(requests, counts, reads, scans, index) && distinct_idents(index)
                    ==> d.spec_file_count(ROOT) == index.len() && d.nodes@[ROOT as int].bytes
                    == taken_bytes(index)
        }
}

/// Two captures in a row stopped with `MOVED`.
pub open spec fn moved_twice(t1: Trace, e1: String, t2: Trace, e2: String) -> bool {
    &&& e1@ == MOVED@
    &&& e2@ == MOVED@
    &&& stopped(t1, e1, PAGE_SIZE as int)
    &&& stopped(t2, e2, PAGE_SIZE as int)
}

/// Why an import fails: a capture stopped for a reason other than a moving
/// index and said so; or a capture stopped with `MOVED`, was restarted once,
/// and stopped with `MOVED` again, which reads as `TOO_RAPID`; or finishing
/// the hierarchy was cancelled or found a total that does not fit.
pub open spec fn import_failed(e: String) -> bool {
    ||| e@ != MOVED@ && exists|t: Trace| #[trigger] stopped(t, e, PAGE_SIZE as int)
    ||| e@ == TOO_RAPID@ && exists|t1: Trace, e1: String, t2: Trace, e2: String| #[trigger] moved_twice(t1, e1, t2, e2)
    ||| e@ == "Cancelled"@
    ||| e@ == "The total byte count overflowed u64."@
    ||| e@ == "The file count overflowed u32."@
}

/// Reads every page of `source` into a finished hierarchy, letting the
/// source go before the hierarchy is finished. A capture that
/// stops because the index moved too far is restarted once; a second such
/// stop is reported as `TOO_RAPID`. The hierarchy names the Everything
/// `version` and the trimmed query, keeps the capture's statistics, and
/// carries `CHANGED_NOTE` when records changed while it was read.
pub fn import<S: Source, F: Fn(&str, usize, usize)>(
    source: S,
    version: &str,
    query: &str,
    cancel: &AtomicBool,
    progress: F,
) -> (r: Result<Dataset, String>)
    requires
        forall|m: &str, a: usize, b: usize| progress.requires((m, a, b)),
    ensures
        r matches Ok(d) ==> {
            &&& d.wf()
            &&& d.source@ == "Everything "@ + version@
            &&& d.query@ == trim_text(query@)
            &&& d.load_stats.queries >= 1
            &&& d.capture_note@ == (if d.load_stats.changes > 0 {
                CHANGED_NOTE@
            } else {
                Seq::<char>::empty()
            })
            &&& !d.synthetic
            &&& d.import_peak_memory == 0
            &&& finished_capture(d)
            &&& holds_what_was_read(d)
        },
        r matches Err(e) ==> e@ != MOVED@ && import_failed(e),
{
    let start = now();
    // The source is let go before the hierarchy is finished.
    let capture = {
        let mut source = source;
        let (mut result, first) = collect_traced(&mut source, PAGE_SIZE, cancel, &progress);
        let ghost mut last = first@;
        let ghost first_error = result;
        let retried = moved_too_far(&result);
        if retried {
            progress("Resuming after large index changes; restarting once", 0, 0);
            let (again, second) = collect_traced(&mut source, PAGE_SIZE, cancel, &progress);
            result = again;
            proof {
                last = second@;
            }
        }
        match result {
            Ok(c) => c,
            Err(e) => {
                let ghost ge = e;
                let settled = settled_error(e);
                proof {
                    assert(stopped(last, ge, PAGE_SIZE as int));
                    if ge@ == MOVED@ {
                        assert(retried);
                        assert(stopped(first@, first_error->Err_0, PAGE_SIZE as int));
                        assert(moved_twice(first@, first_error->Err_0, last, ge));
                    } else {
                        assert(stopped(last, settled, PAGE_SIZE as int));
                    }
                }
                return Err(settled);
            },
        }
    };
    let ghost taken = capture.builder;
    let ghost logs = (capture.requests@, capture.counts@, capture.reads@, capture.scans@);
    proof {
        taken.lemma_records_ok();
    }
    let finalize = now();
    let mut data = match capture.builder.finish(cancel, &progress) {
        Ok(d) => d,
        Err(e) => {
            proof {
                reveal_strlit("Cancelled");
                reveal_strlit("The total byte count overflowed u64.");
                reveal_strlit("The file count overflowed u32.");
                reveal_strlit("The index moved too far to resume safely");
                assert(MOVED@.len() == 40);
            }
            return Err(e);
        },
    };
    let ghost finished = data;
    data.load_stats = capture.stats;
    data.load_stats.finalize_us = micros_since(&finalize);
    if data.load_stats.changes > 0 {
        data.capture_note = String::from_str(CHANGED_NOTE);
    }
    let mut name = String::from_str("Everything ");
    name.append(version);
    data.source = name;
    data.query = trimmed(query).to_owned();
    data.elapsed = since(&start);
    proof {
        crate::finished::lemma_wf_same_parts(finished, data);
        assert(built(taken.spec_nodes(), taken.spec_names(), taken.spec_unknown_sizes(), finished));
        assert(logs_placed(logs.0, logs.1, logs.2, logs.3));
        assert(data.spec_file_count(ROOT) == finished.spec_file_count(ROOT));
    }
    Ok(data)
}

} // verus!
