//! Resume path-sorted pages using a small tail of exact UTF-16 identities.
//! Count drift is normal. This remains a best-effort capture of a live index.
use crate::cancel::cancelled;
use crate::clock::{micros_since, now};
use crate::model::{name_bytes, refusal_text, trim_seps, Builder, Id, LoadStats, ROOT, UNKNOWN_SIZE};
use crate::totals::{
    file_records, lemma_bytes_push, lemma_bytes_zero_added, lemma_files_folders_added, lemma_files_push, total_bytes,
};
use vstd::utf8::encode_utf8;
use std::sync::atomic::AtomicBool;
use vstd::prelude::*;
use vstd::string::StringExecFns;

verus! {

/// One indexed file: its name, its folder's path, and its size if known.
pub struct Record<'a> {
    pub name: &'a [u16],
    pub path: &'a [u16],
    pub bytes: Option<u64>,
}

/// What a query gives: how many records the page holds, and how many the
/// whole index holds now.
#[derive(Clone, Copy, Debug)]
pub struct Page {
    pub count: usize,
    pub total: usize,
}

/// A path-sorted index that can be read a page at a time.
pub trait Source {
    /// Makes the records `offset..offset + limit` of the index the current page.
    fn query(&mut self, offset: usize, limit: usize) -> Result<Page, String>;

    /// Record `index` of the current page.
    fn record(&self, index: usize) -> Result<Record<'_>, String>;
}

/// The exact identity of a record seen at the end of the previous page.
#[derive(Clone)]
struct Anchor {
    name: Vec<u16>,
    path: Vec<u16>,
}

/// The builder filled from the index, and how the capture went.
pub struct Capture {
    pub builder: Builder,
    pub stats: LoadStats,
    /// Each query made, in order: its offset, its limit, and the total that
    /// the index reported in answer.
    pub requests: Ghost<Seq<(usize, usize, usize)>>,
    /// The records that became files, in order: name, path and size.
    pub taken: Ghost<Seq<(Seq<u16>, Seq<u16>, Option<u64>)>>,
    /// How many records the page of each query held.
    pub counts: Ghost<Seq<usize>>,
    /// Each record read whole: the query whose page held it, its place in
    /// that page, and the record.
    pub reads: Ghost<Seq<(int, int, Entry)>>,
    /// Each identity read while looking for the anchors: the query whose page
    /// held it, its place in that page, and the identity.
    pub scans: Ghost<Seq<(int, int, Ident)>>,
    /// The pages that records were taken from, in order.
    pub pages: Ghost<Seq<Taking>>,
    /// The file that each record taken became.
    pub files: Ghost<Seq<Id>>,
}

/// The sizes of records `taken`, unknown ones counted as zero.
pub open spec fn taken_bytes(taken: Seq<(Seq<u16>, Seq<u16>, Option<u64>)>) -> int
    decreases taken.len(),
{
    if taken.len() == 0 {
        0
    } else {
        taken_bytes(taken.drop_last()) + match taken.last().2 {
            Some(b) => b as int,
            None => 0,
        }
    }
}

/// The queries of a capture with pages of `page_size`: a first one that asks
/// only for the total, then full pages, and no more than two for each request
/// that the first total's budget allows.
pub open spec fn requests_ok(requests: Seq<(usize, usize, usize)>, page_size: int) -> bool {
    &&& requests.len() >= 1
    &&& requests[0].0 == 0 && requests[0].1 == 0
    &&& forall|i: int| 1 <= i < requests.len() ==> (#[trigger] requests[i]).1 == page_size
    &&& requests.len() <= 1 + 2 * spec_request_budget(
        requests[0].2 as int,
        page_size - spec_overlap(page_size),
    )
}

/// The error when the index changed too much between pages to resume.
pub const MOVED: &'static str = "The index moved too far to resume safely";

/// The error for a name or path that is not valid UTF-16.
pub const BAD_UTF16: &'static str = "A filename contains invalid UTF-16; narrow the query to exclude it.";

/// The text of UTF-16 units `w`, or none when a surrogate is unpaired.
pub open spec fn utf16_text(w: Seq<u16>) -> Option<Seq<char>>
    decreases w.len(),
{
    if w.len() == 0 {
        Some(Seq::empty())
    } else if w[0] < 0xD800 || w[0] > 0xDFFF {
        match utf16_text(w.drop_first()) {
            Some(t) => Some(seq![w[0] as char] + t),
            None => None,
        }
    } else if w[0] <= 0xDBFF && w.len() >= 2 && 0xDC00 <= w[1] <= 0xDFFF {
        match utf16_text(w.skip(2)) {
            Some(t) => Some(
                seq![((0x10000 + (w[0] - 0xD800) * 0x400 + (w[1] - 0xDC00)) as u32) as char] + t,
            ),
            None => None,
        }
    } else {
        None
    }
}

/// `char::from_u32`: the character with scalar value `x`, if there is one.
#[verifier::external_body]
fn char_from(x: u32) -> (r: Option<char>)
    ensures
        r is Some <==> (x <= 0xD7FF || (0xE000 <= x <= 0x10FFFF)),
        r matches Some(c) ==> c == x as char,
{
    char::from_u32(x)
}

/// `String::push`: appends one character.
#[verifier::external_body]
fn push_char(s: &mut String, c: char)
    ensures
        final(s)@ == old(s)@.push(c),
{
    s.push(c);
}

/// `String::clear`: empties the text.
#[verifier::external_body]
fn clear_text(s: &mut String)
    ensures
        final(s)@ == Seq::<char>::empty(),
{
    s.clear();
}

/// Replaces `out` with the text of the UTF-16 units `wide`.
fn decode(wide: &[u16], out: &mut String) -> (r: Result<(), String>)
    ensures
        r is Ok <==> utf16_text(wide@) is Some,
        r is Ok ==> final(out)@ == utf16_text(wide@).unwrap(),
        r matches Err(e) ==> e@ == BAD_UTF16@,
{
    clear_text(out);
    let mut k: usize = 0;
    proof {
        assert(wide@.skip(0) =~= wide@);
        match utf16_text(wide@) {
            Some(t) => {
                assert(out@ + t =~= t);
            },
            None => {},
        }
    }
    while k < wide.len()
        invariant
            k <= wide@.len(),
            utf16_text(wide@) == (match utf16_text(wide@.skip(k as int)) {
                Some(t) => Some(out@ + t),
                None => None::<Seq<char>>,
            }),
        decreases wide@.len() - k,
    {
        let ghost rest = wide@.skip(k as int);
        let u = wide[k];
        proof {
            assert(rest[0] == u);
        }
        if u < 0xD800 || u > 0xDFFF {
            let c = match char_from(u as u32) {
                Some(c) => c,
                None => {
                    return Err(String::from_str(BAD_UTF16));
                },
            };
            proof {
                assert(rest.drop_first() =~= wide@.skip(k + 1));
            }
            let ghost before = out@;
            push_char(out, c);
            proof {
                match utf16_text(wide@.skip(k + 1)) {
                    Some(t) => {
                        assert(out@ + t =~= before + (seq![c] + t));
                    },
                    None => {},
                }
            }
            k = k + 1;
        } else if u <= 0xDBFF && k + 1 < wide.len() && 0xDC00 <= wide[k + 1] && wide[k + 1] <= 0xDFFF {
            let v = wide[k + 1];
            let x: u32 = 0x10000 + ((u as u32 - 0xD800) * 0x400) + (v as u32 - 0xDC00);
            let c = match char_from(x) {
                Some(c) => c,
                None => {
                    return Err(String::from_str(BAD_UTF16));
                },
            };
            proof {
                assert(rest[1] == v);
                assert(rest.skip(2) =~= wide@.skip(k + 2));
            }
            let ghost before = out@;
            push_char(out, c);
            proof {
                match utf16_text(wide@.skip(k + 2)) {
                    Some(t) => {
                        assert(out@ + t =~= before + (seq![c] + t));
                    },
                    None => {},
                }
            }
            k = k + 2;
        } else {
            return Err(String::from_str(BAD_UTF16));
        }
    }
    proof {
        assert(wide@.skip(k as int) =~= Seq::<u16>::empty());
        assert(out@ + Seq::<char>::empty() =~= out@);
    }
    Ok(())
}

/// The two sequences of UTF-16 units are the same.
fn same_units(a: &[u16], b: &[u16]) -> (r: bool)
    ensures
        r == (a@ == b@),
{
    if a.len() != b.len() {
        return false;
    }
    let mut k: usize = 0;
    while k < a.len()
        invariant
            a@.len() == b@.len(),
            k <= a@.len(),
            forall|j: int| 0 <= j < k ==> a@[j] == b@[j],
        decreases a@.len() - k,
    {
        if a[k] != b[k] {
            return false;
        }
        k = k + 1;
    }
    proof {
        assert(a@ =~= b@);
    }
    true
}

impl Anchor {
    /// The record has this anchor's exact name and path.
    fn matches(&self, record: &Record<'_>) -> (r: bool)
        ensures
            r == (self.name@ == record.name@ && self.path@ == record.path@),
    {
        same_units(self.name.as_slice(), record.name) && same_units(self.path.as_slice(), record.path)
    }
}

/// How many records of the previous page are kept as anchors: a quarter of
/// a page, at least one and at most 128.
pub open spec fn spec_overlap(page_size: int) -> int {
    if page_size / 4 < 1 {
        1
    } else if page_size / 4 > 128 {
        128
    } else {
        page_size / 4
    }
}

fn overlap_for(page_size: usize) -> (r: usize)
    ensures
        r == spec_overlap(page_size as int),
{
    let q = page_size / 4;
    if q < 1 {
        1
    } else if q > 128 {
        128
    } else {
        q
    }
}

/// How many requests a capture may make: enough pages for `total` records
/// at `step` new records each, and 64 more; never chasing a growing index forever.
pub open spec fn spec_request_budget(total: int, step: int) -> int {
    let pages = total / step + if total % step != 0 {
        1int
    } else {
        0int
    };
    if pages + 64 > usize::MAX {
        usize::MAX as int
    } else {
        pages + 64
    }
}

fn request_budget(total: usize, step: usize) -> (r: usize)
    requires
        step > 0,
    ensures
        r == spec_request_budget(total as int, step as int),
{
    let whole = total / step;
    proof {
        if step >= 2 {
            assert(whole <= total / 2) by (nonlinear_arith)
                requires
                    whole == total / step,
                    step >= 2,
            ;
        }
    }
    let pages = if total % step != 0 {
        whole + 1
    } else {
        whole
    };
    pages.saturating_add(64)
}

/// Where to look again after a large shift before the cursor: the cursor
/// moved by the change in the total, then back by half a page.
pub open spec fn spec_realign(next: int, total: int, previous_total: int, page_size: int) -> int {
    let shifted = if next + total >= previous_total {
        ((next + total - previous_total) as usize) as int
    } else {
        0
    };
    if shifted >= page_size / 2 {
        shifted - page_size / 2
    } else {
        0
    }
}

fn realign(next: usize, total: usize, previous_total: usize, page_size: usize) -> (r: usize)
    ensures
        r == spec_realign(next as int, total as int, previous_total as int, page_size as int),
{
    let sum = next as u128 + total as u128;
    let shifted: usize = if sum >= previous_total as u128 {
        #[verifier::truncate]
        ((sum - previous_total as u128) as usize)
    } else {
        0
    };
    shifted.saturating_sub(page_size / 2)
}

/// What a read page means for the capture.
#[derive(Clone, Copy, Debug, PartialEq, Eq, Structural)]
pub enum PageStep {
    /// The page reached the end of the index.
    Done,
    /// The page shows that the index moved too far to resume.
    Moved,
    /// Go on; the next page starts at this offset.
    Onward(usize),
}

/// The end of a page read at `offset` with `count` records, saturated at the
/// largest offset.
pub open spec fn page_end(offset: int, count: int) -> int {
    if offset + count > usize::MAX {
        usize::MAX as int
    } else {
        offset + count
    }
}

/// After a page read at `offset` with `count` records of `total`, whose new
/// records began at `resume`, while the cursor stood at `next`: done when the
/// page reaches the total; moved when the page holds no more than the overlap,
/// or ended no later than the cursor with nothing new in it; else onward from
/// its end.
pub open spec fn spec_after_page(
    offset: int,
    count: int,
    total: int,
    next: int,
    resume: int,
    overlap: int,
) -> PageStep {
    let end = page_end(offset, count);
    if end >= total {
        PageStep::Done
    } else if count <= overlap || (end <= next && resume == count) {
        PageStep::Moved
    } else {
        PageStep::Onward(end as usize)
    }
}

/// Decides how a capture goes on after reading a page.
pub fn after_page(
    offset: usize,
    count: usize,
    total: usize,
    next: usize,
    resume: usize,
    overlap: usize,
) -> (r: PageStep)
    ensures
        r == spec_after_page(
            offset as int,
            count as int,
            total as int,
            next as int,
            resume as int,
            overlap as int,
        ),
{
    let end = offset.saturating_add(count);
    if end >= total {
        PageStep::Done
    } else if count <= overlap || (end <= next && resume == count) {
        PageStep::Moved
    } else {
        PageStep::Onward(end)
    }
}

/// Queries the source, counting the request and the time it took.
fn timed_query<S: Source>(source: &mut S, offset: usize, count: usize, stats: &mut LoadStats) -> (r:
    Result<Page, String>)
    ensures
        final(stats).queries == (if old(stats).queries < u64::MAX {
            old(stats).queries + 1
        } else {
            u64::MAX as int
        }),
        final(stats).query_us >= old(stats).query_us,
        final(stats).decode_us == old(stats).decode_us,
        final(stats).finalize_us == old(stats).finalize_us,
        final(stats).changes == old(stats).changes,
{
    let start = now();
    let result = source.query(offset, count);
    stats.query_us = stats.query_us.saturating_add(micros_since(&start));
    stats.queries = stats.queries.saturating_add(1);
    result
}

/// The last anchor that `record` matches, if any.
fn rposition(anchors: &Vec<Anchor>, record: &Record<'_>) -> (r: Option<usize>)
    ensures
        r matches Some(k) ==> k < anchors@.len() && anchors@[k as int].name@ == record.name@
            && anchors@[k as int].path@ == record.path@ && forall|j: int|
            k < j < anchors@.len() ==> !(anchors@[j].name@ == record.name@ && anchors@[j].path@
                == record.path@),
        r is None ==> forall|j: int|
            0 <= j < anchors@.len() ==> !(anchors@[j].name@ == record.name@ && anchors@[j].path@
                == record.path@),
{
    let mut k = anchors.len();
    while k > 0
        invariant
            k <= anchors@.len(),
            forall|j: int|
                k <= j < anchors@.len() ==> !(anchors@[j].name@ == record.name@ && anchors@[j].path@
                    == record.path@),
        decreases k,
    {
        k = k - 1;
        if anchors[k].matches(record) {
            return Some(k);
        }
    }
    None
}

/// The identity of a record: its name and its path as UTF-16 units.
pub type Ident = (Seq<u16>, Seq<u16>);

/// The last position among the first `k` identities of `a` that equals `x`.
pub open spec fn last_match(a: Seq<Ident>, x: Ident, k: int) -> Option<int>
    decreases k,
{
    if k <= 0 {
        None
    } else if a[k - 1] == x {
        Some(k - 1)
    } else {
        last_match(a, x, k - 1)
    }
}

/// The resume point a scan of `page` from position `i` gives, with `best`
/// the newest anchor found so far and the position just past it: just past
/// the first record that is the last anchor; else, once more than 1024
/// records past the anchors have been looked at and some anchor was found,
/// or at the end of the page, just past the newest anchor found.
pub open spec fn scan(page: Seq<Ident>, a: Seq<Ident>, i: int, best: Option<(int, int)>) -> Option<int>
    decreases page.len() - i,
{
    if i >= page.len() || i < 0 {
        match best {
            Some((_, p)) => Some(p),
            None => None,
        }
    } else if page[i] == a.last() {
        Some(i + 1)
    } else {
        let b2 = match last_match(a, page[i], a.len() as int) {
            Some(idx) => match best {
                Some((prev, _)) => if idx > prev {
                    Some((idx, i + 1))
                } else {
                    best
                },
                None => Some((idx, i + 1)),
            },
            None => best,
        };
        match b2 {
            Some((_, p)) => if i > a.len() + 1024 {
                Some(p)
            } else {
                scan(page, a, i + 1, b2)
            },
            None => scan(page, a, i + 1, b2),
        }
    }
}

/// Where a page whose records have the identities `page` resumes after the
/// anchors `a`: at its start without anchors, else as `scan` finds it.
pub open spec fn resume_of(page: Seq<Ident>, a: Seq<Ident>) -> Option<int> {
    if a.len() == 0 {
        Some(0)
    } else {
        scan(page, a, 0, None)
    }
}

/// A scan from `i` that meets the newest anchor first at `q`, not far past
/// the anchors, stops just past it, whatever it had found before.
proof fn lemma_scan_meets_newest(page: Seq<Ident>, a: Seq<Ident>, i: int, q: int)
    requires
        a.len() > 0,
        0 <= i <= q < page.len(),
        page[q] == a.last(),
        forall|j: int| i <= j < q ==> page[j] != a.last(),
        q <= a.len() + 1024,
    ensures
        forall|b: Option<(int, int)>| #[trigger] scan(page, a, i, b) == Some(q + 1),
    decreases q - i,
{
    if i < q {
        lemma_scan_meets_newest(page, a, i + 1, q);
        assert forall|b: Option<(int, int)>| #[trigger] scan(page, a, i, b) == Some(q + 1) by {
            assert(page[i] != a.last());
            let b2 = match last_match(a, page[i], a.len() as int) {
                Some(idx) => match b {
                    Some((prev, _)) => if idx > prev {
                        Some((idx, i + 1))
                    } else {
                        b
                    },
                    None => Some((idx, i + 1)),
                },
                None => b,
            };
            assert(scan(page, a, i + 1, b2) == Some(q + 1));
            assert(scan(page, a, i, b) == scan(page, a, i + 1, b2));
        }
    }
}

/// Law: a page that holds the newest anchor first at `q`, at most 1024
/// records past the anchors' count, resumes just past it.
pub proof fn lemma_resume_past_newest_anchor(page: Seq<Ident>, a: Seq<Ident>, q: int)
    requires
        a.len() > 0,
        0 <= q < page.len(),
        page[q] == a.last(),
        forall|j: int| 0 <= j < q ==> page[j] != a.last(),
        q <= a.len() + 1024,
    ensures
        resume_of(page, a) == Some(q + 1),
{
    lemma_scan_meets_newest(page, a, 0, q);
    assert(scan(page, a, 0, None) == Some(q + 1));
}

/// Law: when the newest `m` anchors stand together at `k` in a page that
/// holds no identity twice, the page resumes just past them. An unchanged
/// index (`k` = 0, all anchors) resumes at the cursor; records added before
/// the cursor move the resume point on, records removed before it move it
/// back, and nothing is read twice or skipped.
pub proof fn lemma_resume_after_surviving_anchors(page: Seq<Ident>, a: Seq<Ident>, k: int, m: int)
    requires
        1 <= m <= a.len(),
        0 <= k,
        k + m <= page.len(),
        page.subrange(k, k + m) == a.skip(a.len() - m),
        page.no_duplicates(),
        k + m <= a.len() + 1025,
    ensures
        resume_of(page, a) == Some(k + m),
{
    let q = k + m - 1;
    assert(page[q] == page.subrange(k, k + m)[m - 1]);
    assert(page[q] == a.last());
    lemma_resume_past_newest_anchor(page, a, q);
}

/// What `last_match` finds is a match, and when it finds none there is none.
proof fn lemma_last_match_found(a: Seq<Ident>, x: Ident, k: int)
    requires
        0 <= k <= a.len(),
    ensures
        last_match(a, x, k) matches Some(p) ==> 0 <= p < k && a[p] == x,
        last_match(a, x, k) is None ==> forall|j: int| 0 <= j < k ==> a[j] != x,
    decreases k,
{
    if k > 0 {
        lemma_last_match_found(a, x, k - 1);
    }
}

/// A scan of a page without the newest anchor, whose newest surviving
/// anchor `g` stands at `q` alone, stops just past it.
proof fn lemma_scan_finds_survivor(
    page: Seq<Ident>,
    a: Seq<Ident>,
    i: int,
    best: Option<(int, int)>,
    g: int,
    q: int,
)
    requires
        a.len() > 0,
        0 <= g < a.len(),
        0 <= q < page.len(),
        0 <= i <= page.len(),
        page.len() <= a.len() + 1025,
        last_match(a, page[q], a.len() as int) == Some(g),
        forall|j: int| 0 <= j < page.len() ==> page[j] != a.last(),
        forall|j: int|
            0 <= j < page.len() && j != q ==> match last_match(a, #[trigger] page[j], a.len() as int) {
                Some(x) => x < g,
                None => true,
            },
        i <= q ==> match best {
            Some((x, _)) => x < g,
            None => true,
        },
        i > q ==> best == Some((g, q + 1)),
    ensures
        scan(page, a, i, best) == Some(q + 1),
    decreases page.len() - i,
{
    if i < page.len() {
        assert(page[i] != a.last());
        let b2 = match last_match(a, page[i], a.len() as int) {
            Some(idx) => match best {
                Some((prev, _)) => if idx > prev {
                    Some((idx, i + 1))
                } else {
                    best
                },
                None => Some((idx, i + 1)),
            },
            None => best,
        };
        lemma_scan_finds_survivor(page, a, i + 1, b2, g, q);
        assert(scan(page, a, i, best) == scan(page, a, i + 1, b2));
    }
}

/// Law: when the newest anchors are gone from a page that holds no
/// identity twice, and the newest of the rest, anchor `g`, stands at `q`,
/// the page resumes just past it (for a page at most 1025 records longer
/// than the anchors, all of which it reads).
pub proof fn lemma_resume_past_newest_survivor(page: Seq<Ident>, a: Seq<Ident>, g: int, q: int)
    requires
        a.no_duplicates(),
        0 <= g < a.len(),
        0 <= q < page.len(),
        page[q] == a[g],
        page.no_duplicates(),
        forall|j: int, x: int| 0 <= j < page.len() && g < x < a.len() ==> page[j] != a[x],
        page.len() <= a.len() + 1025,
        g < a.len() - 1,
    ensures
        resume_of(page, a) == Some(q + 1),
{
    lemma_last_match_found(a, page[q], a.len() as int);
    assert forall|j: int|
        0 <= j < page.len() && j != q implies match last_match(a, #[trigger] page[j], a.len() as int) {
        Some(x) => x < g,
        None => true,
    } by {
        lemma_last_match_found(a, page[j], a.len() as int);
    }
    assert forall|j: int| 0 <= j < page.len() implies page[j] != a.last() by {
        assert(a.last() == a[a.len() - 1]);
    }
    lemma_scan_finds_survivor(page, a, 0, None, g, q);
}

/// A record as the index holds it: its name, its path and its size.
pub type Entry = (Seq<u16>, Seq<u16>, Option<u64>);

/// The identity of a record: its name and its path.
pub open spec fn ident_of(e: Entry) -> Ident {
    (e.0, e.1)
}

/// No two records of `index` share a name and a path.
pub open spec fn distinct_idents(index: Seq<Entry>) -> bool {
    forall|i: int, j: int| 0 <= i < j < index.len() ==> ident_of(index[i]) != ident_of(index[j])
}

/// The records `offset..offset + limit` of `index`, as far as it reaches.
pub open spec fn window(index: Seq<Entry>, offset: int, limit: int) -> Seq<Entry> {
    if offset >= index.len() {
        Seq::empty()
    } else if offset + limit >= index.len() {
        index.subrange(offset, index.len() as int)
    } else {
        index.subrange(offset, offset + limit)
    }
}

/// A page read at `offset` of an unchanged index without two records of the
/// same identity, whose scan `seen` began with the anchors `a` (the `a.len()`
/// records before the cursor) and read up to the page's end, or up to the
/// newest anchor, or far past the anchors, resumes at the cursor.
proof fn lemma_resume_on_unchanged_index(
    index: Seq<Entry>,
    offset: int,
    count: int,
    a: Seq<Ident>,
    seen: Seq<Ident>,
)
    requires
        distinct_idents(index),
        0 <= offset,
        1 <= a.len() <= count,
        offset + count <= index.len(),
        a == index.subrange(offset, offset + a.len()).map_values(|e: Entry| ident_of(e)),
        seen.len() <= count,
        forall|k: int| 0 <= k < seen.len() ==> #[trigger] seen[k] == ident_of(index[offset + k]),
        seen.len() == count || (seen.len() > 0 && seen.last() == a.last()) || seen.len() > a.len() + 1025,
    ensures
        resume_of(seen, a) == Some(a.len() as int),
{
    let m = a.len() as int;
    if seen.len() < m {
        assert(seen.len() > 0 && seen.last() == a.last());
        assert(a.last() == ident_of(index[offset + m - 1]));
        assert(seen.last() == ident_of(index[offset + seen.len() - 1]));
        assert(false);
    }
    assert(seen.subrange(0, m) =~= a.skip(0)) by {
        assert forall|k: int| 0 <= k < m implies seen.subrange(0, m)[k] == a.skip(0)[k] by {
            assert(seen[k] == ident_of(index[offset + k]));
        }
    }
    assert(seen.no_duplicates()) by {
        assert forall|i: int, j: int| 0 <= i < seen.len() && 0 <= j < seen.len() && i != j implies seen[i]
            != seen[j] by {
            if i < j {
                assert(ident_of(index[offset + i]) != ident_of(index[offset + j]));
            } else {
                assert(ident_of(index[offset + j]) != ident_of(index[offset + i]));
            }
        }
    }
    lemma_resume_after_surviving_anchors(seen, a, 0, m);
}

/// The identities of the anchors.
spec fn anchor_idents(anchors: Seq<Anchor>) -> Seq<Ident> {
    anchors.map_values(|x: Anchor| (x.name@, x.path@))
}

spec fn best_view(b: Option<(usize, usize)>) -> Option<(int, int)> {
    match b {
        Some((x, y)) => Some((x as int, y as int)),
        None => None,
    }
}

/// Where the new page resumes: just past the last anchor when it is found,
/// else past the newest anchor that survives; none when no anchor is found.
/// Also gives the identities of the records it read, which decide the answer.
fn find_resume<S: Source>(source: &S, anchors: &Vec<Anchor>, count: usize) -> (r: (
    Result<Option<usize>, String>,
    Ghost<Seq<Ident>>,
))
    ensures
        r.1@.len() <= count,
        r.0 matches Ok(x) ==> (match x {
            Some(p) => resume_of(r.1@, anchor_idents(anchors@)) == Some(p as int),
            None => resume_of(r.1@, anchor_idents(anchors@)) is None,
        }),
        anchors@.len() == 0 ==> r.0 == Ok::<Option<usize>, String>(Some(0)),
        anchors@.len() > 0 ==> (r.0 matches Ok(Some(p)) ==> 1 <= p <= count),
        anchors@.len() > 0 && r.0 is Ok ==> r.1@.len() == count || (r.1@.len() > 0 && r.1@.last()
            == anchor_idents(anchors@).last()) || r.1@.len() > anchors@.len() + 1025,
{
    let ghost a = anchor_idents(anchors@);
    if anchors.len() == 0 {
        return (Ok(Some(0)), Ghost(Seq::empty()));
    }
    let last = &anchors[anchors.len() - 1];
    proof {
        assert(a.last() == (last.name@, last.path@));
    }
    let mut best: Option<(usize, usize)> = None;
    let mut i: usize = 0;
    let ghost mut seen: Seq<Ident> = Seq::empty();
    while i < count
        invariant
            i <= count,
            anchors@.len() > 0,
            a == anchor_idents(anchors@),
            a.last() == (last.name@, last.path@),
            seen.len() == i,
            best matches Some((_, p)) ==> 1 <= p <= count,
            forall|page: Seq<Ident>|
                #![trigger scan(page, a, 0, None)]
                page.len() >= i && page.take(i as int) == seen ==> scan(page, a, 0, None) == scan(
                    page,
                    a,
                    i as int,
                    best_view(best),
                ),
        decreases count - i,
    {
        let record = match source.record(i) {
            Ok(r) => r,
            Err(e) => {
                return (Err(e), Ghost(seen));
            },
        };
        let ghost x: Ident = (record.name@, record.path@);
        let ghost old_best = best;
        let ghost old_seen = seen;
        proof {
            seen = seen.push(x);
        }
        if last.matches(&record) {
            proof {
                assert(seen.take(i as int) =~= old_seen);
                assert(seen.take(seen.len() as int) =~= seen);
            }
            return (Ok(Some(i + 1)), Ghost(seen));
        }
        let found = rposition(anchors, &record);
        proof {
            assert forall|k: int| 0 <= k < a.len() implies (#[trigger] a[k]) == (anchors@[k].name@, anchors@[k].path@) by {}
            lemma_last_match(a, x, found);
        }
        if let Some(index) = found {
            let better = match best {
                None => true,
                Some((previous, _)) => index > previous,
            };
            if better {
                best = Some((index, i + 1));
            }
        }
        proof {
            assert forall|page: Seq<Ident>|
                #![trigger scan(page, a, 0, None)]
                page.len() >= i + 1 && page.take(i + 1) == seen implies scan(page, a, 0, None) == scan(
                    page,
                    a,
                    i + 1,
                    best_view(best),
                ) || (i > anchors.len() + 1024 && best is Some) by {
                assert(page.take(i as int) =~= old_seen) by {
                    assert(page.take(i as int) =~= page.take(i + 1).take(i as int));
                    assert(seen.take(i as int) =~= old_seen);
                }
                assert(page[i as int] == x) by {
                    assert(page.take(i + 1)[i as int] == page[i as int]);
                }
            }
        }
        if i > anchors.len().saturating_add(1024) && best.is_some() {
            proof {
                assert(seen.take(seen.len() as int) =~= seen);
                assert(seen.take(i as int) =~= old_seen);
                assert(seen[i as int] == x);
            }
            if let Some((_, position)) = best {
                return (Ok(Some(position)), Ghost(seen));
            }
        }
        i = i + 1;
    }
    proof {
        assert(seen.take(seen.len() as int) =~= seen);
    }
    match best {
        Some((_, position)) => (Ok(Some(position)), Ghost(seen)),
        None => (Ok(None), Ghost(seen)),
    }
}

/// `rposition` finds the last anchor equal to a record, as `last_match` says.
proof fn lemma_last_match(a: Seq<Ident>, x: Ident, found: Option<usize>)
    requires
        found matches Some(k) ==> k < a.len() && a[k as int] == x && forall|j: int| k < j < a.len() ==> a[j] != x,
        found is None ==> forall|j: int| 0 <= j < a.len() ==> a[j] != x,
    ensures
        last_match(a, x, a.len() as int) == match found {
            Some(k) => Some(k as int),
            None => None::<int>,
        },
{
    lemma_last_match_from(a, x, a.len() as int, found);
}

proof fn lemma_last_match_from(a: Seq<Ident>, x: Ident, k: int, found: Option<usize>)
    requires
        0 <= k <= a.len(),
        found matches Some(f) ==> f < a.len() && a[f as int] == x && forall|j: int| f < j < a.len() ==> a[j] != x,
        found is None ==> forall|j: int| 0 <= j < a.len() ==> a[j] != x,
        found matches Some(f) ==> f < k,
    ensures
        last_match(a, x, k) == match found {
            Some(f) => Some(f as int),
            None => None::<int>,
        },
    decreases k,
{
    if k > 0 {
        match found {
            Some(f) => {
                if f < k - 1 {
                    lemma_last_match_from(a, x, k - 1, found);
                }
            },
            None => {
                lemma_last_match_from(a, x, k - 1, found);
            },
        }
    }
}

/// A fresh copy of UTF-16 units.
fn units_vec(src: &[u16]) -> (r: Vec<u16>)
    ensures
        r@ == src@,
{
    let mut out: Vec<u16> = Vec::new();
    let mut k: usize = 0;
    while k < src.len()
        invariant
            k <= src@.len(),
            out@ == src@.take(k as int),
        decreases src@.len() - k,
    {
        out.push(src[k]);
        proof {
            assert(src@.take(k + 1) =~= src@.take(k as int).push(src@[k as int]));
        }
        k = k + 1;
    }
    proof {
        assert(src@.take(src@.len() as int) =~= src@);
    }
    out
}

/// The file that `Cursor::take` adds for a record: the newest record of the
/// builder, named by the record's name, in the folder at the record's path,
/// with the record's size, or no size and the unknown mark.
pub open spec fn file_taken(b: Builder, id: Id, name: Seq<u16>, path: Seq<u16>, bytes: Option<u64>) -> bool {
    let n = b.spec_nodes()[id as int];
    &&& id == b.spec_nodes().len() - 1
    &&& !n.spec_is_dir()
    &&& n.bytes == (match bytes {
        Some(x) => x,
        None => 0,
    })
    &&& n.flags == (if bytes is None {
        UNKNOWN_SIZE
    } else {
        0
    })
    &&& utf16_text(name) matches Some(t) && name_bytes(b.spec_names(), n) == encode_utf8(t)
    &&& utf16_text(path) matches Some(t) && b.spec_path_bytes(n.parent) == trim_seps(encode_utf8(t))
}

/// The builder's refusals read differently from the error for text that is
/// not UTF-16.
proof fn lemma_refusals_are_not_bad_text()
    ensures
        forall|e: Seq<char>| refusal_text(e) ==> e != BAD_UTF16@,
{
    reveal_strlit("A filename contains invalid UTF-16; narrow the query to exclude it.");
    reveal_strlit("The 32-bit node ID capacity has been reached.");
    reveal_strlit("A filename is too long to represent.");
    reveal_strlit("The filename pool exceeded 4 GiB.");
    assert(BAD_UTF16@.len() != "The 32-bit node ID capacity has been reached."@.len());
    assert(BAD_UTF16@.len() != "A filename is too long to represent."@.len());
    assert(BAD_UTF16@.len() != "The filename pool exceeded 4 GiB."@.len());
}

/// What a capture remembers between records: the folder path of the last
/// record, as UTF-16 units and as text, and the folder that holds it.
pub struct Cursor {
    path_wide: Vec<u16>,
    path_text: String,
    name_text: String,
    parent: Id,
    known: bool,
}

/// Bytes of UTF-8 that the UTF-16 units `w` take as text; none when they
/// are not text.
pub open spec fn utf8_len(w: Seq<u16>) -> int {
    match utf16_text(w) {
        Some(t) => encode_utf8(t).len() as int,
        None => 0,
    }
}

/// A builder `b` cannot take a file whose path and name are `path_len` and
/// `name_len` bytes long: its ids are used up, a name is too long, or its
/// name pool would pass 4 GiB.
pub open spec fn at_limit(b: Builder, path_len: int, name_len: int) -> bool {
    ||| b.spec_nodes().len() > u32::MAX
    ||| path_len > u16::MAX
    ||| name_len > u16::MAX
    ||| b.spec_names().len() + path_len > u32::MAX
    ||| b.spec_names().len() + name_len > u32::MAX
}

/// A builder `b` has room for a file whose path and name are `path_len` and
/// `name_len` bytes long, even when every folder on its path is new.
pub open spec fn has_room(b: Builder, path_len: int, name_len: int) -> bool {
    &&& b.spec_nodes().len() + path_len + 1 <= u32::MAX
    &&& path_len <= u16::MAX
    &&& name_len <= u16::MAX
    &&& b.spec_names().len() + 2 * path_len + name_len <= u32::MAX
}

impl Cursor {
    /// The remembered folder is a folder of `b`, and its path is the
    /// remembered one.
    pub closed spec fn inv(&self, b: Builder) -> bool {
        &&& self.parent < b.spec_nodes().len()
        &&& b.spec_nodes()[self.parent as int].spec_is_dir()
        &&& self.known ==> {
            &&& utf16_text(self.path_wide@) == Some(self.path_text@)
            &&& b.spec_path_bytes(self.parent) == trim_seps(encode_utf8(self.path_text@))
        }
    }

    /// A cursor that remembers no path yet.
    pub fn new(builder: &Builder) -> (r: Cursor)
        requires
            builder.inv(),
        ensures
            r.inv(*builder),
    {
        proof {
            builder.lemma_root_folder();
        }
        Cursor { path_wide: Vec::new(), path_text: String::new(), name_text: String::new(), parent: ROOT, known: false }
    }

    /// Adds the file of `record` to the builder, in the folder at its path,
    /// which is added first when it is new. Fails when the name or the path
    /// is not UTF-16 text, or when the builder refuses.
    pub fn take(&mut self, builder: &mut Builder, record: &Record<'_>) -> (r: Result<Id, String>)
        requires
            old(builder).inv(),
            old(self).inv(*old(builder)),
        ensures
            r matches Ok(id) ==> {
                &&& final(builder).inv()
                &&& final(self).inv(*final(builder))
                &&& old(builder).grows_into(final(builder))
                &&& final(builder).spec_nodes().len() > old(builder).spec_nodes().len()
                &&& file_records(final(builder).spec_nodes()) == file_records(old(builder).spec_nodes()) + 1
                &&& total_bytes(final(builder).spec_nodes()) == total_bytes(old(builder).spec_nodes()) + match record.bytes {
                    Some(b) => b as int,
                    None => 0,
                }
                &&& file_taken(*final(builder), id, record.name@, record.path@, record.bytes)
            },
            utf16_text(record.name@) is None || utf16_text(record.path@) is None ==> r is Err,
            r matches Err(e) ==> e@ == BAD_UTF16@ || refusal_text(e@),
            r matches Err(e) && e@ == BAD_UTF16@ ==> utf16_text(record.name@) is None || utf16_text(
                record.path@,
            ) is None,
            r matches Err(e) && e@ != BAD_UTF16@ ==> at_limit(
                *final(builder),
                utf8_len(record.path@),
                utf8_len(record.name@),
            ),
            utf16_text(record.name@) is Some && utf16_text(record.path@) is Some && has_room(
                *old(builder),
                utf8_len(record.path@),
                utf8_len(record.name@),
            ) ==> r is Ok,
    {
        let ghost start = *builder;
        proof {
            start.lemma_grows_refl();
            lemma_refusals_are_not_bad_text();
        }
        if !self.known || !same_units(record.path, self.path_wide.as_slice()) {
            match decode(record.path, &mut self.path_text) {
                Ok(()) => {},
                Err(e) => {
                    return Err(e);
                },
            }
            let ghost before = *builder;
            self.parent = match builder.folder(self.path_text.as_str()) {
                Ok(id) => id,
                Err(e) => {
                    return Err(e);
                },
            };
            proof {
                before.lemma_grows_nodes(&*builder);
                lemma_files_folders_added(before.spec_nodes(), builder.spec_nodes());
                builder.lemma_folders_unsized();
                lemma_bytes_zero_added(before.spec_nodes(), builder.spec_nodes());
            }
            self.path_wide = units_vec(record.path);
            self.known = true;
        }
        let ghost folded = *builder;
        proof {
            if utf16_text(record.path@) is None {
                assert(self.path_wide@ == record.path@);
            }
        }
        match decode(record.name, &mut self.name_text) {
            Ok(()) => {},
            Err(e) => {
                return Err(e);
            },
        }
        let id = match builder.add_file(self.parent, self.name_text.as_str(), record.bytes) {
            Ok(id) => id,
            Err(e) => {
                proof {
                    folded.lemma_push_refusal(encode_utf8(self.name_text@).len());
                }
                return Err(e);
            },
        };
        proof {
            folded.lemma_grows_nodes(&*builder);
            folded.lemma_grows_paths(&*builder, self.parent);
            lemma_files_push(folded.spec_nodes(), builder.spec_nodes().last());
            lemma_bytes_push(folded.spec_nodes(), builder.spec_nodes().last());
            assert(folded.spec_nodes().push(builder.spec_nodes().last()) =~= builder.spec_nodes());
            start.lemma_grows_trans(&folded, &*builder);
            assert(self.path_wide@ == record.path@);
            let e = encode_utf8(self.name_text@);
            let n = builder.spec_nodes()[id as int];
            folded.lemma_push_bounds(e.len());
            assert(name_bytes(builder.spec_names(), n) =~= e) by {
                assert(builder.spec_names() == folded.spec_names() + e);
                assert(n.name_offset == folded.spec_names().len());
                assert(n.name_len == e.len());
            }
        }
        Ok(id)
    }
}

/// Each logged read names a query that was made and a place inside its page.
pub open spec fn logs_placed(
    requests: Seq<(usize, usize, usize)>,
    counts: Seq<usize>,
    reads: Seq<(int, int, Entry)>,
    scans: Seq<(int, int, Ident)>,
) -> bool {
    &&& counts.len() == requests.len()
    &&& forall|k: int|
        0 <= k < reads.len() ==> 0 <= (#[trigger] reads[k]).0 < requests.len() && 0 <= reads[k].1
            < counts[reads[k].0]
    &&& forall|k: int|
        0 <= k < scans.len() ==> 0 <= (#[trigger] scans[k]).0 < requests.len() && 0 <= scans[k].1
            < counts[scans[k].0]
}

/// Everything a capture read agrees with one unchanging `index`: each query
/// reported its length and a page holding the part of it that was asked for,
/// and each record read was the record at that place of `index`.
pub open spec fn read_from(
    requests: Seq<(usize, usize, usize)>,
    counts: Seq<usize>,
    reads: Seq<(int, int, Entry)>,
    scans: Seq<(int, int, Ident)>,
    index: Seq<Entry>,
) -> bool {
    &&& logs_placed(requests, counts, reads, scans)
    &&& forall|q: int|
        0 <= q < requests.len() ==> (#[trigger] requests[q]).2 == index.len() && counts[q] == window(
            index,
            requests[q].0 as int,
            requests[q].1 as int,
        ).len()
    &&& forall|k: int|
        0 <= k < reads.len() ==> (#[trigger] reads[k]).2 == index[requests[reads[k].0].0 + reads[k].1]
    &&& forall|k: int|
        0 <= k < scans.len() ==> (#[trigger] scans[k]).2 == ident_of(
            index[requests[scans[k].0].0 + scans[k].1],
        )
}

/// Of `index`, the first `next` records were taken, and `anchors` are the
/// identities of the records just before `next`.
pub open spec fn captured_upto(index: Seq<Entry>, next: int, taken: Seq<Entry>, anchors: Seq<Ident>) -> bool {
    &&& next <= index.len()
    &&& taken == index.take(next)
    &&& anchors.len() <= next
    &&& anchors == index.subrange(next - anchors.len(), next).map_values(|e: Entry| ident_of(e))
}

/// What agrees with longer logs agrees with the logs they began as.
proof fn lemma_read_from_prefix(
    requests: Seq<(usize, usize, usize)>,
    counts: Seq<usize>,
    reads: Seq<(int, int, Entry)>,
    scans: Seq<(int, int, Ident)>,
    requests2: Seq<(usize, usize, usize)>,
    counts2: Seq<usize>,
    reads2: Seq<(int, int, Entry)>,
    scans2: Seq<(int, int, Ident)>,
    index: Seq<Entry>,
)
    requires
        logs_placed(requests, counts, reads, scans),
        requests.len() <= requests2.len(),
        requests2.take(requests.len() as int) == requests,
        counts.len() <= counts2.len(),
        counts2.take(counts.len() as int) == counts,
        reads.len() <= reads2.len(),
        reads2.take(reads.len() as int) == reads,
        scans.len() <= scans2.len(),
        scans2.take(scans.len() as int) == scans,
        read_from(requests2, counts2, reads2, scans2, index),
    ensures
        read_from(requests, counts, reads, scans, index),
{
    assert forall|q: int| 0 <= q < requests.len() implies (#[trigger] requests[q]).2 == index.len()
        && counts[q] == window(index, requests[q].0 as int, requests[q].1 as int).len() by {
        assert(requests2.take(requests.len() as int)[q] == requests2[q]);
        assert(counts2.take(counts.len() as int)[q] == counts2[q]);
        assert(requests2[q].2 == index.len());
    }
    assert forall|k: int| 0 <= k < reads.len() implies (#[trigger] reads[k]).2 == index[requests[reads[k].0].0
        + reads[k].1] by {
        assert(reads2.take(reads.len() as int)[k] == reads2[k]);
        assert(reads2[k].2 == index[requests2[reads2[k].0].0 + reads2[k].1]);
        assert(requests2.take(requests.len() as int)[reads[k].0] == requests2[reads[k].0]);
    }
    assert forall|k: int| 0 <= k < scans.len() implies (#[trigger] scans[k]).2 == ident_of(
        index[requests[scans[k].0].0 + scans[k].1],
    ) by {
        assert(scans2.take(scans.len() as int)[k] == scans2[k]);
        assert(scans2[k].2 == ident_of(index[requests2[scans2[k].0].0 + scans2[k].1]));
        assert(requests2.take(requests.len() as int)[scans[k].0] == requests2[scans[k].0]);
    }
}

/// One page that a capture took records from.
pub struct Taking {
    /// The query whose page it was.
    pub query: int,
    /// The identities of the anchors looked for in it.
    pub anchors: Seq<Ident>,
    /// The identities read while looking for them.
    pub scanned: Seq<Ident>,
    /// Where in the page taking began.
    pub resume: int,
    /// The records taken, from `resume` to the end of the page.
    pub records: Seq<Entry>,
    /// Where in the log of reads the taken records stand.
    pub first_read: int,
    /// The identities kept as the next page's anchors.
    pub kept: Seq<Ident>,
    /// Where in the log of reads the kept records stand.
    pub first_kept: int,
}

/// A page taken as the capture takes them: without anchors from its start,
/// else just past the newest anchor `resume_of` finds in what was scanned;
/// every record from there to the page's end, each read at its place; and as
/// anchors for the next page, the identities of the page's last records.
pub open spec fn taking_ok(t: Taking, counts: Seq<usize>, reads: Seq<(int, int, Entry)>, overlap: int) -> bool {
    &&& 0 <= t.query < counts.len()
    &&& t.anchors.len() == 0 ==> t.resume == 0
    &&& t.anchors.len() > 0 ==> resume_of(t.scanned, t.anchors) == Some(t.resume)
    &&& 0 <= t.resume <= counts[t.query]
    &&& t.records.len() == counts[t.query] - t.resume
    &&& 0 <= t.first_read && t.first_read + t.records.len() <= reads.len()
    &&& forall|j: int|
        0 <= j < t.records.len() ==> #[trigger] reads[t.first_read + j] == (t.query, t.resume + j, t.records[j])
    &&& t.kept.len() <= overlap
    &&& 0 <= t.first_kept && t.first_kept + t.kept.len() <= reads.len()
    &&& forall|j: int|
        0 <= j < t.kept.len() ==> (#[trigger] reads[t.first_kept + j]).0 == t.query && reads[t.first_kept
            + j].1 == counts[t.query] - t.kept.len() + j && ident_of(reads[t.first_kept + j].2) == t.kept[j]
}

/// The pages of a capture in order: each taken as `taking_ok` says, the first
/// without anchors, each later one looking for what the one before kept.
pub open spec fn takings_ok(steps: Seq<Taking>, counts: Seq<usize>, reads: Seq<(int, int, Entry)>, overlap: int) -> bool {
    &&& forall|s: int| 0 <= s < steps.len() ==> taking_ok(#[trigger] steps[s], counts, reads, overlap)
    &&& steps.len() > 0 ==> steps[0].anchors.len() == 0
    &&& forall|s: int| 0 < s < steps.len() ==> (#[trigger] steps[s]).anchors == steps[s - 1].kept
}

/// The records taken from the pages `steps`, one page after another.
pub open spec fn taken_from(steps: Seq<Taking>) -> Seq<Entry>
    decreases steps.len(),
{
    if steps.len() == 0 {
        Seq::empty()
    } else {
        taken_from(steps.drop_last()) + steps.last().records
    }
}

/// What held of pages read stays true as more is read.
proof fn lemma_takings_grow(
    steps: Seq<Taking>,
    counts: Seq<usize>,
    reads: Seq<(int, int, Entry)>,
    counts2: Seq<usize>,
    reads2: Seq<(int, int, Entry)>,
    overlap: int,
)
    requires
        takings_ok(steps, counts, reads, overlap),
        counts.len() <= counts2.len(),
        counts2.take(counts.len() as int) == counts,
        reads.len() <= reads2.len(),
        reads2.take(reads.len() as int) == reads,
    ensures
        takings_ok(steps, counts2, reads2, overlap),
{
    assert forall|s: int| 0 <= s < steps.len() implies taking_ok(#[trigger] steps[s], counts2, reads2, overlap) by {
        let t = steps[s];
        assert(taking_ok(t, counts, reads, overlap));
        assert(counts2[t.query] == counts2.take(counts.len() as int)[t.query]);
        assert forall|j: int| 0 <= j < t.records.len() implies #[trigger] reads2[t.first_read + j] == (
        t.query, t.resume + j, t.records[j]) by {
            assert(reads2[t.first_read + j] == reads2.take(reads.len() as int)[t.first_read + j]);
            assert(reads[t.first_read + j] == (t.query, t.resume + j, t.records[j]));
        }
        assert forall|j: int| 0 <= j < t.kept.len() implies (#[trigger] reads2[t.first_kept + j]).0 == t.query
            && reads2[t.first_kept + j].1 == counts2[t.query] - t.kept.len() + j && ident_of(
            reads2[t.first_kept + j].2,
        ) == t.kept[j] by {
            assert(reads2[t.first_kept + j] == reads2.take(reads.len() as int)[t.first_kept + j]);
            assert((reads[t.first_kept + j]).0 == t.query);
        }
    }
}

/// A page added after the others keeps the order of pages.
proof fn lemma_takings_push(
    steps: Seq<Taking>,
    t: Taking,
    counts: Seq<usize>,
    reads: Seq<(int, int, Entry)>,
    overlap: int,
)
    requires
        takings_ok(steps, counts, reads, overlap),
        taking_ok(t, counts, reads, overlap),
        steps.len() == 0 ==> t.anchors.len() == 0,
        steps.len() > 0 ==> t.anchors == steps.last().kept,
    ensures
        takings_ok(steps.push(t), counts, reads, overlap),
        taken_from(steps.push(t)) == taken_from(steps) + t.records,
{
    let n = steps.push(t);
    assert(n.drop_last() =~= steps);
    assert forall|s: int| 0 <= s < n.len() implies taking_ok(#[trigger] n[s], counts, reads, overlap) by {
        if s < steps.len() {
            assert(n[s] == steps[s]);
        }
    }
    assert forall|s: int| 0 < s < n.len() implies (#[trigger] n[s]).anchors == n[s - 1].kept by {
        if s < steps.len() {
            assert(n[s] == steps[s]);
        }
        assert(n[s - 1] == steps[s - 1]);
    }
}

/// Record `id` of builder `b` is the file made of record `e`: a file of its
/// size (none when unknown, with the unknown mark), named by its name, in
/// the folder at its path.
pub open spec fn file_of(b: Builder, id: int, e: Entry) -> bool {
    let n = b.spec_nodes()[id];
    &&& 0 < id < b.spec_nodes().len()
    &&& !n.spec_is_dir()
    &&& n.bytes == (match e.2 {
        Some(x) => x,
        None => 0,
    })
    &&& n.flags == (if e.2 is None {
        UNKNOWN_SIZE
    } else {
        0
    })
    &&& utf16_text(e.0) matches Some(t) && name_bytes(b.spec_names(), n) == encode_utf8(t)
    &&& utf16_text(e.1) matches Some(t) && b.spec_path_bytes(n.parent) == trim_seps(encode_utf8(t))
}

/// The records `taken` are the files `ids` of `b`, one each, in order.
pub open spec fn files_of(b: Builder, ids: Seq<Id>, taken: Seq<Entry>) -> bool {
    &&& ids.len() == taken.len()
    &&& forall|k: int| 0 <= k < ids.len() ==> #[trigger] file_of(b, ids[k] as int, taken[k])
    &&& forall|j: int, k: int| 0 <= j < k < ids.len() ==> ids[j] < ids[k]
}

/// Files a builder had stay as they were while it grows.
proof fn lemma_files_of_kept(b: Builder, b2: Builder, ids: Seq<Id>, taken: Seq<Entry>)
    requires
        b.inv(),
        b.grows_into(&b2),
        files_of(b, ids, taken),
    ensures
        files_of(b2, ids, taken),
{
    b.lemma_records_ok();
    assert forall|k: int| 0 <= k < ids.len() implies #[trigger] file_of(b2, ids[k] as int, taken[k]) by {
        let id = ids[k] as int;
        assert(file_of(b, id, taken[k]));
        b.lemma_names_kept(&b2, id);
        let p = b.spec_nodes()[id].parent;
        assert(crate::model::parents_ok(b.spec_nodes()));
        b.lemma_grows_paths(&b2, p);
        b.lemma_grows_nodes(&b2);
    }
}

/// What a finished capture holds: a well-formed builder of the records
/// taken, the queries it made, and the pages it took them from; and, when all
/// it read agrees with one unchanging index whose records differ in name or
/// path, exactly that index's records and no change counted.
pub open spec fn captured(c: Capture, page_size: int) -> bool {
    &&& c.builder.inv()
    &&& files_of(c.builder, c.files@, c.taken@)
    &&& requests_ok(c.requests@, page_size)
    &&& file_records(c.builder.spec_nodes()) == c.taken@.len()
    &&& total_bytes(c.builder.spec_nodes()) == taken_bytes(c.taken@)
    &&& forall|i: int|
        0 <= i < c.taken@.len() ==> utf16_text((#[trigger] c.taken@[i]).0) is Some && utf16_text(
            c.taken@[i].1,
        ) is Some
    &&& c.stats.queries == if c.requests@.len() < u64::MAX {
        c.requests@.len() as int
    } else {
        u64::MAX as int
    }
    &&& logs_placed(c.requests@, c.counts@, c.reads@, c.scans@)
    &&& takings_ok(c.pages@, c.counts@, c.reads@, spec_overlap(page_size))
    &&& c.taken@ == taken_from(c.pages@)
    &&& forall|index: Seq<Entry>|
        #[trigger] read_from(c.requests@, c.counts@, c.reads@, c.scans@, index) && distinct_idents(
            index,
        ) ==> c.taken@ == index && c.stats.changes == 0
}

/// Why a capture stopped short of the end of the index.
pub enum Stop {
    /// The cancel flag was set.
    Cancelled,
    /// The source answered a query or a read with this error.
    Source(String),
    /// A record was not UTF-16 text, or the builder refused it.
    Record,
    /// A page showed that the index moved too far to resume.
    Moved,
    /// The requests ran out, or the index emptied, before the end of an index
    /// that was not empty at first.
    Unfinished,
}

/// The queries a capture answered and why it stopped.
pub struct Trace {
    pub requests: Seq<(usize, usize, usize)>,
    pub stop: Stop,
}

/// A capture that failed with `e` made queries as a capture does, and `e`
/// says why it stopped: "Cancelled", the source's own error, the refusal of a
/// record, or `MOVED` when the index moved too far or the capture could not
/// reach the end of an index that was not empty.
pub open spec fn stopped(t: Trace, e: String, page_size: int) -> bool {
    &&& t.requests.len() >= 1 ==> requests_ok(t.requests, page_size)
    &&& match t.stop {
        Stop::Cancelled => e@ == "Cancelled"@,
        Stop::Source(x) => e@ == x@,
        Stop::Record => e@ == BAD_UTF16@ || refusal_text(e@),
        Stop::Moved => e@ == MOVED@,
        Stop::Unfinished => e@ == MOVED@ && t.requests.len() >= 1 && t.requests[0].2 != 0,
    }
}

/// Reads the whole index a page at a time into a builder. Pages overlap by
/// a few records, whose exact identities tell where the next page resumes
/// when records were added or removed before the cursor meanwhile. The
/// capture notes each query and each record it read; when all of that agrees
/// with one index whose records differ in name or path, the records taken
/// are exactly that index's, each once and in order.
#[verifier::rlimit(100)]
#[verifier::spinoff_prover]
pub fn collect_traced<S: Source, F: Fn(&str, usize, usize)>(
    source: &mut S,
    page_size: usize,
    cancel: &AtomicBool,
    progress: F,
) -> (out: (Result<Capture, String>, Ghost<Trace>))
    requires
        page_size >= 4,
        forall|m: &str, a: usize, b: usize| progress.requires((m, a, b)),
    ensures
        out.0 matches Err(e) ==> stopped(out.1@, e, page_size as int),
        out.0 matches Ok(c) ==> captured(c, page_size as int),
{
    let overlap = overlap_for(page_size);
    let mut stats = LoadStats::zero();
    progress("Counting indexed files", 0, 0);
    let first = match timed_query(source, 0, 0, &mut stats) {
        Ok(p) => p,
        Err(e) => {
            let ghost ge = e;
            return (Err(e), Ghost(Trace { requests: Seq::empty(), stop: Stop::Source(ge) }));
        },
    };
    let ghost mut requests: Seq<(usize, usize, usize)> = seq![(0usize, 0usize, first.total)];
    let ghost mut counts: Seq<usize> = seq![first.count];
    let ghost mut reads: Seq<(int, int, Entry)> = Seq::empty();
    let ghost mut scans: Seq<(int, int, Ident)> = Seq::empty();
    let ghost mut taken: Seq<(Seq<u16>, Seq<u16>, Option<u64>)> = Seq::empty();
    let ghost mut pages: Seq<Taking> = Seq::empty();
    let ghost mut ids: Seq<Id> = Seq::empty();
    let mut total = first.total;
    let mut builder = Builder::new(total);
    let mut cursor = Cursor::new(&builder);
    let mut added: usize = 0;
    let mut next: usize = 0;
    let mut anchors: Vec<Anchor> = Vec::new();
    let request_budget = request_budget(total, page_size - overlap);
    proof {
        builder.lemma_root_folder();
        assert forall|index: Seq<Entry>|
            #[trigger] read_from(requests, counts, reads, scans, index) && distinct_idents(index) implies captured_upto(
            index,
            next as int,
            taken,
            anchor_idents(anchors@),
        ) by {
            assert(index.take(0) =~= taken);
            assert(index.subrange(0, 0).map_values(|e: Entry| ident_of(e)) =~= anchor_idents(anchors@));
        }
        assert(anchor_idents(anchors@) =~= Seq::<Ident>::empty());
    }
    let mut request: usize = 0;
    while request < request_budget
        invariant
            builder.inv(),
            cursor.inv(builder),
            added + 1 <= builder.spec_nodes().len(),
            file_records(builder.spec_nodes()) == taken.len(),
            total_bytes(builder.spec_nodes()) == taken_bytes(taken),
            forall|i: int|
                0 <= i < taken.len() ==> utf16_text((#[trigger] taken[i]).0) is Some && utf16_text(
                    taken[i].1,
                ) is Some,
            requests.len() >= 1,
            requests[0] == (0usize, 0usize, first.total),
            forall|i: int| 1 <= i < requests.len() ==> (#[trigger] requests[i]).1 == page_size,
            requests.len() <= 1 + 2 * request,
            request <= request_budget,
            requests_ok(requests, page_size as int),
            request_budget == spec_request_budget(first.total as int, page_size - overlap),
            stats.queries == if requests.len() < u64::MAX {
                requests.len() as int
            } else {
                u64::MAX as int
            },
            overlap == spec_overlap(page_size as int),
            page_size >= 4,
            forall|m: &str, a: usize, b: usize| progress.requires((m, a, b)),
            logs_placed(requests, counts, reads, scans),
            total == requests.last().2,
            anchors@.len() <= overlap,
            anchors@.len() <= next,
            forall|index: Seq<Entry>|
                #[trigger] read_from(requests, counts, reads, scans, index) && distinct_idents(index)
                    ==> captured_upto(index, next as int, taken, anchor_idents(anchors@)) && stats.changes == 0,
            takings_ok(pages, counts, reads, overlap as int),
            taken == taken_from(pages),
            files_of(builder, ids, taken),
            anchor_idents(anchors@) == if pages.len() == 0 {
                Seq::<Ident>::empty()
            } else {
                pages.last().kept
            },
        decreases request_budget - request,
    {
        request = request + 1;
        if cancelled(cancel) {
            return (
                    Err(String::from_str("Cancelled")),
                    Ghost(Trace { requests, stop: Stop::Cancelled }),
                );
        }
        if next >= total && anchors.len() == 0 {
            break;
        }
        let ghost requests0 = requests;
        let ghost counts0 = counts;
        let ghost reads0 = reads;
        let ghost scans0 = scans;
        let ghost taken0 = taken;
        let ghost next0 = next as int;
        let ghost a0 = anchor_idents(anchors@);
        let ghost changes0 = stats.changes;
        let mut offset = next.saturating_sub(anchors.len());
        progress("Requesting indexed files", added, if total > added {
            total
        } else {
            added
        });
        let previous_total = total;
        let mut page = match timed_query(source, offset, page_size, &mut stats) {
            Ok(p) => p,
            Err(e) => {
                let ghost ge = e;
                    return (Err(e), Ghost(Trace { requests, stop: Stop::Source(ge) }));
            },
        };
        proof {
            requests = requests.push((offset, page_size, page.total));
            counts = counts.push(page.count);
        }
        let ghost q1 = requests.len() - 1;
        if page.total != total {
            stats.changes = stats.changes.saturating_add(1);
        }
        total = page.total;
        proof {
            assert(requests.take(requests0.len() as int) =~= requests0);
            assert(counts.take(counts0.len() as int) =~= counts0);
            assert(reads.take(reads0.len() as int) =~= reads0);
            assert(scans.take(scans0.len() as int) =~= scans0);
            assert forall|k: int| 0 <= k < reads.len() implies 0 <= (#[trigger] reads[k]).0 < requests.len()
                && 0 <= reads[k].1 < counts[reads[k].0] by {
                assert(counts[reads[k].0] == counts0[reads[k].0]);
            }
            assert forall|k: int| 0 <= k < scans.len() implies 0 <= (#[trigger] scans[k]).0 < requests.len()
                && 0 <= scans[k].1 < counts[scans[k].0] by {
                assert(counts[scans[k].0] == counts0[scans[k].0]);
            }
            assert forall|index: Seq<Entry>|
                #[trigger] read_from(requests, counts, reads, scans, index) && distinct_idents(index) implies captured_upto(
                index,
                next as int,
                taken,
                anchor_idents(anchors@),
            ) && stats.changes == 0 by {
                lemma_read_from_prefix(requests0, counts0, reads0, scans0, requests, counts, reads, scans, index);
                assert(requests[requests.len() - 1] == (offset, page_size, page.total));
                assert(requests0[requests0.len() - 1] == requests[requests0.len() - 1]);
            }
            lemma_takings_grow(pages, counts0, reads0, counts, reads, overlap as int);
        }
        let ghost requests_q = requests;
        let ghost counts_q = counts;
        if page.count == 0 && anchors.len() == 0 {
            break;
        }
        let ghost mut seen1: Seq<Ident> = Seq::empty();
        let ghost mut seen_used: Seq<Ident> = Seq::empty();
        let mut resume = if anchors.len() == 0 {
            Some(0)
        } else {
            let (found, seen) = find_resume(source, &anchors, page.count);
            proof {
                seen1 = seen@;
                seen_used = seen@;
                scans = scans + seen@.map(|k: int, x: Ident| (q1, k, x));
            }
            match found {
                Ok(x) => x,
                Err(e) => {
                    let ghost ge = e;
                    return (Err(e), Ghost(Trace { requests, stop: Stop::Source(ge) }));
                },
            }
        };
        let ghost scans1 = scans;
        proof {
            // Against an unchanging index the anchors are found where the cursor left them.
            assert forall|index: Seq<Entry>|
                #[trigger] read_from(requests, counts, reads, scans, index) && distinct_idents(index) implies resume
                == Some(a0.len() as usize) && offset == next0 - a0.len() && page.count == window(
                index,
                offset as int,
                page_size as int,
            ).len() && page.total == index.len() && captured_upto(index, next0, taken0, a0) by {
                assert(scans0.len() <= scans.len());
                assert(scans.take(scans0.len() as int) =~= scans0);
                lemma_read_from_prefix(requests0, counts0, reads0, scans0, requests, counts, reads, scans, index);
                assert(requests[q1] == (offset, page_size, page.total));
                if a0.len() > 0 {
                    assert forall|k: int| 0 <= k < seen1.len() implies #[trigger] seen1[k] == ident_of(index[offset + k]) by {
                        assert(scans[scans0.len() + k] == (q1, k, seen1[k]));
                    }
                    lemma_resume_on_unchanged_index(index, offset as int, page.count as int, a0, seen1);
                }
            }
        }
        if resume.is_none() {
            // A large shift before our cursor: move the search window by the
            // observed count delta, then try one wider window around that point.
            stats.changes = stats.changes.saturating_add(1);
            offset = realign(next, total, previous_total, page_size);
            progress("Realigning changed index", added, if total > added {
                total
            } else {
                added
            });
            page = match timed_query(source, offset, page_size, &mut stats) {
                Ok(p) => p,
                Err(e) => {
                    let ghost ge = e;
                    return (Err(e), Ghost(Trace { requests, stop: Stop::Source(ge) }));
                },
            };
            let ghost requests1 = requests;
            let ghost counts1 = counts;
            proof {
                requests = requests.push((offset, page_size, page.total));
                counts = counts.push(page.count);
            }
            let ghost q2 = requests.len() - 1;
            total = page.total;
            let (found, seen) = find_resume(source, &anchors, page.count);
            proof {
                scans = scans + seen@.map(|k: int, x: Ident| (q2, k, x));
                seen_used = seen@;
                assert(counts.take(counts1.len() as int) =~= counts1);
                assert(reads.take(reads.len() as int) =~= reads);
                lemma_takings_grow(pages, counts1, reads, counts, reads, overlap as int);
            }
            resume = match found {
                Ok(x) => x,
                Err(e) => {
                    let ghost ge = e;
                    return (Err(e), Ghost(Trace { requests, stop: Stop::Source(ge) }));
                },
            };
            proof {
                assert(requests.take(requests1.len() as int) =~= requests1);
                assert(counts.take(counts1.len() as int) =~= counts1);
                assert(reads.take(reads.len() as int) =~= reads);
                assert(scans.take(scans1.len() as int) =~= scans1);
                assert forall|index: Seq<Entry>|
                    #[trigger] read_from(requests, counts, reads, scans, index) implies !distinct_idents(index) by {
                    lemma_read_from_prefix(requests1, counts1, reads, scans1, requests, counts, reads, scans, index);
                }
            }
        }
        let resume = match resume {
            Some(p) => p,
            None => {
                return (Err(String::from_str(MOVED)), Ghost(Trace { requests, stop: Stop::Moved }));
            },
        };
        let ghost changes1 = stats.changes;
        if anchors.len() != 0 && resume != anchors.len() {
            stats.changes = stats.changes.saturating_add(1);
        }
        proof {
            assert forall|index: Seq<Entry>|
                #[trigger] read_from(requests, counts, reads, scans, index) && distinct_idents(index) implies stats.changes
                == 0 by {
                assert(requests.take(requests_q.len() as int) =~= requests_q);
                assert(counts.take(counts_q.len() as int) =~= counts_q);
                assert(reads.take(reads.len() as int) =~= reads);
                assert(scans.take(scans0.len() as int) =~= scans0);
                lemma_read_from_prefix(requests_q, counts_q, reads, scans0, requests, counts, reads, scans, index);
                assert(resume == a0.len());
            }
        }
        let ghost q = requests.len() - 1;
        let ghost requests2 = requests;
        let ghost counts2 = counts;
        let ghost reads2 = reads;
        let ghost scans2 = scans;
        let ghost taken2 = taken;
        let decode_start = now();
        let mut i = resume;
        while i < page.count
            invariant
                builder.inv(),
                cursor.inv(builder),
                added + 1 <= builder.spec_nodes().len(),
                file_records(builder.spec_nodes()) == taken.len(),
                total_bytes(builder.spec_nodes()) == taken_bytes(taken),
                forall|j: int|
                    0 <= j < taken.len() ==> utf16_text((#[trigger] taken[j]).0) is Some && utf16_text(
                        taken[j].1,
                    ) is Some,
                forall|m: &str, a: usize, b: usize| progress.requires((m, a, b)),
                resume <= i <= page.count || (i == resume && resume > page.count),
                requests.len() >= 1,
                q == requests.len() - 1,
                requests == requests2,
                requests_ok(requests, page_size as int),
                counts == counts2,
                scans == scans2,
                counts[q] == page.count,
                logs_placed(requests, counts, reads, scans),
                reads.len() == reads2.len() + (i - resume),
                taken.len() == taken2.len() + (i - resume),
                reads.take(reads2.len() as int) == reads2,
                taken.take(taken2.len() as int) == taken2,
                files_of(builder, ids, taken),
                forall|j: int|
                    0 <= j < i - resume ==> #[trigger] reads[reads2.len() + j] == (q, resume + j, taken[taken2.len() + j]),
            decreases page.count - i,
        {
            if i % 65536 == 0 {
                if cancelled(cancel) {
                    return (
                    Err(String::from_str("Cancelled")),
                    Ghost(Trace { requests, stop: Stop::Cancelled }),
                );
                }
                progress("Building the file hierarchy", added, if total > added {
                    total
                } else {
                    added
                });
            }
            let record = match source.record(i) {
                Ok(r) => r,
                Err(e) => {
                    let ghost ge = e;
                    return (Err(e), Ghost(Trace { requests, stop: Stop::Source(ge) }));
                },
            };
            let ghost held = builder;
            let taken_id = match cursor.take(&mut builder, &record) {
                Ok(id) => id,
                Err(e) => {
                    return (Err(e), Ghost(Trace { requests, stop: Stop::Record }));
                },
            };
            proof {
                let ghost before = taken;
                let ghost reads_before = reads;
                let ghost e: Entry = (record.name@, record.path@, record.bytes);
                lemma_files_of_kept(held, builder, ids, before);
                let ghost ids_before = ids;
                ids = ids.push(taken_id);
                taken = taken.push(e);
                reads = reads.push((q, i as int, e));
                assert forall|k: int| 0 <= k < ids.len() implies #[trigger] file_of(builder, ids[k] as int, taken[k]) by {
                    if k < ids_before.len() {
                        assert(ids[k] == ids_before[k]);
                        assert(taken[k] == before[k]);
                    }
                }
                assert forall|x: int, y: int| 0 <= x < y < ids.len() implies ids[x] < ids[y] by {
                    if y == ids.len() - 1 {
                        assert(file_of(held, ids_before[x] as int, before[x]));
                    }
                }
                assert(taken.drop_last() =~= before);
                assert(reads.take(reads2.len() as int) =~= reads_before.take(reads2.len() as int));
                assert(taken.take(taken2.len() as int) =~= before.take(taken2.len() as int));
                assert forall|j: int| 0 <= j < i + 1 - resume implies #[trigger] reads[reads2.len() + j] == (q, resume + j, taken[taken2.len() + j]) by {
                    if j < i - resume {
                        assert(reads[reads2.len() + j] == reads_before[reads2.len() + j]);
                        assert(taken[taken2.len() + j] == before[taken2.len() + j]);
                    }
                }
                assert forall|k: int| 0 <= k < reads.len() implies 0 <= (#[trigger] reads[k]).0 < requests.len()
                    && 0 <= reads[k].1 < counts[reads[k].0] by {
                    if k < reads_before.len() {
                        assert(reads[k] == reads_before[k]);
                    }
                }
            }
            added = added + 1;
            i = i + 1;
        }
        let ghost reads3 = reads;
        let ghost page_taken = Taking {
            query: q,
            anchors: a0,
            scanned: seen_used,
            resume: resume as int,
            records: taken.skip(taken2.len() as int),
            first_read: reads2.len() as int,
            kept: Seq::empty(),
            first_kept: reads.len() as int,
        };
        proof {
            assert(resume <= page.count);
            assert(i == page.count);
            assert forall|j: int| 0 <= j < page_taken.records.len() implies #[trigger] reads[page_taken.first_read
                + j] == (page_taken.query, page_taken.resume + j, page_taken.records[j]) by {
                assert(reads[reads2.len() + j] == (q, resume + j, taken[taken2.len() + j]));
            }
            assert(taking_ok(page_taken, counts, reads, overlap as int));
            assert(counts.take(counts.len() as int) =~= counts);
            lemma_takings_grow(pages, counts, reads2, counts, reads, overlap as int);
            assert(taken =~= taken_from(pages) + page_taken.records);
        }
        proof {
            // The records taken from this page continue the index where the cursor stood.
            assert forall|index: Seq<Entry>|
                #[trigger] read_from(requests, counts, reads, scans, index) && distinct_idents(index) implies offset
                + page.count <= index.len() && taken == index.take(offset + page.count) && page.total == index.len()
                && offset + resume == next0 && stats.changes == 0 by {
                assert(requests.take(requests.len() as int) =~= requests);
                assert(counts.take(counts.len() as int) =~= counts);
                assert(scans.take(scans.len() as int) =~= scans);
                lemma_read_from_prefix(requests2, counts2, reads2, scans2, requests, counts, reads, scans, index);
                assert(captured_upto(index, next0, taken0, a0));
                if resume < page.count {
                    assert(reads[reads2.len() + (page.count - 1 - resume)] == (q, page.count - 1, taken[taken2.len() + (page.count - 1 - resume)]));
                }
                assert forall|t: int| 0 <= t < taken.len() implies taken[t] == index.take(offset + page.count)[t] by {
                    if t < taken2.len() {
                        assert(taken[t] == taken2[t]);
                    } else {
                        let j = t - taken2.len();
                        assert(reads[reads2.len() + j] == (q, resume + j, taken[taken2.len() + j]));
                    }
                }
                assert(taken =~= index.take(offset + page.count));
            }
        }
        stats.decode_us = stats.decode_us.saturating_add(micros_since(&decode_start));
        let end = match after_page(offset, page.count, total, next, resume, overlap) {
            PageStep::Done => {
                proof {
                    assert forall|index: Seq<Entry>|
                        #[trigger] read_from(requests, counts, reads, scans, index) && distinct_idents(index) implies taken
                        == index && stats.changes == 0 by {
                        assert(index.take(index.len() as int) =~= index);
                    }
                    lemma_takings_push(pages, page_taken, counts, reads, overlap as int);
                    pages = pages.push(page_taken);
                }
                return (Ok(
                    Capture {
                        builder,
                        stats,
                        requests: Ghost(requests),
                        taken: Ghost(taken),
                        counts: Ghost(counts),
                        reads: Ghost(reads),
                        scans: Ghost(scans),
                        pages: Ghost(pages),
                        files: Ghost(ids),
                    },
                ), Ghost(Trace { requests, stop: Stop::Moved }));
            },
            PageStep::Moved => {
                return (Err(String::from_str(MOVED)), Ghost(Trace { requests, stop: Stop::Moved }));
            },
            PageStep::Onward(end) => end,
        };
        anchors.clear();
        let mut k = page.count - overlap;
        while k < page.count
            invariant
                page.count - overlap <= k <= page.count,
                overlap < page.count,
                requests.len() >= 1,
                q == requests.len() - 1,
                requests == requests2,
                requests_ok(requests, page_size as int),
                counts == counts2,
                scans == scans2,
                counts[q] == page.count,
                logs_placed(requests, counts, reads, scans),
                reads.len() == reads3.len() + (k - (page.count - overlap)),
                reads.take(reads3.len() as int) == reads3,
                anchors@.len() == k - (page.count - overlap),
                forall|j: int|
                    0 <= j < anchors@.len() ==> #[trigger] reads[reads3.len() + j].0 == q && reads[reads3.len() + j].1
                        == page.count - overlap + j && ident_of(reads[reads3.len() + j].2) == (anchors@[j].name@, anchors@[j].path@),
            decreases page.count - k,
        {
            let record = match source.record(k) {
                Ok(r) => r,
                Err(e) => {
                    let ghost ge = e;
                    return (Err(e), Ghost(Trace { requests, stop: Stop::Source(ge) }));
                },
            };
            let ghost reads_before = reads;
            let ghost anchors_before = anchors@;
            anchors.push(Anchor { name: units_vec(record.name), path: units_vec(record.path) });
            proof {
                reads = reads.push((q, k as int, (record.name@, record.path@, record.bytes)));
                assert(reads.take(reads3.len() as int) =~= reads_before.take(reads3.len() as int));
                assert forall|j: int| 0 <= j < anchors@.len() implies #[trigger] reads[reads3.len() + j].0 == q
                    && reads[reads3.len() + j].1 == page.count - overlap + j && ident_of(reads[reads3.len() + j].2)
                    == (anchors@[j].name@, anchors@[j].path@) by {
                    if j < anchors_before.len() {
                        assert(reads[reads3.len() + j] == reads_before[reads3.len() + j]);
                        assert(anchors@[j] == anchors_before[j]);
                    }
                }
                assert forall|m: int| 0 <= m < reads.len() implies 0 <= (#[trigger] reads[m]).0 < requests.len()
                    && 0 <= reads[m].1 < counts[reads[m].0] by {
                    if m < reads_before.len() {
                        assert(reads[m] == reads_before[m]);
                    }
                }
            }
            k = k + 1;
        }
        proof {
            assert forall|index: Seq<Entry>|
                #[trigger] read_from(requests, counts, reads, scans, index) && distinct_idents(index) implies captured_upto(
                index,
                end as int,
                taken,
                anchor_idents(anchors@),
            ) && stats.changes == 0 by {
                assert(requests.take(requests.len() as int) =~= requests);
                assert(counts.take(counts.len() as int) =~= counts);
                assert(scans.take(scans.len() as int) =~= scans);
                lemma_read_from_prefix(requests, counts, reads3, scans, requests, counts, reads, scans, index);
                let want = index.subrange(end - overlap, end as int).map_values(|e: Entry| ident_of(e));
                assert forall|j: int| 0 <= j < overlap implies anchor_idents(anchors@)[j] == want[j] by {
                    assert(reads[reads3.len() + j].0 == q);
                }
                assert(anchor_idents(anchors@) =~= want);
            }
        }
        proof {
            let kept_page = Taking { kept: anchor_idents(anchors@), first_kept: reads3.len() as int, ..page_taken };
            assert forall|j: int| 0 <= j < kept_page.records.len() implies #[trigger] reads[kept_page.first_read
                + j] == (kept_page.query, kept_page.resume + j, kept_page.records[j]) by {
                assert(reads[kept_page.first_read + j] == reads.take(reads3.len() as int)[kept_page.first_read + j]);
                assert(reads3[kept_page.first_read + j] == (page_taken.query, page_taken.resume + j, page_taken.records[j]));
            }
            assert forall|j: int| 0 <= j < kept_page.kept.len() implies (#[trigger] reads[kept_page.first_kept
                + j]).0 == kept_page.query && reads[kept_page.first_kept + j].1 == counts[kept_page.query]
                - kept_page.kept.len() + j && ident_of(reads[kept_page.first_kept + j].2) == kept_page.kept[j] by {
                assert(reads[reads3.len() + j].0 == q);
            }
            assert(taking_ok(kept_page, counts, reads, overlap as int));
            assert(counts.take(counts.len() as int) =~= counts);
            lemma_takings_grow(pages, counts, reads3, counts, reads, overlap as int);
            lemma_takings_push(pages, kept_page, counts, reads, overlap as int);
            pages = pages.push(kept_page);
            assert(pages.last() == kept_page);
        }
        next = end;
    }
    proof {
        assert forall|index: Seq<Entry>|
            #[trigger] read_from(requests, counts, reads, scans, index) && distinct_idents(index) && first.total == 0 implies taken
            == index by {
            assert(requests[0].2 == index.len());
            assert(index.take(0) =~= index);
        }
    }
    if first.total == 0 {
        (Ok(
            Capture {
                builder,
                stats,
                requests: Ghost(requests),
                taken: Ghost(taken),
                counts: Ghost(counts),
                reads: Ghost(reads),
                scans: Ghost(scans),
                pages: Ghost(pages),
                files: Ghost(ids),
            },
        ), Ghost(Trace { requests, stop: Stop::Moved }))
    } else {
        (Err(String::from_str(MOVED)), Ghost(Trace { requests, stop: Stop::Unfinished }))
    }
}

/// Reads the whole index a page at a time into a builder, as
/// `collect_traced` does.
pub fn collect<S: Source, F: Fn(&str, usize, usize)>(
    source: &mut S,
    page_size: usize,
    cancel: &AtomicBool,
    progress: F,
) -> (r: Result<Capture, String>)
    requires
        page_size >= 4,
        forall|m: &str, a: usize, b: usize| progress.requires((m, a, b)),
    ensures
        r matches Ok(c) ==> captured(c, page_size as int),
        r matches Err(e) ==> exists|t: Trace| #[trigger] stopped(t, e, page_size as int),
{
    let (r, t) = collect_traced(source, page_size, cancel, progress);
    proof {
        if r is Err {
            assert(stopped(t@, r->Err_0, page_size as int));
        }
    }
    r
}

} // verus!
