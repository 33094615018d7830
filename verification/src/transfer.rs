//! The byte format in which a finished hierarchy crosses from the worker
//! process to the viewer: little-endian integers and length-prefixed
//! vectors after a four-byte tag. The process boundary keeps synchronous SDK
//! calls cancellable, even if the Everything client stops responding.
use crate::clock::micros_of;
use crate::model::{append_bytes, Dataset, Directory, LoadStats, Node};
use crate::utf8_text::utf8_string;
use std::time::Duration;
use vstd::bytes::*;
use vstd::prelude::*;
use vstd::string::StrSliceExecFns;
use vstd::utf8::*;

verus! {

/// Why reading the format failed.
#[derive(Clone, Copy, Debug, PartialEq, Eq, Structural)]
pub enum Fault {
    /// The bytes ended before the value did.
    Truncated,
    /// The bytes are not in the format.
    Invalid,
    /// There was no memory for a vector of the announced length.
    NoMemory,
}

impl Fault {
    /// The message that the worker's reader reports for this fault.
    pub fn text(&self) -> (r: &'static str)
        ensures
            r@ == (match *self {
                Fault::Truncated => "failed to fill whole buffer"@,
                Fault::Invalid => "Invalid worker protocol"@,
                Fault::NoMemory => "Not enough memory to receive the hierarchy"@,
            }),
    {
        match self {
            Fault::Truncated => "failed to fill whole buffer",
            Fault::Invalid => "Invalid worker protocol",
            Fault::NoMemory => "Not enough memory to receive the hierarchy",
        }
    }
}

/// The longest text the format carries.
pub const TEXT_LIMIT: u64 = 1048576;

/// `input` holds `enc` from `pos` on, as far as `input` goes.
pub open spec fn agrees(input: Seq<u8>, pos: int, enc: Seq<u8>) -> bool {
    forall|i: int| pos <= i < input.len() && i < pos + enc.len() ==> input[i] == enc[i - pos]
}

pub proof fn lemma_agrees_split(input: Seq<u8>, pos: int, a: Seq<u8>, b: Seq<u8>)
    requires
        agrees(input, pos, a + b),
    ensures
        agrees(input, pos, a),
        agrees(input, pos + a.len(), b),
{
    assert forall|i: int| pos <= i < input.len() && i < pos + a.len() implies input[i] == a[i - pos] by {
        assert((a + b)[i - pos] == a[i - pos]);
    }
    assert forall|i: int| pos + a.len() <= i < input.len() && i < pos + a.len() + b.len() implies input[i]
        == b[i - (pos + a.len())] by {
        assert((a + b)[i - pos] == b[i - pos - a.len()]);
    }
}

pub proof fn lemma_agrees_covers(input: Seq<u8>, pos: int, a: Seq<u8>)
    requires
        agrees(input, pos, a),
        0 <= pos,
        pos + a.len() <= input.len(),
    ensures
        input.subrange(pos, pos + a.len()) == a,
{
    assert(input.subrange(pos, pos + a.len()) =~= a);
}

/// The bytes of a sequence of values, each encoded by `f`.
pub open spec fn flat<T>(v: Seq<T>, f: spec_fn(T) -> Seq<u8>) -> Seq<u8>
    decreases v.len(),
{
    if v.len() == 0 {
        Seq::empty()
    } else {
        flat(v.drop_last(), f) + f(v.last())
    }
}

/// With every value encoded in `sz` bytes, value `k` sits at `k * sz`.
pub proof fn lemma_flat_blocks<T>(v: Seq<T>, f: spec_fn(T) -> Seq<u8>, sz: int)
    requires
        sz > 0,
        forall|x: T| #[trigger] f(x).len() == sz,
    ensures
        flat(v, f).len() == v.len() * sz,
        forall|k: int|
            0 <= k < v.len() ==> flat(v, f).subrange(k * sz, k * sz + sz) == f(#[trigger] v[k]),
    decreases v.len(),
{
    if v.len() > 0 {
        let w = v.drop_last();
        lemma_flat_blocks(w, f, sz);
        let n = v.len() as int;
        assert((n - 1) * sz + sz == n * sz) by (nonlinear_arith);
        assert forall|k: int| 0 <= k < v.len() implies flat(v, f).subrange(k * sz, k * sz + sz) == f(
            #[trigger] v[k],
        ) by {
            if k < n - 1 {
                assert(k * sz + sz <= (n - 1) * sz) by (nonlinear_arith)
                    requires
                        k < n - 1,
                        sz > 0,
                ;
                assert(0 <= k * sz) by (nonlinear_arith)
                    requires
                        k >= 0,
                        sz > 0,
                ;
                assert(flat(v, f).subrange(k * sz, k * sz + sz) =~= flat(w, f).subrange(
                    k * sz,
                    k * sz + sz,
                ));
                assert(w[k] == v[k]);
            } else {
                assert(flat(v, f).subrange(k * sz, k * sz + sz) =~= f(v.last()));
            }
        }
    }
}

/// Bytes cut into `sz`-byte blocks, each the encoding of a value, are the
/// encoding of the values.
pub proof fn lemma_flat_of_blocks<T>(v: Seq<T>, f: spec_fn(T) -> Seq<u8>, sz: int, s: Seq<u8>)
    requires
        sz > 0,
        s.len() == v.len() * sz,
        forall|k: int| 0 <= k < v.len() ==> f(#[trigger] v[k]) == s.subrange(k * sz, k * sz + sz),
    ensures
        flat(v, f) == s,
    decreases v.len(),
{
    if v.len() == 0 {
        assert(s.len() == 0) by (nonlinear_arith)
            requires
                v.len() == 0,
                s.len() == v.len() * sz,
        ;
        assert(s =~= Seq::<u8>::empty());
    } else {
        let n = v.len() as int;
        let w = v.drop_last();
        assert((n - 1) * sz + sz == n * sz) by (nonlinear_arith);
        assert(0 <= (n - 1) * sz) by (nonlinear_arith)
            requires
                n >= 1,
                sz > 0,
        ;
        let s1 = s.subrange(0, (n - 1) * sz);
        assert forall|k: int| 0 <= k < w.len() implies f(#[trigger] w[k]) == s1.subrange(
            k * sz,
            k * sz + sz,
        ) by {
            assert(k * sz + sz <= (n - 1) * sz) by (nonlinear_arith)
                requires
                    k < n - 1,
                    sz > 0,
            ;
            assert(0 <= k * sz) by (nonlinear_arith)
                requires
                    k >= 0,
                    sz > 0,
            ;
            assert(s1.subrange(k * sz, k * sz + sz) =~= s.subrange(k * sz, k * sz + sz));
            assert(w[k] == v[k]);
        }
        lemma_flat_of_blocks(w, f, sz, s1);
        assert(f(v[n - 1]) == s.subrange((n - 1) * sz, (n - 1) * sz + sz));
        assert(s =~= s1 + s.subrange((n - 1) * sz, n * sz));
    }
}

/// The bytes of a vector: its length, then its values.
pub open spec fn vec_bytes<T>(v: Seq<T>, f: spec_fn(T) -> Seq<u8>) -> Seq<u8> {
    spec_u64_to_le_bytes(v.len() as u64) + flat(v, f)
}

/// The bytes of a byte vector: its length, then the bytes.
pub open spec fn raw_bytes(v: Seq<u8>) -> Seq<u8> {
    spec_u64_to_le_bytes(v.len() as u64) + v
}

/// The bytes of a text: the length of its UTF-8 encoding, then the encoding.
pub open spec fn text_bytes(t: Seq<char>) -> Seq<u8> {
    raw_bytes(encode_utf8(t))
}

/// The 24 bytes of a record, fields in declaration order.
pub open spec fn node_bytes(n: Node) -> Seq<u8> {
    spec_u64_to_le_bytes(n.bytes) + spec_u32_to_le_bytes(n.name_offset) + spec_u32_to_le_bytes(
        n.parent,
    ) + spec_u32_to_le_bytes(n.directory) + spec_u16_to_le_bytes(n.name_len) + seq![n.kind, n.flags]
}

pub open spec fn node_from(s: Seq<u8>) -> Node {
    Node {
        bytes: spec_u64_from_le_bytes(s.subrange(0, 8)),
        name_offset: spec_u32_from_le_bytes(s.subrange(8, 12)),
        parent: spec_u32_from_le_bytes(s.subrange(12, 16)),
        directory: spec_u32_from_le_bytes(s.subrange(16, 20)),
        name_len: spec_u16_from_le_bytes(s.subrange(20, 22)),
        kind: s[22],
        flags: s[23],
    }
}

/// The 12 bytes of folder metadata.
pub open spec fn dir_bytes(x: Directory) -> Seq<u8> {
    spec_u32_to_le_bytes(x.child_start) + spec_u32_to_le_bytes(x.child_count) + spec_u32_to_le_bytes(
        x.file_count,
    )
}

pub open spec fn dir_from(s: Seq<u8>) -> Directory {
    Directory {
        child_start: spec_u32_from_le_bytes(s.subrange(0, 4)),
        child_count: spec_u32_from_le_bytes(s.subrange(4, 8)),
        file_count: spec_u32_from_le_bytes(s.subrange(8, 12)),
    }
}

/// The 40 bytes of the load statistics.
pub open spec fn stats_bytes(x: LoadStats) -> Seq<u8> {
    spec_u64_to_le_bytes(x.query_us) + spec_u64_to_le_bytes(x.decode_us) + spec_u64_to_le_bytes(
        x.finalize_us,
    ) + spec_u64_to_le_bytes(x.queries) + spec_u64_to_le_bytes(x.changes)
}

pub open spec fn stats_from(s: Seq<u8>) -> LoadStats {
    LoadStats {
        query_us: spec_u64_from_le_bytes(s.subrange(0, 8)),
        decode_us: spec_u64_from_le_bytes(s.subrange(8, 16)),
        finalize_us: spec_u64_from_le_bytes(s.subrange(16, 24)),
        queries: spec_u64_from_le_bytes(s.subrange(24, 32)),
        changes: spec_u64_from_le_bytes(s.subrange(32, 40)),
    }
}

pub proof fn lemma_node_codec(n: Node, s: Seq<u8>)
    ensures
        node_bytes(n).len() == 24,
        node_from(node_bytes(n)) == n,
        s.len() == 24 ==> node_bytes(node_from(s)) == s,
{
    lemma_auto_spec_u64_to_from_le_bytes();
    lemma_auto_spec_u32_to_from_le_bytes();
    lemma_auto_spec_u16_to_from_le_bytes();
    let b = node_bytes(n);
    assert(b.subrange(0, 8) =~= spec_u64_to_le_bytes(n.bytes));
    assert(b.subrange(8, 12) =~= spec_u32_to_le_bytes(n.name_offset));
    assert(b.subrange(12, 16) =~= spec_u32_to_le_bytes(n.parent));
    assert(b.subrange(16, 20) =~= spec_u32_to_le_bytes(n.directory));
    assert(b.subrange(20, 22) =~= spec_u16_to_le_bytes(n.name_len));
    if s.len() == 24 {
        assert(spec_u64_to_le_bytes(spec_u64_from_le_bytes(s.subrange(0, 8))) == s.subrange(0, 8));
        assert(spec_u32_to_le_bytes(spec_u32_from_le_bytes(s.subrange(8, 12))) == s.subrange(8, 12));
        assert(spec_u32_to_le_bytes(spec_u32_from_le_bytes(s.subrange(12, 16))) == s.subrange(12, 16));
        assert(spec_u32_to_le_bytes(spec_u32_from_le_bytes(s.subrange(16, 20))) == s.subrange(16, 20));
        assert(spec_u16_to_le_bytes(spec_u16_from_le_bytes(s.subrange(20, 22))) == s.subrange(20, 22));
        assert(node_bytes(node_from(s)) =~= s);
    }
}

pub proof fn lemma_dir_codec(x: Directory, s: Seq<u8>)
    ensures
        dir_bytes(x).len() == 12,
        dir_from(dir_bytes(x)) == x,
        s.len() == 12 ==> dir_bytes(dir_from(s)) == s,
{
    lemma_auto_spec_u32_to_from_le_bytes();
    let b = dir_bytes(x);
    assert(b.subrange(0, 4) =~= spec_u32_to_le_bytes(x.child_start));
    assert(b.subrange(4, 8) =~= spec_u32_to_le_bytes(x.child_count));
    assert(b.subrange(8, 12) =~= spec_u32_to_le_bytes(x.file_count));
    if s.len() == 12 {
        assert(spec_u32_to_le_bytes(spec_u32_from_le_bytes(s.subrange(0, 4))) == s.subrange(0, 4));
        assert(spec_u32_to_le_bytes(spec_u32_from_le_bytes(s.subrange(4, 8))) == s.subrange(4, 8));
        assert(spec_u32_to_le_bytes(spec_u32_from_le_bytes(s.subrange(8, 12))) == s.subrange(8, 12));
        assert(dir_bytes(dir_from(s)) =~= s);
    }
}

pub proof fn lemma_stats_codec(x: LoadStats, s: Seq<u8>)
    ensures
        stats_bytes(x).len() == 40,
        stats_from(stats_bytes(x)) == x,
        s.len() == 40 ==> stats_bytes(stats_from(s)) == s,
{
    lemma_auto_spec_u64_to_from_le_bytes();
    let b = stats_bytes(x);
    assert(b.subrange(0, 8) =~= spec_u64_to_le_bytes(x.query_us));
    assert(b.subrange(8, 16) =~= spec_u64_to_le_bytes(x.decode_us));
    assert(b.subrange(16, 24) =~= spec_u64_to_le_bytes(x.finalize_us));
    assert(b.subrange(24, 32) =~= spec_u64_to_le_bytes(x.queries));
    assert(b.subrange(32, 40) =~= spec_u64_to_le_bytes(x.changes));
    if s.len() == 40 {
        assert(spec_u64_to_le_bytes(spec_u64_from_le_bytes(s.subrange(0, 8))) == s.subrange(0, 8));
        assert(spec_u64_to_le_bytes(spec_u64_from_le_bytes(s.subrange(8, 16))) == s.subrange(8, 16));
        assert(spec_u64_to_le_bytes(spec_u64_from_le_bytes(s.subrange(16, 24))) == s.subrange(16, 24));
        assert(spec_u64_to_le_bytes(spec_u64_from_le_bytes(s.subrange(24, 32))) == s.subrange(24, 32));
        assert(spec_u64_to_le_bytes(spec_u64_from_le_bytes(s.subrange(32, 40))) == s.subrange(32, 40));
        assert(stats_bytes(stats_from(s)) =~= s);
    }
}

/// Reading a vector of at most `limit` values, each `sz` bytes read by `g`,
/// from position `q` of `s`: its values and where it ends, or why not.
pub open spec fn spec_read_vec<T>(s: Seq<u8>, q: int, limit: u64, g: spec_fn(Seq<u8>) -> T, sz: int) -> Result<
    (Seq<T>, int),
    Fault,
> {
    if q < 0 || q + 8 > s.len() {
        Err(Fault::Truncated)
    } else {
        let c = spec_u64_from_le_bytes(s.subrange(q, q + 8));
        if c > limit {
            Err(Fault::Invalid)
        } else if q + 8 + sz * c > s.len() {
            Err(Fault::Truncated)
        } else {
            Ok(
                (
                    Seq::new(c as nat, |k: int| g(s.subrange(q + 8 + sz * k, q + 8 + sz * k + sz))),
                    q + 8 + sz * c,
                ),
            )
        }
    }
}

/// Reading a byte vector of at most `limit` bytes from position `q` of `s`.
pub open spec fn spec_read_raw(s: Seq<u8>, q: int, limit: u64) -> Result<(Seq<u8>, int), Fault> {
    if q < 0 || q + 8 > s.len() {
        Err(Fault::Truncated)
    } else {
        let c = spec_u64_from_le_bytes(s.subrange(q, q + 8));
        if c > limit {
            Err(Fault::Invalid)
        } else if q + 8 + c > s.len() {
            Err(Fault::Truncated)
        } else {
            Ok((s.subrange(q + 8, q + 8 + c), q + 8 + c))
        }
    }
}

/// Reading a text from position `q` of `s`.
pub open spec fn spec_read_text(s: Seq<u8>, q: int) -> Result<(Seq<char>, int), Fault> {
    match spec_read_raw(s, q, TEXT_LIMIT) {
        Ok((b, e)) => if valid_utf8(b) {
            Ok((decode_utf8(b), e))
        } else {
            Err(Fault::Invalid)
        },
        Err(f) => Err(f),
    }
}

/// Reading a fixed-size field of `n` bytes from position `q` of `s`.
pub open spec fn spec_field(s: Seq<u8>, q: int, n: int) -> Option<Seq<u8>> {
    if 0 <= q && q + n <= s.len() {
        Some(s.subrange(q, q + n))
    } else {
        None
    }
}

/// Appends `n` in little-endian order.
pub fn write_u64(out: &mut Vec<u8>, n: u64)
    ensures
        final(out)@ == old(out)@ + spec_u64_to_le_bytes(n),
{
    let b = u64_to_le_bytes(n);
    append_bytes(out, b.as_slice());
}

/// Reads the little-endian `u64` at `pos`.
pub fn read_u64(input: &[u8], pos: usize) -> (r: Result<(u64, usize), Fault>)
    ensures
        pos + 8 <= input@.len() ==> r == Ok::<(u64, usize), Fault>(
            (spec_u64_from_le_bytes(input@.subrange(pos as int, pos + 8)), (pos + 8) as usize),
        ),
        pos + 8 > input@.len() ==> r == Err::<(u64, usize), Fault>(Fault::Truncated),
{
    if input.len() < 8 || pos > input.len() - 8 {
        return Err(Fault::Truncated);
    }
    let b = vstd::slice::slice_subrange(input, pos, pos + 8);
    Ok((u64_from_le_bytes(b), pos + 8))
}

/// The error for bytes that are not in the format.
pub fn invalid() -> (r: Fault)
    ensures
        r == Fault::Invalid,
{
    Fault::Invalid
}

/// Makes room for `n` more values in `v`, as `Vec::try_reserve_exact` does;
/// whether the allocator finds the memory is not known in advance.
#[verifier::external_body]
fn reserve_exact<T>(v: &mut Vec<T>, n: usize) -> (ok: bool)
    ensures
        final(v)@ == old(v)@,
{
    v.try_reserve_exact(n).is_ok()
}

/// Appends a text: its byte length, then its UTF-8 bytes.
pub fn write_string(out: &mut Vec<u8>, text: &str)
    ensures
        final(out)@ == old(out)@ + text_bytes(text@),
{
    let b = text.as_bytes();
    write_u64(out, b.len() as u64);
    append_bytes(out, b);
}

/// Reads a byte vector of at most `limit` bytes at `pos`.
fn read_raw(input: &[u8], pos: usize, limit: u64) -> (r: Result<(Vec<u8>, usize), Fault>)
    ensures
        r matches Ok((v, end)) ==> spec_read_raw(input@, pos as int, limit) == Ok::<(Seq<u8>, int), Fault>(
            (v@, end as int),
        ),
        r matches Err(e) ==> e == Fault::NoMemory || spec_read_raw(input@, pos as int, limit) == Err::<
            (Seq<u8>, int),
            Fault,
        >(e),
        pos + 8 > input@.len() ==> r == Err::<(Vec<u8>, usize), Fault>(Fault::Truncated),
        pos + 8 <= input@.len() ==> {
            let c = spec_u64_from_le_bytes(input@.subrange(pos as int, pos + 8));
            &&& c > limit ==> r == Err::<(Vec<u8>, usize), Fault>(Fault::Invalid)
            &&& c <= limit && pos + 8 + c > input@.len() ==> (r == Err::<(Vec<u8>, usize), Fault>(
                Fault::Truncated) || r == Err::<(Vec<u8>, usize), Fault>(Fault::NoMemory))
            &&& c <= limit && pos + 8 + c <= input@.len() ==> (r is Ok || r == Err::<
                (Vec<u8>, usize),
                Fault,
            >(Fault::NoMemory))
            &&& r matches Ok((v, end)) ==> c <= limit && end == pos + 8 + c && v@
                == input@.subrange(pos + 8, end as int)
        },
{
    let (count, at) = match read_u64(input, pos) {
        Ok(x) => x,
        Err(e) => {
            return Err(e);
        },
    };
    if count > limit {
        return Err(invalid());
    }
    let mut out: Vec<u8> = Vec::new();
    if count > usize::MAX as u64 {
        return Err(Fault::NoMemory);
    }
    if !reserve_exact(&mut out, count as usize) {
        return Err(Fault::NoMemory);
    }
    if (input.len() - at) < count as usize {
        return Err(Fault::Truncated);
    }
    let end = at + count as usize;
    append_bytes(&mut out, vstd::slice::slice_subrange(input, at, end));
    Ok((out, end))
}

/// Reads a text of at most the text limit at `pos`.
pub fn read_string(input: &[u8], pos: usize) -> (r: Result<(String, usize), Fault>)
    ensures
        r matches Ok((s, end)) ==> spec_read_text(input@, pos as int) == Ok::<(Seq<char>, int), Fault>(
            (s@, end as int),
        ),
        r matches Err(e) ==> e == Fault::NoMemory || spec_read_text(input@, pos as int) == Err::<
            (Seq<char>, int),
            Fault,
        >(e),
        r matches Ok((s, end)) ==> pos <= end <= input@.len() && input@.subrange(pos as int, end as int)
            == text_bytes(s@) && encode_utf8(s@).len() <= TEXT_LIMIT,
        forall|t: Seq<char>|
            agrees(input@, pos as int, #[trigger] text_bytes(t)) && encode_utf8(t).len() <= TEXT_LIMIT
                ==> {
                &&& pos + text_bytes(t).len() <= input@.len() ==> (r matches Ok((s, end)) && s@ == t
                    && end == pos + text_bytes(t).len() || r == Err::<(String, usize), Fault>(
                    Fault::NoMemory,
                ))
                &&& pos + text_bytes(t).len() > input@.len() ==> r is Err
            },
{
    let (bytes, end) = match read_raw(input, pos, TEXT_LIMIT) {
        Ok(x) => x,
        Err(e) => {
            proof {
                assert forall|t: Seq<char>|
                    agrees(input@, pos as int, #[trigger] text_bytes(t)) && encode_utf8(t).len()
                        <= TEXT_LIMIT && pos + text_bytes(t).len() <= input@.len() implies e
                    == Fault::NoMemory by {
                    lemma_auto_spec_u64_to_from_le_bytes();
                    assert(spec_u64_to_le_bytes(encode_utf8(t).len() as u64).len() == 8);
                    lemma_text_len(input@, pos as int, t);
                }
            }
            return Err(e);
        },
    };
    let ghost b = bytes@;
    match utf8_string(bytes) {
        Some(s) => {
            proof {
                decode_utf8_encode_utf8(b);
                lemma_auto_spec_u64_to_from_le_bytes();
                let c = spec_u64_from_le_bytes(input@.subrange(pos as int, pos + 8));
                assert(input@.subrange(pos as int, pos + 8) == spec_u64_to_le_bytes(c));
                assert(input@.subrange(pos as int, end as int) =~= raw_bytes(b));
                assert forall|t: Seq<char>|
                    agrees(input@, pos as int, #[trigger] text_bytes(t)) && encode_utf8(t).len()
                        <= TEXT_LIMIT implies pos + text_bytes(t).len() <= input@.len() && s@ == t
                    && end == pos + text_bytes(t).len() by {
                    lemma_text_len(input@, pos as int, t);
                    lemma_read_text(input@, pos as int, t);
                    encode_utf8_decode_utf8(t);
                }
            }
            Ok((s, end))
        },
        None => {
            proof {
                assert forall|t: Seq<char>|
                    agrees(input@, pos as int, #[trigger] text_bytes(t)) && encode_utf8(t).len()
                        <= TEXT_LIMIT && pos + text_bytes(t).len() <= input@.len() implies false by {
                    lemma_read_text(input@, pos as int, t);
                    encode_utf8_valid_utf8(t);
                }
            }
            Err(invalid())
        },
    }
}

/// Where `text_bytes(t)` is present at `pos`, its length prefix and its
/// bytes are there to read.
proof fn lemma_read_text(input: Seq<u8>, pos: int, t: Seq<char>)
    requires
        agrees(input, pos, text_bytes(t)),
        0 <= pos,
        pos + text_bytes(t).len() <= input.len(),
        encode_utf8(t).len() <= TEXT_LIMIT,
    ensures
        spec_u64_from_le_bytes(input.subrange(pos, pos + 8)) == encode_utf8(t).len(),
        input.subrange(pos + 8, pos + 8 + encode_utf8(t).len()) == encode_utf8(t),
{
    lemma_auto_spec_u64_to_from_le_bytes();
    let e = encode_utf8(t);
    lemma_agrees_split(input, pos, spec_u64_to_le_bytes(e.len() as u64), e);
    lemma_agrees_covers(input, pos, spec_u64_to_le_bytes(e.len() as u64));
    lemma_agrees_covers(input, pos + 8, e);
}

/// Where `text_bytes(t)` is present at `pos` at least as far as its length
/// prefix, that prefix reads as the length of its encoding.
proof fn lemma_text_len(input: Seq<u8>, pos: int, t: Seq<char>)
    requires
        agrees(input, pos, text_bytes(t)),
        0 <= pos,
        pos + 8 <= input.len(),
        encode_utf8(t).len() <= TEXT_LIMIT,
    ensures
        spec_u64_from_le_bytes(input.subrange(pos, pos + 8)) == encode_utf8(t).len(),
{
    lemma_auto_spec_u64_to_from_le_bytes();
    let e = encode_utf8(t);
    lemma_agrees_split(input, pos, spec_u64_to_le_bytes(e.len() as u64), e);
    lemma_agrees_covers(input, pos, spec_u64_to_le_bytes(e.len() as u64));
}

/// Encodings of the values that the vectors of the format hold.
pub open spec fn enc_node() -> spec_fn(Node) -> Seq<u8> {
    |n: Node| node_bytes(n)
}

pub open spec fn dec_node() -> spec_fn(Seq<u8>) -> Node {
    |s: Seq<u8>| node_from(s)
}

pub open spec fn enc_dir() -> spec_fn(Directory) -> Seq<u8> {
    |x: Directory| dir_bytes(x)
}

pub open spec fn dec_dir() -> spec_fn(Seq<u8>) -> Directory {
    |s: Seq<u8>| dir_from(s)
}

pub open spec fn enc_u32() -> spec_fn(u32) -> Seq<u8> {
    |x: u32| spec_u32_to_le_bytes(x)
}

pub open spec fn dec_u32() -> spec_fn(Seq<u8>) -> u32 {
    |s: Seq<u8>| spec_u32_from_le_bytes(s)
}

pub open spec fn enc_u64() -> spec_fn(u64) -> Seq<u8> {
    |x: u64| spec_u64_to_le_bytes(x)
}

pub open spec fn dec_u64() -> spec_fn(Seq<u8>) -> u64 {
    |s: Seq<u8>| spec_u64_from_le_bytes(s)
}

/// `f` encodes every value in `sz` bytes and `g` reads them back.
pub open spec fn codec<T>(f: spec_fn(T) -> Seq<u8>, g: spec_fn(Seq<u8>) -> T, sz: int) -> bool {
    &&& forall|x: T| #[trigger] f(x).len() == sz
    &&& forall|x: T| g(#[trigger] f(x)) == x
    &&& forall|s: Seq<u8>| s.len() == sz ==> #[trigger] f(g(s)) == s
}

pub proof fn lemma_codecs()
    ensures
        codec(enc_node(), dec_node(), 24),
        codec(enc_dir(), dec_dir(), 12),
        codec(enc_u32(), dec_u32(), 4),
        codec(enc_u64(), dec_u64(), 8),
{
    lemma_auto_spec_u64_to_from_le_bytes();
    lemma_auto_spec_u32_to_from_le_bytes();
    assert forall|x: Node| #[trigger] enc_node()(x).len() == 24 by {
        lemma_node_codec(x, Seq::empty());
    }
    assert forall|x: Node| dec_node()(#[trigger] enc_node()(x)) == x by {
        lemma_node_codec(x, Seq::empty());
    }
    assert forall|s: Seq<u8>| s.len() == 24 implies #[trigger] enc_node()(dec_node()(s)) == s by {
        lemma_node_codec(node_from(s), s);
    }
    assert forall|x: Directory| #[trigger] enc_dir()(x).len() == 12 by {
        lemma_dir_codec(x, Seq::empty());
    }
    assert forall|x: Directory| dec_dir()(#[trigger] enc_dir()(x)) == x by {
        lemma_dir_codec(x, Seq::empty());
    }
    assert forall|s: Seq<u8>| s.len() == 12 implies #[trigger] enc_dir()(dec_dir()(s)) == s by {
        lemma_dir_codec(dir_from(s), s);
    }
    assert forall|x: u32| #[trigger] enc_u32()(x).len() == 4 by {
        assert(spec_u32_to_le_bytes(x).len() == 4);
    }
    assert forall|x: u32| dec_u32()(#[trigger] enc_u32()(x)) == x by {
        assert(spec_u32_to_le_bytes(x).len() == 4);
        assert(spec_u32_from_le_bytes(spec_u32_to_le_bytes(x)) == x);
    }
    assert forall|s: Seq<u8>| s.len() == 4 implies #[trigger] enc_u32()(dec_u32()(s)) == s by {
        assert(spec_u32_to_le_bytes(spec_u32_from_le_bytes(s)) == s);
    }
    assert forall|x: u64| #[trigger] enc_u64()(x).len() == 8 by {
        assert(spec_u64_to_le_bytes(x).len() == 8);
    }
    assert forall|x: u64| dec_u64()(#[trigger] enc_u64()(x)) == x by {
        assert(spec_u64_from_le_bytes(spec_u64_to_le_bytes(x)) == x);
    }
    assert forall|s: Seq<u8>| s.len() == 8 implies #[trigger] enc_u64()(dec_u64()(s)) == s by {
        assert(spec_u64_to_le_bytes(spec_u64_from_le_bytes(s)) == s);
    }
}

/// Blocks read back one by one from after a length prefix make up the bytes
/// of the vector they decode to.
pub proof fn lemma_read_vec<T>(
    input: Seq<u8>,
    pos: int,
    count: u64,
    v: Seq<T>,
    f: spec_fn(T) -> Seq<u8>,
    g: spec_fn(Seq<u8>) -> T,
    sz: int,
)
    requires
        codec(f, g, sz),
        sz > 0,
        0 <= pos,
        pos + 8 + sz * count <= input.len(),
        count == spec_u64_from_le_bytes(input.subrange(pos, pos + 8)),
        v.len() == count,
        forall|j: int|
            0 <= j < count ==> #[trigger] v[j] == g(input.subrange(pos + 8 + sz * j, pos + 8 + sz * j + sz)),
    ensures
        input.subrange(pos, pos + 8 + sz * count) == vec_bytes(v, f),
{
    let at = pos + 8;
    let end = pos + 8 + sz * count;
    let body = input.subrange(at, end);
    assert(sz * count == count * sz) by (nonlinear_arith);
    assert forall|j: int| 0 <= j < v.len() implies f(#[trigger] v[j]) == body.subrange(j * sz, j * sz + sz) by {
        assert(j * sz == sz * j) by (nonlinear_arith);
        assert(j * sz + sz <= count * sz) by (nonlinear_arith)
            requires
                j < count,
                sz > 0,
        ;
        assert(0 <= j * sz) by (nonlinear_arith)
            requires
                j >= 0,
                sz > 0,
        ;
        assert(body.subrange(j * sz, j * sz + sz) =~= input.subrange(at + sz * j, at + sz * j + sz));
    }
    lemma_flat_of_blocks(v, f, sz, body);
    lemma_auto_spec_u64_to_from_le_bytes();
    assert(input.subrange(pos, pos + 8) == spec_u64_to_le_bytes(count));
    assert(input.subrange(pos, end) =~= spec_u64_to_le_bytes(count) + body);
}

/// Where the bytes of vector `w` are present at `pos` at least as far as
/// its length prefix, that prefix reads as its length; where they are
/// present in full, each block reads back as its value.
pub proof fn lemma_vec_agrees<T>(
    input: Seq<u8>,
    pos: int,
    w: Seq<T>,
    f: spec_fn(T) -> Seq<u8>,
    g: spec_fn(Seq<u8>) -> T,
    sz: int,
)
    requires
        agrees(input, pos, vec_bytes(w, f)),
        0 <= pos,
        pos + 8 <= input.len(),
        codec(f, g, sz),
        sz > 0,
        w.len() <= u64::MAX,
    ensures
        spec_u64_from_le_bytes(input.subrange(pos, pos + 8)) == w.len(),
        vec_bytes(w, f).len() == 8 + sz * w.len(),
        pos + vec_bytes(w, f).len() <= input.len() ==> forall|k: int|
            0 <= k < w.len() ==> g(input.subrange(pos + 8 + sz * k, pos + 8 + sz * k + sz)) == #[trigger] w[k],
{
    lemma_auto_spec_u64_to_from_le_bytes();
    let head = spec_u64_to_le_bytes(w.len() as u64);
    let body = flat(w, f);
    lemma_flat_blocks(w, f, sz);
    assert(sz * w.len() == w.len() * sz) by (nonlinear_arith);
    lemma_agrees_split(input, pos, head, body);
    lemma_agrees_covers(input, pos, head);
    if pos + vec_bytes(w, f).len() <= input.len() {
        lemma_agrees_covers(input, pos + 8, body);
        assert forall|k: int| 0 <= k < w.len() implies g(
            input.subrange(pos + 8 + sz * k, pos + 8 + sz * k + sz),
        ) == #[trigger] w[k] by {
            assert(k * sz == sz * k) by (nonlinear_arith);
            assert(k * sz + sz <= w.len() * sz) by (nonlinear_arith)
                requires
                    k < w.len(),
                    sz > 0,
            ;
            assert(0 <= k * sz) by (nonlinear_arith)
                requires
                    k >= 0,
                    sz > 0,
            ;
            assert(input.subrange(pos + 8 + sz * k, pos + 8 + sz * k + sz) =~= body.subrange(
                k * sz,
                k * sz + sz,
            ));
        }
    }
}

/// Appends a vector of records: its length, then each value.
fn write_nodes(out: &mut Vec<u8>, v: &Vec<Node>)
    ensures
        final(out)@ == old(out)@ + vec_bytes(v@, enc_node()),
{
    let ghost start = out@;
    write_u64(out, v.len() as u64);
    let mut k: usize = 0;
    while k < v.len()
        invariant
            k <= v@.len(),
            out@ == start + spec_u64_to_le_bytes(v@.len() as u64) + flat(v@.take(k as int), enc_node()),
        decreases v@.len() - k,
    {
        let ghost before = out@;
        node_to(out, &v[k]);
        proof {
            assert(v@.take(k + 1).drop_last() =~= v@.take(k as int));
            assert(v@.take(k + 1).last() == v@[k as int]);
            assert(out@ =~= start + spec_u64_to_le_bytes(v@.len() as u64) + flat(v@.take(k + 1), enc_node()));
        }
        k = k + 1;
    }
    proof {
        assert(v@.take(v@.len() as int) =~= v@);
    }
}

/// Reads a vector of at most `limit` records at `pos`.
fn read_nodes(input: &[u8], pos: usize, limit: u64) -> (r: Result<(Vec<Node>, usize), Fault>)
    requires
        limit <= u32::MAX,
    ensures
        r matches Ok((v, end)) ==> spec_read_vec(input@, pos as int, limit, dec_node(), 24) == Ok::<
            (Seq<Node>, int),
            Fault,
        >((v@, end as int)) && input@.subrange(pos as int, end as int) == vec_bytes(v@, enc_node()),
        r matches Err(e) ==> e == Fault::NoMemory || spec_read_vec(input@, pos as int, limit, dec_node(), 24)
            == Err::<(Seq<Node>, int), Fault>(e),
{
    let (count, at) = match read_u64(input, pos) {
        Ok(x) => x,
        Err(e) => {
            return Err(e);
        },
    };
    if count > limit {
        return Err(invalid());
    }
    let mut out: Vec<Node> = Vec::new();
    if !reserve_exact(&mut out, count as usize) {
        return Err(Fault::NoMemory);
    }
    if ((input.len() - at) as u64) < count * 24 {
        return Err(Fault::Truncated);
    }
    let mut k: usize = 0;
    let mut p: usize = at;
    while k < count as usize
        invariant
            at == pos + 8,
            at + 24 * count <= input.len(),
            count <= u32::MAX,
            k <= count,
            p == at + 24 * k,
            out@.len() == k,
            forall|j: int|
                0 <= j < k ==> #[trigger] out@[j] == dec_node()(input@.subrange(at + 24 * j, at + 24 * j + 24)),
        decreases count - k,
    {
        proof {
            assert(24 * k + 24 <= 24 * count) by (nonlinear_arith)
                requires
                    k < count,
            ;
        }
        let x = node_at(input, p);
        out.push(x);
        p = p + 24;
        k = k + 1;
    }
    let end = p;
    proof {
        lemma_codecs();
        lemma_read_vec(input@, pos as int, count, out@, enc_node(), dec_node(), 24);
        assert(out@ =~= Seq::new(count as nat, |k: int| dec_node()(input@.subrange(pos + 8 + 24 * k, pos + 8 + 24 * k + 24))));
    }
    Ok((out, end))
}

/// Appends a vector of folder metadata: its length, then each value.
fn write_dirs(out: &mut Vec<u8>, v: &Vec<Directory>)
    ensures
        final(out)@ == old(out)@ + vec_bytes(v@, enc_dir()),
{
    let ghost start = out@;
    write_u64(out, v.len() as u64);
    let mut k: usize = 0;
    while k < v.len()
        invariant
            k <= v@.len(),
            out@ == start + spec_u64_to_le_bytes(v@.len() as u64) + flat(v@.take(k as int), enc_dir()),
        decreases v@.len() - k,
    {
        let ghost before = out@;
        dir_to(out, &v[k]);
        proof {
            assert(v@.take(k + 1).drop_last() =~= v@.take(k as int));
            assert(v@.take(k + 1).last() == v@[k as int]);
            assert(out@ =~= start + spec_u64_to_le_bytes(v@.len() as u64) + flat(v@.take(k + 1), enc_dir()));
        }
        k = k + 1;
    }
    proof {
        assert(v@.take(v@.len() as int) =~= v@);
    }
}

/// Reads a vector of at most `limit` folder metadata at `pos`.
fn read_dirs(input: &[u8], pos: usize, limit: u64) -> (r: Result<(Vec<Directory>, usize), Fault>)
    requires
        limit <= u32::MAX,
    ensures
        r matches Ok((v, end)) ==> spec_read_vec(input@, pos as int, limit, dec_dir(), 12) == Ok::<
            (Seq<Directory>, int),
            Fault,
        >((v@, end as int)) && input@.subrange(pos as int, end as int) == vec_bytes(v@, enc_dir()),
        r matches Err(e) ==> e == Fault::NoMemory || spec_read_vec(input@, pos as int, limit, dec_dir(), 12)
            == Err::<(Seq<Directory>, int), Fault>(e),
{
    let (count, at) = match read_u64(input, pos) {
        Ok(x) => x,
        Err(e) => {
            return Err(e);
        },
    };
    if count > limit {
        return Err(invalid());
    }
    let mut out: Vec<Directory> = Vec::new();
    if !reserve_exact(&mut out, count as usize) {
        return Err(Fault::NoMemory);
    }
    if ((input.len() - at) as u64) < count * 12 {
        return Err(Fault::Truncated);
    }
    let mut k: usize = 0;
    let mut p: usize = at;
    while k < count as usize
        invariant
            at == pos + 8,
            at + 12 * count <= input.len(),
            count <= u32::MAX,
            k <= count,
            p == at + 12 * k,
            out@.len() == k,
            forall|j: int|
                0 <= j < k ==> #[trigger] out@[j] == dec_dir()(input@.subrange(at + 12 * j, at + 12 * j + 12)),
        decreases count - k,
    {
        proof {
            assert(12 * k + 12 <= 12 * count) by (nonlinear_arith)
                requires
                    k < count,
            ;
        }
        let x = dir_at(input, p);
        out.push(x);
        p = p + 12;
        k = k + 1;
    }
    let end = p;
    proof {
        lemma_codecs();
        lemma_read_vec(input@, pos as int, count, out@, enc_dir(), dec_dir(), 12);
        assert(out@ =~= Seq::new(count as nat, |k: int| dec_dir()(input@.subrange(pos + 8 + 12 * k, pos + 8 + 12 * k + 12))));
    }
    Ok((out, end))
}

/// Appends a vector of ids: its length, then each value.
fn write_ids(out: &mut Vec<u8>, v: &Vec<u32>)
    ensures
        final(out)@ == old(out)@ + vec_bytes(v@, enc_u32()),
{
    let ghost start = out@;
    write_u64(out, v.len() as u64);
    let mut k: usize = 0;
    while k < v.len()
        invariant
            k <= v@.len(),
            out@ == start + spec_u64_to_le_bytes(v@.len() as u64) + flat(v@.take(k as int), enc_u32()),
        decreases v@.len() - k,
    {
        let ghost before = out@;
        append_bytes(out, u32_to_le_bytes(v[k]).as_slice());
        proof {
            assert(v@.take(k + 1).drop_last() =~= v@.take(k as int));
            assert(v@.take(k + 1).last() == v@[k as int]);
            assert(out@ =~= start + spec_u64_to_le_bytes(v@.len() as u64) + flat(v@.take(k + 1), enc_u32()));
        }
        k = k + 1;
    }
    proof {
        assert(v@.take(v@.len() as int) =~= v@);
    }
}

/// Reads a vector of at most `limit` ids at `pos`.
fn read_ids(input: &[u8], pos: usize, limit: u64) -> (r: Result<(Vec<u32>, usize), Fault>)
    requires
        limit <= u32::MAX,
    ensures
        r matches Ok((v, end)) ==> spec_read_vec(input@, pos as int, limit, dec_u32(), 4) == Ok::<
            (Seq<u32>, int),
            Fault,
        >((v@, end as int)) && input@.subrange(pos as int, end as int) == vec_bytes(v@, enc_u32()),
        r matches Err(e) ==> e == Fault::NoMemory || spec_read_vec(input@, pos as int, limit, dec_u32(), 4)
            == Err::<(Seq<u32>, int), Fault>(e),
{
    let (count, at) = match read_u64(input, pos) {
        Ok(x) => x,
        Err(e) => {
            return Err(e);
        },
    };
    if count > limit {
        return Err(invalid());
    }
    let mut out: Vec<u32> = Vec::new();
    if !reserve_exact(&mut out, count as usize) {
        return Err(Fault::NoMemory);
    }
    if ((input.len() - at) as u64) < count * 4 {
        return Err(Fault::Truncated);
    }
    let mut k: usize = 0;
    let mut p: usize = at;
    while k < count as usize
        invariant
            at == pos + 8,
            at + 4 * count <= input.len(),
            count <= u32::MAX,
            k <= count,
            p == at + 4 * k,
            out@.len() == k,
            forall|j: int|
                0 <= j < k ==> #[trigger] out@[j] == dec_u32()(input@.subrange(at + 4 * j, at + 4 * j + 4)),
        decreases count - k,
    {
        proof {
            assert(4 * k + 4 <= 4 * count) by (nonlinear_arith)
                requires
                    k < count,
            ;
        }
        let x = u32_at(input, p);
        out.push(x);
        p = p + 4;
        k = k + 1;
    }
    let end = p;
    proof {
        lemma_codecs();
        lemma_read_vec(input@, pos as int, count, out@, enc_u32(), dec_u32(), 4);
        assert(out@ =~= Seq::new(count as nat, |k: int| dec_u32()(input@.subrange(pos + 8 + 4 * k, pos + 8 + 4 * k + 4))));
    }
    Ok((out, end))
}

/// Appends a vector of running totals: its length, then each value.
fn write_sums(out: &mut Vec<u8>, v: &Vec<u64>)
    ensures
        final(out)@ == old(out)@ + vec_bytes(v@, enc_u64()),
{
    let ghost start = out@;
    write_u64(out, v.len() as u64);
    let mut k: usize = 0;
    while k < v.len()
        invariant
            k <= v@.len(),
            out@ == start + spec_u64_to_le_bytes(v@.len() as u64) + flat(v@.take(k as int), enc_u64()),
        decreases v@.len() - k,
    {
        let ghost before = out@;
        append_bytes(out, u64_to_le_bytes(v[k]).as_slice());
        proof {
            assert(v@.take(k + 1).drop_last() =~= v@.take(k as int));
            assert(v@.take(k + 1).last() == v@[k as int]);
            assert(out@ =~= start + spec_u64_to_le_bytes(v@.len() as u64) + flat(v@.take(k + 1), enc_u64()));
        }
        k = k + 1;
    }
    proof {
        assert(v@.take(v@.len() as int) =~= v@);
    }
}

/// Reads a vector of at most `limit` running totals at `pos`.
fn read_sums(input: &[u8], pos: usize, limit: u64) -> (r: Result<(Vec<u64>, usize), Fault>)
    requires
        limit <= u32::MAX,
    ensures
        r matches Ok((v, end)) ==> spec_read_vec(input@, pos as int, limit, dec_u64(), 8) == Ok::<
            (Seq<u64>, int),
            Fault,
        >((v@, end as int)) && input@.subrange(pos as int, end as int) == vec_bytes(v@, enc_u64()),
        r matches Err(e) ==> e == Fault::NoMemory || spec_read_vec(input@, pos as int, limit, dec_u64(), 8)
            == Err::<(Seq<u64>, int), Fault>(e),
{
    let (count, at) = match read_u64(input, pos) {
        Ok(x) => x,
        Err(e) => {
            return Err(e);
        },
    };
    if count > limit {
        return Err(invalid());
    }
    let mut out: Vec<u64> = Vec::new();
    if !reserve_exact(&mut out, count as usize) {
        return Err(Fault::NoMemory);
    }
    if ((input.len() - at) as u64) < count * 8 {
        return Err(Fault::Truncated);
    }
    let mut k: usize = 0;
    let mut p: usize = at;
    while k < count as usize
        invariant
            at == pos + 8,
            at + 8 * count <= input.len(),
            count <= u32::MAX,
            k <= count,
            p == at + 8 * k,
            out@.len() == k,
            forall|j: int|
                0 <= j < k ==> #[trigger] out@[j] == dec_u64()(input@.subrange(at + 8 * j, at + 8 * j + 8)),
        decreases count - k,
    {
        proof {
            assert(8 * k + 8 <= 8 * count) by (nonlinear_arith)
                requires
                    k < count,
            ;
        }
        let x = u64_at(input, p);
        out.push(x);
        p = p + 8;
        k = k + 1;
    }
    let end = p;
    proof {
        lemma_codecs();
        lemma_read_vec(input@, pos as int, count, out@, enc_u64(), dec_u64(), 8);
        assert(out@ =~= Seq::new(count as nat, |k: int| dec_u64()(input@.subrange(pos + 8 + 8 * k, pos + 8 + 8 * k + 8))));
    }
    Ok((out, end))
}

/// The record at `p`.
fn node_at(input: &[u8], p: usize) -> (r: Node)
    requires
        p + 24 <= input.len(),
    ensures
        r == node_from(input@.subrange(p as int, p + 24)),
{
    let ghost s = input@.subrange(p as int, p + 24);
    let bytes = u64_from_le_bytes(vstd::slice::slice_subrange(input, p, p + 8));
    let name_offset = u32_from_le_bytes(vstd::slice::slice_subrange(input, p + 8, p + 12));
    let parent = u32_from_le_bytes(vstd::slice::slice_subrange(input, p + 12, p + 16));
    let directory = u32_from_le_bytes(vstd::slice::slice_subrange(input, p + 16, p + 20));
    let name_len = u16_from_le_bytes(vstd::slice::slice_subrange(input, p + 20, p + 22));
    proof {
        assert(s.subrange(0, 8) =~= input@.subrange(p as int, p + 8));
        assert(s.subrange(8, 12) =~= input@.subrange(p + 8, p + 12));
        assert(s.subrange(12, 16) =~= input@.subrange(p + 12, p + 16));
        assert(s.subrange(16, 20) =~= input@.subrange(p + 16, p + 20));
        assert(s.subrange(20, 22) =~= input@.subrange(p + 20, p + 22));
    }
    Node { bytes, name_offset, parent, directory, name_len, kind: input[p + 22], flags: input[p + 23] }
}

/// The folder metadata at `p`.
fn dir_at(input: &[u8], p: usize) -> (r: Directory)
    requires
        p + 12 <= input.len(),
    ensures
        r == dir_from(input@.subrange(p as int, p + 12)),
{
    let ghost s = input@.subrange(p as int, p + 12);
    let child_start = u32_from_le_bytes(vstd::slice::slice_subrange(input, p, p + 4));
    let child_count = u32_from_le_bytes(vstd::slice::slice_subrange(input, p + 4, p + 8));
    let file_count = u32_from_le_bytes(vstd::slice::slice_subrange(input, p + 8, p + 12));
    proof {
        assert(s.subrange(0, 4) =~= input@.subrange(p as int, p + 4));
        assert(s.subrange(4, 8) =~= input@.subrange(p + 4, p + 8));
        assert(s.subrange(8, 12) =~= input@.subrange(p + 8, p + 12));
    }
    Directory { child_start, child_count, file_count }
}

fn u32_at(input: &[u8], p: usize) -> (r: u32)
    requires
        p + 4 <= input.len(),
    ensures
        r == dec_u32()(input@.subrange(p as int, p + 4)),
{
    u32_from_le_bytes(vstd::slice::slice_subrange(input, p, p + 4))
}

fn u64_at(input: &[u8], p: usize) -> (r: u64)
    requires
        p + 8 <= input.len(),
    ensures
        r == dec_u64()(input@.subrange(p as int, p + 8)),
{
    u64_from_le_bytes(vstd::slice::slice_subrange(input, p, p + 8))
}

/// Appends the 24 bytes of a record.
fn node_to(out: &mut Vec<u8>, n: &Node)
    ensures
        final(out)@ == old(out)@ + node_bytes(*n),
{
    let ghost start = out@;
    append_bytes(out, u64_to_le_bytes(n.bytes).as_slice());
    append_bytes(out, u32_to_le_bytes(n.name_offset).as_slice());
    append_bytes(out, u32_to_le_bytes(n.parent).as_slice());
    append_bytes(out, u32_to_le_bytes(n.directory).as_slice());
    append_bytes(out, u16_to_le_bytes(n.name_len).as_slice());
    out.push(n.kind);
    out.push(n.flags);
    proof {
        assert(out@ =~= start + node_bytes(*n));
    }
}

/// Appends the 12 bytes of folder metadata.
fn dir_to(out: &mut Vec<u8>, x: &Directory)
    ensures
        final(out)@ == old(out)@ + dir_bytes(*x),
{
    let ghost start = out@;
    append_bytes(out, u32_to_le_bytes(x.child_start).as_slice());
    append_bytes(out, u32_to_le_bytes(x.child_count).as_slice());
    append_bytes(out, u32_to_le_bytes(x.file_count).as_slice());
    proof {
        assert(out@ =~= start + dir_bytes(*x));
    }
}

/// The four bytes that open the format: `ETR3`.
pub open spec fn magic() -> Seq<u8> {
    seq![0x45u8, 0x54u8, 0x52u8, 0x33u8]
}

/// What the format carries before the vectors: source, query, elapsed
/// microseconds, unknown sizes, peak memory, load statistics, capture note.
pub type Header = (Seq<char>, Seq<char>, u64, u64, u64, LoadStats, Seq<char>);

/// The vectors: records, folder metadata, names, child index, running totals.
pub type Body = (Seq<Node>, Seq<Directory>, Seq<u8>, Seq<u32>, Seq<u64>);

pub open spec fn header_of(d: Dataset, micros: u64) -> Header {
    (d.source@, d.query@, micros, d.unknown_sizes, d.import_peak_memory, d.load_stats, d.capture_note@)
}

pub open spec fn body_of(d: Dataset) -> Body {
    (d.nodes@, d.directories@, d.names@, d.children@, d.prefix_bytes@)
}

pub open spec fn header_bytes(h: Header) -> Seq<u8> {
    magic() + text_bytes(h.0) + text_bytes(h.1) + spec_u64_to_le_bytes(h.2) + spec_u64_to_le_bytes(h.3)
        + spec_u64_to_le_bytes(h.4) + stats_bytes(h.5) + text_bytes(h.6)
}

pub open spec fn body_bytes(b: Body) -> Seq<u8> {
    vec_bytes(b.0, enc_node()) + vec_bytes(b.1, enc_dir()) + raw_bytes(b.2) + vec_bytes(b.3, enc_u32())
        + vec_bytes(b.4, enc_u64())
}

/// The bytes `write_dataset` appends for `d`, its elapsed time being `micros`.
pub open spec fn dataset_bytes(d: Dataset, micros: u64) -> Seq<u8> {
    header_bytes(header_of(d, micros)) + body_bytes(body_of(d))
}

/// The checks the reader makes of the vectors: the shape checks of a hierarchy.
pub open spec fn body_shape_ok(b: Body) -> bool {
    &&& b.0.len() >= 1
    &&& b.3.len() == b.0.len() - 1
    &&& b.4.len() == b.3.len()
    &&& b.1.len() >= 1
    &&& b.0[0].spec_is_dir()
    &&& forall|i: int| 0 <= i < b.0.len() && (#[trigger] b.0[i]).spec_is_dir() ==> b.0[i].directory < b.1.len()
    &&& forall|x: int| 0 <= x < b.1.len() ==> (#[trigger] b.1[x]).child_start + b.1[x].child_count <= b.3.len()
}

/// Reading the part before the vectors from position `q` of `s`.
pub open spec fn spec_read_header(s: Seq<u8>, q: int) -> Result<(Header, int), Fault> {
    match spec_field(s, q, 4) {
        None => Err(Fault::Truncated),
        Some(mg) => if mg != magic() {
            Err(Fault::Invalid)
        } else {
            match spec_read_text(s, q + 4) {
                Err(f) => Err(f),
                Ok((source, q1)) => match spec_read_text(s, q1) {
                    Err(f) => Err(f),
                    Ok((query, q2)) => match spec_field(s, q2, 64) {
                        None => Err(Fault::Truncated),
                        Some(f64s) => match spec_read_text(s, q2 + 64) {
                            Err(f) => Err(f),
                            Ok((note, q3)) => Ok(
                                (
                                    (
                                        source,
                                        query,
                                        spec_u64_from_le_bytes(f64s.subrange(0, 8)),
                                        spec_u64_from_le_bytes(f64s.subrange(8, 16)),
                                        spec_u64_from_le_bytes(f64s.subrange(16, 24)),
                                        stats_from(f64s.subrange(24, 64)),
                                        note,
                                    ),
                                    q3,
                                ),
                            ),
                        },
                    },
                },
            }
        },
    }
}

/// Reading the vectors from position `q` of `s`, each within the limit the
/// ones before it set.
pub open spec fn spec_read_body(s: Seq<u8>, q: int) -> Result<(Body, int), Fault> {
    match spec_read_vec(s, q, u32::MAX as u64, dec_node(), 24) {
        Err(f) => Err(f),
        Ok((nodes, q1)) => match spec_read_vec(s, q1, nodes.len() as u64, dec_dir(), 12) {
            Err(f) => Err(f),
            Ok((dirs, q2)) => match spec_read_raw(s, q2, u32::MAX as u64) {
                Err(f) => Err(f),
                Ok((names, q3)) => match spec_read_vec(
                    s,
                    q3,
                    (if nodes.len() > 0 {
                        nodes.len() - 1
                    } else {
                        0
                    }) as u64,
                    dec_u32(),
                    4,
                ) {
                    Err(f) => Err(f),
                    Ok((children, q4)) => match spec_read_vec(
                        s,
                        q4,
                        children.len() as u64,
                        dec_u64(),
                        8,
                    ) {
                        Err(f) => Err(f),
                        Ok((prefix, q5)) => Ok(((nodes, dirs, names, children, prefix), q5)),
                    },
                },
            },
        },
    }
}

/// Reading a hierarchy from position `q` of `s`.
pub open spec fn spec_read_dataset(s: Seq<u8>, q: int) -> Result<(Header, Body, int), Fault> {
    match spec_read_header(s, q) {
        Err(f) => Err(f),
        Ok((h, q1)) => match spec_read_body(s, q1) {
            Err(f) => Err(f),
            Ok((b, q2)) => if body_shape_ok(b) {
                Ok((h, b, q2))
            } else {
                Err(Fault::Invalid)
            },
        },
    }
}

/// A hierarchy the format carries whole: it passes the shape checks and its
/// texts and vectors are within the format's limits.
pub open spec fn fits(d: Dataset) -> bool {
    &&& d.shape_ok()
    &&& d.nodes@.len() <= u32::MAX
    &&& d.directories@.len() <= d.nodes@.len()
    &&& d.names@.len() <= u32::MAX
    &&& encode_utf8(d.source@).len() <= TEXT_LIMIT
    &&& encode_utf8(d.query@).len() <= TEXT_LIMIT
    &&& encode_utf8(d.capture_note@).len() <= TEXT_LIMIT
}

proof fn lemma_field_agrees(s: Seq<u8>, q: int, x: Seq<u8>)
    requires
        agrees(s, q, x),
        0 <= q,
    ensures
        q + x.len() <= s.len() ==> spec_field(s, q, x.len() as int) == Some(x),
        q + x.len() > s.len() ==> spec_field(s, q, x.len() as int) is None,
{
    if q + x.len() <= s.len() {
        lemma_agrees_covers(s, q, x);
    }
}

proof fn lemma_text_agrees(s: Seq<u8>, q: int, t: Seq<char>)
    requires
        agrees(s, q, text_bytes(t)),
        0 <= q,
        encode_utf8(t).len() <= TEXT_LIMIT,
    ensures
        q + text_bytes(t).len() <= s.len() ==> spec_read_text(s, q) == Ok::<(Seq<char>, int), Fault>(
            (t, q + text_bytes(t).len()),
        ),
        q + text_bytes(t).len() > s.len() ==> spec_read_text(s, q) is Err,
{
    lemma_auto_spec_u64_to_from_le_bytes();
    assert(spec_u64_to_le_bytes(encode_utf8(t).len() as u64).len() == 8);
    if q + 8 <= s.len() {
        lemma_text_len(s, q, t);
    }
    if q + text_bytes(t).len() <= s.len() {
        lemma_read_text(s, q, t);
        encode_utf8_valid_utf8(t);
        encode_utf8_decode_utf8(t);
    }
}

proof fn lemma_raw_agrees(s: Seq<u8>, q: int, w: Seq<u8>, limit: u64)
    requires
        agrees(s, q, raw_bytes(w)),
        0 <= q,
        w.len() <= limit,
    ensures
        q + raw_bytes(w).len() <= s.len() ==> spec_read_raw(s, q, limit) == Ok::<(Seq<u8>, int), Fault>(
            (w, q + raw_bytes(w).len()),
        ),
        q + raw_bytes(w).len() > s.len() ==> spec_read_raw(s, q, limit) is Err,
{
    lemma_auto_spec_u64_to_from_le_bytes();
    let head = spec_u64_to_le_bytes(w.len() as u64);
    assert(head.len() == 8);
    lemma_agrees_split(s, q, head, w);
    if q + 8 <= s.len() {
        lemma_agrees_covers(s, q, head);
    }
    if q + raw_bytes(w).len() <= s.len() {
        lemma_agrees_covers(s, q + 8, w);
    }
}

proof fn lemma_vec_agrees_read<T>(
    s: Seq<u8>,
    q: int,
    w: Seq<T>,
    f: spec_fn(T) -> Seq<u8>,
    g: spec_fn(Seq<u8>) -> T,
    sz: int,
    limit: u64,
)
    requires
        agrees(s, q, vec_bytes(w, f)),
        0 <= q,
        codec(f, g, sz),
        sz > 0,
        w.len() <= limit,
    ensures
        vec_bytes(w, f).len() == 8 + sz * w.len(),
        q + vec_bytes(w, f).len() <= s.len() ==> spec_read_vec(s, q, limit, g, sz) == Ok::<
            (Seq<T>, int),
            Fault,
        >((w, q + vec_bytes(w, f).len())),
        q + vec_bytes(w, f).len() > s.len() ==> spec_read_vec(s, q, limit, g, sz) is Err,
{
    lemma_auto_spec_u64_to_from_le_bytes();
    lemma_flat_blocks(w, f, sz);
    assert(sz * w.len() == w.len() * sz) by (nonlinear_arith);
    assert(spec_u64_to_le_bytes(w.len() as u64).len() == 8);
    if q + 8 <= s.len() {
        lemma_vec_agrees(s, q, w, f, g, sz);
        if q + vec_bytes(w, f).len() <= s.len() {
            let c = w.len() as u64;
            assert(Seq::new(c as nat, |k: int| g(s.subrange(q + 8 + sz * k, q + 8 + sz * k + sz))) =~= w);
        }
    }
}

/// The part before the vectors reads back as it was written, as far as the
/// bytes go.
#[verifier::rlimit(60)]
#[verifier::spinoff_prover]
proof fn lemma_header_agrees(s: Seq<u8>, q: int, h: Header)
    requires
        agrees(s, q, header_bytes(h)),
        0 <= q,
        encode_utf8(h.0).len() <= TEXT_LIMIT,
        encode_utf8(h.1).len() <= TEXT_LIMIT,
        encode_utf8(h.6).len() <= TEXT_LIMIT,
    ensures
        q + header_bytes(h).len() <= s.len() ==> spec_read_header(s, q) == Ok::<(Header, int), Fault>(
            (h, q + header_bytes(h).len()),
        ),
        q + header_bytes(h).len() > s.len() ==> spec_read_header(s, q) is Err,
{
    lemma_auto_spec_u64_to_from_le_bytes();
    lemma_stats_codec(h.5, Seq::empty());
    let mg = magic();
    let t1 = text_bytes(h.0);
    let t2 = text_bytes(h.1);
    let f = spec_u64_to_le_bytes(h.2) + spec_u64_to_le_bytes(h.3) + spec_u64_to_le_bytes(h.4) + stats_bytes(
        h.5,
    );
    let t3 = text_bytes(h.6);
    assert(spec_u64_to_le_bytes(h.2).len() == 8);
    assert(spec_u64_to_le_bytes(h.3).len() == 8);
    assert(spec_u64_to_le_bytes(h.4).len() == 8);
    assert(f.len() == 64);
    assert(header_bytes(h) =~= mg + (t1 + (t2 + (f + t3))));
    lemma_agrees_split(s, q, mg, t1 + (t2 + (f + t3)));
    lemma_field_agrees(s, q, mg);
    if q + 4 <= s.len() {
        let q0 = q + 4;
        lemma_agrees_split(s, q0, t1, t2 + (f + t3));
        lemma_text_agrees(s, q0, h.0);
        if q0 + t1.len() <= s.len() {
            let q1 = q0 + t1.len();
            lemma_agrees_split(s, q1, t2, f + t3);
            lemma_text_agrees(s, q1, h.1);
            if q1 + t2.len() <= s.len() {
                let q2 = q1 + t2.len();
                lemma_agrees_split(s, q2, f, t3);
                lemma_field_agrees(s, q2, f);
                if q2 + 64 <= s.len() {
                    assert(f.subrange(0, 8) =~= spec_u64_to_le_bytes(h.2));
                    assert(f.subrange(8, 16) =~= spec_u64_to_le_bytes(h.3));
                    assert(f.subrange(16, 24) =~= spec_u64_to_le_bytes(h.4));
                    assert(f.subrange(24, 64) =~= stats_bytes(h.5));
                    lemma_text_agrees(s, q2 + 64, h.6);
                }
            }
        }
    }
}

/// The vectors read back as they were written, as far as the bytes go.
proof fn lemma_body_agrees(s: Seq<u8>, q: int, b: Body)
    requires
        agrees(s, q, body_bytes(b)),
        0 <= q,
        b.0.len() <= u32::MAX,
        b.1.len() <= b.0.len(),
        b.2.len() <= u32::MAX,
        b.3.len() <= (if b.0.len() > 0 {
            b.0.len() - 1
        } else {
            0
        }),
        b.4.len() <= b.3.len(),
    ensures
        q + body_bytes(b).len() <= s.len() ==> spec_read_body(s, q) == Ok::<(Body, int), Fault>(
            (b, q + body_bytes(b).len()),
        ),
        q + body_bytes(b).len() > s.len() ==> spec_read_body(s, q) is Err,
{
    lemma_codecs();
    let v0 = vec_bytes(b.0, enc_node());
    let v1 = vec_bytes(b.1, enc_dir());
    let v2 = raw_bytes(b.2);
    let v3 = vec_bytes(b.3, enc_u32());
    let v4 = vec_bytes(b.4, enc_u64());
    assert(body_bytes(b) =~= v0 + (v1 + (v2 + (v3 + v4))));
    lemma_agrees_split(s, q, v0, v1 + (v2 + (v3 + v4)));
    lemma_vec_agrees_read(s, q, b.0, enc_node(), dec_node(), 24, u32::MAX as u64);
    if q + v0.len() <= s.len() {
        let q1 = q + v0.len();
        lemma_agrees_split(s, q1, v1, v2 + (v3 + v4));
        lemma_vec_agrees_read(s, q1, b.1, enc_dir(), dec_dir(), 12, b.0.len() as u64);
        if q1 + v1.len() <= s.len() {
            let q2 = q1 + v1.len();
            lemma_agrees_split(s, q2, v2, v3 + v4);
            lemma_raw_agrees(s, q2, b.2, u32::MAX as u64);
            if q2 + v2.len() <= s.len() {
                let q3 = q2 + v2.len();
                lemma_agrees_split(s, q3, v3, v4);
                let lim = (if b.0.len() > 0 {
                    b.0.len() - 1
                } else {
                    0
                }) as u64;
                lemma_vec_agrees_read(s, q3, b.3, enc_u32(), dec_u32(), 4, lim);
                if q3 + v3.len() <= s.len() {
                    let q4 = q3 + v3.len();
                    lemma_vec_agrees_read(s, q4, b.4, enc_u64(), dec_u64(), 8, b.3.len() as u64);
                }
            }
        }
    }
}

/// A hierarchy the format carries whole reads back as it was written, and
/// bytes cut short of its end do not read at all.
pub proof fn lemma_read_back(s: Seq<u8>, q: int, d: Dataset, micros: u64)
    requires
        fits(d),
        0 <= q,
        agrees(s, q, dataset_bytes(d, micros)),
    ensures
        q + dataset_bytes(d, micros).len() <= s.len() ==> spec_read_dataset(s, q) == Ok::<
            (Header, Body, int),
            Fault,
        >((header_of(d, micros), body_of(d), q + dataset_bytes(d, micros).len())),
        q + dataset_bytes(d, micros).len() > s.len() ==> spec_read_dataset(s, q) is Err,
{
    let h = header_of(d, micros);
    let b = body_of(d);
    lemma_agrees_split(s, q, header_bytes(h), body_bytes(b));
    lemma_header_agrees(s, q, h);
    if q + header_bytes(h).len() <= s.len() {
        lemma_body_agrees(s, q + header_bytes(h).len(), b);
    }
}

/// The duration of `m` microseconds, as `Duration::from_micros` makes it.
#[verifier::external_body]
fn from_micros(m: u64) -> Duration {
    Duration::from_micros(m)
}

/// The bytes of a progress report: the stage as a text, then how much is
/// done and of how much, each a little-endian `u64`.
pub open spec fn progress_bytes(stage: Seq<char>, done: u64, total: u64) -> Seq<u8> {
    text_bytes(stage) + spec_u64_to_le_bytes(done) + spec_u64_to_le_bytes(total)
}

/// What reading a progress report at `q` of `s` gives: the stage, the two
/// counts and where the report ends; or why it cannot be read.
pub open spec fn spec_read_progress(s: Seq<u8>, q: int) -> Result<(Seq<char>, u64, u64, int), Fault> {
    match spec_read_text(s, q) {
        Ok((t, m)) => if m + 16 <= s.len() {
            Ok(
                (
                    t,
                    spec_u64_from_le_bytes(s.subrange(m, m + 8)),
                    spec_u64_from_le_bytes(s.subrange(m + 8, m + 16)),
                    m + 16,
                ),
            )
        } else {
            Err(Fault::Truncated)
        },
        Err(f) => Err(f),
    }
}

/// Appends a progress report.
pub fn write_progress(out: &mut Vec<u8>, stage: &str, done: u64, total: u64)
    ensures
        final(out)@ == old(out)@ + progress_bytes(stage@, done, total),
{
    write_string(out, stage);
    write_u64(out, done);
    write_u64(out, total);
    proof {
        assert(final(out)@ =~= old(out)@ + progress_bytes(stage@, done, total));
    }
}

/// Reads the progress report at `pos`.
pub fn read_progress(input: &[u8], pos: usize) -> (r: Result<(String, u64, u64, usize), Fault>)
    ensures
        r matches Ok((t, d, n, end)) ==> spec_read_progress(input@, pos as int) == Ok::<
            (Seq<char>, u64, u64, int),
            Fault,
        >((t@, d, n, end as int)),
        r matches Err(e) ==> e == Fault::NoMemory || spec_read_progress(input@, pos as int) == Err::<
            (Seq<char>, u64, u64, int),
            Fault,
        >(e),
        spec_read_progress(input@, pos as int) is Ok ==> r is Ok || r == Err::<
            (String, u64, u64, usize),
            Fault,
        >(Fault::NoMemory),
{
    let (stage, mid) = match read_string(input, pos) {
        Ok(x) => x,
        Err(e) => {
            return Err(e);
        },
    };
    if input.len() < 16 || mid > input.len() - 16 {
        return Err(Fault::Truncated);
    }
    let (done, _) = match read_u64(input, mid) {
        Ok(x) => x,
        Err(e) => {
            return Err(e);
        },
    };
    let (total, end) = match read_u64(input, mid + 8) {
        Ok(x) => x,
        Err(e) => {
            return Err(e);
        },
    };
    proof {
        assert(spec_read_text(input@, pos as int) == Ok::<(Seq<char>, int), Fault>((stage@, mid as int)));
        assert(end == mid + 16);
    }
    Ok((stage, done, total, end))
}

/// Law: a progress report reads back as it was written, wherever it stands,
/// when its stage fits the limit on texts.
pub proof fn lemma_progress_read_back(s: Seq<u8>, q: int, stage: Seq<char>, done: u64, total: u64)
    requires
        0 <= q,
        s.subrange(q, q + progress_bytes(stage, done, total).len()) == progress_bytes(stage, done, total),
        q + progress_bytes(stage, done, total).len() <= s.len(),
        encode_utf8(stage).len() <= TEXT_LIMIT,
    ensures
        spec_read_progress(s, q) == Ok::<(Seq<char>, u64, u64, int), Fault>(
            (stage, done, total, q + progress_bytes(stage, done, total).len()),
        ),
{
    let p = progress_bytes(stage, done, total);
    let tb = text_bytes(stage);
    lemma_auto_spec_u64_to_from_le_bytes();
    assert(agrees(s, q, tb)) by {
        assert forall|i: int| q <= i < s.len() && i < q + tb.len() implies s[i] == tb[i - q] by {
            assert(s.subrange(q, q + p.len())[i - q] == p[i - q]);
        }
    }
    lemma_text_agrees(s, q, stage);
    let m = q + tb.len();
    assert(s.subrange(m, m + 8) =~= spec_u64_to_le_bytes(done)) by {
        assert forall|k: int| 0 <= k < 8 implies s.subrange(m, m + 8)[k] == spec_u64_to_le_bytes(done)[k] by {
            assert(s.subrange(q, q + p.len())[tb.len() + k] == p[tb.len() + k]);
        }
    }
    assert(s.subrange(m + 8, m + 16) =~= spec_u64_to_le_bytes(total)) by {
        assert forall|k: int| 0 <= k < 8 implies s.subrange(m + 8, m + 16)[k] == spec_u64_to_le_bytes(total)[k] by {
            assert(s.subrange(q, q + p.len())[tb.len() + 8 + k] == p[tb.len() + 8 + k]);
        }
    }
}

/// Appends a hierarchy in the transfer format.
#[verifier::rlimit(80)]
pub fn write_dataset(out: &mut Vec<u8>, data: &Dataset)
    ensures
        exists|m: u64| final(out)@ == old(out)@ + #[trigger] dataset_bytes(*data, m),
{
    let ghost start = out@;
    out.push(0x45u8);
    out.push(0x54u8);
    out.push(0x52u8);
    out.push(0x33u8);
    write_string(out, data.source.as_str());
    write_string(out, data.query.as_str());
    let m = micros_of(&data.elapsed);
    write_u64(out, m);
    write_u64(out, data.unknown_sizes);
    write_u64(out, data.import_peak_memory);
    write_u64(out, data.load_stats.query_us);
    write_u64(out, data.load_stats.decode_us);
    write_u64(out, data.load_stats.finalize_us);
    write_u64(out, data.load_stats.queries);
    write_u64(out, data.load_stats.changes);
    write_string(out, data.capture_note.as_str());
    write_nodes(out, &data.nodes);
    write_dirs(out, &data.directories);
    write_u64(out, data.names.len() as u64);
    append_bytes(out, data.names.as_slice());
    write_ids(out, &data.children);
    write_sums(out, &data.prefix_bytes);
    proof {
        assert(out@ =~= start + dataset_bytes(*data, m));
    }
}

/// Reads the part before the vectors.
fn read_header(input: &[u8], pos: usize) -> (r: Result<
    (String, String, u64, u64, u64, LoadStats, String, usize),
    Fault,
>)
    ensures
        r matches Ok((a, b, m, u, k, l, c, end)) ==> spec_read_header(input@, pos as int) == Ok::<
            (Header, int),
            Fault,
        >(((a@, b@, m, u, k, l, c@), end as int)),
        r matches Err(e) ==> e == Fault::NoMemory || spec_read_header(input@, pos as int) == Err::<
            (Header, int),
            Fault,
        >(e),
        pos + 4 > input@.len() ==> r == Err::<(String, String, u64, u64, u64, LoadStats, String, usize), Fault>(
            Fault::Truncated,
        ),
        pos + 4 <= input@.len() && input@.subrange(pos as int, pos + 4) != magic() ==> r == Err::<
            (String, String, u64, u64, u64, LoadStats, String, usize),
            Fault,
        >(Fault::Invalid),
{
    if input.len() < 4 || pos > input.len() - 4 {
        return Err(Fault::Truncated);
    }
    if input[pos] != 0x45u8 || input[pos + 1] != 0x54u8 || input[pos + 2] != 0x52u8 || input[pos
        + 3] != 0x33u8 {
        proof {
            if input@.subrange(pos as int, pos + 4) == magic() {
                assert(input@.subrange(pos as int, pos + 4)[0] == input@[pos as int]);
                assert(input@.subrange(pos as int, pos + 4)[1] == input@[pos + 1]);
                assert(input@.subrange(pos as int, pos + 4)[2] == input@[pos + 2]);
                assert(input@.subrange(pos as int, pos + 4)[3] == input@[pos + 3]);
            }
        }
        return Err(invalid());
    }
    proof {
        assert(input@.subrange(pos as int, pos + 4) =~= magic());
    }
    let (source, q1) = match read_string(input, pos + 4) {
        Ok(x) => x,
        Err(e) => {
            return Err(e);
        },
    };
    let (query, q2) = match read_string(input, q1) {
        Ok(x) => x,
        Err(e) => {
            return Err(e);
        },
    };
    let (micros, unknown, peak, stats, q10) = match read_fixed(input, q2) {
        Ok(x) => x,
        Err(e) => {
            return Err(e);
        },
    };
    let (note, end) = match read_string(input, q10) {
        Ok(x) => x,
        Err(e) => {
            return Err(e);
        },
    };
    Ok((source, query, micros, unknown, peak, stats, note, end))
}

/// Reads the 64 bytes of fixed-size fields: elapsed microseconds, unknown
/// sizes, peak memory and the load statistics.
fn read_fixed(input: &[u8], q2: usize) -> (r: Result<(u64, u64, u64, LoadStats, usize), Fault>)
    ensures
        spec_field(input@, q2 as int, 64) matches Some(f) ==> r == Ok::<
            (u64, u64, u64, LoadStats, usize),
            Fault,
        >(
            (
                spec_u64_from_le_bytes(f.subrange(0, 8)),
                spec_u64_from_le_bytes(f.subrange(8, 16)),
                spec_u64_from_le_bytes(f.subrange(16, 24)),
                stats_from(f.subrange(24, 64)),
                (q2 + 64) as usize,
            ),
        ),
        spec_field(input@, q2 as int, 64) is None ==> r == Err::<(u64, u64, u64, LoadStats, usize), Fault>(
            Fault::Truncated,
        ),
{
    if input.len() < 64 || q2 > input.len() - 64 {
        return Err(Fault::Truncated);
    }
    let ghost f = input@.subrange(q2 as int, q2 + 64);
    let (micros, q3) = match read_u64(input, q2) {
        Ok(x) => x,
        Err(e) => {
            return Err(e);
        },
    };
    let (unknown, q4) = match read_u64(input, q3) {
        Ok(x) => x,
        Err(e) => {
            return Err(e);
        },
    };
    let (peak, q5) = match read_u64(input, q4) {
        Ok(x) => x,
        Err(e) => {
            return Err(e);
        },
    };
    let (query_us, q6) = match read_u64(input, q5) {
        Ok(x) => x,
        Err(e) => {
            return Err(e);
        },
    };
    let (decode_us, q7) = match read_u64(input, q6) {
        Ok(x) => x,
        Err(e) => {
            return Err(e);
        },
    };
    let (finalize_us, q8) = match read_u64(input, q7) {
        Ok(x) => x,
        Err(e) => {
            return Err(e);
        },
    };
    let (queries, q9) = match read_u64(input, q8) {
        Ok(x) => x,
        Err(e) => {
            return Err(e);
        },
    };
    let (changes, q10) = match read_u64(input, q9) {
        Ok(x) => x,
        Err(e) => {
            return Err(e);
        },
    };
    let stats = LoadStats { query_us, decode_us, finalize_us, queries, changes };
    proof {
        assert(f.subrange(0, 8) =~= input@.subrange(q2 as int, q2 + 8));
        assert(f.subrange(8, 16) =~= input@.subrange(q2 + 8, q2 + 16));
        assert(f.subrange(16, 24) =~= input@.subrange(q2 + 16, q2 + 24));
        let st = f.subrange(24, 64);
        assert(st.subrange(0, 8) =~= input@.subrange(q2 + 24, q2 + 32));
        assert(st.subrange(8, 16) =~= input@.subrange(q2 + 32, q2 + 40));
        assert(st.subrange(16, 24) =~= input@.subrange(q2 + 40, q2 + 48));
        assert(st.subrange(24, 32) =~= input@.subrange(q2 + 48, q2 + 56));
        assert(st.subrange(32, 40) =~= input@.subrange(q2 + 56, q2 + 64));
        assert(stats == stats_from(st));
    }
    Ok((micros, unknown, peak, stats, q10))
}

/// Reads the vectors.
fn read_body(input: &[u8], pos: usize) -> (r: Result<
    (Vec<Node>, Vec<Directory>, Vec<u8>, Vec<u32>, Vec<u64>, usize),
    Fault,
>)
    ensures
        r matches Ok((a, b, c, d, e, end)) ==> spec_read_body(input@, pos as int) == Ok::<(Body, int), Fault>(
            ((a@, b@, c@, d@, e@), end as int),
        ),
        r matches Err(e) ==> e == Fault::NoMemory || spec_read_body(input@, pos as int) == Err::<
            (Body, int),
            Fault,
        >(e),
{
    let (nodes, q1) = match read_nodes(input, pos, 4294967295u64) {
        Ok(x) => x,
        Err(e) => {
            return Err(e);
        },
    };
    let (dirs, q2) = match read_dirs(input, q1, nodes.len() as u64) {
        Ok(x) => x,
        Err(e) => {
            return Err(e);
        },
    };
    let (names, q3) = match read_raw(input, q2, 4294967295u64) {
        Ok(x) => x,
        Err(e) => {
            return Err(e);
        },
    };
    let limit = if nodes.len() > 0 {
        nodes.len() - 1
    } else {
        0
    };
    let (children, q4) = match read_ids(input, q3, limit as u64) {
        Ok(x) => x,
        Err(e) => {
            return Err(e);
        },
    };
    let (prefix, q5) = match read_sums(input, q4, children.len() as u64) {
        Ok(x) => x,
        Err(e) => {
            return Err(e);
        },
    };
    Ok((nodes, dirs, names, children, prefix, q5))
}

/// The reader's shape checks of the vectors.
fn shape_checks(nodes: &Vec<Node>, dirs: &Vec<Directory>, children: &Vec<u32>, prefix: &Vec<u64>) -> (r:
    bool)
    ensures
        r == body_shape_ok((nodes@, dirs@, Seq::empty(), children@, prefix@)),
{
    if nodes.len() == 0 || children.len() != nodes.len() - 1 || prefix.len() != children.len() {
        return false;
    }
    if dirs.len() == 0 || !nodes[0].is_dir() {
        return false;
    }
    let mut i: usize = 0;
    while i < nodes.len()
        invariant
            i <= nodes@.len(),
            forall|k: int|
                0 <= k < i && (#[trigger] nodes@[k]).spec_is_dir() ==> nodes@[k].directory < dirs@.len(),
        decreases nodes@.len() - i,
    {
        if nodes[i].is_dir() && nodes[i].directory as usize >= dirs.len() {
            return false;
        }
        i = i + 1;
    }
    let mut x: usize = 0;
    while x < dirs.len()
        invariant
            x <= dirs@.len(),
            forall|k: int|
                0 <= k < x ==> (#[trigger] dirs@[k]).child_start + dirs@[k].child_count
                    <= children@.len(),
        decreases dirs@.len() - x,
    {
        if dirs[x].child_start as u64 + dirs[x].child_count as u64 > children.len() as u64 {
            return false;
        }
        x = x + 1;
    }
    true
}

/// What survives the trip: everything but the elapsed time and the mark of
/// a synthetic hierarchy.
pub open spec fn same_content(a: Dataset, b: Dataset) -> bool {
    &&& a.nodes@ == b.nodes@
    &&& a.directories@ == b.directories@
    &&& a.names@ == b.names@
    &&& a.children@ == b.children@
    &&& a.prefix_bytes@ == b.prefix_bytes@
    &&& a.source@ == b.source@
    &&& a.query@ == b.query@
    &&& a.unknown_sizes == b.unknown_sizes
    &&& a.import_peak_memory == b.import_peak_memory
    &&& a.load_stats == b.load_stats
    &&& a.capture_note@ == b.capture_note@
}

/// Reads a hierarchy in the transfer format at `pos`, and checks its shape.
pub fn read_dataset(input: &[u8], pos: usize) -> (r: Result<(Dataset, usize), Fault>)
    ensures
        r matches Ok((d, end)) ==> {
            &&& d.shape_ok()
            &&& !d.synthetic
            &&& spec_read_dataset(input@, pos as int) matches Ok((h, b, e)) && e == end && b
                == body_of(d) && h == header_of(d, h.2)
        },
        r matches Err(e) ==> e == Fault::NoMemory || spec_read_dataset(input@, pos as int) == Err::<
            (Header, Body, int),
            Fault,
        >(e),
        forall|d: Dataset, m: u64|
            fits(d) && agrees(input@, pos as int, #[trigger] dataset_bytes(d, m)) ==> {
                &&& pos + dataset_bytes(d, m).len() <= input@.len() ==> (r matches Ok((c, end))
                    && same_content(c, d) && end == pos + dataset_bytes(d, m).len() || r == Err::<
                    (Dataset, usize),
                    Fault,
                >(Fault::NoMemory))
                &&& pos + dataset_bytes(d, m).len() > input@.len() ==> r is Err
            },
        pos + 4 > input@.len() ==> r == Err::<(Dataset, usize), Fault>(Fault::Truncated),
        pos + 4 <= input@.len() && input@.subrange(pos as int, pos + 4) != magic() ==> r == Err::<
            (Dataset, usize),
            Fault,
        >(Fault::Invalid),
{
    let (source, query, micros, unknown_sizes, import_peak_memory, load_stats, capture_note, q) =
        match read_header(input, pos) {
        Ok(x) => x,
        Err(e) => {
            proof {
                lemma_read_all(input@, pos as int);
            }
            return Err(e);
        },
    };
    let (nodes, directories, names, children, prefix_bytes, end) = match read_body(input, q) {
        Ok(x) => x,
        Err(e) => {
            proof {
                lemma_read_all(input@, pos as int);
            }
            return Err(e);
        },
    };
    if !shape_checks(&nodes, &directories, &children, &prefix_bytes) {
        proof {
            lemma_read_all(input@, pos as int);
        }
        return Err(invalid());
    }
    let d = Dataset {
        nodes,
        directories,
        names,
        children,
        prefix_bytes,
        source,
        query,
        elapsed: from_micros(micros),
        unknown_sizes,
        synthetic: false,
        import_peak_memory,
        load_stats,
        capture_note,
    };
    proof {
        lemma_read_all(input@, pos as int);
    }
    Ok((d, end))
}

/// Every hierarchy that the format carries whole reads back from where it was written.
proof fn lemma_read_all(s: Seq<u8>, q: int)
    requires
        0 <= q,
    ensures
        forall|d: Dataset, m: u64|
            fits(d) && agrees(s, q, #[trigger] dataset_bytes(d, m)) ==> {
                &&& q + dataset_bytes(d, m).len() <= s.len() ==> spec_read_dataset(s, q) == Ok::<
                    (Header, Body, int),
                    Fault,
                >((header_of(d, m), body_of(d), q + dataset_bytes(d, m).len()))
                &&& q + dataset_bytes(d, m).len() > s.len() ==> spec_read_dataset(s, q) is Err
            },
{
    assert forall|d: Dataset, m: u64| fits(d) && agrees(s, q, #[trigger] dataset_bytes(d, m)) implies {
        &&& q + dataset_bytes(d, m).len() <= s.len() ==> spec_read_dataset(s, q) == Ok::<
            (Header, Body, int),
            Fault,
        >((header_of(d, m), body_of(d), q + dataset_bytes(d, m).len()))
        &&& q + dataset_bytes(d, m).len() > s.len() ==> spec_read_dataset(s, q) is Err
    } by {
        lemma_read_back(s, q, d, m);
    }
}

} // verus!
