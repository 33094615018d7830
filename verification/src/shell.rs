//! Paths as the Windows shell takes them: UTF-16 with a terminating zero.
use vstd::prelude::*;
use vstd::string::StrSliceExecFns;

verus! {

/// The UTF-16 units of text `t`.
pub open spec fn utf16_units(t: Seq<char>) -> Seq<u16>
    decreases t.len(),
{
    if t.len() == 0 {
        Seq::empty()
    } else {
        let c = t[0] as u32;
        let first = if c < 0x10000 {
            seq![c as u16]
        } else {
            seq![(0xD800 + ((c - 0x10000) / 0x400)) as u16, (0xDC00 + ((c - 0x10000) % 0x400)) as u16]
        };
        first + utf16_units(t.drop_first())
    }
}

/// The path as the shell takes it: its UTF-16 units and a zero; refused
/// when it holds a zero itself.
pub fn wide(path: &str) -> (r: Result<Vec<u16>, String>)
    ensures
        r matches Ok(w) ==> !path@.contains('\0') && w@ == utf16_units(path@).push(0u16),
        r matches Err(e) ==> path@.contains('\0') && e@ == "Invalid path."@,
{
    let n = path.unicode_len();
    let mut k: usize = 0;
    let mut out: Vec<u16> = Vec::new();
    proof {
        assert(path@.skip(0) =~= path@);
        assert(out@ + utf16_units(path@) =~= utf16_units(path@));
    }
    while k < n
        invariant
            n == path@.len(),
            k <= n,
            forall|j: int| 0 <= j < k ==> path@[j] != '\0',
            utf16_units(path@) == out@ + utf16_units(path@.skip(k as int)),
        decreases n - k,
    {
        let c = path.get_char(k);
        if c == '\0' {
            proof {
                assert(path@[k as int] == '\0');
            }
            return Err(String::from_str("Invalid path."));
        }
        let ghost rest = path@.skip(k as int);
        proof {
            assert(rest[0] == c);
            assert(rest.drop_first() =~= path@.skip(k + 1));
        }
        let x = c as u32;
        if x < 0x10000 {
            out.push(x as u16);
        } else {
            out.push((0xD800 + (x - 0x10000) / 0x400) as u16);
            out.push((0xDC00 + (x - 0x10000) % 0x400) as u16);
        }
        proof {
            let first = if x < 0x10000 {
                seq![x as u16]
            } else {
                seq![(0xD800 + ((x - 0x10000) / 0x400)) as u16, (0xDC00 + ((x - 0x10000) % 0x400)) as u16]
            };
            assert(utf16_units(rest) == first + utf16_units(path@.skip(k + 1)));
        }
        k = k + 1;
    }
    proof {
        assert(path@.skip(n as int) =~= Seq::<char>::empty());
        assert forall|j: int| 0 <= j < path@.len() implies path@[j] != '\0' by {}
    }
    out.push(0u16);
    proof {
        assert(utf16_units(path@).push(0u16) =~= out@);
    }
    Ok(out)
}

} // verus!
