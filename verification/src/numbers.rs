//! Decimal text of counts: plain, zero-padded, and with thousands separators.
use vstd::prelude::*;
use vstd::string::StringExecFns;

verus! {

/// The character of decimal digit `d`.
pub open spec fn digit_char(d: int) -> char {
    if d == 0 {
        '0'
    } else if d == 1 {
        '1'
    } else if d == 2 {
        '2'
    } else if d == 3 {
        '3'
    } else if d == 4 {
        '4'
    } else if d == 5 {
        '5'
    } else if d == 6 {
        '6'
    } else if d == 7 {
        '7'
    } else if d == 8 {
        '8'
    } else {
        '9'
    }
}

/// The decimal digits of `n`, most significant first, with no leading zeros.
pub open spec fn decimal(n: nat) -> Seq<char>
    decreases n,
{
    if n < 10 {
        seq![digit_char(n as int)]
    } else {
        decimal(n / 10).push(digit_char((n % 10) as int))
    }
}

/// `n` in decimal, with leading zeros up to `width` digits.
pub open spec fn padded(n: nat, width: nat) -> Seq<char> {
    let d = decimal(n);
    if d.len() >= width {
        d
    } else {
        Seq::new((width - d.len()) as nat, |i: int| '0') + d
    }
}

/// The first `k` characters of `s`, with a comma before each one that starts
/// a group of three counted from the end.
pub open spec fn grouped(s: Seq<char>, k: int) -> Seq<char>
    decreases k,
{
    if k <= 0 {
        Seq::empty()
    } else {
        let comma = if k - 1 > 0 && (s.len() - (k - 1)) % 3 == 0 {
            seq![',']
        } else {
            Seq::empty()
        };
        grouped(s, k - 1) + comma + seq![s[k - 1]]
    }
}

/// The text of decimal digit `d`.
fn digit_text(d: u64) -> (r: &'static str)
    requires
        d < 10,
    ensures
        r@ == seq![digit_char(d as int)],
{
    proof {
        reveal_strlit("0");
        reveal_strlit("1");
        reveal_strlit("2");
        reveal_strlit("3");
        reveal_strlit("4");
        reveal_strlit("5");
        reveal_strlit("6");
        reveal_strlit("7");
        reveal_strlit("8");
        reveal_strlit("9");
    }
    if d == 0 {
        "0"
    } else if d == 1 {
        "1"
    } else if d == 2 {
        "2"
    } else if d == 3 {
        "3"
    } else if d == 4 {
        "4"
    } else if d == 5 {
        "5"
    } else if d == 6 {
        "6"
    } else if d == 7 {
        "7"
    } else if d == 8 {
        "8"
    } else {
        "9"
    }
}

/// The decimal digits of `n`, least significant first.
fn digits_of(n: u64) -> (r: Vec<u64>)
    ensures
        r@.len() == decimal(n as nat).len(),
        forall|i: int| 0 <= i < r@.len() ==> #[trigger] r@[i] < 10,
        forall|i: int|
            0 <= i < r@.len() ==> digit_char(#[trigger] r@[i] as int) == decimal(n as nat)[decimal(
                n as nat,
            ).len() - 1 - i],
{
    let mut out: Vec<u64> = Vec::new();
    let mut m = n;
    while m >= 10
        invariant
            m <= n,
            decimal(n as nat) == decimal(m as nat) + Seq::new(
                out@.len(),
                |i: int| digit_char(out@[out@.len() - 1 - i] as int),
            ),
            forall|i: int| 0 <= i < out@.len() ==> #[trigger] out@[i] < 10,
        decreases m,
    {
        let ghost before = out@;
        let ghost mm = m;
        out.push(m % 10);
        m = m / 10;
        proof {
            assert(decimal(mm as nat) == decimal(m as nat).push(digit_char((mm % 10) as int)));
            assert(Seq::new(out@.len(), |i: int| digit_char(out@[out@.len() - 1 - i] as int)) =~= seq![
                digit_char((mm % 10) as int),
            ] + Seq::new(before.len(), |i: int| digit_char(before[before.len() - 1 - i] as int)));
            assert(decimal(n as nat) =~= decimal(m as nat) + Seq::new(
                out@.len(),
                |i: int| digit_char(out@[out@.len() - 1 - i] as int),
            ));
        }
    }
    let ghost before = out@;
    out.push(m);
    proof {
        assert(decimal(m as nat) == seq![digit_char(m as int)]);
        assert(decimal(n as nat) =~= Seq::new(
            out@.len(),
            |i: int| digit_char(out@[out@.len() - 1 - i] as int),
        ));
    }
    out
}

/// Appends `n` in decimal, with leading zeros up to `width` digits.
pub fn push_padded(s: &mut String, n: u64, width: usize)
    ensures
        final(s)@ == old(s)@ + padded(n as nat, width as nat),
{
    let digits = digits_of(n);
    let ghost start = s@;
    let ghost d = decimal(n as nat);
    let mut k = digits.len();
    proof {
        reveal_strlit("0");
    }
    while k < width
        invariant
            digits@.len() <= k <= width || (k == digits@.len() && k >= width),
            s@ == start + Seq::new((k - digits@.len()) as nat, |i: int| '0'),
        decreases width - k,
    {
        proof {
            reveal_strlit("0");
        }
        s.append("0");
        proof {
            assert(s@ =~= start + Seq::new((k + 1 - digits@.len()) as nat, |i: int| '0'));
        }
        k = k + 1;
    }
    let ghost zeros = s@.subrange(start.len() as int, s@.len() as int);
    let mut j = digits.len();
    while j > 0
        invariant
            j <= digits@.len(),
            digits@.len() == d.len(),
            forall|i: int| 0 <= i < digits@.len() ==> #[trigger] digits@[i] < 10,
            forall|i: int|
                0 <= i < digits@.len() ==> digit_char(#[trigger] digits@[i] as int) == d[d.len() - 1 - i],
            s@ == start + zeros + d.subrange(0, d.len() - j),
        decreases j,
    {
        j = j - 1;
        s.append(digit_text(digits[j]));
        proof {
            assert(d.subrange(0, d.len() - j) =~= d.subrange(0, d.len() - (j + 1)).push(d[d.len() - 1 - j]));
        }
    }
    proof {
        assert(d.subrange(0, d.len() as int) =~= d);
        if d.len() >= width {
            assert(zeros =~= Seq::<char>::empty());
        } else {
            assert(zeros =~= Seq::new((width - d.len()) as nat, |i: int| '0'));
        }
        assert(s@ =~= start + padded(n as nat, width as nat));
    }
}

/// The text of `n` with a comma between each group of three digits.
pub fn format_count(n: usize) -> (r: String)
    ensures
        r@ == grouped(decimal(n as nat), decimal(n as nat).len() as int),
{
    let digits = digits_of(n as u64);
    let ghost d = decimal(n as nat);
    let len = digits.len();
    let mut out = String::new();
    let mut i: usize = 0;
    proof {
        reveal_strlit(",");
    }
    while i < len
        invariant
            len == digits@.len(),
            digits@.len() == d.len(),
            i <= len,
            forall|k: int| 0 <= k < digits@.len() ==> #[trigger] digits@[k] < 10,
            forall|k: int|
                0 <= k < digits@.len() ==> digit_char(#[trigger] digits@[k] as int) == d[d.len() - 1 - k],
            out@ == grouped(d, i as int),
        decreases len - i,
    {
        let ghost before = out@;
        proof {
            reveal_strlit(",");
        }
        if i > 0 && (len - i) % 3 == 0 {
            out.append(",");
        }
        let ghost mid = out@;
        out.append(digit_text(digits[len - 1 - i]));
        proof {
            assert(digit_char(digits@[len - 1 - i] as int) == d[i as int]);
            let comma = if i > 0 && (d.len() - i) % 3 == 0 {
                seq![',']
            } else {
                Seq::<char>::empty()
            };
            assert(mid =~= before + comma);
            assert(out@ =~= grouped(d, i + 1));
        }
        i = i + 1;
    }
    out
}

} // verus!
