//! Rendering of runtime values: decimal notation for integers and the
//! printed form of every value kind.

use vstd::prelude::*;

use crate::eval::ValueV;

verus! {

/// The digit character of `d`.
pub open spec fn digit_str(d: nat) -> Seq<char> {
    if d == 0 {
        "0"@
    } else if d == 1 {
        "1"@
    } else if d == 2 {
        "2"@
    } else if d == 3 {
        "3"@
    } else if d == 4 {
        "4"@
    } else if d == 5 {
        "5"@
    } else if d == 6 {
        "6"@
    } else if d == 7 {
        "7"@
    } else if d == 8 {
        "8"@
    } else {
        "9"@
    }
}

/// The decimal digits of `n`, most significant first, no leading zeros.
pub open spec fn dec_u64(n: nat) -> Seq<char>
    decreases n,
{
    if n < 10 {
        digit_str(n)
    } else {
        dec_u64(n / 10) + digit_str(n % 10)
    }
}

/// Decimal notation: a leading `-` for negative numbers.
pub open spec fn dec_i64(i: int) -> Seq<char> {
    if i < 0 {
        "-"@ + dec_u64((-i) as nat)
    } else {
        dec_u64(i as nat)
    }
}

/// The printed form of a value. A keyword prints as `:` followed by the name
/// its handle resolves to in the interner table `tbl`; a vector prints its
/// elements between brackets, joined by single spaces; a function prints as
/// an opaque marker.
pub open spec fn display_v(v: ValueV, tbl: Seq<Seq<char>>) -> Seq<char>
    decreases v,
{
    match v {
        ValueV::Bool(b) => if b {
            "true"@
        } else {
            "false"@
        },
        ValueV::Function(_) => "<function>"@,
        ValueV::Integer(i) => dec_i64(i as int),
        ValueV::Keyword(n) => ":"@ + if (n.raw as nat) < tbl.len() {
            tbl[n.raw as int]
        } else {
            Seq::empty()
        },
        ValueV::Nil => "nil"@,
        ValueV::Str(s) => s,
        ValueV::Vector(vs) => "["@ + display_seq(vs, tbl) + "]"@,
    }
}

/// The printed forms of a sequence of values, joined by single spaces.
pub open spec fn display_seq(vs: Seq<ValueV>, tbl: Seq<Seq<char>>) -> Seq<char>
    decreases vs,
{
    if vs.len() == 0 {
        Seq::empty()
    } else if vs.len() == 1 {
        display_v(vs[0], tbl)
    } else {
        display_v(vs[0], tbl) + " "@ + display_seq(vs.subrange(1, vs.len() as int), tbl)
    }
}

/// Appending one more element to a rendered join adds one space and its form.
pub proof fn lemma_display_seq_snoc(vs: Seq<ValueV>, tbl: Seq<Seq<char>>, i: int)
    requires
        1 <= i < vs.len(),
    ensures
        display_seq(vs.subrange(0, i + 1), tbl) == display_seq(vs.subrange(0, i), tbl) + " "@
            + display_v(vs[i], tbl),
    decreases i,
{
    let a = vs.subrange(0, i + 1);
    let b = vs.subrange(0, i);
    let rest = vs.subrange(1, vs.len() as int);
    assert(a[0] == vs[0]);
    if i == 1 {
        assert(a.len() == 2);
        assert(a[1] == vs[1]);
        assert(a.subrange(1, 2) =~= seq![vs[1]]);
        assert(display_seq(seq![vs[1]], tbl) == display_v(vs[1], tbl));
        assert(display_seq(a, tbl) == display_v(a[0], tbl) + " "@ + display_seq(
            a.subrange(1, 2),
            tbl,
        ));
        assert(b =~= seq![vs[0]]);
    } else {
        lemma_display_seq_snoc(rest, tbl, i - 1);
        assert(a.subrange(1, i + 1) =~= rest.subrange(0, i));
        assert(b.subrange(1, i) =~= rest.subrange(0, i - 1));
        assert(rest[i - 1] == vs[i]);
        assert(display_seq(a, tbl) == display_v(vs[0], tbl) + " "@ + display_seq(
            rest.subrange(0, i),
            tbl,
        ));
        assert(display_seq(b, tbl) == display_v(vs[0], tbl) + " "@ + display_seq(
            rest.subrange(0, i - 1),
            tbl,
        ));
        assert(display_v(vs[0], tbl) + " "@ + (display_seq(rest.subrange(0, i - 1), tbl) + " "@
            + display_v(vs[i], tbl)) =~= (display_v(vs[0], tbl) + " "@ + display_seq(
            rest.subrange(0, i - 1),
            tbl,
        )) + " "@ + display_v(vs[i], tbl));
    }
}

fn digit_exec(d: u64) -> (r: &'static str)
    requires
        d < 10,
    ensures
        r@ == digit_str(d as nat),
{
    if d == 0 {
        "0"
    } else if d == 1 {
        "1"
    } else if d == 2 {
        "2"
    } else if d == 3 {
        "3"
    } else if d == 4 {
        "4"
    } else if d == 5 {
        "5"
    } else if d == 6 {
        "6"
    } else if d == 7 {
        "7"
    } else if d == 8 {
        "8"
    } else {
        "9"
    }
}

/// Renders `n` in decimal.
#[verifier::loop_isolation(false)]
pub fn u64_dec(n: u64) -> (r: String)
    ensures
        r@ == dec_u64(n as nat),
{
    if n == 0 {
        return String::from_str("0");
    }
    let mut out = String::new();
    let mut m = n;
    while m > 0
        invariant
            m > 0 ==> dec_u64(n as nat) == dec_u64(m as nat) + out@,
            m == 0 ==> dec_u64(n as nat) == out@,
        decreases m,
    {
        let ghost m0 = m as nat;
        let ghost out0 = out@;
        let d = m % 10;
        let tmp = String::from_str(digit_exec(d));
        out = tmp.concat(out.as_str());
        m = m / 10;
        proof {
            if m0 < 10 {
                assert(m0 % 10 == m0);
                assert(dec_u64(m0) == digit_str(m0));
                assert(out@ =~= digit_str(m0) + out0);
            } else {
                assert(dec_u64(m0) == dec_u64(m0 / 10) + digit_str(m0 % 10));
                assert(dec_u64(m0 / 10) + (digit_str(m0 % 10) + out0) =~= (dec_u64(m0 / 10)
                    + digit_str(m0 % 10)) + out0);
            }
        }
    }
    out
}

/// Renders `i` in decimal, with a leading `-` when negative.
pub fn i64_dec(i: i64) -> (r: String)
    ensures
        r@ == dec_i64(i as int),
{
    if i >= 0 {
        u64_dec(i as u64)
    } else {
        let m: u64 = if i == i64::MIN {
            9223372036854775808u64
        } else {
            (-i) as u64
        };
        proof {
            assert(m as nat == (-(i as int)) as nat);
        }
        let digits = u64_dec(m);
        let out = String::from_str("-").concat(digits.as_str());
        out
    }
}

} // verus!
