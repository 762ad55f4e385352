use vstd::prelude::*;
use vstd::arithmetic::div_mod::{
    lemma_fundamental_div_mod, lemma_fundamental_div_mod_converse_div,
    lemma_fundamental_div_mod_converse_mod,
};

verus! {

/// The character of a decimal digit `d < 10`.
pub open spec fn digit_char(d: nat) -> char {
    if d == 0 {
        '0'
    } else if d == 1 {
        '1'
    } else if d == 2 {
        '2'
    } else if d == 3 {
        '3'
    } else if d == 4 {
        '4'
    } else if d == 5 {
        '5'
    } else if d == 6 {
        '6'
    } else if d == 7 {
        '7'
    } else if d == 8 {
        '8'
    } else {
        '9'
    }
}

/// Decimal digits of `n`, most significant first, without leading zeros.
pub open spec fn decimal(n: nat) -> Seq<char>
    decreases n,
{
    if n < 10 {
        seq![digit_char(n)]
    } else {
        decimal(n / 10).push(digit_char(n % 10))
    }
}

/// Index of the binary unit a byte count is shown in: the largest of
/// B, KiB, MiB, GiB, TiB, PiB whose size does not exceed the count.
pub open spec fn unit_index(x: nat) -> nat {
    if x < 1024 {
        0
    } else if x < 1048576 {
        1
    } else if x < 1073741824 {
        2
    } else if x < 1099511627776 {
        3
    } else if x < 1125899906842624 {
        4
    } else {
        5
    }
}

/// Number of bytes in the unit of index `k` (1024 to the power `k`).
pub open spec fn unit_size(k: nat) -> nat {
    if k == 0 {
        1
    } else if k == 1 {
        1024
    } else if k == 2 {
        1048576
    } else if k == 3 {
        1073741824
    } else if k == 4 {
        1099511627776
    } else {
        1125899906842624
    }
}

pub open spec fn unit_name(k: nat) -> Seq<char> {
    if k == 0 {
        seq!['B']
    } else if k == 1 {
        seq!['K', 'i', 'B']
    } else if k == 2 {
        seq!['M', 'i', 'B']
    } else if k == 3 {
        seq!['G', 'i', 'B']
    } else if k == 4 {
        seq!['T', 'i', 'B']
    } else {
        seq!['P', 'i', 'B']
    }
}

/// The byte count `x` in its unit, in hundredths, rounded to the nearest
/// value; an exact tie goes to the even one.
pub open spec fn hundredths_in_unit(x: nat) -> nat {
    let d = unit_size(unit_index(x));
    let q = (x * 100) / d;
    let r = (x * 100) % d;
    if 2 * r > d || (2 * r == d && q % 2 == 1) {
        q + 1
    } else {
        q
    }
}

/// `x` bytes as text: the scaled value with two fractional digits, then the unit.
pub open spec fn byte_unit_text(x: nat) -> Seq<char> {
    let h = hundredths_in_unit(x);
    decimal(h / 100) + seq!['.', digit_char((h / 10) % 10), digit_char(h % 10)] + unit_name(
        unit_index(x),
    )
}

fn digit_str(d: u128) -> (r: &'static str)
    requires
        d < 10,
    ensures
        r@ == seq![digit_char(d as nat)],
{
    proof {
        reveal_strlit("0");
        reveal_strlit("1");
        reveal_strlit("2");
        reveal_strlit("3");
        reveal_strlit("4");
        reveal_strlit("5");
        reveal_strlit("6");
        reveal_strlit("7");
        reveal_strlit("8");
        reveal_strlit("9");
    }
    if d == 0 {
        "0"
    } else if d == 1 {
        "1"
    } else if d == 2 {
        "2"
    } else if d == 3 {
        "3"
    } else if d == 4 {
        "4"
    } else if d == 5 {
        "5"
    } else if d == 6 {
        "6"
    } else if d == 7 {
        "7"
    } else if d == 8 {
        "8"
    } else {
        "9"
    }
}

/// The decimal text of `n`.
pub fn decimal_string(n: u128) -> (r: String)
    ensures
        r@ == decimal(n as nat),
    decreases n,
{
    if n < 10 {
        String::from_str(digit_str(n))
    } else {
        let mut s = decimal_string(n / 10);
        s.append(digit_str(n % 10));
        s
    }
}

fn unit_str(k: u128) -> (r: &'static str)
    ensures
        r@ == unit_name(k as nat),
{
    proof {
        reveal_strlit("B");
        reveal_strlit("KiB");
        reveal_strlit("MiB");
        reveal_strlit("GiB");
        reveal_strlit("TiB");
        reveal_strlit("PiB");
    }
    if k == 0 {
        "B"
    } else if k == 1 {
        "KiB"
    } else if k == 2 {
        "MiB"
    } else if k == 3 {
        "GiB"
    } else if k == 4 {
        "TiB"
    } else {
        "PiB"
    }
}

/// Formats a byte count in the largest binary unit below which it stays,
/// PiB at most, with two fractional digits rounded to nearest, ties to even
/// (`1536` gives `1.50KiB`, `1152` gives `1.12KiB`).
pub fn print_byte_unit(x: u128) -> (r: String)
    ensures
        r@ == byte_unit_text(x as nat),
{
    let k: u128 = if x < 1024 {
        0
    } else if x < 1048576 {
        1
    } else if x < 1073741824 {
        2
    } else if x < 1099511627776 {
        3
    } else if x < 1125899906842624 {
        4
    } else {
        5
    };
    let d: u128 = if k == 0 {
        1
    } else if k == 1 {
        1024
    } else if k == 2 {
        1048576
    } else if k == 3 {
        1073741824
    } else if k == 4 {
        1099511627776
    } else {
        1125899906842624
    };
    assert(k as nat == unit_index(x as nat) && d as nat == unit_size(k as nat));
    let q: u128 = x / d;
    let rem: u128 = x % d;
    proof {
        lemma_fundamental_div_mod(x as int, d as int);
    }
    if k < 5 && q > 1024 {
        assert(d as int * q as int >= d as int * 1025) by (nonlinear_arith)
            requires
                q > 1024,
                d > 0,
        ;
        assert(false);
    }
    assert(q * 100 <= 1000000000000000000000000000000000000) by (nonlinear_arith)
        requires
            q <= 1024 || k == 5,
            x as int == d as int * q as int + rem as int,
            k == 5 ==> d == 1125899906842624,
            x <= u128::MAX,
    ;
    let frac: u128 = (rem * 100) / d;
    let frac_rem: u128 = (rem * 100) % d;
    proof {
        lemma_fundamental_div_mod((rem * 100) as int, d as int);
    }
    assert(frac < 100) by (nonlinear_arith)
        requires
            rem < d,
            d > 0,
            (rem * 100) as int == d as int * frac as int + frac_rem as int,
            frac_rem >= 0,
    ;
    let below: u128 = q * 100 + frac;
    let h: u128 = if 2 * frac_rem > d || (2 * frac_rem == d && below % 2 == 1) {
        below + 1
    } else {
        below
    };
    proof {
        let xs = (x as int) * 100;
        assert(xs == below as int * d as int + frac_rem as int) by (nonlinear_arith)
            requires
                x as int == d as int * q as int + rem as int,
                (rem * 100) as int == d as int * frac as int + frac_rem as int,
                below as int == q as int * 100 + frac as int,
                xs == (x as int) * 100,
        ;
        lemma_fundamental_div_mod_converse_div(xs, d as int, below as int, frac_rem as int);
        lemma_fundamental_div_mod_converse_mod(xs, d as int, below as int, frac_rem as int);
        assert(h as nat == hundredths_in_unit(x as nat));
    }
    let mut s = decimal_string(h / 100);
    let mut tail = String::from_str(".");
    tail.append(digit_str((h / 10) % 10));
    tail.append(digit_str(h % 10));
    tail.append(unit_str(k));
    s.append(tail.as_str());
    proof {
        reveal_strlit(".");
        assert(s@ =~= byte_unit_text(x as nat));
    }
    s
}

} // verus!
