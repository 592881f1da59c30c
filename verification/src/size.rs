use vstd::prelude::*;

verus! {

/// The decimal digit `d` (below ten) as a character.
pub open spec fn digit_char(d: nat) -> char {
    (48 + d) as char
}

/// The decimal numeral of `n`, without leading zeros.
pub open spec fn decimal(n: nat) -> Seq<char>
    decreases n,
{
    if n < 10 {
        seq![digit_char(n)]
    } else {
        decimal(n / 10).push(digit_char(n % 10))
    }
}

/// `a / d` rounded to the nearest integer, a tie going to the even one.
pub open spec fn round_half_even(a: nat, d: nat) -> nat
    recommends
        d > 0,
{
    let q = a / d;
    let r = a % d;
    if 2 * r > d || (2 * r == d && q % 2 == 1) {
        q + 1
    } else {
        q
    }
}

/// The spacing of `f64` values around `n`: 1 below 2^53, doubling with each
/// further bit.
pub open spec fn f64_spacing(n: nat) -> nat
    decreases n,
{
    if n < 0x20_0000_0000_0000 {
        1
    } else {
        2 * f64_spacing(n / 2)
    }
}

/// The value of `n as f64`: the nearest value with a 53-bit significand,
/// a tie going to the even significand.
pub open spec fn f64_nearest(n: nat) -> nat {
    round_half_even(n, f64_spacing(n)) * f64_spacing(n)
}

/// `num / den` written with one digit after the point, rounded half to even
/// (how `{:.1}` writes the exact value).
pub open spec fn one_decimal(num: nat, den: nat) -> Seq<char> {
    let t = round_half_even(10 * num, den);
    decimal(t / 10) + seq!['.'] + seq![digit_char(t % 10)]
}

/// The size column of the file list: bytes below 1 KiB, KiB with one decimal
/// below 1 MiB, MiB with one decimal above.
pub open spec fn human_size_text(size: nat) -> Seq<char> {
    if size >= 0x10_0000 {
        one_decimal(f64_nearest(size), 0x10_0000) + seq![' ', 'M', 'B']
    } else if size >= 1024 {
        one_decimal(size, 1024) + seq![' ', 'K', 'B']
    } else {
        decimal(size) + seq![' ', 'B']
    }
}

/// The decimal digit `d` as text.
fn digit_text(d: u128) -> (r: &'static str)
    requires
        d < 10,
    ensures
        r@ == seq![digit_char(d as nat)],
{
    match d {
        0 => {
            proof {
                reveal_strlit("0");
            }
            "0"
        },
        1 => {
            proof {
                reveal_strlit("1");
            }
            "1"
        },
        2 => {
            proof {
                reveal_strlit("2");
            }
            "2"
        },
        3 => {
            proof {
                reveal_strlit("3");
            }
            "3"
        },
        4 => {
            proof {
                reveal_strlit("4");
            }
            "4"
        },
        5 => {
            proof {
                reveal_strlit("5");
            }
            "5"
        },
        6 => {
            proof {
                reveal_strlit("6");
            }
            "6"
        },
        7 => {
            proof {
                reveal_strlit("7");
            }
            "7"
        },
        8 => {
            proof {
                reveal_strlit("8");
            }
            "8"
        },
        _ => {
            proof {
                reveal_strlit("9");
            }
            "9"
        },
    }
}

/// Appends the decimal numeral of `n`.
fn push_decimal(n: u128, out: &mut String)
    ensures
        final(out)@ == old(out)@ + decimal(n as nat),
    decreases n,
{
    if n >= 10 {
        push_decimal(n / 10, out);
    }
    out.append(digit_text(n % 10));
    proof {
        if n < 10 {
            assert(decimal(n as nat) =~= seq![digit_char(n as nat)]);
        }
    }
    assert(out@ =~= old(out)@ + decimal(n as nat));
}

/// `round_half_even(a, d)` computed on machine integers.
fn round_half_even_exec(a: u128, d: u128) -> (r: u128)
    requires
        d > 0,
        d < 0x1_0000_0000_0000_0000_0000,
        a < 0x1_0000_0000_0000_0000_0000,
    ensures
        r == round_half_even(a as nat, d as nat),
{
    let q = a / d;
    let rem = a % d;
    assert(q <= a) by (nonlinear_arith)
        requires
            d > 0,
            q == a / d,
    ;
    if 2 * rem > d || (2 * rem == d && q % 2 == 1) {
        q + 1
    } else {
        q
    }
}

/// The value of `n as f64`, as an integer.
fn f64_nearest_exec(n: u64) -> (r: u128)
    ensures
        r == f64_nearest(n as nat),
        r <= 0x2_0000_0000_0000_0000,
{
    let nn: u128 = n as u128;
    let mut m: u128 = nn;
    let mut unit: u128 = 1;
    while m >= 0x20_0000_0000_0000
        invariant
            nn == n,
            f64_spacing(n as nat) == unit * f64_spacing(m as nat),
            m == nn / unit,
            1 <= unit <= 0x1000,
            unit == 1 || unit * 0x10_0000_0000_0000 <= nn,
        decreases m,
    {
        assert(m / 2 == (nn as int) / (unit * 2)) by {
            vstd::arithmetic::div_mod::lemma_div_denominator(nn as int, unit as int, 2);
        }
        assert(unit * f64_spacing(m as nat) == (unit * 2) * f64_spacing((m / 2) as nat)) by (nonlinear_arith)
            requires
                f64_spacing(m as nat) == 2 * f64_spacing((m / 2) as nat),
        ;
        assert(unit * 0x20_0000_0000_0000 <= nn) by (nonlinear_arith)
            requires
                m == nn / unit,
                unit >= 1,
                m >= 0x20_0000_0000_0000,
        ;
        assert(unit * 2 <= 0x1000) by (nonlinear_arith)
            requires
                unit * 0x20_0000_0000_0000 <= nn,
                nn < 0x1_0000_0000_0000_0000,
        ;
        m = m / 2;
        unit = unit * 2;
    }
    assert(f64_spacing(m as nat) == 1);
    let q = round_half_even_exec(nn, unit);
    assert(q <= m + 1);
    assert(q * unit <= 0x2_0000_0000_0000_0000) by (nonlinear_arith)
        requires
            q <= m + 1,
            m == nn / unit,
            unit >= 1,
            nn < 0x1_0000_0000_0000_0000,
            unit <= 0x1000,
    ;
    assert(f64_spacing(n as nat) == unit) by (nonlinear_arith)
        requires
            f64_spacing(n as nat) == unit * f64_spacing(m as nat),
            f64_spacing(m as nat) == 1,
    ;
    q * unit
}

/// Writes `num / den` with one decimal, as `one_decimal` says.
fn push_one_decimal(num: u128, den: u128, out: &mut String)
    requires
        0 < den <= 0x10_0000,
        num <= 0x2_0000_0000_0000_0000,
    ensures
        final(out)@ == old(out)@ + one_decimal(num as nat, den as nat),
{
    let t = round_half_even_exec(10 * num, den);
    push_decimal(t / 10, out);
    out.append(".");
    out.append(digit_text(t % 10));
    proof {
        reveal_strlit(".");
    }
    assert(out@ =~= old(out)@ + one_decimal(num as nat, den as nat));
}

/// The text of the size column for a file of `size` bytes: "512 B",
/// "1.5 KB", "2.0 MB".
pub fn human_size(size: u64) -> (r: String)
    ensures
        r@ == human_size_text(size as nat),
{
    let mut out = String::new();
    if size >= 0x10_0000 {
        let v = f64_nearest_exec(size);
        push_one_decimal(v, 0x10_0000, &mut out);
        out.append(" MB");
        proof {
            reveal_strlit(" MB");
        }
    } else if size >= 1024 {
        push_one_decimal(size as u128, 1024, &mut out);
        out.append(" KB");
        proof {
            reveal_strlit(" KB");
        }
    } else {
        push_decimal(size as u128, &mut out);
        out.append(" B");
        proof {
            reveal_strlit(" B");
        }
    }
    assert(out@ =~= human_size_text(size as nat));
    out
}

} // verus!
