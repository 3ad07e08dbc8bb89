use vstd::prelude::*;

use crate::cli::UnitFamily;
use crate::raw::{decimal, digit_char, push_decimal, push_str};
use crate::text::push_char;

verus! {

/// `b` to the power `e`.
pub open spec fn power(b: int, e: nat) -> int
    decreases e,
{
    if e == 0 {
        1
    } else {
        b * power(b, (e - 1) as nat)
    }
}

/// Bits per counted byte: 8 for the bit families, 1 for the byte families.
pub open spec fn unit_mult(f: UnitFamily) -> int {
    match f {
        UnitFamily::BinBits | UnitFamily::SiBits => 8,
        _ => 1,
    }
}

/// The step between two units: 1024 for the binary families, 1000 for the SI ones.
pub open spec fn unit_base(f: UnitFamily) -> int {
    match f {
        UnitFamily::BinBytes | UnitFamily::BinBits => 1024,
        _ => 1000,
    }
}

/// The suffix of unit `n` (0 to 5) of a family.
pub open spec fn unit_suffix(f: UnitFamily, n: int) -> Seq<char> {
    match f {
        UnitFamily::BinBytes => if n == 0 {
            "B"@
        } else if n == 1 {
            "KiB"@
        } else if n == 2 {
            "MiB"@
        } else if n == 3 {
            "GiB"@
        } else if n == 4 {
            "TiB"@
        } else {
            "PiB"@
        },
        UnitFamily::BinBits => if n == 0 {
            "b"@
        } else if n == 1 {
            "Kib"@
        } else if n == 2 {
            "Mib"@
        } else if n == 3 {
            "Gib"@
        } else if n == 4 {
            "Tib"@
        } else {
            "Pib"@
        },
        UnitFamily::SiBytes => if n == 0 {
            "B"@
        } else if n == 1 {
            "kB"@
        } else if n == 2 {
            "MB"@
        } else if n == 3 {
            "GB"@
        } else if n == 4 {
            "TB"@
        } else {
            "PB"@
        },
        UnitFamily::SiBits => if n == 0 {
            "b"@
        } else if n == 1 {
            "kb"@
        } else if n == 2 {
            "Mb"@
        } else if n == 3 {
            "Gb"@
        } else if n == 4 {
            "Tb"@
        } else {
            "Pb"@
        },
    }
}

/// The first unit, from `n` on, below 95% of whose next step `v` lies; the last unit (5)
/// where there is none.
pub open spec fn unit_index_from(v: int, base: int, n: nat) -> nat
    decreases 5 - n,
{
    if n >= 5 {
        5
    } else if 100 * v < 95 * power(base, n + 1) {
        n
    } else {
        unit_index_from(v, base, n + 1)
    }
}

/// `num / d` rounded to the nearest integer, ties to even.
pub open spec fn round_half_even(num: int, d: int) -> int {
    let q = num / d;
    let r = num % d;
    if 2 * r > d || (2 * r == d && q % 2 == 1) {
        q + 1
    } else {
        q
    }
}

/// An amount in a unit family: the value in the chosen unit with two decimals, the unit's
/// suffix, and `/s` for a rate.
pub open spec fn bandwidth_text(bytes: int, f: UnitFamily, rate: bool) -> Seq<char> {
    let v = bytes * unit_mult(f);
    let n = unit_index_from(v, unit_base(f), 0);
    let h = round_half_even(100 * v, power(unit_base(f), n));
    decimal((h / 100) as nat) + seq!['.', digit_char((h / 10) % 10), digit_char(h % 10)]
        + unit_suffix(f, n as int) + if rate {
        "/s"@
    } else {
        Seq::<char>::empty()
    }
}

fn suffix_str(f: UnitFamily, n: u32) -> (s: &'static str)
    ensures
        s@ == unit_suffix(f, n as int),
{
    match f {
        UnitFamily::BinBytes => if n == 0 {
            "B"
        } else if n == 1 {
            "KiB"
        } else if n == 2 {
            "MiB"
        } else if n == 3 {
            "GiB"
        } else if n == 4 {
            "TiB"
        } else {
            "PiB"
        },
        UnitFamily::BinBits => if n == 0 {
            "b"
        } else if n == 1 {
            "Kib"
        } else if n == 2 {
            "Mib"
        } else if n == 3 {
            "Gib"
        } else if n == 4 {
            "Tib"
        } else {
            "Pib"
        },
        UnitFamily::SiBytes => if n == 0 {
            "B"
        } else if n == 1 {
            "kB"
        } else if n == 2 {
            "MB"
        } else if n == 3 {
            "GB"
        } else if n == 4 {
            "TB"
        } else {
            "PB"
        },
        UnitFamily::SiBits => if n == 0 {
            "b"
        } else if n == 1 {
            "kb"
        } else if n == 2 {
            "Mb"
        } else if n == 3 {
            "Gb"
        } else if n == 4 {
            "Tb"
        } else {
            "Pb"
        },
    }
}

proof fn lemma_power_facts(base: int, n: nat)
    requires
        base == 1000 || base == 1024,
        n <= 6,
    ensures
        1 <= power(base, n) <= power(1024, n),
        power(1024, n) <= 0x1000_0000_0000_0000,
        n >= 5 ==> power(base, n) >= 1_000_000_000_000_000,
    decreases n,
{
    reveal_with_fuel(power, 7);
    if n > 0 {
        lemma_power_facts(base, (n - 1) as nat);
    }
}

/// `base` to the power `n`, for the unit steps.
fn unit_divisor(base: u128, n: u32) -> (d: u128)
    requires
        base == 1000 || base == 1024,
        n <= 6,
    ensures
        d == power(base as int, n as nat),
{
    let mut d: u128 = 1;
    let mut k: u32 = 0;
    while k < n
        invariant
            base == 1000 || base == 1024,
            k <= n <= 6,
            d == power(base as int, k as nat),
        decreases n - k,
    {
        proof {
            lemma_power_facts(base as int, (k + 1) as nat);
        }
        d = d * base;
        k = k + 1;
    }
    d
}

/// `bytes` in a unit family, with two decimals, the unit's suffix, and `/s` for a rate:
/// the unit is the first whose next step, scaled by 95%, is above the value.
pub fn format_bandwidth(bytes: u128, unit_family: UnitFamily, rate: bool) -> (s: String)
    ensures
        s@ == bandwidth_text(bytes as int, unit_family, rate),
{
    let mult: u128 = match unit_family {
        UnitFamily::BinBits | UnitFamily::SiBits => 8,
        _ => 1,
    };
    let base: u128 = match unit_family {
        UnitFamily::BinBytes | UnitFamily::BinBits => 1024,
        _ => 1000,
    };
    let ghost v = bytes * mult;
    // choose the unit
    let mut n: u32 = 0;
    if bytes >= 0x1_0000_0000_0000_0000 {
        proof {
            assert forall|k: nat| k <= 5 implies unit_index_from(v, base as int, k) == 5 by {
                lemma_index_large(v, base as int, k);
            }
        }
        n = 5;
    } else {
        let vv: u128 = bytes * mult;
        while n < 5
            invariant
                base == 1000 || base == 1024,
                vv == v,
                vv < 0x8_0000_0000_0000_0000,
                n <= 5,
                unit_index_from(v, base as int, 0) == unit_index_from(v, base as int, n as nat),
            ensures
                n == unit_index_from(v, base as int, 0),
            decreases 5 - n,
        {
            let bound = unit_divisor(base, n + 1);
            proof {
                lemma_power_facts(base as int, (n + 1) as nat);
            }
            if 100 * vv < 95 * bound {
                break;
            }
            n = n + 1;
        }
    }
    assert(n == unit_index_from(v, base as int, 0));
    let d = unit_divisor(base, n);
    proof {
        lemma_power_facts(base as int, n as nat);
    }
    // the value in hundredths of the unit: 100 * v / d, split so that nothing overflows
    let hi = bytes / d;
    let lo = bytes % d;
    proof {
        assert(hi <= 0x1_0000_0000_0000_0000_0000_0000) by {
            if n < 5 {
                assert(bytes < 0x1_0000_0000_0000_0000);
            }
            lemma_div_bound(bytes as int, d as int);
        }
        assert(lo < d);
    }
    proof {
        assert(100 * mult * lo <= 800 * 0x1000_0000_0000_0000) by (nonlinear_arith)
            requires
                mult <= 8,
                lo < d,
                d <= 0x1000_0000_0000_0000,
        ;
        assert(100 * mult * hi <= 800 * 0x1_0000_0000_0000_0000_0000_0000) by (nonlinear_arith)
            requires
                mult <= 8,
                hi <= 0x1_0000_0000_0000_0000_0000_0000,
        ;
    }
    let scaled_lo = 100 * mult * lo;
    let q: u128 = 100 * mult * hi + scaled_lo / d;
    let r: u128 = scaled_lo % d;
    proof {
        lemma_split_div(bytes as int, 100 * mult as int, d as int);
    }
    let h: u128 = if 2 * r > d || (2 * r == d && q % 2 == 1) {
        q + 1
    } else {
        q
    };
    let mut s = String::new();
    push_decimal(&mut s, h / 100);
    push_char(&mut s, '.');
    push_char(&mut s, crate::raw::digit((h / 10) % 10));
    push_char(&mut s, crate::raw::digit(h % 10));
    push_str(&mut s, suffix_str(unit_family, n));
    if rate {
        push_str(&mut s, "/s");
    }
    proof {
        assert(s@ =~= bandwidth_text(bytes as int, unit_family, rate));
    }
    s
}

proof fn lemma_index_large(v: int, base: int, k: nat)
    requires
        base == 1000 || base == 1024,
        v >= 0x1_0000_0000_0000_0000,
        k <= 5,
    ensures
        unit_index_from(v, base, k) == 5,
    decreases 5 - k,
{
    if k < 5 {
        lemma_power_facts(base, k + 1);
        lemma_index_large(v, base, k + 1);
    }
}

proof fn lemma_div_bound(x: int, d: int)
    requires
        0 <= x < 0x1_0000_0000_0000_0000_0000_0000_0000_0000,
        d >= 1,
        x < 0x1_0000_0000_0000_0000 || d >= 1_000_000_000_000_000,
    ensures
        x / d <= 0x1_0000_0000_0000_0000_0000_0000,
{
    assert(x / d <= x) by (nonlinear_arith)
        requires
            x >= 0,
            d >= 1,
    ;
    if d >= 1_000_000_000_000_000 {
        assert(x / d <= x / 1_000_000_000_000_000) by (nonlinear_arith)
            requires
                x >= 0,
                d >= 1_000_000_000_000_000,
        ;
    }
}

proof fn lemma_split_div(x: int, m: int, d: int)
    requires
        x >= 0,
        m >= 0,
        d >= 1,
    ensures
        (m * x) / d == m * (x / d) + (m * (x % d)) / d,
        (m * x) % d == (m * (x % d)) % d,
{
    let hi = x / d;
    let lo = x % d;
    let l = m * lo;
    assert(x == d * hi + lo) by (nonlinear_arith)
        requires
            d >= 1,
            hi == x / d,
            lo == x % d,
    ;
    assert(l >= 0 && lo >= 0) by (nonlinear_arith)
        requires
            m >= 0,
            d >= 1,
            lo == x % d,
            l == m * lo,
    ;
    let lq = l / d;
    let lr = l % d;
    assert(l == d * lq + lr && 0 <= lr < d) by (nonlinear_arith)
        requires
            d >= 1,
            l >= 0,
            lq == l / d,
            lr == l % d,
    ;
    assert(m * x == (m * hi + lq) * d + lr) by (nonlinear_arith)
        requires
            x == d * hi + lo,
            l == m * lo,
            l == d * lq + lr,
    ;
    vstd::arithmetic::div_mod::lemma_fundamental_div_mod_converse(m * x, d, m * hi + lq, lr);
}

} // verus!
