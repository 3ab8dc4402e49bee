//! Integer arithmetic of a settlement: fee deduction and pro-rata shares.
use vstd::prelude::*;

verus! {

/// Largest fee rate, in percent.
pub const MAX_FEE_RATE: u8 = 100;

/// The amount left of `gross` once a fee of `rate` percent (rounded down) is kept.
pub open spec fn net_of(gross: int, rate: int) -> int {
    gross - (gross * rate) / 100
}

/// Deducts a fee of `rate` percent, rounded down, from `gross`.
pub fn net_amount(gross: u128, rate: u8) -> (net: u128)
    requires
        rate <= MAX_FEE_RATE,
    ensures
        net == net_of(gross as int, rate as int),
        net <= gross,
{
    let q: u128 = gross / 100;
    let r: u128 = gross % 100;
    proof {
        lemma_fee_split(gross as int, rate as int);
    }
    let fee: u128 = q * (rate as u128) + (r * (rate as u128)) / 100;
    gross - fee
}

proof fn lemma_fee_split(g: int, f: int)
    requires
        0 <= g,
        0 <= f <= 100,
    ensures
        (g * f) / 100 == (g / 100) * f + ((g % 100) * f) / 100,
        (g / 100) * f + ((g % 100) * f) / 100 <= g,
        (g % 100) * f < 10000,
{
    let q = g / 100;
    let r = g % 100;
    vstd::arithmetic::div_mod::lemma_fundamental_div_mod(g, 100);
    assert(g * f == 100 * (q * f) + r * f) by (nonlinear_arith)
        requires g == 100 * q + r;
    let s = (r * f) / 100;
    let t = (r * f) % 100;
    vstd::arithmetic::div_mod::lemma_fundamental_div_mod(r * f, 100);
    vstd::arithmetic::div_mod::lemma_fundamental_div_mod_converse(g * f, 100, q * f + s, t);
    assert(r * f < 10000) by (nonlinear_arith)
        requires 0 <= r < 100, 0 <= f <= 100;
    assert(q * f <= 100 * q) by (nonlinear_arith)
        requires 0 <= q, 0 <= f <= 100;
    assert((r * f) / 100 <= r) by (nonlinear_arith)
        requires 0 <= r < 100, 0 <= f <= 100;
}

/// A participant's share of `net` proceeds: `part / total` of it, rounded down,
/// computed by multiplying before dividing.
pub open spec fn share_of(part: int, net: int, total: int) -> int {
    (part * net) / total
}

/// Computes `(part * n) / total` and its remainder without forming the full
/// product, one bit of `n` at a time from the most significant one.
fn mul_div_rem(part: u128, n: u128, total: u128) -> (res: (u128, u128))
    requires
        0 < total,
        part <= total,
    ensures
        res.0 as int * total as int + res.1 as int == part as int * n as int,
        res.1 < total,
        res.0 <= n,
    decreases n,
{
    if n == 0 {
        proof {
            assert(part as int * 0 == 0) by (nonlinear_arith);
        }
        return (0, 0);
    }
    let half: u128 = n / 2;
    let (q0, r0) = mul_div_rem(part, half, total);
    let ghost t = total as int;
    let ghost p = part as int;
    // double the partial product
    let mut q: u128;
    let mut r: u128;
    if r0 >= total - r0 {
        q = 2 * q0 + 1;
        r = r0 - (total - r0);
    } else {
        q = 2 * q0;
        r = 2 * r0;
    }
    assert(q as int * t + r as int == 2 * (q0 as int * t + r0 as int)) by (nonlinear_arith)
        requires
            q as int == 2 * q0 as int + 1 && r as int == 2 * r0 as int - t
            || q as int == 2 * q0 as int && r as int == 2 * r0 as int,
    ;
    proof {
        vstd::arithmetic::div_mod::lemma_fundamental_div_mod(n as int, 2);
    }
    let ghost b = (n % 2) as int;
    let ghost qd = q as int;
    let ghost rd = r as int;
    if n % 2 == 1 {
        if r >= total - part {
            proof {
                let q1 = q as int + 1;
                let r1 = r as int - (t - p);
                assert(q1 * t + r1 == q as int * t + r as int + p) by (nonlinear_arith)
                    requires
                        q1 == q as int + 1,
                        r1 == r as int - (t - p),
                ;
                assert(q1 * t + r1 == p * n as int) by (nonlinear_arith)
                    requires
                        q1 * t + r1 == q as int * t + r as int + p,
                        q as int * t + r as int == 2 * (p * half as int),
                        n as int == 2 * half as int + 1,
                ;
                assert(q1 * t <= t * n as int) by (nonlinear_arith)
                    requires
                        q1 * t + r1 == p * n as int,
                        0 <= r1,
                        0 <= p <= t,
                        0 <= n,
                ;
                assert(q1 <= n as int) by (nonlinear_arith)
                    requires
                        q1 * t <= t * n as int,
                        0 < t,
                ;
            }
            q = q + 1;
            r = r - (total - part);
        } else {
            r = r + part;
        }
    }
    proof {
        if b == 1 && q as int == qd + 1 {
            assert((qd + 1) * t == qd * t + t) by (nonlinear_arith);
        }
        if b == 1 {
            assert(b * p == p);
        } else {
            assert(b * p == 0);
        }
        assert(q as int * t + r as int == 2 * (q0 as int * t + r0 as int) + b * p);
        assert(n as int == 2 * half as int + b);
        assert(q as int * t + r as int == p * n as int) by (nonlinear_arith)
            requires
                q as int * t + r as int == 2 * (p * half as int) + b * p,
                n as int == 2 * half as int + b,
        ;
        assert(q as int * t <= t * n as int) by (nonlinear_arith)
            requires
                q as int * t + r as int == p * n as int,
                0 <= r,
                0 <= p <= t,
                0 <= n,
        ;
        assert(q as int <= n as int) by (nonlinear_arith)
            requires
                q as int * t <= t * n as int,
                0 < t,
        ;
    }
    (q, r)
}

/// The pro-rata share of `net` owed to a participant who put `part` of a
/// pooled `total`.
pub fn pro_rata_share(part: u128, net: u128, total: u128) -> (share: u128)
    requires
        0 < total,
        part <= total,
    ensures
        share == share_of(part as int, net as int, total as int),
        share <= net,
{
    let (q, r) = mul_div_rem(part, net, total);
    proof {
        vstd::arithmetic::div_mod::lemma_fundamental_div_mod_converse(
            part as int * net as int,
            total as int,
            q as int,
            r as int,
        );
    }
    q
}

} // verus!
