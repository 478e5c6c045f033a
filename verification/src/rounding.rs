//! Rounding of exact magnitudes to the single-precision grid.
//!
//! A magnitude is a natural number counted in units of 2^-150, half of the
//! smallest positive single. In these units every single is an even number,
//! the sum of two singles is exact, and so is the half of a single.
//!
//! The singles form a grid on the magnitudes: at level `j` they are the
//! multiples `k * 2^j` with a 24-bit mantissa `k`. Level 1 holds the
//! subnormals and the first binade, each further binade has a level of its
//! own, and level 255 starts with the infinity, 2^278.
use vstd::arithmetic::div_mod::{lemma_fundamental_div_mod, lemma_fundamental_div_mod_converse};
use vstd::arithmetic::power2::{
    lemma2_to64, lemma_pow2_adds, lemma_pow2_pos, lemma_pow2_strictly_increases,
    lemma_pow2_unfold, pow2,
};
use vstd::prelude::*;

verus! {

/// Body bits of the two infinities: all exponent bits set, no fraction bit.
pub const INFINITY_BODY: u32 = 0x7f80_0000;

/// Weight of the lowest exponent bit, and value of the hidden mantissa bit.
pub const HIDDEN_BIT: u32 = 0x0080_0000;

/// Largest mantissa that `pack` takes, exclusive.
pub(crate) const MANTISSA_LIMIT: u64 = 0x100_0000_0000_0000;

/// Level of the grid around the magnitude `n`: 1 below 2^25, and one more
/// with each doubling from there.
pub open spec fn level(n: nat) -> nat
    decreases n,
{
    if n < 0x200_0000 {
        1
    } else {
        level(n / 2) + 1
    }
}

/// Distance between neighbouring singles around the magnitude `n`.
pub open spec fn spacing(n: nat) -> nat {
    pow2(level(n))
}

/// Whether a magnitude that lies `r` above the `k`-th multiple of `q` rounds
/// to the next multiple: past the midpoint always, at the midpoint when `k`
/// is odd.
pub open spec fn rounds_up(k: nat, r: nat, q: nat) -> bool {
    2 * r > q || (2 * r == q && k % 2 == 1)
}

/// The magnitude `n` rounded to a multiple of its spacing: to the nearer of
/// the two neighbours, and to the one with an even multiplier when `n` lies
/// exactly between them.
pub open spec fn round_even(n: nat) -> nat {
    let q = spacing(n);
    let k = n / q;
    if rounds_up(k, n % q, q) {
        (k + 1) * q
    } else {
        k * q
    }
}

/// Body bits (exponent and fraction fields) of the single whose magnitude is
/// the grid point `g`: the level gives the exponent field, the multiplier the
/// fraction, and the hidden bit of a normal mantissa carries into the
/// exponent.
pub open spec fn encode(g: nat) -> nat {
    ((level(g) - 1) * 0x80_0000 + g / spacing(g)) as nat
}

/// Body bits of the single nearest to the magnitude `n`; a magnitude that
/// rounds to 2^278 or beyond gives infinity.
pub open spec fn nearest_body(n: nat) -> nat {
    let b = encode(round_even(n));
    if b >= 0x7f80_0000 {
        0x7f80_0000
    } else {
        b
    }
}

/// Mantissa that the body bits `body` denote: the fraction field, with the
/// hidden bit on top unless the exponent field is zero.
pub open spec fn mantissa_of(body: nat) -> nat {
    if body < 0x80_0000 {
        body
    } else {
        0x80_0000 + body % 0x80_0000
    }
}

/// Level at which the body bits `body` lie: the exponent field, or 1 for a
/// subnormal.
pub open spec fn scale_of(body: nat) -> nat {
    if body < 0x80_0000 {
        1
    } else {
        body / 0x80_0000
    }
}

/// Magnitude that the body bits `body` denote. For the body bits of an
/// infinity this is 2^278.
pub open spec fn magnitude_of(body: nat) -> nat {
    mantissa_of(body) * pow2(scale_of(body))
}

/// A magnitude lies within the reach of its level: below `2^24` steps, and,
/// above level 1, at `2^23` steps or more.
pub proof fn lemma_level_bounds(n: nat)
    ensures
        level(n) >= 1,
        n < 0x100_0000 * pow2(level(n)),
        level(n) == 1 || n >= 0x80_0000 * pow2(level(n)),
    decreases n,
{
    lemma2_to64();
    if n >= 0x200_0000 {
        lemma_level_bounds(n / 2);
        let j = level(n / 2);
        lemma_pow2_unfold(j + 1);
        let h = pow2(j);
        assert(n < 0x100_0000 * (2 * h)) by (nonlinear_arith)
            requires
                n / 2 < 0x100_0000 * h,
        ;
        if j > 1 {
            assert(n >= 0x80_0000 * (2 * h)) by (nonlinear_arith)
                requires
                    n / 2 >= 0x80_0000 * h,
            ;
        }
    }
}

/// The level is the only one within whose reach a magnitude lies.
pub proof fn lemma_level_unique(n: nat, j: nat)
    requires
        j >= 1,
        n < 0x100_0000 * pow2(j),
        j == 1 || n >= 0x80_0000 * pow2(j),
    ensures
        level(n) == j,
    decreases j,
{
    lemma2_to64();
    if j > 1 {
        lemma_pow2_unfold(j);
        lemma_pow2_unfold((j - 1) as nat);
        lemma_pow2_pos((j - 2) as nat);
        let h = pow2((j - 1) as nat);
        assert(n >= 0x200_0000 && n / 2 < 0x100_0000 * h && n / 2 >= 0x80_0000 * h)
            by (nonlinear_arith)
            requires
                n >= 0x80_0000 * (2 * h),
                n < 0x100_0000 * (2 * h),
                h >= 2,
        ;
        lemma_level_unique(n / 2, (j - 1) as nat);
    }
}

/// A 24-bit mantissa `k` at level `j` has the body bits `(j - 1) * 2^23 + k`.
/// This holds for subnormals (`j == 1`, `k < 2^23`) as well, and for the
/// mantissa `2^24` that a carry out of the top bit leaves.
pub proof fn lemma_encode(k: nat, j: nat)
    requires
        j >= 1,
        k <= 0x100_0000,
        j == 1 || k >= 0x80_0000,
    ensures
        encode(k * pow2(j)) == (j - 1) * 0x80_0000 + k,
{
    let q = pow2(j);
    let g = k * q;
    lemma_pow2_pos(j);
    if k < 0x100_0000 {
        assert(g < 0x100_0000 * q && (k >= 0x80_0000 ==> g >= 0x80_0000 * q)) by (nonlinear_arith)
            requires
                g == k * q,
                k < 0x100_0000,
                q > 0,
        ;
        lemma_level_unique(g, j);
        lemma_fundamental_div_mod_converse(g as int, q as int, k as int, 0);
    } else {
        lemma_pow2_unfold(j + 1);
        let q2 = pow2(j + 1);
        assert(g == 0x80_0000 * q2 && g < 0x100_0000 * q2) by (nonlinear_arith)
            requires
                g == k * q,
                k == 0x100_0000,
                q2 == 2 * q,
                q > 0,
        ;
        lemma_level_unique(g, j + 1);
        lemma_fundamental_div_mod_converse(g as int, q2 as int, 0x80_0000, 0);
    }
}

/// The body bits `(j - 1) * 2^23 + k` denote the magnitude `k * 2^j`: the
/// converse of [`lemma_encode`].
pub proof fn lemma_decode(k: nat, j: nat)
    requires
        j >= 1,
        k <= 0x100_0000,
        j == 1 || k >= 0x80_0000,
    ensures
        magnitude_of(((j - 1) * 0x80_0000 + k) as nat) == k * pow2(j),
{
    let body = ((j - 1) * 0x80_0000 + k) as nat;
    if k < 0x80_0000 {
    } else if k < 0x100_0000 {
        lemma_fundamental_div_mod_converse(body as int, 0x80_0000, j as int, k - 0x80_0000);
    } else {
        lemma_fundamental_div_mod_converse(body as int, 0x80_0000, (j + 1) as int, 0);
        lemma_pow2_unfold(j + 1);
        assert(0x80_0000 * (2 * pow2(j)) == 0x100_0000 * pow2(j)) by (nonlinear_arith);
    }
}

/// The single nearest to a magnitude that lies `r` above the mantissa `k` at
/// level `j`.
pub proof fn lemma_nearest_in_cell(n: nat, j: nat, k: nat, r: nat)
    requires
        j >= 1,
        k < 0x100_0000,
        j == 1 || k >= 0x80_0000,
        r < pow2(j),
        n == k * pow2(j) + r,
    ensures
        level(n) == j,
        round_even(n) == (if rounds_up(k, r, pow2(j)) {
            k + 1
        } else {
            k
        }) * pow2(j),
        encode(round_even(n)) == (j - 1) * 0x80_0000 + (if rounds_up(k, r, pow2(j)) {
            k + 1
        } else {
            k
        }),
{
    let q = pow2(j);
    lemma_pow2_pos(j);
    assert(n < 0x100_0000 * q && (k >= 0x80_0000 ==> n >= 0x80_0000 * q)) by (nonlinear_arith)
        requires
            n == k * q + r,
            r < q,
            k < 0x100_0000,
    ;
    lemma_level_unique(n, j);
    lemma_fundamental_div_mod_converse(n as int, q as int, k as int, r as int);
    let k2: nat = if rounds_up(k, r, q) {
        k + 1
    } else {
        k
    };
    assert(round_even(n) == k2 * q);
    lemma_encode(k2, j);
}

/// Adding less than half a step to a normal single's magnitude rounds back
/// to that single.
pub proof fn lemma_absorbed_above(k: nat, j: nat, b: nat)
    requires
        j >= 1,
        0x80_0000 <= k < 0x100_0000,
        2 * b < pow2(j),
    ensures
        encode(round_even(k * pow2(j) + b)) == (j - 1) * 0x80_0000 + k,
{
    lemma_nearest_in_cell(k * pow2(j) + b, j, k, b);
}

/// Taking less than a quarter of a step from a normal single's magnitude
/// rounds back to that single, also at the start of a binade, where the
/// singles below lie half a step apart.
pub proof fn lemma_absorbed_below(k: nat, j: nat, b: nat)
    requires
        j >= 2,
        0x80_0000 <= k < 0x100_0000,
        0 < b,
        4 * b < pow2(j),
    ensures
        k * pow2(j) >= b,
        encode(round_even((k * pow2(j) - b) as nat)) == (j - 1) * 0x80_0000 + k,
{
    let q = pow2(j);
    lemma_pow2_unfold(j);
    let h = pow2((j - 1) as nat);
    assert(k * q >= q) by (nonlinear_arith)
        requires
            k >= 1,
            q >= 0,
    ;
    let n = (k * q - b) as nat;
    if k > 0x80_0000 {
        assert(n == (k - 1) * q + (q - b)) by (nonlinear_arith)
            requires
                n == k * q - b,
        ;
        lemma_nearest_in_cell(n, j, (k - 1) as nat, (q - b) as nat);
    } else {
        assert(n == 0xff_ffff * h + (h - b)) by (nonlinear_arith)
            requires
                n == k * q - b,
                k == 0x80_0000,
                q == 2 * h,
        ;
        lemma_nearest_in_cell(n, (j - 1) as nat, 0xff_ffff, (h - b) as nat);
        assert(0x100_0000 * h == k * q) by (nonlinear_arith)
            requires
                k == 0x80_0000,
                q == 2 * h,
        ;
        lemma_encode(k, j);
    }
}

/// Mantissa and level of body bits are those of a grid point.
pub proof fn lemma_body_on_grid(body: nat)
    ensures
        scale_of(body) >= 1,
        mantissa_of(body) < 0x100_0000,
        scale_of(body) == 1 || mantissa_of(body) >= 0x80_0000,
        body == (scale_of(body) - 1) * 0x80_0000 + mantissa_of(body),
{
    if body >= 0x80_0000 {
        lemma_fundamental_div_mod(body as int, 0x80_0000);
    }
}

/// The body bits zero denote the magnitude zero, and rounding keeps it.
pub proof fn lemma_zero()
    ensures
        magnitude_of(0) == 0,
        nearest_body(0) == 0,
{
    lemma2_to64();
    assert(0 * pow2(1) == 0) by (nonlinear_arith);
    lemma_nearest_in_cell(0, 1, 0, 0);
}

/// Larger body bits denote a larger magnitude.
pub proof fn lemma_magnitude_increases(a: nat, b: nat)
    requires
        a < b,
    ensures
        magnitude_of(a) < magnitude_of(b),
{
    let ea = scale_of(a);
    let eb = scale_of(b);
    let ma = mantissa_of(a);
    let mb = mantissa_of(b);
    lemma_body_on_grid(a);
    lemma_body_on_grid(b);
    lemma_pow2_pos(ea);
    if ea == eb {
        assert(ma * pow2(ea) < mb * pow2(ea)) by (nonlinear_arith)
            requires
                ma < mb,
                pow2(ea) > 0,
        ;
    } else {
        assert(ea < eb) by {
            if ea > eb {
                assert((ea - 1) * 0x80_0000 >= eb * 0x80_0000);
            }
        }
        lemma_pow2_unfold(eb);
        if ea + 1 < eb {
            lemma_pow2_strictly_increases(ea, (eb - 1) as nat);
        }
        assert(ma * pow2(ea) < mb * pow2(eb)) by (nonlinear_arith)
            requires
                ma < 0x100_0000,
                mb >= 0x80_0000,
                pow2(eb) == 2 * pow2((eb - 1) as nat),
                pow2(ea) <= pow2((eb - 1) as nat),
                pow2(ea) > 0,
        ;
    }
}

/// No single lies strictly between two neighbouring grid points: one that
/// is not above `n` is not above the grid point below `n`, and one above `n`
/// is at the next grid point or beyond.
pub proof fn lemma_grid_neighbours(n: nat, body: nat)
    ensures
        magnitude_of(body) <= n ==> magnitude_of(body) <= (n / spacing(n)) * spacing(n),
        magnitude_of(body) > n ==> magnitude_of(body) >= (n / spacing(n) + 1) * spacing(n),
{
    let j = level(n);
    let q = pow2(j);
    let k = n / q;
    let r = n % q;
    let e = scale_of(body);
    let m = mantissa_of(body);
    let g = magnitude_of(body);
    lemma_level_bounds(n);
    lemma_body_on_grid(body);
    lemma_pow2_pos(j);
    lemma_pow2_pos(e);
    lemma_fundamental_div_mod(n as int, q as int);
    assert(n == k * q + r) by (nonlinear_arith)
        requires
            n == q * k + r,
    ;
    assert(k < 0x100_0000 && (j > 1 ==> k >= 0x80_0000)) by (nonlinear_arith)
        requires
            n == k * q + r,
            0 <= r < q,
            n < 0x100_0000 * q,
            j > 1 ==> n >= 0x80_0000 * q,
    ;
    if e == j {
        assert((g <= n ==> g <= k * q) && (g > n ==> g >= (k + 1) * q)) by (nonlinear_arith)
            requires
                g == m * q,
                n == k * q + r,
                0 <= r < q,
        ;
    } else if e < j {
        lemma_pow2_unfold(j);
        if e + 1 < j {
            lemma_pow2_strictly_increases(e, (j - 1) as nat);
        }
        assert(g <= k * q && k * q <= n) by (nonlinear_arith)
            requires
                g == m * pow2(e),
                m < 0x100_0000,
                k >= 0x80_0000,
                q == 2 * pow2((j - 1) as nat),
                0 < pow2(e) <= pow2((j - 1) as nat),
                n == k * q + r,
                r >= 0,
        ;
    } else {
        lemma_pow2_unfold(e);
        if j + 1 < e {
            lemma_pow2_strictly_increases(j, (e - 1) as nat);
        }
        assert(g >= (k + 1) * q && (k + 1) * q > n) by (nonlinear_arith)
            requires
                g == m * pow2(e),
                m >= 0x80_0000,
                k < 0x100_0000,
                pow2(e) == 2 * pow2((e - 1) as nat),
                0 < q <= pow2((e - 1) as nat),
                n == k * q + r,
                r < q,
        ;
    }
}

/// Rounding is correct: the body bits it gives are those of a single or an
/// infinity, no other is nearer to `n`, none lies between the two, and where
/// another is as near, the body bits given are even.
pub proof fn lemma_nearest(n: nat, body: nat)
    requires
        body <= INFINITY_BODY,
    ensures
        nearest_body(n) <= INFINITY_BODY,
        magnitude_of(body) <= n ==> magnitude_of(body) <= magnitude_of(nearest_body(n)),
        magnitude_of(body) >= n ==> magnitude_of(body) >= magnitude_of(nearest_body(n)),
        vstd::math::abs(magnitude_of(nearest_body(n)) - n) <= vstd::math::abs(
            magnitude_of(body) - n,
        ),
        vstd::math::abs(magnitude_of(nearest_body(n)) - n) == vstd::math::abs(
            magnitude_of(body) - n,
        ) && body != nearest_body(n) ==> nearest_body(n) % 2 == 0,
{
    let j = level(n);
    let q = pow2(j);
    let k = n / q;
    let r = n % q;
    let g = magnitude_of(body);
    let top = magnitude_of(INFINITY_BODY as nat);
    lemma_level_bounds(n);
    lemma_pow2_pos(j);
    lemma_fundamental_div_mod(n as int, q as int);
    assert(n == k * q + r) by (nonlinear_arith)
        requires
            n == q * k + r,
    ;
    assert(k < 0x100_0000 && (j > 1 ==> k >= 0x80_0000)) by (nonlinear_arith)
        requires
            n == k * q + r,
            0 <= r < q,
            n < 0x100_0000 * q,
            j > 1 ==> n >= 0x80_0000 * q,
    ;
    lemma_nearest_in_cell(n, j, k, r);
    lemma_grid_neighbours(n, body);
    let k2: nat = if rounds_up(k, r, q) {
        k + 1
    } else {
        k
    };
    let near = k2 * q;
    assert(near == round_even(n));
    assert(k * q + q == (k + 1) * q) by (nonlinear_arith);
    lemma_decode(k2, j);
    lemma_decode(0x80_0000, 255);
    assert(top == 0x80_0000 * pow2(255));
    if body < INFINITY_BODY {
        lemma_magnitude_increases(body, INFINITY_BODY as nat);
    }
    let b = encode(near);
    assert(b == (j - 1) * 0x80_0000 + k2);
    if b >= 0x7f80_0000 {
        assert(j >= 254);
        assert(near >= top) by {
            if j == 254 {
                lemma_pow2_unfold(255);
                assert(k2 == 0x100_0000);
                assert(0x100_0000 * pow2(254) == 0x80_0000 * (2 * pow2(254))) by (nonlinear_arith);
            } else {
                if j > 255 {
                    lemma_pow2_strictly_increases(255, j);
                }
                assert(k2 * q >= 0x80_0000 * pow2(255)) by (nonlinear_arith)
                    requires
                        k2 >= 0x80_0000,
                        q >= pow2(255),
                ;
            }
        }
        if near > top {
            assert(n >= top) by {
                lemma_grid_neighbours(n, INFINITY_BODY as nat);
            }
        }
    } else {
        assert(b % 2 == k2 % 2);
        if body < b {
            lemma_magnitude_increases(body, b);
        }
        if b < body {
            lemma_magnitude_increases(b, body);
        }
    }
}

/// Mantissa and scale of finite body bits: the magnitude is the mantissa
/// times two to the scale. A subnormal has scale 1 and a mantissa below 2^23.
pub(crate) fn split(body: u32) -> (out: (u64, u32))
    requires
        body < INFINITY_BODY,
    ensures
        out.0 == mantissa_of(body as nat),
        out.1 == scale_of(body as nat),
        out.0 < 0x100_0000,
        1 <= out.1 <= 254,
        out.1 == 1 || out.0 >= 0x80_0000,
        body == (out.1 - 1) * 0x80_0000 + out.0,
{
    if body < HIDDEN_BIT {
        (body as u64, 1)
    } else {
        ((HIDDEN_BIT + body % HIDDEN_BIT) as u64, body / HIDDEN_BIT)
    }
}

/// Rounds the magnitude `mantissa * 2^scale` to the nearest single and
/// returns its body bits.
pub(crate) fn pack(mantissa: u64, scale: u32) -> (body: u32)
    requires
        mantissa < MANTISSA_LIMIT,
        1 <= scale <= 254,
    ensures
        body == nearest_body(mantissa as nat * pow2(scale as nat)),
{
    let ghost n: nat = mantissa as nat * pow2(scale as nat);
    let mut m: u64 = mantissa;
    let mut e: u32 = scale;
    while m < 0x80_0000 && e > 1
        invariant
            m * pow2(e as nat) == n,
            1 <= e <= scale,
            m < MANTISSA_LIMIT,
        decreases e,
    {
        proof {
            lemma_pow2_unfold(e as nat);
            assert((m * 2) * pow2((e - 1) as nat) == m * (2 * pow2((e - 1) as nat)))
                by (nonlinear_arith);
        }
        m = m * 2;
        e = e - 1;
    }
    let mut k: u64 = m;
    let mut r: u64 = 0;
    let mut q: u64 = 1;
    let ghost e0: nat = e as nat;
    let ghost t: nat = 0;
    proof {
        lemma2_to64();
    }
    while k >= 0x100_0000
        invariant
            m == k * q + r,
            r < q,
            q == pow2(t),
            e == e0 + t,
            e0 <= 254,
            m < MANTISSA_LIMIT,
            (t == 0 && k == m) || k >= 0x80_0000,
        decreases k,
    {
        proof {
            lemma2_to64();
            lemma_pow2_unfold(t + 1);
            assert(q < 0x1_0000_0000 && t < 32) by {
                assert(q < 0x1_0000_0000) by (nonlinear_arith)
                    requires
                        m == k * q + r,
                        k >= 0x100_0000,
                        m < 0x100_0000_0000_0000,
                ;
                if t > 32 {
                    lemma_pow2_strictly_increases(32, t);
                }
            }
            assert((k / 2) * (q * 2) + (r + (k % 2) * q) == k * q + r) by (nonlinear_arith);
            assert(r + (k % 2) * q < q * 2) by (nonlinear_arith)
                requires
                    r < q,
            ;
        }
        r = r + (k % 2) * q;
        k = k / 2;
        q = q * 2;
        e = e + 1;
        proof {
            t = t + 1;
        }
    }
    let up: bool = 2 * r > q || (2 * r == q && k % 2 == 1);
    let k2: u64 = if up {
        k + 1
    } else {
        k
    };
    proof {
        let j: nat = e as nat;
        let s = pow2(e0);
        lemma_pow2_pos(e0);
        lemma_pow2_adds(t, e0);
        assert(pow2(j) == q * s);
        let big_r: nat = r as nat * s;
        assert(n == k * (q * s) + r * s) by (nonlinear_arith)
            requires
                n == m * s,
                m == k * q + r,
        ;
        assert(r * s < q * s) by (nonlinear_arith)
            requires
                r < q,
                s > 0,
        ;
        assert(rounds_up(k as nat, big_r, pow2(j)) == up) by (nonlinear_arith)
            requires
                big_r == r * s,
                pow2(j) == q * s,
                s > 0,
                up == (2 * r > q || (2 * r == q && k % 2 == 1)),
        ;
        lemma_nearest_in_cell(n, j, k as nat, big_r);
    }
    let b: u64 = ((e - 1) as u64) * 0x80_0000 + k2;
    if b >= 0x7f80_0000 {
        INFINITY_BODY
    } else {
        b as u32
    }
}

} // verus!
