//! Numbers of a given count of binary digits.
//!
//! Shares and sums of shares are worked out in 24 binary digits, as a number of units of which
//! `ONE` make the number one. Times are worked out in 53.
use vstd::prelude::*;

verus! {

/// Numbers of 24 binary digits are below this, in units of their last digit.
pub const DIGITS_24: u128 = 0x100_0000;

/// Numbers of 53 binary digits are below this, in units of their last digit.
pub const DIGITS_53: u128 = 0x20_0000_0000_0000;

/// The number one, in the units in which shares are counted: two to the power of 88.
pub const ONE: u128 = 0x100_0000_0000_0000_0000_0000;

/// The unit of the last digit of a fraction: the first power of two, from `step` on, of which
/// the fraction holds fewer than `limit`.
pub open spec fn digit_step(limit: nat, over: nat, under: nat, step: nat) -> nat
    decreases over - step,
    via digit_step_ends
{
    if step == 0 || limit < 2 || under == 0 || over < limit * under * step {
        step
    } else {
        digit_step(limit, over, under, 2 * step)
    }
}

#[via_fn]
proof fn digit_step_ends(limit: nat, over: nat, under: nat, step: nat) {
    if !(step == 0 || limit < 2 || under == 0 || over < limit * under * step) {
        assert(limit * under * step >= 2 * step) by (nonlinear_arith)
            requires
                limit >= 2,
                under >= 1,
        ;
    }
}

/// The number nearest to a fraction among those that have so many binary digits. Of two that are
/// as near, the even one is taken.
pub open spec fn nearest(limit: nat, over: nat, under: nat) -> nat {
    let step = digit_step(limit, over, under, 1);
    let below = over / (under * step);
    let rest = over % (under * step);
    if 2 * rest > under * step || (2 * rest == under * step && below % 2 == 1) {
        ((below + 1) * step) as nat
    } else {
        (below * step) as nat
    }
}

/// The nearest number of so many binary digits to a whole number.
pub fn nearest_whole(limit: u128, number: u128) -> (r: u128)
    requires
        2 <= limit <= 0x20_0000_0000_0000,
        number <= 0x2_0000_0000_0000_0000_0000_0000,
    ensures
        r == nearest(limit as nat, number as nat, 1),
        r <= 2 * number,
        number > 0 ==> r > 0,
{
    let mut step: u128 = 1;
    proof {
        assert(limit * 1 * step == limit * step);
    }
    while number / limit >= step
        invariant
            0 < step,
            step == 1 || step <= number,
            2 <= limit <= 0x20_0000_0000_0000,
            number <= 0x2_0000_0000_0000_0000_0000_0000,
            digit_step(limit as nat, number as nat, 1, 1) == digit_step(
                limit as nat,
                number as nat,
                1,
                step as nat,
            ),
        decreases 0x4_0000_0000_0000_0000_0000_0000 - step,
    {
        proof {
            assert(number >= limit * step) by (nonlinear_arith)
                requires
                    number / limit >= step,
                    limit >= 2,
            ;
            assert(limit * step >= 2 * step) by (nonlinear_arith)
                requires
                    limit >= 2,
                    step > 0,
            ;
            assert(limit * 1 * step == limit * step) by (nonlinear_arith);
        }
        step = step * 2;
    }
    proof {
        assert(number < limit * step) by (nonlinear_arith)
            requires
                number / limit < step,
                limit >= 2,
        ;
        assert(limit * 1 * step == limit * step) by (nonlinear_arith);
    }
    let below: u128 = number / step;
    let rest: u128 = number % step;
    proof {
        assert(1 * step == step);
        if number > 0 {
            assert(below >= 1) by (nonlinear_arith)
                requires
                    below == number / step,
                    0 < step <= number,
            ;
            assert(below * step >= 1) by (nonlinear_arith)
                requires
                    below >= 1,
                    step >= 1,
            ;
        }
        assert(below * step + rest == number && below * step <= number) by (nonlinear_arith)
            requires
                below == number / step,
                rest == number % step,
                step > 0,
        ;
        assert((below + 1) * step == below * step + step) by (nonlinear_arith);
        if 2 * rest >= step {
            assert(step <= 2 * number) by (nonlinear_arith)
                requires
                    2 * rest >= step,
                    rest <= number,
            ;
        }
    }
    if 2 * rest > step || (2 * rest == step && below % 2 == 1) {
        (below + 1) * step
    } else {
        below * step
    }
}

/// Two to a power.
spec fn power(n: nat) -> nat
    decreases n,
{
    if n == 0 {
        1
    } else {
        2 * power((n - 1) as nat)
    }
}

/// The last digit of a fraction counts a given power of two, where the fraction holds fewer than
/// `limit` of it and no fewer of its half.
proof fn lemma_digit_step(limit: nat, over: nat, under: nat, step: nat, n: nat, last: nat)
    requires
        limit >= 2,
        under >= 1,
        step >= 1,
        last == step * power(n),
        over < limit * under * last,
        n > 0 ==> 2 * over >= limit * under * last,
    ensures
        digit_step(limit, over, under, step) == last,
    decreases n,
{
    if n > 0 {
        let half = power((n - 1) as nat);
        assert(power(n) == 2 * half);
        lemma_power_positive((n - 1) as nat);
        assert(over >= limit * under * step) by (nonlinear_arith)
            requires
                2 * over >= limit * under * last,
                last == step * (2 * half),
                half >= 1,
                limit >= 2,
                under >= 1,
        ;
        assert((2 * step) * half == step * (2 * half)) by (nonlinear_arith);
        lemma_digit_step(limit, over, under, 2 * step, (n - 1) as nat, last);
    } else {
        assert(step * 1 == step);
    }
}

proof fn lemma_power_positive(n: nat)
    ensures
        power(n) >= 1,
    decreases n,
{
    if n > 0 {
        lemma_power_positive((n - 1) as nat);
    }
}

proof fn lemma_power_88()
    ensures
        power(88) == ONE,
{
    reveal_with_fuel(power, 23);
    assert(power(22) == 0x40_0000);
    assert(power(44) == 0x1000_0000_0000);
    assert(power(66) == 0x4_0000_0000_0000_0000);
}

/// A fraction of at most one, in 24 binary digits and counted in units of which `ONE` make the
/// number one.
pub open spec fn in_24_digits(over: nat, under: nat) -> nat {
    nearest(DIGITS_24 as nat, over * (ONE as nat), under)
}

/// Works out a fraction of at most one in 24 binary digits.
pub fn fraction_in_24_digits(over: u128, under: u128) -> (r: u128)
    requires
        0 < over <= under <= 0x2_0000_0000_0000_0000,
    ensures
        r == in_24_digits(over as nat, under as nat),
        r <= ONE,
{
    let mut scaled: u128 = over;
    let mut step: u128 = ONE;
    let ghost mut n: nat = 88;
    let ghost mut scale: nat = 1;
    proof {
        lemma_power_88();
        assert(over * scale == over);
    }
    while scaled < 0x80_0000 * under
        invariant
            0 < over <= under <= 0x2_0000_0000_0000_0000,
            0 < scaled,
            scaled <= under || scaled < 0x100_0000 * under,
            step == power(n),
            n <= 88,
            scaled == over * scale,
            step * scale == ONE,
            n >= 1 || scaled >= 0x80_0000 * under,
        decreases n,
    {
        proof {
            lemma_power_positive((n - 1) as nat);
            assert(power(n) == 2 * power((n - 1) as nat));
            assert(power((n - 1) as nat) * (2 * scale) == (2 * power((n - 1) as nat)) * scale)
                by (nonlinear_arith);
            assert(over * (2 * scale) == 2 * (over * scale)) by (nonlinear_arith);
        }
        scaled = scaled * 2;
        step = step / 2;
        proof {
            n = (n - 1) as nat;
            scale = 2 * scale;
            if n == 0 {
                assert(step * scale == scale);
                assert(scaled >= 0x80_0000 * under) by (nonlinear_arith)
                    requires
                        scaled == over * 0x100_0000_0000_0000_0000_0000,
                        over >= 1,
                        under <= 0x2_0000_0000_0000_0000,
                ;
            }
        }
    }
    let below: u128 = scaled / under;
    let rest: u128 = scaled % under;
    proof {
        lemma_power_positive(n);
        let whole = over as nat * (ONE as nat);
        let limit = DIGITS_24 as nat;
        assert(whole == scaled * step) by (nonlinear_arith)
            requires
                whole == over * ONE,
                scaled == over * scale,
                step * scale == ONE,
        ;
        assert(scaled < 0x100_0000 * under);
        assert(whole < limit * under * step) by (nonlinear_arith)
            requires
                whole == scaled * step,
                scaled < 0x100_0000 * under,
                limit == 0x100_0000,
                step >= 1,
        ;
        assert(2 * whole >= limit * under * step) by (nonlinear_arith)
            requires
                whole == scaled * step,
                scaled >= 0x80_0000 * under,
                limit == 0x100_0000,
                step >= 1,
        ;
        lemma_digit_step(limit, whole, under as nat, 1, n, step as nat);
        lemma_scaled_parts(scaled as nat, under as nat, step as nat);
        assert((2 * (rest * step) > under * step) == (2 * rest > under)) by (nonlinear_arith)
            requires
                step >= 1,
        ;
        assert((2 * (rest * step) == under * step) == (2 * rest == under)) by (nonlinear_arith)
            requires
                step >= 1,
        ;
    }
    proof {
        lemma_at_most_one(over as nat, under as nat, scale);
        assert(below * step <= scale * step) by (nonlinear_arith)
            requires
                below <= scale,
        ;
        assert(step * scale == scale * step) by (nonlinear_arith);
        if rest > 0 {
            assert((below + 1) * step <= scale * step) by (nonlinear_arith)
                requires
                    below + 1 <= scale,
            ;
        }
    }
    if 2 * rest > under || (2 * rest == under && below % 2 == 1) {
        (below + 1) * step
    } else {
        below * step
    }
}

/// A fraction of at most one, scaled, is at most the scale.
proof fn lemma_at_most_one(over: nat, under: nat, scale: nat)
    requires
        over <= under,
        under > 0,
    ensures
        (over * scale) / under <= scale,
        (over * scale) % under > 0 ==> (over * scale) / under < scale,
{
    let whole = over * scale;
    let below = whole / under;
    let rest = whole % under;
    assert(whole == below * under + rest && rest < under) by (nonlinear_arith)
        requires
            below == whole / under,
            rest == whole % under,
            under > 0,
    ;
    assert(whole <= scale * under) by (nonlinear_arith)
        requires
            whole == over * scale,
            over <= under,
    ;
    assert(below <= scale) by (nonlinear_arith)
        requires
            below * under <= scale * under,
            under > 0,
    ;
    if rest > 0 {
        assert(below < scale) by (nonlinear_arith)
            requires
                below * under < scale * under,
                under > 0,
        ;
    }
}

/// Scaling both parts of a division scales its rest and leaves its quotient.
proof fn lemma_scaled_parts(over: nat, under: nat, step: nat)
    requires
        under > 0,
        step > 0,
    ensures
        (over * step) / (under * step) == over / under,
        (over * step) % (under * step) == (over % under) * step,
{
    let below = over / under;
    let rest = over % under;
    assert(over == below * under + rest && rest < under) by (nonlinear_arith)
        requires
            below == over / under,
            rest == over % under,
            under > 0,
    ;
    assert(over * step == below * (under * step) + rest * step) by (nonlinear_arith)
        requires
            over == below * under + rest,
    ;
    assert(rest * step < under * step) by (nonlinear_arith)
        requires
            rest < under,
            step > 0,
    ;
    vstd::arithmetic::div_mod::lemma_fundamental_div_mod_converse(
        (over * step) as int,
        (under * step) as int,
        below as int,
        (rest * step) as int,
    );
}

} // verus!
