//! Arithmetic of binary representations: reading a natural number bit by
//! bit, bitwise operations defined on naturals, and the facts the word
//! layer's proofs rest on.

use vstd::prelude::*;
use vstd::arithmetic::power2::pow2;
use vstd::arithmetic::power2::lemma_pow2_adds;
use vstd::arithmetic::power2::lemma_pow2_pos;
use vstd::arithmetic::power2::lemma_pow2_strictly_increases;
use vstd::arithmetic::div_mod::lemma_div_denominator;
use vstd::arithmetic::div_mod::lemma_mod_breakdown;
use vstd::arithmetic::div_mod::lemma_basic_div;
use vstd::arithmetic::div_mod::lemma_small_mod;
use vstd::arithmetic::div_mod::lemma_fundamental_div_mod;
use vstd::arithmetic::div_mod::lemma_fundamental_div_mod_converse;

verus! {

/// Bit `k` of the natural number `v`.
pub open spec fn nbit(v: nat, k: nat) -> bool {
    (v / pow2(k)) % 2 == 1
}

/// Bitwise conjunction of two naturals.
pub open spec fn nat_and(x: nat, y: nat) -> nat
    decreases x + y,
{
    if x == 0 && y == 0 {
        0nat
    } else {
        (if x % 2 == 1 && y % 2 == 1 {
            1nat
        } else {
            0nat
        }) + 2 * nat_and(x / 2, y / 2)
    }
}

/// Bitwise disjunction of two naturals.
pub open spec fn nat_or(x: nat, y: nat) -> nat
    decreases x + y,
{
    if x == 0 && y == 0 {
        0nat
    } else {
        (if x % 2 == 1 || y % 2 == 1 {
            1nat
        } else {
            0nat
        }) + 2 * nat_or(x / 2, y / 2)
    }
}

/// Bitwise exclusive disjunction of two naturals.
pub open spec fn nat_xor(x: nat, y: nat) -> nat
    decreases x + y,
{
    if x == 0 && y == 0 {
        0nat
    } else {
        (if (x % 2 == 1) != (y % 2 == 1) {
            1nat
        } else {
            0nat
        }) + 2 * nat_xor(x / 2, y / 2)
    }
}

/// Whether the number of set bits of `v` is odd.
pub open spec fn nat_parity(v: nat) -> bool
    decreases v,
{
    if v == 0 {
        false
    } else {
        (v % 2 == 1) != nat_parity(v / 2)
    }
}

/// Reading one bit higher halves the number.
pub proof fn lemma_nbit_half(v: nat, k: nat)
    requires
        k >= 1,
    ensures
        nbit(v, k) == nbit(v / 2, (k - 1) as nat),
{
    lemma_pow2_pos((k - 1) as nat);
    lemma_div_denominator(v as int, 2, pow2((k - 1) as nat) as int);
    assert(pow2(k) == 2 * pow2((k - 1) as nat)) by {
        lemma_pow2_adds(1, (k - 1) as nat);
        vstd::arithmetic::power2::lemma2_to64();
    }
}

/// Bit zero is the parity.
pub proof fn lemma_nbit_zero(v: nat)
    ensures
        nbit(v, 0) == (v % 2 == 1),
{
    vstd::arithmetic::power2::lemma2_to64();
}

/// Bits above the width of a number are clear.
pub proof fn lemma_nbit_high(v: nat, w: nat, k: nat)
    requires
        v < pow2(w),
        k >= w,
    ensures
        !nbit(v, k),
{
    if k == w {
        lemma_pow2_pos(k);
        lemma_basic_div(v as int, pow2(k) as int);
        assert(v / pow2(k) == 0);
    } else {
        lemma_pow2_strictly_increases(w, k);
        lemma_pow2_pos(k);
        lemma_basic_div(v as int, pow2(k) as int);
        assert(v / pow2(k) == 0);
    }
}

/// Splitting off the low `k` bits: `v % 2^(k+1)` adds bit `k` on top of
/// `v % 2^k`.
pub proof fn lemma_mod_pow2_step(v: nat, k: nat)
    ensures
        v % pow2(k + 1) == v % pow2(k) + pow2(k) * (if nbit(v, k) {
            1nat
        } else {
            0nat
        }),
{
    lemma_pow2_pos(k);
    lemma_pow2_adds(k, 1);
    vstd::arithmetic::power2::lemma2_to64();
    assert(pow2(k + 1) == pow2(k) * 2);
    lemma_mod_breakdown(v as int, pow2(k) as int, 2);
}

/// A bit is unchanged by truncation above it.
pub proof fn lemma_nbit_mod_pow2(v: nat, w: nat, k: nat)
    requires
        k < w,
    ensures
        nbit(v % pow2(w), k) == nbit(v, k),
{
    lemma_pow2_pos(k);
    lemma_pow2_pos((w - k) as nat);
    lemma_pow2_adds(k, (w - k) as nat);
    assert(pow2(w) == pow2(k) * pow2((w - k) as nat));
    lemma_mod_breakdown(v as int, pow2(k) as int, pow2((w - k) as nat) as int);
    // v % 2^w == 2^k * ((v / 2^k) % 2^(w-k)) + v % 2^k
    let q = (v as int / pow2(k) as int) % pow2((w - k) as nat) as int;
    let r = v as int % pow2(k) as int;
    assert(v as int % pow2(w) as int == pow2(k) as int * q + r);
    lemma_fundamental_div_mod_converse(
        v as int % pow2(w) as int,
        pow2(k) as int,
        q,
        r,
    );
    assert((v % pow2(w)) as int / pow2(k) as int == q);
    lemma_mod_mod_two(v as int / pow2(k) as int, (w - k) as nat);
}

/// `(x % 2^m) % 2 == x % 2` for positive `m`.
proof fn lemma_mod_mod_two(x: int, m: nat)
    requires
        m >= 1,
        x >= 0,
    ensures
        (x % pow2(m) as int) % 2 == x % 2,
{
    lemma_pow2_pos((m - 1) as nat);
    lemma_pow2_adds((m - 1) as nat, 1);
    vstd::arithmetic::power2::lemma2_to64();
    assert(pow2(m) == 2 * pow2((m - 1) as nat));
    vstd::arithmetic::div_mod::lemma_mod_mod(x, 2, pow2((m - 1) as nat) as int);
}

/// A bit of a quotient by a power of two reads a higher bit.
pub proof fn lemma_nbit_div_pow2(v: nat, k: nat, j: nat)
    ensures
        nbit(v / pow2(k), j) == nbit(v, j + k),
{
    lemma_pow2_pos(k);
    lemma_pow2_pos(j);
    lemma_div_denominator(v as int, pow2(k) as int, pow2(j) as int);
    lemma_pow2_adds(k, j);
}

/// A number below `2^w` is its low `w` bits.
pub proof fn lemma_mod_pow2_small(v: nat, w: nat)
    requires
        v < pow2(w),
    ensures
        v % pow2(w) == v,
{
    lemma_pow2_pos(w);
    lemma_small_mod(v, pow2(w));
}

/// The bits of a bitwise conjunction.
pub proof fn lemma_nbit_nat_and(x: nat, y: nat, k: nat)
    ensures
        nbit(nat_and(x, y), k) == (nbit(x, k) && nbit(y, k)),
    decreases k,
{
    let v = nat_and(x, y);
    if k == 0 {
        lemma_nbit_zero(v);
        lemma_nbit_zero(x);
        lemma_nbit_zero(y);
        if x == 0 && y == 0 {
        } else {
            assert(v % 2 == (if x % 2 == 1 && y % 2 == 1 {
                1nat
            } else {
                0nat
            })) by {
                assert(v == (if x % 2 == 1 && y % 2 == 1 {
                    1nat
                } else {
                    0nat
                }) + 2 * nat_and(x / 2, y / 2));
            }
        }
    } else {
        lemma_nbit_nat_and(x / 2, y / 2, (k - 1) as nat);
        lemma_nbit_half(v, k);
        lemma_nbit_half(x, k);
        lemma_nbit_half(y, k);
        if x == 0 && y == 0 {
            assert(v == 0);
        } else {
            assert(v / 2 == nat_and(x / 2, y / 2)) by {
                assert(v == (if x % 2 == 1 && y % 2 == 1 {
                    1nat
                } else {
                    0nat
                }) + 2 * nat_and(x / 2, y / 2));
            }
        }
    }
}

/// The bits of a bitwise disjunction.
pub proof fn lemma_nbit_nat_or(x: nat, y: nat, k: nat)
    ensures
        nbit(nat_or(x, y), k) == (nbit(x, k) || nbit(y, k)),
    decreases k,
{
    let v = nat_or(x, y);
    if k == 0 {
        lemma_nbit_zero(v);
        lemma_nbit_zero(x);
        lemma_nbit_zero(y);
        if x == 0 && y == 0 {
        } else {
            assert(v == (if x % 2 == 1 || y % 2 == 1 {
                1nat
            } else {
                0nat
            }) + 2 * nat_or(x / 2, y / 2));
        }
    } else {
        lemma_nbit_nat_or(x / 2, y / 2, (k - 1) as nat);
        lemma_nbit_half(v, k);
        lemma_nbit_half(x, k);
        lemma_nbit_half(y, k);
        if x == 0 && y == 0 {
            assert(v == 0);
        } else {
            assert(v / 2 == nat_or(x / 2, y / 2)) by {
                assert(v == (if x % 2 == 1 || y % 2 == 1 {
                    1nat
                } else {
                    0nat
                }) + 2 * nat_or(x / 2, y / 2));
            }
        }
    }
}

/// The bits of a bitwise exclusive disjunction.
pub proof fn lemma_nbit_nat_xor(x: nat, y: nat, k: nat)
    ensures
        nbit(nat_xor(x, y), k) == (nbit(x, k) != nbit(y, k)),
    decreases k,
{
    let v = nat_xor(x, y);
    if k == 0 {
        lemma_nbit_zero(v);
        lemma_nbit_zero(x);
        lemma_nbit_zero(y);
        if x == 0 && y == 0 {
        } else {
            assert(v == (if (x % 2 == 1) != (y % 2 == 1) {
                1nat
            } else {
                0nat
            }) + 2 * nat_xor(x / 2, y / 2));
        }
    } else {
        lemma_nbit_nat_xor(x / 2, y / 2, (k - 1) as nat);
        lemma_nbit_half(v, k);
        lemma_nbit_half(x, k);
        lemma_nbit_half(y, k);
        if x == 0 && y == 0 {
            assert(v == 0);
        } else {
            assert(v / 2 == nat_xor(x / 2, y / 2)) by {
                assert(v == (if (x % 2 == 1) != (y % 2 == 1) {
                    1nat
                } else {
                    0nat
                }) + 2 * nat_xor(x / 2, y / 2));
            }
        }
    }
}

/// Bitwise operations do not overflow the operands' width.
pub proof fn lemma_nat_bitop_bound(x: nat, y: nat, w: nat)
    requires
        x < pow2(w),
        y < pow2(w),
    ensures
        nat_and(x, y) < pow2(w),
        nat_or(x, y) < pow2(w),
        nat_xor(x, y) < pow2(w),
    decreases w,
{
    vstd::arithmetic::power2::lemma2_to64();
    if x == 0 && y == 0 {
        lemma_pow2_pos(w);
    } else {
        assert(w >= 1) by {
            if w == 0 {
                assert(pow2(0) == 1);
            }
        }
        assert(pow2(w) == 2 * pow2((w - 1) as nat)) by {
            lemma_pow2_adds(1, (w - 1) as nat);
        }
        assert(x / 2 < pow2((w - 1) as nat) && y / 2 < pow2((w - 1) as nat)) by {
            assert(x == 2 * (x / 2) + x % 2);
            assert(y == 2 * (y / 2) + y % 2);
        }
        lemma_nat_bitop_bound(x / 2, y / 2, (w - 1) as nat);
    }
}

/// The complement within a width: `2^w - 1 - x` flips exactly the low `w`
/// bits of `x`.
pub proof fn lemma_nbit_complement(x: nat, w: nat, k: nat)
    requires
        x < pow2(w),
        k < w,
    ensures
        nbit((pow2(w) - 1 - x) as nat, k) == !nbit(x, k),
    decreases k,
{
    vstd::arithmetic::power2::lemma2_to64();
    let m = (pow2(w) - 1 - x) as nat;
    assert(pow2(w) == 2 * pow2((w - 1) as nat)) by {
        lemma_pow2_adds(1, (w - 1) as nat);
    }
    if k == 0 {
        lemma_nbit_zero(m);
        lemma_nbit_zero(x);
        assert(m % 2 != x % 2) by {
            assert(m + x == 2 * pow2((w - 1) as nat) - 1);
            assert((m + x) % 2 == 1) by {
                assert(m + x == 2 * (pow2((w - 1) as nat) - 1) + 1);
            }
        }
    } else {
        assert(m / 2 == pow2((w - 1) as nat) - 1 - x / 2) by {
            assert(x == 2 * (x / 2) + x % 2);
            if x % 2 == 0 {
                assert(m == 2 * (pow2((w - 1) as nat) - 1 - x / 2) + 1);
            } else {
                assert(m == 2 * (pow2((w - 1) as nat) - 1 - x / 2));
            }
        }
        assert(x / 2 < pow2((w - 1) as nat));
        lemma_nbit_complement(x / 2, (w - 1) as nat, (k - 1) as nat);
        lemma_nbit_half(m, k);
        lemma_nbit_half(x, k);
    }
}

/// The mask law: flipping the low `w` bits is the same as an exclusive
/// disjunction with `2^w - 1`.
pub proof fn lemma_xor_mask(x: nat, w: nat)
    requires
        x < pow2(w),
    ensures
        nat_xor((pow2(w) - 1) as nat, x) == pow2(w) - 1 - x,
    decreases w,
{
    vstd::arithmetic::power2::lemma2_to64();
    if w == 0 {
        assert(x == 0);
    } else {
        assert(pow2(w) == 2 * pow2((w - 1) as nat)) by {
            lemma_pow2_adds(1, (w - 1) as nat);
        }
        let m = (pow2(w) - 1) as nat;
        assert(m % 2 == 1) by {
            assert(m == 2 * (pow2((w - 1) as nat) - 1) + 1);
        }
        assert(m / 2 == pow2((w - 1) as nat) - 1);
        assert(x / 2 < pow2((w - 1) as nat)) by {
            assert(x == 2 * (x / 2) + x % 2);
        }
        lemma_xor_mask(x / 2, (w - 1) as nat);
        assert(nat_xor(m, x) == (if (m % 2 == 1) != (x % 2 == 1) {
            1nat
        } else {
            0nat
        }) + 2 * nat_xor(m / 2, x / 2));
        assert(x == 2 * (x / 2) + x % 2);
    }
}

/// Setting bit `i` on a number below `2^i`: the low bits stay, bit `i`
/// turns on, and the result stays below `2^(i+1)`.
pub proof fn lemma_nbit_add_pow2(v: nat, i: nat)
    requires
        v < pow2(i),
    ensures
        forall|k: nat| k < i ==> #[trigger] nbit(v + pow2(i), k) == nbit(v, k),
        nbit(v + pow2(i), i),
        v + pow2(i) < pow2(i + 1),
{
    lemma_pow2_pos(i);
    lemma_pow2_adds(i, 1);
    vstd::arithmetic::power2::lemma2_to64();
    assert(pow2(i + 1) == 2 * pow2(i));
    let s = v + pow2(i);
    assert forall|k: nat| k < i implies #[trigger] nbit(s, k) == nbit(v, k) by {
        lemma_pow2_pos(k);
        lemma_pow2_adds(k, (i - k) as nat);
        assert(pow2(i) == pow2(k) * pow2((i - k) as nat));
        assert(s / pow2(k) == v / pow2(k) + pow2((i - k) as nat)) by {
            lemma_fundamental_div_mod(v as int, pow2(k) as int);
            assert(v == pow2(k) * (v / pow2(k)) + v % pow2(k));
            assert(s == pow2(k) * (v / pow2(k) + pow2((i - k) as nat)) + v % pow2(k)) by (
            nonlinear_arith)
                requires
                    v == pow2(k) * (v / pow2(k)) + v % pow2(k),
                    s == v + pow2(k) * pow2((i - k) as nat),
            ;
            lemma_fundamental_div_mod_converse(
                s as int,
                pow2(k) as int,
                (v / pow2(k) + pow2((i - k) as nat)) as int,
                (v % pow2(k)) as int,
            );
        }
        assert((v / pow2(k) + pow2((i - k) as nat)) % 2 == (v / pow2(k)) % 2) by {
            assert(pow2((i - k) as nat) % 2 == 0) by {
                lemma_pow2_adds(1, (i - k - 1) as nat);
                assert(pow2((i - k) as nat) == 2 * pow2((i - k - 1) as nat));
            }
            let a = v / pow2(k);
            let c = pow2((i - k) as nat) / 2;
            assert(pow2((i - k) as nat) == 2 * c);
            assert((a + 2 * c) % 2 == a % 2) by {
                assert(a == 2 * (a / 2) + a % 2);
                assert(a + 2 * c == 2 * (a / 2 + c) + a % 2);
                lemma_fundamental_div_mod_converse(
                    (a + 2 * c) as int,
                    2,
                    (a / 2 + c) as int,
                    (a % 2) as int,
                );
            }
        }
    }
    assert(nbit(s, i)) by {
        assert(s / pow2(i) == 1) by {
            lemma_fundamental_div_mod_converse(s as int, pow2(i) as int, 1, v as int);
        }
    }
}

/// Whether adding the low `i` bits of two numbers carries into bit `i`.
pub open spec fn carry_at(x: nat, y: nat, i: nat) -> bool {
    x % pow2(i) + y % pow2(i) >= pow2(i)
}

/// The ripple-carry step: the sum's bit `i` is the three-way exclusive
/// disjunction, and the next carry is the majority.
pub proof fn lemma_add_bit(x: nat, y: nat, i: nat)
    ensures
        nbit(x + y, i) == ((nbit(x, i) != nbit(y, i)) != carry_at(x, y, i)),
        carry_at(x, y, i + 1) == ((carry_at(x, y, i) && (nbit(x, i) != nbit(y, i))) || (nbit(x, i)
            && nbit(y, i))),
{
    lemma_pow2_pos(i);
    let p = pow2(i);
    let a = x % p;
    let b = y % p;
    let ax: nat = if nbit(x, i) {
        1nat
    } else {
        0nat
    };
    let ay: nat = if nbit(y, i) {
        1nat
    } else {
        0nat
    };
    let ci: nat = if carry_at(x, y, i) {
        1nat
    } else {
        0nat
    };
    lemma_mod_pow2_step(x, i);
    lemma_mod_pow2_step(y, i);
    assert(x % pow2(i + 1) == a + p * ax);
    assert(y % pow2(i + 1) == b + p * ay);
    lemma_mod_pow2_step(x + y, i);
    // (x + y) % p == (a + b) % p
    vstd::arithmetic::div_mod::lemma_add_mod_noop(x as int, y as int, p as int);
    assert((x + y) % p == (a + b) % p);
    assert(a + b == ci * p + (a + b) % p) by {
        if a + b >= p {
            vstd::arithmetic::div_mod::lemma_mod_sub_multiples_vanish((a + b) as int, p as int);
            assert(((a + b) as int) % (p as int) == ((a + b) as int - p as int) % (p as int));
            lemma_small_mod((a + b - p) as nat, p);
        } else {
            lemma_small_mod((a + b) as nat, p);
        }
    }
    // bit i of x + y
    let s = x + y;
    lemma_mod_pow2_step(s, i + 1);
    lemma_pow2_adds(i, 1);
    vstd::arithmetic::power2::lemma2_to64();
    assert(pow2(i + 1) == 2 * p);
    // s % 2p determines bit i
    vstd::arithmetic::div_mod::lemma_add_mod_noop(x as int, y as int, (2 * p) as int);
    assert(s % (2 * p) == ((a + p * ax) + (b + p * ay)) % (2 * p));
    let total = a + b + p * ax + p * ay;
    assert(p * (ci + ax + ay) == p * ci + p * ax + p * ay) by (nonlinear_arith);
    assert(total == (a + b) % p + p * (ci + ax + ay));
    assert(total % (2 * p) == (a + b) % p + p * ((ci + ax + ay) % 2)) by {
        let q = ci + ax + ay;
        assert(q <= 3);
        assert((a + b) % p < p);
        if q >= 2 {
            assert(p * q == p * ((q - 2) as nat) + 2 * p) by (nonlinear_arith)
                requires
                    q >= 2,
                    p >= 1,
            ;
            assert(p * ((q - 2) as nat) <= p) by (nonlinear_arith)
                requires
                    q <= 3,
                    q >= 2,
                    p >= 1,
            ;
            assert(total == (a + b) % p + p * (q - 2) + 2 * p);
            vstd::arithmetic::div_mod::lemma_mod_sub_multiples_vanish(
                total as int,
                (2 * p) as int,
            );
            assert((total as int) % ((2 * p) as int) == (((a + b) % p + p * (q - 2)) as int) % (
            (2 * p) as int));
            assert((a + b) % p + p * (q - 2) < 2 * p);
            lemma_small_mod(((a + b) % p + p * (q - 2)) as nat, (2 * p) as nat);
            assert((q % 2) == q - 2);
        } else {
            assert(p * q <= p) by (nonlinear_arith)
                requires
                    q <= 1,
                    p >= 1,
            ;
            assert((a + b) % p + p * q < 2 * p);
            lemma_small_mod(((a + b) % p + p * q) as nat, (2 * p) as nat);
            assert(q % 2 == q);
        }
    }
    assert(s % (2 * p) == s % p + p * (if nbit(s, i) {
        1nat
    } else {
        0nat
    }));
    assert(s % p == (a + b) % p);
    assert((if nbit(s, i) {
        1nat
    } else {
        0nat
    }) == (ci + ax + ay) % 2);
    // carry into bit i + 1
    assert(carry_at(x, y, i + 1) == (ci + ax + ay >= 2)) by {
        assert(x % pow2(i + 1) + y % pow2(i + 1) == total);
        assert(total == (a + b) % p + p * (ci + ax + ay));
        assert((a + b) % p < p);
        let q = ci + ax + ay;
        if q >= 2 {
            assert(p * q >= 2 * p) by (nonlinear_arith)
                requires
                    q >= 2,
                    p >= 1,
            ;
            assert(total >= 2 * p);
        } else {
            assert(p * q <= p) by (nonlinear_arith)
                requires
                    q <= 1,
                    p >= 1,
            ;
            assert(total < 2 * p);
        }
    }
}

/// Comparing numbers bit by bit from the low end: the strict order of the
/// low `i + 1` bits.
pub proof fn lemma_lt_step(x: nat, y: nat, i: nat)
    ensures
        (x % pow2(i + 1) < y % pow2(i + 1)) == ((!nbit(x, i) && nbit(y, i)) || ((nbit(x, i)
            == nbit(y, i)) && x % pow2(i) < y % pow2(i))),
{
    lemma_pow2_pos(i);
    lemma_mod_pow2_step(x, i);
    lemma_mod_pow2_step(y, i);
    assert(x % pow2(i) < pow2(i) && y % pow2(i) < pow2(i)) by {
        vstd::arithmetic::div_mod::lemma_mod_bound(x as int, pow2(i) as int);
        vstd::arithmetic::div_mod::lemma_mod_bound(y as int, pow2(i) as int);
    }
}

/// Parity of a number: the exclusive disjunction of all its bits; the
/// recursion step used when folding a word.
pub proof fn lemma_parity_step(v: nat, i: nat)
    ensures
        nat_parity(v % pow2(i + 1)) == (nat_parity(v % pow2(i)) != nbit(v, i)),
    decreases i,
{
    lemma_mod_pow2_step(v, i);
    let lo = v % pow2(i);
    let b: nat = if nbit(v, i) {
        1nat
    } else {
        0nat
    };
    assert(v % pow2(i + 1) == lo + pow2(i) * b);
    assert(lo < pow2(i)) by {
        lemma_pow2_pos(i);
        vstd::arithmetic::div_mod::lemma_mod_bound(v as int, pow2(i) as int);
    }
    lemma_parity_add_pow2(lo, i, b);
}

/// Adding `b * 2^i` on top of a number smaller than `2^i` flips the parity
/// when `b` is one.
proof fn lemma_parity_add_pow2(lo: nat, i: nat, b: nat)
    requires
        lo < pow2(i),
        b <= 1,
    ensures
        nat_parity(lo + pow2(i) * b) == (nat_parity(lo) != (b == 1)),
    decreases i,
{
    vstd::arithmetic::power2::lemma2_to64();
    if b == 0 {
    } else {
        if i == 0 {
            assert(lo == 0);
            assert(nat_parity(1) == true) by {
                assert(nat_parity(1nat) == ((1nat % 2 == 1) != nat_parity(1nat / 2)));
            }
        } else {
            let v = lo + pow2(i);
            assert(pow2(i) == 2 * pow2((i - 1) as nat)) by {
                lemma_pow2_adds(1, (i - 1) as nat);
            }
            assert(v % 2 == lo % 2) by {
                assert(v == lo + 2 * pow2((i - 1) as nat));
                vstd::arithmetic::div_mod::lemma_mod_add_multiples_vanish(lo as int, 2);
                assert((lo + 2 * pow2((i - 1) as nat)) % 2 == lo % 2) by {
                    lemma_even_shift(lo, pow2((i - 1) as nat));
                }
            }
            assert(v / 2 == lo / 2 + pow2((i - 1) as nat)) by {
                lemma_even_shift(lo, pow2((i - 1) as nat));
            }
            assert(lo / 2 < pow2((i - 1) as nat)) by {
                assert(lo == 2 * (lo / 2) + lo % 2);
            }
            lemma_parity_add_pow2(lo / 2, (i - 1) as nat, 1);
            assert(v != 0);
            assert(nat_parity(v) == ((v % 2 == 1) != nat_parity(v / 2)));
            if lo == 0 {
                assert(nat_parity(lo) == false);
            } else {
                assert(nat_parity(lo) == ((lo % 2 == 1) != nat_parity(lo / 2)));
            }
        }
    }
}

/// `(a + 2c) % 2 == a % 2` and `(a + 2c) / 2 == a / 2 + c`.
proof fn lemma_even_shift(a: nat, c: nat)
    ensures
        (a + 2 * c) % 2 == a % 2,
        (a + 2 * c) / 2 == a / 2 + c,
{
    assert(a == 2 * (a / 2) + a % 2);
    assert(a + 2 * c == 2 * (a / 2 + c) + a % 2);
    lemma_fundamental_div_mod_converse((a + 2 * c) as int, 2, (a / 2 + c) as int, (a % 2) as int);
}


/// Uniqueness of the base-`2^k` decomposition: if `x = l + 2^lo·m + 2^(lo+mid)·h`
/// with the parts in range, the parts are the digits of `x`.
pub proof fn lemma_base_decomp(x: nat, l: nat, m: nat, h: nat, lo: nat, mid: nat)
    requires
        x == l + pow2(lo) * m + pow2(lo + mid) * h,
        l < pow2(lo),
        m < pow2(mid),
    ensures
        l == x % pow2(lo),
        m == (x / pow2(lo)) % pow2(mid),
        h == x / pow2(lo + mid),
{
    lemma_pow2_pos(lo);
    lemma_pow2_pos(mid);
    lemma_pow2_adds(lo, mid);
    assert(pow2(lo + mid) == pow2(lo) * pow2(mid));
    assert(x == pow2(lo) * (m + pow2(mid) * h) + l) by (nonlinear_arith)
        requires
            x == l + pow2(lo) * m + pow2(lo + mid) * h,
            pow2(lo + mid) == pow2(lo) * pow2(mid),
    ;
    lemma_fundamental_div_mod_converse(
        x as int,
        pow2(lo) as int,
        (m + pow2(mid) * h) as int,
        l as int,
    );
    assert(x / pow2(lo) == m + pow2(mid) * h);
    assert(x % pow2(lo) == l);
    vstd::arithmetic::mul::lemma_mul_is_commutative(pow2(mid) as int, h as int);
    lemma_fundamental_div_mod_converse(
        (x / pow2(lo)) as int,
        pow2(mid) as int,
        h as int,
        m as int,
    );
    assert((x / pow2(lo)) % pow2(mid) == m);
    assert((x / pow2(lo)) / pow2(mid) == h);
    lemma_div_denominator(x as int, pow2(lo) as int, pow2(mid) as int);
}

/// Shifting left then truncating: `2^k · (x mod 2^(w-k)) == (x · 2^k) mod 2^w`.
pub proof fn lemma_shl_mod(x: nat, k: nat, w: nat)
    requires
        k <= w,
    ensures
        pow2(k) * (x % pow2((w - k) as nat)) == (x * pow2(k)) % pow2(w),
{
    lemma_pow2_pos(k);
    lemma_pow2_pos((w - k) as nat);
    lemma_pow2_adds(k, (w - k) as nat);
    assert(pow2(w) == pow2(k) * pow2((w - k) as nat));
    vstd::arithmetic::div_mod::lemma_truncate_middle(
        x as int,
        pow2(k) as int,
        pow2((w - k) as nat) as int,
    );
    vstd::arithmetic::mul::lemma_mul_is_commutative(pow2(k) as int, x as int);
}

/// Disjoint bits add: if `s` is clear below bit `k` and `t` fits below bit
/// `k`, their bitwise disjunction is their sum.
pub proof fn lemma_nat_or_add(s: nat, t: nat, k: nat)
    requires
        s % pow2(k) == 0,
        t < pow2(k),
    ensures
        nat_or(s, t) == s + t,
    decreases k,
{
    vstd::arithmetic::power2::lemma2_to64();
    if k == 0 {
        assert(t == 0);
        lemma_nat_or_zero(s);
    } else {
        if s == 0 && t == 0 {
        } else {
            assert(pow2(k) == 2 * pow2((k - 1) as nat)) by {
                lemma_pow2_adds(1, (k - 1) as nat);
            }
            assert(s % 2 == 0 && s / 2 % pow2((k - 1) as nat) == 0) by {
                let q = s / pow2(k);
                assert(s == pow2(k) * q + s % pow2(k)) by {
                    lemma_pow2_pos(k);
                    lemma_fundamental_div_mod(s as int, pow2(k) as int);
                }
                assert(s == 2 * (pow2((k - 1) as nat) * q)) by (nonlinear_arith)
                    requires
                        s == pow2(k) * q,
                        pow2(k) == 2 * pow2((k - 1) as nat),
                ;
                assert(s % 2 == 0 && s / 2 == pow2((k - 1) as nat) * q) by {
                    lemma_fundamental_div_mod_converse(
                        s as int,
                        2,
                        (pow2((k - 1) as nat) * q) as int,
                        0,
                    );
                }
                lemma_pow2_pos((k - 1) as nat);
                vstd::arithmetic::div_mod::lemma_mod_multiples_basic(
                    q as int,
                    pow2((k - 1) as nat) as int,
                );
                vstd::arithmetic::mul::lemma_mul_is_commutative(
                    pow2((k - 1) as nat) as int,
                    q as int,
                );
            }
            assert(t / 2 < pow2((k - 1) as nat)) by {
                assert(t == 2 * (t / 2) + t % 2);
            }
            lemma_nat_or_add(s / 2, t / 2, (k - 1) as nat);
            assert(nat_or(s, t) == (if s % 2 == 1 || t % 2 == 1 {
                1nat
            } else {
                0nat
            }) + 2 * nat_or(s / 2, t / 2));
            assert(s == 2 * (s / 2) + s % 2);
            assert(t == 2 * (t / 2) + t % 2);
        }
    }
}

/// A multiple of `2^k` leaves no remainder at `2^k`.
pub proof fn lemma_mul_pow2_mod_zero(m: nat, k: nat)
    ensures
        (pow2(k) * m) % pow2(k) == 0,
{
    lemma_pow2_pos(k);
    vstd::arithmetic::div_mod::lemma_mod_multiples_basic(m as int, pow2(k) as int);
    vstd::arithmetic::mul::lemma_mul_is_commutative(pow2(k) as int, m as int);
}

/// Zero is the identity of the bitwise disjunction.
pub proof fn lemma_nat_or_zero(s: nat)
    ensures
        nat_or(s, 0) == s,
    decreases s,
{
    if s != 0 {
        lemma_nat_or_zero(s / 2);
        assert(nat_or(s, 0) == (if s % 2 == 1 {
            1nat
        } else {
            0nat
        }) + 2 * nat_or(s / 2, 0));
        assert(s == 2 * (s / 2) + s % 2);
    }
}


/// The exclusive disjunction vanishes exactly on equal arguments.
pub proof fn lemma_nat_xor_zero_iff(x: nat, y: nat)
    ensures
        (nat_xor(x, y) == 0) <==> (x == y),
    decreases x + y,
{
    if x == 0 && y == 0 {
    } else {
        lemma_nat_xor_zero_iff(x / 2, y / 2);
        assert(nat_xor(x, y) == (if (x % 2 == 1) != (y % 2 == 1) {
            1nat
        } else {
            0nat
        }) + 2 * nat_xor(x / 2, y / 2));
        assert(x == 2 * (x / 2) + x % 2);
        assert(y == 2 * (y / 2) + y % 2);
    }
}

/// One step of shift-and-add multiplication, modulo the width.
pub proof fn lemma_mul_step(x: nat, y: nat, i: nat, w: nat)
    ensures
        ((x * (y % pow2(i))) % pow2(w) + (if nbit(y, i) {
            (x * pow2(i)) % pow2(w)
        } else {
            0nat
        })) % pow2(w) == (x * (y % pow2(i + 1))) % pow2(w),
{
    lemma_pow2_pos(w);
    lemma_mod_pow2_step(y, i);
    let b: nat = if nbit(y, i) {
        1nat
    } else {
        0nat
    };
    assert(y % pow2(i + 1) == y % pow2(i) + pow2(i) * b);
    let m = y % pow2(i);
    let p = pow2(i);
    assert(x * (m + p * b) == x * m + x * p * b) by (nonlinear_arith);
    assert(x * (y % pow2(i + 1)) == x * (y % pow2(i)) + x * pow2(i) * b);
    if b == 1 {
        vstd::arithmetic::div_mod::lemma_add_mod_noop(
            (x * (y % pow2(i))) as int,
            (x * pow2(i)) as int,
            pow2(w) as int,
        );
        assert(x * (y % pow2(i + 1)) == x * (y % pow2(i)) + x * pow2(i)) by (nonlinear_arith)
            requires
                x * (y % pow2(i + 1)) == x * (y % pow2(i)) + x * pow2(i) * b,
                b == 1,
        ;
    } else {
        assert(x * (y % pow2(i + 1)) == x * (y % pow2(i))) by (nonlinear_arith)
            requires
                x * (y % pow2(i + 1)) == x * (y % pow2(i)) + x * pow2(i) * b,
                b == 0,
        ;
        vstd::arithmetic::div_mod::lemma_mod_twice((x * (y % pow2(i))) as int, pow2(w) as int);
    }
}

/// Folding one more bit into a running reduction, for each connective.
pub proof fn lemma_fold_or_step(x: nat, i: nat)
    ensures
        ((x % pow2(i + 1)) != 0) == ((x % pow2(i)) != 0 || nbit(x, i)),
{
    lemma_mod_pow2_step(x, i);
    lemma_pow2_pos(i);
}

/// As above, for the conjunction: all bits set so far.
pub proof fn lemma_fold_and_step(x: nat, i: nat)
    ensures
        ((x % pow2(i + 1)) == pow2(i + 1) - 1) == ((x % pow2(i)) == pow2(i) - 1 && nbit(x, i)),
{
    lemma_mod_pow2_step(x, i);
    lemma_pow2_pos(i);
    lemma_pow2_adds(i, 1);
    vstd::arithmetic::power2::lemma2_to64();
    assert(pow2(i + 1) == 2 * pow2(i));
    vstd::arithmetic::div_mod::lemma_mod_bound(x as int, pow2(i) as int);
}

} // verus!
