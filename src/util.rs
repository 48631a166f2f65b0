use vstd::arithmetic::div_mod::{
    lemma_add_mod_noop, lemma_mod_decreases, lemma_mod_mod, lemma_mod_pos_bound,
    lemma_mod_twice, lemma_mul_mod_noop_left, lemma_mul_mod_noop_right, lemma_small_mod,
};
use vstd::prelude::*;

verus! {

/// The multiplier of the generator, also mixed into the initial seed.
pub const MULTIPLIER: u64 = 0x5_DEEC_E66D;

/// The increment of the generator.
pub const INCREMENT: u64 = 0xB;

/// The low 48 bits, which hold the whole state.
pub const SEED_MASK: u64 = 0xFFFF_FFFF_FFFF;

/// The number of distinct states: the modulus of the generator.
pub const MODULUS: u64 = 0x1_0000_0000_0000;

/// A bound on the draws of rejection sampling, which gives its loop a
/// measure. `lemma_rejection_succeeds` shows that a draw is kept within the
/// first `2^47 + 1`, so the bound is never reached.
pub const MAX_DRAWS: u64 = 0x1_0000_0000_0000;

/// The largest positive `int` of the legacy runtime: the largest bound that
/// `next_int` takes unless the bound is a power of two. Above it the signed
/// guard of rejection sampling would reject every draw, so such a bound is
/// refused rather than looped on forever.
pub const MAX_BOUND: u32 = 0x7FFF_FFFF;

/// The state that a seed starts the generator in.
pub open spec fn initial_state(seed: u64) -> u64 {
    (seed ^ MULTIPLIER) & SEED_MASK
}

/// One step of the linear-congruential recurrence, modulo 2^48.
pub open spec fn next_state(s: u64) -> u64 {
    ((s * MULTIPLIER + INCREMENT) % (MODULUS as int)) as u64
}

/// The top `n` of the 48 bits of state `s`.
pub open spec fn top_bits(s: u64, n: u32) -> u32 {
    (s >> ((48 - n) as u64)) as u32
}

/// The state after `k` steps from `s`.
#[verifier::opaque]
pub open spec fn state_after(s: u64, k: nat) -> u64
    decreases k,
{
    if k == 0 {
        s
    } else {
        next_state(state_after(s, (k - 1) as nat))
    }
}

/// `n` is a power of two.
pub open spec fn is_power_of_two(n: u32) -> bool {
    exists|k: u32| k < 32 && n == (1u32 << k)
}

/// A 31-bit draw `bits` is kept for `bound`: the legacy guard
/// `bits - bits % bound + (bound - 1) >= 0` in signed 32-bit arithmetic,
/// that is, the sum does not pass the largest `int`.
pub open spec fn draw_accepted(bits: u32, bound: u32) -> bool {
    bits - bits % bound + (bound - 1) <= i32::MAX
}

/// Rejection sampling for a bound that is not a power of two: from state `s`,
/// draw 31 bits at most `fuel` times until a draw is accepted. The result is
/// the value and the state after the accepted draw, or `None` when no draw of
/// the `fuel` is accepted.
#[verifier::opaque]
pub open spec fn rejection_draw(s: u64, bound: u32, fuel: nat) -> Option<(u32, u64)>
    decreases fuel,
{
    if fuel == 0 {
        None
    } else {
        let s1 = next_state(s);
        let bits = top_bits(s1, 31);
        if draw_accepted(bits, bound) {
            Some(((bits % bound) as u32, s1))
        } else {
            rejection_draw(s1, bound, (fuel - 1) as nat)
        }
    }
}

/// What `next_int(bound)` returns from state `s`, with the state it leaves.
pub open spec fn bounded_draw(s: u64, bound: u32) -> (Result<u32, RandomError>, u64) {
    if bound == 0 {
        (Err(RandomError::NonPositiveBound), s)
    } else if is_power_of_two(bound) {
        let s1 = next_state(s);
        (Ok((bound as int * top_bits(s1, 31) as int / 0x8000_0000) as u32), s1)
    } else if bound > MAX_BOUND {
        (Err(RandomError::NonPositiveBound), s)
    } else {
        let (v, s1) = rejection_draw(s, bound, MAX_DRAWS as nat)->Some_0;
        (Ok(v), s1)
    }
}

/// Why `next_int` returned no value.
#[derive(Debug, Clone, Copy, PartialEq, Eq, Structural)]
pub enum RandomError {
    /// The bound is 0, or it is above `MAX_BOUND` and not a power of two (read
    /// as a signed `int` it is negative, and the legacy guard would reject every
    /// draw for it).
    NonPositiveBound,
}

/// The linear-congruential generator of `java.util.Random`.
pub struct Random {
    seed: u64,
}

proof fn lemma_step(s: u64)
    ensures
        (s.wrapping_mul(MULTIPLIER).wrapping_add(INCREMENT) & SEED_MASK) == next_state(s),
{
    let p = s.wrapping_mul(MULTIPLIER);
    let q = p.wrapping_add(INCREMENT);
    assert(q & 0xFFFF_FFFF_FFFFu64 == q % 0x1_0000_0000_0000u64) by (bit_vector);
    let m: int = 0x1_0000_0000_0000;
    let w: int = 0x1_0000;
    assert(m * w == 0x1_0000_0000_0000_0000);
    assert(p as int == (s as int * MULTIPLIER as int) % (m * w));
    assert(q as int == (p as int + INCREMENT as int) % (m * w));
    lemma_mod_mod(p as int + INCREMENT as int, m, w);
    lemma_mod_mod(s as int * MULTIPLIER as int, m, w);
    lemma_add_mod_noop(p as int, INCREMENT as int, m);
    lemma_add_mod_noop(s as int * MULTIPLIER as int, INCREMENT as int, m);
}

proof fn lemma_power_of_two(b: u32)
    requires
        b != 0,
    ensures
        (b & ((b - 1) as u32) == 0) == is_power_of_two(b),
    decreases b,
{
    if b & ((b - 1) as u32) == 0 {
        if b == 1 {
            assert(b == 1u32 << 0u32) by (bit_vector)
                requires
                    b == 1,
            ;
        } else {
            let c = b >> 1;
            assert(c != 0 && c & ((c - 1) as u32) == 0 && c < b && b & 1 == 0) by (bit_vector)
                requires
                    b != 0,
                    b != 1,
                    b & ((b - 1) as u32) == 0,
                    c == b >> 1,
            ;
            lemma_power_of_two(c);
            let k = choose|k: u32| k < 32 && c == (1u32 << k);
            assert(k < 31 && b == 1u32 << ((k + 1) as u32)) by (bit_vector)
                requires
                    k < 32,
                    c == 1u32 << k,
                    c == b >> 1,
                    b & 1 == 0,
            ;
        }
    } else {
        assert forall|k: u32| k < 32 implies b != (1u32 << k) by {
            assert(k < 32 && b == 1u32 << k ==> b & ((b - 1) as u32) == 0) by (bit_vector);
        }
    }
}

/// Right shift by 31 of a 64-bit value is division by 2^31.
proof fn lemma_shift_31(x: u64)
    ensures
        x >> 31u64 == x / 0x8000_0000u64,
{
    assert(x >> 31u64 == x / 0x8000_0000u64) by (bit_vector);
}

/// A 48-bit state has 31 top bits below 2^31.
proof fn lemma_top_31(s: u64)
    requires
        s <= SEED_MASK,
    ensures
        top_bits(s, 31) < 0x8000_0000,
{
    assert(s <= 0xFFFF_FFFF_FFFFu64 ==> (s >> 17u64) < 0x8000_0000u64) by (bit_vector);
}

/// The legacy guard against modulo bias: keep the draw `bits`, whose
/// remainder is `val`, unless `bits - val + (bound - 1)` is negative in signed
/// 32-bit arithmetic.
fn keeps_draw(bits: u32, val: u32, bound: u32) -> (r: bool)
    requires
        0 < bound <= MAX_BOUND,
        bits < 0x8000_0000,
        val == bits % bound,
    ensures
        r == draw_accepted(bits, bound),
{
    proof {
        lemma_mod_decreases(bits as nat, bound as nat);
        lemma_mod_pos_bound(bits as int, bound as int);
    }
    ((bits - val) as i32).wrapping_add((bound - 1) as i32) >= 0
}

impl Random {
    #[verifier::type_invariant]
    spec fn inv(&self) -> bool {
        self.seed <= SEED_MASK
    }

    /// The current 48-bit state.
    pub closed spec fn state(&self) -> u64 {
        self.seed
    }

    /// A generator started from `seed`: the seed XORed with the multiplier,
    /// masked to 48 bits.
    pub fn new(seed: u64) -> (r: Self)
        ensures
            r.state() == initial_state(seed),
    {
        let s = (seed ^ MULTIPLIER) & SEED_MASK;
        assert(s <= SEED_MASK) by (bit_vector)
            requires
                s == (seed ^ 0x5_DEEC_E66Du64) & 0xFFFF_FFFF_FFFFu64,
        ;
        Random { seed: s }
    }

    /// Advances the state one step and returns its top `bits` bits.
    pub fn next(&mut self, bits: u32) -> (r: u32)
        requires
            1 <= bits <= 32,
        ensures
            final(self).state() == next_state(old(self).state()),
            r == top_bits(final(self).state(), bits),
    {
        let s = self.seed.wrapping_mul(MULTIPLIER).wrapping_add(INCREMENT) & SEED_MASK;
        proof {
            lemma_step(self.seed);
        }
        self.seed = s;
        (s >> (48 - bits) as u64) as u32
    }

    /// A value in `0..bound`, as `java.util.Random.nextInt(bound)` draws it.
    ///
    /// A power of two takes the top bits of one 31-bit draw; any other bound
    /// takes the remainder of the first 31-bit draw that the legacy guard
    /// keeps. A bound of 0, or one above `MAX_BOUND` that is no power of two,
    /// is refused and leaves the state as it was.
    pub fn next_int(&mut self, bound: u32) -> (r: Result<u32, RandomError>)
        ensures
            (r, final(self).state()) == bounded_draw(old(self).state(), bound),
            bound == 0 ==> r == Err::<u32, RandomError>(RandomError::NonPositiveBound),
            r is Ok <==> bound != 0 && (is_power_of_two(bound) || bound <= MAX_BOUND),
            r matches Ok(v) ==> v < bound,
    {
        if bound == 0 {
            return Err(RandomError::NonPositiveBound);
        }
        proof {
            lemma_power_of_two(bound);
        }
        if bound & (bound - 1) == 0 {
            let bits = self.next(31);
            proof {
                use_type_invariant(&*self);
                lemma_top_31(self.state());
                let k = choose|k: u32| k < 32 && bound == (1u32 << k);
                assert(k < 32 && bound == 1u32 << k ==> bound <= 0x8000_0000u32) by (bit_vector);
                assert((bound as int) * (bits as int) < 0x4000_0000_0000_0000) by (nonlinear_arith)
                    requires
                        bound <= 0x8000_0000,
                        bits < 0x8000_0000,
                ;
                lemma_shift_31((bound as u64 * bits as u64) as u64);
                assert((bound as int) * (bits as int) / 0x8000_0000 < bound) by (nonlinear_arith)
                    requires
                        bound > 0,
                        bits < 0x8000_0000,
                ;
            }
            Ok(((bound as u64 * bits as u64) >> 31) as u32)
        } else if bound > MAX_BOUND {
            Err(RandomError::NonPositiveBound)
        } else {
            proof {
                use_type_invariant(&*self);
                lemma_rejection_succeeds(self.state(), bound);
                lemma_rejection_below_bound(self.state(), bound, MAX_DRAWS as nat);
            }
            Ok(self.draw_rejecting(bound))
        }
    }

    /// Rejection sampling for a bound that is not a power of two.
    fn draw_rejecting(&mut self, bound: u32) -> (r: u32)
        requires
            0 < bound <= MAX_BOUND,
        ensures
            (r, final(self).state()) == rejection_draw(old(self).state(), bound, MAX_DRAWS as nat)->Some_0,
    {
        let ghost start = self.state();
        let mut count: u64 = 0;
        proof {
            use_type_invariant(&*self);
            lemma_rejection_succeeds(start, bound);
        }
        loop
            invariant
                start == old(self).state(),
                count < MAX_DRAWS,
                0 < bound <= MAX_BOUND,
                rejection_draw(start, bound, MAX_DRAWS as nat) is Some,
                rejection_draw(start, bound, MAX_DRAWS as nat) == rejection_draw(
                    self.state(),
                    bound,
                    (MAX_DRAWS - count) as nat,
                ),
            decreases MAX_DRAWS - count,
        {
            let ghost before = self.state();
            let bits = self.next(31);
            proof {
                use_type_invariant(&*self);
                lemma_top_31(self.state());
            }
            let val = bits % bound;
            let accept = keeps_draw(bits, val, bound);
            proof {
                reveal_with_fuel(rejection_draw, 1);
                if !accept {
                    // Some draw within the fuel is kept, so fuel is left.
                    if count + 1 == MAX_DRAWS {
                        assert(rejection_draw(self.state(), bound, 0) is None);
                    }
                }
            }
            count = count + 1;
            if accept {
                return val;
            }
        }
    }
}

/// A value that rejection sampling keeps is below the bound.
proof fn lemma_rejection_below_bound(s: u64, bound: u32, fuel: nat)
    requires
        bound > 0,
    ensures
        rejection_draw(s, bound, fuel) matches Some((v, _)) ==> v < bound,
    decreases fuel,
{
    reveal_with_fuel(rejection_draw, 1);
    if fuel > 0 {
        lemma_mod_pos_bound(top_bits(next_state(s), 31) as int, bound as int);
        lemma_rejection_below_bound(next_state(s), bound, (fuel - 1) as nat);
    }
}

/// Every step moves the generator to another state: the low bit flips, as
/// the multiplier and the increment are odd.
pub proof fn lemma_step_changes_state(s: u64)
    requires
        s <= SEED_MASK,
    ensures
        next_state(s) != s,
        next_state(s) % 2 != s % 2,
{
    let x: int = s as int * MULTIPLIER as int + INCREMENT as int;
    let m: int = 0x1_0000_0000_0000;
    assert(x % 2 != s as int % 2) by (nonlinear_arith)
        requires
            x == s as int * 0x5_DEEC_E66D + 0xB,
            s >= 0,
    ;
    lemma_mod_mod(x, 2, m / 2);
    assert(next_state(s) as int == x % m);
}

/// A draw depends on the state and the bound alone: two generators in the
/// same state, such as two made from the same seed, return the same value for
/// the same bound and are left in the same state.
pub proof fn lemma_same_state_same_draw(a: Random, b: Random, bound: u32)
    requires
        a.state() == b.state(),
    ensures
        bounded_draw(a.state(), bound) == bounded_draw(b.state(), bound),
{
}

/// `2^j`, as a count of steps.
pub open spec fn doubling(j: nat) -> nat
    decreases j,
{
    if j == 0 {
        1
    } else {
        2 * doubling((j - 1) as nat)
    }
}

/// The multiplier and increment of `2^j` steps of the generator taken as one
/// affine map modulo 2^48: composing the map `x -> a * x + c` with itself gives
/// `x -> a * a * x + (a * c + c)`.
pub open spec fn affine_doubling(j: nat) -> (int, int)
    decreases j,
{
    if j == 0 {
        (MULTIPLIER as int, INCREMENT as int)
    } else {
        let (a, c) = affine_doubling((j - 1) as nat);
        ((a * a) % (MODULUS as int), (a * c + c) % (MODULUS as int))
    }
}

proof fn lemma_state_after_add(s: u64, m: nat, n: nat)
    ensures
        state_after(s, m + n) == state_after(state_after(s, m), n),
    decreases n,
{
    reveal_with_fuel(state_after, 1);
    if n > 0 {
        lemma_state_after_add(s, m, (n - 1) as nat);
        assert((m + n - 1) as nat == m + (n - 1) as nat);
    }
}

proof fn lemma_affine_doubling(s: u64, j: nat)
    requires
        s <= SEED_MASK,
    ensures
        0 <= affine_doubling(j).0 < MODULUS,
        0 <= affine_doubling(j).1 < MODULUS,
        state_after(s, doubling(j)) as int == (affine_doubling(j).0 * s + affine_doubling(j).1)
            % (MODULUS as int),
    decreases j,
{
    let m = MODULUS as int;
    reveal_with_fuel(state_after, 2);
    if j > 0 {
        let n = doubling((j - 1) as nat);
        let (a, c) = affine_doubling((j - 1) as nat);
        lemma_affine_doubling(s, (j - 1) as nat);
        let t = state_after(s, n);
        assert(t as int == (a * s + c) % m);
        assert(t <= SEED_MASK);
        lemma_affine_doubling(t, (j - 1) as nat);
        lemma_state_after_add(s, n, n);
        assert(doubling(j) == n + n);
        // a * ((a * s + c) % m) + c  ==  a * a * s + a * c + c   (mod m)
        lemma_mul_mod_noop_right(a, a * s + c, m);
        lemma_add_mod_noop(a * ((a * s + c) % m), c, m);
        lemma_add_mod_noop(a * (a * s + c), c, m);
        assert(a * (a * s + c) + c == (a * a) * s + (a * c + c)) by (nonlinear_arith);
        lemma_mul_mod_noop_left(a * a, s as int, m);
        lemma_add_mod_noop((a * a) * s, a * c + c, m);
        lemma_add_mod_noop(((a * a) % m) * s, a * c + c, m);
        lemma_mod_twice(a * c + c, m);
        lemma_add_mod_noop(((a * a) % m) * s, (a * c + c) % m, m);
        lemma_mod_pos_bound(a * a, m);
        lemma_mod_pos_bound(a * c + c, m);
    } else {
        assert(state_after(s, 1) == next_state(s));
    }
}

proof fn lemma_doubling_step(j: nat, a: int, c: int, a2: int, c2: int)
    requires
        affine_doubling(j) == (a, c),
        a2 == (a * a) % (MODULUS as int),
        c2 == (a * c + c) % (MODULUS as int),
    ensures
        affine_doubling(j + 1) == (a2, c2),
{
    reveal_with_fuel(affine_doubling, 1);
    assert(((j + 1) as nat - 1) as nat == j);
}

/// `2^47` steps of the generator add `2^47` modulo `2^48`: they flip the top
/// bit of the state and keep the others.
proof fn lemma_half_period(s: u64)
    requires
        s <= SEED_MASK,
    ensures
        state_after(s, 0x8000_0000_0000) as int == (s + 0x8000_0000_0000) % (MODULUS as int),
{
    reveal_with_fuel(doubling, 48);
    reveal_with_fuel(affine_doubling, 1);
    lemma_doubling_step(0, 0x5deece66d, 0xb, 0xbb20b4600a69, 0x40942de6ba);
    lemma_doubling_step(1, 0xbb20b4600a69, 0x40942de6ba, 0x32eb772c5f11, 0x2d3873c4cd04);
    lemma_doubling_step(2, 0x32eb772c5f11, 0x2d3873c4cd04, 0x75489f259f21, 0x7cba449ae648);
    lemma_doubling_step(3, 0x75489f259f21, 0x7cba449ae648, 0x6dc260740241, 0xd0352014d90);
    lemma_doubling_step(4, 0x6dc260740241, 0xd0352014d90, 0xfac6caed1481, 0x1e4c4c311f20);
    lemma_doubling_step(5, 0xfac6caed1481, 0x1e4c4c311f20, 0xab768c7e6901, 0xf77b98004e40);
    lemma_doubling_step(6, 0xab768c7e6901, 0xf77b98004e40, 0xa430a00dd201, 0x6cc0d398dc80);
    lemma_doubling_step(7, 0xa430a00dd201, 0x6cc0d398dc80, 0x4fa0405fa401, 0xa7a83e92b900);
    lemma_doubling_step(8, 0x4fa0405fa401, 0xa7a83e92b900, 0x94fba1cf4801, 0x9e1922a97200);
    lemma_doubling_step(9, 0x94fba1cf4801, 0x9e1922a97200, 0xba5cc7de9001, 0xaba71b62e400);
    lemma_doubling_step(10, 0xba5cc7de9001, 0xaba71b62e400, 0xba17a0bd2001, 0xe5b38f05c800);
    lemma_doubling_step(11, 0xba17a0bd2001, 0xe5b38f05c800, 0x27e7857a4001, 0x698c7f0b9000);
    lemma_doubling_step(12, 0x27e7857a4001, 0x698c7f0b9000, 0x10b01af48001, 0x702e82172000);
    lemma_doubling_step(13, 0x10b01af48001, 0x702e82172000, 0xb4e475e90001, 0x78b3142e4000);
    lemma_doubling_step(14, 0xb4e475e90001, 0x78b3142e4000, 0x37d9ebd20001, 0x72be685c8000);
    lemma_doubling_step(15, 0x37d9ebd20001, 0x72be685c8000, 0xa7f7d7a40001, 0xeaddd0b90000);
    lemma_doubling_step(16, 0xa7f7d7a40001, 0xeaddd0b90000, 0x30ffaf480001, 0xeb3fa1720000);
    lemma_doubling_step(17, 0x30ffaf480001, 0xeb3fa1720000, 0xe63f5e900001, 0x2c8f42e40000);
    lemma_doubling_step(18, 0xe63f5e900001, 0x2c8f42e40000, 0xdd7ebd200001, 0xb15e85c80000);
    lemma_doubling_step(19, 0xdd7ebd200001, 0xb15e85c80000, 0xfefd7a400001, 0xc3bd0b900000);
    lemma_doubling_step(20, 0xfefd7a400001, 0xc3bd0b900000, 0xdfaf4800001, 0xb7a17200000);
    lemma_doubling_step(21, 0xdfaf4800001, 0xb7a17200000, 0x5bf5e9000001, 0x26f42e400000);
    lemma_doubling_step(22, 0x5bf5e9000001, 0x26f42e400000, 0xb7ebd2000001, 0x8de85c800000);
    lemma_doubling_step(23, 0xb7ebd2000001, 0x8de85c800000, 0x6fd7a4000001, 0x1bd0b9000000);
    lemma_doubling_step(24, 0x6fd7a4000001, 0x1bd0b9000000, 0xdfaf48000001, 0x37a172000000);
    lemma_doubling_step(25, 0xdfaf48000001, 0x37a172000000, 0xbf5e90000001, 0x6f42e4000000);
    lemma_doubling_step(26, 0xbf5e90000001, 0x6f42e4000000, 0x7ebd20000001, 0xde85c8000000);
    lemma_doubling_step(27, 0x7ebd20000001, 0xde85c8000000, 0xfd7a40000001, 0xbd0b90000000);
    lemma_doubling_step(28, 0xfd7a40000001, 0xbd0b90000000, 0xfaf480000001, 0x7a1720000000);
    lemma_doubling_step(29, 0xfaf480000001, 0x7a1720000000, 0xf5e900000001, 0xf42e40000000);
    lemma_doubling_step(30, 0xf5e900000001, 0xf42e40000000, 0xebd200000001, 0xe85c80000000);
    lemma_doubling_step(31, 0xebd200000001, 0xe85c80000000, 0xd7a400000001, 0xd0b900000000);
    lemma_doubling_step(32, 0xd7a400000001, 0xd0b900000000, 0xaf4800000001, 0xa17200000000);
    lemma_doubling_step(33, 0xaf4800000001, 0xa17200000000, 0x5e9000000001, 0x42e400000000);
    lemma_doubling_step(34, 0x5e9000000001, 0x42e400000000, 0xbd2000000001, 0x85c800000000);
    lemma_doubling_step(35, 0xbd2000000001, 0x85c800000000, 0x7a4000000001, 0xb9000000000);
    lemma_doubling_step(36, 0x7a4000000001, 0xb9000000000, 0xf48000000001, 0x172000000000);
    lemma_doubling_step(37, 0xf48000000001, 0x172000000000, 0xe90000000001, 0x2e4000000000);
    lemma_doubling_step(38, 0xe90000000001, 0x2e4000000000, 0xd20000000001, 0x5c8000000000);
    lemma_doubling_step(39, 0xd20000000001, 0x5c8000000000, 0xa40000000001, 0xb90000000000);
    lemma_doubling_step(40, 0xa40000000001, 0xb90000000000, 0x480000000001, 0x720000000000);
    lemma_doubling_step(41, 0x480000000001, 0x720000000000, 0x900000000001, 0xe40000000000);
    lemma_doubling_step(42, 0x900000000001, 0xe40000000000, 0x200000000001, 0xc80000000000);
    lemma_doubling_step(43, 0x200000000001, 0xc80000000000, 0x400000000001, 0x900000000000);
    lemma_doubling_step(44, 0x400000000001, 0x900000000000, 0x800000000001, 0x200000000000);
    lemma_doubling_step(45, 0x800000000001, 0x200000000000, 0x1, 0x400000000000);
    lemma_doubling_step(46, 0x1, 0x400000000000, 0x1, 0x800000000000);
    assert(doubling(47) == 0x8000_0000_0000);
    lemma_affine_doubling(s, 47);
    let (a, c) = affine_doubling(47);
    assert(a == 1 && c == 0x8000_0000_0000);
    assert(a * s == s) by (nonlinear_arith)
        requires
            a == 1,
    ;
}

/// A draw whose state has its top bit clear is kept for every bound that
/// rejection sampling takes.
proof fn lemma_low_state_accepted(x: u64, bound: u32)
    requires
        x < 0x8000_0000_0000,
        0 < bound <= MAX_BOUND,
    ensures
        draw_accepted(top_bits(x, 31), bound),
{
    assert(x < 0x8000_0000_0000u64 ==> (x >> 17u64) < 0x4000_0000u64) by (bit_vector);
    let bits = top_bits(x, 31);
    lemma_mod_decreases(bits as nat, bound as nat);
    lemma_mod_pos_bound(bits as int, bound as int);
    if bound > 0x4000_0000 {
        lemma_small_mod(bits as nat, bound as nat);
    }
}

proof fn lemma_state_after_one(s: u64)
    ensures
        state_after(s, 1) == next_state(s),
{
    reveal_with_fuel(state_after, 2);
}

proof fn lemma_state_after_shift(s: u64, k: nat)
    ensures
        state_after(s, k + 1) == state_after(next_state(s), k),
{
    lemma_state_after_add(s, 1, k);
    lemma_state_after_one(s);
}

/// When rejection sampling runs out of fuel, every draw it made was rejected.
proof fn lemma_rejection_none(s: u64, bound: u32, fuel: nat, k: nat)
    requires
        rejection_draw(s, bound, fuel) is None,
        1 <= k <= fuel,
    ensures
        !draw_accepted(top_bits(state_after(s, k), 31), bound),
    decreases fuel,
{
    reveal_with_fuel(rejection_draw, 1);
    lemma_state_after_shift(s, (k - 1) as nat);
    assert(((k - 1) as nat + 1) as nat == k);
    assert(fuel > 0);
    assert(rejection_draw(s, bound, fuel) == (if draw_accepted(top_bits(next_state(s), 31), bound) {
        Some(((top_bits(next_state(s), 31) % bound) as u32, next_state(s)))
    } else {
        rejection_draw(next_state(s), bound, (fuel - 1) as nat)
    }));
    if k == 1 {
        reveal_with_fuel(state_after, 1);
        assert(state_after(next_state(s), 0) == next_state(s));
    } else {
        lemma_rejection_none(next_state(s), bound, (fuel - 1) as nat, (k - 1) as nat);
    }
}

/// Rejection sampling always keeps a draw well within `MAX_DRAWS`: of the
/// first draw and the one `2^47` steps after it, one has the top bit of its
/// state clear, and such a draw is kept.
pub proof fn lemma_rejection_succeeds(s: u64, bound: u32)
    requires
        s <= SEED_MASK,
        0 < bound <= MAX_BOUND,
    ensures
        rejection_draw(s, bound, MAX_DRAWS as nat) is Some,
{
    lemma_state_after_one(s);
    let t1 = state_after(s, 1);
    lemma_half_period(t1);
    lemma_state_after_add(s, 1, 0x8000_0000_0000);
    let t2 = state_after(s, 1 + 0x8000_0000_0000);
    if rejection_draw(s, bound, MAX_DRAWS as nat) is None {
        if t1 < 0x8000_0000_0000 {
            lemma_low_state_accepted(t1, bound);
            lemma_rejection_none(s, bound, MAX_DRAWS as nat, 1);
        } else {
            assert(t2 as int == t1 - 0x8000_0000_0000);
            lemma_low_state_accepted(t2, bound);
            lemma_rejection_none(s, bound, MAX_DRAWS as nat, 1 + 0x8000_0000_0000);
        }
    }
}

/// A draw with a power-of-two bound takes exactly one step, and so always
/// moves the generator to another state.
pub proof fn lemma_power_of_two_draw_advances(s: u64, bound: u32)
    requires
        s <= SEED_MASK,
        is_power_of_two(bound),
    ensures
        bounded_draw(s, bound).1 == next_state(s),
        bounded_draw(s, bound).1 != s,
{
    let k = choose|k: u32| k < 32 && bound == (1u32 << k);
    assert(k < 32 ==> (1u32 << k) != 0) by (bit_vector);
    lemma_step_changes_state(s);
}

} // verus!
