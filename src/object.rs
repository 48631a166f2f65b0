use std::collections::VecDeque;
use vstd::arithmetic::power::pow;
use vstd::prelude::*;

verus! {

/// Horner's rule in 32-bit wrapping arithmetic: start from `init`, and for
/// each element `x` in order, multiply by 31 and add `x`.
///
/// From `init == 0` over the code points of a string this is the polynomial
/// `sum of s[i] * 31^(n-1-i)`; from `init == 1` over the element hashes of a
/// collection it is the aggregate hash.
pub open spec fn fold31(init: i32, s: Seq<i32>) -> i32
    decreases s.len(),
{
    if s.len() == 0 {
        init
    } else {
        fold31(init, s.drop_last()).wrapping_mul(31).wrapping_add(s.last())
    }
}

/// The code points of a string, each read as a signed 32-bit integer.
pub open spec fn code_points(s: Seq<char>) -> Seq<i32> {
    s.map_values(|c: char| c as u32 as i32)
}

/// The hash of a string: the polynomial in 31 over its code points.
pub open spec fn string_hash(s: Seq<char>) -> i32 {
    fold31(0, code_points(s))
}

/// The aggregate hash of a collection whose elements hash to `hashes`, in
/// iteration order.
pub open spec fn sequence_hash(hashes: Seq<i32>) -> i32 {
    fold31(1, hashes)
}

/// The hash of a 64-bit value: its high and low words XORed together.
pub open spec fn long_hash(v: u64) -> i32 {
    (v ^ (v >> 32u64)) as i32
}

/// The bits of a 32-bit float with every NaN replaced by the canonical NaN.
pub open spec fn canonical_f32_bits(bits: u32) -> u32 {
    if bits & 0x7F80_0000 == 0x7F80_0000 && bits & 0x007F_FFFF != 0 {
        0x7FC0_0000
    } else {
        bits
    }
}

/// The bits of a 64-bit float with every NaN replaced by the canonical NaN.
pub open spec fn canonical_f64_bits(bits: u64) -> u64 {
    if bits & 0x7FF0_0000_0000_0000 == 0x7FF0_0000_0000_0000 && bits & 0x000F_FFFF_FFFF_FFFF
        != 0 {
        0x7FF8_0000_0000_0000
    } else {
        bits
    }
}

/// The `hashCode` function on all Java `Objects`
pub trait HashCode {
    /// The hash code of the value.
    spec fn spec_hash_code(&self) -> i32;

    /// Returns a Java hash code value for the object.
    ///
    /// This follows the principles of the `java.lang.Object.hashCode` method.
    fn hash_code(&self) -> (r: i32)
        ensures
            r == self.spec_hash_code(),
    ;
}

impl HashCode for i8 {
    open spec fn spec_hash_code(&self) -> i32 {
        *self as i32
    }

    fn hash_code(&self) -> (r: i32) {
        *self as i32
    }
}

/// As Java's `byte` is signed, a `u8` hashes like the `i8` of the same bits.
impl HashCode for u8 {
    open spec fn spec_hash_code(&self) -> i32 {
        *self as i8 as i32
    }

    fn hash_code(&self) -> (r: i32) {
        *self as i8 as i32
    }
}

impl HashCode for i16 {
    open spec fn spec_hash_code(&self) -> i32 {
        *self as i32
    }

    fn hash_code(&self) -> (r: i32) {
        *self as i32
    }
}

/// As Java's `short` is signed, a `u16` hashes like the `i16` of the same bits.
impl HashCode for u16 {
    open spec fn spec_hash_code(&self) -> i32 {
        *self as i16 as i32
    }

    fn hash_code(&self) -> (r: i32) {
        *self as i16 as i32
    }
}

impl HashCode for i32 {
    open spec fn spec_hash_code(&self) -> i32 {
        *self
    }

    fn hash_code(&self) -> (r: i32) {
        *self
    }
}

impl HashCode for u32 {
    open spec fn spec_hash_code(&self) -> i32 {
        *self as i32
    }

    fn hash_code(&self) -> (r: i32) {
        *self as i32
    }
}

impl HashCode for i64 {
    open spec fn spec_hash_code(&self) -> i32 {
        long_hash(*self as u64)
    }

    fn hash_code(&self) -> (r: i32) {
        (*self as u64).hash_code()
    }
}

impl HashCode for u64 {
    open spec fn spec_hash_code(&self) -> i32 {
        long_hash(*self)
    }

    fn hash_code(&self) -> (r: i32) {
        (*self ^ (*self >> 32u64)) as i32
    }
}

/// On a 64-bit target a `usize` hashes as a `long`, elsewhere as an `int`.
impl HashCode for usize {
    open spec fn spec_hash_code(&self) -> i32 {
        if vstd::layout::size_of::<usize>() == 8 {
            long_hash(*self as u64)
        } else {
            *self as i32
        }
    }

    fn hash_code(&self) -> (r: i32) {
        if core::mem::size_of::<usize>() == 8 {
            (*self as u64).hash_code()
        } else {
            *self as i32
        }
    }
}

/// On a 64-bit target an `isize` hashes as a `long`, elsewhere as an `int`.
impl HashCode for isize {
    open spec fn spec_hash_code(&self) -> i32 {
        if vstd::layout::size_of::<usize>() == 8 {
            long_hash(*self as u64)
        } else {
            *self as i32
        }
    }

    fn hash_code(&self) -> (r: i32) {
        if core::mem::size_of::<usize>() == 8 {
            (*self as u64).hash_code()
        } else {
            *self as i32
        }
    }
}

impl HashCode for bool {
    open spec fn spec_hash_code(&self) -> i32 {
        if *self {
            1231
        } else {
            1237
        }
    }

    fn hash_code(&self) -> (r: i32) {
        if *self {
            1231
        } else {
            1237
        }
    }
}

impl HashCode for char {
    open spec fn spec_hash_code(&self) -> i32 {
        *self as u32 as i32
    }

    fn hash_code(&self) -> (r: i32) {
        *self as u32 as i32
    }
}

impl HashCode for () {
    open spec fn spec_hash_code(&self) -> i32 {
        0
    }

    fn hash_code(&self) -> (r: i32) {
        0
    }
}

/// The hash of a 32-bit float given by its bits: the bits read as an `int`,
/// every NaN first replaced by the canonical NaN `0x7FC0_0000`.
pub fn hash_f32_bits(bits: u32) -> (r: i32)
    ensures
        r == canonical_f32_bits(bits) as i32,
{
    if bits & 0x7F80_0000 == 0x7F80_0000 && bits & 0x007F_FFFF != 0 {
        0x7FC0_0000u32 as i32
    } else {
        bits as i32
    }
}

/// The hash of a 64-bit float given by its bits: the two words XORed, every
/// NaN first replaced by the canonical NaN `0x7FF8_0000_0000_0000`.
pub fn hash_f64_bits(bits: u64) -> (r: i32)
    ensures
        r == long_hash(canonical_f64_bits(bits)),
{
    let v: u64 = if bits & 0x7FF0_0000_0000_0000 == 0x7FF0_0000_0000_0000 && bits
        & 0x000F_FFFF_FFFF_FFFF != 0 {
        0x7FF8_0000_0000_0000
    } else {
        bits
    };
    v.hash_code()
}

/// Each element's hash, in order.
pub open spec fn element_hashes<T: HashCode>(s: Seq<T>) -> Seq<i32> {
    s.map_values(|e: T| e.spec_hash_code())
}

/// The aggregate hash of the elements of `s` in order: starting from 1, each
/// element's hash is added to 31 times the hash so far.
pub fn hash_elements<T: HashCode>(s: &[T]) -> (r: i32)
    ensures
        r == sequence_hash(element_hashes(s@)),
{
    let mut h: i32 = 1;
    let mut i: usize = 0;
    while i < s.len()
        invariant
            i <= s@.len(),
            h == fold31(1, element_hashes(s@).take(i as int)),
        decreases s@.len() - i,
    {
        let x = s[i].hash_code();
        proof {
            let hs = element_hashes(s@);
            assert(hs.take(i + 1).drop_last() =~= hs.take(i as int));
        }
        h = h.wrapping_mul(31).wrapping_add(x);
        i = i + 1;
    }
    proof {
        assert(element_hashes(s@).take(i as int) =~= element_hashes(s@));
    }
    h
}

impl<'a, T: HashCode> HashCode for &'a [T] {
    open spec fn spec_hash_code(&self) -> i32 {
        sequence_hash(element_hashes(self@))
    }

    fn hash_code(&self) -> (r: i32) {
        hash_elements(*self)
    }
}

impl<T: HashCode> HashCode for Vec<T> {
    open spec fn spec_hash_code(&self) -> i32 {
        sequence_hash(element_hashes(self@))
    }

    fn hash_code(&self) -> (r: i32) {
        hash_elements(self.as_slice())
    }
}

impl<T: HashCode> HashCode for VecDeque<T> {
    open spec fn spec_hash_code(&self) -> i32 {
        sequence_hash(element_hashes(self@))
    }

    fn hash_code(&self) -> (r: i32) {
        let mut h: i32 = 1;
        let mut i: usize = 0;
        while i < self.len()
            invariant
                i <= self@.len(),
                h == fold31(1, element_hashes(self@).take(i as int)),
            decreases self@.len() - i,
        {
            let x = self[i].hash_code();
            proof {
                let hs = element_hashes(self@);
                assert(hs.take(i + 1).drop_last() =~= hs.take(i as int));
            }
            h = h.wrapping_mul(31).wrapping_add(x);
            i = i + 1;
        }
        proof {
            assert(element_hashes(self@).take(i as int) =~= element_hashes(self@));
        }
        h
    }
}

impl HashCode for str {
    open spec fn spec_hash_code(&self) -> i32 {
        string_hash(self@)
    }

    fn hash_code(&self) -> (r: i32) {
        let mut h: i32 = 0;
        for c in it: self.chars()
            invariant
                it.seq() == self@,
                h == fold31(0, code_points(self@).take(it.index() as int)),
        {
            let ghost i = it.index();
            proof {
                let cs = code_points(self@);
                assert(cs.take(i + 1).drop_last() =~= cs.take(i as int));
            }
            h = h.wrapping_mul(31).wrapping_add(c as u32 as i32);
        }
        proof {
            assert(code_points(self@).take(self@.len() as int) =~= code_points(self@));
        }
        h
    }
}

impl HashCode for String {
    open spec fn spec_hash_code(&self) -> i32 {
        string_hash(self@)
    }

    fn hash_code(&self) -> (r: i32) {
        self.as_str().hash_code()
    }
}

impl<'a, T: HashCode> HashCode for &'a T {
    open spec fn spec_hash_code(&self) -> i32 {
        (**self).spec_hash_code()
    }

    fn hash_code(&self) -> (r: i32) {
        (**self).hash_code()
    }
}

impl<'a, T: HashCode> HashCode for &'a mut T {
    open spec fn spec_hash_code(&self) -> i32 {
        (**self).spec_hash_code()
    }

    fn hash_code(&self) -> (r: i32) {
        (**self).hash_code()
    }
}

impl<T: HashCode> HashCode for Box<T> {
    open spec fn spec_hash_code(&self) -> i32 {
        (**self).spec_hash_code()
    }

    fn hash_code(&self) -> (r: i32) {
        (**self).hash_code()
    }
}

/// An absent value hashes to 0.
impl<'a, T: HashCode> HashCode for Option<&'a T> {
    open spec fn spec_hash_code(&self) -> i32 {
        match *self {
            Some(v) => v.spec_hash_code(),
            None => 0,
        }
    }

    fn hash_code(&self) -> (r: i32) {
        match *self {
            Some(v) => v.hash_code(),
            None => 0,
        }
    }
}

/// A pair hashes to the XOR of its members' hashes.
impl<T: HashCode, U: HashCode> HashCode for (T, U) {
    open spec fn spec_hash_code(&self) -> i32 {
        self.0.spec_hash_code() ^ self.1.spec_hash_code()
    }

    fn hash_code(&self) -> (r: i32) {
        self.0.hash_code() ^ self.1.hash_code()
    }
}

/// The empty string hashes to 0. (The converse fails: the string holding
/// the one character U+0000 hashes to 0 too.)
pub proof fn lemma_empty_string_hash(s: &str)
    requires
        s@.len() == 0,
    ensures
        s.spec_hash_code() == 0,
{
}

/// An unsigned byte hashes as the signed byte of the same bits, so 255 hashes
/// as -1.
pub proof fn lemma_unsigned_byte_hash(b: u8)
    ensures
        b.spec_hash_code() == (b as i8).spec_hash_code(),
        b == 255 ==> b.spec_hash_code() == -1,
{
    assert(b == 255u8 ==> b as i8 as i32 == -1i32) by (bit_vector);
}

/// `true` hashes to 1231 and `false` to 1237.
pub proof fn lemma_bool_hash(b: bool)
    ensures
        b ==> b.spec_hash_code() == 1231,
        !b ==> b.spec_hash_code() == 1237,
{
}

/// Every NaN of 32 bits, whatever its payload, hashes to the canonical NaN
/// read as an `int`: 2143289344.
pub proof fn lemma_f32_nan_hash(bits: u32)
    requires
        bits & 0x7F80_0000 == 0x7F80_0000,
        bits & 0x007F_FFFF != 0,
    ensures
        canonical_f32_bits(bits) as i32 == 2143289344,
{
    assert(0x7FC0_0000u32 as i32 == 2143289344i32) by (bit_vector);
}

/// Every NaN of 64 bits, whatever its payload, hashes to 2146959360.
pub proof fn lemma_f64_nan_hash(bits: u64)
    requires
        bits & 0x7FF0_0000_0000_0000 == 0x7FF0_0000_0000_0000,
        bits & 0x000F_FFFF_FFFF_FFFF != 0,
    ensures
        long_hash(canonical_f64_bits(bits)) == 2146959360,
{
    let v: u64 = 0x7FF8_0000_0000_0000;
    assert((v ^ (v >> 32u64)) as i32 == 2146959360i32) by (bit_vector)
        requires
            v == 0x7FF8_0000_0000_0000u64,
    ;
}

/// A hash depends on the value alone: equal values hash alike.
pub proof fn lemma_hash_is_pure<T: HashCode>(a: T, b: T)
    requires
        a == b,
    ensures
        a.spec_hash_code() == b.spec_hash_code(),
{
}

/// One step of Horner's rule agrees with `31 * a + x` modulo 2^32.
proof fn lemma_step_congruent(a: i32, x: i32)
    ensures
        (a.wrapping_mul(31).wrapping_add(x) - (31 * a + x)) % 0x1_0000_0000 == 0,
{
}

/// One step of Horner's rule is injective in the hash so far.
proof fn lemma_step_injective(a: i32, b: i32, x: i32)
    requires
        a.wrapping_mul(31).wrapping_add(x) == b.wrapping_mul(31).wrapping_add(x),
    ensures
        a == b,
{
    lemma_step_congruent(a, x);
    lemma_step_congruent(b, x);
    assert((31 * (a - b)) % 0x1_0000_0000 == 0);
}

/// Two steps of Horner's rule taken in either order give different results
/// unless the two elements agree in their low 31 bits.
proof fn lemma_two_steps_order(f: i32, x: i32, y: i32)
    requires
        (x - y) % 0x8000_0000 != 0,
    ensures
        f.wrapping_mul(31).wrapping_add(x).wrapping_mul(31).wrapping_add(y) != f.wrapping_mul(
            31,
        ).wrapping_add(y).wrapping_mul(31).wrapping_add(x),
{
    let p = f.wrapping_mul(31).wrapping_add(x);
    let q = f.wrapping_mul(31).wrapping_add(y);
    let pp = p.wrapping_mul(31).wrapping_add(y);
    let qq = q.wrapping_mul(31).wrapping_add(x);
    lemma_step_congruent(f, x);
    lemma_step_congruent(f, y);
    lemma_step_congruent(p, y);
    lemma_step_congruent(q, x);
    let r: int = 0x1_0000_0000;
    let k1 = (p - 31 * f - x) / r;
    let k2 = (q - 31 * f - y) / r;
    let k3 = (pp - 31 * p - y) / r;
    let k4 = (qq - 31 * q - x) / r;
    assert(p == 31 * f + x + r * k1);
    assert(q == 31 * f + y + r * k2);
    assert(pp == 31 * p + y + r * k3);
    assert(qq == 31 * q + x + r * k4);
    if pp == qq {
        let m = 31 * k2 + k4 - 31 * k1 - k3;
        assert(30 * (x - y) == r * m);
        assert(15 * (x - y) == 0x8000_0000 * m);
        assert((x - y) % 0x8000_0000 == 0) by (nonlinear_arith)
            requires
                15 * (x - y) == 0x8000_0000 * m,
        ;
    }
}

/// The hashes `s` with the elements at `i` and `i + 1` exchanged.
pub open spec fn swap_adjacent(s: Seq<i32>, i: int) -> Seq<i32> {
    s.update(i, s[i + 1]).update(i + 1, s[i])
}

proof fn lemma_swap_prefix(s: Seq<i32>, i: int, k: int)
    requires
        0 <= i,
        i + 2 <= k <= s.len(),
        (s[i] - s[i + 1]) % 0x8000_0000 != 0,
    ensures
        fold31(1, s.take(k)) != fold31(1, swap_adjacent(s, i).take(k)),
    decreases k,
{
    let t = swap_adjacent(s, i);
    if k == i + 2 {
        assert(s.take(k).drop_last().drop_last() =~= s.take(i));
        assert(t.take(k).drop_last().drop_last() =~= s.take(i));
        assert(s.take(k).drop_last() =~= s.take(i + 1));
        assert(t.take(k).drop_last() =~= t.take(i + 1));
        assert(s.take(i + 1).drop_last() =~= s.take(i));
        assert(t.take(i + 1).drop_last() =~= s.take(i));
        lemma_two_steps_order(fold31(1, s.take(i)), s[i], s[i + 1]);
    } else {
        lemma_swap_prefix(s, i, k - 1);
        assert(s.take(k).drop_last() =~= s.take(k - 1));
        assert(t.take(k).drop_last() =~= t.take(k - 1));
        if fold31(1, s.take(k)) == fold31(1, t.take(k)) {
            lemma_step_injective(fold31(1, s.take(k - 1)), fold31(1, t.take(k - 1)), s[k - 1]);
        }
    }
}

/// The aggregate hash depends on the order of the elements: exchanging two
/// neighbours changes it, unless their hashes agree in the low 31 bits (as
/// equal hashes do).
pub proof fn lemma_swap_changes_sequence_hash(hashes: Seq<i32>, i: int)
    requires
        0 <= i,
        i + 1 < hashes.len(),
        (hashes[i] - hashes[i + 1]) % 0x8000_0000 != 0,
    ensures
        sequence_hash(hashes) != sequence_hash(swap_adjacent(hashes, i)),
{
    lemma_swap_prefix(hashes, i, hashes.len() as int);
    assert(hashes.take(hashes.len() as int) =~= hashes);
    assert(swap_adjacent(hashes, i).take(hashes.len() as int) =~= swap_adjacent(hashes, i));
}

/// The polynomial `sum of s[i] * 31^(n-1-i)` over the integers, where `n` is
/// the length of `s`.
pub open spec fn polynomial31(s: Seq<i32>) -> int
    decreases s.len(),
{
    if s.len() == 0 {
        0
    } else {
        s[0] * pow(31, (s.len() - 1) as nat) + polynomial31(s.drop_first())
    }
}

/// The polynomial can be read from its last term: Horner's rule.
proof fn lemma_polynomial31_last(s: Seq<i32>)
    requires
        s.len() > 0,
    ensures
        polynomial31(s) == 31 * polynomial31(s.drop_last()) + s.last(),
    decreases s.len(),
{
    reveal(pow);
    if s.len() == 1 {
        assert(s.drop_first().len() == 0);
        assert(s.drop_last().len() == 0);
        assert(pow(31, 0) == 1);
        assert(s[0] == s.last());
        assert(polynomial31(s.drop_first()) == 0);
        assert(polynomial31(s.drop_last()) == 0);
        assert(s[0] * pow(31, 0) == s[0]) by (nonlinear_arith)
            requires
                pow(31, 0) == 1,
        ;
        assert(polynomial31(s) == s[0] * pow(31, 0) + polynomial31(s.drop_first()));
    } else {
        let t = s.drop_first();
        lemma_polynomial31_last(t);
        assert(s.drop_last().drop_first() =~= t.drop_last());
        let e = (s.len() - 1) as nat;
        assert(pow(31, e) == 31 * pow(31, (e - 1) as nat));
        assert(s[0] * pow(31, e) == 31 * (s[0] * pow(31, (e - 1) as nat))) by (nonlinear_arith)
            requires
                pow(31, e) == 31 * pow(31, (e - 1) as nat),
        ;
        assert(s.drop_last()[0] == s[0]);
        assert(t.last() == s.last());
        assert(polynomial31(s.drop_last()) == s[0] * pow(31, (e - 1) as nat) + polynomial31(
            t.drop_last(),
        ));
        assert(polynomial31(s) == s[0] * pow(31, e) + polynomial31(t));
    }
}

/// Horner's rule from 0 in wrapping arithmetic agrees with the polynomial
/// modulo 2^32.
proof fn lemma_fold31_polynomial(s: Seq<i32>)
    ensures
        (fold31(0, s) - polynomial31(s)) % 0x1_0000_0000 == 0,
    decreases s.len(),
{
    if s.len() > 0 {
        let t = s.drop_last();
        lemma_fold31_polynomial(t);
        lemma_polynomial31_last(s);
        let a = fold31(0, t);
        lemma_step_congruent(a, s.last());
        let r: int = 0x1_0000_0000;
        let k = (a - polynomial31(t)) / r;
        let j = (fold31(0, s) - (31 * a + s.last())) / r;
        assert(a - polynomial31(t) == r * k);
        assert(fold31(0, s) - (31 * a + s.last()) == r * j);
        assert(fold31(0, s) - polynomial31(s) == r * (j + 31 * k)) by (nonlinear_arith)
            requires
                a - polynomial31(t) == r * k,
                fold31(0, s) - (31 * a + s.last()) == r * j,
                polynomial31(s) == 31 * polynomial31(t) + s.last(),
        ;
    }
}

/// A string hashes to `sum of s[i] * 31^(n-1-i)` over its code points, taken
/// modulo 2^32.
pub proof fn lemma_string_hash_polynomial(s: &str)
    ensures
        (s.spec_hash_code() - polynomial31(code_points(s@))) % 0x1_0000_0000 == 0,
{
    lemma_fold31_polynomial(code_points(s@));
}

} // verus!
