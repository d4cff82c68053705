//! Conversion between bit vectors, most significant bit first, and numbers.

use vstd::arithmetic::div_mod::*;
use vstd::arithmetic::power2::*;
use vstd::prelude::*;

use crate::log2::{ceil_log2, is_ceil_log2, lemma_ceil_log2_is, lemma_pow2_monotonic};

verus! {

/// The number that `bits` spells in binary, most significant bit first.
/// The empty sequence spells 0.
pub open spec fn bits_to_nat(bits: Seq<bool>) -> nat
    decreases bits.len(),
{
    if bits.len() == 0 {
        0
    } else {
        2 * bits_to_nat(bits.drop_last()) + (if bits.last() {
            1nat
        } else {
            0nat
        })
    }
}

/// Whether the binary digit of weight `2^k` is set in `n`.
pub open spec fn bit_of(n: nat, k: nat) -> bool {
    (n / pow2(k)) % 2 == 1
}

/// The `count` low-order binary digits of `n`, most significant first.
/// Digits of `n` above the `count`-th are dropped; where `count` exceeds the
/// length of `n`, the sequence starts with zeros.
pub open spec fn nat_to_bits(n: nat, count: nat) -> Seq<bool> {
    Seq::new(count, |j: int| bit_of(n, (count - 1 - j) as nat))
}

/// The number of binary digits that `n` is written with: the least `w` with
/// `n < 2^w`. Zero is written with no digit.
pub open spec fn bit_width(n: nat) -> nat {
    ceil_log2(n + 1)
}

/// What `bits2num` returns: the number spelled by `bits`, reduced to 32 bits.
pub open spec fn spec_bits2num(bits: Seq<bool>) -> u32 {
    (bits_to_nat(bits) % 0x1_0000_0000) as u32
}

/// What `num2bits` returns.
pub open spec fn spec_num2bits(num: u32, bit_count: nat) -> Seq<bool> {
    nat_to_bits(num as nat, bit_count)
}

/// Reads `bits` as a binary number, most significant bit first. Only the
/// last 32 bits can contribute: earlier ones are shifted out.
pub fn bits2num(bits: &[bool]) -> (result: u32)
    ensures
        result == spec_bits2num(bits@),
        bits@.len() <= 32 ==> result == bits_to_nat(bits@),
{
    let mut result: u32 = 0;
    let mut i: usize = 0;
    while i < bits.len()
        invariant
            i <= bits@.len(),
            result == bits_to_nat(bits@.take(i as int)) % 0x1_0000_0000,
        decreases bits@.len() - i,
    {
        let bit: u32 = if bits[i] {
            1
        } else {
            0
        };
        proof {
            let prev = bits@.take(i as int);
            let next = bits@.take(i + 1);
            assert(next.drop_last() =~= prev);
            assert(next.last() == bits@[i as int]);
            let x = bits_to_nat(prev) as int;
            assert(bits_to_nat(next) == 2 * x + bit);
            lemma_mul_mod_noop_right(2, x, 0x1_0000_0000);
            lemma_add_mod_noop(2 * x, bit as int, 0x1_0000_0000);
            lemma_add_mod_noop(2 * (x % 0x1_0000_0000), bit as int, 0x1_0000_0000);
            assert(((result << 1) | bit) == (2 * result + bit) % 0x1_0000_0000) by (bit_vector)
                requires
                    bit == 0 || bit == 1,
            ;
        }
        result = (result << 1) | bit;
        i += 1;
    }
    proof {
        assert(bits@.take(i as int) =~= bits@);
        if bits@.len() <= 32 {
            lemma_bits_to_nat_bound(bits@);
            lemma_pow2_monotonic_32(bits@.len());
        }
    }
    result
}

/// Writes the `bit_count` low-order bits of `num`, most significant first.
pub fn num2bits(num: u32, bit_count: usize) -> (result: Vec<bool>)
    ensures
        result@ == spec_num2bits(num, bit_count as nat),
{
    let mut result: Vec<bool> = Vec::with_capacity(bit_count);
    let mut rest: u32 = num;
    let mut i: usize = 0;
    proof {
        lemma2_to64();
    }
    // Least significant bit first.
    while i < bit_count
        invariant
            i <= bit_count,
            result@.len() == i,
            rest == (num as nat) / pow2(i as nat),
            forall|k: int| 0 <= k < i ==> result@[k] == bit_of(num as nat, k as nat),
        decreases bit_count - i,
    {
        proof {
            let r = rest;
            assert(((r & 1) == 1) == (r % 2 == 1) && (r >> 1) == r / 2) by (bit_vector);
            lemma_pow2_pos(i as nat);
            lemma_pow2_unfold((i + 1) as nat);
            lemma_div_denominator(num as int, pow2(i as nat) as int, 2);
            assert(pow2(i as nat) * 2 == pow2((i + 1) as nat));
        }
        result.push((rest & 1) == 1);
        rest >>= 1;
        i += 1;
    }
    let mut lo: usize = 0;
    let ghost low_first = result@;
    while lo < bit_count / 2
        invariant
            result@.len() == bit_count,
            low_first.len() == bit_count,
            lo <= bit_count / 2,
            forall|k: int| 0 <= k < bit_count ==> low_first[k] == bit_of(num as nat, k as nat),
            forall|k: int|
                0 <= k < lo || bit_count - lo <= k < bit_count ==> #[trigger] result@[k]
                    == low_first[bit_count - 1 - k],
            forall|k: int| lo <= k < bit_count - lo ==> #[trigger] result@[k] == low_first[k],
        decreases bit_count / 2 - lo,
    {
        let hi = bit_count - 1 - lo;
        let a = result[lo];
        let b = result[hi];
        result[lo] = b;
        result[hi] = a;
        lo += 1;
    }
    proof {
        let want = spec_num2bits(num, bit_count as nat);
        assert forall|k: int| 0 <= k < bit_count implies result@[k] == want[k] by {
            assert(result@[k] == low_first[bit_count - 1 - k]);
        }
        assert(result@ =~= want);
    }
    result
}

/// Counts the binary digits of `num`.
pub fn bit_len(num: u32) -> (width: usize)
    ensures
        width == bit_width(num as nat),
        width <= 32,
        num < pow2(width as nat),
        width > 0 ==> pow2((width - 1) as nat) <= num,
{
    let mut width: usize = 0;
    let mut rest: u32 = num;
    proof {
        lemma2_to64();
    }
    while rest > 0
        invariant
            width <= 32,
            rest == (num as nat) / pow2(width as nat),
            width > 0 ==> pow2((width - 1) as nat) <= num,
        decreases rest,
    {
        proof {
            let r = rest;
            assert((r >> 1) == r / 2) by (bit_vector);
            let p = pow2(width as nat);
            lemma_pow2_pos(width as nat);
            lemma_pow2_unfold((width + 1) as nat);
            lemma_div_denominator(num as int, p as int, 2);
            lemma_fundamental_div_mod(num as int, p as int);
            lemma_mod_bound(num as int, p as int);
            assert(p * (num as int / p as int) >= p) by (nonlinear_arith)
                requires
                    num as int / p as int >= 1,
                    p > 0,
            ;
            if width >= 32 {
                lemma2_to64();
                lemma_pow2_monotonic(32, width as nat);
            }
        }
        rest >>= 1;
        width += 1;
    }
    proof {
        let p = pow2(width as nat);
        lemma_pow2_pos(width as nat);
        lemma_fundamental_div_mod(num as int, p as int);
        lemma_mod_bound(num as int, p as int);
        assert(is_ceil_log2((num + 1) as nat, width as nat));
        lemma_ceil_log2_is((num + 1) as nat, width as nat);
    }
    width
}

/// A bit vector of length `k` spells a number below `2^k`.
pub proof fn lemma_bits_to_nat_bound(bits: Seq<bool>)
    ensures
        bits_to_nat(bits) < pow2(bits.len()),
    decreases bits.len(),
{
    if bits.len() == 0 {
        lemma2_to64();
    } else {
        lemma_bits_to_nat_bound(bits.drop_last());
        lemma_pow2_unfold(bits.len());
    }
}

/// Dropping the lowest digit of a number shifts every other digit down by one.
pub proof fn lemma_bit_of_half(n: nat, k: nat)
    ensures
        bit_of(n, k + 1) == bit_of(n / 2, k),
        bit_of(n, 0) == (n % 2 == 1),
{
    lemma2_to64();
    lemma_pow2_pos(k);
    lemma_pow2_unfold(k + 1);
    lemma_div_denominator(n as int, 2, pow2(k) as int);
}

/// Writing out the number that a bit vector spells, at the vector's own
/// length, gives the vector back.
pub proof fn lemma_nat_to_bits_of_bits(bits: Seq<bool>)
    ensures
        nat_to_bits(bits_to_nat(bits), bits.len()) == bits,
    decreases bits.len(),
{
    let n = bits_to_nat(bits);
    let len = bits.len();
    if len > 0 {
        let front = bits.drop_last();
        lemma_nat_to_bits_of_bits(front);
        let written = nat_to_bits(n, len);
        assert forall|j: int| 0 <= j < len implies written[j] == bits[j] by {
            lemma_bit_of_half(n, (len - 2 - j) as nat);
            if j < len - 1 {
                assert(nat_to_bits(bits_to_nat(front), front.len())[j] == front[j]);
            }
        }
    }
    assert(nat_to_bits(n, len) =~= bits);
}

/// Reading back the `count` digits written for `n` gives `n` without its
/// digits above the `count`-th.
pub proof fn lemma_bits_of_nat(n: nat, count: nat)
    ensures
        bits_to_nat(nat_to_bits(n, count)) == n % pow2(count),
    decreases count,
{
    lemma2_to64();
    if count > 0 {
        let written = nat_to_bits(n, count);
        let front = nat_to_bits(n / 2, (count - 1) as nat);
        assert forall|j: int| 0 <= j < count - 1 implies written.drop_last()[j] == front[j] by {
            lemma_bit_of_half(n, (count - 2 - j) as nat);
        }
        assert(written.drop_last() =~= front);
        lemma_bit_of_half(n, 0);
        lemma_bits_of_nat(n / 2, (count - 1) as nat);
        lemma_pow2_pos((count - 1) as nat);
        lemma_pow2_unfold(count);
        lemma_mod_breakdown(n as int, 2, pow2((count - 1) as nat) as int);
    }
}

/// The number spelled by two bit vectors written one after the other.
pub proof fn lemma_bits_to_nat_concat(high: Seq<bool>, low: Seq<bool>)
    ensures
        bits_to_nat(high + low) == bits_to_nat(high) * pow2(low.len()) + bits_to_nat(low),
    decreases low.len(),
{
    lemma2_to64();
    if low.len() == 0 {
        assert(high + low =~= high);
    } else {
        assert((high + low).drop_last() =~= high + low.drop_last());
        lemma_bits_to_nat_concat(high, low.drop_last());
        lemma_pow2_unfold(low.len());
        let h = bits_to_nat(high) as int;
        let p = pow2((low.len() - 1) as nat) as int;
        assert(2 * (h * p) == h * (2 * p)) by (nonlinear_arith);
    }
}

/// The leading and the trailing part of the digits written for a number are
/// the digits of its quotient and of the number itself.
pub proof fn lemma_nat_to_bits_split(n: nat, high: nat, low: nat)
    ensures
        nat_to_bits(n, high + low).subrange(0, high as int) == nat_to_bits(n / pow2(low), high),
        nat_to_bits(n, high + low).subrange(high as int, (high + low) as int) == nat_to_bits(
            n,
            low,
        ),
{
    let all = nat_to_bits(n, high + low);
    let head = all.subrange(0, high as int);
    let tail = all.subrange(high as int, (high + low) as int);
    assert forall|j: int| 0 <= j < high implies head[j] == nat_to_bits(n / pow2(low), high)[j] by {
        let k = (high - 1 - j) as nat;
        lemma_pow2_pos(low);
        lemma_pow2_pos(k);
        lemma_pow2_adds(low, k);
        lemma_div_denominator(n as int, pow2(low) as int, pow2(k) as int);
    }
    assert(head =~= nat_to_bits(n / pow2(low), high));
    assert(tail =~= nat_to_bits(n, low));
}

/// Reading a bit vector and writing the number out again at the same length
/// gives the vector back, as long as the number it spells fits in 32 bits.
/// Every vector of at most 32 bits does; a longer one does when all but its
/// last 32 bits are zero.
pub proof fn lemma_num2bits_of_bits2num(bits: Seq<bool>)
    requires
        bits.len() <= 32 || bits_to_nat(bits) < 0x1_0000_0000,
    ensures
        spec_num2bits(spec_bits2num(bits), bits.len()) == bits,
{
    if bits.len() <= 32 {
        lemma_bits_to_nat_bound(bits);
        lemma_pow2_monotonic_32(bits.len());
    }
    lemma_nat_to_bits_of_bits(bits);
}

/// Writing a number at `bit_count` bits and reading it back keeps its
/// `bit_count` low-order bits: the number itself when it is below
/// `2^bit_count`.
pub proof fn lemma_bits2num_of_num2bits(num: u32, bit_count: nat)
    ensures
        spec_bits2num(spec_num2bits(num, bit_count)) == num as nat % pow2(bit_count),
        num < pow2(bit_count) ==> spec_bits2num(spec_num2bits(num, bit_count)) == num,
{
    lemma_bits_of_nat(num as nat, bit_count);
    lemma_pow2_pos(bit_count);
    lemma_mod_bound(num as int, pow2(bit_count) as int);
    lemma_mod_decreases(num as nat, pow2(bit_count));
    if num < pow2(bit_count) {
        lemma_small_mod(num as nat, pow2(bit_count));
    }
}

proof fn lemma_pow2_monotonic_32(k: nat)
    requires
        k <= 32,
    ensures
        pow2(k) <= 0x1_0000_0000,
{
    lemma2_to64();
    if k < 32 {
        lemma_pow2_strictly_increases(k, 32);
    }
}

} // verus!
