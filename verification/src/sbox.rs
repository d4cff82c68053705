//! The substitution box: a lookup table on fixed-width bit groups, with the
//! table of the opposite direction derived when the box is built.

use vstd::arithmetic::div_mod::*;
use vstd::arithmetic::power2::*;
use vstd::prelude::*;
use vstd::seq_lib::seq_to_set_is_finite;
use vstd::set_lib::{lemma_int_range, lemma_subset_equality, set_int_range};

use crate::bits::{
    bit_len, bit_width, bits2num, bits_to_nat, lemma_bits_of_nat, lemma_bits_to_nat_bound,
    lemma_bits_to_nat_concat, lemma_nat_to_bits_of_bits, lemma_nat_to_bits_split, nat_to_bits,
    num2bits,
};
use crate::error::Error;
use crate::log2::{
    ceil_log2, is_ceil_log2, is_power_of_two, lemma_ceil_log2, lemma_ceil_log2_halves,
    lemma_ceil_log2_is, lemma_pow2_monotonic, lemma_power_of_two_iff,
};

verus! {

/// The number of columns: the length of the first row, 0 without rows.
pub open spec fn cols(t: Seq<Seq<u32>>) -> nat {
    if t.len() == 0 {
        0
    } else {
        t[0].len()
    }
}

/// The number of bits that select a row.
pub open spec fn row_bits(t: Seq<Seq<u32>>) -> nat {
    ceil_log2(t.len())
}

/// The number of bits that select a column.
pub open spec fn col_bits(t: Seq<Seq<u32>>) -> nat {
    ceil_log2(cols(t))
}

/// The number of bits of a cell address, which is also the length of the bit
/// vectors that the table maps from and to.
pub open spec fn width(t: Seq<Seq<u32>>) -> nat {
    row_bits(t) + col_bits(t)
}

/// Every row is as long as the first.
pub open spec fn is_rectangular(t: Seq<Seq<u32>>) -> bool {
    forall|i: int| 0 <= i < t.len() ==> (#[trigger] t[i]).len() == cols(t)
}

/// `w` is the largest number of bits that any entry is written with; it is 0
/// for a table without entries.
pub open spec fn is_max_bits(t: Seq<Seq<u32>>, w: nat) -> bool {
    &&& forall|i: int, j: int|
        0 <= i < t.len() && 0 <= j < t[i].len() ==> bit_width(#[trigger] t[i][j] as nat) <= w
    &&& w == 0 || exists|i: int, j: int|
        0 <= i < t.len() && 0 <= j < t[i].len() && bit_width(#[trigger] t[i][j] as nat) == w
}

/// What a table must meet to make a box: both dimensions are powers of two,
/// all rows have the same length, and the widest entry needs exactly as many
/// bits as a cell address has.
pub open spec fn valid_table(t: Seq<Seq<u32>>) -> bool {
    &&& is_power_of_two(t.len())
    &&& is_power_of_two(cols(t))
    &&& is_rectangular(t)
    &&& is_max_bits(t, width(t))
}

/// The entry of the cell with number `c`, the cells counted row by row from 0.
pub open spec fn entry(t: Seq<Seq<u32>>, c: int) -> u32 {
    t[c / cols(t) as int][c % cols(t) as int]
}

/// The number of the last cell, among the first `k`, whose entry is `a`;
/// 0 where none of them holds `a`.
pub open spec fn last_cell_holding(t: Seq<Seq<u32>>, a: int, k: nat) -> nat
    decreases k,
{
    if k == 0 {
        0
    } else if entry(t, k - 1) == a {
        (k - 1) as nat
    } else {
        last_cell_holding(t, a, (k - 1) as nat)
    }
}

/// The table of the opposite direction as it stands when the first `k` cells
/// of `t` have been entered: the cell with number `a` holds the number of the
/// last of those cells whose entry is `a`.
pub open spec fn inverse_upto(t: Seq<Seq<u32>>, k: nat) -> Seq<Seq<u32>> {
    Seq::new(
        t.len(),
        |o: int| Seq::new(cols(t), |mi: int| last_cell_holding(t, o * cols(t) + mi, k) as u32),
    )
}

/// The table of the opposite direction: the cell with number `a` holds the
/// number of the last cell of `t` whose entry is `a`, and 0 where `t` holds
/// `a` nowhere.
pub open spec fn inverse_of(t: Seq<Seq<u32>>) -> Seq<Seq<u32>> {
    inverse_upto(t, t.len() * cols(t))
}

/// What a table needs for a lookup to stay inside it: both dimensions are
/// powers of two, all rows have the same length, and a cell address has at
/// most 32 bits. A valid table has this shape, and so has the table derived
/// from it.
pub open spec fn well_shaped(t: Seq<Seq<u32>>) -> bool {
    &&& is_power_of_two(t.len())
    &&& is_power_of_two(cols(t))
    &&& is_rectangular(t)
    &&& width(t) <= 32
}

/// What the table `t` turns the bit vector `bits` into: the leading
/// `row_bits(t)` bits spell the row, the others the column, and the entry
/// found there is written out at the width of a cell address.
pub open spec fn sbox_transform(t: Seq<Seq<u32>>, bits: Seq<bool>) -> Seq<bool> {
    let outer = bits_to_nat(bits.subrange(0, row_bits(t) as int));
    let middle = bits_to_nat(bits.subrange(row_bits(t) as int, bits.len() as int));
    nat_to_bits(t[outer as int][middle as int] as nat, width(t))
}

/// No two cells of the table hold the same entry.
pub open spec fn has_distinct_entries(t: Seq<Seq<u32>>) -> bool {
    forall|c: int, d: int|
        0 <= c < t.len() * cols(t) && 0 <= d < t.len() * cols(t) && entry(t, c) == entry(t, d)
            ==> c == d
}

/// Some cell of the table holds the entry `a`.
pub open spec fn holds(t: Seq<Seq<u32>>, a: int) -> bool {
    exists|c: int| 0 <= c < t.len() * cols(t) && #[trigger] entry(t, c) == a
}

/// Every cell number is the entry of some cell.
pub open spec fn holds_every_address(t: Seq<Seq<u32>>) -> bool {
    forall|a: int| 0 <= a < t.len() * cols(t) ==> #[trigger] holds(t, a)
}

/// The table is a one-to-one mapping of the cell numbers onto themselves.
/// The constructor does not demand this: it is what the caller has to
/// provide for `decrypt` to undo `encrypt`.
pub open spec fn is_bijective(t: Seq<Seq<u32>>) -> bool {
    has_distinct_entries(t) && holds_every_address(t)
}

/// A substitution box: a valid table and the table of the opposite
/// direction, derived from it once. It is never changed after it is built.
pub struct SBox {
    table: Vec<Vec<u32>>,
    inverse_table: Vec<Vec<u32>>,
}

impl View for SBox {
    type V = Seq<Seq<u32>>;

    /// The forward table.
    closed spec fn view(&self) -> Seq<Seq<u32>> {
        self.table.deep_view()
    }
}

impl SBox {
    /// The stored table of the opposite direction.
    pub closed spec fn inverse_view(&self) -> Seq<Seq<u32>> {
        self.inverse_table.deep_view()
    }

    /// What holds of every box: its table is valid, and the table it
    /// decrypts with is the one derived from it.
    #[verifier::type_invariant]
    pub open spec fn wf(&self) -> bool {
        &&& valid_table(self@)
        &&& self.inverse_view() == inverse_of(self@)
    }

    /// Builds a box from `table`, which is checked first, and derives the
    /// table of the opposite direction.
    ///
    /// Whether `table` is a bijection is not checked. Where it is not, the
    /// box is built all the same, and `decrypt` does not undo `encrypt`:
    /// under an entry that occurs twice the last of its cells is filed, and
    /// under a number that occurs nowhere cell 0.
    pub fn new(table: Vec<Vec<u32>>) -> (result: Result<SBox, Error>)
        ensures
            match result {
                Ok(sbox) => valid_table(table.deep_view()) && sbox@ == table.deep_view()
                    && sbox.wf(),
                Err(e) => !valid_table(table.deep_view()) && e == Error::InvalidTable,
            },
    {
        if !Self::check_table(&table) {
            return Err(Error::InvalidTable);
        }
        let inverse_table = Self::reverse_table(&table);
        Ok(SBox { inverse_table, table })
    }

    /// Looks `bits` up in `table`.
    fn transform(bits: &[bool], table: &Vec<Vec<u32>>) -> (result: Result<Vec<bool>, Error>)
        requires
            well_shaped(table.deep_view()),
        ensures
            match result {
                Ok(out) => bits@.len() == width(table.deep_view()) && out@ == sbox_transform(
                    table.deep_view(),
                    bits@,
                ),
                Err(e) => bits@.len() != width(table.deep_view()) && e
                    == Error::InvalidInputLength,
            },
    {
        let ghost t = table.deep_view();
        proof {
            lemma_well_shaped(t);
        }
        let outer_bits_count = Self::ceil_log(table.len());
        let result_bits_count = outer_bits_count + Self::ceil_log(table[0].len());
        if bits.len() != result_bits_count {
            return Err(Error::InvalidInputLength);
        }
        let (outer_bits, middle_bits) = bits.split_at(outer_bits_count);
        proof {
            lemma_bits_to_nat_bound(outer_bits@);
            lemma_bits_to_nat_bound(middle_bits@);
        }
        let outer = bits2num(outer_bits) as usize;
        let middle = bits2num(middle_bits) as usize;
        assert(t[outer as int].len() == cols(t));
        Ok(num2bits(table[outer][middle], result_bits_count))
    }

    /// Substitutes `bits`, which must be as long as a cell address, by the
    /// forward table.
    pub fn encrypt(&self, bits: &[bool]) -> (result: Result<Vec<bool>, Error>)
        ensures
            match result {
                Ok(out) => bits@.len() == width(self@) && out@ == sbox_transform(self@, bits@),
                Err(e) => bits@.len() != width(self@) && e == Error::InvalidInputLength,
            },
    {
        proof {
            use_type_invariant(self);
            lemma_valid_table(self@);
        }
        Self::transform(bits, &self.table)
    }

    /// Substitutes `bits`, which must be as long as a cell address, by the
    /// derived table.
    pub fn decrypt(&self, bits: &[bool]) -> (result: Result<Vec<bool>, Error>)
        ensures
            match result {
                Ok(out) => bits@.len() == width(self@) && out@ == sbox_transform(
                    inverse_of(self@),
                    bits@,
                ),
                Err(e) => bits@.len() != width(self@) && e == Error::InvalidInputLength,
            },
    {
        proof {
            use_type_invariant(self);
            lemma_inverse_shape(self@);
        }
        Self::transform(bits, &self.inverse_table)
    }

    /// The least number of bits that can tell `num` values apart: the least
    /// `c` with `num <= 2^c`. It is 0 for 0 and for 1.
    pub fn ceil_log(num: usize) -> (res: usize)
        ensures
            res == ceil_log2(num as nat),
            is_ceil_log2(num as nat, res as nat),
            res <= usize::BITS,
    {
        let mut res: usize = 0;
        let mut rest: usize = num;
        proof {
            lemma_ceil_log2(num as nat);
            lemma2_to64();
            lemma2_to64_rest();
            assert(num as nat <= pow2(usize::BITS as nat));
        }
        while rest > 1
            invariant
                res + ceil_log2(rest as nat) == ceil_log2(num as nat),
                ceil_log2(num as nat) <= usize::BITS,
            decreases rest,
        {
            proof {
                let r = rest;
                assert((r >> 1) == r / 2 && (r & 1) == r % 2) by (bit_vector);
                lemma_ceil_log2_halves(rest as nat);
            }
            res += 1;
            rest = (rest >> 1) + (rest & 1);
        }
        proof {
            lemma2_to64();
            lemma_ceil_log2_is(rest as nat, 0);
        }
        res
    }

    /// The largest number of bits that any entry of `table` is written with.
    pub fn max_bits(table: &Vec<Vec<u32>>) -> (result: usize)
        ensures
            is_max_bits(table.deep_view(), result as nat),
            result <= 32,
    {
        let ghost t = table.deep_view();
        let mut result: usize = 0;
        let mut i: usize = 0;
        while i < table.len()
            invariant
                t == table.deep_view(),
                i <= table.len(),
                result <= 32,
                forall|a: int, b: int|
                    0 <= a < i && 0 <= b < t[a].len() ==> bit_width(#[trigger] t[a][b] as nat)
                        <= result,
                result == 0 || exists|a: int, b: int|
                    0 <= a < i && 0 <= b < t[a].len() && bit_width(#[trigger] t[a][b] as nat)
                        == result,
            decreases table.len() - i,
        {
            let row = &table[i];
            let mut j: usize = 0;
            while j < row.len()
                invariant
                    t == table.deep_view(),
                    i < table.len(),
                    row@ == t[i as int],
                    j <= row.len(),
                    result <= 32,
                    forall|a: int, b: int|
                        (0 <= a < i && 0 <= b < t[a].len()) || (a == i && 0 <= b < j)
                            ==> bit_width(#[trigger] t[a][b] as nat) <= result,
                    result == 0 || exists|a: int, b: int|
                        ((0 <= a < i && 0 <= b < t[a].len()) || (a == i && 0 <= b < j))
                            && bit_width(#[trigger] t[a][b] as nat) == result,
                decreases row.len() - j,
            {
                let bits = bit_len(row[j]);
                if bits > result {
                    result = bits;
                    assert(bit_width(t[i as int][j as int] as nat) == result);
                }
                j += 1;
            }
            i += 1;
        }
        result
    }

    /// Whether `num`, whose ceiling logarithm is `log`, is a power of two.
    fn is_exact_power(num: usize, log: usize) -> (exact: bool)
        requires
            log == ceil_log2(num as nat),
        ensures
            exact == is_power_of_two(num as nat),
    {
        proof {
            lemma_power_of_two_iff(num as nat);
            lemma2_to64();
            lemma2_to64_rest();
        }
        if log >= usize::BITS as usize {
            proof {
                lemma_pow2_monotonic(usize::BITS as nat, log as nat);
            }
            false
        } else {
            proof {
                vstd::bits::lemma_usize_pow2_no_overflow(log as nat);
                vstd::bits::lemma_usize_shl_is_mul(1usize, log);
            }
            num == (1usize << log)
        }
    }

    /// Whether `table` can make a box.
    pub fn check_table(table: &Vec<Vec<u32>>) -> (ok: bool)
        ensures
            ok == valid_table(table.deep_view()),
    {
        let ghost t = table.deep_view();
        let n = table.len();
        if n == 0 {
            proof {
                lemma_power_of_two_iff(0);
                lemma_pow2_pos(ceil_log2(0));
            }
            return false;
        }
        let row_count_bits = Self::ceil_log(n);
        if !Self::is_exact_power(n, row_count_bits) {
            return false;
        }
        let m = table[0].len();
        if m == 0 {
            proof {
                lemma_power_of_two_iff(0);
                lemma_pow2_pos(ceil_log2(0));
            }
            return false;
        }
        let col_count_bits = Self::ceil_log(m);
        if !Self::is_exact_power(m, col_count_bits) {
            return false;
        }
        let mut i: usize = 0;
        while i < n
            invariant
                t == table.deep_view(),
                n == table.len(),
                m == cols(t),
                i <= n,
                forall|a: int| 0 <= a < i ==> (#[trigger] t[a]).len() == m,
            decreases n - i,
        {
            if table[i].len() != m {
                assert(t[i as int].len() != cols(t));
                return false;
            }
            i += 1;
        }
        let result_bits_count = Self::max_bits(table);
        proof {
            if is_max_bits(t, width(t)) {
                lemma_is_max_bits_unique(t, width(t), result_bits_count as nat);
            }
        }
        result_bits_count == row_count_bits + col_count_bits
    }

    /// Derives the table of the opposite direction.
    pub fn reverse_table(table: &Vec<Vec<u32>>) -> (result: Vec<Vec<u32>>)
        requires
            valid_table(table.deep_view()),
        ensures
            result.deep_view() == inverse_of(table.deep_view()),
    {
        let ghost t = table.deep_view();
        let result_bits_count = Self::max_bits(table);
        let n = table.len();
        proof {
            lemma_valid_table(t);
            lemma_is_max_bits_unique(t, width(t), result_bits_count as nat);
        }
        let m = table[0].len();
        let row_count_bits = Self::ceil_log(n);
        let col_count_bits = Self::ceil_log(m);

        let mut result: Vec<Vec<u32>> = vec![vec![0u32; m]; n];
        assert(result.deep_view() =~~= inverse_upto(t, 0));
        let mut i: usize = 0;
        while i < n
            invariant
                t == table.deep_view(),
                valid_table(t),
                n == t.len(),
                m == cols(t),
                row_count_bits == row_bits(t),
                col_count_bits == col_bits(t),
                result_bits_count == width(t),
                i <= n,
                result.deep_view() == inverse_upto(t, (i * m) as nat),
            decreases n - i,
        {
            let mut j: usize = 0;
            while j < m
                invariant
                    t == table.deep_view(),
                    valid_table(t),
                    n == t.len(),
                    m == cols(t),
                    row_count_bits == row_bits(t),
                    col_count_bits == col_bits(t),
                    result_bits_count == width(t),
                    i < n,
                    j <= m,
                    result.deep_view() == inverse_upto(t, (i * m + j) as nat),
                decreases m - j,
            {
                assert(t[i as int].len() == m);
                let value = table[i][j];
                let bits = num2bits(value, result_bits_count);
                let (outer_bits, middle_bits) = bits.as_slice().split_at(row_count_bits);
                let outer = bits2num(outer_bits) as usize;
                let middle = bits2num(middle_bits) as usize;
                proof {
                    lemma_valid_table(t);
                    lemma_cell_number(t, i as int, j as int);
                    assert(value == t[i as int][j as int]);
                    lemma_address_of(t, value as nat);
                    assert(outer == value as nat / cols(t));
                    assert(middle == value as nat % cols(t));
                    let shape = result.deep_view();
                    assert(shape.len() == n && shape[outer as int].len() == m);
                    lemma_entered(t, (i * m + j) as nat);
                    vstd::bits::lemma_u64_shl_is_mul(1u64, col_count_bits as u64);
                    let (iw, jw, cw) = (i as u64, j as u64, col_count_bits as u64);
                    assert(((iw << cw) | jw) == iw * (1u64 << cw) + jw) by (bit_vector)
                        requires
                            cw <= 32,
                            iw <= 0xffff_ffff,
                            jw < (1u64 << cw),
                    ;
                }
                let cell = (((i as u64) << col_count_bits) | (j as u64)) as u32;
                let ghost before = result.deep_view();
                result[outer][middle] = cell;
                proof {
                    assert(result.deep_view() =~~= before.update(
                        outer as int,
                        before[outer as int].update(middle as int, cell),
                    ));
                    assert((i * m + j) + 1 == i * m + (j + 1));
                }
                j += 1;
            }
            proof {
                assert((i + 1) * m == i * m + m) by (nonlinear_arith);
            }
            i += 1;
        }
        result
    }
}

/// A table has one largest entry width.
pub proof fn lemma_is_max_bits_unique(t: Seq<Seq<u32>>, v: nat, w: nat)
    requires
        is_max_bits(t, v),
        is_max_bits(t, w),
    ensures
        v == w,
{
}

/// An entry that is written with at most `w` bits is below `2^w`.
pub proof fn lemma_bit_width_bound(e: nat, w: nat)
    requires
        bit_width(e) <= w,
    ensures
        e < pow2(w),
{
    lemma_ceil_log2(e + 1);
    lemma_pow2_monotonic(bit_width(e), w);
}

/// In a valid table the dimensions are the powers of two of their bit
/// counts, a cell address has at most 32 bits, and every entry is below the
/// number of cells.
pub proof fn lemma_valid_table(t: Seq<Seq<u32>>)
    requires
        valid_table(t),
    ensures
        t.len() == pow2(row_bits(t)),
        cols(t) == pow2(col_bits(t)),
        t.len() * cols(t) == pow2(width(t)),
        t.len() > 0,
        cols(t) > 0,
        width(t) <= 32,
        t.len() * cols(t) <= 0x1_0000_0000,
        forall|i: int, j: int|
            0 <= i < t.len() && 0 <= j < cols(t) ==> (#[trigger] t[i][j]) < t.len() * cols(t),
{
    lemma_power_of_two_iff(t.len());
    lemma_power_of_two_iff(cols(t));
    lemma_pow2_adds(row_bits(t), col_bits(t));
    lemma_pow2_pos(row_bits(t));
    lemma_pow2_pos(col_bits(t));
    lemma2_to64();
    let w = width(t);
    if w > 0 {
        let (i, j) = choose|i: int, j: int|
            0 <= i < t.len() && 0 <= j < t[i].len() && bit_width(#[trigger] t[i][j] as nat) == w;
        lemma_ceil_log2((t[i][j] + 1) as nat);
        if w > 32 {
            lemma_pow2_monotonic(32, (w - 1) as nat);
        }
    }
    lemma_pow2_monotonic(w, 32);
    assert forall|i: int, j: int| 0 <= i < t.len() && 0 <= j < cols(t) implies (#[trigger] t[i][j])
        < t.len() * cols(t) by {
        lemma_bit_width_bound(t[i][j] as nat, w);
    }
}

/// The cell in row `i` and column `j` has the number `i * cols + j`.
pub proof fn lemma_cell_number(t: Seq<Seq<u32>>, i: int, j: int)
    requires
        0 <= i,
        0 <= j < cols(t),
    ensures
        (i * cols(t) + j) / cols(t) as int == i,
        (i * cols(t) + j) % cols(t) as int == j,
        entry(t, i * cols(t) + j) == t[i][j],
        i < t.len() ==> 0 <= i * cols(t) + j < t.len() * cols(t),
{
    let m = cols(t) as int;
    lemma_fundamental_div_mod_converse(i * m + j, m, i, j);
    if i < t.len() {
        let n = t.len() as int;
        assert(0 <= i * m && i * m + m <= n * m) by (nonlinear_arith)
            requires
                0 <= i < n,
                0 < m,
        ;
    }
}

/// The address that an entry is filed under: written at the table's width,
/// its leading bits spell the row `a / cols` and the others the column
/// `a % cols`.
pub proof fn lemma_address_of(t: Seq<Seq<u32>>, a: nat)
    requires
        valid_table(t),
        a < t.len() * cols(t),
    ensures
        a / cols(t) < t.len(),
        a % cols(t) < cols(t),
        (a / cols(t)) * cols(t) + a % cols(t) == a,
        bits_to_nat(nat_to_bits(a, width(t)).subrange(0, row_bits(t) as int)) == a / cols(t),
        bits_to_nat(nat_to_bits(a, width(t)).subrange(row_bits(t) as int, width(t) as int)) == a
            % cols(t),
        row_bits(t) <= 32,
        col_bits(t) <= 32,
{
    lemma_valid_table(t);
    let n = t.len();
    let m = cols(t);
    lemma_fundamental_div_mod(a as int, m as int);
    lemma_mod_bound(a as int, m as int);
    lemma_div_pos_is_pos(a as int, m as int);
    let q = a / m;
    assert(q < n) by (nonlinear_arith)
        requires
            m * q <= a,
            a < n * m,
            0 < m,
    ;
    assert(q * m == m * q) by (nonlinear_arith);
    lemma_nat_to_bits_split(a, row_bits(t), col_bits(t));
    lemma_bits_of_nat(q, row_bits(t));
    lemma_bits_of_nat(a, col_bits(t));
    lemma_small_mod(q, n);
}

/// Entering one more cell changes the derived table in one place: under the
/// address that the cell's entry spells, the cell's own number is filed.
pub proof fn lemma_entered(t: Seq<Seq<u32>>, c: nat)
    requires
        valid_table(t),
        c < t.len() * cols(t),
    ensures
        ({
            let a = entry(t, c as int) as int;
            let row = a / cols(t) as int;
            let col = a % cols(t) as int;
            &&& 0 <= row < t.len()
            &&& 0 <= col < cols(t)
            &&& inverse_upto(t, c + 1) == inverse_upto(t, c).update(
                row,
                inverse_upto(t, c)[row].update(col, c as u32),
            )
        }),
{
    lemma_valid_table(t);
    let m = cols(t) as int;
    let n = t.len() as int;
    lemma_fundamental_div_mod(c as int, m);
    lemma_mod_bound(c as int, m);
    lemma_div_pos_is_pos(c as int, m);
    let ci = c as int / m;
    let cj = c as int % m;
    assert(ci < n) by (nonlinear_arith)
        requires
            m * ci <= c,
            c < n * m,
            0 < m,
    ;
    let a = entry(t, c as int) as int;
    assert(a == t[ci][cj]);
    lemma_address_of(t, a as nat);
    let row = a / m;
    let col = a % m;
    let old_table = inverse_upto(t, c);
    let new_table = inverse_upto(t, c + 1);
    let want = old_table.update(row, old_table[row].update(col, c as u32));
    assert forall|o: int, mi: int| 0 <= o < n && 0 <= mi < m implies #[trigger] new_table[o][mi]
        == want[o][mi] by {
        lemma_fundamental_div_mod_converse(o * m + mi, m, o, mi);
    }
    assert(new_table =~~= want);
}

/// In a table of the right shape the dimensions are the powers of two of
/// their bit counts, neither of which exceeds 32.
pub proof fn lemma_well_shaped(t: Seq<Seq<u32>>)
    requires
        well_shaped(t),
    ensures
        t.len() == pow2(row_bits(t)),
        cols(t) == pow2(col_bits(t)),
        t.len() > 0,
        cols(t) > 0,
{
    lemma_power_of_two_iff(t.len());
    lemma_power_of_two_iff(cols(t));
    lemma_pow2_pos(row_bits(t));
    lemma_pow2_pos(col_bits(t));
}

/// The table derived from a valid table has the dimensions of that table,
/// and so the shape that a lookup needs.
pub proof fn lemma_inverse_shape(t: Seq<Seq<u32>>)
    requires
        valid_table(t),
    ensures
        inverse_of(t).len() == t.len(),
        cols(inverse_of(t)) == cols(t),
        width(inverse_of(t)) == width(t),
        row_bits(inverse_of(t)) == row_bits(t),
        well_shaped(inverse_of(t)),
{
    lemma_valid_table(t);
    let inv = inverse_of(t);
    assert(inv[0].len() == cols(t));
    assert forall|i: int| 0 <= i < inv.len() implies (#[trigger] inv[i]).len() == cols(inv) by {}
}

/// Where no entry occurs twice, the last cell that holds an entry is the
/// only one.
pub proof fn lemma_last_cell_holding(t: Seq<Seq<u32>>, c: int, k: nat)
    requires
        has_distinct_entries(t),
        0 <= c < k <= t.len() * cols(t),
    ensures
        last_cell_holding(t, entry(t, c) as int, k) == c,
    decreases k,
{
    if entry(t, k - 1) == entry(t, c) {
        assert(k - 1 == c);
    } else {
        lemma_last_cell_holding(t, c, (k - 1) as nat);
    }
}

/// Where some cell holds `a`, the derived table files a cell that does.
pub proof fn lemma_last_cell_holds(t: Seq<Seq<u32>>, a: int, k: nat)
    requires
        exists|c: int| 0 <= c < k && entry(t, c) == a,
    ensures
        0 <= last_cell_holding(t, a, k) < k,
        entry(t, last_cell_holding(t, a, k) as int) == a,
{
    let c = choose|c: int| 0 <= c < k && entry(t, c) == a;
    lemma_last_cell_holding_found(t, a, k, c);
}

proof fn lemma_last_cell_holding_found(t: Seq<Seq<u32>>, a: int, k: nat, c: int)
    requires
        0 <= c < k,
        entry(t, c) == a,
    ensures
        0 <= last_cell_holding(t, a, k) < k,
        entry(t, last_cell_holding(t, a, k) as int) == a,
    decreases k,
{
    if entry(t, k - 1) != a {
        lemma_last_cell_holding_found(t, a, (k - 1) as nat, c);
    }
}

/// A valid table without repeated entries holds every cell number: for a
/// valid table, to have distinct entries and to be a bijection is the same.
pub proof fn lemma_distinct_entries_cover(t: Seq<Seq<u32>>)
    requires
        valid_table(t),
        has_distinct_entries(t),
    ensures
        is_bijective(t),
{
    lemma_valid_table(t);
    let m = cols(t) as int;
    let n = t.len() as int;
    let cells = n * m;
    let items = Seq::new(cells as nat, |c: int| entry(t, c) as int);
    assert(items.no_duplicates());
    items.unique_seq_to_set();
    seq_to_set_is_finite(items);
    lemma_int_range(0, cells);
    let all = set_int_range(0, cells);
    assert forall|x: int| items.to_set().contains(x) implies all.contains(x) by {
        let c = choose|c: int| 0 <= c < items.len() && items[c] == x;
        lemma_fundamental_div_mod(c, m);
        lemma_mod_bound(c, m);
        lemma_div_pos_is_pos(c, m);
        let ci = c / m;
        assert(ci < n) by (nonlinear_arith)
            requires
                m * ci <= c,
                c < n * m,
                0 < m,
        ;
        assert(t[ci][c % m] < cells);
    }
    lemma_subset_equality(items.to_set(), all);
    assert forall|a: int| 0 <= a < cells implies #[trigger] holds(t, a) by {
        assert(all.contains(a));
        assert(items.contains(a));
        let c = choose|c: int| 0 <= c < items.len() && items[c] == a;
        assert(0 <= c < cells && entry(t, c) == a);
    }
}

/// A bit vector as long as a cell address spells a cell number, and the
/// table turns it into the bits of that cell's entry.
pub proof fn lemma_transform_is_lookup(t: Seq<Seq<u32>>, bits: Seq<bool>)
    requires
        well_shaped(t),
        bits.len() == width(t),
    ensures
        bits_to_nat(bits) < t.len() * cols(t),
        sbox_transform(t, bits) == nat_to_bits(entry(t, bits_to_nat(bits) as int) as nat, width(t)),
{
    lemma_well_shaped(t);
    let m = cols(t);
    let high = bits.subrange(0, row_bits(t) as int);
    let low = bits.subrange(row_bits(t) as int, bits.len() as int);
    assert(bits =~= high + low);
    lemma_bits_to_nat_concat(high, low);
    lemma_bits_to_nat_bound(high);
    lemma_bits_to_nat_bound(low);
    lemma_bits_to_nat_bound(bits);
    lemma_pow2_adds(row_bits(t), col_bits(t));
    let x = bits_to_nat(bits);
    lemma_fundamental_div_mod_converse(
        x as int,
        m as int,
        bits_to_nat(high) as int,
        bits_to_nat(low) as int,
    );
}

/// Decrypting what a box encrypted gives the input back, provided that the
/// box's table is a bijection. That no entry occurs twice is all that the
/// proof uses of it.
pub proof fn lemma_decrypt_encrypt(sbox: SBox, bits: Seq<bool>)
    requires
        sbox.wf(),
        is_bijective(sbox@),
        bits.len() == width(sbox@),
    ensures
        sbox_transform(inverse_of(sbox@), sbox_transform(sbox@, bits)) == bits,
{
    lemma_decrypt_encrypt_distinct(sbox@, bits);
}

/// Encrypting what a box decrypted gives the input back, provided that the
/// box's table is a bijection. That every cell number occurs in the table is
/// all that the proof uses of it.
pub proof fn lemma_encrypt_decrypt(sbox: SBox, bits: Seq<bool>)
    requires
        sbox.wf(),
        is_bijective(sbox@),
        bits.len() == width(sbox@),
    ensures
        sbox_transform(sbox@, sbox_transform(inverse_of(sbox@), bits)) == bits,
{
    let t = sbox@;
    let inv = inverse_of(t);
    let m = cols(t) as int;
    let n = t.len() as int;
    lemma_valid_table(t);
    lemma_inverse_shape(t);
    lemma_transform_is_lookup(inv, bits);
    let x = bits_to_nat(bits);
    // The derived table files, under the number that `bits` spells, a cell
    // that holds that number.
    lemma_address_of(t, x);
    assert(holds(t, x as int));
    lemma_last_cell_holds(t, x as int, (n * m) as nat);
    let c = last_cell_holding(t, x as int, (n * m) as nat);
    assert(entry(inv, x as int) == c);
    let mid = nat_to_bits(c, width(t));
    assert(mid == sbox_transform(inv, bits));
    lemma_transform_is_lookup(t, mid);
    lemma_bits_of_nat(c, width(t));
    lemma_small_mod(c, pow2(width(t)));
    lemma_nat_to_bits_of_bits(bits);
}

/// The table derived from a valid table without repeated entries maps what
/// the table made of a bit vector back to that vector.
pub proof fn lemma_decrypt_encrypt_distinct(t: Seq<Seq<u32>>, bits: Seq<bool>)
    requires
        valid_table(t),
        has_distinct_entries(t),
        bits.len() == width(t),
    ensures
        sbox_transform(inverse_of(t), sbox_transform(t, bits)) == bits,
{
    let inv = inverse_of(t);
    let m = cols(t) as int;
    lemma_valid_table(t);
    lemma_inverse_shape(t);
    lemma_transform_is_lookup(t, bits);
    let x = bits_to_nat(bits);
    let e = entry(t, x as int);
    // The entry found for `bits` is itself a cell number.
    lemma_fundamental_div_mod(x as int, m);
    lemma_mod_bound(x as int, m);
    lemma_div_pos_is_pos(x as int, m);
    let n = t.len() as int;
    let xi = x as int / m;
    assert(xi < n) by (nonlinear_arith)
        requires
            m * xi <= x,
            x < n * m,
            0 < m,
    ;
    assert(e == t[xi][x as int % m]);
    assert(e < n * m);
    let mid = nat_to_bits(e as nat, width(t));
    assert(mid == sbox_transform(t, bits));
    // Under that number the derived table files the cell that `bits` spells.
    lemma_transform_is_lookup(inv, mid);
    lemma_bits_of_nat(e as nat, width(t));
    lemma_small_mod(e as nat, pow2(width(t)));
    assert(bits_to_nat(mid) == e);
    lemma_address_of(t, e as nat);
    lemma_last_cell_holding(t, x as int, (n * m) as nat);
    assert(entry(inv, e as int) == x);
    lemma_nat_to_bits_of_bits(bits);
}

} // verus!
