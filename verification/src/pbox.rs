//! The permutation box: a fixed reordering of the bits of a vector, with the
//! opposite reordering derived when the box is built.

use vstd::prelude::*;
use vstd::seq_lib::seq_to_set_is_finite;
use vstd::set_lib::{lemma_int_range, lemma_subset_equality, set_int_range};

use crate::error::Error;

verus! {

/// `p` lists every position from 1 to its length exactly once, and is at
/// most 32 long. The empty sequence qualifies.
pub open spec fn valid_permutation(p: Seq<u32>) -> bool {
    &&& p.len() <= 32
    &&& forall|i: int| 0 <= i < p.len() ==> 1 <= #[trigger] p[i] <= p.len()
    &&& forall|i: int, j: int| 0 <= i < j < p.len() ==> p[i] != p[j]
}

/// The place, counted from 1, of the last of the first `k` items of `p` that
/// equals `v`; 0 where none of them does.
pub open spec fn last_position(p: Seq<u32>, v: int, k: nat) -> nat
    decreases k,
{
    if k == 0 {
        0
    } else if p[k - 1] == v {
        k
    } else {
        last_position(p, v, (k - 1) as nat)
    }
}

/// The opposite reordering as it stands when the first `k` items of `p` have
/// been entered.
pub open spec fn inverse_permutation_upto(p: Seq<u32>, k: nat) -> Seq<u32> {
    Seq::new(p.len(), |pos: int| last_position(p, pos + 1, k) as u32)
}

/// The opposite reordering: at the place that `p` sends a position to, it
/// holds that position, both counted from 1.
pub open spec fn inverse_permutation(p: Seq<u32>) -> Seq<u32> {
    inverse_permutation_upto(p, p.len())
}

/// The vector whose bit at place `p[i] - 1` is the bit of `bits` at place
/// `i`, for every `i`: each place of the result takes the bit of the place
/// that the opposite reordering names.
pub open spec fn permute(p: Seq<u32>, bits: Seq<bool>) -> Seq<bool> {
    Seq::new(bits.len(), |pos: int| bits[inverse_permutation(p)[pos] - 1])
}

/// Whether the bit for position `k + 1` is set in the mask of positions
/// that were seen.
pub open spec fn is_marked(used: u32, k: u32) -> bool {
    used & (1u32 << k) != 0
}

proof fn lemma_mark(used: u32, b: u32, k: u32)
    requires
        b < 32,
        k < 32,
    ensures
        is_marked(used | (1u32 << b), k) == (is_marked(used, k) || k == b),
        !is_marked(0, k),
{
    assert(((used | (1u32 << b)) & (1u32 << k) != 0) == ((used & (1u32 << k) != 0) || k == b))
        by (bit_vector)
        requires
            b < 32,
            k < 32,
    ;
    assert(0u32 & (1u32 << k) == 0) by (bit_vector);
}

/// A permutation box: a valid permutation and the opposite one, derived from
/// it once. It is never changed after it is built.
pub struct PBox {
    permutation: Vec<u32>,
    inverse_permutation: Vec<u32>,
}

impl View for PBox {
    type V = Seq<u32>;

    /// The forward permutation.
    closed spec fn view(&self) -> Seq<u32> {
        self.permutation@
    }
}

impl PBox {
    /// The stored opposite permutation.
    pub closed spec fn inverse_view(&self) -> Seq<u32> {
        self.inverse_permutation@
    }

    /// What holds of every box: its permutation is valid, and the one it
    /// decrypts with is the opposite of it.
    #[verifier::type_invariant]
    pub open spec fn wf(&self) -> bool {
        &&& valid_permutation(self@)
        &&& self.inverse_view() == inverse_permutation(self@)
    }

    /// Builds a box from `permutation`, which is checked first.
    pub fn new(permutation: Vec<u32>) -> (result: Result<PBox, Error>)
        ensures
            match result {
                Ok(pbox) => valid_permutation(permutation@) && pbox@ == permutation@ && pbox.wf(),
                Err(e) => !valid_permutation(permutation@) && e == Error::InvalidPermutation,
            },
    {
        if !Self::is_permutation(permutation.as_slice()) {
            return Err(Error::InvalidPermutation);
        }
        let inverse_permutation = Self::reverse_permutation(permutation.as_slice());
        Ok(PBox { inverse_permutation, permutation })
    }

    /// Derives the opposite permutation.
    fn reverse_permutation(permutation: &[u32]) -> (reverse_permutation: Vec<u32>)
        requires
            valid_permutation(permutation@),
        ensures
            reverse_permutation@ == inverse_permutation(permutation@),
    {
        let ghost p = permutation@;
        let n = permutation.len();
        let mut reverse_permutation: Vec<u32> = vec![0u32; n];
        assert(reverse_permutation@ =~= inverse_permutation_upto(p, 0));
        let mut i: usize = 0;
        while i < n
            invariant
                p == permutation@,
                valid_permutation(p),
                n == p.len(),
                i <= n,
                reverse_permutation@ == inverse_permutation_upto(p, i as nat),
            decreases n - i,
        {
            let num = permutation[i];
            reverse_permutation[num as usize - 1] = i as u32 + 1;
            assert(reverse_permutation@ =~= inverse_permutation_upto(p, (i + 1) as nat));
            i += 1;
        }
        reverse_permutation
    }

    /// Moves each bit of `bits` to the place that `permutation` names for it.
    fn transform(bits: &[bool], permutation: &[u32]) -> (result: Result<Vec<bool>, Error>)
        requires
            valid_permutation(permutation@),
        ensures
            match result {
                Ok(out) => bits@.len() == permutation@.len() && out@ == permute(
                    permutation@,
                    bits@,
                ),
                Err(e) => bits@.len() != permutation@.len() && e == Error::InvalidInputLength,
            },
    {
        let ghost p = permutation@;
        let n = bits.len();
        if n != permutation.len() {
            return Err(Error::InvalidInputLength);
        }
        let mut result: Vec<bool> = vec![false; n];
        let mut i: usize = 0;
        while i < n
            invariant
                p == permutation@,
                valid_permutation(p),
                n == p.len(),
                n == bits@.len(),
                result@.len() == n,
                i <= n,
                forall|a: int| 0 <= a < i ==> result@[#[trigger] p[a] - 1] == bits@[a],
            decreases n - i,
        {
            result[(permutation[i] - 1) as usize] = bits[i];
            i += 1;
        }
        proof {
            lemma_inverse_permutation(p);
            let q = inverse_permutation(p);
            assert forall|pos: int| 0 <= pos < n implies result@[pos] == permute(p, bits@)[pos] by {
                let a = q[pos] - 1;
                assert(p[a] - 1 == pos);
            }
            assert(result@ =~= permute(p, bits@));
        }
        Ok(result)
    }

    /// Reorders `bits`, which must be as long as the permutation, by the
    /// forward permutation.
    pub fn encrypt(&self, bits: &[bool]) -> (result: Result<Vec<bool>, Error>)
        ensures
            match result {
                Ok(out) => bits@.len() == self@.len() && out@ == permute(self@, bits@),
                Err(e) => bits@.len() != self@.len() && e == Error::InvalidInputLength,
            },
    {
        proof {
            use_type_invariant(self);
        }
        Self::transform(bits, self.permutation.as_slice())
    }

    /// Reorders `bits`, which must be as long as the permutation, by the
    /// opposite permutation.
    pub fn decrypt(&self, bits: &[bool]) -> (result: Result<Vec<bool>, Error>)
        ensures
            match result {
                Ok(out) => bits@.len() == self@.len() && out@ == permute(
                    inverse_permutation(self@),
                    bits@,
                ),
                Err(e) => bits@.len() != self@.len() && e == Error::InvalidInputLength,
            },
    {
        proof {
            use_type_invariant(self);
            lemma_inverse_permutation(self@);
        }
        Self::transform(bits, self.inverse_permutation.as_slice())
    }

    /// Whether `permutation` can make a box.
    pub fn is_permutation(permutation: &[u32]) -> (ok: bool)
        ensures
            ok == valid_permutation(permutation@),
    {
        let ghost p = permutation@;
        let n = permutation.len();
        if !(n <= 32) {
            return false;
        }
        let mut used: u32 = 0u32;
        let mut i: usize = 0;
        proof {
            assert forall|k: u32| k < 32 implies !#[trigger] is_marked(used, k) by {
                lemma_mark(used, 0, k);
            }
        }
        while i < n
            invariant
                p == permutation@,
                n == p.len(),
                n <= 32,
                i <= n,
                forall|a: int| 0 <= a < i ==> 1 <= #[trigger] p[a] <= n,
                forall|a: int, b: int| 0 <= a < b < i ==> p[a] != p[b],
                forall|k: u32|
                    k < 32 ==> (#[trigger] is_marked(used, k) <==> exists|a: int|
                        0 <= a < i && #[trigger] p[a] == k + 1),
            decreases n - i,
        {
            let num = permutation[i];
            if n < num as usize || num == 0 {
                return false;
            }
            let bit_num = 1u32 << (num - 1);
            if (used & bit_num) != 0 {
                proof {
                    assert(is_marked(used, (num - 1) as u32));
                    let a = choose|a: int| 0 <= a < i && #[trigger] p[a] == num;
                    assert(p[a] == p[i as int]);
                }
                return false;
            }
            proof {
                assert(!is_marked(used, (num - 1) as u32));
                assert forall|k: u32| k < 32 implies (#[trigger] is_marked(used | bit_num, k)
                    <==> exists|a: int| 0 <= a < i + 1 && #[trigger] p[a] == k + 1) by {
                    lemma_mark(used, (num - 1) as u32, k);
                    if k == num - 1 {
                        assert(p[i as int] == k + 1);
                    }
                    if is_marked(used, k) {
                        let a = choose|a: int| 0 <= a < i && #[trigger] p[a] == k + 1;
                        assert(0 <= a < i + 1 && p[a] == k + 1);
                    }
                }
            }
            used |= bit_num;
            i += 1;
        }
        true
    }
}

/// The place that `last_position` names, if any, lies among the first `k`
/// and holds `v`.
pub proof fn lemma_last_position_found(p: Seq<u32>, v: int, k: nat)
    requires
        k <= p.len(),
    ensures
        last_position(p, v, k) <= k,
        last_position(p, v, k) > 0 ==> p[last_position(p, v, k) - 1] == v,
        last_position(p, v, k) == 0 ==> forall|i: int| 0 <= i < k ==> p[i] != v,
    decreases k,
{
    if k > 0 && p[k - 1] != v {
        lemma_last_position_found(p, v, (k - 1) as nat);
    }
}

/// In a valid permutation an item is found at its own place and no other.
pub proof fn lemma_last_position_of_item(p: Seq<u32>, i: int, k: nat)
    requires
        valid_permutation(p),
        0 <= i < k <= p.len(),
    ensures
        last_position(p, p[i] as int, k) == i + 1,
    decreases k,
{
    if p[k - 1] != p[i] {
        lemma_last_position_of_item(p, i, (k - 1) as nat);
    }
}

/// A valid permutation leaves no position out.
pub proof fn lemma_every_position_occurs(p: Seq<u32>, v: int)
    requires
        valid_permutation(p),
        1 <= v <= p.len(),
    ensures
        exists|i: int| 0 <= i < p.len() && p[i] == v,
{
    let n = p.len() as int;
    let items = Seq::new(p.len(), |i: int| p[i] as int);
    assert(items.no_duplicates());
    items.unique_seq_to_set();
    seq_to_set_is_finite(items);
    lemma_int_range(1, n + 1);
    let all = set_int_range(1, n + 1);
    assert forall|x: int| items.to_set().contains(x) implies all.contains(x) by {
        let i = choose|i: int| 0 <= i < items.len() && items[i] == x;
        assert(1 <= p[i] <= n);
    }
    lemma_subset_equality(items.to_set(), all);
    assert(all.contains(v));
    assert(items.contains(v));
    let i = choose|i: int| 0 <= i < items.len() && items[i] == v;
    assert(p[i] == v);
}

/// The opposite of a valid permutation is a valid permutation, each undoes
/// the other, and the opposite of the opposite is the permutation itself.
pub proof fn lemma_inverse_permutation(p: Seq<u32>)
    requires
        valid_permutation(p),
    ensures
        valid_permutation(inverse_permutation(p)),
        inverse_permutation(p).len() == p.len(),
        forall|i: int| 0 <= i < p.len() ==> inverse_permutation(p)[#[trigger] p[i] - 1] == i + 1,
        forall|k: int|
            0 <= k < p.len() ==> p[#[trigger] inverse_permutation(p)[k] - 1] == k + 1,
        inverse_permutation(inverse_permutation(p)) == p,
{
    let n = p.len();
    let q = inverse_permutation(p);
    assert forall|i: int| 0 <= i < n implies q[#[trigger] p[i] - 1] == i + 1 by {
        lemma_last_position_of_item(p, i, n);
    }
    assert forall|k: int| 0 <= k < n implies 1 <= #[trigger] q[k] <= n && p[q[k] - 1] == k + 1 by {
        lemma_every_position_occurs(p, k + 1);
        lemma_last_position_found(p, k + 1, n);
    }
    assert forall|a: int, b: int| 0 <= a < b < n implies q[a] != q[b] by {
        assert(p[q[a] - 1] == a + 1);
        assert(p[q[b] - 1] == b + 1);
    }
    assert(valid_permutation(q));
    let back = inverse_permutation(q);
    assert forall|i: int| 0 <= i < n implies back[i] == p[i] by {
        let k = p[i] - 1;
        assert(q[k] == i + 1);
        lemma_last_position_of_item(q, k, n);
    }
    assert(back =~= p);
}

/// Reordering moves the bit at place `i` to place `p[i] - 1`.
pub proof fn lemma_permute_places(p: Seq<u32>, bits: Seq<bool>)
    requires
        valid_permutation(p),
        bits.len() == p.len(),
    ensures
        permute(p, bits).len() == bits.len(),
        forall|i: int| 0 <= i < p.len() ==> permute(p, bits)[#[trigger] p[i] - 1] == bits[i],
{
    lemma_inverse_permutation(p);
}

/// Decrypting what a box encrypted gives the input back.
pub proof fn lemma_decrypt_encrypt(pbox: PBox, bits: Seq<bool>)
    requires
        pbox.wf(),
        bits.len() == pbox@.len(),
    ensures
        permute(inverse_permutation(pbox@), permute(pbox@, bits)) == bits,
{
    let p = pbox@;
    lemma_inverse_permutation(p);
    let q = inverse_permutation(p);
    let there = permute(p, bits);
    let back = permute(q, there);
    assert forall|pos: int| 0 <= pos < bits.len() implies back[pos] == bits[pos] by {
        assert(q[p[pos] - 1] == pos + 1);
    }
    assert(back =~= bits);
}

/// Encrypting what a box decrypted gives the input back.
pub proof fn lemma_encrypt_decrypt(pbox: PBox, bits: Seq<bool>)
    requires
        pbox.wf(),
        bits.len() == pbox@.len(),
    ensures
        permute(pbox@, permute(inverse_permutation(pbox@), bits)) == bits,
{
    let p = pbox@;
    lemma_inverse_permutation(p);
    let q = inverse_permutation(p);
    let there = permute(q, bits);
    let back = permute(p, there);
    assert forall|pos: int| 0 <= pos < bits.len() implies back[pos] == bits[pos] by {
        assert(p[q[pos] - 1] == pos + 1);
    }
    assert(back =~= bits);
}

} // verus!
