use vstd::arithmetic::mul::lemma_mul_inequality;
use vstd::arithmetic::mul::lemma_mul_strict_inequality;
use vstd::prelude::*;

verus! {

// ---------------------------------------------------------------------------
// A termination measure for the backtracking search.
//
// The trail of tentative assignments is abstracted to the sequence of digits
// it has placed, one digit in [1, 9] per entry. Reading the trail as a
// base-11 numeral — entry `i` contributes digit `10 - cs[i]`, and every slot
// beyond the trail contributes the pad digit 10 — gives a value that strictly
// shrinks on each move the search can make:
//   * extending the trail with a fresh digit turns a pad 10 into at most 9;
//   * backtracking to depth `j` and retrying a strictly larger digit shrinks
//     the digit at `j` by more than everything deeper can add back.
// The search therefore terminates: no trail state is ever revisited.
// ---------------------------------------------------------------------------

/// `11^m`.
pub open spec fn pow11(m: nat) -> int
    decreases m,
{
    if m == 0 {
        1
    } else {
        11 * pow11((m - 1) as nat)
    }
}

/// Every digit of the sequence is in `[1, 9]`.
pub open spec fn digits_wf(cs: Seq<u8>) -> bool {
    forall|k: int| 0 <= k < cs.len() ==> 1 <= #[trigger] cs[k] <= 9
}

/// The base-11 reading of a trail of at most `n` digits, padded to width `n`
/// with the digit 10.
pub open spec fn phi(cs: Seq<u8>, n: nat) -> int
    decreases n,
{
    if n == 0 {
        0
    } else {
        let d: int = if cs.len() > 0 {
            10 - cs[0]
        } else {
            10
        };
        let rest: Seq<u8> = if cs.len() > 0 {
            cs.drop_first()
        } else {
            cs
        };
        d * pow11((n - 1) as nat) + phi(rest, (n - 1) as nat)
    }
}

pub proof fn lemma_pow11_pos(m: nat)
    ensures
        pow11(m) >= 1,
    decreases m,
{
    if m > 0 {
        lemma_pow11_pos((m - 1) as nat);
    }
}

/// An empty trail padded to width `n` reads as `11^n - 1`.
pub proof fn lemma_phi_empty(n: nat)
    ensures
        phi(Seq::<u8>::empty(), n) == pow11(n) - 1,
    decreases n,
{
    if n > 0 {
        lemma_phi_empty((n - 1) as nat);
        lemma_pow11_pos((n - 1) as nat);
    }
}

/// The measure of any well-formed trail of at most `n` digits lies in
/// `[0, 11^n - 1]`.
pub proof fn lemma_phi_bounds(cs: Seq<u8>, n: nat)
    requires
        digits_wf(cs),
        cs.len() <= n,
    ensures
        0 <= phi(cs, n) <= pow11(n) - 1,
    decreases n,
{
    if n > 0 {
        let p = pow11((n - 1) as nat);
        lemma_pow11_pos((n - 1) as nat);
        if cs.len() > 0 {
            let d: int = 10 - cs[0];
            assert(digits_wf(cs.drop_first()));
            lemma_phi_bounds(cs.drop_first(), (n - 1) as nat);
            lemma_mul_inequality(1, d, p);
            lemma_mul_inequality(d, 10, p);
        } else {
            lemma_phi_bounds(cs, (n - 1) as nat);
        }
    }
}

/// Extending the trail with a fresh digit strictly shrinks the measure.
pub proof fn lemma_phi_push(cs: Seq<u8>, c: u8, n: nat)
    requires
        digits_wf(cs),
        1 <= c <= 9,
        cs.len() < n,
    ensures
        phi(cs.push(c), n) < phi(cs, n),
    decreases n,
{
    let p = pow11((n - 1) as nat);
    lemma_pow11_pos((n - 1) as nat);
    if cs.len() == 0 {
        assert(cs.push(c).drop_first() =~= cs);
        assert(cs.push(c)[0] == c);
        lemma_mul_strict_inequality(10 - c, 10, p);
    } else {
        assert(cs.push(c).drop_first() =~= cs.drop_first().push(c));
        assert(digits_wf(cs.drop_first()));
        assert(cs.push(c)[0] == cs[0]);
        lemma_phi_push(cs.drop_first(), c, (n - 1) as nat);
    }
}

/// Cutting the trail back to depth `j` and retrying a strictly larger digit
/// strictly shrinks the measure.
pub proof fn lemma_phi_retry(cs: Seq<u8>, j: int, c: u8, n: nat)
    requires
        digits_wf(cs),
        cs.len() <= n,
        0 <= j < cs.len(),
        cs[j] < c <= 9,
    ensures
        phi(cs.subrange(0, j).push(c), n) < phi(cs, n),
    decreases j,
{
    let new = cs.subrange(0, j).push(c);
    let p = pow11((n - 1) as nat);
    lemma_pow11_pos((n - 1) as nat);
    if j == 0 {
        assert(new[0] == c);
        assert(new.drop_first() =~= Seq::<u8>::empty());
        lemma_phi_empty((n - 1) as nat);
        assert(digits_wf(cs.drop_first()));
        lemma_phi_bounds(cs.drop_first(), (n - 1) as nat);
        lemma_mul_inequality(11 - c, 10 - cs[0], p);
        assert(phi(new, n) == (10 - c) * p + pow11((n - 1) as nat) - 1);
        assert((10 - c) * p + p == (11 - c) * p) by (nonlinear_arith);
    } else {
        assert(new[0] == cs[0]);
        assert(new.drop_first() =~= cs.drop_first().subrange(0, j - 1).push(c));
        assert(digits_wf(cs.drop_first()));
        lemma_phi_retry(cs.drop_first(), j - 1, c, (n - 1) as nat);
    }
}

} // verus!
