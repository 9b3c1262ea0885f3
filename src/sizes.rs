//! Divisors of image sizes, for laying shapes out on a grid.
use vstd::prelude::*;

verus! {

/// The pairs `(d, a / d)` for the divisors `d` of `a` from `k` down to 1.
pub open spec fn divs_down(a: u32, k: nat) -> Seq<(u32, u32)>
    decreases k,
{
    if k == 0 {
        Seq::empty()
    } else {
        let here: Seq<(u32, u32)> = if a % (k as u32) == 0 {
            seq![(k as u32, a / (k as u32))]
        } else {
            Seq::empty()
        };
        here + divs_down(a, (k - 1) as nat)
    }
}

/// The divisors `d` of `a` up to `a / 2`, largest first, each with `a / d`.
pub fn get_divs(a: u32) -> (res: Vec<(u32, u32)>)
    ensures
        res@ == divs_down(a, (a / 2) as nat),
{
    let mut res: Vec<(u32, u32)> = Vec::new();
    let mut d: u32 = a / 2;
    while d > 0
        invariant
            d <= a / 2,
            res@ + divs_down(a, d as nat) == divs_down(a, (a / 2) as nat),
        decreases d,
    {
        let ghost before = res@;
        if a % d == 0 {
            res.push((d, a / d));
        }
        assert(before + divs_down(a, d as nat) =~= res@ + divs_down(a, (d - 1) as nat));
        d = d - 1;
    }
    assert(res@ + divs_down(a, 0) =~= res@);
    res
}

/// The entries `(b / d, (a / (b / d), d))` for the divisors `d` of `b`, from `k`
/// down to 1, for which `b / d` divides `a`.
pub open spec fn same_res_down(a: u32, b: u32, k: nat) -> Seq<(u32, (u32, u32))>
    decreases k,
{
    if k == 0 {
        Seq::empty()
    } else {
        let d = k as u32;
        let here: Seq<(u32, (u32, u32))> = if b % d == 0 && a % (b / d) == 0 {
            seq![(b / d, (a / (b / d), d))]
        } else {
            Seq::empty()
        };
        here + same_res_down(a, b, (k - 1) as nat)
    }
}

proof fn lemma_same_res_bounds(a: u32, b: u32, k: nat, i: int)
    requires
        0 <= i < same_res_down(a, b, k).len(),
        k <= b / 2,
    ensures
        same_res_down(a, b, k)[i].1.1 <= k,
        same_res_down(a, b, k)[i].1.1 >= 1,
        b % same_res_down(a, b, k)[i].1.1 == 0,
        same_res_down(a, b, k)[i].0 == b / same_res_down(a, b, k)[i].1.1,
    decreases k,
{
    if k > 0 {
        let d = k as u32;
        assert(b / d >= 1) by (nonlinear_arith)
            requires
                1 <= d <= b / 2,
        ;
        let rest = same_res_down(a, b, (k - 1) as nat);
        let s = same_res_down(a, b, k);
        if b % d == 0 && a % (b / d) == 0 {
            let e: (u32, (u32, u32)) = (b / d, (a / (b / d), d));
            let here: Seq<(u32, (u32, u32))> = seq![e];
            assert(here.len() == 1);
            assert(s == here + rest);
            if i == 0 {
                assert(s[0] == here[0]);
            } else {
                lemma_same_res_bounds(a, b, (k - 1) as nat, i - 1);
                assert(s[i] == rest[i - 1]);
            }
        } else {
            assert(s =~= rest);
            lemma_same_res_bounds(a, b, (k - 1) as nat, i);
        }
    }
}

proof fn lemma_quotient_decreases(b: u32, d1: u32, d2: u32)
    requires
        1 <= d2 < d1,
        b % d1 == 0,
        b % d2 == 0,
        b >= 1,
    ensures
        b / d1 < b / d2,
{
    let q1 = b / d1;
    let q2 = b / d2;
    assert(b == d1 * q1) by {
        vstd::arithmetic::div_mod::lemma_fundamental_div_mod(b as int, d1 as int);
    }
    assert(b == d2 * q2) by {
        vstd::arithmetic::div_mod::lemma_fundamental_div_mod(b as int, d2 as int);
    }
    assert(q1 < q2) by (nonlinear_arith)
        requires
            b == d1 * q1,
            b == d2 * q2,
            1 <= d2 < d1,
            b >= 1,
            q1 >= 0,
            q2 >= 0,
    ;
}

/// The ways to cut an `a` by `b` area into equal squares of side at least 2:
/// for each divisor `d` of `b` up to `b / 2` such that the side `b / d` divides
/// `a`, the side with the count of columns and of rows (`d`); ordered by side,
/// smallest first.
pub fn get_same_res_divs(a: u32, b: u32) -> (res: Vec<(u32, (u32, u32))>)
    ensures
        res@ == same_res_down(a, b, (b / 2) as nat),
        forall|i: int, j: int| 0 <= i < j < res@.len() ==> #[trigger] res@[i].0 < #[trigger] res@[j].0,
{
    let mut res: Vec<(u32, (u32, u32))> = Vec::new();
    let mut d: u32 = b / 2;
    while d > 0
        invariant
            d <= b / 2,
            res@ + same_res_down(a, b, d as nat) == same_res_down(a, b, (b / 2) as nat),
        decreases d,
    {
        let ghost before = res@;
        assert(b / d >= 1) by (nonlinear_arith)
            requires
                1 <= d <= b / 2,
        ;
        if b % d == 0 && a % (b / d) == 0 {
            res.push((b / d, (a / (b / d), d)));
        }
        assert(before + same_res_down(a, b, d as nat) =~= res@ + same_res_down(
            a,
            b,
            (d - 1) as nat,
        ));
        d = d - 1;
    }
    assert(res@ + same_res_down(a, b, 0) =~= res@);
    proof {
        lemma_same_res_sorted(a, b, (b / 2) as nat);
    }
    res
}

proof fn lemma_same_res_sorted(a: u32, b: u32, k: nat)
    requires
        k <= b / 2,
    ensures
        forall|i: int, j: int|
            0 <= i < j < same_res_down(a, b, k).len() ==> #[trigger] same_res_down(a, b, k)[i].0
                < #[trigger] same_res_down(a, b, k)[j].0,
    decreases k,
{
    if k > 0 {
        let s = same_res_down(a, b, k);
        let rest = same_res_down(a, b, (k - 1) as nat);
        lemma_same_res_sorted(a, b, (k - 1) as nat);
        let d = k as u32;
        assert(b / d >= 1) by (nonlinear_arith)
            requires
                1 <= d <= b / 2,
        ;
        if b % d == 0 && a % (b / d) == 0 {
            let here: Seq<(u32, (u32, u32))> = seq![(b / d, (a / (b / d), d))];
            assert(s == here + rest);
            assert forall|i: int, j: int| 0 <= i < j < s.len() implies #[trigger] s[i].0
                < #[trigger] s[j].0 by {
                if i == 0 {
                    assert(s[j] == rest[j - 1]);
                    lemma_same_res_bounds(a, b, (k - 1) as nat, j - 1);
                    lemma_quotient_decreases(b, d, rest[j - 1].1.1);
                } else {
                    assert(s[i] == rest[i - 1]);
                    assert(s[j] == rest[j - 1]);
                }
            }
        } else {
            assert(s =~= rest);
        }
    }
}

} // verus!
