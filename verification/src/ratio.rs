//! Exact comparisons of objective values.
//!
//! An objective value is a non-negative rational `num / den` (total pairwise
//! cost over solution size).  Comparisons cross-multiply in `u128`, which is
//! exact as long as the operands stay under the generous bounds below; every
//! total the engine can build fits with room to spare.

use vstd::prelude::*;

verus! {

/// Largest numerator (a total pairwise cost) the comparators accept: 2^100.
pub const NUM_MAX: u128 = 0x10000000000000000000000000;

/// Largest denominator (a solution size) the comparators accept: 2^20.
pub const DEN_MAX: u128 = 0x100000;

/// Transitivity of the exact rational order for non-negative values.
pub proof fn lemma_ratio_ge_trans(an: int, ad: int, bn: int, bd: int, cn: int, cd: int)
    requires
        ad >= 1,
        bd >= 1,
        cd >= 1,
        bn >= 0,
        an * bd >= bn * ad,
        bn * cd >= cn * bd,
    ensures
        an * cd >= cn * ad,
{
    assert(an * cd * bd >= cn * ad * bd ==> an * cd >= cn * ad) by (nonlinear_arith)
        requires bd >= 1,
    ;
    assert(an * cd * bd >= cn * ad * bd) by (nonlinear_arith)
        requires
            ad >= 1,
            bd >= 1,
            cd >= 1,
            bn >= 0,
            an * bd >= bn * ad,
            bn * cd >= cn * bd,
    ;
}

/// Strict transitivity: at least as good as something strictly better.
pub proof fn lemma_ratio_gt_trans(an: int, ad: int, bn: int, bd: int, cn: int, cd: int)
    requires
        ad >= 1,
        bd >= 1,
        cd >= 1,
        bn >= 0,
        an * bd >= bn * ad,
        bn * cd > cn * bd,
    ensures
        an * cd > cn * ad,
{
    assert(an * cd * bd > cn * ad * bd ==> an * cd > cn * ad) by (nonlinear_arith)
        requires bd >= 1,
    ;
    assert(an * cd * bd > cn * ad * bd) by (nonlinear_arith)
        requires
            ad >= 1,
            bd >= 1,
            cd >= 1,
            bn >= 0,
            an * bd >= bn * ad,
            bn * cd > cn * bd,
    ;
}

/// `an / ad > bn / bd`, exactly.
pub fn ratio_gr(an: u128, ad: u128, bn: u128, bd: u128) -> (r: bool)
    requires
        an <= NUM_MAX,
        bn <= NUM_MAX,
        1 <= ad <= DEN_MAX,
        1 <= bd <= DEN_MAX,
    ensures
        r == (an * bd > bn * ad),
{
    proof {
        assert(an * bd <= NUM_MAX * DEN_MAX && bn * ad <= NUM_MAX * DEN_MAX)
            by (nonlinear_arith)
            requires
                an <= NUM_MAX,
                bn <= NUM_MAX,
                1 <= ad <= DEN_MAX,
                1 <= bd <= DEN_MAX,
        ;
    }
    an * bd > bn * ad
}

/// `an / ad == bn / bd`, exactly.
pub fn ratio_eq(an: u128, ad: u128, bn: u128, bd: u128) -> (r: bool)
    requires
        an <= NUM_MAX,
        bn <= NUM_MAX,
        1 <= ad <= DEN_MAX,
        1 <= bd <= DEN_MAX,
    ensures
        r == (an * bd == bn * ad),
{
    proof {
        assert(an * bd <= NUM_MAX * DEN_MAX && bn * ad <= NUM_MAX * DEN_MAX)
            by (nonlinear_arith)
            requires
                an <= NUM_MAX,
                bn <= NUM_MAX,
                1 <= ad <= DEN_MAX,
                1 <= bd <= DEN_MAX,
        ;
    }
    an * bd == bn * ad
}

/// `an / ad != bn / bd`, exactly.
pub fn ratio_neq(an: u128, ad: u128, bn: u128, bd: u128) -> (r: bool)
    requires
        an <= NUM_MAX,
        bn <= NUM_MAX,
        1 <= ad <= DEN_MAX,
        1 <= bd <= DEN_MAX,
    ensures
        r == (an * bd != bn * ad),
{
    !ratio_eq(an, ad, bn, bd)
}

/// `an / ad < bn / bd`, exactly.
pub fn ratio_le(an: u128, ad: u128, bn: u128, bd: u128) -> (r: bool)
    requires
        an <= NUM_MAX,
        bn <= NUM_MAX,
        1 <= ad <= DEN_MAX,
        1 <= bd <= DEN_MAX,
    ensures
        r == (an * bd < bn * ad),
{
    ratio_gr(bn, bd, an, ad)
}

/// `an / ad <= bn / bd`, exactly.
pub fn ratio_leq(an: u128, ad: u128, bn: u128, bd: u128) -> (r: bool)
    requires
        an <= NUM_MAX,
        bn <= NUM_MAX,
        1 <= ad <= DEN_MAX,
        1 <= bd <= DEN_MAX,
    ensures
        r == (an * bd <= bn * ad),
{
    !ratio_gr(an, ad, bn, bd)
}

/// `an / ad >= bn / bd`, exactly.
pub fn ratio_geq(an: u128, ad: u128, bn: u128, bd: u128) -> (r: bool)
    requires
        an <= NUM_MAX,
        bn <= NUM_MAX,
        1 <= ad <= DEN_MAX,
        1 <= bd <= DEN_MAX,
    ensures
        r == (an * bd >= bn * ad),
{
    !ratio_le(an, ad, bn, bd)
}

} // verus!
