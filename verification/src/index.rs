//! Row-major indexing.

use vstd::prelude::*;
use vstd::arithmetic::div_mod::lemma_fundamental_div_mod_converse;

verus! {

/// `outer * len + inner` splits back into `outer` and `inner`.
pub proof fn lemma_split(outer: int, inner: int, len: int)
    requires
        0 <= inner < len,
    ensures
        (outer * len + inner) / len == outer,
        (outer * len + inner) % len == inner,
{
    assert(outer * len == len * outer) by (nonlinear_arith);
    lemma_fundamental_div_mod_converse(outer * len + inner, len, outer, inner);
}

/// An index made of an outer and an inner part lies in the product range.
pub proof fn lemma_in_range(outer: int, inner: int, count: int, len: int)
    requires
        0 <= outer < count,
        0 <= inner < len,
    ensures
        0 <= outer * len,
        outer * len + inner < count * len,
        outer * len + len <= count * len,
{
    assert(0 <= outer * len) by (nonlinear_arith)
        requires
            0 <= outer,
            0 < len,
    ;
    assert(outer * len + len <= count * len) by (nonlinear_arith)
        requires
            outer + 1 <= count,
            0 < len,
    ;
}

/// Every index of the product range has an outer and an inner part.
pub proof fn lemma_parts(i: int, count: int, len: int)
    requires
        0 <= i < count * len,
        0 <= len,
    ensures
        0 < len,
        0 <= i / len < count,
        0 <= i % len < len,
        i == (i / len) * len + i % len,
{
    if len == 0 {
        assert(count * len == 0) by (nonlinear_arith)
            requires
                len == 0,
        ;
    }
    vstd::arithmetic::div_mod::lemma_fundamental_div_mod(i, len);
    assert((i / len) * len == len * (i / len)) by (nonlinear_arith);
    vstd::arithmetic::div_mod::lemma_div_pos_is_pos(i, len);
    assert(i / len < count) by (nonlinear_arith)
        requires
            i < count * len,
            i == len * (i / len) + i % len,
            0 <= i % len,
            0 < len,
    ;
}

} // verus!
