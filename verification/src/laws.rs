//! Order-independence of the merge operations.
//!
//! Repeated `sum` merges accumulate the domain's addition over every value
//! ever merged, and repeated `set_min` merges converge to the minimum, in
//! whatever order the values arrive. The proof functions here state that
//! over folds of the per-merge steps that the store's contracts commit to.

use vstd::prelude::*;
use vstd::seq_lib::{commutative_foldl, lemma_fold_left_permutation};

use crate::digits::{pow10, lemma_pow10_add, lemma_pow10_pos};
use crate::value::{dec_add_m, dec_align, dec_le, dec_max_scale};

verus! {

/// The step one `sum` merge applies to the accumulated integer value, as
/// the store's Int64 and BigInt contracts state it.
pub open spec fn add_step() -> spec_fn(int, int) -> int {
    |acc: int, v: int| acc + v
}

/// The accumulated value after `sum`-merging every value of `s` in order
/// into a fresh key, which starts from the domain's additive identity.
pub open spec fn sum_seq(s: Seq<int>) -> int {
    s.fold_left(0int, add_step())
}

/// One more `sum` merge adds its value to the accumulated total.
pub proof fn lemma_sum_seq_step(s: Seq<int>, v: int)
    ensures
        sum_seq(s.push(v)) == sum_seq(s) + v,
{
    assert(s.push(v).drop_last() =~= s);
}

/// Law: `sum` merges commute. Two sequences that merge the same values,
/// as a multiset, in any two orders accumulate to the same total.
pub proof fn lemma_sum_any_order(s1: Seq<int>, s2: Seq<int>)
    requires
        s1.to_multiset() == s2.to_multiset(),
    ensures
        sum_seq(s1) == sum_seq(s2),
{
    assert(commutative_foldl(add_step()));
    lemma_fold_left_permutation(s1, s2, add_step(), 0int);
}

/// The step one `set_min` merge applies to the stored value: the first
/// merge stores its value, every later one keeps the smaller.
pub open spec fn min_step() -> spec_fn(Option<int>, int) -> Option<int> {
    |acc: Option<int>, v: int|
        match acc {
            Option::None => Option::Some(v),
            Option::Some(m) => Option::Some(
                if m <= v {
                    m
                } else {
                    v
                },
            ),
        }
}

/// The stored value after `set_min`-merging every value of `s` in order
/// into a fresh key: `None` while nothing was merged.
pub open spec fn min_seq(s: Seq<int>) -> Option<int> {
    s.fold_left(Option::<int>::None, min_step())
}

/// One more `set_min` merge keeps the smaller of the stored value and the
/// incoming one.
pub proof fn lemma_min_seq_step(s: Seq<int>, v: int)
    ensures
        min_seq(s.push(v)) == min_step()(min_seq(s), v),
{
    assert(s.push(v).drop_last() =~= s);
}

/// Law: `set_min` merges commute. Two sequences that merge the same
/// values, as a multiset, in any two orders leave the same stored value:
/// the minimum of all of them.
pub proof fn lemma_min_any_order(s1: Seq<int>, s2: Seq<int>)
    requires
        s1.to_multiset() == s2.to_multiset(),
    ensures
        min_seq(s1) == min_seq(s2),
{
    assert(commutative_foldl(min_step()));
    lemma_fold_left_permutation(s1, s2, min_step(), Option::<int>::None);
}

/// Law: `set_min` converges to the minimum. After merging a non-empty
/// sequence of integer values the slot holds one of them, and one that no
/// merged value undercuts.
pub proof fn lemma_min_seq_is_minimum(s: Seq<int>)
    requires
        s.len() > 0,
    ensures
        min_seq(s) matches Some(m) && s.contains(m) && forall|i: int|
            0 <= i < s.len() ==> m <= #[trigger] s[i],
    decreases s.len(),
{
    let v = s.last();
    assert(s.contains(v)) by {
        assert(s[s.len() - 1] == v);
    }
    assert(s.drop_last().push(v) =~= s);
    assert(min_seq(s) == min_step()(min_seq(s.drop_last()), v));
    if s.len() == 1 {
        assert(min_seq(s) == Some(v));
    } else {
        lemma_min_seq_is_minimum(s.drop_last());
        let m = min_seq(s.drop_last())->0;
        assert(s.drop_last().contains(m));
        let j = choose|j: int| 0 <= j < s.drop_last().len() && s.drop_last()[j] == m;
        assert(s[j] == m);
        assert(s.contains(m));
        assert(forall|i: int| 0 <= i < s.len() - 1 ==> s.drop_last()[i] == #[trigger] s[i]);
    }
}

/// Rewriting a mantissa to a coarser scale in two hops lands where one
/// hop does.
proof fn lemma_dec_align_trans(m: int, s: int, t: int, t2: int)
    requires
        s <= t <= t2,
    ensures
        dec_align(dec_align(m, s, t), t, t2) == dec_align(m, s, t2),
{
    let a = (t - s) as nat;
    let b = (t2 - t) as nat;
    lemma_pow10_add(a, b);
    assert((t2 - s) as nat == a + b);
    assert((m * pow10(a)) * pow10(b) == m * (pow10(a) * pow10(b))) by (nonlinear_arith);
}

/// Rewriting to a coarser scale distributes over mantissa addition.
proof fn lemma_dec_align_distributes(m1: int, m2: int, s: int, t: int)
    requires
        s <= t,
    ensures
        dec_align(m1 + m2, s, t) == dec_align(m1, s, t) + dec_align(m2, s, t),
{
    assert((m1 + m2) * pow10((t - s) as nat) == m1 * pow10((t - s) as nat) + m2 * pow10(
        (t - s) as nat,
    )) by (nonlinear_arith);
}

/// The step one `sum` merge applies to a BigDecimal slot, as the store's
/// contract states it: the sum at the larger scale.
pub open spec fn dec_add_step() -> spec_fn((int, int), (int, int)) -> (int, int) {
    |acc: (int, int), v: (int, int)| (dec_add_m(acc.0, acc.1, v.0, v.1), dec_max_scale(acc.1, v.1))
}

/// The (mantissa, scale) pair after `sum`-merging every decimal of `s` in
/// order into a fresh key, starting from the identity 0 at scale 0.
pub open spec fn dec_sum_seq(s: Seq<(int, int)>) -> (int, int) {
    s.fold_left((0int, 0int), dec_add_step())
}

/// One more decimal `sum` merge adds its value at the larger scale.
pub proof fn lemma_dec_sum_seq_step(s: Seq<(int, int)>, v: (int, int))
    ensures
        dec_sum_seq(s.push(v)) == dec_add_step()(dec_sum_seq(s), v),
{
    assert(s.push(v).drop_last() =~= s);
}

/// Exact decimal addition is commutative.
pub proof fn lemma_dec_add_comm(a: (int, int), b: (int, int))
    ensures
        dec_add_step()(a, b) == dec_add_step()(b, a),
{
}

/// Exact decimal addition is associative.
pub proof fn lemma_dec_add_assoc(a: (int, int), b: (int, int), c: (int, int))
    ensures
        dec_add_step()(dec_add_step()(a, b), c) == dec_add_step()(a, dec_add_step()(b, c)),
{
    let sab = dec_max_scale(a.1, b.1);
    let sbc = dec_max_scale(b.1, c.1);
    let s = dec_max_scale(sab, c.1);
    assert(s == dec_max_scale(a.1, sbc));
    let la = dec_align(a.0, a.1, s);
    let lb = dec_align(b.0, b.1, s);
    let lc = dec_align(c.0, c.1, s);
    assert(dec_add_m(dec_add_m(a.0, a.1, b.0, b.1), sab, c.0, c.1) == la + lb + lc) by {
        lemma_dec_align_distributes(
            dec_align(a.0, a.1, sab),
            dec_align(b.0, b.1, sab),
            sab,
            s,
        );
        lemma_dec_align_trans(a.0, a.1, sab, s);
        lemma_dec_align_trans(b.0, b.1, sab, s);
    }
    assert(dec_add_m(a.0, a.1, dec_add_m(b.0, b.1, c.0, c.1), sbc) == la + (lb + lc)) by {
        lemma_dec_align_distributes(
            dec_align(b.0, b.1, sbc),
            dec_align(c.0, c.1, sbc),
            sbc,
            s,
        );
        lemma_dec_align_trans(b.0, b.1, sbc, s);
        lemma_dec_align_trans(c.0, c.1, sbc, s);
    }
}

/// Law: decimal `sum` merges commute. Two sequences that merge the same
/// decimals, as a multiset, in any two orders leave the same mantissa and
/// scale.
pub proof fn lemma_dec_sum_any_order(s1: Seq<(int, int)>, s2: Seq<(int, int)>)
    requires
        s1.to_multiset() == s2.to_multiset(),
    ensures
        dec_sum_seq(s1) == dec_sum_seq(s2),
{
    assert(commutative_foldl(dec_add_step())) by {
        assert forall|x: (int, int), y: (int, int), v: (int, int)|
            #[trigger] dec_add_step()(dec_add_step()(v, x), y) == dec_add_step()(
                dec_add_step()(v, y),
                x,
            ) by {
            lemma_dec_add_assoc(v, x, y);
            lemma_dec_add_assoc(v, y, x);
            lemma_dec_add_comm(x, y);
        }
    }
    lemma_fold_left_permutation(s1, s2, dec_add_step(), (0int, 0int));
}


/// At any common scale coarser than both operands, the cross-multiplied
/// comparison `dec_le` is the plain comparison of the aligned mantissas.
proof fn lemma_dec_le_at_scale(a: (int, int), b: (int, int), cap: int)
    requires
        0 <= a.1 <= cap,
        0 <= b.1 <= cap,
    ensures
        dec_le(a.0, a.1, b.0, b.1) <==> dec_align(a.0, a.1, cap) <= dec_align(b.0, b.1, cap),
{
    let pa = pow10((cap - a.1) as nat);
    let pb = pow10((cap - b.1) as nat);
    let qa = pow10(a.1 as nat);
    let qb = pow10(b.1 as nat);
    lemma_pow10_pos((cap - a.1) as nat);
    lemma_pow10_pos((cap - b.1) as nat);
    lemma_pow10_pos(a.1 as nat);
    lemma_pow10_pos(b.1 as nat);
    lemma_pow10_add((cap - a.1) as nat, a.1 as nat);
    lemma_pow10_add((cap - b.1) as nat, b.1 as nat);
    assert((cap - a.1) as nat + a.1 as nat == cap as nat);
    assert((cap - b.1) as nat + b.1 as nat == cap as nat);
    let pc = pow10(cap as nat);
    lemma_pow10_pos(cap as nat);
    assert(pa * qa == pc);
    assert(pb * qb == pc);
    assert((a.0 * qb <= b.0 * qa) <==> (a.0 * pa <= b.0 * pb)) by (nonlinear_arith)
        requires
            pa * qa == pc,
            pb * qb == pc,
            pa >= 1,
            pb >= 1,
            qa >= 1,
            qb >= 1,
            pc >= 1,
    ;
}

/// The step one `set_min` merge applies to a BigDecimal slot, as the
/// store's contract states it: keep the representation whose value is
/// smaller, the stored one on a tie.
pub open spec fn dec_min_step() -> spec_fn(Option<(int, int)>, (int, int)) -> Option<(int, int)> {
    |acc: Option<(int, int)>, v: (int, int)|
        match acc {
            Option::None => Option::Some(v),
            Option::Some(m) => Option::Some(
                if dec_le(m.0, m.1, v.0, v.1) {
                    m
                } else {
                    v
                },
            ),
        }
}

/// The (mantissa, scale) pair after `set_min`-merging every decimal of
/// `s` in order into a fresh key: `None` while nothing was merged.
pub open spec fn dec_min_seq(s: Seq<(int, int)>) -> Option<(int, int)> {
    s.fold_left(Option::<(int, int)>::None, dec_min_step())
}

/// Law: `set_min` over decimals converges to the minimum by numeric
/// value, whatever the merge order. After merging a non-empty sequence
/// the slot holds one of the merged representations, and at any common
/// scale its value is no greater than that of any merged value. Which
/// representation of a numeric tie is kept does depend on the order.
pub proof fn lemma_dec_min_seq_is_minimum(s: Seq<(int, int)>, cap: int)
    requires
        s.len() > 0,
        forall|i: int| 0 <= i < s.len() ==> 0 <= (#[trigger] s[i]).1 <= cap,
    ensures
        dec_min_seq(s) matches Some(r) && {
            &&& s.contains(r)
            &&& forall|i: int|
                0 <= i < s.len() ==> dec_align(r.0, r.1, cap) <= dec_align(
                    (#[trigger] s[i]).0,
                    s[i].1,
                    cap,
                )
        },
    decreases s.len(),
{
    let v = s.last();
    assert(s.contains(v)) by {
        assert(s[s.len() - 1] == v);
    }
    assert(s.drop_last().push(v) =~= s);
    assert(dec_min_seq(s) == dec_min_step()(dec_min_seq(s.drop_last()), v));
    if s.len() == 1 {
        assert(dec_min_seq(s.drop_last()) is None);
        assert(dec_min_seq(s) == Some(v));
    } else {
        lemma_dec_min_seq_is_minimum(s.drop_last(), cap);
        let m = dec_min_seq(s.drop_last())->0;
        assert(s.drop_last().contains(m));
        let j = choose|j: int| 0 <= j < s.drop_last().len() && s.drop_last()[j] == m;
        assert(s[j] == m);
        assert(s.contains(m));
        assert(0 <= m.1 <= cap);
        lemma_dec_le_at_scale(m, v, cap);
        let r = dec_min_seq(s)->0;
        assert(r == if dec_le(m.0, m.1, v.0, v.1) { m } else { v });
        assert(forall|i: int|
            0 <= i < s.len() - 1 ==> s.drop_last()[i] == #[trigger] s[i]);
        assert(forall|i: int|
            0 <= i < s.len() ==> dec_align(r.0, r.1, cap) <= dec_align(
                (#[trigger] s[i]).0,
                s[i].1,
                cap,
            ));
    }
}

} // verus!
