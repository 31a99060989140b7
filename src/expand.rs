//! Expansion of a tuple of anagram classes into every choice of one spelling per class,
//! done by itertools.
use itertools::Itertools;
use vstd::arithmetic::div_mod::{lemma_fundamental_div_mod, lemma_fundamental_div_mod_converse};
use vstd::prelude::*;

verus! {

/// The cartesian product of `lists`, in lexicographic order of positions: the last position
/// varies fastest. The product of no lists is one empty tuple.
pub open spec fn cartesian(lists: Seq<Seq<usize>>) -> Seq<Seq<usize>>
    decreases lists.len(),
{
    if lists.len() == 0 {
        seq![Seq::empty()]
    } else {
        let rest = cartesian(lists.drop_first());
        Seq::new(
            lists[0].len() * rest.len(),
            |k: int| seq![lists[0][k / (rest.len() as int)]] + rest[k % (rest.len() as int)],
        )
    }
}

/// Relies on `itertools::Itertools::multi_cartesian_product`: it yields every tuple that
/// takes one item of each list, in lexicographic order with the last list varying fastest,
/// and a single empty tuple for no lists.
#[verifier::external_body]
pub(crate) fn cartesian_product(lists: Vec<Vec<usize>>) -> (r: Vec<Vec<usize>>)
    ensures
        r@.len() == cartesian(lists@.map_values(|l: Vec<usize>| l@)).len(),
        forall|k: int|
            0 <= k < r@.len() ==> #[trigger] r@[k]@ == cartesian(
                lists@.map_values(|l: Vec<usize>| l@),
            )[k],
{
    lists.into_iter().multi_cartesian_product().collect()
}

/// Every tuple of the product takes, at each position, an item of that position's list.
pub proof fn lemma_cartesian_members(lists: Seq<Seq<usize>>, k: int)
    requires
        0 <= k < cartesian(lists).len(),
    ensures
        cartesian(lists)[k].len() == lists.len(),
        forall|j: int| 0 <= j < lists.len() ==> lists[j].contains(#[trigger] cartesian(lists)[k][j]),
    decreases lists.len(),
{
    if lists.len() > 0 {
        let rest = cartesian(lists.drop_first());
        let n = lists[0].len() as int;
        let r = rest.len() as int;
        assert(k < n * r);
        assert(r > 0) by (nonlinear_arith)
            requires
                0 <= k < n * r,
                n >= 0,
                r >= 0,
        ;
        let q = k / r;
        let m = k % r;
        assert(0 <= q < n && 0 <= m < r) by (nonlinear_arith)
            requires
                0 <= k < n * r,
                r > 0,
                q == k / r,
                m == k % r,
        ;
        lemma_cartesian_members(lists.drop_first(), m);
        let t = cartesian(lists)[k];
        assert(t == seq![lists[0][q]] + rest[m]);
        assert forall|j: int| 0 <= j < lists.len() implies lists[j].contains(#[trigger] t[j]) by {
            if j == 0 {
                assert(lists[0][q] == t[0]);
            } else {
                assert(t[j] == rest[m][j - 1]);
                assert(lists.drop_first()[j - 1] == lists[j]);
            }
        }
    }
}

/// Every tuple that takes, at each position, an item of that position's list is in the
/// product.
pub proof fn lemma_cartesian_complete(lists: Seq<Seq<usize>>, t: Seq<usize>)
    requires
        t.len() == lists.len(),
        forall|j: int| 0 <= j < lists.len() ==> lists[j].contains(#[trigger] t[j]),
    ensures
        cartesian(lists).contains(t),
    decreases lists.len(),
{
    if lists.len() == 0 {
        assert(t =~= Seq::<usize>::empty());
        assert(cartesian(lists)[0] == t);
    } else {
        let rl = lists.drop_first();
        let rt = t.drop_first();
        assert forall|j: int| 0 <= j < rl.len() implies rl[j].contains(#[trigger] rt[j]) by {
            assert(rl[j] == lists[j + 1]);
            assert(rt[j] == t[j + 1]);
        }
        lemma_cartesian_complete(rl, rt);
        let rest = cartesian(rl);
        let r = rest.len() as int;
        let m = choose|m: int| 0 <= m < rest.len() && rest[m] == rt;
        assert(lists[0].contains(t[0]));
        let q = choose|q: int| 0 <= q < lists[0].len() && lists[0][q] == t[0];
        let n = lists[0].len() as int;
        let k = q * r + m;
        assert(0 <= k < n * r) by (nonlinear_arith)
            requires
                0 <= q < n,
                0 <= m < r,
                k == q * r + m,
        ;
        lemma_fundamental_div_mod_converse(k, r, q, m);
        let c = cartesian(lists);
        assert(c[k] == seq![lists[0][q]] + rest[m]);
        assert(c[k] =~= t);
    }
}

/// Different positions of the product hold different tuples when no list repeats an item.
pub proof fn lemma_cartesian_distinct(lists: Seq<Seq<usize>>, k1: int, k2: int)
    requires
        0 <= k1 < cartesian(lists).len(),
        0 <= k2 < cartesian(lists).len(),
        k1 != k2,
        forall|j: int| 0 <= j < lists.len() ==> (#[trigger] lists[j]).no_duplicates(),
    ensures
        cartesian(lists)[k1] != cartesian(lists)[k2],
    decreases lists.len(),
{
    if lists.len() > 0 {
        let rl = lists.drop_first();
        let rest = cartesian(rl);
        let n = lists[0].len() as int;
        let r = rest.len() as int;
        assert(r > 0) by (nonlinear_arith)
            requires
                0 <= k1 < n * r,
                n >= 0,
                r >= 0,
        ;
        let q1 = k1 / r;
        let m1 = k1 % r;
        let q2 = k2 / r;
        let m2 = k2 % r;
        lemma_fundamental_div_mod(k1, r);
        lemma_fundamental_div_mod(k2, r);
        assert(0 <= q1 < n && 0 <= m1 < r) by (nonlinear_arith)
            requires
                0 <= k1 < n * r,
                r > 0,
                q1 == k1 / r,
                m1 == k1 % r,
        ;
        assert(0 <= q2 < n && 0 <= m2 < r) by (nonlinear_arith)
            requires
                0 <= k2 < n * r,
                r > 0,
                q2 == k2 / r,
                m2 == k2 % r,
        ;
        let c = cartesian(lists);
        assert(c[k1] == seq![lists[0][q1]] + rest[m1]);
        assert(c[k2] == seq![lists[0][q2]] + rest[m2]);
        if q1 != q2 {
            assert(lists[0].no_duplicates());
            assert(c[k1][0] != c[k2][0]);
        } else {
            assert(m1 != m2);
            assert forall|j: int| 0 <= j < rl.len() implies (#[trigger] rl[j]).no_duplicates() by {
                assert(rl[j] == lists[j + 1]);
            }
            lemma_cartesian_distinct(rl, m1, m2);
            if c[k1] == c[k2] {
                assert(c[k1].drop_first() =~= rest[m1]);
                assert(c[k2].drop_first() =~= rest[m2]);
            }
        }
    }
}

} // verus!
