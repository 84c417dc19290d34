//! The cartesian product of a sequence of axes, as a mathematical function,
//! and the facts about it that the rest of the crate builds on.

use vstd::prelude::*;

verus! {

/// The number of ways to choose one item from every axis: the product of the
/// axes' lengths, which is 1 when there is no axis at all.
pub open spec fn product_len<T>(axes: Seq<Seq<T>>) -> nat
    decreases axes.len(),
{
    if axes.len() == 0 {
        1
    } else {
        axes[0].len() * product_len(axes.drop_first())
    }
}

/// A choice holds one index per axis, each within its axis.
pub open spec fn valid_choice<T>(axes: Seq<Seq<T>>, choice: Seq<int>) -> bool {
    &&& choice.len() == axes.len()
    &&& forall|i: int| 0 <= i < axes.len() ==> 0 <= #[trigger] choice[i] < axes[i].len()
}

/// The choice that stands at position `k` of the product: the digits of `k`
/// in the mixed radix given by the axes' lengths, the first axis being the
/// most significant digit, so that the last axis varies fastest.
pub open spec fn choice_at<T>(axes: Seq<Seq<T>>, k: int) -> Seq<int>
    decreases axes.len(),
{
    if axes.len() == 0 {
        Seq::empty()
    } else {
        let rest = product_len(axes.drop_first()) as int;
        seq![k / rest] + choice_at(axes.drop_first(), k % rest)
    }
}

/// The position in the product at which a choice stands: the inverse of
/// [`choice_at`] on valid choices.
pub open spec fn position_of<T>(axes: Seq<Seq<T>>, choice: Seq<int>) -> int
    decreases axes.len(),
{
    if axes.len() == 0 {
        0
    } else {
        choice[0] * product_len(axes.drop_first()) + position_of(
            axes.drop_first(),
            choice.drop_first(),
        )
    }
}

/// The items that a choice selects, one from each axis, in the axes' order.
pub open spec fn select<T>(axes: Seq<Seq<T>>, choice: Seq<int>) -> Seq<T> {
    Seq::new(axes.len(), |i: int| axes[i][choice[i]])
}

/// The cartesian product of the axes: every selection of one item per axis,
/// in lexicographic order of the chosen indices.
pub open spec fn cartesian_product<T>(axes: Seq<Seq<T>>) -> Seq<Seq<T>> {
    Seq::new(product_len(axes), |k: int| select(axes, choice_at(axes, k)))
}

/// Every position of the product holds a valid choice.
pub proof fn lemma_choice_at_valid<T>(axes: Seq<Seq<T>>, k: int)
    requires
        0 <= k < product_len(axes),
    ensures
        valid_choice(axes, choice_at(axes, k)),
    decreases axes.len(),
{
    if axes.len() > 0 {
        let tail = axes.drop_first();
        let rest = product_len(tail) as int;
        let first = axes[0].len() as int;
        assert(rest > 0 && 0 <= k / rest < first && 0 <= k % rest < rest) by (nonlinear_arith)
            requires
                0 <= k < first * rest,
                0 <= rest,
        ;
        lemma_choice_at_valid(tail, k % rest);
        let c = choice_at(axes, k);
        assert forall|i: int| 0 <= i < axes.len() implies 0 <= #[trigger] c[i] < axes[i].len() by {
            if i > 0 {
                assert(c[i] == choice_at(tail, k % rest)[i - 1]);
                assert(axes[i] == tail[i - 1]);
            }
        }
    }
}

/// A position is found again from the choice that stands at it, so no two
/// positions hold the same choice.
pub proof fn lemma_position_of_choice_at<T>(axes: Seq<Seq<T>>, k: int)
    requires
        0 <= k < product_len(axes),
    ensures
        position_of(axes, choice_at(axes, k)) == k,
    decreases axes.len(),
{
    if axes.len() > 0 {
        let tail = axes.drop_first();
        let rest = product_len(tail) as int;
        let first = axes[0].len() as int;
        assert(rest > 0 && 0 <= k % rest < rest && (k / rest) * rest + k % rest == k)
            by (nonlinear_arith)
            requires
                0 <= k < first * rest,
                0 <= rest,
        ;
        lemma_position_of_choice_at(tail, k % rest);
        let c = choice_at(axes, k);
        assert(c.drop_first() =~= choice_at(tail, k % rest));
    }
}

/// Every valid choice stands at a position of the product, and that position
/// holds this choice.
pub proof fn lemma_choice_at_position_of<T>(axes: Seq<Seq<T>>, choice: Seq<int>)
    requires
        valid_choice(axes, choice),
    ensures
        0 <= position_of(axes, choice) < product_len(axes),
        choice_at(axes, position_of(axes, choice)) == choice,
    decreases axes.len(),
{
    if axes.len() == 0 {
        assert(choice =~= Seq::<int>::empty());
    } else {
        let tail = axes.drop_first();
        let rest = product_len(tail) as int;
        let first = axes[0].len() as int;
        let c0 = choice[0];
        let ct = choice.drop_first();
        assert forall|i: int| 0 <= i < tail.len() implies 0 <= #[trigger] ct[i] < tail[i].len() by {
            assert(ct[i] == choice[i + 1]);
            assert(tail[i] == axes[i + 1]);
        }
        lemma_choice_at_position_of(tail, ct);
        let pt = position_of(tail, ct);
        let p = position_of(axes, choice);
        assert(p == c0 * rest + pt);
        assert(0 <= p < first * rest && p / rest == c0 && p % rest == pt) by (nonlinear_arith)
            requires
                p == c0 * rest + pt,
                0 <= pt < rest,
                0 <= c0 < first,
        ;
        assert(choice_at(axes, p) =~= choice);
    }
}

/// One axis without items leaves no selection at all.
pub proof fn lemma_product_len_zero<T>(axes: Seq<Seq<T>>, i: int)
    requires
        0 <= i < axes.len(),
        axes[i].len() == 0,
    ensures
        product_len(axes) == 0,
    decreases axes.len(),
{
    let tail = axes.drop_first();
    if i > 0 {
        assert(tail[i - 1] == axes[i]);
        lemma_product_len_zero(tail, i - 1);
    }
    assert(axes[0].len() * product_len(tail) == 0) by (nonlinear_arith)
        requires
            axes[0].len() == 0 || product_len(tail) == 0,
    ;
}

/// Axes that all hold an item leave at least one selection.
pub proof fn lemma_product_len_positive<T>(axes: Seq<Seq<T>>)
    requires
        forall|i: int| 0 <= i < axes.len() ==> (#[trigger] axes[i]).len() > 0,
    ensures
        product_len(axes) > 0,
    decreases axes.len(),
{
    if axes.len() > 0 {
        let tail = axes.drop_first();
        assert forall|i: int| 0 <= i < tail.len() implies (#[trigger] tail[i]).len() > 0 by {
            assert(tail[i] == axes[i + 1]);
        }
        lemma_product_len_positive(tail);
        assert(axes[0].len() * product_len(tail) > 0) by (nonlinear_arith)
            requires
                axes[0].len() > 0,
                product_len(tail) > 0,
        ;
    }
}

} // verus!
