//! Lists without repetition.
use vstd::prelude::*;

verus! {

/// `list` with `item` taken out, wherever it stands.
pub open spec fn without<A>(list: Seq<A>, item: A) -> Seq<A> {
    if list.contains(item) {
        list.remove(list.index_of(item))
    } else {
        list
    }
}

pub proof fn lemma_without<A>(list: Seq<A>, item: A)
    requires
        list.no_duplicates(),
    ensures
        without(list, item).no_duplicates(),
        !without(list, item).contains(item),
        forall|b: A| #[trigger]
            without(list, item).contains(b) <==> list.contains(b) && b != item,
        without(list, item).len() == list.len() - if list.contains(item) {
            1int
        } else {
            0int
        },
{
    if list.contains(item) {
        let at = list.index_of(item);
        let rest = list.remove(at);
        assert forall|i: int, j: int| 0 <= i < rest.len() && 0 <= j < rest.len() && i
            != j implies rest[i] != rest[j] by {
            let i2 = if i < at { i } else { i + 1 };
            let j2 = if j < at { j } else { j + 1 };
            assert(list[i2] != list[j2]);
        }
        assert forall|b: A| rest.contains(b) <==> list.contains(b) && b != item by {
            if rest.contains(b) {
                let p = rest.index_of(b);
                let p2 = if p < at { p } else { p + 1 };
                assert(list[p2] == b);
                assert(list[p2] != list[at]);
            }
            if list.contains(b) && b != item {
                let p = list.index_of(b);
                let p2 = if p < at { p } else { p - 1 };
                assert(rest[p2] == b);
            }
        }
    }
}

pub proof fn lemma_push_keeps_distinct<A>(list: Seq<A>, item: A)
    requires
        list.no_duplicates(),
        !list.contains(item),
    ensures
        list.push(item).no_duplicates(),
        forall|b: A| #[trigger] list.push(item).contains(b) <==> list.contains(b) || b == item,
{
    let longer = list.push(item);
    assert forall|i: int, j: int| 0 <= i < longer.len() && 0 <= j < longer.len() && i
        != j implies longer[i] != longer[j] by {
        if i < list.len() {
            assert(list.contains(list[i]));
        }
        if j < list.len() {
            assert(list.contains(list[j]));
        }
    }
    assert forall|b: A| #[trigger] longer.contains(b) <==> list.contains(b) || b == item by {
        if longer.contains(b) {
            let k = longer.index_of(b);
            if k < list.len() {
                assert(list[k] == b);
            }
        }
        if list.contains(b) {
            let k = list.index_of(b);
            assert(longer[k] == b);
        }
        if b == item {
            assert(longer[list.len() as int] == item);
        }
    }
}

/// `list` with everything taken out that is among `others`.
pub open spec fn outside<A>(list: Seq<A>, others: Seq<A>) -> Seq<A>
    decreases list.len(),
{
    if list.len() == 0 {
        list
    } else if others.contains(list.last()) {
        outside(list.drop_last(), others)
    } else {
        outside(list.drop_last(), others).push(list.last())
    }
}

pub proof fn lemma_outside<A>(list: Seq<A>, others: Seq<A>)
    ensures
        outside(list, others).len() <= list.len(),
        forall|b: A| #[trigger]
            outside(list, others).contains(b) <==> list.contains(b) && !others.contains(b),
    decreases list.len(),
{
    if list.len() > 0 {
        let rest = list.drop_last();
        let kept = outside(rest, others);
        let all = outside(list, others);
        lemma_outside(rest, others);
        assert forall|b: A| #[trigger]
            all.contains(b) <==> list.contains(b) && !others.contains(b) by {
            if all.contains(b) {
                let k = all.index_of(b);
                if k < kept.len() {
                    assert(kept[k] == b);
                    assert(kept.contains(b));
                    assert(rest.contains(b));
                    assert(list[rest.index_of(b)] == b);
                } else {
                    assert(b == list.last());
                    assert(list[list.len() - 1] == b);
                }
            }
            if list.contains(b) && !others.contains(b) {
                let k = list.index_of(b);
                if k < rest.len() {
                    assert(rest[k] == b);
                    assert(kept.contains(b));
                    assert(all[kept.index_of(b)] == b);
                } else {
                    assert(all[kept.len() as int] == b);
                }
            }
        }
    }
}

/// Leaving items out keeps the others in their order.
pub proof fn law_leaving_out_keeps_the_order<A>(list: Seq<A>, others: Seq<A>)
    ensures
        outside(list, others) == list.filter(|x: A| !others.contains(x)),
    decreases list.len(),
{
    reveal(Seq::filter);
    if list.len() > 0 {
        law_leaving_out_keeps_the_order(list.drop_last(), others);
    }
}

/// Taking an item out of a list that has it once leaves what stood before it and
/// what stood after it, in order; a list that does not have it stays as it is.
pub proof fn law_taking_out_closes_the_gap<A>(before: Seq<A>, item: A, after: Seq<A>)
    requires
        (before + seq![item] + after).no_duplicates(),
    ensures
        without(before + seq![item] + after, item) == before + after,
        without(before + after, item) == before + after,
{
    let all = before + seq![item] + after;
    assert(all[before.len() as int] == item);
    let k = all.index_of(item);
    assert(all[k] == item);
    assert(k == before.len());
    assert(all.remove(k) =~= before + after);
    if (before + after).contains(item) {
        let j = (before + after).index_of(item);
        assert((before + after)[j] == item);
        if j < before.len() {
            assert(all[j] == item);
        } else {
            assert(all[j + 1] == item);
        }
    }
}

} // verus!
