//! Slots that are taken or idle: the first idle one, and how many are taken.
use vstd::prelude::*;

verus! {

/// The first slot from `i` on that is not taken; the number of slots where all are.
pub open spec fn first_idle(taken: Seq<bool>, i: nat) -> nat
    decreases taken.len() - i,
{
    if i >= taken.len() {
        taken.len()
    } else if !taken[i as int] {
        i
    } else {
        first_idle(taken, i + 1)
    }
}

/// How many slots are taken.
pub open spec fn count(taken: Seq<bool>) -> int
    decreases taken.len(),
{
    if taken.len() == 0 {
        0
    } else {
        count(taken.drop_last()) + (if taken.last() {
            1int
        } else {
            0
        })
    }
}

/// All slots from `i` up to the first idle one are taken.
pub proof fn lemma_first_idle(taken: Seq<bool>, i: nat)
    requires
        i <= taken.len(),
    ensures
        i <= first_idle(taken, i) <= taken.len(),
        first_idle(taken, i) < taken.len() ==> !taken[first_idle(taken, i) as int],
        forall|j: int| i <= j < first_idle(taken, i) ==> #[trigger] taken[j],
    decreases taken.len() - i,
{
    if i < taken.len() && taken[i as int] {
        lemma_first_idle(taken, i + 1);
    }
}

/// The count reaches the number of slots where none is idle, and only there.
pub proof fn lemma_count(taken: Seq<bool>)
    ensures
        0 <= count(taken) <= taken.len(),
        count(taken) == taken.len() <==> first_idle(taken, 0) == taken.len(),
{
    lemma_first_idle(taken, 0);
    lemma_count_all(taken);
}

proof fn lemma_count_all(taken: Seq<bool>)
    ensures
        0 <= count(taken) <= taken.len(),
        count(taken) == taken.len() <==> forall|i: int| 0 <= i < taken.len() ==> #[trigger] taken[i],
    decreases taken.len(),
{
    if taken.len() > 0 {
        let rest = taken.drop_last();
        lemma_count_all(rest);
        assert(forall|i: int| 0 <= i < rest.len() ==> #[trigger] rest[i] == taken[i]);
        if count(taken) == taken.len() {
            assert forall|i: int| 0 <= i < taken.len() implies #[trigger] taken[i] by {
                if i < rest.len() {
                    assert(rest[i]);
                }
            }
        }
    }
}

/// Taking a slot adds one to the count where the slot was idle, else nothing.
pub proof fn lemma_count_after_taking(taken: Seq<bool>, i: int)
    requires
        0 <= i < taken.len(),
    ensures
        count(taken.update(i, true)) == count(taken) + (if taken[i] {
            0int
        } else {
            1
        }),
    decreases taken.len(),
{
    let after = taken.update(i, true);
    if i == taken.len() - 1 {
        assert(after.drop_last() =~= taken.drop_last());
    } else {
        assert(after.drop_last() =~= taken.drop_last().update(i, true));
        lemma_count_after_taking(taken.drop_last(), i);
    }
}

/// Where all slots are idle none is taken.
pub proof fn lemma_none_taken(n: nat)
    ensures
        count(Seq::new(n, |i: int| false)) == 0,
    decreases n,
{
    let taken = Seq::new(n, |i: int| false);
    if n > 0 {
        lemma_none_taken((n - 1) as nat);
        assert(taken.drop_last() =~= Seq::new((n - 1) as nat, |i: int| false));
    }
}

} // verus!
