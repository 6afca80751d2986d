//! Sums of sequences, added up from the first item on.
use vstd::prelude::*;

use crate::single::Single;

verus! {

/// The sum of a sequence, from the first item on.
pub open spec fn sum_of(s: Seq<Single>) -> Single
    decreases s.len(),
{
    if s.len() == 0 {
        Single::of_whole(0)
    } else {
        sum_of(s.drop_last()).plus(s.last())
    }
}

/// The sum of one item more.
pub proof fn lemma_sum_step(s: Seq<Single>, i: int)
    requires
        0 <= i < s.len(),
    ensures
        sum_of(s.take(i + 1)) == sum_of(s.take(i)).plus(s[i]),
{
    assert(s.take(i + 1).drop_last() =~= s.take(i));
}

/// The sum of all items, and of none.
pub proof fn lemma_sum_ends(s: Seq<Single>)
    ensures
        sum_of(s.take(s.len() as int)) == sum_of(s),
        sum_of(s.take(0)) == Single::of_whole(0),
{
    assert(s.take(s.len() as int) =~= s);
}

/// The mean of a sequence; zero where there is nothing.
pub open spec fn mean_of(s: Seq<Single>) -> Single {
    sum_of(s).over(Single::of_whole(if s.len() > 0 { s.len() } else { 1 }))
}

/// The squared distances from a value.
pub open spec fn squared_distances(s: Seq<Single>, mean: Single) -> Seq<Single> {
    Seq::new(s.len(), |i: int| s[i].minus(mean).times(s[i].minus(mean)))
}

/// The squares.
pub open spec fn squares(s: Seq<Single>) -> Seq<Single> {
    Seq::new(s.len(), |i: int| s[i].times(s[i]))
}

} // verus!
