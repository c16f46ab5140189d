//! In-place collapse of consecutive records that share a key.

use crate::value::{Field, SingleFieldValue};
use vstd::prelude::*;

verus! {

/// What collapsing runs keeps: of every run of consecutive records with the
/// same tag, only the last one, in order.
pub open spec fn keep_last_of_runs(s: Seq<Field<SingleFieldValue>>) -> Seq<
    Field<SingleFieldValue>,
>
    decreases s.len(),
{
    if s.len() == 0 {
        Seq::empty()
    } else if s.len() == 1 {
        s
    } else if s[0].tag == s[1].tag {
        keep_last_of_runs(s.drop_first())
    } else {
        seq![s[0]] + keep_last_of_runs(s.drop_first())
    }
}

/// Collapses consecutive records with equal tags in place, keeping only the
/// last record of each run. On a vector sorted by tag this implements the
/// protobuf rule that the last occurrence of a singular field wins.
pub fn retain_last_by_key(slice: &mut Vec<Field<SingleFieldValue>>)
    ensures
        final(slice)@ == keep_last_of_runs(old(slice)@),
{
    let ghost s = slice@;
    proof {
        assert(slice@.take(0) =~= Seq::<Field<SingleFieldValue>>::empty());
        assert(s.skip(0) =~= s);
        assert(Seq::<Field<SingleFieldValue>>::empty() + keep_last_of_runs(s) =~= keep_last_of_runs(
            s,
        ));
    }
    let mut write: usize = 0;
    let mut read: usize = 0;
    while read < slice.len()
        invariant
            write <= read,
            read <= slice@.len(),
            slice@.len() == s.len(),
            forall|k: int| read <= k < s.len() ==> slice@[k] == s[k],
            keep_last_of_runs(s) == slice@.take(write as int) + keep_last_of_runs(
                s.skip(read as int),
            ),
        decreases slice@.len() - read,
    {
        let keep = if read + 1 == slice.len() {
            true
        } else {
            slice[read].tag != slice[read + 1].tag
        };
        proof {
            assert(s.skip(read as int).len() == s.len() - read);
            if read + 1 < s.len() {
                assert(s.skip(read as int).drop_first() =~= s.skip(read as int + 1));
            }
        }
        if keep {
            let v = slice[read];
            slice[write] = v;
            proof {
                assert(slice@.take(write as int + 1) =~= slice@.take(write as int).push(v));
                if read + 1 < s.len() {
                    assert(seq![s[read as int]] + keep_last_of_runs(s.skip(read as int + 1))
                        =~= keep_last_of_runs(s.skip(read as int)));
                    assert(slice@.take(write as int + 1) + keep_last_of_runs(
                        s.skip(read as int + 1),
                    ) =~= slice@.take(write as int) + keep_last_of_runs(s.skip(read as int)));
                } else {
                    assert(s.skip(read as int) =~= seq![s[read as int]]);
                    assert(keep_last_of_runs(s.skip(read as int + 1)) =~= Seq::<
                        Field<SingleFieldValue>,
                    >::empty());
                    assert(slice@.take(write as int + 1) + keep_last_of_runs(
                        s.skip(read as int + 1),
                    ) =~= slice@.take(write as int) + keep_last_of_runs(s.skip(read as int)));
                }
            }
            write = write + 1;
        } else {
            proof {
                assert(slice@.take(write as int) + keep_last_of_runs(s.skip(read as int + 1))
                    =~= slice@.take(write as int) + keep_last_of_runs(s.skip(read as int)));
            }
        }
        read = read + 1;
    }
    proof {
        assert(s.skip(read as int) =~= Seq::<Field<SingleFieldValue>>::empty());
        assert(keep_last_of_runs(s) =~= slice@.take(write as int));
    }
    slice.truncate(write);
    proof {
        assert(slice@ =~= keep_last_of_runs(s));
    }
}

} // verus!
