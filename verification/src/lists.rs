//! Natural-language list joining.

use vstd::prelude::*;

use crate::text::spec_comma_join;

verus! {

/// What `natural_list` returns: nothing for an empty list, the sole item for
/// a singleton, and otherwise every item but the last joined by ", " and the
/// last attached with " and ".
pub open spec fn spec_natural_list(items: Seq<Seq<char>>) -> Seq<char> {
    if items.len() == 0 {
        Seq::empty()
    } else if items.len() == 1 {
        items[0]
    } else {
        spec_comma_join(items.take(items.len() - 1)) + " and "@ + items.last()
    }
}

/// Join items into a human-readable enumeration with commas and "and".
pub fn natural_list(items: &Vec<String>) -> (r: String)
    ensures
        r@ == spec_natural_list(items.deep_view()),
{
    let ghost dv = items.deep_view();
    if items.len() == 0 {
        let r = String::new();
        proof {
            assert(r@ =~= spec_natural_list(dv));
        }
        r
    } else if items.len() == 1 {
        items[0].clone()
    } else {
        let mut head = items[0].clone();
        proof {
            assert(dv.take(1) =~= seq![dv[0]]);
        }
        let mut i: usize = 1;
        while i < items.len() - 1
            invariant
                dv == items.deep_view(),
                dv.len() == items.len(),
                items.len() >= 2,
                1 <= i <= items.len() - 1,
                head@ == spec_comma_join(dv.take(i as int)),
            decreases items.len() - i,
        {
            head.append(", ");
            head.append(items[i].as_str());
            proof {
                assert(dv.take(i as int + 1).take(i as int) =~= dv.take(i as int));
                assert(dv.take(i as int + 1).last() == dv[i as int]);
            }
            i += 1;
        }
        head.append(" and ");
        head.append(items[items.len() - 1].as_str());
        head
    }
}

} // verus!
