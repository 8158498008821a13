use vstd::prelude::*;

verus! {

/// The items whose flag is set, in order.
pub open spec fn accepted_of(items: Seq<Seq<u8>>, flags: Seq<bool>) -> Seq<Seq<u8>>
    decreases items.len(),
{
    if items.len() == 0 || flags.len() == 0 {
        Seq::empty()
    } else {
        let rest = accepted_of(items.drop_last(), flags.drop_last());
        if flags.last() {
            rest.push(items.last())
        } else {
            rest
        }
    }
}

pub open spec fn views(v: Seq<Vec<u8>>) -> Seq<Seq<u8>> {
    v.map_values(|x: Vec<u8>| x@)
}

/// Of the items offered to a peer (keys or bodies), those its accept record asks for,
/// one flag per item, in the order offered.
pub fn select_accepted(items: &Vec<Vec<u8>>, accept: &Vec<bool>) -> (r: Vec<Vec<u8>>)
    requires
        items@.len() == accept@.len(),
    ensures
        views(r@) == accepted_of(views(items@), accept@),
{
    let mut r: Vec<Vec<u8>> = Vec::new();
    let mut i: usize = 0;
    while i < items.len()
        invariant
            items@.len() == accept@.len(),
            i <= items@.len(),
            views(r@) == accepted_of(views(items@).subrange(0, i as int), accept@.subrange(0, i as int)),
        decreases items@.len() - i,
    {
        proof {
            assert(views(items@).subrange(0, i + 1).drop_last() =~= views(items@).subrange(0, i as int));
            assert(accept@.subrange(0, i + 1).drop_last() =~= accept@.subrange(0, i as int));
        }
        if accept[i] {
            let c = items[i].clone();
            assert(c@ =~= items@[i as int]@);
            r.push(c);
            assert(views(r@) =~= accepted_of(views(items@).subrange(0, i as int), accept@.subrange(0, i as int)).push(items@[i as int]@));
        }
        i = i + 1;
    }
    assert(views(items@).subrange(0, i as int) =~= views(items@));
    assert(accept@.subrange(0, i as int) =~= accept@);
    r
}

/// An accept record that asks for nothing has no item sent.
pub proof fn lemma_nothing_accepted_nothing_sent(items: Seq<Seq<u8>>, flags: Seq<bool>)
    requires
        forall|i: int| 0 <= i < flags.len() ==> !#[trigger] flags[i],
    ensures
        accepted_of(items, flags).len() == 0,
    decreases items.len(),
{
    if items.len() > 0 && flags.len() > 0 {
        assert(!flags[flags.len() - 1]);
        lemma_nothing_accepted_nothing_sent(items.drop_last(), flags.drop_last());
    }
}

/// Only accepted items are sent: at most one per flag set.
pub proof fn lemma_accepted_bounded(items: Seq<Seq<u8>>, flags: Seq<bool>)
    ensures
        accepted_of(items, flags).len() <= items.len(),
        accepted_of(items, flags).len() <= flags.len(),
    decreases items.len(),
{
    if items.len() > 0 && flags.len() > 0 {
        lemma_accepted_bounded(items.drop_last(), flags.drop_last());
    }
}

} // verus!
