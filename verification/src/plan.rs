//! Which requests get which navigation block.

use crate::nav::{footer, has_marker, header, nav_block, render_nav_block};
use crate::request::{PullRequest, RequestView};
use crate::text::occurs;
use vstd::prelude::*;

verus! {

/// A request together with the navigation block that it is to carry; an
/// empty block means that the request is to lose the block it has.
#[derive(Debug)]
pub struct Update {
    pub request: PullRequest,
    pub block: String,
}

/// What an `Update` holds, as plain mathematical values.
pub struct UpdateView {
    pub request: RequestView,
    pub block: Seq<char>,
}

impl View for Update {
    type V = UpdateView;

    open spec fn view(&self) -> UpdateView {
        UpdateView { request: self.request@, block: self.block@ }
    }
}

impl DeepView for Update {
    type V = UpdateView;

    open spec fn deep_view(&self) -> UpdateView {
        self.view()
    }
}

/// Whether a request on its own still carries a marker of a block.
pub open spec fn is_stale(request: RequestView) -> bool {
    occurs(request.body, header()) || occurs(request.body, footer())
}

/// Whether `chain` is a ring: its first member targets the branch of its
/// last, so that the stack has no root.
pub open spec fn is_ring(chain: Seq<RequestView>) -> bool {
    chain.len() > 0 && chain[0].base == chain.last().head
}

/// The updates for one stack. A ring gets none: its order means nothing, and
/// its descriptions are left alone. Otherwise every member of a stack of two
/// or more gets the block of that stack, seen from itself; a request on its
/// own gets an empty block where its description still carries a marker, and
/// nothing otherwise.
pub open spec fn chain_updates(chain: Seq<RequestView>) -> Seq<UpdateView> {
    if is_ring(chain) {
        Seq::empty()
    } else if chain.len() >= 2 {
        chain.map_values(
            |member: RequestView|
                UpdateView { request: member, block: nav_block(chain, member.head) },
        )
    } else if chain.len() == 1 && is_stale(chain[0]) {
        seq![UpdateView { request: chain[0], block: Seq::empty() }]
    } else {
        Seq::empty()
    }
}

/// The updates for all stacks: stack after stack, and within a stack member
/// after member.
pub open spec fn planned(stacks: Seq<Seq<RequestView>>) -> Seq<UpdateView> {
    stacks.map_values(|chain: Seq<RequestView>| chain_updates(chain)).flatten()
}

/// Appends the updates for `chain` to `updates`.
fn plan_chain(chain: &Vec<PullRequest>, updates: &mut Vec<Update>)
    ensures
        final(updates).deep_view() == old(updates).deep_view() + chain_updates(chain.deep_view()),
{
    let ghost members = chain.deep_view();
    let ghost before = updates.deep_view();
    if chain.len() == 0 {
        assert(updates.deep_view() =~= before + chain_updates(members));
        return;
    }
    proof {
        assert(members[0] == chain[0]@);
        assert(members[chain.len() - 1] == chain[chain.len() - 1]@);
    }
    if chain[0].base == chain[chain.len() - 1].head {
        assert(updates.deep_view() =~= before + chain_updates(members));
    } else if chain.len() >= 2 {
        let ghost wanted = chain_updates(members);
        let mut j: usize = 0;
        while j < chain.len()
            invariant
                j <= chain.len(),
                chain.len() >= 2,
                members == chain.deep_view(),
                !is_ring(members),
                wanted == chain_updates(members),
                updates.deep_view() == before + wanted.take(j as int),
            decreases chain.len() - j,
        {
            let member = &chain[j];
            let block = render_nav_block(chain, &member.head);
            let ghost so_far = updates.deep_view();
            let update = Update { request: member.clone(), block };
            proof {
                assert(members[j as int] == member@);
                assert(update@ == wanted[j as int]);
            }
            updates.push(update);
            proof {
                assert(updates.deep_view() =~= so_far.push(wanted[j as int]));
                assert(wanted.take(j + 1) =~= wanted.take(j as int).push(wanted[j as int]));
            }
            j += 1;
        }
        assert(wanted.take(chain.len() as int) =~= wanted);
    } else {
        let only = &chain[0];
        if has_marker(only.body.as_str()) {
            let update = Update { request: only.clone(), block: String::new() };
            updates.push(update);
        }
        assert(updates.deep_view() =~= before + chain_updates(members));
    }
}

/// Plans the navigation blocks for `stacks`: none for a ring, one for every
/// member of another stack of two or more, and an empty one for a request on
/// its own that still carries a marker.
pub fn plan_updates(stacks: &Vec<Vec<PullRequest>>) -> (updates: Vec<Update>)
    ensures
        updates.deep_view() == planned(stacks.deep_view()),
{
    let ghost chains = stacks.deep_view();
    let ghost parts = chains.map_values(|chain: Seq<RequestView>| chain_updates(chain));
    let mut updates: Vec<Update> = Vec::new();
    let mut k: usize = 0;
    assert(parts.take(0) =~= Seq::<Seq<UpdateView>>::empty());
    assert(updates.deep_view() =~= parts.take(0).flatten());
    while k < stacks.len()
        invariant
            k <= stacks.len(),
            chains == stacks.deep_view(),
            parts == chains.map_values(|chain: Seq<RequestView>| chain_updates(chain)),
            updates.deep_view() == parts.take(k as int).flatten(),
        decreases stacks.len() - k,
    {
        plan_chain(&stacks[k], &mut updates);
        proof {
            assert(chains[k as int] == stacks[k as int].deep_view());
            assert(parts.take(k + 1) =~= parts.take(k as int).push(parts[k as int]));
            parts.take(k as int).lemma_flatten_push(parts[k as int]);
        }
        k += 1;
    }
    assert(parts.take(stacks.len() as int) =~= parts);
    updates
}

} // verus!
