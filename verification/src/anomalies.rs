//! What is out of order in a set of requests: heads that several requests
//! have, branches that several requests target, and rings. The first two
//! are settled by taking the later request and are worth a warning. A ring
//! is still handed out as a stack, so that no request is lost, but nothing
//! is planned for it: it is an error to report.

use crate::determinacy::{lemma_chain_distinct, lemma_flatten_origin, lemma_same_before};
use crate::request::{PullRequest, RequestView};
use crate::plan::is_ring;
use crate::stacks::{
    all_positions, consecutive, distinct_heads, follows, is_chain, is_stacking, last_with_base,
    last_with_head, lemma_member_in_range, lemma_one_child, lemma_one_parent, linked, positions,
    requests_at, stack_indices,
};
use vstd::prelude::*;

verus! {

/// `out` lists, in ascending order, the positions below `n` of which
/// `wanted` holds, and no others.
pub open spec fn lists_where(out: Seq<usize>, n: int, wanted: spec_fn(int) -> bool) -> bool {
    &&& forall|a: int, b: int| 0 <= a < b < out.len() ==> out[a] < out[b]
    &&& forall|a: int| 0 <= a < out.len() ==> out[a] < n && wanted(#[trigger] out[a] as int)
    &&& forall|i: usize| i < n && wanted(i as int) ==> #[trigger] out.contains(i)
}

/// A later request has the head of the request at `i`, which therefore is
/// nobody's parent.
pub open spec fn head_shared_later(requests: Seq<RequestView>, i: int) -> bool {
    exists|j: int| i < j < requests.len() && (#[trigger] requests[j]).head == requests[i].head
}

/// The request at `i` targets the branch of a request, and a later request
/// targets that branch too: the later one follows the parent, and the
/// request at `i` starts a stack of its own.
pub open spec fn base_shared_later(requests: Seq<RequestView>, i: int) -> bool {
    &&& exists|j: int| i < j < requests.len() && (#[trigger] requests[j]).base == requests[i].base
    &&& exists|p: int| 0 <= p < requests.len() && (#[trigger] requests[p]).head == requests[i].base
}

/// `ring` is a ring, cut open so that the request at `i`, its earliest, is
/// its last.
pub open spec fn is_ring_ending(requests: Seq<RequestView>, ring: Seq<int>, i: int) -> bool {
    &&& ring.len() > 0
    &&& ring.no_duplicates()
    &&& consecutive(requests, ring)
    &&& linked(requests, ring.last(), ring[0])
    &&& ring.last() == i
    &&& ring.min() == i
}

/// The request at `i` is the earliest of a ring.
pub open spec fn closes_ring(requests: Seq<RequestView>, i: int) -> bool {
    exists|ring: Seq<int>| #[trigger] is_ring_ending(requests, ring, i)
}

/// A ring is a chain of the stacking, whole and in the same cut.
proof fn lemma_ring_is_stacked(
    requests: Seq<RequestView>,
    chains: Seq<Seq<int>>,
    ring: Seq<int>,
    k: int,
    b: int,
)
    requires
        is_stacking(requests, chains),
        is_ring_ending(requests, ring, ring.last()),
        0 <= k < chains.len(),
        0 <= b < chains[k].len(),
        chains[k][b] == ring.last(),
    ensures
        chains[k].last() == ring.last(),
        linked(requests, chains[k].last(), chains[k][0]),
{
    let c = chains[k];
    let a = ring.len() - 1;
    let i = ring.last();
    assert(is_chain(requests, c));
    lemma_chain_distinct(requests, chains, k);
    if a < b {
        lemma_same_before(requests, ring, c, a, b, a);
        assert(linked(requests, c[b - a - 1], c[b - a - 1 + 1]));
        lemma_one_parent(requests, c[b - a - 1], i, ring[0]);
        assert(c[b - a - 1] == c[b]);
    }
    if b < a {
        lemma_same_before(requests, c, ring, b, a, b);
        assert(linked(requests, ring[a - b - 1], ring[a - b - 1 + 1]));
        c.min_ensures();
        ring.min_ensures();
        assert(c.min() <= c[b]);
        assert(ring.min() <= ring[a - b - 1]);
        assert(ring[a - b - 1] == ring[a]);
    }
    lemma_same_before(requests, ring, c, a, b, a);
    if b < c.len() - 1 {
        assert(linked(requests, c[b], c[b + 1]));
        lemma_one_child(requests, i, c[b + 1], ring[0]);
        assert(c[b + 1] == c[0]);
    }
}

/// The last request that targets what the request at `i` targets.
proof fn lemma_last_on_base(requests: Seq<RequestView>, i: int) -> (d: int)
    requires
        0 <= i < requests.len(),
    ensures
        i <= d < requests.len(),
        requests[d].base == requests[i].base,
        forall|j: int| d < j < requests.len() ==> (#[trigger] requests[j]).base != requests[i].base,
    decreases requests.len() - i,
{
    if exists|j: int| i < j < requests.len() && (#[trigger] requests[j]).base == requests[i].base {
        let j = choose|j: int|
            i < j < requests.len() && (#[trigger] requests[j]).base == requests[i].base;
        lemma_last_on_base(requests, j)
    } else {
        i
    }
}

/// Where no two requests share a head, a stack is a ring exactly where its
/// first member targets the branch of its last: this is how the plan tells
/// a ring.
pub proof fn lemma_ring_by_branches(requests: Seq<RequestView>, chains: Seq<Seq<int>>, k: int)
    requires
        is_stacking(requests, chains),
        distinct_heads(requests),
        0 <= k < chains.len(),
    ensures
        is_ring(requests_at(requests, chains)[k]) <==> linked(
            requests,
            chains[k].last(),
            chains[k][0],
        ),
{
    let c = chains[k];
    let stack = requests_at(requests, chains)[k];
    assert(is_chain(requests, c));
    lemma_member_in_range(requests, chains, k, 0);
    lemma_member_in_range(requests, chains, k, c.len() - 1);
    let first = c[0];
    let last = c.last();
    assert(stack[0] == requests[first]);
    assert(stack.last() == requests[last]);
    if is_ring(stack) {
        let heir = lemma_last_on_base(requests, first);
        assert(linked(requests, last, heir));
    }
}

/// The requests whose head a later request has too.
pub fn shadowed_heads(prs: &Vec<PullRequest>) -> (out: Vec<usize>)
    ensures
        lists_where(out@, prs.len() as int, |i: int| head_shared_later(prs.deep_view(), i)),
{
    let ghost requests = prs.deep_view();
    let mut out: Vec<usize> = Vec::new();
    let mut i: usize = 0;
    while i < prs.len()
        invariant
            i <= prs.len(),
            requests == prs.deep_view(),
            lists_where(out@, i as int, |i: int| head_shared_later(requests, i)),
        decreases prs.len() - i,
    {
        assert(requests[i as int] == prs[i as int]@);
        let owner = last_with_head(prs, &prs[i].head);
        let ghost before = out@;
        if owner != Some(i) {
            assert(head_shared_later(requests, i as int)) by {
                assert(requests[owner->0 as int].head == requests[i as int].head);
            }
            out.push(i);
            assert forall|x: usize| x < i && head_shared_later(requests, x as int) implies out@.contains(
                x,
            ) by {
                assert(before.contains(x));
                let t = choose|t: int| 0 <= t < before.len() && before[t] == x;
                assert(out@[t] == x);
            }
            assert(out@[before.len() as int] == i);
        }
        i += 1;
    }
    out
}

/// The requests that were passed over: they target a request's branch, and
/// so does a later request.
pub fn passed_over(prs: &Vec<PullRequest>) -> (out: Vec<usize>)
    ensures
        lists_where(out@, prs.len() as int, |i: int| base_shared_later(prs.deep_view(), i)),
{
    let ghost requests = prs.deep_view();
    let mut out: Vec<usize> = Vec::new();
    let mut i: usize = 0;
    while i < prs.len()
        invariant
            i <= prs.len(),
            requests == prs.deep_view(),
            lists_where(out@, i as int, |i: int| base_shared_later(requests, i)),
        decreases prs.len() - i,
    {
        assert(requests[i as int] == prs[i as int]@);
        let heir = last_with_base(prs, &prs[i].base);
        let parent = last_with_head(prs, &prs[i].base);
        let ghost before = out@;
        if heir != Some(i) && parent.is_some() {
            assert(base_shared_later(requests, i as int)) by {
                assert(requests[heir->0 as int].base == requests[i as int].base);
                assert(requests[parent->0 as int].head == requests[i as int].base);
            }
            out.push(i);
            assert forall|x: usize| x < i && base_shared_later(requests, x as int) implies out@.contains(
                x,
            ) by {
                assert(before.contains(x));
                let t = choose|t: int| 0 <= t < before.len() && before[t] == x;
                assert(out@[t] == x);
            }
            assert(out@[before.len() as int] == i);
        }
        i += 1;
    }
    out
}

/// The requests that are the earliest of a ring.
pub fn ring_ends(prs: &Vec<PullRequest>) -> (out: Vec<usize>)
    ensures
        lists_where(out@, prs.len() as int, |i: int| closes_ring(prs.deep_view(), i)),
{
    let ghost requests = prs.deep_view();
    let order = stack_indices(prs);
    let ghost chains = all_positions(order.deep_view());
    let mut out: Vec<usize> = Vec::new();
    let mut k: usize = 0;
    while k < order.len()
        invariant
            k <= order.len(),
            requests == prs.deep_view(),
            chains == all_positions(order.deep_view()),
            is_stacking(requests, chains),
            forall|a: int, b: int| 0 <= a < b < out.len() ==> out[a] < out[b],
            forall|a: int|
                0 <= a < out.len() ==> out[a] < prs.len() && closes_ring(
                    requests,
                    #[trigger] out[a] as int,
                ),
            forall|a: int, t: int|
                0 <= a < out.len() && k <= t < chains.len() ==> (#[trigger] out[a]) < (
                #[trigger] chains[t]).min(),
            forall|t: int|
                0 <= t < k && linked(requests, (#[trigger] chains[t]).last(), chains[t][0])
                    ==> out@.contains(chains[t].last() as usize),
        decreases order.len() - k,
    {
        let chain = &order[k];
        let ghost c = chains[k as int];
        let ghost before = out@;
        proof {
            assert(c == positions(chain@));
            assert(is_chain(requests, c));
            lemma_member_in_range(requests, chains, k as int, 0);
            lemma_member_in_range(requests, chains, k as int, c.len() - 1);
        }
        let last = chain[chain.len() - 1];
        let first = chain[0];
        if follows(prs, last, first) {
            proof {
                lemma_chain_distinct(requests, chains, k as int);
                assert(is_ring_ending(requests, c, last as int));
                assert(out@.len() > 0 ==> out@[out@.len() - 1] < c.min());
            }
            out.push(last);
            proof {
                assert(out@[before.len() as int] == last);
                assert forall|t: int|
                    0 <= t < k + 1 && linked(
                        requests,
                        (#[trigger] chains[t]).last(),
                        chains[t][0],
                    ) implies out@.contains(chains[t].last() as usize) by {
                    if t < k {
                        let at = choose|at: int|
                            0 <= at < before.len() && before[at] == chains[t].last() as usize;
                        assert(out@[at] == before[at]);
                    }
                }
            }
        }
        k += 1;
    }
    proof {
        assert forall|i: usize| i < prs.len() && closes_ring(requests, i as int) implies out@.contains(
            i,
        ) by {
            let ring = choose|ring: Seq<int>| #[trigger] is_ring_ending(requests, ring, i as int);
            assert(chains.flatten().contains(i as int));
            let (kk, b) = lemma_flatten_origin(chains, i as int);
            lemma_ring_is_stacked(requests, chains, ring, kk, b);
            assert(chains[kk].last() as usize == i);
        }
    }
    out
}

} // verus!
