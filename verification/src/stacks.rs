//! Rebuilding the stacks from an unordered set of requests.
//!
//! Requests are told apart by their position in the input. A request
//! follows another in a stack where it targets the other's branch; where
//! several requests share a head, or several target one branch, the last of
//! them in the input is the one that counts, and the others start stacks of
//! their own. Every request therefore has at most one predecessor and at most
//! one successor, and the input falls apart into paths and rings. A path is a
//! stack from its root to its tip. A ring has no root: it is cut open so that
//! its earliest request comes last.
//!
//! Who precedes and who follows each request is looked up once, in two
//! tables by position; the walks then only read the tables. Branch names
//! are compared as texts, so each entry of a table is found by going through
//! the requests, and filling the tables takes time quadratic in their number.

use crate::request::{PullRequest, RequestView};
use vstd::prelude::*;
use vstd::seq_lib::*;
use vstd::set_lib::*;

verus! {

/// The request at `child` directly follows the one at `parent`: it targets
/// `parent`'s branch, no later request has `parent`'s head, and no later
/// request targets that branch.
pub open spec fn linked(requests: Seq<RequestView>, parent: int, child: int) -> bool {
    &&& 0 <= parent < requests.len()
    &&& 0 <= child < requests.len()
    &&& requests[child].base == requests[parent].head
    &&& forall|j: int|
        parent < j < requests.len() ==> (#[trigger] requests[j]).head != requests[parent].head
    &&& forall|j: int|
        child < j < requests.len() ==> (#[trigger] requests[j]).base != requests[child].base
}

/// Every member of `chain` is a position below `n`.
pub open spec fn in_range(chain: Seq<int>, n: int) -> bool {
    forall|j: int| 0 <= j < chain.len() ==> 0 <= #[trigger] chain[j] < n
}

/// Each member of `chain` but the last is directly followed by the next.
pub open spec fn consecutive(requests: Seq<RequestView>, chain: Seq<int>) -> bool {
    forall|j: int| 0 <= j < chain.len() - 1 ==> linked(requests, #[trigger] chain[j], chain[j + 1])
}

/// `chain` is a whole stack, root first: nothing precedes its first member
/// and nothing follows its last, unless it is a ring, which closes from its
/// last member to its first and is cut so that its earliest member is last.
pub open spec fn is_chain(requests: Seq<RequestView>, chain: Seq<int>) -> bool {
    &&& chain.len() > 0
    &&& consecutive(requests, chain)
    &&& forall|p: int| #[trigger]
        linked(requests, p, chain[0]) ==> p == chain.last() && chain.last() == chain.min()
    &&& forall|c: int| #[trigger] linked(requests, chain.last(), c) ==> c == chain[0]
}

/// `chains` is the stacking of `requests`: every position stands in exactly
/// one chain, every chain is a whole stack, and the chains are in the order
/// in which their earliest members stand in the input.
pub open spec fn is_stacking(requests: Seq<RequestView>, chains: Seq<Seq<int>>) -> bool {
    let all = chains.flatten();
    &&& all.no_duplicates()
    &&& in_range(all, requests.len() as int)
    &&& forall|i: int| 0 <= i < requests.len() ==> all.contains(i)
    &&& forall|k: int| 0 <= k < chains.len() ==> is_chain(requests, #[trigger] chains[k])
    &&& forall|k: int, l: int|
        0 <= k < l < chains.len() ==> (#[trigger] chains[k]).min() < (#[trigger] chains[l]).min()
}

/// The positions that a vector of indices holds.
pub open spec fn positions(chain: Seq<usize>) -> Seq<int> {
    chain.map_values(|i: usize| i as int)
}

/// The positions that each of several vectors of indices holds.
pub open spec fn all_positions(chains: Seq<Seq<usize>>) -> Seq<Seq<int>> {
    chains.map_values(|chain: Seq<usize>| positions(chain))
}

/// The requests at the positions that `chains` names.
pub open spec fn requests_at(requests: Seq<RequestView>, chains: Seq<Seq<int>>) -> Seq<
    Seq<RequestView>,
> {
    chains.map_values(|chain: Seq<int>| chain.map_values(|i: int| requests[i]))
}

/// `stacks` holds the requests of `requests`, arranged as their stacking
/// says.
pub open spec fn is_stacks_of(requests: Seq<RequestView>, stacks: Seq<Seq<RequestView>>) -> bool {
    exists|chains: Seq<Seq<int>>| #[trigger]
        is_stacking(requests, chains) && stacks == requests_at(requests, chains)
}

/// A request has at most one predecessor.
pub proof fn lemma_one_parent(requests: Seq<RequestView>, p1: int, p2: int, c: int)
    requires
        linked(requests, p1, c),
        linked(requests, p2, c),
    ensures
        p1 == p2,
{
    if p1 < p2 {
        assert(requests[p2].head != requests[p1].head);
    } else if p2 < p1 {
        assert(requests[p1].head != requests[p2].head);
    }
}

/// A request has at most one successor.
pub proof fn lemma_one_child(requests: Seq<RequestView>, p: int, c1: int, c2: int)
    requires
        linked(requests, p, c1),
        linked(requests, p, c2),
    ensures
        c1 == c2,
{
    if c1 < c2 {
        assert(requests[c2].base != requests[c1].base);
    } else if c2 < c1 {
        assert(requests[c1].base != requests[c2].base);
    }
}

/// Distinct positions below `n` are at most `n`.
proof fn lemma_distinct_below(s: Seq<int>, n: int)
    requires
        0 <= n,
        s.no_duplicates(),
        in_range(s, n),
    ensures
        s.len() <= n,
{
    s.unique_seq_to_set();
    lemma_int_range(0, n);
    assert forall|x: int| s.to_set().contains(x) implies set_int_range(0, n).contains(x) by {
        let j = choose|j: int| 0 <= j < s.len() && s[j] == x;
        assert(0 <= s[j] < n);
    }
    lemma_len_subset(s.to_set(), set_int_range(0, n));
}

/// A sequence with one more member holds what it held and that member.
proof fn lemma_push_holds(s: Seq<int>, member: int)
    ensures
        forall|x: int| s.push(member).contains(x) <==> s.contains(x) || x == member,
{
    let longer = s.push(member);
    assert forall|x: int| longer.contains(x) <==> s.contains(x) || x == member by {
        if s.contains(x) {
            let t = choose|t: int| 0 <= t < s.len() && s[t] == x;
            assert(longer[t] == x);
        }
        if x == member {
            assert(longer[s.len() as int] == x);
        }
    }
}

/// The least member of a sequence is the member that no other is below.
proof fn lemma_min_is(s: Seq<int>, m: int)
    requires
        s.contains(m),
        forall|j: int| 0 <= j < s.len() ==> m <= #[trigger] s[j],
    ensures
        s.min() == m,
{
    s.min_ensures();
    let j = choose|j: int| 0 <= j < s.len() && s[j] == s.min();
    assert(m <= s[j]);
}

/// No position of `all` is linked to a position outside it.
spec fn closed(requests: Seq<RequestView>, all: Seq<int>) -> bool {
    forall|p: int, c: int| #[trigger] linked(requests, p, c) ==> (all.contains(p) <==> all.contains(c))
}

/// What holds of the chains found once the first `upto` requests have been
/// looked at.
spec fn stacked_upto(requests: Seq<RequestView>, chains: Seq<Seq<int>>, upto: int) -> bool {
    let all = chains.flatten();
    &&& all.no_duplicates()
    &&& in_range(all, requests.len() as int)
    &&& forall|i: int| 0 <= i < upto ==> all.contains(i)
    &&& forall|k: int| 0 <= k < chains.len() ==> is_chain(requests, #[trigger] chains[k])
    &&& forall|k: int, l: int|
        0 <= k < l < chains.len() ==> (#[trigger] chains[k]).min() < (#[trigger] chains[l]).min()
    &&& forall|k: int| 0 <= k < chains.len() ==> (#[trigger] chains[k]).min() < upto
    &&& closed(requests, all)
}

/// `chain` is a path: nothing precedes its first member, nothing follows its
/// last.
spec fn is_path(requests: Seq<RequestView>, chain: Seq<int>) -> bool {
    &&& forall|p: int| !linked(requests, p, chain[0])
    &&& forall|c: int| !linked(requests, chain.last(), c)
}

/// `chain` is a ring that closes from `start`, its last member, to its first.
spec fn is_ring(requests: Seq<RequestView>, chain: Seq<int>, start: int) -> bool {
    &&& chain.last() == start
    &&& linked(requests, start, chain[0])
}

/// What holds of the chain that is found from the unstacked position `start`,
/// given the positions `seen` that are stacked already.
spec fn is_new_chain(
    requests: Seq<RequestView>,
    seen: Seq<int>,
    start: int,
    chain: Seq<int>,
) -> bool {
    &&& chain.len() > 0
    &&& consecutive(requests, chain)
    &&& chain.no_duplicates()
    &&& in_range(chain, requests.len() as int)
    &&& forall|j: int| 0 <= j < chain.len() ==> !seen.contains(#[trigger] chain[j])
    &&& chain.contains(start)
    &&& is_path(requests, chain) || is_ring(requests, chain, start)
}

/// The chains found so far stay in order when the chain through the next
/// unstacked position is put behind them.
#[verifier::rlimit(40)]
proof fn lemma_stack_one_more(
    requests: Seq<RequestView>,
    chains: Seq<Seq<int>>,
    upto: int,
    chain: Seq<int>,
)
    requires
        stacked_upto(requests, chains, upto),
        0 <= upto < requests.len(),
        is_new_chain(requests, chains.flatten(), upto, chain),
    ensures
        stacked_upto(requests, chains.push(chain), upto + 1),
        chains.push(chain).flatten() == chains.flatten() + chain,
{
    let all = chains.flatten();
    let more = chains.push(chain);
    let grown = more.flatten();
    chains.lemma_flatten_push(chain);
    assert(grown == all + chain);
    lemma_no_dup_in_concat(all, chain);
    assert(in_range(grown, requests.len() as int));
    assert forall|x: int| grown.contains(x) <==> all.contains(x) || chain.contains(x) by {
        if all.contains(x) {
            let t = choose|t: int| 0 <= t < all.len() && all[t] == x;
            assert(grown[t] == x);
        }
        if chain.contains(x) {
            let t = choose|t: int| 0 <= t < chain.len() && chain[t] == x;
            assert(grown[all.len() + t] == x);
        }
        if grown.contains(x) {
            let t = choose|t: int| 0 <= t < grown.len() && grown[t] == x;
            if t < all.len() {
                assert(all[t] == x);
            } else {
                assert(chain[t - all.len()] == x);
            }
        }
    }
    assert forall|j: int| 0 <= j < chain.len() implies upto <= #[trigger] chain[j] by {
        if chain[j] < upto {
            assert(all.contains(chain[j]));
        }
    }
    lemma_min_is(chain, upto);
    assert(is_chain(requests, chain)) by {
        assert forall|p: int| #[trigger] linked(requests, p, chain[0]) implies p == chain.last()
            && chain.last() == chain.min() by {
            if is_ring(requests, chain, upto) {
                lemma_one_parent(requests, p, upto, chain[0]);
            }
        }
        assert forall|c: int| #[trigger] linked(requests, chain.last(), c) implies c == chain[0] by {
            if is_ring(requests, chain, upto) {
                lemma_one_child(requests, upto, c, chain[0]);
            }
        }
    }
    assert forall|k: int| 0 <= k < more.len() implies is_chain(requests, #[trigger] more[k]) by {
        if k < chains.len() {
            assert(more[k] == chains[k]);
        }
    }
    assert forall|k: int| 0 <= k < more.len() implies (#[trigger] more[k]).min() < upto + 1 by {
        if k < chains.len() {
            assert(more[k] == chains[k]);
        }
    }
    assert forall|k: int, l: int| 0 <= k < l < more.len() implies (#[trigger] more[k]).min() < (
    #[trigger] more[l]).min() by {
        assert(more[k] == chains[k]);
        if l < chains.len() {
            assert(more[l] == chains[l]);
        }
    }
    assert forall|p: int, c: int| #[trigger] linked(requests, p, c) implies (grown.contains(p)
        <==> grown.contains(c)) by {
        if chain.contains(p) {
            let j = choose|j: int| 0 <= j < chain.len() && chain[j] == p;
            if j < chain.len() - 1 {
                lemma_one_child(requests, p, c, chain[j + 1]);
                assert(chain.contains(chain[j + 1]));
            } else if is_ring(requests, chain, upto) {
                lemma_one_child(requests, p, c, chain[0]);
                assert(chain.contains(chain[0]));
            } else {
                assert(!linked(requests, chain.last(), c));
            }
        }
        if chain.contains(c) {
            let j = choose|j: int| 0 <= j < chain.len() && chain[j] == c;
            if j > 0 {
                assert(linked(requests, chain[j - 1], chain[j - 1 + 1]));
                lemma_one_parent(requests, p, chain[j - 1], c);
                assert(chain.contains(chain[j - 1]));
            } else if is_ring(requests, chain, upto) {
                lemma_one_parent(requests, p, upto, c);
                assert(chain.contains(chain.last()));
            } else {
                assert(!linked(requests, p, chain[0]));
            }
        }
    }
}

/// `table` names the predecessor of each request.
spec fn is_parent_table(requests: Seq<RequestView>, table: Seq<Option<usize>>) -> bool {
    &&& table.len() == requests.len()
    &&& forall|c: int|
        0 <= c < table.len() ==> match #[trigger] table[c] {
            Some(p) => linked(requests, p as int, c),
            None => forall|p: int| !linked(requests, p, c),
        }
}

/// `table` names the successor of each request.
spec fn is_child_table(requests: Seq<RequestView>, table: Seq<Option<usize>>) -> bool {
    &&& table.len() == requests.len()
    &&& forall|p: int|
        0 <= p < table.len() ==> match #[trigger] table[p] {
            Some(c) => linked(requests, p, c as int),
            None => forall|c: int| !linked(requests, p, c),
        }
}

/// The last request whose head is `branch`.
pub fn last_with_head(prs: &Vec<PullRequest>, branch: &String) -> (found: Option<usize>)
    ensures
        match found {
            Some(i) => {
                &&& i < prs.len()
                &&& prs.deep_view()[i as int].head == branch@
                &&& forall|j: int|
                    i < j < prs.len() ==> (#[trigger] prs.deep_view()[j]).head != branch@
            },
            None => forall|j: int|
                0 <= j < prs.len() ==> (#[trigger] prs.deep_view()[j]).head != branch@,
        },
{
    let mut i: usize = prs.len();
    while i > 0
        invariant
            i <= prs.len(),
            forall|j: int| i <= j < prs.len() ==> (#[trigger] prs.deep_view()[j]).head != branch@,
        decreases i,
    {
        i -= 1;
        assert(prs.deep_view()[i as int] == prs[i as int]@);
        if prs[i].head == *branch {
            return Some(i);
        }
    }
    None
}

/// The last request that targets `branch`.
pub fn last_with_base(prs: &Vec<PullRequest>, branch: &String) -> (found: Option<usize>)
    ensures
        match found {
            Some(i) => {
                &&& i < prs.len()
                &&& prs.deep_view()[i as int].base == branch@
                &&& forall|j: int|
                    i < j < prs.len() ==> (#[trigger] prs.deep_view()[j]).base != branch@
            },
            None => forall|j: int|
                0 <= j < prs.len() ==> (#[trigger] prs.deep_view()[j]).base != branch@,
        },
{
    let mut i: usize = prs.len();
    while i > 0
        invariant
            i <= prs.len(),
            forall|j: int| i <= j < prs.len() ==> (#[trigger] prs.deep_view()[j]).base != branch@,
        decreases i,
    {
        i -= 1;
        assert(prs.deep_view()[i as int] == prs[i as int]@);
        if prs[i].base == *branch {
            return Some(i);
        }
    }
    None
}

/// Whether the request at `child` directly follows the one at `parent`.
pub fn follows(prs: &Vec<PullRequest>, parent: usize, child: usize) -> (b: bool)
    ensures
        b == linked(prs.deep_view(), parent as int, child as int),
{
    if parent >= prs.len() || child >= prs.len() {
        return false;
    }
    let ghost requests = prs.deep_view();
    assert(requests[parent as int] == prs[parent as int]@);
    assert(requests[child as int] == prs[child as int]@);
    if prs[child].base != prs[parent].head {
        return false;
    }
    let owner = last_with_head(prs, &prs[parent].head);
    let heir = last_with_base(prs, &prs[child].base);
    owner == Some(parent) && heir == Some(child)
}

/// The predecessor of each request.
fn parents_of(prs: &Vec<PullRequest>) -> (table: Vec<Option<usize>>)
    ensures
        is_parent_table(prs.deep_view(), table@),
{
    let ghost requests = prs.deep_view();
    let mut table: Vec<Option<usize>> = Vec::new();
    let mut c: usize = 0;
    while c < prs.len()
        invariant
            c <= prs.len(),
            requests == prs.deep_view(),
            table.len() == c,
            forall|x: int|
                0 <= x < c ==> match #[trigger] table@[x] {
                    Some(p) => linked(requests, p as int, x),
                    None => forall|p: int| !linked(requests, p, x),
                },
        decreases prs.len() - c,
    {
        assert(requests[c as int] == prs[c as int]@);
        let mut entry: Option<usize> = None;
        let rival = last_with_base(prs, &prs[c].base);
        if rival == Some(c) {
            entry = last_with_head(prs, &prs[c].base);
        }
        table.push(entry);
        c += 1;
    }
    table
}

/// The successor of each request.
fn children_of(prs: &Vec<PullRequest>) -> (table: Vec<Option<usize>>)
    ensures
        is_child_table(prs.deep_view(), table@),
{
    let ghost requests = prs.deep_view();
    let mut table: Vec<Option<usize>> = Vec::new();
    let mut p: usize = 0;
    while p < prs.len()
        invariant
            p <= prs.len(),
            requests == prs.deep_view(),
            table.len() == p,
            forall|x: int|
                0 <= x < p ==> match #[trigger] table@[x] {
                    Some(c) => linked(requests, x, c as int),
                    None => forall|c: int| !linked(requests, x, c),
                },
        decreases prs.len() - p,
    {
        assert(requests[p as int] == prs[p as int]@);
        let mut entry: Option<usize> = None;
        let rival = last_with_head(prs, &prs[p].head);
        if rival == Some(p) {
            entry = last_with_base(prs, &prs[p].head);
        }
        table.push(entry);
        p += 1;
    }
    table
}

/// Whether `step` leads to a position other than `origin`.
fn leads_elsewhere(step: Option<usize>, origin: usize) -> (b: bool)
    ensures
        b == (step is Some && step != Some(origin)),
{
    match step {
        Some(to) => to != origin,
        None => false,
    }
}

/// The chain through the unstacked position `start`, whose members it marks
/// in `visited`.
fn chain_through(
    parents: &Vec<Option<usize>>,
    children: &Vec<Option<usize>>,
    visited: &mut Vec<bool>,
    start: usize,
    Ghost(requests): Ghost<Seq<RequestView>>,
    Ghost(seen): Ghost<Seq<int>>,
) -> (chain: Vec<usize>)
    requires
        is_parent_table(requests, parents@),
        is_child_table(requests, children@),
        old(visited).len() == requests.len(),
        start < requests.len(),
        seen.no_duplicates(),
        in_range(seen, requests.len() as int),
        closed(requests, seen),
        !seen.contains(start as int),
        forall|x: int| 0 <= x < requests.len() ==> (old(visited)@[x] <==> seen.contains(x)),
    ensures
        is_new_chain(requests, seen, start as int, positions(chain@)),
        final(visited).len() == requests.len(),
        forall|x: int|
            0 <= x < requests.len() ==> (final(visited)@[x] <==> seen.contains(x) || positions(
                chain@,
            ).contains(x)),
{
    let ghost n = requests.len() as int;
    // The ancestors of `start`, nearest first.
    let mut back: Vec<usize> = Vec::new();
    let mut top: usize = start;
    let mut up: Option<usize> = parents[start];
    let ghost mut path: Seq<int> = seq![start as int];
    while leads_elsewhere(up, start)
        invariant
            n == requests.len(),
            is_parent_table(requests, parents@),
            closed(requests, seen),
            start < n,
            top < n,
            path == seq![start as int] + positions(back@),
            top as int == path.last(),
            up == parents@[top as int],
            path.no_duplicates(),
            in_range(path, n),
            forall|t: int| 0 <= t < path.len() - 1 ==> linked(requests, path[t + 1], #[trigger] path[t]),
            forall|t: int| 0 <= t < path.len() ==> !seen.contains(#[trigger] path[t]),
        decreases n - path.len(),
    {
        let p = up.unwrap();
        proof {
            assert(linked(requests, p as int, top as int));
            assert forall|a: int| 0 <= a < path.len() implies path[a] != p by {
                if path[a] == p && a > 0 {
                    assert(linked(requests, path[a - 1 + 1], path[a - 1]));
                    lemma_one_child(requests, p as int, path[a - 1], top as int);
                }
            }
            assert(!seen.contains(p as int));
            let longer = path.push(p as int);
            assert(longer.no_duplicates());
            lemma_distinct_below(longer, n);
            assert(longer =~= seq![start as int] + positions(back@.push(p)));
            assert forall|t: int| 0 <= t < longer.len() - 1 implies linked(
                requests,
                longer[t + 1],
                #[trigger] longer[t],
            ) by {
                if t < path.len() - 1 {
                    assert(longer[t] == path[t]);
                    assert(longer[t + 1] == path[t + 1]);
                }
            }
            path = longer;
        }
        back.push(p);
        top = p;
        up = parents[p];
    }
    // The chain so far: the ancestors, farthest first.
    let mut chain: Vec<usize> = Vec::new();
    let ghost m = back.len() as int;
    let mut k: usize = back.len();
    while k > 0
        invariant
            n == requests.len(),
            visited.len() == n,
            k <= back.len() == m,
            path == seq![start as int] + positions(back@),
            in_range(path, n),
            chain.len() == m - k,
            forall|j: int| 0 <= j < chain.len() ==> chain@[j] == #[trigger] path[m - j],
            forall|x: int|
                0 <= x < n ==> (visited@[x] <==> seen.contains(x) || positions(chain@).contains(x)),
        decreases k,
    {
        k -= 1;
        let member = back[k];
        proof {
            assert(path[k + 1] == member);
            assert(0 <= path[k + 1] < n);
            assert(positions(chain@.push(member)) =~= positions(chain@).push(member as int));
            lemma_push_holds(positions(chain@), member as int);
        }
        chain.push(member);
        visited.set(member, true);
    }
    proof {
        assert(positions(chain@.push(start)) =~= positions(chain@).push(start as int));
        lemma_push_holds(positions(chain@), start as int);
    }
    chain.push(start);
    visited.set(start, true);
    let ghost mut cs: Seq<int> = positions(chain@);
    proof {
        assert(cs.len() == m + 1);
        assert forall|j: int| 0 <= j < cs.len() implies cs[j] == path[m - j] by {
            if j < m {
                assert(chain@[j] == path[m - j]);
            }
        }
        assert forall|j: int| 0 <= j < cs.len() - 1 implies linked(
            requests,
            #[trigger] cs[j],
            cs[j + 1],
        ) by {
            assert(linked(requests, path[(m - j - 1) + 1], path[m - j - 1]));
        }
        assert forall|a: int, b: int| 0 <= a < cs.len() && 0 <= b < cs.len() && a != b implies cs[a]
            != cs[b] by {
            assert(path[m - a] != path[m - b]);
        }
        assert(cs[m] == start);
        assert(cs[0] == top);
    }
    if up.is_none() {
        let mut cur: usize = start;
        let mut down: Option<usize> = children[start];
        while down.is_some()
            invariant
                n == requests.len(),
                visited.len() == n,
                is_child_table(requests, children@),
                closed(requests, seen),
                cs == positions(chain@),
                cs.len() > 0,
                cur < n,
                cur as int == cs.last(),
                down == children@[cur as int],
                consecutive(requests, cs),
                cs.no_duplicates(),
                in_range(cs, n),
                forall|j: int| 0 <= j < cs.len() ==> !seen.contains(#[trigger] cs[j]),
                cs.contains(start as int),
                forall|p: int| !linked(requests, p, cs[0]),
                forall|x: int| 0 <= x < n ==> (visited@[x] <==> seen.contains(x) || cs.contains(x)),
            decreases n - cs.len(),
        {
            let c = down.unwrap();
            proof {
                assert(linked(requests, cur as int, c as int));
                assert forall|a: int| 0 <= a < cs.len() implies cs[a] != c by {
                    if cs[a] == c && a > 0 {
                        assert(linked(requests, cs[a - 1], cs[a - 1 + 1]));
                        lemma_one_parent(requests, cur as int, cs[a - 1], c as int);
                    }
                }
                assert(!seen.contains(cs.last()));
                assert(!seen.contains(c as int));
                let longer = cs.push(c as int);
                assert(longer.no_duplicates());
                lemma_distinct_below(longer, n);
                assert(longer =~= positions(chain@.push(c)));
                assert forall|j: int| 0 <= j < longer.len() - 1 implies linked(
                    requests,
                    #[trigger] longer[j],
                    longer[j + 1],
                ) by {
                    if j < cs.len() - 1 {
                        assert(longer[j] == cs[j]);
                        assert(longer[j + 1] == cs[j + 1]);
                    }
                }
                lemma_push_holds(cs, c as int);
                assert(longer[0] == cs[0]);
                cs = longer;
            }
            chain.push(c);
            visited.set(c, true);
            cur = c;
            down = children[c];
        }
        assert(is_path(requests, cs));
    } else {
        assert(is_ring(requests, cs, start as int));
    }
    chain
}

/// The stacking of `prs`, as positions in `prs`.
pub fn stack_indices(prs: &Vec<PullRequest>) -> (chains: Vec<Vec<usize>>)
    ensures
        is_stacking(prs.deep_view(), all_positions(chains.deep_view())),
{
    let ghost requests = prs.deep_view();
    let n = prs.len();
    let parents = parents_of(prs);
    let children = children_of(prs);
    let mut visited: Vec<bool> = Vec::new();
    let mut filled: usize = 0;
    while filled < n
        invariant
            filled <= n,
            visited.len() == filled,
            forall|x: int| 0 <= x < filled ==> !visited@[x],
        decreases n - filled,
    {
        visited.push(false);
        filled += 1;
    }
    let mut chains: Vec<Vec<usize>> = Vec::new();
    let ghost mut done: Seq<Seq<int>> = Seq::empty();
    assert(done =~= all_positions(chains.deep_view()));
    let mut i: usize = 0;
    while i < n
        invariant
            n == prs.len(),
            requests == prs.deep_view(),
            is_parent_table(requests, parents@),
            is_child_table(requests, children@),
            i <= n,
            visited.len() == n,
            done == all_positions(chains.deep_view()),
            stacked_upto(requests, done, i as int),
            forall|x: int| 0 <= x < n ==> (visited@[x] <==> done.flatten().contains(x)),
        decreases n - i,
    {
        if !visited[i] {
            let chain = chain_through(
                &parents,
                &children,
                &mut visited,
                i,
                Ghost(requests),
                Ghost(done.flatten()),
            );
            let ghost cs = positions(chain@);
            let ghost found = chain.deep_view();
            let ghost earlier = chains.deep_view();
            proof {
                lemma_stack_one_more(requests, done, i as int, cs);
                let grown = done.flatten() + cs;
                assert forall|x: int| grown.contains(x) <==> done.flatten().contains(x)
                    || cs.contains(x) by {
                    if done.flatten().contains(x) {
                        let t = choose|t: int|
                            0 <= t < done.flatten().len() && done.flatten()[t] == x;
                        assert(grown[t] == x);
                    }
                    if cs.contains(x) {
                        let t = choose|t: int| 0 <= t < cs.len() && cs[t] == x;
                        assert(grown[done.flatten().len() + t] == x);
                    }
                }
            }
            chains.push(chain);
            proof {
                assert(chains.deep_view() =~= earlier.push(found));
                assert(found =~= chain@);
                assert(done.push(cs) =~= all_positions(chains.deep_view()));
                done = done.push(cs);
            }
        }
        i += 1;
    }
    chains
}

/// Rebuilds the stacks that `prs` form: each stack from its root to its tip,
/// the stacks in the order in which their earliest requests stand in `prs`.
pub fn build_pr_stacks(prs: Vec<PullRequest>) -> (stacks: Vec<Vec<PullRequest>>)
    ensures
        is_stacks_of(prs.deep_view(), stacks.deep_view()),
        stacks.deep_view().flatten().len() == prs.len(),
        forall|k: int| 0 <= k < stacks.len() ==> (#[trigger] stacks[k]).len() > 0,
{
    let ghost requests = prs.deep_view();
    let order = stack_indices(&prs);
    let ghost chains = all_positions(order.deep_view());
    let mut stacks: Vec<Vec<PullRequest>> = Vec::new();
    let mut k: usize = 0;
    while k < order.len()
        invariant
            k <= order.len(),
            requests == prs.deep_view(),
            chains == all_positions(order.deep_view()),
            is_stacking(requests, chains),
            stacks.len() == k,
            forall|x: int|
                0 <= x < k ==> (#[trigger] stacks.deep_view()[x]) == chains[x].map_values(
                    |i: int| requests[i],
                ),
        decreases order.len() - k,
    {
        let chain = &order[k];
        let ghost cs = chains[k as int];
        proof {
            assert(cs == positions(chain@));
            assert forall|j: int| 0 <= j < cs.len() implies 0 <= #[trigger] cs[j] < prs.len() by {
                lemma_member_in_range(requests, chains, k as int, j);
            }
        }
        let mut stack: Vec<PullRequest> = Vec::new();
        let mut j: usize = 0;
        while j < chain.len()
            invariant
                j <= chain.len(),
                requests == prs.deep_view(),
                cs == positions(chain@),
                in_range(cs, prs.len() as int),
                stack.len() == j,
                forall|x: int| 0 <= x < j ==> (#[trigger] stack.deep_view()[x]) == requests[cs[x]],
            decreases chain.len() - j,
        {
            assert(0 <= cs[j as int] < prs.len());
            let member = prs[chain[j]].clone();
            let ghost before = stack.deep_view();
            stack.push(member);
            proof {
                assert(stack.deep_view() =~= before.push(member@));
                assert(requests[cs[j as int]] == prs[chain@[j as int] as int]@);
            }
            j += 1;
        }
        let ghost before = stacks.deep_view();
        proof {
            assert(stack.deep_view() =~= cs.map_values(|i: int| requests[i]));
        }
        stacks.push(stack);
        proof {
            assert(stacks.deep_view() =~= before.push(cs.map_values(|i: int| requests[i])));
        }
        k += 1;
    }
    proof {
        assert(stacks.deep_view() =~= requests_at(requests, chains));
        lemma_flatten_requests_at(requests, chains);
        lemma_stacking_len(requests, chains);
        assert forall|k: int| 0 <= k < stacks.len() implies (#[trigger] stacks[k]).len() > 0 by {
            assert(is_chain(requests, chains[k]));
            assert(stacks.deep_view()[k].len() == chains[k].len());
        }
    }
    stacks
}

/// No two requests have the same head.
pub open spec fn distinct_heads(requests: Seq<RequestView>) -> bool {
    forall|i: int, j: int|
        0 <= i < requests.len() && 0 <= j < requests.len() && i != j ==> requests[i].head
            != requests[j].head
}

/// Within a stack, each request targets the branch of the request before
/// it.
pub proof fn lemma_stacks_in_order(requests: Seq<RequestView>, stacks: Seq<Seq<RequestView>>)
    requires
        is_stacks_of(requests, stacks),
    ensures
        forall|k: int, i: int|
            #![trigger stacks[k][i]]
            0 <= k < stacks.len() && 0 <= i < stacks[k].len() - 1 ==> stacks[k][i + 1].base
                == stacks[k][i].head,
{
    let chains = choose|chains: Seq<Seq<int>>| #[trigger]
        is_stacking(requests, chains) && stacks == requests_at(requests, chains);
    assert forall|k: int, i: int|
        #![trigger stacks[k][i]]
        0 <= k < stacks.len() && 0 <= i < stacks[k].len() - 1 implies stacks[k][i + 1].base
        == stacks[k][i].head by {
        assert(is_chain(requests, chains[k]));
        assert(linked(requests, chains[k][i], chains[k][i + 1]));
    }
}

/// The requests of a stacking, chain after chain, are the requests at its
/// positions, chain after chain.
proof fn lemma_flatten_requests_at(requests: Seq<RequestView>, chains: Seq<Seq<int>>)
    ensures
        requests_at(requests, chains).flatten() == chains.flatten().map_values(
            |i: int| requests[i],
        ),
    decreases chains.len(),
{
    let pick = |i: int| requests[i];
    if chains.len() == 0 {
        assert(requests_at(requests, chains).flatten() =~= chains.flatten().map_values(pick));
    } else {
        let rest = chains.drop_last();
        let last = chains.last();
        lemma_flatten_requests_at(requests, rest);
        assert(chains =~= rest.push(last));
        assert(requests_at(requests, chains) =~= requests_at(requests, rest).push(
            last.map_values(pick),
        ));
        requests_at(requests, rest).lemma_flatten_push(last.map_values(pick));
        rest.lemma_flatten_push(last);
        assert((rest.flatten() + last).map_values(pick) =~= rest.flatten().map_values(pick)
            + last.map_values(pick));
    }
}

/// A stacking names as many positions as there are requests.
pub proof fn lemma_stacking_len(requests: Seq<RequestView>, chains: Seq<Seq<int>>)
    requires
        is_stacking(requests, chains),
    ensures
        chains.flatten().len() == requests.len(),
{
    let all = chains.flatten();
    let n = requests.len() as int;
    lemma_distinct_below(all, n);
    all.unique_seq_to_set();
    lemma_int_range(0, n);
    assert forall|x: int| set_int_range(0, n).contains(x) implies all.to_set().contains(x) by {
        assert(all.contains(x));
    }
    lemma_len_subset(set_int_range(0, n), all.to_set());
}

/// Where no two requests share a head, the stacks, one after the other, hold
/// every request exactly once: as many members as there are requests, none of
/// them twice, and none of the requests left out.
pub proof fn lemma_stacks_partition(requests: Seq<RequestView>, stacks: Seq<Seq<RequestView>>)
    requires
        is_stacks_of(requests, stacks),
        distinct_heads(requests),
    ensures
        stacks.flatten().len() == requests.len(),
        stacks.flatten().no_duplicates(),
        forall|r: RequestView| stacks.flatten().contains(r) <==> requests.contains(r),
{
    let chains = choose|chains: Seq<Seq<int>>| #[trigger]
        is_stacking(requests, chains) && stacks == requests_at(requests, chains);
    let all = chains.flatten();
    let members = stacks.flatten();
    lemma_flatten_requests_at(requests, chains);
    lemma_stacking_len(requests, chains);
    assert forall|a: int, b: int| 0 <= a < members.len() && 0 <= b < members.len() && a
        != b implies members[a] != members[b] by {
        assert(members[a] == requests[all[a]]);
        assert(members[b] == requests[all[b]]);
        assert(all[a] != all[b]);
    }
    assert forall|r: RequestView| members.contains(r) <==> requests.contains(r) by {
        if members.contains(r) {
            let a = choose|a: int| 0 <= a < members.len() && members[a] == r;
            assert(members[a] == requests[all[a]]);
        }
        if requests.contains(r) {
            let i = choose|i: int| 0 <= i < requests.len() && requests[i] == r;
            assert(all.contains(i));
            let a = choose|a: int| 0 <= a < all.len() && all[a] == i;
            assert(members[a] == r);
        }
    }
}

/// Every member of every chain of a stacking is a position of the input.
pub proof fn lemma_member_in_range(
    requests: Seq<RequestView>,
    chains: Seq<Seq<int>>,
    k: int,
    j: int,
)
    requires
        is_stacking(requests, chains),
        0 <= k < chains.len(),
        0 <= j < chains[k].len(),
    ensures
        0 <= chains[k][j] < requests.len(),
        chains.flatten().contains(chains[k][j]),
{
    lemma_flatten_member(chains, k, j);
}

/// A member of one of the sequences is a member of their concatenation.
pub proof fn lemma_flatten_member(chains: Seq<Seq<int>>, k: int, j: int)
    requires
        0 <= k < chains.len(),
        0 <= j < chains[k].len(),
    ensures
        chains.flatten().contains(chains[k][j]),
    decreases chains.len(),
{
    let rest = chains.drop_first();
    if k == 0 {
        assert(chains.flatten()[j] == chains[0][j]);
    } else {
        lemma_flatten_member(rest, k - 1, j);
        let t = choose|t: int| 0 <= t < rest.flatten().len() && rest.flatten()[t] == rest[k - 1][j];
        assert(chains.flatten()[chains[0].len() + t] == chains[k][j]);
    }
}

} // verus!
