//! A set of requests has one stacking and no other.

use crate::request::RequestView;
use crate::stacks::{
    consecutive, is_chain, is_stacking, is_stacks_of, lemma_flatten_member, lemma_one_child,
    lemma_one_parent, linked, requests_at,
};
use vstd::prelude::*;

verus! {

/// A member of the concatenation of several sequences is a member of one of
/// them.
pub proof fn lemma_flatten_origin(chains: Seq<Seq<int>>, x: int) -> (at: (int, int))
    requires
        chains.flatten().contains(x),
    ensures
        0 <= at.0 < chains.len(),
        0 <= at.1 < chains[at.0].len(),
        chains[at.0][at.1] == x,
    decreases chains.len(),
{
    let all = chains.flatten();
    let t = choose|t: int| 0 <= t < all.len() && all[t] == x;
    if chains.len() == 0 {
        (0, 0)
    } else {
        let rest = chains.drop_first();
        assert(all == chains[0] + rest.flatten());
        if t < chains[0].len() {
            (0, t)
        } else {
            assert(rest.flatten()[t - chains[0].len()] == x);
            let (k, j) = lemma_flatten_origin(rest, x);
            assert(rest[k] == chains[k + 1]);
            (k + 1, j)
        }
    }
}

/// Where the concatenation of several sequences holds nothing twice, a
/// value stands at one place in them only.
pub proof fn lemma_flatten_distinct(chains: Seq<Seq<int>>, k1: int, j1: int, k2: int, j2: int)
    requires
        chains.flatten().no_duplicates(),
        0 <= k1 < chains.len(),
        0 <= j1 < chains[k1].len(),
        0 <= k2 < chains.len(),
        0 <= j2 < chains[k2].len(),
        chains[k1][j1] == chains[k2][j2],
    ensures
        k1 == k2,
        j1 == j2,
    decreases chains.len(),
{
    let all = chains.flatten();
    let first = chains[0];
    let rest = chains.drop_first();
    let behind = rest.flatten();
    assert(all == first + behind);
    if k1 == 0 && k2 == 0 {
        assert(all[j1] == first[j1]);
        assert(all[j2] == first[j2]);
    } else if k1 == 0 {
        assert(rest[k2 - 1] == chains[k2]);
        lemma_flatten_member(rest, k2 - 1, j2);
        let t = choose|t: int| 0 <= t < behind.len() && behind[t] == chains[k2][j2];
        assert(all[j1] == first[j1]);
        assert(all[first.len() + t] == behind[t]);
    } else if k2 == 0 {
        assert(rest[k1 - 1] == chains[k1]);
        lemma_flatten_member(rest, k1 - 1, j1);
        let t = choose|t: int| 0 <= t < behind.len() && behind[t] == chains[k1][j1];
        assert(all[j2] == first[j2]);
        assert(all[first.len() + t] == behind[t]);
    } else {
        assert(rest[k1 - 1] == chains[k1]);
        assert(rest[k2 - 1] == chains[k2]);
        assert forall|s: int, t: int| 0 <= s < behind.len() && 0 <= t < behind.len() && s
            != t implies behind[s] != behind[t] by {
            assert(all[first.len() + s] == behind[s]);
            assert(all[first.len() + t] == behind[t]);
        }
        lemma_flatten_distinct(rest, k1 - 1, j1, k2 - 1, j2);
    }
}

/// Two chains that meet at a member agree on what stands before it.
pub proof fn lemma_same_before(
    requests: Seq<RequestView>,
    c: Seq<int>,
    d: Seq<int>,
    a: int,
    b: int,
    t: int,
)
    requires
        consecutive(requests, c),
        consecutive(requests, d),
        0 <= t <= a < c.len(),
        t <= b < d.len(),
        c[a] == d[b],
    ensures
        c[a - t] == d[b - t],
    decreases t,
{
    if t > 0 {
        lemma_same_before(requests, c, d, a, b, t - 1);
        assert(linked(requests, c[a - t], c[a - t + 1]));
        assert(linked(requests, d[b - t], d[b - t + 1]));
        lemma_one_parent(requests, c[a - t], d[b - t], c[a - t + 1]);
    }
}

/// Two chains that meet at a member agree on what stands behind it.
proof fn lemma_same_behind(
    requests: Seq<RequestView>,
    c: Seq<int>,
    d: Seq<int>,
    a: int,
    b: int,
    t: int,
)
    requires
        consecutive(requests, c),
        consecutive(requests, d),
        0 <= a,
        0 <= b,
        0 <= t,
        a + t < c.len(),
        b + t < d.len(),
        c[a] == d[b],
    ensures
        c[a + t] == d[b + t],
    decreases t,
{
    if t > 0 {
        lemma_same_behind(requests, c, d, a, b, t - 1);
        assert(linked(requests, c[a + t - 1], c[a + t - 1 + 1]));
        assert(linked(requests, d[b + t - 1], d[b + t - 1 + 1]));
        lemma_one_child(requests, c[a + t - 1], c[a + t], d[b + t]);
    }
}

/// The earlier of two places at which two whole stacks meet is no earlier
/// than the later.
proof fn lemma_meet_not_earlier(
    requests: Seq<RequestView>,
    c: Seq<int>,
    d: Seq<int>,
    a: int,
    b: int,
)
    requires
        is_chain(requests, c),
        is_chain(requests, d),
        d.no_duplicates(),
        0 <= a < c.len(),
        0 <= b < d.len(),
        c[a] == d[b],
        c[a] == c.min(),
    ensures
        a >= b,
{
    if a < b {
        lemma_same_before(requests, c, d, a, b, a);
        assert(linked(requests, d[b - a - 1], d[b - a - 1 + 1]));
        assert(linked(requests, d[b - a - 1], c[0]));
        assert(d[b - a - 1] == d[b]);
    }
}

/// The shorter of two whole stacks that start alike is no shorter than the
/// longer.
proof fn lemma_end_not_earlier(requests: Seq<RequestView>, c: Seq<int>, d: Seq<int>)
    requires
        is_chain(requests, c),
        is_chain(requests, d),
        d.no_duplicates(),
        forall|i: int| 0 <= i < c.len() && i < d.len() ==> c[i] == d[i],
    ensures
        c.len() >= d.len(),
{
    if c.len() < d.len() {
        let last = c.len() - 1;
        assert(linked(requests, d[last], d[last + 1]));
        assert(linked(requests, c.last(), d[last + 1]));
        assert(d[last + 1] == d[0]);
    }
}

/// Two whole stacks that share their earliest member are the same stack.
proof fn lemma_same_chain(requests: Seq<RequestView>, c: Seq<int>, d: Seq<int>, a: int, b: int)
    requires
        is_chain(requests, c),
        is_chain(requests, d),
        c.no_duplicates(),
        d.no_duplicates(),
        0 <= a < c.len(),
        0 <= b < d.len(),
        c[a] == d[b],
        c[a] == c.min(),
        d[b] == d.min(),
    ensures
        c == d,
{
    lemma_meet_not_earlier(requests, c, d, a, b);
    lemma_meet_not_earlier(requests, d, c, b, a);
    assert forall|i: int| 0 <= i < c.len() && i < d.len() implies c[i] == d[i] by {
        if i <= a {
            lemma_same_before(requests, c, d, a, a, a - i);
        } else {
            lemma_same_behind(requests, c, d, a, a, i - a);
        }
    }
    lemma_end_not_earlier(requests, c, d);
    lemma_end_not_earlier(requests, d, c);
    assert(c =~= d);
}

/// A chain of a stacking holds nothing twice.
pub proof fn lemma_chain_distinct(requests: Seq<RequestView>, chains: Seq<Seq<int>>, k: int)
    requires
        is_stacking(requests, chains),
        0 <= k < chains.len(),
    ensures
        chains[k].no_duplicates(),
{
    assert forall|i: int, j: int|
        0 <= i < chains[k].len() && 0 <= j < chains[k].len() && i != j implies chains[k][i]
        != chains[k][j] by {
        if chains[k][i] == chains[k][j] {
            lemma_flatten_distinct(chains, k, i, k, j);
        }
    }
}

/// Where two stackings agree on their first `k` chains, the earliest member
/// of the next chain of the one stands in no earlier chain of the other than
/// the next.
proof fn lemma_next_not_earlier(
    requests: Seq<RequestView>,
    c: Seq<Seq<int>>,
    d: Seq<Seq<int>>,
    k: int,
) -> (at: (int, int))
    requires
        is_stacking(requests, c),
        is_stacking(requests, d),
        0 <= k < c.len(),
        k <= d.len(),
        forall|i: int| 0 <= i < k ==> c[i] == d[i],
    ensures
        k <= at.0 < d.len(),
        0 <= at.1 < d[at.0].len(),
        d[at.0][at.1] == c[k].min(),
{
    let m = c[k].min();
    assert(is_chain(requests, c[k]));
    c[k].min_ensures();
    let a = choose|a: int| 0 <= a < c[k].len() && c[k][a] == m;
    lemma_flatten_member(c, k, a);
    let t = choose|t: int| 0 <= t < c.flatten().len() && c.flatten()[t] == m;
    assert(0 <= c.flatten()[t] < requests.len());
    assert(d.flatten().contains(m));
    let (l, b) = lemma_flatten_origin(d, m);
    if l < k {
        assert(c[l] == d[l]);
        lemma_flatten_distinct(c, l, b, k, a);
    }
    (l, b)
}

/// Two stackings of the same requests agree on their first `k` chains.
proof fn lemma_same_prefix(
    requests: Seq<RequestView>,
    c: Seq<Seq<int>>,
    d: Seq<Seq<int>>,
    k: int,
)
    requires
        is_stacking(requests, c),
        is_stacking(requests, d),
        0 <= k <= c.len(),
    ensures
        k <= d.len(),
        forall|i: int| 0 <= i < k ==> c[i] == d[i],
    decreases k,
{
    if k > 0 {
        let n = k - 1;
        lemma_same_prefix(requests, c, d, n);
        let (l, b) = lemma_next_not_earlier(requests, c, d, n);
        let (l2, b2) = lemma_next_not_earlier(requests, d, c, n);
        let m = c[n].min();
        let m2 = d[n].min();
        assert(is_chain(requests, c[n]));
        assert(is_chain(requests, d[n]));
        c[n].min_ensures();
        d[n].min_ensures();
        d[l].min_ensures();
        c[l2].min_ensures();
        assert(d[l].min() <= d[l][b]);
        assert(c[l2].min() <= c[l2][b2]);
        assert(m2 <= m) by {
            if n < l {
                assert(d[n].min() < d[l].min());
            }
        }
        assert(m <= m2) by {
            if n < l2 {
                assert(c[n].min() < c[l2].min());
            }
        }
        assert(l == n) by {
            if n < l {
                assert(d[n].min() < d[l].min());
            }
        }
        let a = choose|a: int| 0 <= a < c[n].len() && c[n][a] == m;
        lemma_chain_distinct(requests, c, n);
        lemma_chain_distinct(requests, d, n);
        lemma_same_chain(requests, c[n], d[n], a, b);
    }
}

/// A set of requests has one stacking only.
pub proof fn lemma_stacking_unique(
    requests: Seq<RequestView>,
    c: Seq<Seq<int>>,
    d: Seq<Seq<int>>,
)
    requires
        is_stacking(requests, c),
        is_stacking(requests, d),
    ensures
        c == d,
{
    lemma_same_prefix(requests, c, d, c.len() as int);
    lemma_same_prefix(requests, d, c, d.len() as int);
    assert(c =~= d);
}

/// The stacks of a set of requests are determined by the requests.
pub proof fn lemma_stacks_unique(
    requests: Seq<RequestView>,
    first: Seq<Seq<RequestView>>,
    second: Seq<Seq<RequestView>>,
)
    requires
        is_stacks_of(requests, first),
        is_stacks_of(requests, second),
    ensures
        first == second,
{
    let c = choose|c: Seq<Seq<int>>| #[trigger]
        is_stacking(requests, c) && first == requests_at(requests, c);
    let d = choose|d: Seq<Seq<int>>| #[trigger]
        is_stacking(requests, d) && second == requests_at(requests, d);
    lemma_stacking_unique(requests, c, d);
}

} // verus!
