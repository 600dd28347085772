//! The model of breadth-first traversal: the frontiers of a network by
//! depth, what they reach, and the sum of depths, with what holds of them.

use vstd::prelude::*;
use crate::network::graph::{closed_network, Adjacency, Name};

verus! {

/// The neighbour lists of the members of a frontier, one after the other.
pub open spec fn expand(g: Adjacency, frontier: Seq<Name>) -> Seq<Name>
    decreases frontier.len(),
{
    if frontier.len() == 0 {
        Seq::empty()
    } else {
        expand(g, frontier.drop_last()) + g[frontier.last()]
    }
}

/// The frontier after `depth` expansions from `origin`: the end of every
/// walk of exactly `depth` hops, once for each such walk.
pub open spec fn layer(g: Adjacency, origin: Name, depth: nat) -> Seq<Name>
    decreases depth,
{
    if depth == 0 {
        seq![origin]
    } else {
        expand(g, layer(g, origin, (depth - 1) as nat))
    }
}

/// The locations on the first `rounds` frontiers: those that a walk of fewer
/// than `rounds` hops from `origin` ends at.
pub open spec fn reached(g: Adjacency, origin: Name, rounds: nat) -> Set<Name>
    decreases rounds,
{
    if rounds == 0 {
        Set::empty()
    } else {
        reached(g, origin, (rounds - 1) as nat).union(
            layer(g, origin, (rounds - 1) as nat).to_set(),
        )
    }
}

/// A neighbour of a frontier member is on the expanded frontier.
pub proof fn lemma_expand_contains(g: Adjacency, frontier: Seq<Name>, at: int, t: int)
    requires
        0 <= at < frontier.len(),
        0 <= t < g[frontier[at]].len(),
    ensures
        expand(g, frontier).contains(g[frontier[at]][t]),
    decreases frontier.len(),
{
    let n = g[frontier[at]][t];
    let head = expand(g, frontier.drop_last());
    let tail = g[frontier.last()];
    if at == frontier.len() - 1 {
        assert((head + tail)[head.len() + t] == n);
    } else {
        lemma_expand_contains(g, frontier.drop_last(), at, t);
        let k = choose|k: int| 0 <= k < head.len() && head[k] == n;
        assert((head + tail)[k] == n);
    }
}

/// A member of the expanded frontier is a neighbour of a frontier member:
/// the result is that member's index and the neighbour's index in its list.
pub proof fn lemma_expand_source(g: Adjacency, frontier: Seq<Name>, n: Name) -> (w: (int, int))
    requires
        expand(g, frontier).contains(n),
    ensures
        0 <= w.0 < frontier.len(),
        0 <= w.1 < g[frontier[w.0]].len(),
        g[frontier[w.0]][w.1] == n,
    decreases frontier.len(),
{
    let whole = expand(g, frontier);
    let k = choose|k: int| 0 <= k < whole.len() && whole[k] == n;
    let head = expand(g, frontier.drop_last());
    if k < head.len() {
        assert(head[k] == n);
        lemma_expand_source(g, frontier.drop_last(), n)
    } else {
        (frontier.len() - 1, k - head.len())
    }
}

/// What is on an earlier frontier has been reached.
pub proof fn lemma_layer_in_reached(g: Adjacency, origin: Name, e: nat, rounds: nat, n: Name)
    requires
        e < rounds,
        layer(g, origin, e).contains(n),
    ensures
        reached(g, origin, rounds).contains(n),
    decreases rounds,
{
    if e + 1 < rounds {
        lemma_layer_in_reached(g, origin, e, (rounds - 1) as nat, n);
    }
}

/// What has been reached is on an earlier frontier: the result is its depth.
pub proof fn lemma_reached_source(g: Adjacency, origin: Name, rounds: nat, n: Name) -> (e: nat)
    requires
        reached(g, origin, rounds).contains(n),
    ensures
        e < rounds,
        layer(g, origin, e).contains(n),
    decreases rounds,
{
    if layer(g, origin, (rounds - 1) as nat).contains(n) {
        (rounds - 1) as nat
    } else {
        lemma_reached_source(g, origin, (rounds - 1) as nat, n)
    }
}

/// Finitely many locations are reached in any number of rounds.
pub proof fn lemma_reached_finite(g: Adjacency, origin: Name, rounds: nat)
    ensures
        reached(g, origin, rounds).finite(),
    decreases rounds,
{
    if rounds > 0 {
        lemma_reached_finite(g, origin, (rounds - 1) as nat);
        vstd::seq_lib::seq_to_set_is_finite(layer(g, origin, (rounds - 1) as nat));
    }
}

/// More rounds never reach fewer locations.
pub proof fn lemma_reached_monotone(g: Adjacency, origin: Name, a: nat, b: nat)
    requires
        a <= b,
    ensures
        reached(g, origin, a).subset_of(reached(g, origin, b)),
        reached(g, origin, a).len() <= reached(g, origin, b).len(),
{
    assert forall|n: Name| reached(g, origin, a).contains(n) implies reached(
        g,
        origin,
        b,
    ).contains(n) by {
        let e = lemma_reached_source(g, origin, a, n);
        lemma_layer_in_reached(g, origin, e, b, n);
    }
    lemma_reached_finite(g, origin, b);
    vstd::set_lib::lemma_len_subset(reached(g, origin, a), reached(g, origin, b));
}

/// In a closed network every frontier from a location holds locations only.
pub proof fn lemma_layers_are_keys(g: Adjacency, origin: Name, depth: nat, i: int)
    requires
        closed_network(g),
        g.contains_key(origin),
        0 <= i < layer(g, origin, depth).len(),
    ensures
        g.contains_key(layer(g, origin, depth)[i]),
    decreases depth,
{
    if depth > 0 {
        let earlier = layer(g, origin, (depth - 1) as nat);
        let n = layer(g, origin, depth)[i];
        assert(expand(g, earlier).contains(n));
        let w = lemma_expand_source(g, earlier, n);
        lemma_layers_are_keys(g, origin, (depth - 1) as nat, w.0);
        assert(g.contains_key(g[earlier[w.0]][w.1]));
    }
}

/// In a closed network only locations are reached.
pub proof fn lemma_reached_within(g: Adjacency, origin: Name, rounds: nat)
    requires
        closed_network(g),
        g.contains_key(origin),
    ensures
        reached(g, origin, rounds).subset_of(g.dom()),
        reached(g, origin, rounds).len() <= g.dom().len(),
{
    assert forall|n: Name| reached(g, origin, rounds).contains(n) implies g.dom().contains(
        n,
    ) by {
        let e = lemma_reached_source(g, origin, rounds, n);
        let k = choose|k: int| 0 <= k < layer(g, origin, e).len() && layer(g, origin, e)[k] == n;
        lemma_layers_are_keys(g, origin, e, k);
    }
    vstd::set_lib::lemma_len_subset(reached(g, origin, rounds), g.dom());
}

/// The locations first reached at exactly `depth` hops.
pub open spec fn fresh(g: Adjacency, origin: Name, depth: nat) -> Set<Name> {
    layer(g, origin, depth).to_set().difference(reached(g, origin, depth))
}

/// The sum of the hop distances of the locations reached in the first
/// `rounds` rounds: each depth times the number of locations first reached there.
pub open spec fn depth_sum(g: Adjacency, origin: Name, rounds: nat) -> nat
    decreases rounds,
{
    if rounds == 0 {
        0
    } else {
        depth_sum(g, origin, (rounds - 1) as nat) + (rounds - 1) as nat * fresh(
            g,
            origin,
            (rounds - 1) as nat,
        ).len()
    }
}

/// Every location of the network can be reached from `origin`.
pub open spec fn connected(g: Adjacency, origin: Name) -> bool {
    exists|rounds: nat| reached(g, origin, rounds) == g.dom()
}

/// A number of rounds that reaches every location of a connected network.
pub open spec fn covering_rounds(g: Adjacency, origin: Name) -> nat {
    choose|rounds: nat| reached(g, origin, rounds) == g.dom()
}

/// The sum, over the locations of a connected network, of their hop
/// distance from `origin`.
pub open spec fn sum_of_depths(g: Adjacency, origin: Name) -> nat {
    depth_sum(g, origin, covering_rounds(g, origin))
}

/// A round reaches as many more locations as are first reached at its depth.
pub proof fn lemma_fresh_count(g: Adjacency, origin: Name, depth: nat)
    ensures
        reached(g, origin, depth + 1).len() == reached(g, origin, depth).len() + fresh(
            g,
            origin,
            depth,
        ).len(),
{
    let before = reached(g, origin, depth);
    let new = fresh(g, origin, depth);
    lemma_reached_finite(g, origin, depth);
    vstd::seq_lib::seq_to_set_is_finite(layer(g, origin, depth));
    assert(new.finite());
    assert(before.disjoint(new));
    assert(reached(g, origin, depth + 1) =~= before + new);
    vstd::set_lib::lemma_set_disjoint_lens(before, new);
}

/// Once a round reaches nothing new, no later round does.
pub proof fn lemma_stable(g: Adjacency, origin: Name, depth: nat, rounds: nat)
    requires
        reached(g, origin, depth + 1) == reached(g, origin, depth),
        depth <= rounds,
    ensures
        reached(g, origin, rounds) == reached(g, origin, depth),
    decreases rounds,
{
    if rounds > depth + 1 {
        lemma_stable(g, origin, depth, (rounds - 1) as nat);
        let last = layer(g, origin, (rounds - 1) as nat);
        let earlier = layer(g, origin, (rounds - 2) as nat);
        assert forall|n: Name| last.contains(n) implies reached(g, origin, depth).contains(n) by {
            let w = lemma_expand_source(g, earlier, n);
            let m = earlier[w.0];
            assert(earlier.contains(m));
            lemma_layer_in_reached(g, origin, (rounds - 2) as nat, (rounds - 1) as nat, m);
            let e = lemma_reached_source(g, origin, depth, m);
            let k = choose|k: int|
                0 <= k < layer(g, origin, e).len() && layer(g, origin, e)[k] == m;
            lemma_expand_contains(g, layer(g, origin, e), k, w.1);
            lemma_layer_in_reached(g, origin, e + 1, depth + 1, n);
        }
        assert(reached(g, origin, rounds) =~= reached(g, origin, depth));
    }
}

/// While some location of a connected network is not reached yet, the next
/// round reaches at least one more.
pub proof fn lemma_progress(g: Adjacency, origin: Name, depth: nat)
    requires
        closed_network(g),
        g.contains_key(origin),
        connected(g, origin),
        reached(g, origin, depth) != g.dom(),
    ensures
        reached(g, origin, depth).len() < reached(g, origin, depth + 1).len(),
{
    let now = reached(g, origin, depth);
    let next = reached(g, origin, depth + 1);
    lemma_reached_monotone(g, origin, depth, depth + 1);
    lemma_reached_finite(g, origin, depth);
    lemma_reached_finite(g, origin, depth + 1);
    if now.len() == next.len() {
        vstd::set_lib::lemma_subset_equality(now, next);
        let c = covering_rounds(g, origin);
        if c >= depth {
            lemma_stable(g, origin, depth, c);
        } else {
            lemma_reached_monotone(g, origin, c, depth);
            lemma_reached_within(g, origin, depth);
            assert(now =~= g.dom());
        }
    }
}

/// Once every location is reached, further rounds change neither what is
/// reached nor the sum of depths.
pub proof fn lemma_cover_persists(g: Adjacency, origin: Name, a: nat, b: nat)
    requires
        closed_network(g),
        g.contains_key(origin),
        reached(g, origin, a) == g.dom(),
        a <= b,
    ensures
        reached(g, origin, b) == g.dom(),
        depth_sum(g, origin, b) == depth_sum(g, origin, a),
    decreases b,
{
    if a < b {
        let prev = (b - 1) as nat;
        lemma_cover_persists(g, origin, a, prev);
        lemma_reached_within(g, origin, b);
        lemma_reached_monotone(g, origin, prev, b);
        assert(reached(g, origin, b) =~= g.dom());
        assert(fresh(g, origin, prev) =~= Set::<Name>::empty());
        let gained = fresh(g, origin, prev).len();
        assert(gained == 0);
        assert(prev * gained == 0) by (nonlinear_arith)
            requires
                gained == 0,
        ;
    }
}

/// More rounds never give a smaller sum of depths.
pub proof fn lemma_depth_sum_grows(g: Adjacency, origin: Name, a: nat, b: nat)
    requires
        a <= b,
    ensures
        depth_sum(g, origin, a) <= depth_sum(g, origin, b),
    decreases b,
{
    if a < b {
        lemma_depth_sum_grows(g, origin, a, (b - 1) as nat);
        assert(0 <= (b - 1) as nat * fresh(g, origin, (b - 1) as nat).len()) by (nonlinear_arith);
    }
}

/// The sum of depths does not depend on how many rounds were run, as long
/// as they reached every location.
pub proof fn lemma_depth_sum_unique(g: Adjacency, origin: Name, a: nat, b: nat)
    requires
        closed_network(g),
        g.contains_key(origin),
        reached(g, origin, a) == g.dom(),
        reached(g, origin, b) == g.dom(),
    ensures
        depth_sum(g, origin, a) == depth_sum(g, origin, b),
{
    if a <= b {
        lemma_cover_persists(g, origin, a, b);
    } else {
        lemma_cover_persists(g, origin, b, a);
    }
}

/// A location is first reached at one depth only, and no frontier before
/// that depth holds it: the depth is the length of a shortest walk to it.
pub proof fn lemma_fresh_is_first(g: Adjacency, origin: Name, depth: nat, n: Name)
    requires
        fresh(g, origin, depth).contains(n),
    ensures
        layer(g, origin, depth).contains(n),
        forall|e: nat| e < depth ==> !layer(g, origin, e).contains(n),
        forall|e: nat| e != depth ==> !fresh(g, origin, e).contains(n),
{
    assert forall|e: nat| e < depth implies !layer(g, origin, e).contains(n) by {
        if layer(g, origin, e).contains(n) {
            lemma_layer_in_reached(g, origin, e, depth, n);
        }
    }
    assert forall|e: nat| e != depth implies !fresh(g, origin, e).contains(n) by {
        if e > depth {
            lemma_layer_in_reached(g, origin, depth, e, n);
        }
    }
}

/// A larger bound on the depth never gives a smaller count of locations
/// within the bound.
pub proof fn lemma_count_grows_with_depth(g: Adjacency, origin: Name, small: nat, large: nat)
    requires
        small <= large,
    ensures
        reached(g, origin, small + 1).len() <= reached(g, origin, large + 1).len(),
{
    lemma_reached_monotone(g, origin, small + 1, large + 1);
}

/// The origin is the one location at depth 0; every other location that is
/// reached is first reached at a positive depth.
pub proof fn lemma_origin_alone_at_zero(g: Adjacency, origin: Name, depth: nat, n: Name)
    requires
        fresh(g, origin, depth).contains(n),
    ensures
        fresh(g, origin, 0).contains(origin),
        n == origin <==> depth == 0,
{
    assert(layer(g, origin, 0)[0] == origin);
    if depth > 0 && n == origin {
        lemma_layer_in_reached(g, origin, 0, depth, origin);
    }
}

/// In a network whose only location is the origin, the sum of depths is 0.
pub proof fn lemma_lone_origin_sums_to_zero(g: Adjacency, origin: Name)
    requires
        closed_network(g),
        g.dom() == set![origin],
    ensures
        connected(g, origin),
        sum_of_depths(g, origin) == 0,
{
    assert(layer(g, origin, 0)[0] == origin);
    assert(reached(g, origin, 0) =~= Set::<Name>::empty());
    assert(reached(g, origin, 1) =~= set![origin]);
    assert(depth_sum(g, origin, 0) == 0);
    assert(depth_sum(g, origin, 1) == 0) by {
        assert(0nat * fresh(g, origin, 0).len() == 0) by (nonlinear_arith);
    }
    lemma_depth_sum_unique(g, origin, 1, covering_rounds(g, origin));
}

} // verus!
