//! The queries on a network: the number of locations within a bound of
//! hops, and the sum of the hop distances to all locations.

use vstd::prelude::*;
use vstd::hash_map::StringHashMap;
use crate::network::graph::{
    closed_network, count_all_locations, lemma_names_push, names, Adjacency, Graph, Location,
    Name,
};
use crate::network::reach::{
    connected, covering_rounds, depth_sum, expand, fresh, layer, lemma_cover_persists,
    lemma_depth_sum_grows, lemma_depth_sum_unique, lemma_expand_contains, lemma_expand_source,
    lemma_fresh_count, lemma_layer_in_reached, lemma_layers_are_keys, lemma_progress,
    lemma_reached_finite, lemma_reached_monotone, lemma_reached_source, lemma_reached_within,
    reached, sum_of_depths,
};

verus! {

/// The frontier of the pruning traversal at `depth`: it holds members of the
/// layer only, and every member of the layer that was not reached before.
pub open spec fn pruned_frontier(g: Adjacency, origin: Name, depth: nat, frontier: Seq<Name>) -> bool {
    &&& forall|k: int|
        0 <= k < frontier.len() ==> layer(g, origin, depth).contains(#[trigger] frontier[k])
    &&& forall|m: Name|
        layer(g, origin, depth).contains(m) && !reached(g, origin, depth).contains(m)
            ==> frontier.to_set().contains(m)
}

/// One round of the pruning traversal. Records at `depth` every member of
/// `frontier` that has no depth yet, and returns the next frontier: the
/// neighbours of the members that had no depth when they were looked at.
fn record_layer(
    graph: &Graph,
    frontier: &Vec<Location>,
    depths: &mut StringHashMap<usize>,
    depth: usize,
) -> (next: Vec<Location>)
    requires
        graph.well_formed(),
        forall|k: int| 0 <= k < frontier@.len() ==> graph@.contains_key(#[trigger] frontier@[k]@),
    ensures
        final(depths)@.dom() == old(depths)@.dom().union(names(frontier@).to_set()),
        forall|a: Name| old(depths)@.contains_key(a) ==> final(depths)@[a] == old(depths)@[a],
        forall|a: Name|
            final(depths)@.contains_key(a) && !old(depths)@.contains_key(a) ==> final(depths)@[a]
                == depth,
        forall|k: int|
            0 <= k < next@.len() ==> expand(graph@, names(frontier@)).contains(
                #[trigger] next@[k]@,
            ),
        forall|k: int|
            0 <= k < expand(graph@, names(frontier@)).len() ==> final(depths)@.contains_key(
                #[trigger] expand(graph@, names(frontier@))[k],
            ) || names(next@).to_set().contains(expand(graph@, names(frontier@))[k]),
{
    let mut next: Vec<Location> = Vec::new();
    let ghost members = names(frontier@);
    let ghost g = graph@;
    let mut i: usize = 0;
    proof {
        assert(depths@.dom() =~= old(depths)@.dom().union(members.take(0).to_set()));
    }
    while i < frontier.len()
        invariant
            i <= frontier.len(),
            graph.well_formed(),
            g == graph@,
            members == names(frontier@),
            forall|k: int| 0 <= k < frontier@.len() ==> g.contains_key(#[trigger] frontier@[k]@),
            depths@.dom() == old(depths)@.dom().union(members.take(i as int).to_set()),
            forall|a: Name| old(depths)@.contains_key(a) ==> depths@[a] == old(depths)@[a],
            forall|a: Name|
                depths@.contains_key(a) && !old(depths)@.contains_key(a) ==> depths@[a] == depth,
            forall|k: int|
                0 <= k < next@.len() ==> expand(g, members).contains(#[trigger] next@[k]@),
            forall|k: int|
                0 <= k < expand(g, members.take(i as int)).len() ==> depths@.contains_key(
                    #[trigger] expand(g, members.take(i as int))[k],
                ) || names(next@).to_set().contains(expand(g, members.take(i as int))[k]),
        decreases frontier.len() - i,
    {
        let ghost seen = expand(g, members.take(i as int));
        let ghost marked = depths@;
        let here = &frontier[i];
        assert(g.contains_key(frontier@[i as int]@));
        if !depths.contains_key(here.name.as_str()) {
            depths.insert(here.name.clone(), depth);
        }
        proof {
            let before = members.take(i as int);
            let after = members.take(i + 1);
            assert(after =~= before.push(members[i as int]));
            before.lemma_push_to_set_commute(members[i as int]);
            assert(depths@.dom() =~= old(depths)@.dom().union(after.to_set()));
            assert(after.drop_last() =~= before);
            assert forall|k: int| 0 <= k < seen.len() implies depths@.contains_key(
                #[trigger] seen[k],
            ) || names(next@).to_set().contains(seen[k]) by {
                assert(marked.contains_key(seen[k]) || names(next@).to_set().contains(seen[k]));
            }
        }
        let found = graph.map.get(here.name.as_str());
        let list = found.unwrap();
        let ghost listed = g[members[i as int]];
        assert(names(list@) == listed);
        let mut j: usize = 0;
        proof {
            assert(seen + listed.take(0) =~= seen);
        }
        while j < list.len()
            invariant
                j <= list.len(),
                i < frontier.len(),
                g == graph@,
                members == names(frontier@),
                names(list@) == listed,
                listed == g[members[i as int]],
                forall|k: int|
                    0 <= k < next@.len() ==> expand(g, members).contains(#[trigger] next@[k]@),
                forall|k: int|
                    0 <= k < (seen + listed.take(j as int)).len() ==> depths@.contains_key(
                        #[trigger] (seen + listed.take(j as int))[k],
                    ) || names(next@).to_set().contains((seen + listed.take(j as int))[k]),
            decreases list.len() - j,
        {
            let ghost earlier = next@;
            let ghost so_far = seen + listed.take(j as int);
            let neighbour = &list[j];
            assert(listed[j as int] == neighbour@);
            if !depths.contains_key(neighbour.name.as_str()) {
                next.push(neighbour.duplicate());
                proof {
                    lemma_names_push(earlier, next@.last());
                    assert(next@ =~= earlier.push(next@.last()));
                    names(earlier).lemma_push_to_set_commute(neighbour@);
                    lemma_expand_contains(g, members, i as int, j as int);
                }
            }
            proof {
                let longer = seen + listed.take(j + 1);
                assert(longer =~= so_far.push(listed[j as int]));
                assert forall|k: int| 0 <= k < longer.len() implies depths@.contains_key(
                    #[trigger] longer[k],
                ) || names(next@).to_set().contains(longer[k]) by {
                    if k < so_far.len() {
                        assert(longer[k] == so_far[k]);
                        assert(depths@.contains_key(so_far[k]) || names(earlier).to_set().contains(
                            so_far[k],
                        ));
                    }
                }
            }
            j += 1;
        }
        proof {
            assert(listed.take(list.len() as int) =~= listed);
            assert(members.take(i + 1).drop_last() =~= members.take(i as int));
            assert(expand(g, members.take(i + 1)) == seen + listed);
        }
        i += 1;
    }
    proof {
        assert(members.take(frontier.len() as int) =~= members);
    }
    next
}

/// After a round of the pruning traversal, what it returns is the pruned
/// frontier of the next depth.
proof fn lemma_next_pruned(
    g: Adjacency,
    origin: Name,
    depth: nat,
    frontier: Seq<Name>,
    recorded: Set<Name>,
    next: Seq<Name>,
)
    requires
        pruned_frontier(g, origin, depth, frontier),
        recorded == reached(g, origin, depth).union(frontier.to_set()),
        forall|k: int| 0 <= k < next.len() ==> expand(g, frontier).contains(#[trigger] next[k]),
        forall|k: int|
            0 <= k < expand(g, frontier).len() ==> recorded.contains(
                #[trigger] expand(g, frontier)[k],
            ) || next.to_set().contains(expand(g, frontier)[k]),
    ensures
        recorded == reached(g, origin, depth + 1),
        pruned_frontier(g, origin, depth + 1, next),
{
    let here = layer(g, origin, depth);
    assert(recorded =~= reached(g, origin, depth + 1));
    assert forall|k: int| 0 <= k < next.len() implies layer(g, origin, depth + 1).contains(
        #[trigger] next[k],
    ) by {
        let w = lemma_expand_source(g, frontier, next[k]);
        let m = frontier[w.0];
        let at = choose|at: int| 0 <= at < here.len() && here[at] == m;
        lemma_expand_contains(g, here, at, w.1);
    }
    assert forall|n: Name|
        layer(g, origin, depth + 1).contains(n) && !reached(g, origin, depth + 1).contains(
            n,
        ) implies next.to_set().contains(n) by {
        let w = lemma_expand_source(g, here, n);
        let m = here[w.0];
        assert(here.contains(m));
        if reached(g, origin, depth).contains(m) {
            let e = lemma_reached_source(g, origin, depth, m);
            let at = choose|at: int|
                0 <= at < layer(g, origin, e).len() && layer(g, origin, e)[at] == m;
            lemma_expand_contains(g, layer(g, origin, e), at, w.1);
            lemma_layer_in_reached(g, origin, e + 1, depth + 1, n);
        }
        assert(frontier.to_set().contains(m));
        let at = choose|at: int| 0 <= at < frontier.len() && frontier[at] == m;
        lemma_expand_contains(g, frontier, at, w.1);
        let k = choose|k: int|
            0 <= k < expand(g, frontier).len() && expand(g, frontier)[k] == n;
        assert(recorded.contains(expand(g, frontier)[k]) || next.to_set().contains(
            expand(g, frontier)[k],
        ));
    }
}

/// In a closed network the members of a pruned frontier are locations.
proof fn lemma_frontier_in_network(g: Adjacency, origin: Name, depth: nat, frontier: Seq<Name>)
    requires
        closed_network(g),
        g.contains_key(origin),
        pruned_frontier(g, origin, depth, frontier),
    ensures
        forall|k: int| 0 <= k < frontier.len() ==> g.contains_key(#[trigger] frontier[k]),
{
    assert forall|k: int| 0 <= k < frontier.len() implies g.contains_key(
        #[trigger] frontier[k],
    ) by {
        let m = frontier[k];
        let at = choose|at: int|
            0 <= at < layer(g, origin, depth).len() && layer(g, origin, depth)[at] == m;
        lemma_layers_are_keys(g, origin, depth, at);
    }
}

/// How many locations lie within `max_depth` hops of `origin`, the origin
/// itself included. A location that was visited on an earlier round is not
/// expanded again: that changes the work done, not the count.
pub fn reachable_within_depth(graph: &Graph, origin: &Location, max_depth: usize) -> (count: usize)
    requires
        graph.well_formed(),
        graph@.contains_key(origin@),
    ensures
        count == reached(graph@, origin@, max_depth as nat + 1).len(),
{
    let ghost g = graph@;
    let ghost o = origin@;
    let mut frontier: Vec<Location> = Vec::new();
    frontier.push(origin.duplicate());
    let mut visited: StringHashMap<usize> = StringHashMap::new();
    let mut depth: usize = 0;
    let mut more = true;
    proof {
        assert(names(frontier@) =~= layer(g, o, 0));
        assert(visited@.dom() =~= reached(g, o, 0));
        assert(layer(g, o, 0)[0] == o);
    }
    while more
        invariant
            g == graph@,
            o == origin@,
            closed_network(g),
            g.contains_key(o),
            depth <= max_depth,
            more ==> visited@.dom() == reached(g, o, depth as nat),
            more ==> pruned_frontier(g, o, depth as nat, names(frontier@)),
            !more ==> visited@.dom() == reached(g, o, max_depth as nat + 1),
        decreases max_depth - depth + (if more { 1int } else { 0int }),
    {
        let ghost members = names(frontier@);
        proof {
            lemma_frontier_in_network(g, o, depth as nat, members);
            assert forall|k: int| 0 <= k < frontier@.len() implies g.contains_key(
                #[trigger] frontier@[k]@,
            ) by {
                assert(members[k] == frontier@[k]@);
            }
        }
        let next = record_layer(graph, &frontier, &mut visited, depth);
        proof {
            lemma_next_pruned(g, o, depth as nat, members, visited@.dom(), names(next@));
        }
        if depth == max_depth {
            more = false;
        } else {
            depth += 1;
            frontier = next;
        }
    }
    visited.len()
}

/// The sum of the hop distances from `origin` to every location of the
/// network, the origin counting 0, where there is one: there is none where
/// some location cannot be reached from `origin`, or where the sum does not
/// fit the machine word.
pub fn try_sum_shortest_depths(graph: &Graph, origin: &Location) -> (out: Option<usize>)
    requires
        graph.well_formed(),
        graph@.contains_key(origin@),
    ensures
        out.is_some() <==> connected(graph@, origin@) && sum_of_depths(graph@, origin@)
            <= usize::MAX,
        out.is_some() ==> out.unwrap() == sum_of_depths(graph@, origin@),
{
    let ghost g = graph@;
    let ghost o = origin@;
    let count = count_all_locations(graph);
    let mut frontier: Vec<Location> = Vec::new();
    frontier.push(origin.duplicate());
    let mut depths: StringHashMap<usize> = StringHashMap::new();
    let mut depth: usize = 0;
    let mut total: usize = 0;
    proof {
        assert(names(frontier@) =~= layer(g, o, 0));
        assert(depths@.dom() =~= reached(g, o, 0));
        assert(layer(g, o, 0)[0] == o);
    }
    while depths.len() != count
        invariant
            g == graph@,
            o == origin@,
            closed_network(g),
            g.contains_key(o),
            count == g.dom().len(),
            depths@.dom() == reached(g, o, depth as nat),
            depth <= depths@.dom().len() <= count,
            total == depth_sum(g, o, depth as nat),
            pruned_frontier(g, o, depth as nat, names(frontier@)),
            forall|a: Name|
                depths@.contains_key(a) ==> fresh(g, o, #[trigger] depths@[a] as nat).contains(a),
        decreases count - depths@.dom().len(),
    {
        let ghost members = names(frontier@);
        let before = depths.len();
        proof {
            lemma_reached_finite(g, o, depth as nat);
            lemma_reached_monotone(g, o, depth as nat, depth as nat + 1);
            lemma_fresh_count(g, o, depth as nat);
            lemma_reached_within(g, o, depth as nat + 1);
            lemma_frontier_in_network(g, o, depth as nat, members);
            assert forall|k: int| 0 <= k < frontier@.len() implies g.contains_key(
                #[trigger] frontier@[k]@,
            ) by {
                assert(members[k] == frontier@[k]@);
            }
        }
        let next = record_layer(graph, &frontier, &mut depths, depth);
        proof {
            lemma_next_pruned(g, o, depth as nat, members, depths@.dom(), names(next@));
        }
        let after = depths.len();
        let added = after - before;
        proof {
            assert(added == fresh(g, o, depth as nat).len());
            assert(depth_sum(g, o, depth as nat + 1) == total + depth * added);
            assert(reached(g, o, depth as nat) != g.dom());
            if connected(g, o) {
                lemma_progress(g, o, depth as nat);
                let c = covering_rounds(g, o);
                assert(reached(g, o, c) == g.dom());
                if c <= depth {
                    lemma_cover_persists(g, o, c, depth as nat);
                }
                lemma_depth_sum_grows(g, o, depth as nat + 1, c);
                assert(added > 0);
                assert(total + depth * added <= sum_of_depths(g, o));
            }
        }
        if added == 0 {
            return None;
        }
        let gained = match depth.checked_mul(added) {
            Some(v) => v,
            None => {
                return None;
            },
        };
        total =
        match total.checked_add(gained) {
            Some(v) => v,
            None => {
                return None;
            },
        };
        depth = depth + 1;
        frontier = next;
    }
    proof {
        lemma_reached_finite(g, o, depth as nat);
        lemma_reached_within(g, o, depth as nat);
        vstd::set_lib::lemma_subset_equality(reached(g, o, depth as nat), g.dom());
        lemma_depth_sum_unique(g, o, depth as nat, covering_rounds(g, o));
    }
    Some(total)
}

/// The sum of the hop distances from `origin` to every location of a
/// connected network, the origin counting 0.
pub fn sum_shortest_depths(graph: &Graph, origin: &Location) -> (total: usize)
    requires
        graph.well_formed(),
        graph@.contains_key(origin@),
        connected(graph@, origin@),
        sum_of_depths(graph@, origin@) <= usize::MAX,
    ensures
        total == sum_of_depths(graph@, origin@),
{
    try_sum_shortest_depths(graph, origin).unwrap()
}

/// The answers depend on the network and on the origin's name alone: two
/// graphs that hold the same network, asked from origins of the same name,
/// give the same counts and the same sum, and so does one graph asked twice.
pub proof fn lemma_answers_depend_on_network_only(
    first: Graph,
    second: Graph,
    from: Location,
    again: Location,
    max_depth: nat,
)
    requires
        first@ == second@,
        from@ == again@,
    ensures
        first@.dom().len() == second@.dom().len(),
        reached(first@, from@, max_depth + 1).len() == reached(
            second@,
            again@,
            max_depth + 1,
        ).len(),
        connected(first@, from@) == connected(second@, again@),
        sum_of_depths(first@, from@) == sum_of_depths(second@, again@),
{
}

/// The origin used by the three fixed queries.
pub open spec fn home() -> Name {
    "STT"@
}

/// How many locations the network has.
pub fn part1(graph: Graph) -> (count: usize)
    ensures
        count == graph@.dom().len(),
{
    count_all_locations(&graph)
}

/// How many locations lie within three hops of the fixed origin.
pub fn part2(graph: Graph) -> (count: usize)
    requires
        graph.well_formed(),
        graph@.contains_key(home()),
    ensures
        count == reached(graph@, home(), 4).len(),
{
    let origin = Location::new("STT");
    reachable_within_depth(&graph, &origin, 3)
}

/// The sum of the hop distances from the fixed origin to every location.
pub fn part3(graph: Graph) -> (total: usize)
    requires
        graph.well_formed(),
        graph@.contains_key(home()),
        connected(graph@, home()),
        sum_of_depths(graph@, home()) <= usize::MAX,
    ensures
        total == sum_of_depths(graph@, home()),
{
    let origin = Location::new("STT");
    sum_shortest_depths(&graph, &origin)
}

} // verus!
