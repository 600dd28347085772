//! Locations, connection records and the network built from them.

use vstd::prelude::*;
use vstd::hash_map::StringHashMap;

verus! {

/// The mathematical model of a location: its name.
pub type Name = Seq<char>;

/// The mathematical model of a network: each location's neighbours, in the
/// order in which the connections were recorded.
pub type Adjacency = Map<Name, Seq<Name>>;

/// A named location. Two locations are the same when their names are equal.
pub struct Location {
    pub name: String,
}

impl View for Location {
    type V = Name;

    open spec fn view(&self) -> Name {
        self.name@
    }
}

impl Location {
    /// The location with the given name.
    pub fn new(name: &str) -> (loc: Location)
        ensures
            loc@ == name@,
    {
        Location { name: name.to_owned() }
    }

    /// A second value for the same location.
    pub fn duplicate(&self) -> (loc: Location)
        ensures
            loc@ == self@,
    {
        Location { name: self.name.clone() }
    }
}

/// The names of a sequence of locations.
pub open spec fn names(locs: Seq<Location>) -> Seq<Name> {
    Seq::new(locs.len(), |i: int| locs[i]@)
}

/// The names of a sequence of connection records.
pub open spec fn record_names(records: Seq<(Location, Location)>) -> Seq<(Name, Name)> {
    Seq::new(records.len(), |i: int| (records[i].0@, records[i].1@))
}

/// The locations that occur in some record, on either side.
pub open spec fn endpoints(records: Seq<(Name, Name)>) -> Set<Name> {
    Set::new(
        |a: Name|
            exists|i: int|
                0 <= i < records.len() && (#[trigger] records[i].0 == a || records[i].1 == a),
    )
}

/// The neighbours of `a` that the records give, in record order: a record
/// `(l, r)` makes `r` a neighbour of `l` and then `l` a neighbour of `r`.
pub open spec fn neighbours_of(records: Seq<(Name, Name)>, a: Name) -> Seq<Name>
    decreases records.len(),
{
    if records.len() == 0 {
        Seq::empty()
    } else {
        let before = neighbours_of(records.drop_last(), a);
        let (l, r) = records.last();
        let with_right = if l == a {
            before.push(r)
        } else {
            before
        };
        if r == a {
            with_right.push(l)
        } else {
            with_right
        }
    }
}

/// The network that a sequence of records describes.
pub open spec fn adjacency(records: Seq<(Name, Name)>) -> Adjacency {
    Map::new(|a: Name| endpoints(records).contains(a), |a: Name| neighbours_of(records, a))
}

/// Every neighbour of a location is itself a location of the network, and
/// there are finitely many locations.
pub open spec fn closed_network(g: Adjacency) -> bool {
    &&& g.dom().finite()
    &&& forall|a: Name, i: int|
        g.contains_key(a) && 0 <= i < g[a].len() ==> g.contains_key(#[trigger] g[a][i])
}

/// A network of locations, held as each location's list of neighbours.
pub struct Graph {
    pub map: StringHashMap<Vec<Location>>,
}

impl View for Graph {
    type V = Adjacency;

    open spec fn view(&self) -> Adjacency {
        model(self.map@)
    }
}

/// The network that a table of neighbour lists stands for.
pub open spec fn model(m: Map<Name, Vec<Location>>) -> Adjacency {
    Map::new(|a: Name| m.contains_key(a), |a: Name| names(m[a]@))
}

impl Graph {
    /// The network is finite and closed under taking neighbours.
    pub open spec fn well_formed(&self) -> bool {
        closed_network(self@)
    }

    /// Whether `location` is a location of the network.
    pub fn contains(&self, location: &Location) -> (present: bool)
        ensures
            present == self@.contains_key(location@),
    {
        self.map.contains_key(location.name.as_str())
    }

    /// The neighbours of `location`, in the order in which the connections
    /// were recorded, where it is a location of the network.
    pub fn neighbours(&self, location: &Location) -> (list: Option<&Vec<Location>>)
        ensures
            list.is_some() == self@.contains_key(location@),
            list.is_some() ==> names(list.unwrap()@) == self@[location@],
    {
        self.map.get(location.name.as_str())
    }
}

/// A copy of a list of locations with one more location at its end.
fn extended(list: &Vec<Location>, last: Location) -> (out: Vec<Location>)
    ensures
        names(out@) == names(list@).push(last@),
{
    let mut out: Vec<Location> = Vec::new();
    let mut i: usize = 0;
    while i < list.len()
        invariant
            i <= list.len(),
            out@.len() == i,
            forall|j: int| 0 <= j < i ==> out@[j]@ == list@[j]@,
        decreases list.len() - i,
    {
        out.push(list[i].duplicate());
        i += 1;
    }
    out.push(last);
    proof {
        assert(names(out@) =~= names(list@).push(last@));
    }
    out
}

/// The neighbour list of `a` in `m`, empty where `a` has none yet.
pub open spec fn list_or_empty(m: Map<Name, Vec<Location>>, a: Name) -> Seq<Name> {
    if m.contains_key(a) {
        names(m[a]@)
    } else {
        Seq::empty()
    }
}

/// Appends `neighbour` to the list of `at`, starting a list where there is none.
fn connect(map: &mut StringHashMap<Vec<Location>>, at: &Location, neighbour: Location)
    ensures
        final(map)@.dom() == old(map)@.dom().insert(at@),
        names(final(map)@[at@]@) == list_or_empty(old(map)@, at@).push(neighbour@),
        forall|a: Name| a != at@ && old(map)@.contains_key(a) ==> final(map)@[a] == old(map)@[a],
{
    let list = match map.get(at.name.as_str()) {
        Some(present) => extended(present, neighbour),
        None => {
            let mut fresh: Vec<Location> = Vec::new();
            fresh.push(neighbour);
            proof {
                assert(names(fresh@) =~= Seq::<Name>::empty().push(neighbour@));
            }
            fresh
        },
    };
    map.insert(at.name.clone(), list);
    proof {
        assert(final(map)@.dom() =~= old(map)@.dom().insert(at@));
    }
}

/// A location that no record mentions has no neighbours.
pub proof fn lemma_stranger_has_no_neighbours(records: Seq<(Name, Name)>, a: Name)
    requires
        !endpoints(records).contains(a),
    ensures
        neighbours_of(records, a) == Seq::<Name>::empty(),
    decreases records.len(),
{
    if records.len() > 0 {
        let last = records.len() - 1;
        assert(records[last].0 != a && records[last].1 != a);
        assert forall|i: int| 0 <= i < records.drop_last().len() implies !(
        #[trigger] records.drop_last()[i].0 == a || records.drop_last()[i].1 == a) by {
            assert(records[i].0 != a && records[i].1 != a);
        }
        lemma_stranger_has_no_neighbours(records.drop_last(), a);
    }
}

/// One more record adds its two sides to the locations, and nothing else.
pub proof fn lemma_endpoints_step(records: Seq<(Name, Name)>)
    requires
        records.len() > 0,
    ensures
        endpoints(records) == endpoints(records.drop_last()).insert(records.last().0).insert(
            records.last().1,
        ),
{
    let before = records.drop_last();
    let after = endpoints(before).insert(records.last().0).insert(records.last().1);
    assert forall|a: Name| endpoints(records).contains(a) implies after.contains(a) by {
        let i = choose|i: int|
            0 <= i < records.len() && (#[trigger] records[i].0 == a || records[i].1 == a);
        if i < records.len() - 1 {
            assert(before[i].0 == a || before[i].1 == a);
        }
    }
    assert forall|a: Name| after.contains(a) implies endpoints(records).contains(a) by {
        if endpoints(before).contains(a) {
            let i = choose|i: int|
                0 <= i < before.len() && (#[trigger] before[i].0 == a || before[i].1 == a);
            assert(records[i].0 == a || records[i].1 == a);
        } else {
            let last = records.len() - 1;
            assert(records[last].0 == a || records[last].1 == a);
        }
    }
    assert(endpoints(records) =~= after);
}

/// Every neighbour that the records give is a location of some record.
pub proof fn lemma_neighbours_are_endpoints(records: Seq<(Name, Name)>, a: Name, i: int)
    requires
        0 <= i < neighbours_of(records, a).len(),
    ensures
        endpoints(records).contains(neighbours_of(records, a)[i]),
    decreases records.len(),
{
    if records.len() > 0 {
        lemma_endpoints_step(records);
        let before = neighbours_of(records.drop_last(), a);
        if i < before.len() {
            lemma_neighbours_are_endpoints(records.drop_last(), a, i);
        }
    }
}

/// The network of any records is closed under taking neighbours.
pub proof fn lemma_adjacency_closed(records: Seq<(Name, Name)>)
    ensures
        forall|a: Name, i: int|
            adjacency(records).contains_key(a) && 0 <= i < adjacency(records)[a].len()
                ==> adjacency(records).contains_key(#[trigger] adjacency(records)[a][i]),
{
    assert forall|a: Name, i: int|
        adjacency(records).contains_key(a) && 0 <= i < adjacency(records)[a].len()
            implies adjacency(records).contains_key(#[trigger] adjacency(records)[a][i]) by {
        lemma_neighbours_are_endpoints(records, a, i);
    }
}

/// Builds the network from connection records: each record `(l, r)` appends
/// `r` to the neighbours of `l` and `l` to the neighbours of `r`.
pub fn build(records: &Vec<(Location, Location)>) -> (graph: Graph)
    ensures
        graph@ == adjacency(record_names(records@)),
        graph.well_formed(),
{
    let mut map: StringHashMap<Vec<Location>> = StringHashMap::new();
    let ghost all = record_names(records@);
    let mut i: usize = 0;
    proof {
        assert(model(map@) =~= adjacency(all.take(0)));
    }
    while i < records.len()
        invariant
            i <= records.len(),
            all == record_names(records@),
            map@.dom().finite(),
            model(map@) == adjacency(all.take(i as int)),
        decreases records.len() - i,
    {
        let ghost before = all.take(i as int);
        let ghost now = all.take(i + 1);
        let ghost start = map@;
        let left = &records[i].0;
        let right = &records[i].1;
        connect(&mut map, left, right.duplicate());
        let ghost middle = map@;
        connect(&mut map, right, left.duplicate());
        proof {
            assert(now.drop_last() =~= before);
            assert(now.last() == (left@, right@));
            lemma_endpoints_step(now);
            assert forall|a: Name| start.contains_key(a) <==> endpoints(before).contains(a) by {
                assert(model(start).contains_key(a) <==> adjacency(before).contains_key(a));
            }
            assert forall|a: Name| endpoints(before).contains(a) implies names(start[a]@)
                == neighbours_of(before, a) by {
                assert(model(start)[a] == adjacency(before)[a]);
            }
            if !start.contains_key(left@) {
                lemma_stranger_has_no_neighbours(before, left@);
            }
            if !start.contains_key(right@) {
                lemma_stranger_has_no_neighbours(before, right@);
            }
            assert forall|a: Name| map@.contains_key(a) implies names(map@[a]@) == neighbours_of(
                now,
                a,
            ) by {
                let earlier = neighbours_of(before, a);
                assert(neighbours_of(now, a) == {
                    let with_right = if left@ == a {
                        earlier.push(right@)
                    } else {
                        earlier
                    };
                    if right@ == a {
                        with_right.push(left@)
                    } else {
                        with_right
                    }
                });
                assert(list_or_empty(start, a) == earlier) by {
                    if start.contains_key(a) {
                        assert(endpoints(before).contains(a));
                    } else {
                        assert(!endpoints(before).contains(a));
                        lemma_stranger_has_no_neighbours(before, a);
                    }
                }
                if a == left@ {
                    assert(names(middle[a]@) == earlier.push(right@));
                    assert(middle.contains_key(a));
                } else {
                    assert(middle.contains_key(a) == start.contains_key(a));
                    if start.contains_key(a) {
                        assert(middle[a] == start[a]);
                    }
                    assert(list_or_empty(middle, a) == earlier);
                }
                if a != right@ {
                    assert(map@[a] == middle[a]);
                }
            }
            assert(model(map@) =~= adjacency(now));
        }
        i += 1;
    }
    proof {
        assert(all.take(records.len() as int) =~= all);
        lemma_adjacency_closed(all);
        assert(model(map@).dom() =~= map@.dom());
    }
    Graph { map }
}

/// How many locations the network has.
pub fn count_all_locations(graph: &Graph) -> (count: usize)
    ensures
        count == graph@.dom().len(),
{
    proof {
        assert(graph@.dom() =~= graph.map@.dom());
    }
    graph.map.len()
}

/// The names of a list with one more location are the names with one more name.
pub proof fn lemma_names_push(locs: Seq<Location>, last: Location)
    ensures
        names(locs.push(last)) == names(locs).push(last@),
{
    assert(names(locs.push(last)) =~= names(locs).push(last@));
}

/// How often `n` occurs in `list`.
pub open spec fn occurrences(list: Seq<Name>, n: Name) -> nat
    decreases list.len(),
{
    if list.len() == 0 {
        0
    } else {
        occurrences(list.drop_last(), n) + if list.last() == n {
            1nat
        } else {
            0nat
        }
    }
}

/// One more element is one more occurrence of itself and of nothing else.
proof fn lemma_occurrences_push(list: Seq<Name>, last: Name, n: Name)
    ensures
        occurrences(list.push(last), n) == occurrences(list, n) + if last == n {
            1nat
        } else {
            0nat
        },
{
    assert(list.push(last).drop_last() =~= list);
}

/// Connections are mutual: `b` occurs among the neighbours of `a` as often
/// as `a` occurs among the neighbours of `b`.
pub proof fn lemma_neighbours_symmetric(records: Seq<(Name, Name)>, a: Name, b: Name)
    ensures
        occurrences(neighbours_of(records, a), b) == occurrences(neighbours_of(records, b), a),
    decreases records.len(),
{
    if records.len() > 0 {
        lemma_neighbours_symmetric(records.drop_last(), a, b);
        let (l, r) = records.last();
        let of_a = neighbours_of(records.drop_last(), a);
        let of_b = neighbours_of(records.drop_last(), b);
        lemma_occurrences_push(of_a, r, b);
        lemma_occurrences_push(of_a, l, b);
        lemma_occurrences_push(of_a.push(r), l, b);
        lemma_occurrences_push(of_b, r, a);
        lemma_occurrences_push(of_b, l, a);
        lemma_occurrences_push(of_b.push(r), l, a);
    }
}

/// In the network built from any records, `b` is a neighbour of `a` as
/// often as `a` is a neighbour of `b`.
pub proof fn lemma_network_symmetric(records: Seq<(Name, Name)>, a: Name, b: Name)
    requires
        adjacency(records).contains_key(a),
        adjacency(records).contains_key(b),
    ensures
        occurrences(adjacency(records)[a], b) == occurrences(adjacency(records)[b], a),
{
    lemma_neighbours_symmetric(records, a, b);
}

/// The locations of the built network are the distinct names in the
/// records, whatever their order and however often each occurs.
pub proof fn lemma_locations_are_endpoints(records: Seq<(Name, Name)>)
    ensures
        adjacency(records).dom() == endpoints(records),
        adjacency(records).dom().len() == endpoints(records).len(),
{
    assert(adjacency(records).dom() =~= endpoints(records));
}

/// Records that hold the same pairs, in another order or repeated, give a
/// network of the same locations, and so the same count of them.
pub proof fn lemma_count_ignores_order_and_repeats(
    first: Seq<(Name, Name)>,
    second: Seq<(Name, Name)>,
)
    requires
        forall|i: int| 0 <= i < first.len() ==> second.contains(#[trigger] first[i]),
        forall|j: int| 0 <= j < second.len() ==> first.contains(#[trigger] second[j]),
    ensures
        adjacency(first).dom() == adjacency(second).dom(),
        adjacency(first).dom().len() == adjacency(second).dom().len(),
{
    assert forall|a: Name| endpoints(first).contains(a) implies endpoints(second).contains(a) by {
        let i = choose|i: int|
            0 <= i < first.len() && (#[trigger] first[i].0 == a || first[i].1 == a);
        assert(second.contains(first[i]));
        let j = choose|j: int| 0 <= j < second.len() && second[j] == first[i];
        assert(second[j].0 == a || second[j].1 == a);
    }
    assert forall|a: Name| endpoints(second).contains(a) implies endpoints(first).contains(a) by {
        let j = choose|j: int|
            0 <= j < second.len() && (#[trigger] second[j].0 == a || second[j].1 == a);
        assert(first.contains(second[j]));
        let i = choose|i: int| 0 <= i < first.len() && first[i] == second[j];
        assert(first[i].0 == a || first[i].1 == a);
    }
    assert(adjacency(first).dom() =~= adjacency(second).dom());
}

} // verus!
