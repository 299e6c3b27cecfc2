//! The rail network: stations, edges, the adjacency graph and the distances.
use vstd::prelude::*;
use crate::text::{text_eq, text_lt};
use crate::textmap::{TextMap, strictly_sorted};
use crate::digits::{decimal, u32_text, text_starts_with, starts_with};
use crate::package::Package;
use crate::routing::{find_nearest_trains, nearest_of, gaps_fit};

verus! {

/// `i` is the first position of `name` in `s`.
pub open spec fn first_at(s: Seq<Seq<char>>, name: Seq<char>, i: int) -> bool {
    &&& 0 <= i < s.len()
    &&& s[i] == name
    &&& forall|j: int| 0 <= j < i ==> s[j] != name
}

/// The first position of `name` in `s` (meaningful when `s` holds it).
pub open spec fn first_pos(s: Seq<Seq<char>>, name: Seq<char>) -> int {
    choose|i: int| first_at(s, name, i)
}

/// The first position of `name` in `s`, if any.
pub open spec fn station_pos(s: Seq<Seq<char>>, name: Seq<char>) -> Option<int> {
    if s.contains(name) {
        Some(first_pos(s, name))
    } else {
        None
    }
}

/// A name that occurs has a unique first position.
pub proof fn lemma_first_pos(s: Seq<Seq<char>>, name: Seq<char>)
    requires
        s.contains(name),
    ensures
        first_at(s, name, first_pos(s, name)),
        forall|i: int| first_at(s, name, i) ==> i == first_pos(s, name),
    decreases s.len(),
{
    let k = s.index_of(name);
    if !first_at(s, name, k) {
        let t = s.take(k);
        assert(t.contains(name)) by {
            let j = choose|j: int| 0 <= j < k && s[j] == name;
            assert(t[j] == name);
        }
        lemma_first_pos(t, name);
        let f = first_pos(t, name);
        assert(t[f] == s[f]);
        assert forall|j: int| 0 <= j < f implies s[j] != name by {
            assert(t[j] == s[j]);
        }
        assert(first_at(s, name, f));
    }
    let f = first_pos(s, name);
    assert forall|i: int| first_at(s, name, i) implies i == f by {
        if i < f {
        } else if i > f {
        }
    }
}

/// The stations, numbered from zero in the order they were added.
#[derive(Debug, Clone)]
pub struct StationCollection {
    stations: Vec<String>,
}

impl View for StationCollection {
    type V = Seq<Seq<char>>;

    closed spec fn view(&self) -> Seq<Seq<char>> {
        self.stations@.map_values(|s: String| s@)
    }
}

impl StationCollection {
    pub fn new() -> (r: Self)
        ensures
            r@ == Seq::<Seq<char>>::empty(),
    {
        let r = Self { stations: Vec::new() };
        assert(r@ =~= Seq::<Seq<char>>::empty());
        r
    }

    /// Add a station under the next free number.
    pub fn add_station(&mut self, name: String)
        ensures
            final(self)@ == old(self)@.push(name@),
    {
        self.stations.push(name);
        assert(self@ =~= old(self)@.push(name@));
    }

    pub fn get_station_name(&self, index: usize) -> (r: Option<&String>)
        ensures
            r is Some <==> index < self@.len(),
            r is Some ==> (*r->0)@ == self@[index as int],
    {
        if index < self.stations.len() {
            Some(&self.stations[index])
        } else {
            None
        }
    }

    /// The name of station `i`.
    pub(crate) fn station_at(&self, i: usize) -> (r: &String)
        requires
            i < self@.len(),
        ensures
            r@ == self@[i as int],
    {
        &self.stations[i]
    }

    /// The number of stations.
    pub(crate) fn count(&self) -> (r: usize)
        ensures
            r == self@.len(),
    {
        self.stations.len()
    }

    /// The number of the first station called `name`.
    pub fn get_station_index(&self, name: &str) -> (r: Option<usize>)
        ensures
            r is None <==> !self@.contains(name@),
            r is Some ==> first_at(self@, name@, r->0 as int),
            r matches Some(i) ==> station_pos(self@, name@) == Some(i as int),
            r is None ==> station_pos(self@, name@) is None,
    {
        let n = self.stations.len();
        let mut i: usize = 0;
        while i < n
            invariant
                n == self@.len(),
                i <= n,
                forall|j: int| 0 <= j < i ==> self@[j] != name@,
            decreases n - i,
        {
            if text_eq(self.stations[i].as_str(), name) {
                proof {
                    assert(self@[i as int] == name@);
                    assert(first_at(self@, name@, i as int));
                    lemma_first_pos(self@, name@);
                }
                return Some(i);
            }
            i = i + 1;
        }
        None
    }

    /// The trains nearest to a package's pickup station, among the given positions.
    pub fn get_nearest_train_to_pkg(&self, pkg: &Package, train_indices: &Vec<usize>) -> (r: Vec<usize>)
        requires
            self@.contains(pkg@.from),
            gaps_fit(first_pos(self@, pkg@.from) as usize, train_indices@),
        ensures
            r@ == nearest_of(first_pos(self@, pkg@.from) as usize, train_indices@),
    {
        let pkg_index = match self.get_station_index(pkg.from().as_str()) {
            Some(i) => i,
            None => 0,
        };
        proof { lemma_first_pos(self@, pkg@.from); }
        find_nearest_trains(pkg_index, train_indices.as_slice())
    }

    /// Take out the first station called `name`; the later ones move down one number.
    pub fn remove_station(&mut self, name: &str)
        ensures
            !old(self)@.contains(name@) ==> final(self)@ == old(self)@,
            old(self)@.contains(name@) ==> final(self)@ == old(self)@.remove(first_pos(old(self)@, name@)),
    {
        match self.get_station_index(name) {
            Some(i) => {
                proof { lemma_first_pos(self@, name@); }
                self.stations.remove(i);
                assert(self@ =~= old(self)@.remove(i as int));
            },
            None => {},
        }
    }

    /// Each station with its number.
    pub fn iter(&self) -> (r: Vec<(usize, &String)>)
        ensures
            r@.len() == self@.len(),
            forall|i: int| 0 <= i < r@.len() ==> (#[trigger] r@[i]).0 == i && (*r@[i].1)@ == self@[i],
    {
        let mut out: Vec<(usize, &String)> = Vec::new();
        let n = self.stations.len();
        let mut i: usize = 0;
        while i < n
            invariant
                n == self@.len(),
                i <= n,
                out@.len() == i,
                forall|j: int| 0 <= j < i ==> (#[trigger] out@[j]).0 == j && (*out@[j].1)@ == self@[j],
            decreases n - i,
        {
            out.push((i, &self.stations[i]));
            i = i + 1;
        }
        out
    }

    /// The station names in number order.
    pub fn names(&self) -> (r: &[String])
        ensures
            r@.map_values(|s: String| s@) == self@,
    {
        self.stations.as_slice()
    }

    /// The numbers of the stations named in `train_names`, in that order, leaving out
    /// names that are no station.
    pub fn indices_of_trains(&self, train_names: Vec<String>) -> (r: Vec<usize>)
        ensures
            r@ == positions_of(self@, train_names@.map_values(|s: String| s@)),
    {
        let ghost names = train_names@.map_values(|s: String| s@);
        let mut out: Vec<usize> = Vec::new();
        let n = train_names.len();
        let mut i: usize = 0;
        while i < n
            invariant
                n == train_names@.len(),
                names == train_names@.map_values(|s: String| s@),
                i <= n,
                out@ == positions_of(self@, names.subrange(0, i as int)),
            decreases n - i,
        {
            proof {
                assert(names.subrange(0, i + 1).drop_last() =~= names.subrange(0, i as int));
                assert(names.subrange(0, i + 1).last() == train_names@[i as int]@);
            }
            match self.get_station_index(train_names[i].as_str()) {
                Some(k) => {
                    out.push(k);
                },
                None => {},
            }
            i = i + 1;
        }
        assert(names.subrange(0, n as int) =~= names);
        out
    }
}

/// A station added under a new name is found at the end of the list, and
/// removing it again gives back the list as it was.
pub proof fn added_station_found_then_removed(stations: Seq<Seq<char>>, name: Seq<char>)
    requires
        !stations.contains(name),
    ensures
        station_pos(stations.push(name), name) == Some(stations.len() as int),
        stations.push(name).remove(first_pos(stations.push(name), name)) == stations,
{
    let s = stations.push(name);
    assert(s[stations.len() as int] == name);
    assert(s.contains(name));
    lemma_first_pos(s, name);
    assert(first_at(s, name, stations.len() as int)) by {
        assert forall|j: int| 0 <= j < stations.len() implies s[j] != name by {
            assert(s[j] == stations[j]);
        }
    }
    assert(s.remove(stations.len() as int) =~= stations);
}

/// The positions of the names in `names` that are stations, in order.
pub open spec fn positions_of(stations: Seq<Seq<char>>, names: Seq<Seq<char>>) -> Seq<usize>
    decreases names.len(),
{
    if names.len() == 0 {
        Seq::empty()
    } else {
        let rest = positions_of(stations, names.drop_last());
        match station_pos(stations, names.last()) {
            Some(i) => rest.push(i as usize),
            None => rest,
        }
    }
}

/// What an edge holds, as plain values.
pub struct EdgeInfo {
    pub name: Seq<char>,
    pub from: Seq<char>,
    pub to: Seq<char>,
    pub times: u32,
}

/// A track between two stations and the time it takes.
#[derive(Debug)]
pub struct Edge {
    name: String,
    from: String,
    to: String,
    times: u32,
}

impl View for Edge {
    type V = EdgeInfo;

    closed spec fn view(&self) -> EdgeInfo {
        EdgeInfo { name: self.name@, from: self.from@, to: self.to@, times: self.times }
    }
}

impl Clone for Edge {
    fn clone(&self) -> (r: Self)
        ensures
            r == *self,
    {
        Edge { name: self.name.clone(), from: self.from.clone(), to: self.to.clone(), times: self.times }
    }
}

impl Edge {
    pub fn new(name: String, from: String, to: String, times: u32) -> (r: Self)
        ensures
            r@ == (EdgeInfo { name: name@, from: from@, to: to@, times }),
    {
        Self { name, from, to, times }
    }

    pub fn times(&self) -> (r: u32)
        ensures
            r == self@.times,
    {
        self.times
    }

    pub fn from(&self) -> (r: &String)
        ensures
            r@ == self@.from,
    {
        &self.from
    }

    pub fn to(&self) -> (r: &String)
        ensures
            r@ == self@.to,
    {
        &self.to
    }

    pub fn name(&self) -> (r: &String)
        ensures
            r@ == self@.name,
    {
        &self.name
    }
}

/// The edges, in the order they were added.
#[derive(Debug, Clone)]
pub struct EdgeStorage {
    edges: Vec<Edge>,
}

impl View for EdgeStorage {
    type V = Seq<EdgeInfo>;

    closed spec fn view(&self) -> Seq<EdgeInfo> {
        self.edges@.map_values(|e: Edge| e@)
    }
}

impl EdgeStorage {
    pub fn new() -> (r: Self)
        ensures
            r@ == Seq::<EdgeInfo>::empty(),
    {
        let r = Self { edges: Vec::new() };
        assert(r@ =~= Seq::<EdgeInfo>::empty());
        r
    }

    pub fn push(&mut self, name: String, from: String, to: String, times: u32)
        ensures
            final(self)@ == old(self)@.push(EdgeInfo { name: name@, from: from@, to: to@, times }),
    {
        let edge = Edge::new(name, from, to, times);
        self.edges.push(edge);
        assert(self@ =~= old(self)@.push(EdgeInfo { name: name@, from: from@, to: to@, times }));
    }

    fn enumerate_edges(&self) -> (r: &[Edge])
        ensures
            r@.map_values(|e: Edge| e@) == self@,
            r@.len() == self@.len(),
            forall|i: int| 0 <= i < r@.len() ==> (#[trigger] r@[i])@ == self@[i],
    {
        self.edges.as_slice()
    }

    pub fn iter(&self) -> (r: &[Edge])
        ensures
            r@.map_values(|e: Edge| e@) == self@,
    {
        self.edges.as_slice()
    }
}

/// `m` with `v` appended to the neighbour list of `k` (an empty list if `k` has none).
pub open spec fn append_neighbor(m: Map<Seq<char>, Seq<Seq<char>>>, k: Seq<char>, v: Seq<char>) -> Map<Seq<char>, Seq<Seq<char>>> {
    m.insert(k, (if m.contains_key(k) { m[k] } else { Seq::empty() }).push(v))
}

/// `m` after linking both ends of each edge of `edges`, in order.
pub open spec fn link_all(m: Map<Seq<char>, Seq<Seq<char>>>, edges: Seq<EdgeInfo>) -> Map<Seq<char>, Seq<Seq<char>>>
    decreases edges.len(),
{
    if edges.len() == 0 {
        m
    } else {
        let e = edges.last();
        append_neighbor(append_neighbor(link_all(m, edges.drop_last()), e.from, e.to), e.to, e.from)
    }
}

/// `m` with an empty neighbour list under each name of `names`.
pub open spec fn clear_all(m: Map<Seq<char>, Seq<Seq<char>>>, names: Seq<Seq<char>>) -> Map<Seq<char>, Seq<Seq<char>>> {
    Map::new(
        |k: Seq<char>| m.contains_key(k) || names.contains(k),
        |k: Seq<char>| if names.contains(k) { Seq::empty() } else { m[k] },
    )
}

/// For each station, its neighbours in the order the edges name them.
#[derive(Debug, Clone)]
pub struct Graph {
    graph: TextMap<Vec<String>>,
}

impl View for Graph {
    type V = Map<Seq<char>, Seq<Seq<char>>>;

    closed spec fn view(&self) -> Map<Seq<char>, Seq<Seq<char>>> {
        Map::new(
            |k: Seq<char>| self.graph@.contains_key(k),
            |k: Seq<char>| self.graph@[k]@.map_values(|s: String| s@),
        )
    }
}

impl Graph {
    pub closed spec fn wf(&self) -> bool {
        self.graph.wf()
    }

    /// A copy with the same neighbour lists.
    pub(crate) fn copy(&self) -> (r: Self)
        requires
            self.wf(),
        ensures
            r.wf(),
            r@ == self@,
    {
        let mut out: TextMap<Vec<String>> = TextMap::new();
        let n = self.graph.len();
        let mut i: usize = 0;
        while i < n
            invariant
                n == self.graph.key_seq().len(),
                self.graph.wf(),
                out.wf(),
                i <= n,
                out.key_seq() == self.graph.key_seq().subrange(0, i as int),
                out.val_seq().len() == i,
                forall|j: int| 0 <= j < i ==> (#[trigger] out.val_seq()[j])@.map_values(|s: String| s@)
                    == self.graph.val_seq()[j]@.map_values(|s: String| s@),
            decreases n - i,
        {
            let k = self.graph.key_at(i).clone();
            let list = copy_names(self.graph.value_at(i));
            proof {
                assert forall|j: int| 0 <= j < out.key_seq().len() implies crate::text::text_lt(#[trigger] out.key_seq()[j], k@) by {
                    assert(out.key_seq()[j] == self.graph.key_seq()[j]);
                }
            }
            out.push_last(k, list);
            proof {
                assert(out.key_seq() =~= self.graph.key_seq().subrange(0, i + 1));
            }
            i = i + 1;
        }
        let r = Graph { graph: out };
        proof {
            assert(out.key_seq() =~= self.graph.key_seq());
            assert forall|q: Seq<char>| #[trigger] r@.contains_key(q) == self@.contains_key(q) by {}
            assert forall|q: Seq<char>| r@.contains_key(q) implies #[trigger] r@[q] == self@[q] by {
                self.graph.lemma_key_position(q);
                let p = self.graph.key_seq().index_of(q);
                self.graph.lemma_entry(p);
                out.lemma_entry(p);
            }
            assert(r@ =~= self@);
        }
        r
    }

    /// The stations with neighbour lists, in name order.
    pub closed spec fn key_order(&self) -> Seq<Seq<char>> {
        self.graph.key_seq()
    }

    pub fn new() -> (r: Self)
        ensures
            r.wf(),
            r@ == Map::<Seq<char>, Seq<Seq<char>>>::empty(),
    {
        let r = Self { graph: TextMap::new() };
        assert(r@ =~= Map::<Seq<char>, Seq<Seq<char>>>::empty());
        r
    }

    /// Give every station an empty neighbour list (replacing any list it had).
    pub fn init_key(&mut self, station_collection: &StationCollection)
        requires
            old(self).wf(),
        ensures
            final(self).wf(),
            final(self)@ == clear_all(old(self)@, station_collection@),
    {
        let names = station_collection.names();
        let n = names.len();
        let mut i: usize = 0;
        while i < n
            invariant
                n == station_collection@.len(),
                names@.map_values(|s: String| s@) == station_collection@,
                i <= n,
                self.wf(),
                self@ == clear_all(old(self)@, station_collection@.subrange(0, i as int)),
            decreases n - i,
        {
            let ghost before = self@;
            let ghost g0 = self.graph@;
            let empty: Vec<String> = Vec::new();
            let ghost ev = empty@;
            self.graph.insert(names[i].clone(), empty);
            proof {
                let pre = station_collection@.subrange(0, i as int);
                let post = station_collection@.subrange(0, i + 1);
                assert(names@[i as int]@ == station_collection@[i as int]);
                assert(post =~= pre.push(station_collection@[i as int]));
                assert forall|k: Seq<char>| post.contains(k) <==> (pre.contains(k) || k == station_collection@[i as int]) by {
                    if pre.contains(k) {
                        let j = choose|j: int| 0 <= j < pre.len() && pre[j] == k;
                        assert(post[j] == k);
                    }
                    if k == station_collection@[i as int] {
                        assert(post[i as int] == k);
                    }
                    if post.contains(k) {
                        let j = choose|j: int| 0 <= j < post.len() && post[j] == k;
                        if j < i {
                            assert(pre[j] == k);
                        }
                    }
                }
                assert(ev.map_values(|s: String| s@) =~= Seq::<Seq<char>>::empty());
                let k = station_collection@[i as int];
                let target = clear_all(old(self)@, post);
                assert forall|q: Seq<char>| #[trigger] self@.contains_key(q) == target.contains_key(q) by {
                    assert(self@.contains_key(q) == self.graph@.contains_key(q));
                    assert(before.contains_key(q) == g0.contains_key(q));
                    assert(self.graph@.contains_key(q) == (g0.contains_key(q) || q == k));
                    assert(before.contains_key(q) == (old(self)@.contains_key(q) || pre.contains(q)));
                    assert(post.contains(q) == (pre.contains(q) || q == k));
                }
                assert forall|q: Seq<char>| self@.contains_key(q) implies #[trigger] self@[q] == target[q] by {
                    if q == k {
                        assert(self.graph@[q]@ == ev);
                    } else {
                        assert(self.graph@[q] == g0[q]);
                        assert(self@[q] == before[q]);
                    }
                }
                assert(self@ =~= target);
            }
            i = i + 1;
        }
        assert(station_collection@.subrange(0, n as int) =~= station_collection@);
    }

    /// Append `v` to the neighbour list of `k`.
    fn link(&mut self, k: &String, v: &String)
        requires
            old(self).wf(),
        ensures
            final(self).wf(),
            final(self)@ == append_neighbor(old(self)@, k@, v@),
    {
        match self.graph.position(k.as_str()) {
            Some(i) => {
                let list = self.graph.value_at_mut(i);
                list.push(v.clone());
                proof {
                    old(self).graph.lemma_update_view(&self.graph, i as int);
                    old(self).graph.lemma_entry(i as int);
                    let l0 = old(self).graph.val_seq()[i as int];
                    let l1 = self.graph.val_seq()[i as int];
                    assert(l1@.map_values(|s: String| s@) =~= l0@.map_values(|s: String| s@).push(v@));
                }
                assert(self@ =~= append_neighbor(old(self)@, k@, v@));
            },
            None => {
                let mut list: Vec<String> = Vec::new();
                list.push(v.clone());
                self.graph.insert(k.clone(), list);
                proof {
                    assert(list@.map_values(|s: String| s@) =~= Seq::<Seq<char>>::empty().push(v@));
                }
                assert(self@ =~= append_neighbor(old(self)@, k@, v@));
            },
        }
    }

    /// Link both ends of every edge, in edge order.
    pub fn init_value(&mut self, edges: &EdgeStorage)
        requires
            old(self).wf(),
        ensures
            final(self).wf(),
            final(self)@ == link_all(old(self)@, edges@),
    {
        let es = edges.enumerate_edges();
        let n = es.len();
        let mut i: usize = 0;
        while i < n
            invariant
                n == edges@.len(),
                es@.len() == n,
                forall|j: int| 0 <= j < n ==> (#[trigger] es@[j])@ == edges@[j],
                i <= n,
                self.wf(),
                self@ == link_all(old(self)@, edges@.subrange(0, i as int)),
            decreases n - i,
        {
            let e = &es[i];
            self.link(e.from(), e.to());
            self.link(e.to(), e.from());
            proof {
                let post = edges@.subrange(0, i + 1);
                assert(post.drop_last() =~= edges@.subrange(0, i as int));
                assert(post.last() == e@);
            }
            i = i + 1;
        }
        assert(edges@.subrange(0, n as int) =~= edges@);
    }

    pub fn get_neighbors(&self, node: &str) -> (r: Option<&Vec<String>>)
        requires
            self.wf(),
        ensures
            r is Some <==> self@.contains_key(node@),
            r is Some ==> r->0@.map_values(|s: String| s@) == self@[node@],
    {
        self.graph.get(node)
    }

    /// The stations with neighbour lists, in name order, with their lists.
    pub(crate) fn entries(&self) -> (r: (&Vec<String>, &Vec<Vec<String>>))
        requires
            self.wf(),
        ensures
            r.0@.len() == r.1@.len(),
            r.0@.len() == self.key_order().len(),
            forall|i: int| 0 <= i < r.0@.len() ==> (#[trigger] r.0@[i])@ == self.key_order()[i],
            forall|i: int| 0 <= i < r.0@.len() ==> self@.contains_key(self.key_order()[i])
                && self@[self.key_order()[i]] == (#[trigger] r.1@[i])@.map_values(|s: String| s@),
            forall|k: Seq<char>| #[trigger] self@.contains_key(k) ==> self.key_order().contains(k),
    {
        proof {
            assert forall|i: int| 0 <= i < self.graph.key_seq().len() implies self@.contains_key(self.key_order()[i])
                && self@[self.key_order()[i]] == (#[trigger] self.graph.val_seq()[i])@.map_values(|s: String| s@) by {
                self.graph.lemma_entry(i);
            }
        }
        (self.graph.keys(), self.graph.values())
    }
}

/// The time of the first edge (in edge order) that joins `s` and `e`, matching each
/// end by prefix as `str::starts_with` does, or 0 when none does.
pub open spec fn edge_distance(edges: Seq<EdgeInfo>, s: Seq<char>, e: Seq<char>) -> u32
    decreases edges.len(),
{
    if edges.len() == 0 {
        0
    } else if joins(edges[0], s, e) {
        edges[0].times
    } else {
        edge_distance(edges.drop_first(), s, e)
    }
}

/// An edge joins `s` and `e` when its ends begin with them, either way round.
pub open spec fn joins(edge: EdgeInfo, s: Seq<char>, e: Seq<char>) -> bool {
    (text_starts_with(edge.from, s) && text_starts_with(edge.to, e))
        || (text_starts_with(edge.from, e) && text_starts_with(edge.to, s))
}

/// The pairs that a graph lists, each with the distance the edges give it.
pub open spec fn graph_distances(g: Map<Seq<char>, Seq<Seq<char>>>, edges: Seq<EdgeInfo>) -> Map<(Seq<char>, Seq<char>), u32> {
    Map::new(
        |p: (Seq<char>, Seq<char>)| g.contains_key(p.0) && g[p.0].contains(p.1),
        |p: (Seq<char>, Seq<char>)| edge_distance(edges, p.0, p.1),
    )
}

/// The travel time between pairs of neighbouring stations.
#[derive(Debug, Clone)]
pub struct DistanceMap {
    dm: TextMap<TextMap<u32>>,
}

impl View for DistanceMap {
    type V = Map<(Seq<char>, Seq<char>), u32>;

    closed spec fn view(&self) -> Map<(Seq<char>, Seq<char>), u32> {
        Map::new(
            |p: (Seq<char>, Seq<char>)| self.dm@.contains_key(p.0) && self.dm@[p.0]@.contains_key(p.1),
            |p: (Seq<char>, Seq<char>)| self.dm@[p.0]@[p.1],
        )
    }
}

/// The entries of nested ordered maps, outer key first, in key order.
pub open spec fn flatten(keys: Seq<Seq<char>>, inner: Seq<TextMap<u32>>) -> Seq<(Seq<char>, Seq<char>, u32)>
    decreases keys.len(),
{
    if keys.len() == 0 || inner.len() == 0 {
        Seq::empty()
    } else {
        let a = keys.last();
        let m = inner.last();
        flatten(keys.drop_last(), inner.drop_last()) + Seq::new(
            m.key_seq().len(),
            |j: int| (a, m.key_seq()[j], m.val_seq()[j]),
        )
    }
}

/// One pair of stations comes before another: by first station, then by second.
pub open spec fn pair_lt(x: (Seq<char>, Seq<char>), y: (Seq<char>, Seq<char>)) -> bool {
    text_lt(x.0, y.0) || (x.0 == y.0 && text_lt(x.1, y.1))
}

/// The pair of stations of a listed entry.
pub open spec fn entry_pair(e: (Seq<char>, Seq<char>, u32)) -> (Seq<char>, Seq<char>) {
    (e.0, e.1)
}

/// Entry `b` of inner map `a`, under outer key `a`.
pub open spec fn inner_entry(keys: Seq<Seq<char>>, inner: Seq<TextMap<u32>>, a: int, b: int) -> (Seq<char>, Seq<char>, u32) {
    (keys[a], inner[a].key_seq()[b], inner[a].val_seq()[b])
}

/// `e` is an entry of one of the inner maps, under that map's outer key.
pub open spec fn from_inner(keys: Seq<Seq<char>>, inner: Seq<TextMap<u32>>, e: (Seq<char>, Seq<char>, u32)) -> bool {
    exists|a: int, b: int| 0 <= a < keys.len() && 0 <= b < inner[a].key_seq().len()
        && e == #[trigger] inner_entry(keys, inner, a, b)
}

/// What `flatten` lists: each entry of an inner map, under its outer key, and
/// nothing else, in strictly ascending pair order.
pub proof fn lemma_flatten(keys: Seq<Seq<char>>, inner: Seq<TextMap<u32>>)
    requires
        keys.len() == inner.len(),
        strictly_sorted(keys),
        forall|a: int| 0 <= a < inner.len() ==> (#[trigger] inner[a]).wf(),
    ensures
        forall|i: int| 0 <= i < flatten(keys, inner).len() ==> from_inner(keys, inner, #[trigger] flatten(keys, inner)[i]),
        forall|a: int, b: int| 0 <= a < keys.len() && 0 <= b < inner[a].key_seq().len()
            ==> flatten(keys, inner).contains(#[trigger] inner_entry(keys, inner, a, b)),
        forall|i: int, j: int| 0 <= i < j < flatten(keys, inner).len()
            ==> pair_lt(entry_pair(#[trigger] flatten(keys, inner)[i]), entry_pair(#[trigger] flatten(keys, inner)[j])),
    decreases keys.len(),
{
    let f = flatten(keys, inner);
    if keys.len() == 0 {
        return;
    }
    let k2 = keys.drop_last();
    let in2 = inner.drop_last();
    assert forall|a: int| 0 <= a < in2.len() implies (#[trigger] in2[a]).wf() by {
        assert(in2[a] == inner[a]);
    }
    lemma_flatten(k2, in2);
    let f2 = flatten(k2, in2);
    let n = keys.len() - 1;
    let m = inner[n];
    assert(m.wf());
    let tail = Seq::new(m.key_seq().len(), |j: int| (keys[n], m.key_seq()[j], m.val_seq()[j]));
    assert(f == f2 + tail);
    assert forall|i: int| 0 <= i < f.len() implies from_inner(keys, inner, #[trigger] f[i]) by {
        if i < f2.len() {
            assert(from_inner(k2, in2, f2[i]));
            let (a, b) = choose|a: int, b: int| 0 <= a < k2.len() && 0 <= b < in2[a].key_seq().len()
                && f2[i] == #[trigger] inner_entry(k2, in2, a, b);
            assert(inner_entry(k2, in2, a, b) == inner_entry(keys, inner, a, b));
            assert(f[i] == f2[i]);
        } else {
            let b = i - f2.len();
            assert(f[i] == inner_entry(keys, inner, n, b));
        }
    }
    assert forall|a: int, b: int| 0 <= a < keys.len() && 0 <= b < inner[a].key_seq().len()
        implies f.contains(#[trigger] inner_entry(keys, inner, a, b)) by {
        if a < n {
            assert(inner_entry(k2, in2, a, b) == inner_entry(keys, inner, a, b));
            assert(f2.contains(inner_entry(k2, in2, a, b)));
            let i = choose|i: int| 0 <= i < f2.len() && f2[i] == inner_entry(k2, in2, a, b);
            assert(f[i] == f2[i]);
        } else {
            let i = f2.len() + b;
            assert(f[i] == inner_entry(keys, inner, a, b));
        }
    }
    assert forall|i: int, j: int| 0 <= i < j < f.len()
        implies pair_lt(entry_pair(#[trigger] f[i]), entry_pair(#[trigger] f[j])) by {
        if j < f2.len() {
            assert(f[i] == f2[i]);
            assert(f[j] == f2[j]);
        } else if i < f2.len() {
            assert(from_inner(k2, in2, f2[i]));
            let (a, b) = choose|a: int, b: int| 0 <= a < k2.len() && 0 <= b < in2[a].key_seq().len()
                && f2[i] == #[trigger] inner_entry(k2, in2, a, b);
            assert(f[i] == f2[i]);
            assert(f[j] == tail[j - f2.len()]);
            assert(text_lt(keys[a], keys[n]));
        } else {
            let bi = i - f2.len();
            let bj = j - f2.len();
            assert(f[i] == tail[bi]);
            assert(f[j] == tail[bj]);
            assert(text_lt(m.key_seq()[bi], m.key_seq()[bj]));
        }
    }
}

impl DistanceMap {
    pub closed spec fn wf(&self) -> bool {
        &&& self.dm.wf()
        &&& forall|i: int| 0 <= i < self.dm.val_seq().len() ==> (#[trigger] self.dm.val_seq()[i]).wf()
    }

    /// Every entry, ordered by first station and then by second station.
    pub closed spec fn ordered_entries(&self) -> Seq<(Seq<char>, Seq<char>, u32)> {
        flatten(self.dm.key_seq(), self.dm.val_seq())
    }

    /// The listed entries are the entries of the map, each once, in strictly
    /// ascending pair order (first station, then second station).
    pub proof fn lemma_ordered_entries(&self)
        requires
            self.wf(),
        ensures
            forall|i: int| 0 <= i < self.ordered_entries().len()
                ==> self@.contains_key(entry_pair(#[trigger] self.ordered_entries()[i]))
                && self@[entry_pair(self.ordered_entries()[i])] == self.ordered_entries()[i].2,
            forall|p: (Seq<char>, Seq<char>)| #[trigger] self@.contains_key(p)
                ==> exists|i: int| 0 <= i < self.ordered_entries().len()
                    && entry_pair(#[trigger] self.ordered_entries()[i]) == p,
            forall|i: int, j: int| 0 <= i < j < self.ordered_entries().len()
                ==> pair_lt(entry_pair(#[trigger] self.ordered_entries()[i]), entry_pair(#[trigger] self.ordered_entries()[j])),
    {
        let keys = self.dm.key_seq();
        let inner = self.dm.val_seq();
        lemma_flatten(keys, inner);
        let e = self.ordered_entries();
        assert forall|i: int| 0 <= i < e.len() implies self@.contains_key(entry_pair(#[trigger] e[i]))
            && self@[entry_pair(e[i])] == e[i].2 by {
            assert(from_inner(keys, inner, e[i]));
            let (a, b) = choose|a: int, b: int| 0 <= a < keys.len() && 0 <= b < inner[a].key_seq().len()
                && e[i] == #[trigger] inner_entry(keys, inner, a, b);
            self.dm.lemma_entry(a);
            inner[a].lemma_entry(b);
        }
        assert forall|p: (Seq<char>, Seq<char>)| #[trigger] self@.contains_key(p)
            implies exists|i: int| 0 <= i < e.len() && entry_pair(#[trigger] e[i]) == p by {
            self.dm.lemma_key_position(p.0);
            let a = keys.index_of(p.0);
            self.dm.lemma_entry(a);
            let mm = inner[a];
            mm.lemma_key_position(p.1);
            let b = mm.key_seq().index_of(p.1);
            assert(e.contains(inner_entry(keys, inner, a, b)));
            let i = choose|i: int| 0 <= i < e.len() && e[i] == inner_entry(keys, inner, a, b);
            assert(entry_pair(e[i]) == p);
        }
    }

    pub fn new() -> (r: Self)
        ensures
            r.wf(),
            r@ == Map::<(Seq<char>, Seq<char>), u32>::empty(),
    {
        let r = Self { dm: TextMap::new() };
        assert(r@ =~= Map::<(Seq<char>, Seq<char>), u32>::empty());
        r
    }

    proof fn lemma_inner(&self, a: Seq<char>)
        requires
            self.wf(),
            self.dm@.contains_key(a),
        ensures
            self.dm@[a].wf(),
    {
        self.dm.lemma_key_position(a);
        let i = self.dm.key_seq().index_of(a);
        self.dm.lemma_entry(i);
    }

    /// Store `d` for the pair `(a, b)`.
    fn put(&mut self, a: &String, b: &String, d: u32)
        requires
            old(self).wf(),
        ensures
            final(self).wf(),
            final(self)@ == old(self)@.insert((a@, b@), d),
    {
        match self.dm.position(a.as_str()) {
            Some(i) => {
                proof { old(self).dm.lemma_entry(i as int); }
                let inner = self.dm.value_at_mut(i);
                inner.insert(b.clone(), d);
                proof {
                    old(self).dm.lemma_update_view(&self.dm, i as int);
                    assert forall|j: int| 0 <= j < self.dm.val_seq().len() implies (#[trigger] self.dm.val_seq()[j]).wf() by {
                        if j != i {
                            assert(self.dm.val_seq()[j] == old(self).dm.val_seq()[j]);
                        }
                    }
                    assert forall|p: (Seq<char>, Seq<char>)| #[trigger] self@.contains_key(p) == old(self)@.insert((a@, b@), d).contains_key(p) by {
                        if p.0 == a@ {
                        }
                    }
                    assert(self@ =~= old(self)@.insert((a@, b@), d));
                }
            },
            None => {
                let mut inner: TextMap<u32> = TextMap::new();
                inner.insert(b.clone(), d);
                let ghost ks0 = self.dm.key_seq();
                self.dm.insert(a.clone(), inner);
                proof {
                    assert forall|j: int| 0 <= j < self.dm.val_seq().len() implies (#[trigger] self.dm.val_seq()[j]).wf() by {
                        self.dm.lemma_entry(j);
                        let k = self.dm.key_seq()[j];
                        if k != a@ {
                            old(self).lemma_inner(k);
                        }
                    }
                    assert forall|p: (Seq<char>, Seq<char>)| #[trigger] self@.contains_key(p) == old(self)@.insert((a@, b@), d).contains_key(p) by {
                    }
                    assert(self@ =~= old(self)@.insert((a@, b@), d));
                }
            },
        }
    }

    /// The stored distance for `(a, b)`, if any.
    fn lookup(&self, a: &str, b: &str) -> (r: Option<u32>)
        requires
            self.wf(),
        ensures
            r is Some <==> self@.contains_key((a@, b@)),
            r is Some ==> r->0 == self@[(a@, b@)],
    {
        match self.dm.get(a) {
            Some(inner) => {
                proof { self.lemma_inner(a@); }
                match inner.get(b) {
                    Some(d) => Some(*d),
                    None => None,
                }
            },
            None => None,
        }
    }

    /// Record, for each station of the graph and each of its neighbours, the time
    /// of the first edge joining the two.
    pub fn init_key_value(&mut self, graph: Graph, edge_storage: EdgeStorage)
        requires
            old(self).wf(),
            graph.wf(),
        ensures
            final(self).wf(),
            final(self)@ == old(self)@.union_prefer_right(graph_distances(graph@, edge_storage@)),
    {
        let (keys, lists) = graph.entries();
        let es = edge_storage.enumerate_edges();
        let n = keys.len();
        let ghost target = graph_distances(graph@, edge_storage@);
        let mut i: usize = 0;
        while i < n
            invariant
                n == keys@.len(),
                n == lists@.len(),
                n == graph.key_order().len(),
                forall|q: int| 0 <= q < n ==> (#[trigger] keys@[q])@ == graph.key_order()[q],
                forall|q: int| 0 <= q < n ==> graph@.contains_key(graph.key_order()[q])
                    && graph@[graph.key_order()[q]] == (#[trigger] lists@[q])@.map_values(|s: String| s@),
                forall|k: Seq<char>| #[trigger] graph@.contains_key(k) ==> graph.key_order().contains(k),
                es@.len() == edge_storage@.len(),
                forall|j: int| 0 <= j < es@.len() ==> (#[trigger] es@[j])@ == edge_storage@[j],
                crate::textmap::strictly_sorted(graph.key_order()),
                target == graph_distances(graph@, edge_storage@),
                i <= n,
                self.wf(),
                self@ == old(self)@.union_prefer_right(target.restrict(
                    Set::new(|p: (Seq<char>, Seq<char>)| exists|q: int| 0 <= q < i && graph.key_order()[q] == p.0),
                )),
            decreases n - i,
        {
            let start = &keys[i];
            let ends = &lists[i];
            let m = ends.len();
            let mut j: usize = 0;
            let ghost done_before = Set::new(|p: (Seq<char>, Seq<char>)| exists|q: int| 0 <= q < i && graph.key_order()[q] == p.0);
            while j < m
                invariant
                    m == ends@.len(),
                    j <= m,
                    self.wf(),
                    es@.len() == edge_storage@.len(),
                    forall|q: int| 0 <= q < es@.len() ==> (#[trigger] es@[q])@ == edge_storage@[q],
                    self@ == old(self)@.union_prefer_right(target.restrict(done_before)).union_prefer_right(
                        Map::new(
                            |p: (Seq<char>, Seq<char>)| p.0 == start@ && ends@.subrange(0, j as int).map_values(|s: String| s@).contains(p.1),
                            |p: (Seq<char>, Seq<char>)| edge_distance(edge_storage@, p.0, p.1),
                        ),
                    ),
                decreases m - j,
            {
                let end = &ends[j];
                let d = first_edge_time(es, start.as_str(), end.as_str());
                proof {
                    assert(es@.map_values(|e: Edge| e@) =~= edge_storage@);
                }
                self.put(start, end, d);
                proof {
                    let pre = ends@.subrange(0, j as int).map_values(|s: String| s@);
                    let post = ends@.subrange(0, j + 1).map_values(|s: String| s@);
                    assert(post =~= pre.push(end@));
                    assert forall|x: Seq<char>| post.contains(x) <==> (pre.contains(x) || x == end@) by {
                        if pre.contains(x) {
                            let w = choose|w: int| 0 <= w < pre.len() && pre[w] == x;
                            assert(post[w] == x);
                        }
                        if x == end@ {
                            assert(post[j as int] == x);
                        }
                        if post.contains(x) {
                            let w = choose|w: int| 0 <= w < post.len() && post[w] == x;
                            if w < j {
                                assert(pre[w] == x);
                            }
                        }
                    }
                    assert(self@ =~= old(self)@.union_prefer_right(target.restrict(done_before)).union_prefer_right(
                        Map::new(
                            |p: (Seq<char>, Seq<char>)| p.0 == start@ && post.contains(p.1),
                            |p: (Seq<char>, Seq<char>)| edge_distance(edge_storage@, p.0, p.1),
                        ),
                    ));
                }
                j = j + 1;
            }
            proof {
                let done_after = Set::new(|p: (Seq<char>, Seq<char>)| exists|q: int| 0 <= q < i + 1 && graph.key_order()[q] == p.0);
                assert(ends@.subrange(0, m as int) =~= ends@);
                let here = graph@[start@];
                assert(here == ends@.map_values(|s: String| s@));
                assert forall|p: (Seq<char>, Seq<char>)| #[trigger] done_after.contains(p) <==> (done_before.contains(p) || p.0 == start@) by {
                    if p.0 == start@ {
                        assert(graph.key_order()[i as int] == p.0);
                    }
                    if done_after.contains(p) {
                        let q = choose|q: int| 0 <= q < i + 1 && graph.key_order()[q] == p.0;
                        if q < i {
                            assert(done_before.contains(p));
                        }
                    }
                }
                assert(self@ =~= old(self)@.union_prefer_right(target.restrict(done_after)));
            }
            i = i + 1;
        }
        proof {
            let all = Set::new(|p: (Seq<char>, Seq<char>)| exists|q: int| 0 <= q < n && graph.key_order()[q] == p.0);
            assert forall|p: (Seq<char>, Seq<char>)| #[trigger] target.contains_key(p) implies all.contains(p) by {
                let q = graph.key_order().index_of(p.0);
                assert(graph.key_order().contains(p.0));
            }
            assert(target.restrict(all) =~= target);
        }
    }

    /// Every entry, ordered by first station and then by second station.
    pub fn sorted_entries(&self) -> (r: Vec<((String, String), u32)>)
        requires
            self.wf(),
        ensures
            r@.len() == self.ordered_entries().len(),
            forall|i: int| 0 <= i < r@.len() ==> ((#[trigger] r@[i]).0.0@, r@[i].0.1@, r@[i].1) == self.ordered_entries()[i],
            forall|i: int| 0 <= i < r@.len() ==> self@.contains_key(((#[trigger] r@[i]).0.0@, r@[i].0.1@))
                && self@[(r@[i].0.0@, r@[i].0.1@)] == r@[i].1,
            forall|p: (Seq<char>, Seq<char>)| #[trigger] self@.contains_key(p)
                ==> exists|i: int| 0 <= i < r@.len() && ((#[trigger] r@[i]).0.0@, r@[i].0.1@) == p,
            forall|i: int, j: int| 0 <= i < j < r@.len()
                ==> pair_lt(((#[trigger] r@[i]).0.0@, r@[i].0.1@), ((#[trigger] r@[j]).0.0@, r@[j].0.1@)),
    {
        let mut out: Vec<((String, String), u32)> = Vec::new();
        let n = self.dm.len();
        let mut i: usize = 0;
        while i < n
            invariant
                n == self.dm.key_seq().len(),
                self.wf(),
                i <= n,
                out@.len() == flatten(self.dm.key_seq().subrange(0, i as int), self.dm.val_seq().subrange(0, i as int)).len(),
                forall|q: int| 0 <= q < out@.len() ==> ((#[trigger] out@[q]).0.0@, out@[q].0.1@, out@[q].1)
                    == flatten(self.dm.key_seq().subrange(0, i as int), self.dm.val_seq().subrange(0, i as int))[q],
            decreases n - i,
        {
            let a = self.dm.key_at(i);
            let inner = self.dm.value_at(i);
            assert(inner.wf());
            let m = inner.len();
            let base = out.len();
            let ghost before = flatten(self.dm.key_seq().subrange(0, i as int), self.dm.val_seq().subrange(0, i as int));
            let mut j: usize = 0;
            while j < m
                invariant
                    m == inner.key_seq().len(),
                    inner.wf(),
                    j <= m,
                    base == before.len(),
                    out@.len() == base + j,
                    forall|q: int| 0 <= q < base ==> ((#[trigger] out@[q]).0.0@, out@[q].0.1@, out@[q].1) == before[q],
                    forall|q: int| 0 <= q < j ==> ((#[trigger] out@[base + q]).0.0@, out@[base + q].0.1@, out@[base + q].1)
                        == (a@, inner.key_seq()[q], inner.val_seq()[q]),
                decreases m - j,
            {
                let b = inner.key_at(j);
                let d = *inner.value_at(j);
                out.push(((a.clone(), b.clone()), d));
                j = j + 1;
            }
            proof {
                let ks = self.dm.key_seq().subrange(0, i + 1);
                let vs = self.dm.val_seq().subrange(0, i + 1);
                assert(ks.drop_last() =~= self.dm.key_seq().subrange(0, i as int));
                assert(vs.drop_last() =~= self.dm.val_seq().subrange(0, i as int));
                let after = flatten(ks, vs);
                assert(after.len() == out@.len());
                assert forall|q: int| 0 <= q < out@.len() implies ((#[trigger] out@[q]).0.0@, out@[q].0.1@, out@[q].1) == after[q] by {
                    if q >= base {
                        let w = q - base;
                        assert(out@[base + w] == out@[q]);
                    }
                }
            }
            i = i + 1;
        }
        assert(self.dm.key_seq().subrange(0, n as int) =~= self.dm.key_seq());
        assert(self.dm.val_seq().subrange(0, n as int) =~= self.dm.val_seq());
        proof {
            self.lemma_ordered_entries();
            let e = self.ordered_entries();
            assert forall|i: int| 0 <= i < out@.len() implies self@.contains_key(((#[trigger] out@[i]).0.0@, out@[i].0.1@))
                && self@[(out@[i].0.0@, out@[i].0.1@)] == out@[i].1 by {
                assert(entry_pair(e[i]) == (out@[i].0.0@, out@[i].0.1@));
            }
            assert forall|p: (Seq<char>, Seq<char>)| #[trigger] self@.contains_key(p)
                implies exists|i: int| 0 <= i < out@.len() && ((#[trigger] out@[i]).0.0@, out@[i].0.1@) == p by {
                let i = choose|i: int| 0 <= i < e.len() && entry_pair(#[trigger] e[i]) == p;
                assert(entry_pair(e[i]) == (out@[i].0.0@, out@[i].0.1@));
            }
            assert forall|i: int, j: int| 0 <= i < j < out@.len()
                implies pair_lt(((#[trigger] out@[i]).0.0@, out@[i].0.1@), ((#[trigger] out@[j]).0.0@, out@[j].0.1@)) by {
                assert(entry_pair(e[i]) == (out@[i].0.0@, out@[i].0.1@));
                assert(entry_pair(e[j]) == (out@[j].0.0@, out@[j].0.1@));
            }
        }
        out
    }

    /// The distance between two stations, in either direction (0 when unknown).
    pub(crate) fn distance(&self, start: &str, end: &str) -> (r: u32)
        requires
            self.wf(),
        ensures
            r == pair_distance(self@, start@, end@),
    {
        match self.lookup(start, end) {
            Some(d) => d,
            None => match self.lookup(end, start) {
                Some(d) => d,
                None => 0,
            },
        }
    }

    /// The distance between two stations as decimal text, in either direction
    /// ("0" when unknown).
    pub fn get_distance(&self, start: String, end: String) -> (r: String)
        requires
            self.wf(),
        ensures
            r@ == decimal(pair_distance(self@, start@, end@) as nat),
    {
        u32_text(self.distance(start.as_str(), end.as_str()))
    }
}

/// The distance a map gives a pair, looked up one way and then the other, 0 if neither.
pub open spec fn pair_distance(m: Map<(Seq<char>, Seq<char>), u32>, a: Seq<char>, b: Seq<char>) -> u32 {
    if m.contains_key((a, b)) {
        m[(a, b)]
    } else if m.contains_key((b, a)) {
        m[(b, a)]
    } else {
        0
    }
}

/// A copy of a list of names.
fn copy_names(v: &Vec<String>) -> (r: Vec<String>)
    ensures
        r@.map_values(|s: String| s@) == v@.map_values(|s: String| s@),
{
    let mut out: Vec<String> = Vec::new();
    let n = v.len();
    let mut i: usize = 0;
    while i < n
        invariant
            n == v@.len(),
            i <= n,
            out@.len() == i,
            forall|j: int| 0 <= j < i ==> (#[trigger] out@[j])@ == v@[j]@,
        decreases n - i,
    {
        out.push(v[i].clone());
        i = i + 1;
    }
    assert(out@.map_values(|s: String| s@) =~= v@.map_values(|s: String| s@));
    out
}

/// The time of the first edge joining `s` and `e` (prefix match), or 0.
fn first_edge_time(es: &[Edge], s: &str, e: &str) -> (r: u32)
    ensures
        r == edge_distance(es@.map_values(|x: Edge| x@), s@, e@),
{
    let n = es.len();
    let mut i: usize = 0;
    let ghost all = es@.map_values(|x: Edge| x@);
    assert(all.skip(0) =~= all);
    while i < n
        invariant
            n == es@.len(),
            all == es@.map_values(|x: Edge| x@),
            i <= n,
            edge_distance(all, s@, e@) == edge_distance(all.skip(i as int), s@, e@),
        decreases n - i,
    {
        let edge = &es[i];
        proof {
            assert(all.skip(i as int)[0] == edge@);
            assert(all.skip(i as int).drop_first() =~= all.skip(i + 1));
        }
        if (starts_with(edge.from().as_str(), s) && starts_with(edge.to().as_str(), e))
            || (starts_with(edge.from().as_str(), e) && starts_with(edge.to().as_str(), s)) {
            return edge.times();
        }
        i = i + 1;
    }
    assert(all.skip(n as int).len() == 0);
    0
}

} // verus!
