//! Delivery bookkeeping over comma-separated records: stations, edges
//! ("E1,A,B,30"), trains ("Q1,6,B") and deliveries ("K1,5,A,C").
use vstd::prelude::*;
use crate::text::text_eq;
use crate::textmap::{TextMap, PairMap};
use crate::network::{first_at, first_pos, lemma_first_pos};

verus! {

/// Where a delivery stands.
#[derive(Debug, Clone, Copy, PartialEq, Eq, Structural, Hash)]
pub enum Status {
    AtPickup,
    InFlight,
    Delivered,
}

/// The pieces of `s` between commas, as `str::split(',')` gives them: one piece
/// more than there are commas, empty pieces included.
pub open spec fn split_commas(s: Seq<char>) -> Seq<Seq<char>>
    decreases s.len(),
{
    if s.len() == 0 {
        seq![Seq::<char>::empty()]
    } else {
        let rest = split_commas(s.drop_last());
        if s.last() == ',' {
            rest.push(Seq::<char>::empty())
        } else {
            rest.update(rest.len() - 1, rest.last().push(s.last()))
        }
    }
}

proof fn lemma_split_nonempty(s: Seq<char>)
    ensures
        split_commas(s).len() >= 1,
    decreases s.len(),
{
    if s.len() > 0 {
        lemma_split_nonempty(s.drop_last());
    }
}

/// The value of a decimal digit character.
pub open spec fn digit_value(c: char) -> int {
    (c as int) - ('0' as int)
}

/// Every character is an ASCII digit.
pub open spec fn all_digits(s: Seq<char>) -> bool {
    forall|i: int| 0 <= i < s.len() ==> '0' <= #[trigger] s[i] && s[i] <= '9'
}

/// The number that a string of digits spells.
pub open spec fn digits_value(s: Seq<char>) -> nat
    decreases s.len(),
{
    if s.len() == 0 {
        0
    } else {
        (digits_value(s.drop_last()) * 10 + digit_value(s.last())) as nat
    }
}

/// What `str::parse::<usize>` gives: an optional `+`, then one or more digits
/// whose value fits.
pub open spec fn parse_usize(s: Seq<char>) -> Option<usize> {
    let body = if s.len() > 0 && s[0] == '+' { s.drop_first() } else { s };
    if body.len() > 0 && all_digits(body) && digits_value(body) <= usize::MAX {
        Some(digits_value(body) as usize)
    } else {
        None
    }
}

/// Split a record at its commas.
pub fn split_record(s: &str) -> (r: Vec<String>)
    ensures
        r@.map_values(|p: String| p@) == split_commas(s@),
{
    let n = s.unicode_len();
    let mut out: Vec<String> = Vec::new();
    let mut start: usize = 0;
    let mut i: usize = 0;
    proof {
        assert(s@.subrange(0, 0) =~= Seq::<char>::empty());
        assert(out@.map_values(|p: String| p@).push(s@.subrange(0, 0)) =~= seq![Seq::<char>::empty()]);
    }
    while i < n
        invariant
            n == s@.len(),
            start <= i <= n,
            out@.map_values(|p: String| p@).push(s@.subrange(start as int, i as int)) == split_commas(s@.subrange(0, i as int)),
        decreases n - i,
    {
        let c = s.get_char(i);
        let ghost before = out@.map_values(|p: String| p@);
        proof {
            assert(s@.subrange(0, i + 1).drop_last() =~= s@.subrange(0, i as int));
            assert(s@.subrange(0, i + 1).last() == c);
        }
        if c == ',' {
            let piece = s.substring_char(start, i).to_string();
            out.push(piece);
            proof {
                assert(out@.map_values(|p: String| p@) =~= before.push(s@.subrange(start as int, i as int)));
                assert(s@.subrange((i + 1) as int, (i + 1) as int) =~= Seq::<char>::empty());
            }
            start = i + 1;
        } else {
            proof {
                let rest = split_commas(s@.subrange(0, i as int));
                assert(rest =~= before.push(s@.subrange(start as int, i as int)));
                assert(s@.subrange(start as int, i + 1) =~= s@.subrange(start as int, i as int).push(c));
                assert(before.push(s@.subrange(start as int, i + 1)) =~= rest.update(rest.len() - 1, rest.last().push(c)));
            }
        }
        i = i + 1;
    }
    let last = s.substring_char(start, n).to_string();
    out.push(last);
    proof {
        assert(s@.subrange(0, n as int) =~= s@);
    }
    out
}

/// The first piece of a record (everything before its first comma).
pub fn first_field(s: &str) -> (r: String)
    ensures
        r@ == split_commas(s@)[0],
{
    let pieces = split_record(s);
    proof { lemma_split_nonempty(s@); }
    pieces[0].clone()
}

/// Parse a number as `str::parse::<usize>` does; `None` where it gives an error.
pub fn parse_count(s: &str) -> (r: Option<usize>)
    ensures
        r == parse_usize(s@),
{
    let n = s.unicode_len();
    let mut i: usize = 0;
    if n > 0 && s.get_char(0) == '+' {
        i = 1;
    }
    let ghost body = if s@.len() > 0 && s@[0] == '+' { s@.drop_first() } else { s@ };
    assert(body =~= s@.subrange(i as int, n as int));
    if i == n {
        return None;
    }
    let mut value: usize = 0;
    let mut overflow = false;
    let start = i;
    while i < n
        invariant
            n == s@.len(),
            start <= i <= n,
            body =~= s@.subrange(start as int, n as int),
            body == (if s@.len() > 0 && s@[0] == '+' { s@.drop_first() } else { s@ }),
            all_digits(s@.subrange(start as int, i as int)),
            !overflow ==> value == digits_value(s@.subrange(start as int, i as int)),
            overflow ==> digits_value(s@.subrange(start as int, i as int)) > usize::MAX,
        decreases n - i,
    {
        let c = s.get_char(i);
        if c < '0' || c > '9' {
            proof {
                assert(body[i - start] == c);
                assert(!('0' <= body[i - start] && body[i - start] <= '9'));
                assert(!all_digits(body));
            }
            return None;
        }
        let d = (c as u32 - '0' as u32) as usize;
        proof {
            let pre = s@.subrange(start as int, i as int);
            let post = s@.subrange(start as int, i + 1);
            assert(post.drop_last() =~= pre);
            assert(post.last() == c);
            assert(d == digit_value(c));
            assert forall|j: int| 0 <= j < post.len() implies '0' <= #[trigger] post[j] && post[j] <= '9' by {
                if j < pre.len() {
                    assert(post[j] == pre[j]);
                }
            }
        }
        if !overflow {
            match value.checked_mul(10) {
                Some(v10) => match v10.checked_add(d) {
                    Some(v) => {
                        value = v;
                    },
                    None => {
                        overflow = true;
                    },
                },
                None => {
                    overflow = true;
                    proof {
                        let pre = s@.subrange(start as int, i as int);
                        assert(digits_value(pre) * 10 > usize::MAX) by (nonlinear_arith)
                            requires
                                digits_value(pre) == value,
                                value * 10 > usize::MAX;
                    }
                }
            }
        } else {
            proof {
                let pre = s@.subrange(start as int, i as int);
                assert(digits_value(pre) * 10 >= digits_value(pre)) by (nonlinear_arith);
            }
        }
        i = i + 1;
    }
    if overflow {
        None
    } else {
        Some(value)
    }
}

/// Each station's position, the last one where a name repeats.
pub open spec fn positions_map(s: Seq<Seq<char>>) -> Map<Seq<char>, usize>
    decreases s.len(),
{
    if s.len() == 0 {
        Map::empty()
    } else {
        positions_map(s.drop_last()).insert(s.last(), (s.len() - 1) as usize)
    }
}

/// The texts of a list of string slices.
pub open spec fn texts(v: Seq<&str>) -> Seq<Seq<char>> {
    v.map_values(|s: &str| s@)
}

/// Map each station to its position in the list.
pub fn calculate_positions(stations: &Vec<&str>) -> (r: TextMap<usize>)
    ensures
        r.wf(),
        r@ == positions_map(texts(stations@)),
{
    let ghost ss = texts(stations@);
    let mut out = TextMap::new();
    let n = stations.len();
    let mut i: usize = 0;
    while i < n
        invariant
            n == ss.len(),
            ss == texts(stations@),
            i <= n,
            out.wf(),
            out@ == positions_map(ss.subrange(0, i as int)),
        decreases n - i,
    {
        proof {
            assert(ss.subrange(0, i + 1).drop_last() =~= ss.subrange(0, i as int));
            assert(ss.subrange(0, i + 1).last() == stations@[i as int]@);
        }
        out.insert(stations[i].to_string(), i);
        i = i + 1;
    }
    assert(ss.subrange(0, n as int) =~= ss);
    out
}

/// An edge record has a source, a destination and a distance that parses.
pub open spec fn edge_record_ok(e: Seq<char>) -> bool {
    split_commas(e).len() >= 4 && parse_usize(split_commas(e)[3]) is Some
}

/// `m` with `b` added to the neighbours of `a`.
pub open spec fn connect(m: Map<Seq<char>, Set<Seq<char>>>, a: Seq<char>, b: Seq<char>) -> Map<Seq<char>, Set<Seq<char>>> {
    m.insert(a, (if m.contains_key(a) { m[a] } else { Set::empty() }).insert(b))
}

/// The neighbour sets that the edge records give, both ways round.
pub open spec fn connections_of(es: Seq<Seq<char>>) -> Map<Seq<char>, Set<Seq<char>>>
    decreases es.len(),
{
    if es.len() == 0 {
        Map::empty()
    } else {
        let p = split_commas(es.last());
        connect(connect(connections_of(es.drop_last()), p[1], p[2]), p[2], p[1])
    }
}

/// The distances that the edge records give, both ways round (a later record wins).
pub open spec fn distances_of(es: Seq<Seq<char>>) -> Map<(Seq<char>, Seq<char>), usize>
    decreases es.len(),
{
    if es.len() == 0 {
        Map::empty()
    } else {
        let p = split_commas(es.last());
        let d = parse_usize(p[3])->0;
        distances_of(es.drop_last()).insert((p[1], p[2]), d).insert((p[2], p[1]), d)
    }
}

/// Neighbour lists with each neighbour once: the set view of such lists.
pub open spec fn neighbour_sets(m: TextMap<Vec<String>>) -> Map<Seq<char>, Set<Seq<char>>> {
    Map::new(|k: Seq<char>| m@.contains_key(k), |k: Seq<char>| m@[k]@.map_values(|s: String| s@).to_set())
}

/// Whether a list of texts holds `x`.
pub fn list_has(v: &Vec<String>, x: &str) -> (r: bool)
    ensures
        r == v@.map_values(|s: String| s@).contains(x@),
{
    let n = v.len();
    let mut i: usize = 0;
    while i < n
        invariant
            n == v@.len(),
            i <= n,
            forall|q: int| 0 <= q < i ==> v@[q]@ != x@,
        decreases n - i,
    {
        if text_eq(v[i].as_str(), x) {
            assert(v@.map_values(|s: String| s@)[i as int] == x@);
            return true;
        }
        i = i + 1;
    }
    false
}

/// Add `b` to the neighbour list of `a` unless it is there.
fn add_neighbour(m: &mut TextMap<Vec<String>>, a: &String, b: &String)
    requires
        old(m).wf(),
    ensures
        final(m).wf(),
        neighbour_sets(*final(m)) == connect(neighbour_sets(*old(m)), a@, b@),
{
    match m.position(a.as_str()) {
        Some(i) => {
            proof { old(m).lemma_entry(i as int); }
            let ghost l0 = m.val_seq()[i as int]@;
            let found = list_has(m.value_at(i), b.as_str());
            if !found {
                let list = m.value_at_mut(i);
                list.push(b.clone());
            } else {
                let list = m.value_at_mut(i);
            }
            proof {
                old(m).lemma_update_view(m, i as int);
                let s0 = l0.map_values(|s: String| s@);
                let s1 = m.val_seq()[i as int]@.map_values(|s: String| s@);
                assert forall|x: Seq<char>| #[trigger] s1.to_set().contains(x) == s0.to_set().insert(b@).contains(x) by {
                    if s0.contains(x) {
                        let q = choose|q: int| 0 <= q < s0.len() && s0[q] == x;
                        assert(s1[q] == x);
                    }
                    if x == b@ {
                        if found {
                            let q = choose|q: int| 0 <= q < s0.len() && s0[q] == x;
                            assert(s0[q] == x);
                        } else {
                            assert(s1[s0.len() as int] == x);
                        }
                    }
                    if s1.contains(x) {
                        let q = choose|q: int| 0 <= q < s1.len() && s1[q] == x;
                        if q < s0.len() {
                            assert(s0[q] == x);
                        }
                    }
                }
                assert(s1.to_set() =~= s0.to_set().insert(b@));
            }
            assert(neighbour_sets(*m) =~= connect(neighbour_sets(*old(m)), a@, b@));
        },
        None => {
            let mut list: Vec<String> = Vec::new();
            list.push(b.clone());
            let ghost lv = list@;
            m.insert(a.clone(), list);
            proof {
                let s1 = lv.map_values(|s: String| s@);
                assert(s1 =~= seq![b@]);
                assert forall|x: Seq<char>| #[trigger] s1.to_set().contains(x) == Set::<Seq<char>>::empty().insert(b@).contains(x) by {
                    if x == b@ {
                        assert(s1[0] == x);
                    }
                }
                assert(s1.to_set() =~= Set::<Seq<char>>::empty().insert(b@));
            }
            assert(neighbour_sets(*m) =~= connect(neighbour_sets(*old(m)), a@, b@));
        },
    }
}

/// The neighbour sets and the distances that a list of edge records gives.
pub fn build_connections_and_distances(edges: &Vec<&str>) -> (r: (TextMap<Vec<String>>, PairMap<usize>))
    requires
        forall|i: int| 0 <= i < edges@.len() ==> edge_record_ok(#[trigger] edges@[i]@),
    ensures
        r.0.wf(),
        r.1.wf(),
        neighbour_sets(r.0) == connections_of(texts(edges@)),
        r.1@ == distances_of(texts(edges@)),
{
    let ghost es = texts(edges@);
    let mut connections: TextMap<Vec<String>> = TextMap::new();
    let mut distances: PairMap<usize> = PairMap::new();
    assert(neighbour_sets(connections) =~= Map::<Seq<char>, Set<Seq<char>>>::empty());
    let n = edges.len();
    let mut i: usize = 0;
    while i < n
        invariant
            n == es.len(),
            es == texts(edges@),
            forall|q: int| 0 <= q < edges@.len() ==> edge_record_ok(#[trigger] edges@[q]@),
            i <= n,
            connections.wf(),
            distances.wf(),
            neighbour_sets(connections) == connections_of(es.subrange(0, i as int)),
            distances@ == distances_of(es.subrange(0, i as int)),
        decreases n - i,
    {
        proof {
            assert(es.subrange(0, i + 1).drop_last() =~= es.subrange(0, i as int));
            assert(es.subrange(0, i + 1).last() == edges@[i as int]@);
            assert(edge_record_ok(edges@[i as int]@));
        }
        let parts = split_record(edges[i]);
        let src = &parts[1];
        let dst = &parts[2];
        let distance = match parse_count(parts[3].as_str()) {
            Some(d) => d,
            None => 0,
        };
        add_neighbour(&mut connections, src, dst);
        add_neighbour(&mut connections, dst, src);
        distances.insert(src.as_str(), dst.as_str(), distance);
        distances.insert(dst.as_str(), src.as_str(), distance);
        i = i + 1;
    }
    assert(es.subrange(0, n as int) =~= es);
    (connections, distances)
}

/// The first field of each train record (its name), in order.
pub fn extract_train_names(trains: &Vec<&str>) -> (r: Vec<String>)
    ensures
        r@.len() == trains@.len(),
        forall|i: int| 0 <= i < r@.len() ==> (#[trigger] r@[i])@ == split_commas(trains@[i]@)[0],
{
    let mut out: Vec<String> = Vec::new();
    let n = trains.len();
    let mut i: usize = 0;
    while i < n
        invariant
            n == trains@.len(),
            i <= n,
            out@.len() == i,
            forall|q: int| 0 <= q < i ==> (#[trigger] out@[q])@ == split_commas(trains@[q]@)[0],
        decreases n - i,
    {
        out.push(first_field(trains[i]));
        i = i + 1;
    }
    out
}

/// Every key of `ks` mapped to `v`.
pub open spec fn all_to<V>(ks: Seq<Seq<char>>, v: V) -> Map<Seq<char>, V> {
    Map::new(|k: Seq<char>| ks.contains(k), |k: Seq<char>| v)
}

proof fn lemma_all_to_push<V>(ks: Seq<Seq<char>>, k: Seq<char>, v: V)
    ensures
        all_to(ks.push(k), v) == all_to(ks, v).insert(k, v),
{
    assert forall|x: Seq<char>| #[trigger] ks.push(k).contains(x) == (ks.contains(x) || x == k) by {
        if ks.contains(x) {
            let q = choose|q: int| 0 <= q < ks.len() && ks[q] == x;
            assert(ks.push(k)[q] == x);
        }
        if x == k {
            assert(ks.push(k)[ks.len() as int] == x);
        }
        if ks.push(k).contains(x) {
            let q = choose|q: int| 0 <= q < ks.len() + 1 && ks.push(k)[q] == x;
            if q < ks.len() {
                assert(ks[q] == x);
            }
        }
    }
    assert(all_to(ks.push(k), v) =~= all_to(ks, v).insert(k, v));
}

/// Every key of `keys` mapped to `v`, as an ordered map.
fn map_all_to<V: Copy>(keys: &[&str], v: V) -> (r: TextMap<V>)
    ensures
        r.wf(),
        r@ == all_to(texts(keys@), v),
{
    let ghost ks = texts(keys@);
    let mut out = TextMap::new();
    assert(all_to(ks.subrange(0, 0), v) =~= Map::<Seq<char>, V>::empty());
    let n = keys.len();
    let mut i: usize = 0;
    while i < n
        invariant
            n == ks.len(),
            ks == texts(keys@),
            i <= n,
            out.wf(),
            out@ == all_to(ks.subrange(0, i as int), v),
        decreases n - i,
    {
        proof {
            assert(ks.subrange(0, i + 1) =~= ks.subrange(0, i as int).push(keys@[i as int]@));
            lemma_all_to_push(ks.subrange(0, i as int), keys@[i as int]@, v);
        }
        out.insert(keys[i].to_string(), v);
        i = i + 1;
    }
    assert(ks.subrange(0, n as int) =~= ks);
    out
}

/// Every delivery waiting at its pickup.
pub fn create_delivery_status(deliveries: &[&str]) -> (r: TextMap<Status>)
    ensures
        r.wf(),
        r@ == all_to(texts(deliveries@), Status::AtPickup),
{
    map_all_to(deliveries, Status::AtPickup)
}

/// Every train at time zero.
pub fn create_timeline(train_names: &[&str]) -> (r: TextMap<usize>)
    ensures
        r.wf(),
        r@ == all_to(texts(train_names@), 0usize),
{
    map_all_to(train_names, 0usize)
}

/// A train record has a name, a capacity that parses and a station.
pub open spec fn train_record_ok(t: Seq<char>) -> bool {
    split_commas(t).len() >= 3 && parse_usize(split_commas(t)[1]) is Some
}

/// Each train's station, by train name (a later record wins).
pub open spec fn stations_of(ts: Seq<Seq<char>>) -> Map<Seq<char>, Seq<char>>
    decreases ts.len(),
{
    if ts.len() == 0 {
        Map::empty()
    } else {
        let p = split_commas(ts.last());
        stations_of(ts.drop_last()).insert(p[0], p[2])
    }
}

/// Each train's capacity, by train name (a later record wins).
pub open spec fn capacities_of(ts: Seq<Seq<char>>) -> Map<Seq<char>, usize>
    decreases ts.len(),
{
    if ts.len() == 0 {
        Map::empty()
    } else {
        let p = split_commas(ts.last());
        capacities_of(ts.drop_last()).insert(p[0], parse_usize(p[1])->0)
    }
}

/// The names of the trains in the records.
pub open spec fn names_of(ts: Seq<Seq<char>>) -> Seq<Seq<char>> {
    ts.map_values(|t: Seq<char>| split_commas(t)[0])
}

/// Lists of texts, seen as sequences of texts.
pub open spec fn list_texts(m: Map<Seq<char>, Vec<String>>) -> Map<Seq<char>, Seq<Seq<char>>> {
    m.map_values(|v: Vec<String>| v@.map_values(|s: String| s@))
}

/// Each train's station, capacity and (empty) load, by train name.
pub fn build_train_info(trains: &[&str]) -> (r: (TextMap<String>, TextMap<usize>, TextMap<Vec<String>>))
    requires
        forall|i: int| 0 <= i < trains@.len() ==> train_record_ok(#[trigger] trains@[i]@),
    ensures
        r.0.wf(),
        r.1.wf(),
        r.2.wf(),
        r.0@.map_values(|s: String| s@) == stations_of(texts(trains@)),
        r.1@ == capacities_of(texts(trains@)),
        list_texts(r.2@) == all_to(names_of(texts(trains@)), Seq::<Seq<char>>::empty()),
{
    let ghost ts = texts(trains@);
    let mut stations: TextMap<String> = TextMap::new();
    let mut capacities: TextMap<usize> = TextMap::new();
    let mut loads: TextMap<Vec<String>> = TextMap::new();
    assert(stations@.map_values(|s: String| s@) =~= stations_of(ts.subrange(0, 0)));
    assert(capacities@ =~= capacities_of(ts.subrange(0, 0)));
    assert(list_texts(loads@) =~= all_to(names_of(ts.subrange(0, 0)), Seq::<Seq<char>>::empty()));
    let n = trains.len();
    let mut i: usize = 0;
    while i < n
        invariant
            n == ts.len(),
            ts == texts(trains@),
            forall|q: int| 0 <= q < trains@.len() ==> train_record_ok(#[trigger] trains@[q]@),
            i <= n,
            stations.wf(),
            capacities.wf(),
            loads.wf(),
            stations@.map_values(|s: String| s@) == stations_of(ts.subrange(0, i as int)),
            capacities@ == capacities_of(ts.subrange(0, i as int)),
            list_texts(loads@) == all_to(names_of(ts.subrange(0, i as int)), Seq::<Seq<char>>::empty()),
        decreases n - i,
    {
        let ghost pre = ts.subrange(0, i as int);
        proof {
            assert(ts.subrange(0, i + 1).drop_last() =~= pre);
            assert(ts.subrange(0, i + 1).last() == trains@[i as int]@);
            assert(train_record_ok(trains@[i as int]@));
            assert(names_of(ts.subrange(0, i + 1)) =~= names_of(pre).push(split_commas(trains@[i as int]@)[0]));
            lemma_all_to_push(names_of(pre), split_commas(trains@[i as int]@)[0], Seq::<Seq<char>>::empty());
        }
        let parts = split_record(trains[i]);
        let train = &parts[0];
        let capacity = match parse_count(parts[1].as_str()) {
            Some(c) => c,
            None => 0,
        };
        let station = &parts[2];
        let ghost s0 = stations@;
        let ghost l0 = loads@;
        stations.insert(train.clone(), station.clone());
        capacities.insert(train.clone(), capacity);
        let empty: Vec<String> = Vec::new();
        let ghost ev = empty@;
        loads.insert(train.clone(), empty);
        proof {
            assert(stations@.map_values(|s: String| s@) =~= s0.map_values(|s: String| s@).insert(train@, station@));
            assert(ev.map_values(|s: String| s@) =~= Seq::<Seq<char>>::empty());
            assert(list_texts(loads@) =~= list_texts(l0).insert(train@, Seq::<Seq<char>>::empty()));
        }
        i = i + 1;
    }
    assert(ts.subrange(0, n as int) =~= ts);
    (stations, capacities, loads)
}

/// The list kept for `t`, empty where there is none.
pub open spec fn list_or_empty(m: Map<Seq<char>, Seq<Seq<char>>>, t: Seq<char>) -> Seq<Seq<char>> {
    if m.contains_key(t) { m[t] } else { Seq::empty() }
}

/// The loads after `p` is put on train `t`: nothing changes if it is there already.
pub open spec fn loaded_with(m: Map<Seq<char>, Seq<Seq<char>>>, t: Seq<char>, p: Seq<char>) -> Map<Seq<char>, Seq<Seq<char>>> {
    if list_or_empty(m, t).contains(p) {
        m
    } else {
        m.insert(t, list_or_empty(m, t).push(p))
    }
}

/// The loads after `p` is taken off train `t`: its first occurrence leaves.
pub open spec fn unloaded_from(m: Map<Seq<char>, Seq<Seq<char>>>, t: Seq<char>, p: Seq<char>) -> Map<Seq<char>, Seq<Seq<char>>> {
    if list_or_empty(m, t).contains(p) {
        m.insert(t, list_or_empty(m, t).remove(first_pos(list_or_empty(m, t), p)))
    } else {
        m
    }
}

/// The statuses after `p` is put on train `t`.
pub open spec fn status_after_load(s: Map<Seq<char>, Status>, m: Map<Seq<char>, Seq<Seq<char>>>, t: Seq<char>, p: Seq<char>) -> Map<Seq<char>, Status> {
    if list_or_empty(m, t).contains(p) { s } else { s.insert(p, Status::InFlight) }
}

/// Loading a package twice is loading it once: the second load changes neither
/// the loads nor the statuses, and after a load the train carries the package.
pub proof fn load_is_idempotent(m: Map<Seq<char>, Seq<Seq<char>>>, st: Map<Seq<char>, Status>, t: Seq<char>, p: Seq<char>)
    ensures
        list_or_empty(loaded_with(m, t, p), t).contains(p),
        loaded_with(loaded_with(m, t, p), t, p) == loaded_with(m, t, p),
        status_after_load(status_after_load(st, m, t, p), loaded_with(m, t, p), t, p) == status_after_load(st, m, t, p),
{
    let l = list_or_empty(m, t);
    if !l.contains(p) {
        assert(l.push(p)[l.len() as int] == p);
    }
}

/// Unloading a package that a load has just put on a train gives the train back
/// the list it had, and leaves the package delivered.
pub proof fn unload_undoes_load(m: Map<Seq<char>, Seq<Seq<char>>>, t: Seq<char>, p: Seq<char>)
    requires
        !list_or_empty(m, t).contains(p),
    ensures
        list_or_empty(unloaded_from(loaded_with(m, t, p), t, p), t) == list_or_empty(m, t),
        forall|k: Seq<char>| k != t ==> #[trigger] list_or_empty(unloaded_from(loaded_with(m, t, p), t, p), k) == list_or_empty(m, k),
{
    let l = list_or_empty(m, t);
    let l2 = l.push(p);
    assert(l2[l.len() as int] == p);
    lemma_first_pos(l2, p);
    assert(first_at(l2, p, l.len() as int)) by {
        assert forall|j: int| 0 <= j < l.len() implies l2[j] != p by {
            assert(l2[j] == l[j]);
        }
    }
    assert(l2.remove(l.len() as int) =~= l);
}

/// Where `x` sits in a list of texts, or `None`.
fn find_text(v: &Vec<String>, x: &str) -> (r: Option<usize>)
    ensures
        r is Some <==> v@.map_values(|s: String| s@).contains(x@),
        r is Some ==> first_at(v@.map_values(|s: String| s@), x@, r->0 as int),
{
    let ghost vs = v@.map_values(|s: String| s@);
    let n = v.len();
    let mut i: usize = 0;
    while i < n
        invariant
            n == v@.len(),
            vs == v@.map_values(|s: String| s@),
            i <= n,
            forall|q: int| 0 <= q < i ==> vs[q] != x@,
        decreases n - i,
    {
        if text_eq(v[i].as_str(), x) {
            assert(vs[i as int] == x@);
            return Some(i);
        }
        i = i + 1;
    }
    assert forall|q: int| 0 <= q < vs.len() implies vs[q] != x@ by {}
    None
}

/// Put package `pkg` on train `train` and mark it in flight, unless the train
/// carries it already (then nothing changes).
pub fn load_package(train: &str, pkg: &str, train_loads: &mut TextMap<Vec<String>>, delivery_status: &mut TextMap<Status>)
    requires
        old(train_loads).wf(),
        old(delivery_status).wf(),
    ensures
        final(train_loads).wf(),
        final(delivery_status).wf(),
        list_texts(final(train_loads)@) == loaded_with(list_texts(old(train_loads)@), train@, pkg@),
        final(delivery_status)@ == status_after_load(old(delivery_status)@, list_texts(old(train_loads)@), train@, pkg@),
        list_or_empty(list_texts(old(train_loads)@), train@).contains(pkg@) ==> final(train_loads)@ == old(train_loads)@,
{
    let ghost m0 = list_texts(train_loads@);
    let present = match train_loads.get(train) {
        Some(l) => list_has(l, pkg),
        None => false,
    };
    if present {
        return;
    }
    match train_loads.position(train) {
        Some(i) => {
            proof { old(train_loads).lemma_entry(i as int); }
            let ghost l0 = train_loads.val_seq()[i as int]@;
            let list = train_loads.value_at_mut(i);
            list.push(pkg.to_string());
            proof {
                old(train_loads).lemma_update_view(train_loads, i as int);
                assert(train_loads.val_seq()[i as int]@.map_values(|s: String| s@) =~= l0.map_values(|s: String| s@).push(pkg@));
            }
            assert(list_texts(train_loads@) =~= loaded_with(m0, train@, pkg@));
        },
        None => {
            let mut list: Vec<String> = Vec::new();
            list.push(pkg.to_string());
            let ghost lv = list@;
            train_loads.insert(train.to_string(), list);
            assert(lv.map_values(|s: String| s@) =~= seq![pkg@]);
            assert(list_texts(train_loads@) =~= loaded_with(m0, train@, pkg@));
        },
    }
    delivery_status.insert(pkg.to_string(), Status::InFlight);
}

/// The first position of a record named `name` in `ds`, if any.
pub open spec fn record_pos(ds: Seq<Seq<char>>, name: Seq<char>) -> Option<int> {
    if names_of(ds).contains(name) { Some(first_pos(names_of(ds), name)) } else { None }
}

/// Where the first record named `name` sits.
fn find_record(ds: &[&str], name: &str) -> (r: Option<usize>)
    ensures
        r is Some <==> names_of(texts(ds@)).contains(name@),
        r is Some ==> first_at(names_of(texts(ds@)), name@, r->0 as int),
        r is Some ==> record_pos(texts(ds@), name@) == Some(r->0 as int),
{
    let ghost ns = names_of(texts(ds@));
    let n = ds.len();
    let mut i: usize = 0;
    while i < n
        invariant
            n == ds@.len(),
            ns == names_of(texts(ds@)),
            ns.len() == n,
            i <= n,
            forall|q: int| 0 <= q < i ==> ns[q] != name@,
        decreases n - i,
    {
        let f = first_field(ds[i]);
        if text_eq(f.as_str(), name) {
            proof {
                assert(ns[i as int] == name@);
                assert(ns.contains(name@));
                lemma_first_pos(ns, name@);
            }
            return Some(i);
        }
        i = i + 1;
    }
    assert forall|q: int| 0 <= q < ns.len() implies ns[q] != name@ by {}
    None
}

/// Take package `pkg` off train `train`, drop its delivery record and mark it
/// delivered; nothing changes if the train does not carry it.
pub fn unload_package<'a>(
    train: &str,
    pkg: &str,
    train_loads: &mut TextMap<Vec<String>>,
    deliveries: &mut Vec<&'a str>,
    delivery_status: &mut TextMap<Status>,
)
    requires
        old(train_loads).wf(),
        old(delivery_status).wf(),
        list_or_empty(list_texts(old(train_loads)@), train@).contains(pkg@) ==> names_of(texts(old(deliveries)@)).contains(pkg@),
    ensures
        final(train_loads).wf(),
        final(delivery_status).wf(),
        list_texts(final(train_loads)@) == unloaded_from(list_texts(old(train_loads)@), train@, pkg@),
        !list_or_empty(list_texts(old(train_loads)@), train@).contains(pkg@) ==> {
            &&& final(train_loads)@ == old(train_loads)@
            &&& final(deliveries)@ == old(deliveries)@
            &&& final(delivery_status)@ == old(delivery_status)@
        },
        list_or_empty(list_texts(old(train_loads)@), train@).contains(pkg@) ==> {
            &&& final(deliveries)@ == old(deliveries)@.remove(first_pos(names_of(texts(old(deliveries)@)), pkg@))
            &&& final(delivery_status)@ == old(delivery_status)@.insert(pkg@, Status::Delivered)
        },
{
    let ghost m0 = list_texts(train_loads@);
    let present = match train_loads.get(train) {
        Some(l) => list_has(l, pkg),
        None => false,
    };
    if !present {
        return;
    }
    let i = match train_loads.position(train) {
        Some(i) => i,
        None => {
            assert(false);
            return;
        },
    };
    proof { old(train_loads).lemma_entry(i as int); }
    let ghost l0 = train_loads.val_seq()[i as int]@;
    let ghost ls0 = l0.map_values(|s: String| s@);
    let at = match find_text(train_loads.value_at(i), pkg) {
        Some(p) => p,
        None => {
            assert(false);
            return;
        },
    };
    let list = train_loads.value_at_mut(i);
    list.remove(at);
    proof {
        old(train_loads).lemma_update_view(train_loads, i as int);
        lemma_first_pos(ls0, pkg@);
        assert(train_loads.val_seq()[i as int]@.map_values(|s: String| s@) =~= ls0.remove(at as int));
    }
    assert(list_texts(train_loads@) =~= unloaded_from(m0, train@, pkg@));
    let d = match find_record(deliveries.as_slice(), pkg) {
        Some(d) => d,
        None => {
            assert(false);
            return;
        },
    };
    proof { lemma_first_pos(names_of(texts(old(deliveries)@)), pkg@); }
    deliveries.remove(d);
    delivery_status.insert(pkg.to_string(), Status::Delivered);
}

/// The fields of the first record named `name`, if any.
pub open spec fn record_of(ds: Seq<Seq<char>>, name: Seq<char>) -> Option<Seq<Seq<char>>> {
    match record_pos(ds, name) {
        Some(i) => Some(split_commas(ds[i])),
        None => None,
    }
}

/// The first record named `name`, if there is one, has the four fields of a delivery.
pub open spec fn detail_ok(ds: Seq<Seq<char>>, name: Seq<char>) -> bool {
    match record_of(ds, name) {
        Some(p) => p.len() >= 4,
        None => true,
    }
}

/// The details of a delivery: its name, weight, origin and destination, or
/// only a weight of "0" where no record has that name.
pub open spec fn detail_of(ds: Seq<Seq<char>>, name: Seq<char>) -> Map<Seq<char>, Seq<char>> {
    match record_of(ds, name) {
        Some(p) => Map::empty().insert("name"@, p[0]).insert("weight"@, p[1]).insert("from"@, p[2]).insert("to"@, p[3]),
        None => Map::empty().insert("weight"@, "0"@),
    }
}

/// The weight text of a delivery, "0" where no record has that name.
pub open spec fn weight_text(ds: Seq<Seq<char>>, name: Seq<char>) -> Seq<char> {
    match record_of(ds, name) {
        Some(p) => p[1],
        None => "0"@,
    }
}

/// The texts held by a map of strings.
pub open spec fn text_values(m: Map<Seq<char>, String>) -> Map<Seq<char>, Seq<char>> {
    m.map_values(|s: String| s@)
}

/// The details of delivery `pkg_name`, from the first record with that name.
pub fn get_pkg_detail(pkg_name: &str, deliveries: &[&str]) -> (r: TextMap<String>)
    requires
        detail_ok(texts(deliveries@), pkg_name@),
    ensures
        r.wf(),
        text_values(r@) == detail_of(texts(deliveries@), pkg_name@),
        r@.contains_key("weight"@),
        r@["weight"@]@ == weight_text(texts(deliveries@), pkg_name@),
{
    let mut details: TextMap<String> = TextMap::new();
    match find_record(deliveries, pkg_name) {
        Some(i) => {
            let parts = split_record(deliveries[i]);
            proof {
                assert(parts@.map_values(|p: String| p@)[0] == parts@[0]@);
                assert(parts@.map_values(|p: String| p@)[1] == parts@[1]@);
                assert(parts@.map_values(|p: String| p@)[2] == parts@[2]@);
                assert(parts@.map_values(|p: String| p@)[3] == parts@[3]@);
            }
            details.insert("name".to_string(), parts[0].clone());
            details.insert("weight".to_string(), parts[1].clone());
            let ghost w = details@;
            details.insert("from".to_string(), parts[2].clone());
            details.insert("to".to_string(), parts[3].clone());
            proof {
                reveal_strlit("weight");
                reveal_strlit("from");
                reveal_strlit("to");
                assert("weight"@.len() == 6 && "from"@.len() == 4 && "to"@.len() == 2);
            }
            assert(text_values(details@) =~= detail_of(texts(deliveries@), pkg_name@));
        },
        None => {
            details.insert("weight".to_string(), "0".to_string());
            assert(text_values(details@) =~= detail_of(texts(deliveries@), pkg_name@));
        },
    }
    details
}

/// The weight that a delivery counts for: its weight field as a number, 0
/// where it does not parse or no record has that name.
pub open spec fn weight_of(ds: Seq<Seq<char>>, name: Seq<char>) -> nat {
    match parse_usize(weight_text(ds, name)) {
        Some(w) => w as nat,
        None => 0,
    }
}

/// The total weight of the packages `pkgs`.
pub open spec fn load_of(ds: Seq<Seq<char>>, pkgs: Seq<Seq<char>>) -> nat
    decreases pkgs.len(),
{
    if pkgs.len() == 0 {
        0
    } else {
        load_of(ds, pkgs.drop_last()) + weight_of(ds, pkgs.last())
    }
}

proof fn lemma_load_prefix(ds: Seq<Seq<char>>, pkgs: Seq<Seq<char>>, i: int)
    requires
        0 <= i <= pkgs.len(),
    ensures
        load_of(ds, pkgs.take(i)) <= load_of(ds, pkgs),
    decreases pkgs.len(),
{
    if i < pkgs.len() {
        assert(pkgs.drop_last().take(i) =~= pkgs.take(i));
        lemma_load_prefix(ds, pkgs.drop_last(), i);
    } else {
        assert(pkgs.take(i) =~= pkgs);
    }
}

/// The value kept for `t`, 0 where there is none.
pub open spec fn count_or_zero(m: Map<Seq<char>, usize>, t: Seq<char>) -> usize {
    if m.contains_key(t) { m[t] } else { 0 }
}

/// What a train can still carry: its capacity less the weight of its load, and
/// 0 where the load weighs more.
pub open spec fn remaining_capacity(cap: int, load: int) -> int {
    if cap >= load { cap - load } else { 0 }
}

/// The capacity left on `train`: its capacity (0 if unknown) less the weights
/// of the packages it carries, never below 0.
pub fn get_train_remaining_capacity(
    train: &str,
    train_capacities: &TextMap<usize>,
    train_loads: &TextMap<Vec<String>>,
    deliveries: &[&str],
) -> (r: usize)
    requires
        train_capacities.wf(),
        train_loads.wf(),
        forall|i: int| 0 <= i < list_or_empty(list_texts(train_loads@), train@).len()
            ==> detail_ok(texts(deliveries@), #[trigger] list_or_empty(list_texts(train_loads@), train@)[i]),
        load_of(texts(deliveries@), list_or_empty(list_texts(train_loads@), train@)) <= usize::MAX,
    ensures
        r == remaining_capacity(
            count_or_zero(train_capacities@, train@) as int,
            load_of(texts(deliveries@), list_or_empty(list_texts(train_loads@), train@)) as int,
        ),
{
    let ghost ds = texts(deliveries@);
    let ghost pkgs = list_or_empty(list_texts(train_loads@), train@);
    let capacity: usize = match train_capacities.get(train) {
        Some(c) => *c,
        None => 0,
    };
    let empty: Vec<String> = Vec::new();
    let load: &Vec<String> = match train_loads.get(train) {
        Some(l) => l,
        None => &empty,
    };
    assert(load@.map_values(|s: String| s@) =~= pkgs);
    let n = load.len();
    let mut total: usize = 0;
    let mut i: usize = 0;
    while i < n
        invariant
            n == load@.len(),
            pkgs == load@.map_values(|s: String| s@),
            ds == texts(deliveries@),
            forall|q: int| 0 <= q < pkgs.len() ==> detail_ok(ds, #[trigger] pkgs[q]),
            load_of(ds, pkgs) <= usize::MAX,
            i <= n,
            total == load_of(ds, pkgs.take(i as int)),
        decreases n - i,
    {
        assert(pkgs[i as int] == load@[i as int]@);
        let details = get_pkg_detail(load[i].as_str(), deliveries);
        let w = match details.get("weight") {
            Some(text) => match parse_count(text.as_str()) {
                Some(v) => v,
                None => 0,
            },
            None => 0,
        };
        proof {
            assert(pkgs.take(i + 1).drop_last() =~= pkgs.take(i as int));
            assert(pkgs.take(i + 1).last() == pkgs[i as int]);
            lemma_load_prefix(ds, pkgs, i + 1);
        }
        total = total + w;
        i = i + 1;
    }
    assert(pkgs.take(n as int) =~= pkgs);
    capacity.saturating_sub(total)
}

/// The distance between two numbers.
pub fn get_diff(a: usize, b: usize) -> (r: usize)
    ensures
        r == if a > b { a - b } else { b - a },
{
    if a > b {
        a - b
    } else {
        b - a
    }
}

/// How a train ranks for a load of weight `w`: first whether its capacity
/// (0 if unknown) covers `w`, then the capacity itself.
pub open spec fn fit_key(caps: Map<Seq<char>, usize>, t: Seq<char>, w: usize) -> (bool, usize) {
    (count_or_zero(caps, t) >= w, count_or_zero(caps, t))
}

/// `a` ranks strictly below `b` (false before true, then by number).
pub open spec fn ranks_below(a: (bool, usize), b: (bool, usize)) -> bool {
    (!a.0 && b.0) || (a.0 == b.0 && a.1 < b.1)
}

/// Train `i` ranks highest for weight `w`, and every later train ranks strictly
/// lower: the last of the best.
pub open spec fn last_best(names: Seq<Seq<char>>, caps: Map<Seq<char>, usize>, w: usize, i: int) -> bool {
    &&& 0 <= i < names.len()
    &&& forall|j: int| 0 <= j < names.len() ==> !ranks_below(fit_key(caps, names[i], w), #[trigger] fit_key(caps, names[j], w))
    &&& forall|j: int| i < j < names.len() ==> ranks_below(#[trigger] fit_key(caps, names[j], w), fit_key(caps, names[i], w))
}

/// The train chosen for a load is one whose capacity covers it whenever such a
/// train exists, and then no train that covers it has a larger capacity; when
/// none covers it, no train has a larger capacity than the one chosen.
pub proof fn best_for_weight_fits(names: Seq<Seq<char>>, caps: Map<Seq<char>, usize>, w: usize, i: int)
    requires
        last_best(names, caps, w, i),
    ensures
        (exists|j: int| 0 <= j < names.len() && count_or_zero(caps, #[trigger] names[j]) >= w)
            ==> count_or_zero(caps, names[i]) >= w,
        forall|j: int| 0 <= j < names.len() && (count_or_zero(caps, #[trigger] names[j]) >= w || count_or_zero(caps, names[i]) < w)
            ==> count_or_zero(caps, names[j]) <= count_or_zero(caps, names[i]),
{
    assert forall|j: int| 0 <= j < names.len() && (count_or_zero(caps, #[trigger] names[j]) >= w || count_or_zero(caps, names[i]) < w)
        implies count_or_zero(caps, names[j]) <= count_or_zero(caps, names[i]) by {
        assert(!ranks_below(fit_key(caps, names[i], w), fit_key(caps, names[j], w)));
    }
    if exists|j: int| 0 <= j < names.len() && count_or_zero(caps, #[trigger] names[j]) >= w {
        let j = choose|j: int| 0 <= j < names.len() && count_or_zero(caps, #[trigger] names[j]) >= w;
        assert(!ranks_below(fit_key(caps, names[i], w), fit_key(caps, names[j], w)));
    }
}

/// The train that suits a load of weight `weight` best: one whose capacity
/// covers it if any does, the largest such, and the last of equals.
pub fn get_train_for_weight<'a>(weight: usize, train_names: &[&'a str], train_capacities: &TextMap<usize>) -> (r: Option<&'a str>)
    requires
        train_capacities.wf(),
    ensures
        r is None <==> train_names@.len() == 0,
        r is Some ==> exists|i: int| #[trigger] last_best(texts(train_names@), train_capacities@, weight, i)
            && r->0 == train_names@[i],
{
    let ghost ns = texts(train_names@);
    let ghost caps = train_capacities@;
    let n = train_names.len();
    if n == 0 {
        return None;
    }
    let mut best: usize = 0;
    let mut best_cap: usize = match train_capacities.get(train_names[0]) {
        Some(c) => *c,
        None => 0,
    };
    let mut i: usize = 1;
    assert(ns[0] == train_names@[0]@);
    while i < n
        invariant
            n == ns.len(),
            ns == texts(train_names@),
            caps == train_capacities@,
            train_capacities.wf(),
            1 <= i <= n,
            best < i,
            best_cap == count_or_zero(caps, ns[best as int]),
            forall|j: int| 0 <= j < i ==> !ranks_below(fit_key(caps, ns[best as int], weight), #[trigger] fit_key(caps, ns[j], weight)),
            forall|j: int| best < j < i ==> ranks_below(#[trigger] fit_key(caps, ns[j], weight), fit_key(caps, ns[best as int], weight)),
        decreases n - i,
    {
        let cap: usize = match train_capacities.get(train_names[i]) {
            Some(c) => *c,
            None => 0,
        };
        assert(ns[i as int] == train_names@[i as int]@);
        let fits = cap >= weight;
        let best_fits = best_cap >= weight;
        let lower = (!fits && best_fits) || (fits == best_fits && cap < best_cap);
        if !lower {
            best = i;
            best_cap = cap;
        }
        i = i + 1;
    }
    assert(last_best(ns, caps, weight, best as int));
    Some(train_names[best])
}

} // verus!
