//! Choosing trains and moving them along the line to pick up and deliver packages.
use vstd::prelude::*;
use crate::text::{text_eq, text_lt};
use crate::package::{Package, PackageInfo, PackageStatus, PackageTracker, PackageCollection, Logger};
use crate::train::{Train, TrainInfo, TrainCollection, first_least, same_frame, insert_all};
use crate::network::{StationCollection, Graph, DistanceMap, first_at, first_pos, station_pos, lemma_first_pos, pair_distance};
use crate::textmap::strictly_sorted;
use crate::timeline::{Timeline, TrainMovement, MovementInfo, movement_line};

verus! {

/// Why a route could not be completed.
#[derive(Debug, Clone, Copy, PartialEq, Eq, Structural)]
pub enum RouteError {
    /// A station named on the way is not in the station list.
    UnknownStation,
    /// A station on the way has no neighbour list in the graph.
    NoNeighbours,
    /// No train can take the package where it is needed.
    NoTrain,
    /// A package met on the way is not known.
    Untracked,
    /// A travelled time does not fit in `u32`.
    TimeOverflow,
    /// The walk came back to a station without reaching its goal: it would go round forever.
    Cycle,
    /// No train holds the package that is in transit.
    NotOnBoard,
    /// A package's status lets the search make no progress.
    Stalled,
}

/// The absolute difference of two numbers.
pub open spec fn abs_diff(a: u32, b: u32) -> u32 {
    if a > b { (a - b) as u32 } else { (b - a) as u32 }
}

/// The absolute difference of two station positions.
pub fn get_diff(a: u32, b: u32) -> (r: u32)
    ensures
        r == abs_diff(a, b),
{
    if a > b {
        a - b
    } else {
        b - a
    }
}

/// The position of a station as the search compares it (cut to `u32`).
pub open spec fn pos32(stations: Seq<Seq<char>>, name: Seq<char>) -> u32 {
    (first_pos(stations, name) as usize) as u32
}

/// A train can take a package when it has at least the package's weight of room left.
pub open spec fn can_take(t: TrainInfo, w: u32) -> bool {
    t.remain_capacity >= w
}

/// The search for the best train after looking at the trains of `ts`: the chosen
/// train, its distance to the package, and the least time among the trains that
/// can take the package. A train that can take the package replaces the chosen
/// one when it is nearer, or as near and faster than every such train before it.
pub open spec fn best_scan(ts: Seq<TrainInfo>, w: u32, from_pos: u32, stations: Seq<Seq<char>>) -> (Option<int>, u32, u32)
    decreases ts.len(),
{
    if ts.len() == 0 {
        (None, u32::MAX, u32::MAX)
    } else {
        let (b, c, tl) = best_scan(ts.drop_last(), w, from_pos, stations);
        let t = ts.last();
        if !can_take(t, w) {
            (b, c, tl)
        } else {
            let d = abs_diff(from_pos, pos32(stations, t.current));
            let is_less = t.time < tl;
            let tl2 = if is_less { t.time } else { tl };
            if d < c || (d == c && is_less) {
                (Some(ts.len() - 1), d, tl2)
            } else {
                (b, c, tl2)
            }
        }
    }
}

/// The trains of a fleet as plain values.
pub open spec fn infos(ts: Seq<Train>) -> Seq<TrainInfo> {
    ts.map_values(|t: Train| t@)
}

/// Every train that can take the package stands at a known station.
pub open spec fn takers_placed(ts: Seq<TrainInfo>, w: u32, stations: Seq<Seq<char>>) -> bool {
    forall|i: int| 0 <= i < ts.len() && can_take(#[trigger] ts[i], w) ==> stations.contains(ts[i].current)
}

/// The train that the search settles on can take the package, no train that can
/// take it stands nearer, and a train is chosen whenever one that can take the
/// package stands at a distance below `u32::MAX`.
pub proof fn best_train_is_nearest(ts: Seq<TrainInfo>, w: u32, from_pos: u32, stations: Seq<Seq<char>>)
    ensures
        ({
            let (b, c, tl) = best_scan(ts, w, from_pos, stations);
            &&& b matches Some(i) ==> 0 <= i < ts.len() && can_take(ts[i], w)
                && c == abs_diff(from_pos, pos32(stations, ts[i].current))
            &&& forall|j: int| 0 <= j < ts.len() && can_take(#[trigger] ts[j], w)
                ==> c <= abs_diff(from_pos, pos32(stations, ts[j].current))
            &&& (exists|j: int| 0 <= j < ts.len() && can_take(#[trigger] ts[j], w)
                && abs_diff(from_pos, pos32(stations, ts[j].current)) < u32::MAX) ==> b is Some
            &&& b is None ==> c == u32::MAX
            &&& b matches Some(i) ==> forall|j: int| 0 <= j < i && can_take(#[trigger] ts[j], w)
                && abs_diff(from_pos, pos32(stations, ts[j].current)) == c ==> ts[i].time < ts[j].time
            &&& forall|j: int| 0 <= j < ts.len() && can_take(#[trigger] ts[j], w) ==> tl <= ts[j].time
        }),
    decreases ts.len(),
{
    if ts.len() > 0 {
        let r = ts.drop_last();
        best_train_is_nearest(r, w, from_pos, stations);
        let (b, c, tl) = best_scan(ts, w, from_pos, stations);
        let (b0, c0, tl0) = best_scan(r, w, from_pos, stations);
        assert forall|j: int| 0 <= j < ts.len() && can_take(#[trigger] ts[j], w)
            implies c <= abs_diff(from_pos, pos32(stations, ts[j].current)) by {
            if j < ts.len() - 1 {
                assert(ts[j] == r[j]);
            }
        }
        if exists|j: int| 0 <= j < ts.len() && can_take(#[trigger] ts[j], w)
            && abs_diff(from_pos, pos32(stations, ts[j].current)) < u32::MAX {
            let j = choose|j: int| 0 <= j < ts.len() && can_take(#[trigger] ts[j], w)
                && abs_diff(from_pos, pos32(stations, ts[j].current)) < u32::MAX;
            if j < ts.len() - 1 {
                assert(ts[j] == r[j]);
            }
        }
        assert forall|j: int| 0 <= j < ts.len() && can_take(#[trigger] ts[j], w) implies tl <= ts[j].time by {
            if j < ts.len() - 1 {
                assert(ts[j] == r[j]);
            }
        }
        match b {
            Some(i) => {
                assert forall|j: int| 0 <= j < i && can_take(#[trigger] ts[j], w)
                    && abs_diff(from_pos, pos32(stations, ts[j].current)) == c implies ts[i].time < ts[j].time by {
                    assert(ts[j] == r[j]);
                    if i < ts.len() - 1 {
                        assert(ts[i] == r[i]);
                    }
                }
            },
            None => {},
        }
        match b0 {
            Some(i) => {
                assert(ts[i] == r[i]);
            },
            None => {},
        }
    }
}

/// The train that should fetch a package: among the trains that can take it, the
/// nearest by station position; of equally near trains, a later one is chosen only
/// when it is faster than every train before it that can take the package.
pub fn find_best_train(tr_collection: &mut TrainCollection, package: &Package, stats_collection: &StationCollection) -> (r: Option<usize>)
    requires
        old(tr_collection).wf(),
        stats_collection@.contains(package@.from),
        takers_placed(infos(old(tr_collection)@), package@.weight, stats_collection@),
    ensures
        *final(tr_collection) == *old(tr_collection),
        r is None <==> best_scan(infos(old(tr_collection)@), package@.weight, pos32(stats_collection@, package@.from), stats_collection@).0 is None,
        r matches Some(i) ==> best_scan(infos(old(tr_collection)@), package@.weight, pos32(stats_collection@, package@.from), stats_collection@).0 == Some(i as int),
        ({
            let ts = infos(old(tr_collection)@);
            let w = package@.weight;
            let fp = pos32(stats_collection@, package@.from);
            let dist = |t: TrainInfo| abs_diff(fp, pos32(stats_collection@, t.current));
            &&& r matches Some(i) ==> i < ts.len() && can_take(ts[i as int], w)
            &&& r matches Some(i) ==> forall|j: int| 0 <= j < ts.len() && can_take(#[trigger] ts[j], w)
                ==> dist(ts[i as int]) <= dist(ts[j])
            &&& r matches Some(i) ==> forall|j: int| 0 <= j < i && can_take(#[trigger] ts[j], w)
                && dist(ts[j]) == dist(ts[i as int]) ==> ts[i as int].time < ts[j].time
            &&& (exists|j: int| 0 <= j < ts.len() && can_take(#[trigger] ts[j], w) && dist(ts[j]) < u32::MAX) ==> r is Some
        }),
        stats_collection@.len() <= u32::MAX ==> ({
            let ts = infos(old(tr_collection)@);
            let st = stats_collection@;
            let f = first_pos(st, package@.from);
            &&& r matches Some(i) ==> i < ts.len() && ts[i as int].remain_capacity >= package@.weight
                && forall|j: int| 0 <= j < ts.len() && (#[trigger] ts[j]).remain_capacity >= package@.weight
                    ==> vstd::math::abs(first_pos(st, ts[i as int].current) - f) <= vstd::math::abs(first_pos(st, ts[j].current) - f)
            &&& (exists|j: int| 0 <= j < ts.len() && (#[trigger] ts[j]).remain_capacity >= package@.weight) ==> r is Some
        }),
{
    let ghost ts = infos(tr_collection@);
    let ghost w = package@.weight;
    let ghost st = stats_collection@;
    let pkg_from_index = match stats_collection.get_station_index(package.from().as_str()) {
        Some(i) => i,
        None => 0,
    };
    proof { lemma_first_pos(st, package@.from); }
    let ghost fp = pos32(st, package@.from);
    let mut traveled_less: u32 = u32::MAX;
    let mut close_distance: u32 = u32::MAX;
    let mut best_train: Option<usize> = None;
    let n = tr_collection.len();
    let mut i: usize = 0;
    while i < n
        invariant
            n == ts.len(),
            ts == infos(tr_collection@),
            w == package@.weight,
            st == stats_collection@,
            takers_placed(ts, w, st),
            pkg_from_index as u32 == fp,
            i <= n,
            (best_train, close_distance, traveled_less) == (match best_scan(ts.subrange(0, i as int), w, fp, st) {
                (b, c, t) => (match b { Some(x) => Some(x as usize), None => None::<usize> }, c, t),
            }),
            best_scan(ts.subrange(0, i as int), w, fp, st).0 matches Some(x) ==> 0 <= x < i,
        decreases n - i,
    {
        proof {
            assert(ts.subrange(0, i + 1).drop_last() =~= ts.subrange(0, i as int));
            assert(ts.subrange(0, i + 1).last() == ts[i as int]);
            best_train_is_nearest(ts.subrange(0, i as int), w, fp, st);
        }
        let train = tr_collection.get_train(i).unwrap();
        assert(train@ == ts[i as int]);
        if train.remain_capacity() < package.weight() {
            i = i + 1;
            continue;
        }
        let train_curr_index = match stats_collection.get_station_index(train.current_index()) {
            Some(k) => k,
            None => 0,
        };
        proof { lemma_first_pos(st, ts[i as int].current); }
        let diff = get_diff(pkg_from_index as u32, train_curr_index as u32);
        let is_less = if train.time() < traveled_less {
            traveled_less = train.time();
            true
        } else {
            false
        };
        if diff < close_distance || (diff == close_distance && is_less) {
            close_distance = diff;
            best_train = Some(i);
        }
        i = i + 1;
    }
    assert(ts.subrange(0, n as int) =~= ts);
    proof {
        best_train_is_nearest(ts, w, fp, st);
        if st.len() <= u32::MAX {
            let f = first_pos(st, package@.from);
            lemma_pos32_is_pos(st, package@.from);
            assert forall|j: int| 0 <= j < ts.len() && can_take(#[trigger] ts[j], w)
                implies abs_diff(fp, pos32(st, ts[j].current)) == vstd::math::abs(first_pos(st, ts[j].current) - f)
                && abs_diff(fp, pos32(st, ts[j].current)) < u32::MAX by {
                lemma_pos32_is_pos(st, ts[j].current);
            }
        }
    }
    best_train
}

/// A position in a list of at most `u32::MAX` stations is its own `u32` cut.
proof fn lemma_pos32_is_pos(st: Seq<Seq<char>>, name: Seq<char>)
    requires
        st.contains(name),
        st.len() <= u32::MAX,
    ensures
        0 <= first_pos(st, name) < st.len(),
        pos32(st, name) == first_pos(st, name),
{
    lemma_first_pos(st, name);
}

/// The difference of two positions, as `isize` arithmetic gives it.
pub open spec fn signed_gap(t: usize, p: usize) -> int {
    (t as isize) as int - (p as isize) as int
}

/// The distance between two positions: the absolute value of their `isize` difference.
pub open spec fn gap(t: usize, p: usize) -> usize {
    let d = signed_gap(t, p);
    (if d < 0 { -d } else { d }) as usize
}

/// The least distance from `p` to a position of `s` (`usize::MAX` when `s` is empty).
pub open spec fn min_gap(p: usize, s: Seq<usize>) -> usize
    decreases s.len(),
{
    if s.len() == 0 {
        usize::MAX
    } else {
        let m = min_gap(p, s.drop_last());
        let g = gap(s.last(), p);
        if g < m { g } else { m }
    }
}

/// The positions of `s` nearest to `p`, in the order of `s`.
pub open spec fn nearest_of(p: usize, s: Seq<usize>) -> Seq<usize> {
    s.filter(|t: usize| gap(t, p) == min_gap(p, s))
}

/// The difference of every position from `p` can be taken without overflow.
pub open spec fn gaps_fit(p: usize, s: Seq<usize>) -> bool {
    forall|i: int| 0 <= i < s.len() ==> isize::MIN < #[trigger] signed_gap(s[i], p) <= isize::MAX
}

proof fn lemma_min_gap_bound(p: usize, s: Seq<usize>)
    ensures
        forall|i: int| 0 <= i < s.len() ==> min_gap(p, s) <= #[trigger] gap(s[i], p),
        s.len() > 0 ==> exists|i: int| 0 <= i < s.len() && min_gap(p, s) == #[trigger] gap(s[i], p),
    decreases s.len(),
{
    if s.len() > 0 {
        let r = s.drop_last();
        lemma_min_gap_bound(p, r);
        assert forall|i: int| 0 <= i < s.len() implies min_gap(p, s) <= #[trigger] gap(s[i], p) by {
            if i < s.len() - 1 {
                assert(s[i] == r[i]);
            }
        }
        if r.len() > 0 && min_gap(p, s) == min_gap(p, r) {
            let i = choose|i: int| 0 <= i < r.len() && min_gap(p, r) == #[trigger] gap(r[i], p);
            assert(s[i] == r[i]);
        } else {
            assert(min_gap(p, s) == gap(s[s.len() - 1], p));
        }
    }
}

/// The positions that `find_nearest_trains` keeps are exactly the positions of
/// `s` at the least distance from `p`: none is farther than any position of `s`,
/// each position at that distance is kept, and some position is kept whenever
/// `s` has one.
pub proof fn nearest_trains_are_nearest(p: usize, s: Seq<usize>)
    ensures
        forall|i: int, j: int| 0 <= i < nearest_of(p, s).len() && 0 <= j < s.len()
            ==> gap(#[trigger] nearest_of(p, s)[i], p) <= gap(#[trigger] s[j], p),
        forall|j: int| 0 <= j < s.len() && gap(#[trigger] s[j], p) == min_gap(p, s) ==> nearest_of(p, s).contains(s[j]),
        s.len() > 0 ==> nearest_of(p, s).len() > 0,
{
    let pred = |t: usize| gap(t, p) == min_gap(p, s);
    lemma_min_gap_bound(p, s);
    assert forall|i: int, j: int| 0 <= i < nearest_of(p, s).len() && 0 <= j < s.len()
        implies gap(#[trigger] nearest_of(p, s)[i], p) <= gap(#[trigger] s[j], p) by {
        s.lemma_filter_pred(pred, i);
    }
    assert forall|j: int| 0 <= j < s.len() && gap(#[trigger] s[j], p) == min_gap(p, s) implies nearest_of(p, s).contains(s[j]) by {
        s.lemma_filter_contains(pred, j);
    }
    if s.len() > 0 {
        let j = choose|j: int| 0 <= j < s.len() && min_gap(p, s) == #[trigger] gap(s[j], p);
        s.lemma_filter_contains(pred, j);
    }
}

/// Positions that fit in `isize` are measured by their true distance.
proof fn lemma_gap_is_distance(t: usize, p: usize)
    requires
        t <= isize::MAX,
        p <= isize::MAX,
    ensures
        gap(t, p) == vstd::math::abs(t - p),
{
}

/// What `nearest_of` keeps, in terms of positions and their true distances.
proof fn lemma_nearest_true_distance(p: usize, s: Seq<usize>)
    ensures
        forall|i: int| 0 <= i < nearest_of(p, s).len() ==> s.contains(#[trigger] nearest_of(p, s)[i]),
        s.len() > 0 ==> nearest_of(p, s).len() > 0,
        p <= isize::MAX && (forall|j: int| 0 <= j < s.len() ==> #[trigger] s[j] <= isize::MAX)
            ==> forall|i: int, j: int| 0 <= i < nearest_of(p, s).len() && 0 <= j < s.len()
                ==> vstd::math::abs(#[trigger] nearest_of(p, s)[i] - p) <= vstd::math::abs(#[trigger] s[j] - p),
        p <= isize::MAX && (forall|j: int| 0 <= j < s.len() ==> #[trigger] s[j] <= isize::MAX)
            ==> forall|j: int| 0 <= j < s.len()
                && (forall|k: int| 0 <= k < s.len() ==> vstd::math::abs(s[j] - p) <= vstd::math::abs(#[trigger] s[k] - p))
                ==> nearest_of(p, s).contains(#[trigger] s[j]),
{
    let pred = |t: usize| gap(t, p) == min_gap(p, s);
    nearest_trains_are_nearest(p, s);
    lemma_min_gap_bound(p, s);
    assert forall|i: int| 0 <= i < nearest_of(p, s).len() implies s.contains(#[trigger] nearest_of(p, s)[i]) by {
        assert(s.filter(pred).contains(nearest_of(p, s)[i]));
        s.lemma_filter_contains_rev(pred, nearest_of(p, s)[i]);
    }
    if p <= isize::MAX && (forall|j: int| 0 <= j < s.len() ==> #[trigger] s[j] <= isize::MAX) {
        assert forall|i: int, j: int| 0 <= i < nearest_of(p, s).len() && 0 <= j < s.len()
            implies vstd::math::abs(#[trigger] nearest_of(p, s)[i] - p) <= vstd::math::abs(#[trigger] s[j] - p) by {
            let t = nearest_of(p, s)[i];
            assert(s.filter(pred).contains(t));
            s.lemma_filter_contains_rev(pred, t);
            let q = choose|q: int| 0 <= q < s.len() && s[q] == t;
            assert(s[q] <= isize::MAX);
            lemma_gap_is_distance(t, p);
            lemma_gap_is_distance(s[j], p);
        }
        assert forall|j: int| 0 <= j < s.len()
            && (forall|k: int| 0 <= k < s.len() ==> vstd::math::abs(s[j] - p) <= vstd::math::abs(#[trigger] s[k] - p))
            implies nearest_of(p, s).contains(#[trigger] s[j]) by {
            if s.len() > 0 {
                let k = choose|k: int| 0 <= k < s.len() && min_gap(p, s) == #[trigger] gap(s[k], p);
                lemma_gap_is_distance(s[j], p);
                lemma_gap_is_distance(s[k], p);
                assert(vstd::math::abs(s[j] - p) <= vstd::math::abs(s[k] - p));
                assert(gap(s[j], p) <= gap(s[k], p));
                assert(min_gap(p, s) <= gap(s[j], p));
            }
        }
    }
}

/// The trains whose positions are nearest to the package's position.
pub fn find_nearest_trains(package_index: usize, train_indices: &[usize]) -> (r: Vec<usize>)
    requires
        gaps_fit(package_index, train_indices@),
    ensures
        r@ == nearest_of(package_index, train_indices@),
        forall|i: int| 0 <= i < r@.len() ==> train_indices@.contains(#[trigger] r@[i]),
        train_indices@.len() > 0 ==> r@.len() > 0,
        package_index <= isize::MAX && (forall|j: int| 0 <= j < train_indices@.len() ==> #[trigger] train_indices@[j] <= isize::MAX)
            ==> forall|i: int, j: int| 0 <= i < r@.len() && 0 <= j < train_indices@.len()
                ==> vstd::math::abs(#[trigger] r@[i] - package_index) <= vstd::math::abs(#[trigger] train_indices@[j] - package_index),
        package_index <= isize::MAX && (forall|j: int| 0 <= j < train_indices@.len() ==> #[trigger] train_indices@[j] <= isize::MAX)
            ==> forall|j: int| 0 <= j < train_indices@.len()
                && (forall|k: int| 0 <= k < train_indices@.len()
                    ==> vstd::math::abs(train_indices@[j] - package_index) <= vstd::math::abs(#[trigger] train_indices@[k] - package_index))
                ==> r@.contains(#[trigger] train_indices@[j]),
{
    proof { lemma_nearest_true_distance(package_index, train_indices@); }
    let n = train_indices.len();
    if n == 0 {
        proof { reveal(Seq::filter); }
        return Vec::new();
    }
    let ghost s = train_indices@;
    let mut least: usize = usize::MAX;
    let mut i: usize = 0;
    while i < n
        invariant
            n == s.len(),
            s == train_indices@,
            gaps_fit(package_index, s),
            i <= n,
            least == min_gap(package_index, s.subrange(0, i as int)),
        decreases n - i,
    {
        let g = distance_to(train_indices[i], package_index);
        proof {
            assert(s.subrange(0, i + 1).drop_last() =~= s.subrange(0, i as int));
        }
        if g < least {
            least = g;
        }
        i = i + 1;
    }
    assert(s.subrange(0, n as int) =~= s);
    let ghost pred = |t: usize| gap(t, package_index) == min_gap(package_index, s);
    let mut out: Vec<usize> = Vec::new();
    let mut j: usize = 0;
    while j < n
        invariant
            n == s.len(),
            s == train_indices@,
            gaps_fit(package_index, s),
            least == min_gap(package_index, s),
            pred == (|t: usize| gap(t, package_index) == min_gap(package_index, s)),
            j <= n,
            out@ == s.subrange(0, j as int).filter(pred),
        decreases n - j,
    {
        let t = train_indices[j];
        let g = distance_to(t, package_index);
        proof {
            assert(s.subrange(0, j + 1) =~= s.subrange(0, j as int).push(t));
            s.subrange(0, j as int).lemma_filter_push(t, pred);
        }
        if g == least {
            out.push(t);
        }
        j = j + 1;
    }
    assert(s.subrange(0, n as int) =~= s);
    out
}

/// The distance between two positions, as `gap`.
fn distance_to(t: usize, p: usize) -> (r: usize)
    requires
        isize::MIN < signed_gap(t, p) <= isize::MAX,
    ensures
        r == gap(t, p),
{
    let d: isize = (t as isize) - (p as isize);
    let a: isize = if d < 0 { -d } else { d };
    a as usize
}


/// `a >= b` for optional positions, where no position comes before every position.
pub open spec fn opt_ge(a: Option<int>, b: Option<int>) -> bool {
    match (a, b) {
        (None, None) => true,
        (None, Some(_)) => false,
        (Some(_), None) => true,
        (Some(x), Some(y)) => x >= y,
    }
}

/// The neighbour to move to from `target` on the way towards `from`: with one
/// neighbour, that one; with two, the one that is `from`, else the right one when
/// `from` lies at or after `target` in station order, else the left one; with
/// none or more than two, the empty name.
pub open spec fn direction(neighbours: Seq<Seq<char>>, from: Seq<char>, stations: Seq<Seq<char>>, target: Seq<char>) -> Seq<char> {
    let left = if neighbours.len() == 1 || neighbours.len() == 2 { neighbours[0] } else { Seq::<char>::empty() };
    let right = if neighbours.len() == 2 { neighbours[1] } else { Seq::<char>::empty() };
    if left == from || right.len() == 0 {
        left
    } else if right == from {
        right
    } else if opt_ge(station_pos(stations, from), station_pos(stations, target)) {
        right
    } else {
        left
    }
}

/// Where the target is next door, the step goes to it; on a stretch of line where
/// the station's two neighbours sit just before and just after it in the list,
/// the step goes to the neighbour nearer to the target.
proof fn lemma_direction_steps(ns: Seq<Seq<char>>, target: Seq<char>, st: Seq<Seq<char>>, cur: Seq<char>)
    ensures
        (ns.len() == 1 || ns.len() == 2) && ns.contains(target) && target.len() > 0
            ==> direction(ns, target, st, cur) == target,
        ({
            let c = first_pos(st, cur);
            let t = first_pos(st, target);
            let r = direction(ns, target, st, cur);
            ns.len() == 2 && ns[1].len() > 0 && st.contains(cur) && st.contains(target) && t != c
                && station_pos(st, ns[0]) == Some(c - 1) && station_pos(st, ns[1]) == Some(c + 1)
                ==> st.contains(r) && vstd::math::abs(first_pos(st, r) - t) < vstd::math::abs(c - t)
        }),
{
    if (ns.len() == 1 || ns.len() == 2) && ns.contains(target) && target.len() > 0 {
        let i = choose|i: int| 0 <= i < ns.len() && ns[i] == target;
        assert(i == 0 || i == 1);
    }
    let c = first_pos(st, cur);
    let t = first_pos(st, target);
    if ns.len() == 2 && ns[1].len() > 0 && st.contains(cur) && st.contains(target) && t != c
        && station_pos(st, ns[0]) == Some(c - 1) && station_pos(st, ns[1]) == Some(c + 1) {
        lemma_first_pos(st, cur);
        lemma_first_pos(st, target);
        lemma_first_pos(st, ns[0]);
        lemma_first_pos(st, ns[1]);
    }
}

/// The next station on the way from station number `nearest` towards `from`.
pub fn which_direction(gr: Graph, nearest: &usize, stat_c: &StationCollection, from: String) -> (r: String)
    requires
        gr.wf(),
        *nearest < stat_c@.len(),
        gr@.contains_key(stat_c@[*nearest as int]),
    ensures
        r@ == direction(gr@[stat_c@[*nearest as int]], from@, stat_c@, stat_c@[*nearest as int]),
        ({
            let ns = gr@[stat_c@[*nearest as int]];
            (ns.len() == 1 || ns.len() == 2) && ns.contains(from@) && from@.len() > 0 ==> r@ == from@
        }),
        ({
            let st = stat_c@;
            let ns = gr@[st[*nearest as int]];
            let c = first_pos(st, st[*nearest as int]);
            let t = first_pos(st, from@);
            ns.len() == 2 && ns[1].len() > 0 && st.contains(from@) && t != c
                && station_pos(st, ns[0]) == Some(c - 1) && station_pos(st, ns[1]) == Some(c + 1)
                ==> st.contains(r@) && vstd::math::abs(first_pos(st, r@) - t) < vstd::math::abs(c - t)
        }),
{
    proof {
        lemma_direction_steps(gr@[stat_c@[*nearest as int]], from@, stat_c@, stat_c@[*nearest as int]);
        assert(stat_c@.contains(stat_c@[*nearest as int]));
    }
    let target_station = stat_c.station_at(*nearest);
    let neighbours = match gr.get_neighbors(target_station.as_str()) {
        Some(v) => v,
        None => {
            return String::new();
        },
    };
    let ghost ns = neighbours@.map_values(|s: String| s@);
    let (left, right) = if neighbours.len() == 1 {
        (neighbours[0].clone(), String::new())
    } else if neighbours.len() == 2 {
        (neighbours[0].clone(), neighbours[1].clone())
    } else {
        (String::new(), String::new())
    };
    assert(left@ == (if ns.len() == 1 || ns.len() == 2 { ns[0] } else { Seq::<char>::empty() }));
    assert(right@ == (if ns.len() == 2 { ns[1] } else { Seq::<char>::empty() }));
    if text_eq(left.as_str(), from.as_str()) || right.unicode_len() == 0 {
        return left;
    }
    if text_eq(right.as_str(), from.as_str()) {
        return right;
    }
    let a = stat_c.get_station_index(from.as_str());
    let b = stat_c.get_station_index(target_station.as_str());
    let ge = match (a, b) {
        (None, None) => true,
        (None, Some(_)) => false,
        (Some(_), None) => true,
        (Some(x), Some(y)) => x >= y,
    };
    if ge {
        return right;
    }
    left
}

/// A package that a train passing towards `next` picks up: one that starts or
/// ends at `next`, fits in the train's capacity, and awaits pickup.
pub open spec fn picked_here(p: Package, capacity: u32, statuses: Map<Seq<char>, PackageStatus>, next: Seq<char>) -> bool {
    &&& p@.from == next || p@.to == next
    &&& p@.weight <= capacity
    &&& statuses[p@.name] == PackageStatus::AwaitingPickup
}

/// Every package that could be picked up towards `next` is known.
pub open spec fn pickable_tracked(items: Seq<Package>, capacity: u32, statuses: Map<Seq<char>, PackageStatus>, next: Seq<char>) -> bool {
    forall|i: int| 0 <= i < items.len() && ((#[trigger] items[i])@.from == next || items[i]@.to == next)
        && items[i]@.weight <= capacity ==> statuses.contains_key(items[i]@.name)
}

/// Load onto train `train_index` every package of the collection (in name order)
/// that it would pick up on the way to `next_station`.
pub fn try_pick_package(
    tr_collection: &mut TrainCollection,
    pkg_collection: &mut PackageCollection,
    pkg_tracker: PackageTracker,
    train_index: usize,
    next_station: String,
)
    requires
        old(tr_collection).wf(),
        old(pkg_collection).wf(),
        pkg_tracker.wf(),
        train_index < old(tr_collection)@.len(),
        pickable_tracked(old(pkg_collection).items(), old(tr_collection)@[train_index as int]@.capacity, pkg_tracker.statuses(), next_station@),
    ensures
        final(tr_collection).wf(),
        *final(pkg_collection) == *old(pkg_collection),
        final(tr_collection)@.len() == old(tr_collection)@.len(),
        forall|j: int| 0 <= j < old(tr_collection)@.len() && j != train_index ==> #[trigger] final(tr_collection)@[j] == old(tr_collection)@[j],
        final(tr_collection)@[train_index as int]@ == (TrainInfo {
            loaded: insert_all(
                old(tr_collection)@[train_index as int]@.loaded,
                old(pkg_collection).items().filter(|p: Package| picked_here(p, old(tr_collection)@[train_index as int]@.capacity, pkg_tracker.statuses(), next_station@)),
            ),
            ..old(tr_collection)@[train_index as int]@
        }),
        ({
            let before = old(tr_collection)@[train_index as int]@.loaded;
            let after = final(tr_collection)@[train_index as int]@.loaded;
            let cap = old(tr_collection)@[train_index as int]@.capacity;
            let items = old(pkg_collection).items();
            let st = pkg_tracker.statuses();
            &&& forall|k: Seq<char>| #[trigger] before.contains_key(k) ==> after.contains_key(k)
            &&& forall|k: Seq<char>| #[trigger] after.contains_key(k)
                ==> (before.contains_key(k) && after[k] == before[k])
                || (items.contains(after[k]) && after[k]@.weight <= cap
                    && (after[k]@.from == next_station@ || after[k]@.to == next_station@)
                    && st.contains_key(after[k]@.name) && st[after[k]@.name] == PackageStatus::AwaitingPickup)
            &&& forall|i: int| 0 <= i < items.len() && (#[trigger] items[i])@.weight <= cap
                && (items[i]@.from == next_station@ || items[i]@.to == next_station@)
                && st.contains_key(items[i]@.name) && st[items[i]@.name] == PackageStatus::AwaitingPickup
                ==> after.contains_key(items[i]@.name)
        }),
{
    let ghost t0 = tr_collection@[train_index as int]@;
    let ghost items = pkg_collection.items();
    let ghost pred = |p: Package| picked_here(p, t0.capacity, pkg_tracker.statuses(), next_station@);
    let capacity = tr_collection.get_train(train_index).unwrap().capacity();
    let pkgs = pkg_collection.iter();
    let n = pkgs.len();
    let mut i: usize = 0;
    while i < n
        invariant
            n == items.len(),
            pkgs@ == items,
            capacity == t0.capacity,
            pred == (|p: Package| picked_here(p, t0.capacity, pkg_tracker.statuses(), next_station@)),
            pkg_tracker.wf(),
            pickable_tracked(items, t0.capacity, pkg_tracker.statuses(), next_station@),
            i <= n,
            tr_collection.wf(),
            tr_collection@.len() == old(tr_collection)@.len(),
            train_index < tr_collection@.len(),
            forall|j: int| 0 <= j < old(tr_collection)@.len() && j != train_index ==> #[trigger] tr_collection@[j] == old(tr_collection)@[j],
            tr_collection@[train_index as int]@ == (TrainInfo {
                loaded: insert_all(t0.loaded, items.subrange(0, i as int).filter(pred)),
                ..t0
            }),
        decreases n - i,
    {
        let pkg = &pkgs[i];
        proof {
            assert(items.subrange(0, i + 1) =~= items.subrange(0, i as int).push(items[i as int]));
            items.subrange(0, i as int).lemma_filter_push(items[i as int], pred);
        }
        let matches = text_eq(pkg.from().as_str(), next_station.as_str()) || text_eq(pkg.to().as_str(), next_station.as_str());
        if matches && !(capacity < pkg.weight()) {
            let st = pkg_tracker.get_status(pkg);
            if st == Some(PackageStatus::AwaitingPickup) {
                tr_collection.push_to(train_index, pkg.clone());
                proof {
                    let s = items.subrange(0, i as int).filter(pred);
                    assert(s.push(items[i as int]).drop_last() =~= s);
                }
            }
        }
        i = i + 1;
    }
    assert(items.subrange(0, n as int) =~= items);
    proof { lemma_picks_fit(t0.loaded, items, t0.capacity, pkg_tracker.statuses(), next_station@, pred); }
}

/// Every key of `m` and the name of every package of `s` are keys after `s` is stored.
proof fn lemma_insert_all_keys(m: Map<Seq<char>, Package>, s: Seq<Package>)
    ensures
        forall|k: Seq<char>| #[trigger] m.contains_key(k) ==> insert_all(m, s).contains_key(k),
        forall|i: int| 0 <= i < s.len() ==> insert_all(m, s).contains_key((#[trigger] s[i])@.name),
    decreases s.len(),
{
    if s.len() > 0 {
        let r = s.drop_last();
        lemma_insert_all_keys(m, r);
        assert forall|i: int| 0 <= i < s.len() implies insert_all(m, s).contains_key((#[trigger] s[i])@.name) by {
            if i < s.len() - 1 {
                assert(s[i] == r[i]);
            }
        }
    }
}

/// Picking up packages on the way to `next`: what was on board stays on board;
/// every package that comes on board is one of `items`, weighs no more than the
/// capacity, starts or ends at `next` and awaits pickup; and every such package
/// of `items` comes on board.
proof fn lemma_picks_fit(
    m: Map<Seq<char>, Package>,
    items: Seq<Package>,
    cap: u32,
    st: Map<Seq<char>, PackageStatus>,
    next: Seq<char>,
    pred: spec_fn(Package) -> bool,
)
    requires
        pred == (|p: Package| picked_here(p, cap, st, next)),
        pickable_tracked(items, cap, st, next),
    ensures
        ({
            let after = insert_all(m, items.filter(pred));
            &&& forall|k: Seq<char>| #[trigger] m.contains_key(k) ==> after.contains_key(k)
            &&& forall|k: Seq<char>| #[trigger] after.contains_key(k)
                ==> (m.contains_key(k) && after[k] == m[k])
                || (items.contains(after[k]) && after[k]@.weight <= cap
                    && (after[k]@.from == next || after[k]@.to == next)
                    && st.contains_key(after[k]@.name) && st[after[k]@.name] == PackageStatus::AwaitingPickup)
            &&& forall|i: int| 0 <= i < items.len() && (#[trigger] items[i])@.weight <= cap
                && (items[i]@.from == next || items[i]@.to == next)
                && st.contains_key(items[i]@.name) && st[items[i]@.name] == PackageStatus::AwaitingPickup
                ==> after.contains_key(items[i]@.name)
        }),
{
    let f = items.filter(pred);
    let after = insert_all(m, f);
    lemma_insert_all_keys(m, f);
    assert forall|k: Seq<char>| #[trigger] after.contains_key(k)
        implies (m.contains_key(k) && after[k] == m[k])
        || (items.contains(after[k]) && after[k]@.weight <= cap
            && (after[k]@.from == next || after[k]@.to == next)
            && st.contains_key(after[k]@.name) && st[after[k]@.name] == PackageStatus::AwaitingPickup) by {
        lemma_insert_all_values(m, f, k);
        if !(m.contains_key(k) && after[k] == m[k]) {
            let v = after[k];
            let q = choose|q: int| 0 <= q < f.len() && f[q] == v;
            items.lemma_filter_pred(pred, q);
            items.lemma_filter_contains_rev(pred, v);
            let j = choose|j: int| 0 <= j < items.len() && items[j] == v;
            assert(pickable_tracked(items, cap, st, next));
            assert(items[j]@.from == next || items[j]@.to == next);
        }
    }
    assert forall|i: int| 0 <= i < items.len() && (#[trigger] items[i])@.weight <= cap
        && (items[i]@.from == next || items[i]@.to == next)
        && st.contains_key(items[i]@.name) && st[items[i]@.name] == PackageStatus::AwaitingPickup
        implies after.contains_key(items[i]@.name) by {
        items.lemma_filter_contains(pred, i);
        let q = choose|q: int| 0 <= q < f.len() && f[q] == items[i];
        assert(after.contains_key(f[q]@.name));
    }
}


/// How many entries of `s` are set.
pub open spec fn count_true(s: Seq<bool>) -> nat
    decreases s.len(),
{
    if s.len() == 0 {
        0
    } else {
        count_true(s.drop_last()) + (if s.last() { 1nat } else { 0nat })
    }
}

proof fn lemma_count_le(s: Seq<bool>)
    ensures
        count_true(s) <= s.len(),
    decreases s.len(),
{
    if s.len() > 0 {
        lemma_count_le(s.drop_last());
    }
}

proof fn lemma_count_set(s: Seq<bool>, i: int)
    requires
        0 <= i < s.len(),
        !s[i],
    ensures
        count_true(s.update(i, true)) == count_true(s) + 1,
    decreases s.len(),
{
    let u = s.update(i, true);
    if i == s.len() - 1 {
        assert(u.drop_last() =~= s.drop_last());
    } else {
        assert(u.drop_last() =~= s.drop_last().update(i, true));
        lemma_count_set(s.drop_last(), i);
    }
}

/// The next station from station number `idx` towards `where_to`, when the graph
/// lists the neighbours of that station.
fn step_toward(graph: &Graph, idx: usize, stats: &StationCollection, where_to: &String) -> (r: Result<String, RouteError>)
    requires
        graph.wf(),
        idx < stats@.len(),
    ensures
        r is Err <==> !graph@.contains_key(stats@[idx as int]),
        r matches Err(e) ==> e == RouteError::NoNeighbours,
        r matches Ok(s) ==> s@ == direction(graph@[stats@[idx as int]], where_to@, stats@, stats@[idx as int]),
{
    match graph.get_neighbors(stats.station_at(idx).as_str()) {
        None => Err(RouteError::NoNeighbours),
        Some(_) => {
            let i = idx;
            Ok(which_direction(graph.copy(), &i, stats, where_to.clone()))
        },
    }
}

/// Whether every package of `pkgs` that a train of `capacity` could pick up
/// towards `next` is known.
fn all_pickable_tracked(pkgs: &PackageCollection, capacity: u32, tracker: &PackageTracker, next: &String) -> (r: bool)
    requires
        pkgs.wf(),
        tracker.wf(),
    ensures
        r == pickable_tracked(pkgs.items(), capacity, tracker.statuses(), next@),
{
    let items = pkgs.iter();
    let n = items.len();
    let mut i: usize = 0;
    while i < n
        invariant
            n == pkgs.items().len(),
            items@ == pkgs.items(),
            tracker.wf(),
            i <= n,
            forall|j: int| 0 <= j < i && ((#[trigger] items@[j])@.from == next@ || items@[j]@.to == next@)
                && items@[j]@.weight <= capacity ==> tracker.statuses().contains_key(items@[j]@.name),
        decreases n - i,
    {
        let p = &items[i];
        if (text_eq(p.from().as_str(), next.as_str()) || text_eq(p.to().as_str(), next.as_str())) && p.weight() <= capacity {
            if tracker.get_status(p).is_none() {
                return false;
            }
        }
        i = i + 1;
    }
    true
}

/// The next station from `at` on the way towards `w`.
pub open spec fn next_on_way(g: Map<Seq<char>, Seq<Seq<char>>>, st: Seq<Seq<char>>, w: Seq<char>, at: Seq<char>) -> Seq<char> {
    direction(g[at], w, st, at)
}

/// The stations a train passes, hop by hop, on its way from station number `i`
/// towards `w` when the stations marked in `vis` are behind it, and what stops
/// the walk short, if anything: a next station that is not in the list, one that
/// was passed before, or one that has no neighbour list.
pub open spec fn walk(
    g: Map<Seq<char>, Seq<Seq<char>>>,
    st: Seq<Seq<char>>,
    w: Seq<char>,
    i: int,
    vis: Seq<bool>,
    fuel: nat,
) -> (Seq<Seq<char>>, Option<RouteError>)
    decreases fuel,
{
    if st[i] == w {
        (Seq::empty(), None)
    } else {
        let n = next_on_way(g, st, w, st[i]);
        match station_pos(st, n) {
            None => (seq![n], Some(RouteError::UnknownStation)),
            Some(ni) => {
                if vis[ni] || fuel == 0 {
                    (seq![n], Some(RouteError::Cycle))
                } else if !g.contains_key(n) {
                    (seq![n], Some(RouteError::NoNeighbours))
                } else {
                    let rest = walk(g, st, w, ni, vis.update(ni, true), (fuel - 1) as nat);
                    (seq![n] + rest.0, rest.1)
                }
            },
        }
    }
}

/// The total distance of the first `k` hops along `path`.
pub open spec fn hop_sum(dm: Map<(Seq<char>, Seq<char>), u32>, path: Seq<Seq<char>>, k: int) -> int
    decreases k,
{
    if k <= 0 {
        0
    } else {
        hop_sum(dm, path, k - 1) + pair_distance(dm, path[k - 1], path[k]) as int
    }
}

/// The time a timeline holds for `x`, 0 when it holds none (what `get_time` reads).
pub open spec fn clock(tl: Map<Seq<char>, u32>, x: Seq<char>) -> int {
    if tl.contains_key(x) { tl[x] as int } else { 0 }
}

/// The time the timeline holds for `x` before hop `k` of `train` along `path`:
/// only the moving train's time grows, by the hops it has made.
pub open spec fn clock_at(
    tl: Map<Seq<char>, u32>,
    dm: Map<(Seq<char>, Seq<char>), u32>,
    path: Seq<Seq<char>>,
    train: Seq<char>,
    k: int,
    x: Seq<char>,
) -> int {
    if x == train { clock(tl, train) + hop_sum(dm, path, k) } else { clock(tl, x) }
}

/// The time written on the line of hop `k`: the timeline's time for the station
/// left plus its time for the train.
pub open spec fn hop_time(
    tl: Map<Seq<char>, u32>,
    dm: Map<(Seq<char>, Seq<char>), u32>,
    path: Seq<Seq<char>>,
    train: Seq<char>,
    k: int,
) -> int {
    clock_at(tl, dm, path, train, k, path[k]) + clock_at(tl, dm, path, train, k, train)
}

/// Hop `k` takes a time past `u32::MAX`: on its line, on the train, or on the timeline.
pub open spec fn hop_overflows(
    tl: Map<Seq<char>, u32>,
    dm: Map<(Seq<char>, Seq<char>), u32>,
    path: Seq<Seq<char>>,
    train: Seq<char>,
    start: u32,
    k: int,
) -> bool {
    ||| hop_time(tl, dm, path, train, k) > u32::MAX
    ||| start + hop_sum(dm, path, k + 1) > u32::MAX
    ||| clock(tl, train) + hop_sum(dm, path, k + 1) > u32::MAX
}


/// Every package on a train has a status.
pub open spec fn loads_tracked(ts: Seq<TrainInfo>, statuses: Map<Seq<char>, PackageStatus>) -> bool {
    forall|j: int, k: Seq<char>| 0 <= j < ts.len() && #[trigger] ts[j].loaded.contains_key(k)
        ==> statuses.contains_key(ts[j].loaded[k]@.name)
}

/// Every package of the collection, and every package on a train, has a status.
pub open spec fn all_tracked(items: Seq<Package>, ts: Seq<TrainInfo>, statuses: Map<Seq<char>, PackageStatus>) -> bool {
    &&& forall|i: int| 0 <= i < items.len() ==> statuses.contains_key((#[trigger] items[i])@.name)
    &&& loads_tracked(ts, statuses)
}

proof fn lemma_loads_same(a: Seq<TrainInfo>, b: Seq<TrainInfo>, s: Map<Seq<char>, PackageStatus>)
    requires
        loads_tracked(a, s),
        a.len() == b.len(),
        forall|j: int| 0 <= j < a.len() ==> (#[trigger] b[j]).loaded == a[j].loaded,
    ensures
        loads_tracked(b, s),
{
    assert forall|j: int, k: Seq<char>| 0 <= j < b.len() && #[trigger] b[j].loaded.contains_key(k)
        implies s.contains_key(b[j].loaded[k]@.name) by {
        assert(a[j].loaded.contains_key(k));
    }
}

/// The train the search moves: the first of those selected with the least time.
pub open spec fn least_pick(times: Seq<u32>, sel: Seq<bool>) -> int {
    choose|i: int| first_least(times, sel, i)
}

proof fn lemma_least_pick(times: Seq<u32>, sel: Seq<bool>, i: int)
    requires
        first_least(times, sel, i),
    ensures
        least_pick(times, sel) == i,
{
    let j = least_pick(times, sel);
    assert(first_least(times, sel, j));
    if j < i {
        assert(sel[j]);
    } else if i < j {
        assert(sel[i]);
    }
}


proof fn lemma_hop_sum_nonneg(dm: Map<(Seq<char>, Seq<char>), u32>, path: Seq<Seq<char>>, k: int)
    ensures
        hop_sum(dm, path, k) >= 0,
    decreases k,
{
    if k > 0 {
        lemma_hop_sum_nonneg(dm, path, k - 1);
    }
}

/// A map filled from `s` holds at each key either its old value or a value of `s`.
proof fn lemma_insert_all_values(m: Map<Seq<char>, Package>, s: Seq<Package>, k: Seq<char>)
    requires
        insert_all(m, s).contains_key(k),
    ensures
        (m.contains_key(k) && insert_all(m, s)[k] == m[k]) || s.contains(insert_all(m, s)[k]),
    decreases s.len(),
{
    if s.len() > 0 {
        let r = s.drop_last();
        if k == s.last()@.name {
            assert(s[s.len() - 1] == s.last());
        } else {
            lemma_insert_all_values(m, r, k);
            if r.contains(insert_all(m, r)[k]) {
                let i = choose|i: int| 0 <= i < r.len() && r[i] == insert_all(m, r)[k];
                assert(s[i] == r[i]);
            }
        }
    }
}

/// The bookkeeping that the hops of a train touch: the packages on each train,
/// the log of packages picked up and dropped off, the statuses the walk works
/// with, and the packages that the movement record marks as picked up, dropped
/// off and carried.
pub struct Ledger {
    pub loads: Seq<Map<Seq<char>, Package>>,
    pub picked: Map<Seq<char>, Package>,
    pub dropped: Map<Seq<char>, Package>,
    pub statuses: Map<Seq<char>, PackageStatus>,
    pub mv_picked: Map<Seq<char>, Package>,
    pub mv_dropped: Map<Seq<char>, Package>,
    pub carried: Map<Seq<char>, Package>,
}

/// The packages of `l` picked up at `curr`: those that start there and were not
/// picked up before.
pub open spec fn picks_at(l: Map<Seq<char>, Package>, picked: Map<Seq<char>, Package>, curr: Seq<char>) -> Set<Seq<char>> {
    Set::new(|k: Seq<char>| l.contains_key(k) && l[k]@.from == curr && !picked.contains_key(k))
}

/// `st` with the packages named in `ks` in transit.
pub open spec fn in_transit(st: Map<Seq<char>, PackageStatus>, ks: Set<Seq<char>>) -> Map<Seq<char>, PackageStatus> {
    Map::new(|k: Seq<char>| st.contains_key(k), |k: Seq<char>| if ks.contains(k) { PackageStatus::InTransit } else { st[k] })
}

/// The packages of `l` dropped off on the way to `next`: those in transit that
/// end there and were not dropped off before.
pub open spec fn drops_at(
    l: Map<Seq<char>, Package>,
    st: Map<Seq<char>, PackageStatus>,
    dropped: Map<Seq<char>, Package>,
    next: Seq<char>,
) -> Set<Seq<char>> {
    Set::new(|k: Seq<char>| l.contains_key(k) && st.contains_key(k) && st[k] == PackageStatus::InTransit
        && l[k]@.to == next && !dropped.contains_key(k))
}

/// The bookkeeping once the carrying train `h`, leaving `curr` for `next`, has
/// handled the packages named in `done`: each picked up is logged, marked and
/// set in transit; each dropped off is logged, marked and taken off the train.
pub open spec fn handle_loads_upto(g: Ledger, h: int, curr: Seq<char>, next: Seq<char>, done: Set<Seq<char>>) -> Ledger {
    let l = g.loads[h];
    let p = picks_at(l, g.picked, curr);
    let d = drops_at(l, in_transit(g.statuses, p), g.dropped, next);
    let pk = p.intersect(done);
    let dk = d.intersect(done);
    Ledger {
        loads: g.loads.update(h, l.remove_keys(dk)),
        picked: g.picked.union_prefer_right(l.restrict(pk)),
        dropped: g.dropped.union_prefer_right(l.restrict(dk)),
        statuses: in_transit(g.statuses, pk),
        mv_picked: g.mv_picked.union_prefer_right(l.restrict(pk)),
        mv_dropped: g.mv_dropped.union_prefer_right(l.restrict(dk)),
        carried: g.carried.union_prefer_right(l.restrict(pk)).remove_keys(dk),
    }
}

/// `j` is the first train that carries a package named `name`.
pub open spec fn first_carrier(loads: Seq<Map<Seq<char>, Package>>, name: Seq<char>, j: int) -> bool {
    &&& 0 <= j < loads.len()
    &&& loads[j].contains_key(name)
    &&& forall|i: int| 0 <= i < j ==> !(#[trigger] loads[i]).contains_key(name)
}

/// The first train that carries a package named `name`, if any.
pub open spec fn carrier(loads: Seq<Map<Seq<char>, Package>>, name: Seq<char>) -> Option<int> {
    if exists|j: int| first_carrier(loads, name, j) {
        Some(choose|j: int| first_carrier(loads, name, j))
    } else {
        None
    }
}

proof fn lemma_carrier(loads: Seq<Map<Seq<char>, Package>>, name: Seq<char>, j: int)
    requires
        first_carrier(loads, name, j),
    ensures
        carrier(loads, name) == Some(j),
{
    let c = choose|c: int| first_carrier(loads, name, c);
    assert(first_carrier(loads, name, c));
    if c < j {
        assert(!loads[c].contains_key(name));
    } else if j < c {
        assert(!loads[j].contains_key(name));
    }
}

/// The bookkeeping of one hop of train `ti` from `curr` to `next`, carrying the
/// package named `pname` along: the train takes on what it can pick up towards
/// `next`, then the first train that carries `pname` handles its packages.
/// `None` when a package that the hop meets has no status.
pub open spec fn hop_ledger(
    items: Seq<Package>,
    caps: Seq<u32>,
    g: Ledger,
    ti: int,
    pname: Seq<char>,
    curr: Seq<char>,
    next: Seq<char>,
) -> Option<Ledger> {
    let cap = caps[ti];
    if !pickable_tracked(items, cap, g.statuses, next) {
        None
    } else {
        let loads1 = g.loads.update(ti, insert_all(g.loads[ti], items.filter(|p: Package| picked_here(p, cap, g.statuses, next))));
        let g1 = Ledger { loads: loads1, ..g };
        match carrier(loads1, pname) {
            None => Some(g1),
            Some(h) => {
                if exists|k: Seq<char>| #[trigger] loads1[h].contains_key(k) && !g.statuses.contains_key(k) {
                    None
                } else {
                    Some(handle_loads_upto(g1, h, curr, next, loads1[h].dom()))
                }
            },
        }
    }
}

/// The hops `k` to `n` of `train` along `path`, from bookkeeping `g`: the
/// bookkeeping at the end and, for each hop, the names its line lists as picked
/// up and dropped off; or the error that stops them, `end` being what stops the
/// walk after its last hop.
pub open spec fn run_hops(
    items: Seq<Package>,
    caps: Seq<u32>,
    tl: Map<Seq<char>, u32>,
    dm: Map<(Seq<char>, Seq<char>), u32>,
    path: Seq<Seq<char>>,
    train: Seq<char>,
    start: u32,
    g: Ledger,
    ti: int,
    pname: Seq<char>,
    k: int,
    n: int,
    end: Option<RouteError>,
) -> Result<(Ledger, Seq<(Set<Seq<char>>, Set<Seq<char>>)>), RouteError>
    decreases n - k,
{
    if k >= n {
        match end {
            None => Ok((g, Seq::empty())),
            Some(e) => Err(e),
        }
    } else {
        match hop_ledger(items, caps, g, ti, pname, path[k], path[k + 1]) {
            None => Err(RouteError::Untracked),
            Some(g1) => {
                if hop_overflows(tl, dm, path, train, start, k) {
                    Err(RouteError::TimeOverflow)
                } else {
                    let g2 = Ledger { mv_picked: Map::empty(), mv_dropped: Map::empty(), ..g1 };
                    match run_hops(items, caps, tl, dm, path, train, start, g2, ti, pname, k + 1, n, end) {
                        Ok(res) => Ok((res.0, seq![(g1.mv_picked.dom(), g1.mv_dropped.dom())] + res.1)),
                        Err(e) => Err(e),
                    }
                }
            },
        }
    }
}

/// What the line of one hop says: its time, the train, the station left, the
/// station reached, and the names of the packages picked up and dropped off.
pub struct HopRecord {
    pub time: u32,
    pub train: Seq<char>,
    pub from: Seq<char>,
    pub to: Seq<char>,
    pub picked: Set<Seq<char>>,
    pub dropped: Set<Seq<char>>,
}

/// `line` is the line of hop `h`, each list of names in name order.
pub open spec fn line_fits(line: Seq<char>, h: HopRecord) -> bool {
    exists|p: Seq<Seq<char>>, d: Seq<Seq<char>>|
        #[trigger] movement_line(h.time, h.train, h.from, h.to, p, d) == line
        && strictly_sorted(p) && strictly_sorted(d) && p.to_set() == h.picked && d.to_set() == h.dropped
}

/// The records of the first `n` hops of `train` along `path`, with the names
/// `marks` lists for each.
pub open spec fn hop_records(
    tl: Map<Seq<char>, u32>,
    dm: Map<(Seq<char>, Seq<char>), u32>,
    path: Seq<Seq<char>>,
    train: Seq<char>,
    n: int,
    marks: Seq<(Set<Seq<char>>, Set<Seq<char>>)>,
) -> Seq<HopRecord> {
    Seq::new(n as nat, |k: int| hop_record(tl, dm, path, train, k, marks[k]))
}

/// The record of hop `k` of `train` along `path`, listing the names of `mark`.
pub open spec fn hop_record(
    tl: Map<Seq<char>, u32>,
    dm: Map<(Seq<char>, Seq<char>), u32>,
    path: Seq<Seq<char>>,
    train: Seq<char>,
    k: int,
    mark: (Set<Seq<char>>, Set<Seq<char>>),
) -> HopRecord {
    HopRecord {
        time: hop_time(tl, dm, path, train, k) as u32,
        train,
        from: path[k],
        to: path[k + 1],
        picked: mark.0,
        dropped: mark.1,
    }
}

/// The state that the search changes: the trains, the timeline, the log of the
/// packages picked up and dropped off, and the movement record.
pub struct World {
    pub trains: Seq<TrainInfo>,
    pub tl: Map<Seq<char>, u32>,
    pub picked: Map<Seq<char>, Package>,
    pub dropped: Map<Seq<char>, Package>,
    pub mv: MovementInfo,
}

/// The state after train `ti` has made the `n` hops of `path` to `w`, its
/// bookkeeping ending as `res` says.
pub open spec fn moved_world(
    wd: World,
    dm: Map<(Seq<char>, Seq<char>), u32>,
    w: Seq<char>,
    path: Seq<Seq<char>>,
    ti: int,
    n: int,
    res: (Ledger, Seq<(Set<Seq<char>>, Set<Seq<char>>)>),
) -> World {
    let ts = wd.trains;
    let name = ts[ti].name;
    let tm0 = ts[ti].time;
    World {
        trains: Seq::new(ts.len(), |j: int| if j == ti {
            TrainInfo { loaded: res.0.loads[j], current: w, time: (tm0 + hop_sum(dm, path, n)) as u32, ..ts[j] }
        } else {
            TrainInfo { loaded: res.0.loads[j], ..ts[j] }
        }),
        tl: if n == 0 { wd.tl } else { wd.tl.insert(name, (clock(wd.tl, name) + hop_sum(dm, path, n)) as u32) },
        picked: res.0.picked,
        dropped: res.0.dropped,
        mv: if n == 0 { wd.mv } else {
            MovementInfo {
                time: hop_time(wd.tl, dm, path, name, n - 1) as u32,
                train: name,
                from: path[n - 1],
                to: path[n],
                picked: res.0.mv_picked,
                dropped: res.0.mv_dropped,
                carriages: res.0.carried,
            }
        },
    }
}

/// What sending a train from station `from` towards `w` on behalf of package
/// `pkg` does, when `items` are the packages waiting and `statuses` their
/// statuses: the state after and the records of the hops, or the error. The
/// train is the first, among those at `from` with more room than `pkg` weighs,
/// with the least time; it walks towards `w` and its bookkeeping follows
/// `run_hops`.
pub open spec fn advance_spec(
    wd: World,
    items: Seq<Package>,
    statuses: Map<Seq<char>, PackageStatus>,
    st: Seq<Seq<char>>,
    g: Map<Seq<char>, Seq<Seq<char>>>,
    dm: Map<(Seq<char>, Seq<char>), u32>,
    w: Seq<char>,
    from: Seq<char>,
    pkg: PackageInfo,
) -> Result<(World, Seq<HopRecord>), RouteError> {
    let ts = wd.trains;
    let sel = Seq::new(ts.len(), |j: int| ts[j].current == from && ts[j].remain_capacity > pkg.weight);
    if !st.contains(from) {
        Err(RouteError::UnknownStation)
    } else if !g.contains_key(from) {
        Err(RouteError::NoNeighbours)
    } else if !(exists|j: int| 0 <= j < ts.len() && #[trigger] sel[j]) {
        Err(RouteError::NoTrain)
    } else {
        let ti = least_pick(Seq::new(ts.len(), |j: int| ts[j].time), sel);
        let c0 = first_pos(st, from);
        let walked = walk(g, st, w, c0, Seq::new(st.len(), |q: int| q == c0), (st.len() - 1) as nat);
        let path = seq![from] + walked.0;
        let n = walked.0.len() as int;
        let name = ts[ti].name;
        let g0 = Ledger {
            loads: Seq::new(ts.len(), |j: int| ts[j].loaded),
            picked: wd.picked,
            dropped: wd.dropped,
            statuses,
            mv_picked: wd.mv.picked,
            mv_dropped: wd.mv.dropped,
            carried: wd.mv.carriages,
        };
        match run_hops(items, Seq::new(ts.len(), |j: int| ts[j].capacity), wd.tl, dm, path, name, ts[ti].time, g0, ti, pkg.name, 0, n, walked.1) {
            Err(e) => Err(e),
            Ok(res) => Ok((moved_world(wd, dm, w, path, ti, n, res), hop_records(wd.tl, dm, path, name, n, res.1))),
        }
    }
}

/// Where a train stands and how long it has travelled.
pub open spec fn same_place(a: TrainInfo, b: TrainInfo) -> bool {
    a.current == b.current && a.time == b.time
}

/// A selection with a marked entry has a first marked entry of least time.
proof fn lemma_first_least_exists(times: Seq<u32>, sel: Seq<bool>)
    requires
        times.len() == sel.len(),
        exists|j: int| 0 <= j < sel.len() && #[trigger] sel[j],
    ensures
        first_least(times, sel, least_pick(times, sel)),
    decreases sel.len(),
{
    let n = sel.len() - 1;
    let t2 = times.drop_last();
    let s2 = sel.drop_last();
    if exists|j: int| 0 <= j < s2.len() && #[trigger] s2[j] {
        lemma_first_least_exists(t2, s2);
        let i0 = least_pick(t2, s2);
        assert(s2[i0] == sel[i0] && t2[i0] == times[i0]);
        if sel[n] && times[n] < times[i0] {
            assert forall|j: int| 0 <= j < sel.len() && #[trigger] sel[j] implies times[n] <= times[j] by {
                if j < n {
                    assert(s2[j] == sel[j] && t2[j] == times[j]);
                }
            }
            assert forall|j: int| 0 <= j < n && #[trigger] sel[j] implies times[n] < times[j] by {
                assert(s2[j] == sel[j] && t2[j] == times[j]);
            }
            assert(first_least(times, sel, n));
        } else {
            assert forall|j: int| 0 <= j < sel.len() && #[trigger] sel[j] implies times[i0] <= times[j] by {
                if j < n {
                    assert(s2[j] == sel[j] && t2[j] == times[j]);
                }
            }
            assert forall|j: int| 0 <= j < i0 && #[trigger] sel[j] implies times[i0] < times[j] by {
                assert(s2[j] == sel[j] && t2[j] == times[j]);
            }
            assert(first_least(times, sel, i0));
        }
    } else {
        assert(sel[n]) by {
            let j = choose|j: int| 0 <= j < sel.len() && #[trigger] sel[j];
            if j < n {
                assert(s2[j] == sel[j]);
            }
        }
        assert forall|j: int| 0 <= j < sel.len() && #[trigger] sel[j] implies j == n by {
            if j < n {
                assert(s2[j] == sel[j]);
            }
        }
        assert(first_least(times, sel, n));
    }
}

/// A walk that nothing stops ends at `w`.
proof fn lemma_walk_ends(g: Map<Seq<char>, Seq<Seq<char>>>, st: Seq<Seq<char>>, w: Seq<char>, i: int, vis: Seq<bool>, fuel: nat)
    ensures
        walk(g, st, w, i, vis, fuel).1 is None ==> if walk(g, st, w, i, vis, fuel).0.len() == 0 {
            st[i] == w
        } else {
            walk(g, st, w, i, vis, fuel).0.last() == w
        },
    decreases fuel,
{
    if st[i] != w {
        let n = next_on_way(g, st, w, st[i]);
        match station_pos(st, n) {
            None => {},
            Some(ni) => {
                if !(vis[ni] || fuel == 0) && g.contains_key(n) {
                    lemma_walk_ends(g, st, w, ni, vis.update(ni, true), (fuel - 1) as nat);
                    lemma_first_pos(st, n);
                    let rest = walk(g, st, w, ni, vis.update(ni, true), (fuel - 1) as nat);
                    if rest.0.len() > 0 {
                        assert((seq![n] + rest.0).last() == rest.0.last());
                    }
                }
            },
        }
    }
}

/// Hops that all go through: nothing stopped the walk, no hop overflows, and
/// there is one record per hop.
proof fn lemma_run_hops_ok(
    items: Seq<Package>,
    caps: Seq<u32>,
    tl: Map<Seq<char>, u32>,
    dm: Map<(Seq<char>, Seq<char>), u32>,
    path: Seq<Seq<char>>,
    train: Seq<char>,
    start: u32,
    g: Ledger,
    ti: int,
    pname: Seq<char>,
    k: int,
    n: int,
    end: Option<RouteError>,
)
    requires
        k <= n,
    ensures
        run_hops(items, caps, tl, dm, path, train, start, g, ti, pname, k, n, end) matches Ok(res) ==> {
            &&& end is None
            &&& res.1.len() == n - k
            &&& forall|q: int| k <= q < n ==> !#[trigger] hop_overflows(tl, dm, path, train, start, q)
        },
    decreases n - k,
{
    if k < n {
        match hop_ledger(items, caps, g, ti, pname, path[k], path[k + 1]) {
            None => {},
            Some(g1) => {
                let g2 = Ledger { mv_picked: Map::empty(), mv_dropped: Map::empty(), ..g1 };
                lemma_run_hops_ok(items, caps, tl, dm, path, train, start, g2, ti, pname, k + 1, n, end);
            },
        }
    }
}

/// Sending a train: when it succeeds, the train sent stood at `from` with more
/// room than the package weighs; the stations it passes run from `from` to `w`,
/// one line per hop naming the train and the hop's two stations; it ends at `w`,
/// and its travelled time, and its entry in the timeline when it moved at all,
/// grow by exactly the sum of the distances of the hops. Every other train stays
/// where it was, with the time it had.
pub proof fn sent_train_reaches_target(
    wd: World,
    items: Seq<Package>,
    statuses: Map<Seq<char>, PackageStatus>,
    st: Seq<Seq<char>>,
    g: Map<Seq<char>, Seq<Seq<char>>>,
    dm: Map<(Seq<char>, Seq<char>), u32>,
    w: Seq<char>,
    from: Seq<char>,
    pkg: PackageInfo,
)
    ensures
        advance_spec(wd, items, statuses, st, g, dm, w, from, pkg) matches Ok(res) ==> ({
            let ts = wd.trains;
            let sel = Seq::new(ts.len(), |j: int| ts[j].current == from && ts[j].remain_capacity > pkg.weight);
            let ti = least_pick(Seq::new(ts.len(), |j: int| ts[j].time), sel);
            let c0 = first_pos(st, from);
            let path = seq![from] + walk(g, st, w, c0, Seq::new(st.len(), |q: int| q == c0), (st.len() - 1) as nat).0;
            let n = path.len() - 1;
            let name = ts[ti].name;
            &&& 0 <= ti < ts.len() && ts[ti].current == from && ts[ti].remain_capacity > pkg.weight
            &&& path[0] == from && path[n] == w
            &&& res.1.len() == n
            &&& forall|k: int| 0 <= k < n ==> (#[trigger] res.1[k]).train == name && res.1[k].from == path[k]
                && res.1[k].to == path[k + 1]
            &&& res.0.trains.len() == ts.len()
            &&& res.0.trains[ti].current == w
            &&& res.0.trains[ti].time == ts[ti].time + hop_sum(dm, path, n)
            &&& n == 0 ==> res.0.tl == wd.tl
            &&& n > 0 ==> clock(wd.tl, name) + hop_sum(dm, path, n) <= u32::MAX
                && res.0.tl == wd.tl.insert(name, (clock(wd.tl, name) + hop_sum(dm, path, n)) as u32)
            &&& forall|j: int| 0 <= j < ts.len() && j != ti ==> same_place(#[trigger] res.0.trains[j], ts[j])
        }),
{
    let ts = wd.trains;
    let sel = Seq::new(ts.len(), |j: int| ts[j].current == from && ts[j].remain_capacity > pkg.weight);
    let times = Seq::new(ts.len(), |j: int| ts[j].time);
    if st.contains(from) && g.contains_key(from) && exists|j: int| 0 <= j < ts.len() && #[trigger] sel[j] {
        lemma_first_least_exists(times, sel);
        let ti = least_pick(times, sel);
        assert(sel[ti]);
        lemma_first_pos(st, from);
        let c0 = first_pos(st, from);
        let vis = Seq::new(st.len(), |q: int| q == c0);
        let walked = walk(g, st, w, c0, vis, (st.len() - 1) as nat);
        lemma_walk_ends(g, st, w, c0, vis, (st.len() - 1) as nat);
        let path = seq![from] + walked.0;
        let n = walked.0.len() as int;
        let name = ts[ti].name;
        let g0 = Ledger {
            loads: Seq::new(ts.len(), |j: int| ts[j].loaded),
            picked: wd.picked,
            dropped: wd.dropped,
            statuses,
            mv_picked: wd.mv.picked,
            mv_dropped: wd.mv.dropped,
            carried: wd.mv.carriages,
        };
        let caps = Seq::new(ts.len(), |j: int| ts[j].capacity);
        lemma_run_hops_ok(items, caps, wd.tl, dm, path, name, ts[ti].time, g0, ti, pkg.name, 0, n, walked.1);
        lemma_hop_sum_nonneg(dm, path, n);
        match run_hops(items, caps, wd.tl, dm, path, name, ts[ti].time, g0, ti, pkg.name, 0, n, walked.1) {
            Ok(res) => {
                if n > 0 {
                    assert(!hop_overflows(wd.tl, dm, path, name, ts[ti].time, n - 1));
                    assert(path[n] == walked.0.last());
                }
            },
            Err(_) => {},
        }
    }
}


/// Handling one more package, named `k`, changes the bookkeeping at `k` only: it
/// is logged, marked and set in transit if picked up, and logged, marked and
/// taken off the carrier if dropped off.
proof fn lemma_handle_step(g: Ledger, h: int, curr: Seq<char>, next: Seq<char>, done: Set<Seq<char>>, k: Seq<char>)
    requires
        0 <= h < g.loads.len(),
        g.loads[h].contains_key(k),
        !done.contains(k),
        g.statuses.contains_key(k),
    ensures
        ({
            let a = handle_loads_upto(g, h, curr, next, done);
            let b = handle_loads_upto(g, h, curr, next, done.insert(k));
            let l = g.loads[h];
            let p = picks_at(l, g.picked, curr);
            let d = drops_at(l, in_transit(g.statuses, p), g.dropped, next);
            let st1 = if p.contains(k) { a.statuses.insert(k, PackageStatus::InTransit) } else { a.statuses };
            &&& a.loads.len() == g.loads.len()
            &&& a.loads[h].contains_key(k) && a.loads[h][k] == l[k]
            &&& a.picked.contains_key(k) == g.picked.contains_key(k)
            &&& a.dropped.contains_key(k) == g.dropped.contains_key(k)
            &&& a.statuses.contains_key(k) && a.statuses[k] == g.statuses[k]
            &&& a.statuses.dom() == g.statuses.dom()
            &&& p.contains(k) == (l[k]@.from == curr && !g.picked.contains_key(k))
            &&& d.contains(k) == (st1[k] == PackageStatus::InTransit && l[k]@.to == next && !g.dropped.contains_key(k))
            &&& b.picked == (if p.contains(k) { a.picked.insert(k, l[k]) } else { a.picked })
            &&& b.statuses == st1
            &&& b.mv_picked == (if p.contains(k) { a.mv_picked.insert(k, l[k]) } else { a.mv_picked })
            &&& b.dropped == (if d.contains(k) { a.dropped.insert(k, l[k]) } else { a.dropped })
            &&& b.mv_dropped == (if d.contains(k) { a.mv_dropped.insert(k, l[k]) } else { a.mv_dropped })
            &&& b.carried == (if d.contains(k) {
                (if p.contains(k) { a.carried.insert(k, l[k]) } else { a.carried }).remove(k)
            } else if p.contains(k) {
                a.carried.insert(k, l[k])
            } else {
                a.carried
            })
            &&& b.loads == (if d.contains(k) { a.loads.update(h, a.loads[h].remove(k)) } else { a.loads })
        }),
{
    let a = handle_loads_upto(g, h, curr, next, done);
    let b = handle_loads_upto(g, h, curr, next, done.insert(k));
    let l = g.loads[h];
    let p = picks_at(l, g.picked, curr);
    let d = drops_at(l, in_transit(g.statuses, p), g.dropped, next);
    let pk = p.intersect(done);
    let dk = d.intersect(done);
    let pk2 = p.intersect(done.insert(k));
    let dk2 = d.intersect(done.insert(k));
    let st1 = if p.contains(k) { a.statuses.insert(k, PackageStatus::InTransit) } else { a.statuses };
    assert(pk2 =~= (if p.contains(k) { pk.insert(k) } else { pk }));
    assert(dk2 =~= (if d.contains(k) { dk.insert(k) } else { dk }));
    assert(a.statuses.dom() =~= g.statuses.dom());
    assert(b.statuses =~= st1);
    assert(b.picked =~= (if p.contains(k) { a.picked.insert(k, l[k]) } else { a.picked }));
    assert(b.mv_picked =~= (if p.contains(k) { a.mv_picked.insert(k, l[k]) } else { a.mv_picked }));
    assert(b.dropped =~= (if d.contains(k) { a.dropped.insert(k, l[k]) } else { a.dropped }));
    assert(b.mv_dropped =~= (if d.contains(k) { a.mv_dropped.insert(k, l[k]) } else { a.mv_dropped }));
    assert(b.carried =~= (if d.contains(k) {
        (if p.contains(k) { a.carried.insert(k, l[k]) } else { a.carried }).remove(k)
    } else if p.contains(k) {
        a.carried.insert(k, l[k])
    } else {
        a.carried
    }));
    assert(l.remove_keys(dk2) =~= (if d.contains(k) { l.remove_keys(dk).remove(k) } else { l.remove_keys(dk) }));
    assert(b.loads =~= (if d.contains(k) { a.loads.update(h, a.loads[h].remove(k)) } else { a.loads }));
}

/// The carrying train `h` handles its packages at `curr` on the way to `next`, in
/// name order: it picks up those that start at `curr`, and drops off those in
/// transit that end at `next`. `false` when one of its packages has no status.
fn handle_carrier(
    tr_collection: &mut TrainCollection,
    h: usize,
    tracker: &mut PackageTracker,
    tr_movement: &mut TrainMovement,
    loggerize: &mut Logger,
    curr: &String,
    next: &String,
    Ghost(g1): Ghost<Ledger>,
) -> (r: bool)
    requires
        old(tr_collection).wf(),
        h < old(tr_collection)@.len(),
        old(tracker).wf(),
        old(tr_movement).wf(),
        old(loggerize).wf(),
        g1.loads.len() == old(tr_collection)@.len(),
        forall|j: int| 0 <= j < old(tr_collection)@.len() ==> (#[trigger] old(tr_collection)@[j])@.loaded == g1.loads[j],
        g1.picked == old(loggerize).picked(),
        g1.dropped == old(loggerize).dropped(),
        g1.statuses == old(tracker).statuses(),
        g1.mv_picked == old(tr_movement)@.picked,
        g1.mv_dropped == old(tr_movement)@.dropped,
        g1.carried == old(tr_movement)@.carriages,
    ensures
        final(tr_collection).wf(),
        final(tracker).wf(),
        final(tr_movement).wf(),
        final(loggerize).wf(),
        final(tr_collection)@.len() == old(tr_collection)@.len(),
        forall|j: int| 0 <= j < old(tr_collection)@.len() ==> same_frame(#[trigger] final(tr_collection)@[j]@, old(tr_collection)@[j]@)
            && same_place(final(tr_collection)@[j]@, old(tr_collection)@[j]@),
        forall|j: int, key: Seq<char>| 0 <= j < old(tr_collection)@.len() && #[trigger] final(tr_collection)@[j]@.loaded.contains_key(key)
            ==> old(tr_collection)@[j]@.loaded.contains_key(key) && final(tr_collection)@[j]@.loaded[key] == old(tr_collection)@[j]@.loaded[key],
        final(tracker).statuses().dom() == old(tracker).statuses().dom(),
        final(tr_movement)@.time == old(tr_movement)@.time,
        final(tr_movement)@.train == old(tr_movement)@.train,
        final(tr_movement)@.from == old(tr_movement)@.from,
        final(tr_movement)@.to == old(tr_movement)@.to,
        r == !(exists|key: Seq<char>| #[trigger] g1.loads[h as int].contains_key(key) && !g1.statuses.contains_key(key)),
        r ==> ({
            let b = handle_loads_upto(g1, h as int, curr@, next@, g1.loads[h as int].dom());
            &&& forall|j: int| 0 <= j < old(tr_collection)@.len() ==> (#[trigger] final(tr_collection)@[j])@.loaded == b.loads[j]
            &&& final(loggerize).picked() == b.picked
            &&& final(loggerize).dropped() == b.dropped
            &&& final(tracker).statuses() == b.statuses
            &&& final(tr_movement)@.picked == b.mv_picked
            &&& final(tr_movement)@.dropped == b.mv_dropped
            &&& final(tr_movement)@.carriages == b.carried
        }),
{
    let ghost tc1 = tr_collection@;
    let ghost l = g1.loads[h as int];
    let ghost order = tc1[h as int].loaded_order();
    let ghost mv0 = tr_movement@;
    let loaded = tr_collection.loaded_copy(h);
    let m = loaded.len();
    proof {
        assert(tc1[h as int].wf());
        tc1[h as int].lemma_loaded_order();
        tc1[h as int].lemma_keyed();
        assert(tc1[h as int]@.loaded == l);
        let e = Set::new(|key: Seq<char>| order.subrange(0, 0).contains(key));
        let hl = handle_loads_upto(g1, h as int, curr@, next@, e);
        assert(e =~= Set::empty());
        let pp = picks_at(l, g1.picked, curr@);
        let dd = drops_at(l, in_transit(g1.statuses, pp), g1.dropped, next@);
        assert(pp.intersect(e) =~= Set::empty());
        assert(dd.intersect(e) =~= Set::empty());
        assert(l.remove_keys(dd.intersect(e)) =~= l);
        assert(hl.loads =~= g1.loads);
        assert(hl.picked =~= g1.picked);
        assert(hl.dropped =~= g1.dropped);
        assert(hl.statuses =~= g1.statuses);
        assert(hl.mv_picked =~= g1.mv_picked);
        assert(hl.mv_dropped =~= g1.mv_dropped);
        assert(hl.carried =~= g1.carried);
    }
    let mut q: usize = 0;
    while q < m
        invariant
            m == loaded@.len(),
            m == order.len(),
            q <= m,
            h < tr_collection@.len(),
            tc1 == old(tr_collection)@,
            g1.statuses == old(tracker).statuses(),
            mv0 == old(tr_movement)@,
            tc1.len() == tr_collection@.len(),
            g1.loads.len() == tc1.len(),
            l == g1.loads[h as int],
            crate::textmap::strictly_sorted(order),
            forall|key: Seq<char>| #[trigger] order.contains(key) == l.contains_key(key),
            forall|q2: int| 0 <= q2 < m ==> l.contains_key(order[q2]) && l[order[q2]] == #[trigger] loaded@[q2],
            crate::train::keyed(l),
            tracker.wf(),
            tr_movement.wf(),
            loggerize.wf(),
            tr_collection.wf(),
            forall|j: int| 0 <= j < tc1.len() ==> same_frame(#[trigger] tr_collection@[j]@, tc1[j]@)
                && same_place(tr_collection@[j]@, tc1[j]@),
            forall|j: int, key: Seq<char>| 0 <= j < tc1.len() && #[trigger] tr_collection@[j]@.loaded.contains_key(key)
                ==> tc1[j]@.loaded.contains_key(key) && tr_collection@[j]@.loaded[key] == tc1[j]@.loaded[key],
            forall|j: int| 0 <= j < tc1.len() ==> (#[trigger] tc1[j])@.loaded == g1.loads[j],
            tracker.statuses().dom() == g1.statuses.dom(),
            tr_movement@.time == mv0.time,
            tr_movement@.train == mv0.train,
            tr_movement@.from == mv0.from,
            tr_movement@.to == mv0.to,
            ({
                let a = handle_loads_upto(g1, h as int, curr@, next@,
                    Set::new(|key: Seq<char>| order.subrange(0, q as int).contains(key)));
                &&& forall|j: int| 0 <= j < tc1.len() ==> (#[trigger] tr_collection@[j])@.loaded == a.loads[j]
                &&& loggerize.picked() == a.picked
                &&& loggerize.dropped() == a.dropped
                &&& tracker.statuses() == a.statuses
                &&& tr_movement@.picked == a.mv_picked
                &&& tr_movement@.dropped == a.mv_dropped
                &&& tr_movement@.carriages == a.carried
            }),
            forall|q2: int| 0 <= q2 < q ==> g1.statuses.contains_key(#[trigger] order[q2]),
        decreases m - q,
    {
        let lp = &loaded[q];
        let ghost key = order[q as int];
        let ghost done = Set::new(|x: Seq<char>| order.subrange(0, q as int).contains(x));
        let ghost q1 = (q + 1) as int;
        let ghost done2 = Set::new(|x: Seq<char>| order.subrange(0, q1).contains(x));
        proof {
            assert(l.contains_key(key));
            assert(lp@.name == key);
            assert(!done.contains(key)) by {
                if done.contains(key) {
                    let j = choose|j: int| 0 <= j < q && order.subrange(0, q as int)[j] == key;
                    assert(order[j] == key);
                    crate::text::lemma_text_lt_irreflexive(key);
                }
            }
            assert(done2 =~= done.insert(key)) by {
                assert forall|x: Seq<char>| #[trigger] done2.contains(x) == done.insert(key).contains(x) by {
                    if order.subrange(0, q as int).contains(x) {
                        let j = choose|j: int| 0 <= j < q && order.subrange(0, q as int)[j] == x;
                        assert(order.subrange(0, q1)[j] == x);
                    }
                    if x == key {
                        assert(order.subrange(0, q1)[q as int] == x);
                    }
                    if order.subrange(0, q1).contains(x) {
                        let j = choose|j: int| 0 <= j < q1 && order.subrange(0, q1)[j] == x;
                        if j < q {
                            assert(order.subrange(0, q as int)[j] == x);
                        }
                    }
                }
            }
        }
        if tracker.get_status(lp).is_none() {
            proof {
                assert(!g1.statuses.contains_key(key));
                assert(g1.loads[h as int].contains_key(key));
            }
            return false;
        }
        proof {
            lemma_handle_step(g1, h as int, curr@, next@, done, key);
        }
        let ghost tcb0 = tr_collection@;
        if text_eq(lp.from().as_str(), curr.as_str()) && !loggerize.already_picked(lp) {
            tr_movement.with_picked_pkage_btree(lp.clone());
            loggerize.push_picked(lp.clone());
            let ghost before = tracker.statuses();
            match tracker.update_status(lp, PackageStatus::InTransit) {
                Ok(_) => {},
                Err(_) => {
                    return false;
                },
            }
        }
        match tracker.get_status(lp) {
            None => {
                return false;
            },
            Some(stt) => {
                if stt == PackageStatus::InTransit {
                    if text_eq(lp.to().as_str(), next.as_str()) && !loggerize.already_dropped(lp) {
                        tr_movement.with_drop_pkage_btree(lp.clone());
                        loggerize.push_dropped(lp.clone());
                        tr_collection.take_from(h, lp);
                    }
                }
            },
        }
        proof {
            let b = handle_loads_upto(g1, h as int, curr@, next@, done2);
            assert forall|j: int| 0 <= j < tc1.len() implies (#[trigger] tr_collection@[j])@.loaded == b.loads[j] by {
                if j != h {
                    assert(tr_collection@[j] == tcb0[j]);
                }
            }
            assert(tracker.statuses() =~= b.statuses);
            assert(tr_movement@.picked =~= b.mv_picked);
            assert(tr_movement@.dropped =~= b.mv_dropped);
            assert(tr_movement@.carriages =~= b.carried);
            assert(loggerize.picked() =~= b.picked);
            assert(loggerize.dropped() =~= b.dropped);
            assert(tracker.statuses().dom() =~= g1.statuses.dom());
            assert forall|j: int| 0 <= j < tc1.len() implies same_frame(#[trigger] tr_collection@[j]@, tc1[j]@)
                && same_place(tr_collection@[j]@, tc1[j]@) by {
                assert(same_place(tcb0[j]@, tc1[j]@));
            }
            assert forall|j: int, key2: Seq<char>| 0 <= j < tc1.len() && #[trigger] tr_collection@[j]@.loaded.contains_key(key2)
                implies tc1[j]@.loaded.contains_key(key2) && tr_collection@[j]@.loaded[key2] == tc1[j]@.loaded[key2] by {
                assert(tcb0[j]@.loaded.contains_key(key2));
            }
        }
        q = q + 1;
    }
    proof {
        let all = Set::new(|x: Seq<char>| order.subrange(0, m as int).contains(x));
        assert(order.subrange(0, m as int) =~= order);
        assert(all =~= l.dom());
        assert forall|key: Seq<char>| #[trigger] g1.loads[h as int].contains_key(key) implies g1.statuses.contains_key(key) by {
            assert(order.contains(key));
            let j = choose|j: int| 0 <= j < order.len() && order[j] == key;
            assert(g1.statuses.contains_key(order[j]));
        }
    }
    true
}

proof fn lemma_line_fits(line: Seq<char>, h: HopRecord, p: Seq<Seq<char>>, d: Seq<Seq<char>>)
    requires
        movement_line(h.time, h.train, h.from, h.to, p, d) == line,
        strictly_sorted(p),
        strictly_sorted(d),
        p.to_set() == h.picked,
        d.to_set() == h.dropped,
    ensures
        line_fits(line, h),
{
}

/// Train `ti` goes from `curr` to `next`: the movement record takes the hop's
/// time (the timeline's time for `curr` plus its time for the train), the train
/// and both stations; the train moves and adds the distance to its time and to
/// the timeline; the line of the movement is returned. `None` when a time would
/// pass `u32::MAX`.
fn take_hop(
    tr_collection: &mut TrainCollection,
    tr_movement: &mut TrainMovement,
    timeline: &mut Timeline,
    dist_map: &DistanceMap,
    ti: usize,
    curr: &String,
    next: &String,
) -> (r: Option<String>)
    requires
        old(tr_collection).wf(),
        ti < old(tr_collection)@.len(),
        old(tr_movement).wf(),
        old(timeline).wf(),
        dist_map.wf(),
    ensures
        final(tr_collection).wf(),
        final(tr_movement).wf(),
        final(timeline).wf(),
        final(tr_collection)@.len() == old(tr_collection)@.len(),
        forall|j: int| 0 <= j < old(tr_collection)@.len() ==> same_frame(#[trigger] final(tr_collection)@[j]@, old(tr_collection)@[j]@)
            && final(tr_collection)@[j]@.loaded == old(tr_collection)@[j]@.loaded,
        forall|j: int| 0 <= j < old(tr_collection)@.len() && j != ti ==> #[trigger] final(tr_collection)@[j] == old(tr_collection)@[j],
        ({
            let name = old(tr_collection)@[ti as int]@.name;
            let w0 = old(timeline).time_of(curr@) + old(timeline).time_of(name);
            let d = pair_distance(dist_map@, curr@, next@);
            let t0 = old(tr_collection)@[ti as int]@.time;
            &&& r is None <==> (w0 > u32::MAX || t0 + d > u32::MAX || old(timeline).time_of(name) + d > u32::MAX)
            &&& r matches Some(line) ==> {
                &&& final(tr_collection)@[ti as int]@.current == next@
                &&& final(tr_collection)@[ti as int]@.time == t0 + d
                &&& final(timeline)@ == old(timeline)@.insert(name, (old(timeline).time_of(name) + d) as u32)
                &&& final(tr_movement)@ == (MovementInfo { time: w0 as u32, train: name, from: curr@, to: next@, ..old(tr_movement)@ })
                &&& line@ == movement_line(w0 as u32, name, curr@, next@, old(tr_movement).picked_order(), old(tr_movement).dropped_order())
            }
        }),
{
    tr_movement.with_time(timeline.get_time(curr.as_str()));
    tr_movement.with_from(curr.clone());
    tr_movement.with_to(next.clone());
    tr_collection.relocate(ti, next.clone());
    let tname = tr_collection.train_name(ti).clone();
    tr_movement.with_train(tname.clone());
    let tl = timeline.get_time(tname.as_str());
    if tr_movement.time().checked_add(tl).is_none() {
        return None;
    }
    tr_movement.plus_time(tl);
    let distance = dist_map.distance(curr.as_str(), next.as_str());
    let train_time = tr_collection.get_train(ti).unwrap().time();
    if train_time.checked_add(distance).is_none() {
        return None;
    }
    tr_collection.add_time(ti, distance);
    if timeline.get_time(tname.as_str()).checked_add(distance).is_none() {
        return None;
    }
    timeline.accumulate_time(tname.as_str(), distance);
    Some(tr_movement.to_string())
}

/// The results of the hops before, put in front of the result of the hops after.
pub open spec fn glue(
    before: Seq<(Set<Seq<char>>, Set<Seq<char>>)>,
    after: Result<(Ledger, Seq<(Set<Seq<char>>, Set<Seq<char>>)>), RouteError>,
) -> Result<(Ledger, Seq<(Set<Seq<char>>, Set<Seq<char>>)>), RouteError> {
    match after {
        Ok(res) => Ok((res.0, before + res.1)),
        Err(e) => Err(e),
    }
}

/// Move a train from the candidate's station towards `where_to`, one neighbour
/// at a time, picking up and dropping off packages on the way; each hop is
/// recorded in `tr_movement` and its line is returned, in order.
///
/// The train that moves is the first, among those at the candidate's station with
/// more room than the package weighs, with the least travelled time.
#[verifier::rlimit(100)]
pub fn advance_train(
    stats_collection: &StationCollection,
    tr_collection: &mut TrainCollection,
    package: &mut Package,
    graph: Graph,
    pkg_collection: &PackageCollection,
    pkg_tracker: PackageTracker,
    tr_movement: &mut TrainMovement,
    timeline: &mut Timeline,
    dist_map: &mut DistanceMap,
    where_to: &String,
    loggerize: &mut Logger,
    candidate: &Train,
) -> (r: Result<Vec<String>, RouteError>)
    requires
        old(tr_collection).wf(),
        graph.wf(),
        pkg_collection.wf(),
        pkg_tracker.wf(),
        old(tr_movement).wf(),
        old(timeline).wf(),
        old(dist_map).wf(),
        old(loggerize).wf(),
    ensures
        final(tr_collection).wf(),
        final(tr_movement).wf(),
        final(timeline).wf(),
        final(loggerize).wf(),
        *final(dist_map) == *old(dist_map),
        *final(package) == *old(package),
        final(tr_collection)@.len() == old(tr_collection)@.len(),
        forall|j: int| 0 <= j < old(tr_collection)@.len() ==> same_frame(#[trigger] final(tr_collection)@[j]@, old(tr_collection)@[j]@),
        !stats_collection@.contains(candidate@.current) ==> r == Err::<Vec<String>, RouteError>(RouteError::UnknownStation),
        stats_collection@.contains(candidate@.current) && !graph@.contains_key(candidate@.current)
            ==> r == Err::<Vec<String>, RouteError>(RouteError::NoNeighbours),
        stats_collection@.contains(candidate@.current) && graph@.contains_key(candidate@.current)
            && (forall|j: int| 0 <= j < old(tr_collection)@.len() ==> !(old(tr_collection)@[j]@.current == candidate@.current
                && old(tr_collection)@[j]@.remain_capacity > old(package)@.weight))
            ==> r == Err::<Vec<String>, RouteError>(RouteError::NoTrain),
        r matches Ok(lines) ==> lines@.len() < stats_collection@.len(),
        all_tracked(pkg_collection.items(), infos(old(tr_collection)@), pkg_tracker.statuses())
            ==> loads_tracked(infos(final(tr_collection)@), pkg_tracker.statuses()),
        r == Err::<Vec<String>, RouteError>(RouteError::Untracked)
            ==> !all_tracked(pkg_collection.items(), infos(old(tr_collection)@), pkg_tracker.statuses()),
        ({
            let pre = World {
                trains: infos(old(tr_collection)@),
                tl: old(timeline)@,
                picked: old(loggerize).picked(),
                dropped: old(loggerize).dropped(),
                mv: old(tr_movement)@,
            };
            let post = World {
                trains: infos(final(tr_collection)@),
                tl: final(timeline)@,
                picked: final(loggerize).picked(),
                dropped: final(loggerize).dropped(),
                mv: final(tr_movement)@,
            };
            match advance_spec(pre, pkg_collection.items(), pkg_tracker.statuses(), stats_collection@, graph@, old(dist_map)@,
                where_to@, candidate@.current, old(package)@) {
                Ok(res) => {
                    &&& r is Ok
                    &&& r matches Ok(lines) && lines@.len() == res.1.len()
                        && forall|k: int| 0 <= k < lines@.len() ==> line_fits(#[trigger] lines@[k]@, res.1[k])
                    &&& post == res.0
                },
                Err(e) => r == Err::<Vec<String>, RouteError>(e),
            }
        }),
{
    let n_st = stats_collection.count();
    let ghost st = stats_collection@;
    let ghost g = graph@;
    let ghost w = where_to@;
    let ghost dm = dist_map@;
    let ghost tl0 = timeline@;
    let ghost items = pkg_collection.items();
    let ghost s0 = pkg_tracker.statuses();
    let ghost t_old = *old(tr_collection);
    let ghost known = all_tracked(items, infos(t_old@), s0);
    let ghost pname = package@.name;
    let ghost caps = Seq::new(t_old@.len(), |j: int| t_old@[j]@.capacity);
    let ghost g0 = Ledger {
        loads: Seq::new(t_old@.len(), |j: int| t_old@[j]@.loaded),
        picked: loggerize.picked(),
        dropped: loggerize.dropped(),
        statuses: s0,
        mv_picked: tr_movement@.picked,
        mv_dropped: tr_movement@.dropped,
        carried: tr_movement@.carriages,
    };
    let cand_index = match stats_collection.get_station_index(candidate.current_index()) {
        Some(i) => i,
        None => {
            return Err(RouteError::UnknownStation);
        },
    };
    proof {
        lemma_first_pos(st, candidate@.current);
    }
    let mut next_station = match step_toward(&graph, cand_index, stats_collection, where_to) {
        Ok(s) => s,
        Err(e) => {
            return Err(e);
        },
    };
    let mut current_idx = cand_index;
    let train_index = match tr_collection.find_index_of_train_with_least_time(candidate.current_index(), package) {
        Some(i) => i,
        None => {
            proof {
                let ts = infos(t_old@);
                let sel = Seq::new(ts.len(), |j: int| ts[j].current == candidate@.current && ts[j].remain_capacity > package@.weight);
                assert forall|j: int| 0 <= j < ts.len() implies !#[trigger] sel[j] by {
                    assert(ts[j] == t_old@[j]@);
                }
            }
            return Err(RouteError::NoTrain);
        },
    };
    let ghost sel = t_old.picks(|t: TrainInfo| t.current == candidate@.current && t.remain_capacity > package@.weight);
    proof {
        lemma_least_pick(t_old.times(), sel, train_index as int);
    }
    let ghost name = t_old@[train_index as int]@.name;
    let ghost tm0 = t_old@[train_index as int]@.time;
    let ghost chosen = train_index as int;
    let mut visited: Vec<bool> = Vec::new();
    let mut k: usize = 0;
    while k < n_st
        invariant
            k <= n_st,
            visited@.len() == k,
            forall|q: int| 0 <= q < k ==> !#[trigger] visited@[q],
            count_true(visited@) == 0,
        decreases n_st - k,
    {
        let ghost before = visited@;
        visited.push(false);
        assert(visited@.drop_last() =~= before);
        k = k + 1;
    }
    proof {
        lemma_count_set(visited@, current_idx as int);
    }
    visited.set(current_idx, true);
    let ghost c0 = cand_index as int;
    let ghost vis0 = visited@;
    let ghost walked = walk(g, st, w, c0, vis0, (n_st - 1) as nat);
    let ghost n = walked.0.len() as int;
    let ghost pf = seq![st[c0]] + walked.0;
    let ghost mut hs: Seq<Seq<char>> = Seq::empty();
    let ghost mut gl = g0;
    let ghost mut sets: Seq<(Set<Seq<char>>, Set<Seq<char>>)> = Seq::empty();
    proof {
        assert(vis0 =~= Seq::new(st.len(), |q: int| q == c0));
        assert(walked.0 =~= hs + walked.0);
        assert(st[c0] == candidate@.current);
        let r0 = run_hops(items, caps, tl0, dm, pf, name, tm0, g0, chosen, pname, 0, n, walked.1);
        assert(r0 == glue(sets, r0)) by {
            match r0 {
                Ok(res) => {
                    assert(sets + res.1 =~= res.1);
                },
                Err(e) => {},
            }
        }
    }
    let ghost pre = World {
        trains: infos(t_old@),
        tl: tl0,
        picked: g0.picked,
        dropped: g0.dropped,
        mv: old(tr_movement)@,
    };
    let ghost spec_res = advance_spec(pre, items, s0, st, g, dm, w, candidate@.current, package@);
    proof {
        let ts = infos(t_old@);
        let sel = Seq::new(ts.len(), |j: int| ts[j].current == candidate@.current && ts[j].remain_capacity > package@.weight);
        assert(sel =~= t_old.picks(|t: TrainInfo| t.current == candidate@.current && t.remain_capacity > package@.weight));
        assert(Seq::new(ts.len(), |j: int| ts[j].time) =~= t_old.times());
        assert(Seq::new(ts.len(), |j: int| ts[j].capacity) =~= caps);
        assert(Seq::new(ts.len(), |j: int| ts[j].loaded) =~= g0.loads);
        assert(sel[chosen]);
        assert(ts[chosen] == t_old@[chosen]@);
        assert(seq![candidate@.current] + walked.0 == pf);
        assert(spec_res == (match run_hops(items, caps, tl0, dm, pf, name, tm0, g0, chosen, pname, 0, n, walked.1) {
            Err(e) => Err(e),
            Ok(res) => Ok((moved_world(pre, dm, w, pf, chosen, n, res), hop_records(tl0, dm, pf, name, n, res.1))),
        }));
    }
    let mut steps: usize = 1;
    let mut tracker = pkg_tracker.copy();
    let mut lines: Vec<String> = Vec::new();
    while !text_eq(where_to.as_str(), stats_collection.station_at(current_idx).as_str())
        invariant
            n_st == stats_collection@.len(),
            st == stats_collection@,
            g == graph@,
            w == where_to@,
            dm == dist_map@,
            items == pkg_collection.items(),
            current_idx < n_st,
            visited@.len() == n_st,
            visited@[current_idx as int],
            steps == count_true(visited@),
            lines@.len() + 1 == steps,
            graph.wf(),
            pkg_collection.wf(),
            tracker.wf(),
            tr_movement.wf(),
            timeline.wf(),
            loggerize.wf(),
            dist_map.wf(),
            *dist_map == *old(dist_map),
            *package == *old(package),
            pname == package@.name,
            t_old == *old(tr_collection),
            first_least(
                t_old.times(),
                t_old.picks(|t: TrainInfo| t.current == candidate@.current && t.remain_capacity > package@.weight),
                chosen,
            ),
            chosen == train_index,
            tr_collection.wf(),
            tr_collection@.len() == t_old@.len(),
            train_index < tr_collection@.len(),
            forall|j: int| 0 <= j < t_old@.len() ==> same_frame(#[trigger] tr_collection@[j]@, t_old@[j]@),
            tr_collection@[train_index as int]@.current == stats_collection@[current_idx as int],
            stats_collection@.contains(candidate@.current),
            graph@.contains_key(candidate@.current),
            0 <= c0 < n_st,
            st[c0] == candidate@.current,
            name == t_old@[train_index as int]@.name,
            tm0 == t_old@[train_index as int]@.time,
            caps == Seq::new(t_old@.len(), |j: int| t_old@[j]@.capacity),
            walked == walk(g, st, w, c0, vis0, (n_st - 1) as nat),
            n == walked.0.len(),
            pf == seq![st[c0]] + walked.0,
            hs.len() <= n,
            pf[hs.len() as int] == st[current_idx as int],
            walked.0 == hs + walk(g, st, w, current_idx as int, visited@, (n_st - steps) as nat).0,
            walked.1 == walk(g, st, w, current_idx as int, visited@, (n_st - steps) as nat).1,
            graph@.contains_key(st[current_idx as int]),
            next_station@ == next_on_way(g, st, w, st[current_idx as int]),
            lines@.len() == hs.len(),
            sets.len() == hs.len(),
            forall|q: int| 0 <= q < hs.len() ==> line_fits(#[trigger] lines@[q]@, hop_record(tl0, dm, pf, name, q, sets[q])),
            forall|q: int| 0 <= q < hs.len() ==> !#[trigger] hop_overflows(tl0, dm, pf, name, tm0, q),
            run_hops(items, caps, tl0, dm, pf, name, tm0, g0, chosen, pname, 0, n, walked.1)
                == glue(sets, run_hops(items, caps, tl0, dm, pf, name, tm0, gl, chosen, pname, hs.len() as int, n, walked.1)),
            gl.loads.len() == t_old@.len(),
            forall|j: int| 0 <= j < t_old@.len() ==> (#[trigger] tr_collection@[j])@.loaded == gl.loads[j],
            gl.picked == loggerize.picked(),
            gl.dropped == loggerize.dropped(),
            gl.statuses == tracker.statuses(),
            gl.mv_picked == tr_movement@.picked,
            gl.mv_dropped == tr_movement@.dropped,
            gl.carried == tr_movement@.carriages,
            hs.len() == 0 ==> tr_movement@ == old(tr_movement)@,
            hs.len() > 0 ==> {
                &&& tr_movement@.time == hop_time(tl0, dm, pf, name, hs.len() - 1) as u32
                &&& tr_movement@.train == name
                &&& tr_movement@.from == pf[hs.len() - 1]
                &&& tr_movement@.to == pf[hs.len() as int]
            },
            tr_collection@[train_index as int]@.time == tm0 + hop_sum(dm, pf, hs.len() as int),
            forall|j: int| 0 <= j < t_old@.len() && j != train_index ==> same_place(#[trigger] tr_collection@[j]@, t_old@[j]@),
            timeline@ == (if hs.len() == 0 { tl0 } else {
                tl0.insert(name, (clock(tl0, name) + hop_sum(dm, pf, hs.len() as int)) as u32)
            }),
            tl0 == old(timeline)@,
            tracker.statuses().dom() == s0.dom(),
            known == all_tracked(items, infos(t_old@), s0),
            known ==> all_tracked(items, infos(tr_collection@), tracker.statuses()),
            s0 == pkg_tracker.statuses(),
            g0 == (Ledger {
                loads: Seq::new(t_old@.len(), |j: int| t_old@[j]@.loaded),
                picked: old(loggerize).picked(),
                dropped: old(loggerize).dropped(),
                statuses: s0,
                mv_picked: old(tr_movement)@.picked,
                mv_dropped: old(tr_movement)@.dropped,
                carried: old(tr_movement)@.carriages,
            }),
            c0 == first_pos(st, candidate@.current),
            vis0 == Seq::new(n_st as nat, |q: int| q == c0),
            least_pick(t_old.times(), t_old.picks(|t: TrainInfo| t.current == candidate@.current && t.remain_capacity > package@.weight)) == train_index,
            pre == (World { trains: infos(t_old@), tl: tl0, picked: g0.picked, dropped: g0.dropped, mv: old(tr_movement)@ }),
            spec_res == advance_spec(pre, items, s0, st, g, dm, w, candidate@.current, package@),
            spec_res == (match run_hops(items, caps, tl0, dm, pf, name, tm0, g0, chosen, pname, 0, n, walked.1) {
                Err(e) => Err(e),
                Ok(res) => Ok((moved_world(pre, dm, w, pf, chosen, n, res), hop_records(tl0, dm, pf, name, n, res.1))),
            }),
        decreases n_st - steps,
    {
        proof { lemma_count_le(visited@); }
        let ghost kk = hs.len() as int;
        let ghost rest_now = walk(g, st, w, current_idx as int, visited@, (n_st - steps) as nat);
        proof {
            assert(rest_now.0.len() >= 1);
            assert(rest_now.0[0] == next_station@);
            assert(kk < n);
            assert(pf[kk + 1] == walked.0[kk]);
            assert(walked.0[kk] == rest_now.0[0]);
            assert(pf[kk + 1] == next_station@);
            assert(caps[chosen] == tr_collection@[train_index as int]@.capacity);
        }
        let cap = tr_collection.get_train(train_index).unwrap().capacity();
        if !all_pickable_tracked(pkg_collection, cap, &tracker, &next_station) {
            proof {
                if known {
                    assert(pickable_tracked(items, cap, tracker.statuses(), next_station@));
                }
                assert(hop_ledger(items, caps, gl, chosen, pname, pf[kk], pf[kk + 1]) is None);
            }
            return Err(RouteError::Untracked);
        }
        let mut pkgs_copy = pkg_collection.clone_collection();
        let tracker_copy = tracker.copy();
        let ghost tc0 = tr_collection@;
        try_pick_package(tr_collection, &mut pkgs_copy, tracker_copy, train_index, next_station.clone());
        let ghost pred = |p: Package| picked_here(p, caps[chosen], gl.statuses, pf[kk + 1]);
        let ghost loads1 = gl.loads.update(chosen, insert_all(gl.loads[chosen], items.filter(pred)));
        let ghost g1 = Ledger { loads: loads1, ..gl };
        proof {
            assert forall|j: int| 0 <= j < t_old@.len() implies (#[trigger] tr_collection@[j])@.loaded == loads1[j] by {
                if j != chosen {
                    assert(tr_collection@[j] == tc0[j]);
                }
            }
            if known {
                assert forall|j: int, key: Seq<char>| 0 <= j < infos(tr_collection@).len()
                    && #[trigger] infos(tr_collection@)[j].loaded.contains_key(key)
                    implies tracker.statuses().contains_key(infos(tr_collection@)[j].loaded[key]@.name) by {
                    if j == train_index {
                        let m0 = tc0[j]@.loaded;
                        lemma_insert_all_values(m0, items.filter(pred), key);
                        let v = insert_all(m0, items.filter(pred))[key];
                        if items.filter(pred).contains(v) {
                            items.lemma_filter_contains_rev(pred, v);
                            let i = choose|i: int| 0 <= i < items.len() && items[i] == v;
                            assert(tracker.statuses().contains_key(items[i]@.name));
                        } else {
                            assert(infos(tc0)[j].loaded.contains_key(key));
                        }
                    } else {
                        assert(tr_collection@[j] == tc0[j]);
                        assert(infos(tc0)[j].loaded.contains_key(key));
                    }
                }
            }
        }
        let curr_station = stats_collection.station_at(current_idx).clone();
        let ghost tc1 = tr_collection@;
        let ghost mut g2 = g1;
        match tr_collection.carrier_of(package) {
            Some(h) => {
                proof {
                    assert(first_carrier(loads1, pname, h as int)) by {
                        assert forall|i: int| 0 <= i < h implies !(#[trigger] loads1[i]).contains_key(pname) by {
                            assert(tc1[i]@.loaded == loads1[i]);
                        }
                        assert(tc1[h as int]@.loaded == loads1[h as int]);
                    }
                    lemma_carrier(loads1, pname, h as int);
                    assert(hop_ledger(items, caps, gl, chosen, pname, pf[kk], pf[kk + 1]) == (
                        if exists|key: Seq<char>| #[trigger] loads1[h as int].contains_key(key) && !gl.statuses.contains_key(key) {
                            None
                        } else {
                            Some(handle_loads_upto(g1, h as int, pf[kk], pf[kk + 1], loads1[h as int].dom()))
                        }));
                }
                let ok = handle_carrier(tr_collection, h, &mut tracker, tr_movement, loggerize, &curr_station, &next_station, Ghost(g1));
                proof {
                    if known {
                        assert forall|j: int, key2: Seq<char>| 0 <= j < infos(tr_collection@).len()
                            && #[trigger] infos(tr_collection@)[j].loaded.contains_key(key2)
                            implies tracker.statuses().contains_key(infos(tr_collection@)[j].loaded[key2]@.name) by {
                            assert(infos(tc1)[j].loaded.contains_key(key2));
                        }
                    }
                }
                if !ok {
                    proof {
                        if known {
                            let key = choose|key: Seq<char>| #[trigger] loads1[h as int].contains_key(key) && !g1.statuses.contains_key(key);
                            assert(tc1[h as int].wf());
                            tc1[h as int].lemma_keyed();
                            assert(infos(tc1)[h as int].loaded.contains_key(key));
                            assert(tc1[h as int]@.loaded[key]@.name == key);
                        }
                    }
                    return Err(RouteError::Untracked);
                }
                proof {
                    g2 = handle_loads_upto(g1, h as int, curr_station@, next_station@, loads1[h as int].dom());
                }
            },
            None => {
                proof {
                    if exists|j: int| first_carrier(loads1, pname, j) {
                        let j = choose|j: int| first_carrier(loads1, pname, j);
                        assert(tc1[j]@.loaded == loads1[j]);
                        assert(false);
                    }
                    assert(hop_ledger(items, caps, gl, chosen, pname, pf[kk], pf[kk + 1]) == Some(g1));
                }
            },
        }
        proof {
            assert(hop_ledger(items, caps, gl, chosen, pname, pf[kk], pf[kk + 1]) == Some(g2));
            assert(pf[kk] == curr_station@);
            lemma_hop_sum_nonneg(dm, pf, kk);
            assert(tr_collection@[train_index as int]@.time == tm0 + hop_sum(dm, pf, kk)) by {
                assert(same_place(tr_collection@[train_index as int]@, tc1[train_index as int]@));
            }
            if kk > 0 {
                assert(!hop_overflows(tl0, dm, pf, name, tm0, kk - 1));
                assert(clock(tl0, name) + hop_sum(dm, pf, kk) <= u32::MAX);
                let v = (clock(tl0, name) + hop_sum(dm, pf, kk)) as u32;
                assert(v == clock(tl0, name) + hop_sum(dm, pf, kk));
                assert(timeline@ == tl0.insert(name, v));
                assert(timeline.time_of(name) == v);
                if curr_station@ != name {
                    assert(timeline.time_of(curr_station@) == clock(tl0, curr_station@));
                }
            } else {
                assert(timeline@ == tl0);
            }
            assert(timeline.time_of(curr_station@) == clock_at(tl0, dm, pf, name, kk, curr_station@));
            assert(timeline.time_of(name) == clock_at(tl0, dm, pf, name, kk, name));
        }
        let next_index = stats_collection.get_station_index(next_station.as_str());
        let ghost tc2 = tr_collection@;
        let ghost mv2 = tr_movement@;
        proof {
            tr_movement.lemma_orders_sorted();
        }
        let ghost po = tr_movement.picked_order();
        let ghost dor = tr_movement.dropped_order();
        let hop = take_hop(tr_collection, tr_movement, timeline, dist_map, train_index, &curr_station, &next_station);
        proof {
            assert(hop_sum(dm, pf, kk + 1) == hop_sum(dm, pf, kk) + pair_distance(dm, pf[kk], pf[kk + 1]));
            assert forall|j: int| 0 <= j < t_old@.len() && j != train_index implies same_place(#[trigger] tr_collection@[j]@, t_old@[j]@) by {
                assert(same_place(tc1[j]@, t_old@[j]@));
                assert(same_place(tc2[j]@, tc1[j]@));
            }
            if known {
                lemma_loads_same(infos(tc2), infos(tr_collection@), tracker.statuses());
            }
        }
        let line = match hop {
            Some(l) => l,
            None => {
                proof {
                    assert(hop_overflows(tl0, dm, pf, name, tm0, kk));
                }
                return Err(RouteError::TimeOverflow);
            },
        };
        let ghost mark = (g2.mv_picked.dom(), g2.mv_dropped.dom());
        proof {
            assert(!hop_overflows(tl0, dm, pf, name, tm0, kk));
            assert(timeline@ =~= tl0.insert(name, (clock(tl0, name) + hop_sum(dm, pf, kk + 1)) as u32));
            assert(mv2.picked.dom() == mark.0);
            assert(mv2.dropped.dom() == mark.1);
            lemma_line_fits(line@, hop_record(tl0, dm, pf, name, kk, mark), po, dor);
        }
        lines.push(line);
        let ghost ci_old = current_idx as int;
        let ghost fuel_old = (n_st - steps) as nat;
        let ghost g3 = Ledger { mv_picked: Map::empty(), mv_dropped: Map::empty(), ..g2 };
        proof {
            let after = run_hops(items, caps, tl0, dm, pf, name, tm0, g3, chosen, pname, kk + 1, n, walked.1);
            assert(run_hops(items, caps, tl0, dm, pf, name, tm0, gl, chosen, pname, kk, n, walked.1) == glue(seq![mark], after));
            assert(glue(sets, glue(seq![mark], after)) == glue(sets.push(mark), after)) by {
                match after {
                    Ok(res) => {
                        assert(sets + (seq![mark] + res.1) =~= sets.push(mark) + res.1);
                    },
                    Err(e) => {},
                }
            }
        }
        current_idx = match next_index {
            Some(i) => i,
            None => {
                proof {
                    assert(walk(g, st, w, ci_old, visited@, fuel_old).1 == Some(RouteError::UnknownStation));
                    assert(walked.0 =~= hs.push(pf[kk + 1]));
                }
                return Err(RouteError::UnknownStation);
            },
        };
        proof {
            assert(stats_collection@[current_idx as int] == next_station@);
        }
        if visited[current_idx] {
            proof {
                assert(walk(g, st, w, ci_old, visited@, fuel_old).1 == Some(RouteError::Cycle));
                assert(walked.0 =~= hs.push(pf[kk + 1]));
            }
            return Err(RouteError::Cycle);
        }
        let ghost vis_before = visited@;
        proof {
            lemma_count_set(visited@, current_idx as int);
        }
        visited.set(current_idx, true);
        proof {
            lemma_count_le(visited@);
        }
        steps = steps + 1;
        next_station = match step_toward(&graph, current_idx, stats_collection, where_to) {
            Ok(s) => s,
            Err(e) => {
                proof {
                    assert(walk(g, st, w, ci_old, vis_before, fuel_old).1 == Some(RouteError::NoNeighbours));
                    assert(walked.0 =~= hs.push(pf[kk + 1]));
                }
                return Err(e);
            },
        };
        tr_movement.clear_marks();
        proof {
            let rest = walk(g, st, w, current_idx as int, visited@, (n_st - steps) as nat);
            assert(walk(g, st, w, ci_old, vis_before, fuel_old) == (seq![pf[kk + 1]] + rest.0, rest.1));
            hs = hs.push(pf[kk + 1]);
            sets = sets.push(mark);
            gl = g3;
            assert(walked.0 =~= hs + rest.0);
            assert(tr_movement@.picked =~= gl.mv_picked);
            assert(tr_movement@.dropped =~= gl.mv_dropped);
            if known {
                assert forall|j: int, key: Seq<char>| 0 <= j < infos(tr_collection@).len()
                    && #[trigger] infos(tr_collection@)[j].loaded.contains_key(key)
                    implies tracker.statuses().contains_key(infos(tr_collection@)[j].loaded[key]@.name) by {
                    assert(tr_collection@[j]@.loaded == tc2[j]@.loaded);
                    assert(infos(tc2)[j].loaded.contains_key(key));
                }
            }
        }
    }
    proof {
        lemma_count_le(visited@);
        assert(walked.0 =~= hs);
        assert(run_hops(items, caps, tl0, dm, pf, name, tm0, gl, chosen, pname, hs.len() as int, n, walked.1) == Ok::<(Ledger, Seq<(Set<Seq<char>>, Set<Seq<char>>)>), RouteError>((gl, Seq::empty())));
        assert(sets + Seq::<(Set<Seq<char>>, Set<Seq<char>>)>::empty() =~= sets);
        let res = (gl, sets);
        let mw = moved_world(pre, dm, w, pf, chosen, n, res);
        let recs = hop_records(tl0, dm, pf, name, n, sets);
        assert(spec_res == Ok::<(World, Seq<HopRecord>), RouteError>((mw, recs)));
        assert forall|k: int| 0 <= k < lines@.len() implies line_fits(#[trigger] lines@[k]@, recs[k]) by {
            assert(recs[k] == hop_record(tl0, dm, pf, name, k, sets[k]));
        }
        assert forall|j: int| 0 <= j < t_old@.len() implies #[trigger] infos(tr_collection@)[j] == mw.trains[j] by {
            assert(infos(tr_collection@)[j] == tr_collection@[j]@);
            assert(same_frame(tr_collection@[j]@, t_old@[j]@));
            if j != chosen {
                assert(same_place(tr_collection@[j]@, t_old@[j]@));
            }
        }
        assert(infos(tr_collection@) =~= mw.trains);
        assert(tr_movement@.picked =~= mw.mv.picked || n == 0);
        if n > 0 {
            assert(tr_movement@ == mw.mv);
        }
    }
    Ok(lines)
}

/// The trains after package `p` is put on board every train named `name`.
pub open spec fn with_carriage(ts: Seq<TrainInfo>, name: Seq<char>, p: Package) -> Seq<TrainInfo> {
    Seq::new(ts.len(), |j: int| if ts[j].name == name {
        TrainInfo { loaded: ts[j].loaded.insert(p@.name, p), ..ts[j] }
    } else {
        ts[j]
    })
}

/// `j` is the first train that holds `p` (standing at its pickup station with it on board).
pub open spec fn first_holder(ts: Seq<TrainInfo>, p: PackageInfo, j: int) -> bool {
    &&& 0 <= j < ts.len()
    &&& TrainCollection::holds(ts[j], p)
    &&& forall|i: int| 0 <= i < j ==> !TrainCollection::holds(#[trigger] ts[i], p)
}

/// The first train that holds `p`, if any.
pub open spec fn holder(ts: Seq<TrainInfo>, p: PackageInfo) -> Option<int> {
    if exists|j: int| first_holder(ts, p, j) {
        Some(choose|j: int| first_holder(ts, p, j))
    } else {
        None
    }
}

proof fn lemma_holder(ts: Seq<TrainInfo>, p: PackageInfo, j: int)
    requires
        first_holder(ts, p, j),
    ensures
        holder(ts, p) == Some(j),
{
    let c = choose|c: int| first_holder(ts, p, c);
    assert(first_holder(ts, p, c));
    if c < j {
        assert(!TrainCollection::holds(ts[c], p));
    } else if j < c {
        assert(!TrainCollection::holds(ts[j], p));
    }
}

/// The records of the hops before, put in front of the outcome of the rest.
pub open spec fn glue_records(
    before: Seq<HopRecord>,
    after: Result<(World, Seq<HopRecord>), RouteError>,
) -> Result<(World, Seq<HopRecord>), RouteError> {
    match after {
        Ok(res) => Ok((res.0, before + res.1)),
        Err(e) => Err(e),
    }
}

/// The search from state `wd`, with the packages `items` still to deliver (in
/// name order), the statuses `statuses`, and `fetched` telling whether the best
/// train was already sent for the first package: the state at the end and the
/// records of every hop, or the error that stops the search.
///
/// For the first package: its pickup station must be known, and so must the
/// station of every train that can take it; the best train (`best_scan`) is
/// found. A package awaiting pickup is loaded when that train stands at its
/// pickup station, and that train is sent there otherwise (once). A package in
/// transit is carried by the train that holds it to its destination, marked
/// delivered and dropped from the list.
pub open spec fn search(
    wd: World,
    items: Seq<Package>,
    statuses: Map<Seq<char>, PackageStatus>,
    fetched: bool,
    st: Seq<Seq<char>>,
    g: Map<Seq<char>, Seq<Seq<char>>>,
    dm: Map<(Seq<char>, Seq<char>), u32>,
) -> Result<(World, Seq<HopRecord>), RouteError>
    decreases 2 * items.len() + (if fetched { 0int } else { 1int }), 1int,
{
    if items.len() == 0 {
        Ok((wd, Seq::empty()))
    } else {
        let p = items[0];
        if !st.contains(p@.from) || !takers_placed(wd.trains, p@.weight, st) {
            Err(RouteError::UnknownStation)
        } else {
            match best_scan(wd.trains, p@.weight, pos32(st, p@.from), st).0 {
                None => Err(RouteError::NoTrain),
                Some(b) => {
                    let cand = wd.trains[b];
                    if !statuses.contains_key(p@.name) {
                        Err(RouteError::Untracked)
                    } else {
                        let status = statuses[p@.name];
                        if status == PackageStatus::AwaitingPickup && p@.from == cand.current {
                            let w1 = World { trains: with_carriage(wd.trains, cand.name, p), ..wd };
                            search_carry(w1, Seq::empty(), items, statuses.insert(p@.name, PackageStatus::InTransit), st, g, dm)
                        } else if status == PackageStatus::AwaitingPickup {
                            if fetched {
                                Err(RouteError::Stalled)
                            } else {
                                match advance_spec(wd, items, statuses, st, g, dm, p@.from, cand.current, p@) {
                                    Err(e) => Err(e),
                                    Ok(res) => glue_records(res.1, search(res.0, items, statuses, true, st, g, dm)),
                                }
                            }
                        } else if status == PackageStatus::InTransit {
                            search_carry(wd, Seq::empty(), items, statuses, st, g, dm)
                        } else {
                            Err(RouteError::Stalled)
                        }
                    }
                },
            }
        }
    }
}

/// The first package, in transit, is carried by the train that holds it to its
/// destination and marked delivered; the search goes on with the rest. `before`
/// are the records of the hops made for it so far.
pub open spec fn search_carry(
    wd: World,
    before: Seq<HopRecord>,
    items: Seq<Package>,
    statuses: Map<Seq<char>, PackageStatus>,
    st: Seq<Seq<char>>,
    g: Map<Seq<char>, Seq<Seq<char>>>,
    dm: Map<(Seq<char>, Seq<char>), u32>,
) -> Result<(World, Seq<HopRecord>), RouteError>
    decreases 2 * items.len(), 0int,
{
    if items.len() == 0 {
        Ok((wd, before))
    } else {
        let p = items[0];
        match holder(wd.trains, p@) {
            None => Err(RouteError::NotOnBoard),
            Some(h) => match advance_spec(wd, items, statuses, st, g, dm, p@.to, wd.trains[h].current, p@) {
                Err(e) => Err(e),
                Ok(res) => glue_records(before + res.1,
                    search(res.0, items.drop_first(), statuses.insert(p@.name, PackageStatus::Delivered), false, st, g, dm)),
            },
        }
    }
}

/// Whether every train that can take a package of weight `w` stands at a known station.
fn takers_known(tr_collection: &TrainCollection, w: u32, stats: &StationCollection) -> (r: bool)
    ensures
        r == takers_placed(infos(tr_collection@), w, stats@),
{
    let ghost ts = infos(tr_collection@);
    let n = tr_collection.len();
    let mut i: usize = 0;
    while i < n
        invariant
            n == ts.len(),
            ts == infos(tr_collection@),
            i <= n,
            forall|j: int| 0 <= j < i && can_take(#[trigger] ts[j], w) ==> stats@.contains(ts[j].current),
        decreases n - i,
    {
        let t = tr_collection.get_train(i).unwrap();
        assert(t@ == ts[i as int]);
        if t.remain_capacity() >= w && stats.get_station_index(t.current_index()).is_none() {
            return false;
        }
        i = i + 1;
    }
    true
}

/// Deliver every package of the collection, first by name first: send the best
/// train to fetch it, load it, carry it to its destination, and mark it delivered.
/// The lines of all the movements are returned, in order.
#[verifier::rlimit(100)]
pub fn start_searching(
    pkg_collection: &mut PackageCollection,
    tr_collection: &mut TrainCollection,
    stats_collection: &StationCollection,
    graph: Graph,
    tr_movement: &mut TrainMovement,
    dist_map: &mut DistanceMap,
    timeline: &mut Timeline,
    pkg_tracker: PackageTracker,
    loggerize: &mut Logger,
) -> (r: Result<Vec<String>, RouteError>)
    requires
        old(pkg_collection).wf(),
        old(tr_collection).wf(),
        graph.wf(),
        old(tr_movement).wf(),
        old(dist_map).wf(),
        old(timeline).wf(),
        pkg_tracker.wf(),
        old(loggerize).wf(),
    ensures
        final(pkg_collection).wf(),
        final(tr_collection).wf(),
        final(tr_movement).wf(),
        final(timeline).wf(),
        final(loggerize).wf(),
        *final(dist_map) == *old(dist_map),
        final(tr_collection)@.len() == old(tr_collection)@.len(),
        forall|j: int| 0 <= j < old(tr_collection)@.len() ==> same_frame(#[trigger] final(tr_collection)@[j]@, old(tr_collection)@[j]@),
        final(pkg_collection)@.dom().subset_of(old(pkg_collection)@.dom()),
        final(pkg_collection)@.submap_of(old(pkg_collection)@),
        forall|a: Seq<char>, b: Seq<char>|
            #![trigger old(pkg_collection)@.contains_key(a), final(pkg_collection)@.contains_key(b)]
            old(pkg_collection)@.contains_key(a) && !final(pkg_collection)@.contains_key(a)
            && final(pkg_collection)@.contains_key(b) ==> text_lt(a, b),
        r is Ok ==> final(pkg_collection)@ == Map::<Seq<char>, Package>::empty(),
        ({
            let pre = World {
                trains: infos(old(tr_collection)@),
                tl: old(timeline)@,
                picked: old(loggerize).picked(),
                dropped: old(loggerize).dropped(),
                mv: old(tr_movement)@,
            };
            let post = World {
                trains: infos(final(tr_collection)@),
                tl: final(timeline)@,
                picked: final(loggerize).picked(),
                dropped: final(loggerize).dropped(),
                mv: final(tr_movement)@,
            };
            match search(pre, old(pkg_collection).items(), pkg_tracker.statuses(), false, stats_collection@, graph@, old(dist_map)@) {
                Ok(res) => {
                    &&& r is Ok
                    &&& r matches Ok(lines) && lines@.len() == res.1.len()
                        && forall|k: int| 0 <= k < lines@.len() ==> line_fits(#[trigger] lines@[k]@, res.1[k])
                    &&& post == res.0
                },
                Err(e) => r == Err::<Vec<String>, RouteError>(e),
            }
        }),
{
    let mut tracker = pkg_tracker.copy();
    let mut lines: Vec<String> = Vec::new();
    let mut fetched = false;
    let ghost t_old = *old(tr_collection);
    let ghost p_old = old(pkg_collection)@;
    let ghost s0 = pkg_tracker.statuses();
    let ghost st = stats_collection@;
    let ghost g = graph@;
    let ghost dm = dist_map@;
    let ghost pre = World {
        trains: infos(t_old@),
        tl: timeline@,
        picked: loggerize.picked(),
        dropped: loggerize.dropped(),
        mv: tr_movement@,
    };
    let ghost spec0 = search(pre, pkg_collection.items(), s0, false, st, g, dm);
    let ghost mut recs: Seq<HopRecord> = Seq::empty();
    proof {
        assert(spec0 == glue_records(recs, spec0)) by {
            match spec0 {
                Ok(res) => {
                    assert(recs + res.1 =~= res.1);
                },
                Err(e) => {},
            }
        }
    }
    while !pkg_collection.is_empty()
        invariant
            pkg_collection.wf(),
            tr_collection.wf(),
            graph.wf(),
            tr_movement.wf(),
            dist_map.wf(),
            timeline.wf(),
            tracker.wf(),
            loggerize.wf(),
            *dist_map == *old(dist_map),
            t_old == *old(tr_collection),
            tr_collection@.len() == t_old@.len(),
            forall|j: int| 0 <= j < t_old@.len() ==> same_frame(#[trigger] tr_collection@[j]@, t_old@[j]@),
            pkg_collection@.dom().subset_of(old(pkg_collection)@.dom()),
            p_old == old(pkg_collection)@,
            pkg_collection@.submap_of(p_old),
            forall|a: Seq<char>, b: Seq<char>|
                #![trigger p_old.contains_key(a), pkg_collection@.contains_key(b)]
                p_old.contains_key(a) && !pkg_collection@.contains_key(a)
                && pkg_collection@.contains_key(b) ==> text_lt(a, b),
            s0 == pkg_tracker.statuses(),
            st == stats_collection@,
            g == graph@,
            dm == dist_map@,
            pre == (World {
                trains: infos(t_old@),
                tl: old(timeline)@,
                picked: old(loggerize).picked(),
                dropped: old(loggerize).dropped(),
                mv: old(tr_movement)@,
            }),
            spec0 == search(pre, old(pkg_collection).items(), s0, false, st, g, dm),
            spec0 == glue_records(recs, search(
                World {
                    trains: infos(tr_collection@),
                    tl: timeline@,
                    picked: loggerize.picked(),
                    dropped: loggerize.dropped(),
                    mv: tr_movement@,
                },
                pkg_collection.items(),
                tracker.statuses(),
                fetched,
                st,
                g,
                dm,
            )),
            lines@.len() == recs.len(),
            forall|k: int| 0 <= k < recs.len() ==> line_fits(#[trigger] lines@[k]@, recs[k]),
        decreases 2 * pkg_collection.key_order().len() + (if fetched { 0int } else { 1int }),
    {
        let ghost cur = World {
            trains: infos(tr_collection@),
            tl: timeline@,
            picked: loggerize.picked(),
            dropped: loggerize.dropped(),
            mv: tr_movement@,
        };
        let ghost items = pkg_collection.items();
        let ghost sts = tracker.statuses();
        let ghost spec_cur = search(cur, items, sts, fetched, st, g, dm);
        proof {
            pkg_collection.lemma_order();
        }
        let package = match pkg_collection.first() {
            Some((_, p)) => p.clone(),
            None => {
                return Ok(lines);
            },
        };
        let ghost len0 = pkg_collection.key_order().len();
        let ghost key0 = pkg_collection.key_order()[0];
        proof {
            assert(items.len() > 0);
            assert(items[0] == package);
            assert(p_old.contains_key(key0) && p_old[key0] == package);
        }
        if stats_collection.get_station_index(package.from().as_str()).is_none() {
            return Err(RouteError::UnknownStation);
        }
        if !takers_known(tr_collection, package.weight(), stats_collection) {
            return Err(RouteError::UnknownStation);
        }
        let best = match find_best_train(tr_collection, &package, stats_collection) {
            Some(i) => i,
            None => {
                return Err(RouteError::NoTrain);
            },
        };
        proof {
            best_train_is_nearest(infos(tr_collection@), package@.weight, pos32(stats_collection@, package@.from), stats_collection@);
        }
        let candidate = tr_collection.train_copy(best);
        proof {
            assert(candidate@ == cur.trains[best as int]);
        }
        let status = match tracker.get_status(&package) {
            Some(s) => s,
            None => {
                return Err(RouteError::Untracked);
            },
        };
        let ghost mut adv: Seq<HopRecord> = Seq::empty();
        if status == PackageStatus::AwaitingPickup {
            if text_eq(package.from().as_str(), candidate.current_index()) {
                let ghost tcp = tr_collection@;
                tr_collection.push_train_carriage(&candidate, &package);
                match tracker.update_status(&package, PackageStatus::InTransit) {
                    Ok(_) => {},
                    Err(_) => {
                        return Err(RouteError::Untracked);
                    },
                }
                proof {
                    assert(infos(tr_collection@) =~= with_carriage(cur.trains, candidate@.name, package));
                    assert(spec_cur == search_carry(
                        World { trains: infos(tr_collection@), ..cur }, Seq::empty(), items, tracker.statuses(), st, g, dm));
                }
            } else {
                if fetched {
                    return Err(RouteError::Stalled);
                }
                let mut pc = package.clone();
                let ghost tracker_statuses = tracker.statuses();
                let more = advance_train(
                    stats_collection,
                    tr_collection,
                    &mut pc,
                    graph.copy(),
                    pkg_collection,
                    tracker.copy(),
                    tr_movement,
                    timeline,
                    dist_map,
                    package.from(),
                    loggerize,
                    &candidate,
                );
                match more {
                    Ok(mut ls) => {
                        let ghost lsv = ls@;
                        let ghost before_lines = lines@;
                        lines.append(&mut ls);
                        proof {
                            let res = advance_spec(cur, items, sts, st, g, dm, package@.from, candidate@.current, package@)->Ok_0;
                            adv = res.1;
                            assert(lines@ == before_lines + lsv);
                            assert forall|k: int| 0 <= k < recs.len() + adv.len() implies line_fits(#[trigger] lines@[k]@, (recs + adv)[k]) by {
                                if k < recs.len() {
                                    assert(lines@[k] == before_lines[k]);
                                } else {
                                    assert(lines@[k] == lsv[k - recs.len()]);
                                }
                            }
                            assert(spec_cur == glue_records(adv, search(
                                World { trains: infos(tr_collection@), tl: timeline@, picked: loggerize.picked(), dropped: loggerize.dropped(), mv: tr_movement@ },
                                items, sts, true, st, g, dm)));
                        }
                    },
                    Err(e) => {
                        return Err(e);
                    },
                }
                fetched = true;
            }
        } else if status == PackageStatus::InTransit {
            proof {
                assert(spec_cur == search_carry(cur, Seq::empty(), items, sts, st, g, dm));
            }
        }
        let status2 = match tracker.get_status(&package) {
            Some(s) => s,
            None => {
                return Err(RouteError::Untracked);
            },
        };
        if status2 == PackageStatus::InTransit {
            let ghost now = World {
                trains: infos(tr_collection@),
                tl: timeline@,
                picked: loggerize.picked(),
                dropped: loggerize.dropped(),
                mv: tr_movement@,
            };
            let ghost sts2 = tracker.statuses();
            proof {
                assert(spec_cur == search_carry(now, Seq::empty(), items, sts2, st, g, dm));
            }
            let h = match tr_collection.holder_of(&package) {
                Some(h) => h,
                None => {
                    proof {
                        if exists|j: int| first_holder(now.trains, package@, j) {
                            let j = choose|j: int| first_holder(now.trains, package@, j);
                            assert(TrainCollection::holds(tr_collection@[j]@, package@));
                        }
                    }
                    return Err(RouteError::NotOnBoard);
                },
            };
            proof {
                assert(first_holder(now.trains, package@, h as int)) by {
                    assert forall|i: int| 0 <= i < h implies !TrainCollection::holds(#[trigger] now.trains[i], package@) by {
                        assert(now.trains[i] == tr_collection@[i]@);
                    }
                }
                lemma_holder(now.trains, package@, h as int);
            }
            let holder_train = tr_collection.train_copy(h);
            let mut pc = package.clone();
            let more = advance_train(
                stats_collection,
                tr_collection,
                &mut pc,
                graph.copy(),
                pkg_collection,
                tracker.copy(),
                tr_movement,
                timeline,
                dist_map,
                package.to(),
                loggerize,
                &holder_train,
            );
            let ghost adv2: Seq<HopRecord>;
            match more {
                Ok(mut ls) => {
                    let ghost lsv = ls@;
                    let ghost before_lines = lines@;
                    lines.append(&mut ls);
                    proof {
                        let res = advance_spec(now, items, sts2, st, g, dm, package@.to, now.trains[h as int].current, package@)->Ok_0;
                        adv2 = res.1;
                        assert(lines@ == before_lines + lsv);
                        assert forall|k: int| 0 <= k < recs.len() + adv2.len() implies line_fits(#[trigger] lines@[k]@, (recs + adv2)[k]) by {
                            if k < recs.len() {
                                assert(lines@[k] == before_lines[k]);
                            } else {
                                assert(lines@[k] == lsv[k - recs.len()]);
                            }
                        }
                    }
                },
                Err(e) => {
                    return Err(e);
                },
            }
            match tracker.update_status(&package, PackageStatus::Delivered) {
                Ok(_) => {},
                Err(_) => {
                    return Err(RouteError::Untracked);
                },
            }
            let ghost pc_before = *pkg_collection;
            proof {
                crate::package::first_is_least(pc_before);
            }
            pkg_collection.remove_first();
            proof {
                assert(pkg_collection@.dom().subset_of(old(pkg_collection)@.dom()));
                let after = search(
                    World { trains: infos(tr_collection@), tl: timeline@, picked: loggerize.picked(), dropped: loggerize.dropped(), mv: tr_movement@ },
                    pkg_collection.items(), tracker.statuses(), false, st, g, dm);
                assert(spec_cur == glue_records(adv2, after));
                assert(glue_records(recs, glue_records(adv2, after)) == glue_records(recs + adv2, after)) by {
                    match after {
                        Ok(res) => {
                            assert(recs + (adv2 + res.1) =~= recs + adv2 + res.1);
                        },
                        Err(e) => {},
                    }
                }
                recs = recs + adv2;
            }
            fetched = false;
        } else if status != PackageStatus::AwaitingPickup {
            return Err(RouteError::Stalled);
        } else {
            proof {
                let after = search(
                    World { trains: infos(tr_collection@), tl: timeline@, picked: loggerize.picked(), dropped: loggerize.dropped(), mv: tr_movement@ },
                    pkg_collection.items(), tracker.statuses(), fetched, st, g, dm);
                assert(spec_cur == glue_records(adv, after));
                assert(glue_records(recs, glue_records(adv, after)) == glue_records(recs + adv, after)) by {
                    match after {
                        Ok(res) => {
                            assert(recs + (adv + res.1) =~= recs + adv + res.1);
                        },
                        Err(e) => {},
                    }
                }
                recs = recs + adv;
            }
        }
    }
    proof {
        pkg_collection.lemma_order();
        assert(pkg_collection.items().len() == 0);
        assert(recs + Seq::<HopRecord>::empty() =~= recs);
    }
    Ok(lines)
}
} // verus!
