//! The time each train has travelled, and the record of one train movement.
use vstd::prelude::*;
use crate::textmap::TextMap;
use crate::package::Package;
use crate::train::{first_least, insert_all};
use crate::digits::{decimal, u32_text};

verus! {

/// The keys of `ks` whose values in `vs` are below `t`, in order.
pub open spec fn keys_below(ks: Seq<Seq<char>>, vs: Seq<u32>, t: u32) -> Seq<Seq<char>>
    decreases ks.len(),
{
    if ks.len() == 0 || vs.len() == 0 {
        Seq::empty()
    } else {
        let rest = keys_below(ks.drop_last(), vs.drop_last(), t);
        if vs.last() < t {
            rest.push(ks.last())
        } else {
            rest
        }
    }
}

/// Travelled time per train, walked in train-name order.
#[derive(Debug)]
pub struct Timeline {
    times: TextMap<u32>,
}

impl View for Timeline {
    type V = Map<Seq<char>, u32>;

    closed spec fn view(&self) -> Map<Seq<char>, u32> {
        self.times@
    }
}

impl Timeline {
    pub closed spec fn wf(&self) -> bool {
        self.times.wf()
    }

    /// The train names in the order the timeline is walked.
    pub closed spec fn key_order(&self) -> Seq<Seq<char>> {
        self.times.key_seq()
    }

    /// The times in the order the timeline is walked.
    pub closed spec fn time_order(&self) -> Seq<u32> {
        self.times.val_seq()
    }

    /// The time of a train, 0 when it has none.
    pub open spec fn time_of(&self, train: Seq<char>) -> u32 {
        if self@.contains_key(train) { self@[train] } else { 0 }
    }

    /// The walking order lists the map.
    pub proof fn lemma_order(&self)
        requires
            self.wf(),
        ensures
            self.key_order().len() == self.time_order().len(),
            crate::textmap::strictly_sorted(self.key_order()),
            forall|i: int| 0 <= i < self.key_order().len() ==> #[trigger] self@.contains_key(self.key_order()[i])
                && self@[self.key_order()[i]] == self.time_order()[i],
            forall|k: Seq<char>| #[trigger] self@.contains_key(k) ==> self.key_order().contains(k),
    {
        assert forall|i: int| 0 <= i < self.key_order().len() implies #[trigger] self@.contains_key(self.key_order()[i])
            && self@[self.key_order()[i]] == self.time_order()[i] by {
            self.times.lemma_entry(i);
        }
        assert forall|k: Seq<char>| #[trigger] self@.contains_key(k) implies self.key_order().contains(k) by {
            self.times.lemma_key_position(k);
        }
    }

    pub fn new() -> (r: Self)
        ensures
            r.wf(),
            r@ == Map::<Seq<char>, u32>::empty(),
    {
        Self { times: TextMap::new() }
    }

    pub fn insert(&mut self, train: String, time: u32)
        requires
            old(self).wf(),
        ensures
            final(self).wf(),
            final(self)@ == old(self)@.insert(train@, time),
    {
        self.times.insert(train, time);
    }

    pub fn get_time(&self, train: &str) -> (r: u32)
        requires
            self.wf(),
        ensures
            r == self.time_of(train@),
    {
        match self.times.get(train) {
            Some(t) => *t,
            None => 0,
        }
    }

    pub fn is_traveled_less(&self, cur: &str, candidate: &str) -> (r: bool)
        requires
            self.wf(),
        ensures
            r == (self.time_of(cur@) < self.time_of(candidate@)),
    {
        self.get_time(cur) < self.get_time(candidate)
    }

    /// Set the time of a train that has one; a train with none is left out.
    pub fn modify_time(&mut self, train: &str, new_time: u32)
        requires
            old(self).wf(),
        ensures
            final(self).wf(),
            old(self)@.contains_key(train@) ==> final(self)@ == old(self)@.insert(train@, new_time),
            !old(self)@.contains_key(train@) ==> final(self)@ == old(self)@,
    {
        match self.times.position(train) {
            Some(i) => {
                let t = self.times.value_at_mut(i);
                *t = new_time;
                proof {
                    old(self).times.lemma_update_view(&self.times, i as int);
                }
            },
            None => {},
        }
    }

    /// The first entry, in name order, with the least time.
    pub fn find_least_timeline(&self) -> (r: Option<(&String, &u32)>)
        requires
            self.wf(),
        ensures
            r is Some <==> self.key_order().len() > 0,
            r is Some ==> exists|i: int| first_least(self.time_order(), Seq::new(self.time_order().len(), |j: int| true), i)
                && (r->0).0@ == self.key_order()[i] && *(r->0).1 == self.time_order()[i],
            r is None ==> self@ == Map::<Seq<char>, u32>::empty(),
            r matches Some((name, time)) ==> self@.contains_key(name@) && self@[name@] == *time
                && forall|k: Seq<char>| #[trigger] self@.contains_key(k) ==> *time <= self@[k],
    {
        let n = self.times.len();
        if n == 0 {
            assert(self@ =~= Map::<Seq<char>, u32>::empty());
            return None;
        }
        let ghost all = Seq::new(self.time_order().len(), |j: int| true);
        let mut best: usize = 0;
        let mut i: usize = 1;
        while i < n
            invariant
                n == self.time_order().len(),
                n == self.key_order().len(),
                self.wf(),
                all == Seq::new(self.time_order().len(), |j: int| true),
                1 <= i <= n,
                best < i,
                forall|j: int| 0 <= j < i ==> self.time_order()[best as int] <= #[trigger] self.time_order()[j],
                forall|j: int| 0 <= j < best ==> self.time_order()[best as int] < #[trigger] self.time_order()[j],
            decreases n - i,
        {
            if *self.times.value_at(i) < *self.times.value_at(best) {
                best = i;
            }
            i = i + 1;
        }
        assert(first_least(self.time_order(), all, best as int));
        proof {
            self.times.lemma_entry(best as int);
            assert forall|k: Seq<char>| #[trigger] self@.contains_key(k) implies self.time_order()[best as int] <= self@[k] by {
                self.times.lemma_key_position(k);
                let j = self.key_order().index_of(k);
                self.times.lemma_entry(j);
                assert(all[j]);
            }
        }
        Some((self.times.key_at(best), self.times.value_at(best)))
    }

    /// Add time to a train, starting it at that time when it has none.
    pub fn accumulate_time(&mut self, train: &str, additional_time: u32)
        requires
            old(self).wf(),
            old(self).time_of(train@) + additional_time <= u32::MAX,
        ensures
            final(self).wf(),
            final(self)@ == old(self)@.insert(train@, (old(self).time_of(train@) + additional_time) as u32),
    {
        match self.times.position(train) {
            Some(i) => {
                proof { self.times.lemma_entry(i as int); }
                let t = self.times.value_at_mut(i);
                *t = *t + additional_time;
                proof {
                    old(self).times.lemma_update_view(&self.times, i as int);
                }
            },
            None => {
                self.times.insert(train.to_string(), additional_time);
            },
        }
    }

    /// The trains whose time is below that of `train`, in name order.
    pub fn trains_with_less_time(&self, train: &str) -> (r: Vec<String>)
        requires
            self.wf(),
        ensures
            r@.map_values(|s: String| s@) == keys_below(self.key_order(), self.time_order(), self.time_of(train@)),
    {
        let t = self.get_time(train);
        let n = self.times.len();
        let mut out: Vec<String> = Vec::new();
        let mut i: usize = 0;
        while i < n
            invariant
                n == self.key_order().len(),
                self.wf(),
                i <= n,
                out@.map_values(|s: String| s@) == keys_below(
                    self.key_order().subrange(0, i as int),
                    self.time_order().subrange(0, i as int),
                    t,
                ),
            decreases n - i,
        {
            proof {
                assert(self.key_order().subrange(0, i + 1).drop_last() =~= self.key_order().subrange(0, i as int));
                assert(self.time_order().subrange(0, i + 1).drop_last() =~= self.time_order().subrange(0, i as int));
            }
            if *self.times.value_at(i) < t {
                let ghost before = out@;
                out.push(self.times.key_at(i).clone());
                assert(out@.map_values(|s: String| s@) =~= before.map_values(|s: String| s@).push(self.key_order()[i as int]));
            }
            i = i + 1;
        }
        assert(self.key_order().subrange(0, n as int) =~= self.key_order());
        assert(self.time_order().subrange(0, n as int) =~= self.time_order());
        out
    }
}

/// A time written for a train is the time read back for it, and every other
/// train keeps the time it had.
pub proof fn time_after_insert(before: Timeline, after: Timeline, train: Seq<char>, time: u32, other: Seq<char>)
    requires
        after@ == before@.insert(train, time),
    ensures
        after.time_of(train) == time,
        other != train ==> after.time_of(other) == before.time_of(other),
{
}

/// Adding travel time to a train raises its time by exactly that much (0 counts
/// for a train that had none), and every other train keeps its time.
pub proof fn time_after_accumulate(before: Timeline, after: Timeline, train: Seq<char>, extra: u32, other: Seq<char>)
    requires
        before.time_of(train) + extra <= u32::MAX,
        after@ == before@.insert(train, (before.time_of(train) + extra) as u32),
    ensures
        after.time_of(train) == before.time_of(train) + extra,
        other != train ==> after.time_of(other) == before.time_of(other),
{
}

proof fn lemma_keys_below(ks: Seq<Seq<char>>, vs: Seq<u32>, t: u32, x: Seq<char>)
    requires
        ks.len() == vs.len(),
    ensures
        keys_below(ks, vs, t).contains(x) <==> exists|i: int| 0 <= i < ks.len() && #[trigger] ks[i] == x && vs[i] < t,
    decreases ks.len(),
{
    if ks.len() > 0 {
        let (k0, v0) = (ks.drop_last(), vs.drop_last());
        lemma_keys_below(k0, v0, t, x);
        let rest = keys_below(k0, v0, t);
        if keys_below(ks, vs, t).contains(x) {
            let q = choose|q: int| 0 <= q < keys_below(ks, vs, t).len() && keys_below(ks, vs, t)[q] == x;
            if q < rest.len() {
                assert(rest[q] == x);
                let i = choose|i: int| 0 <= i < k0.len() && #[trigger] k0[i] == x && v0[i] < t;
                assert(ks[i] == x);
            } else {
                assert(ks[ks.len() - 1] == x);
            }
        }
        if exists|i: int| 0 <= i < ks.len() && #[trigger] ks[i] == x && vs[i] < t {
            let i = choose|i: int| 0 <= i < ks.len() && #[trigger] ks[i] == x && vs[i] < t;
            if i < ks.len() - 1 {
                assert(k0[i] == x);
                let q = choose|q: int| 0 <= q < rest.len() && rest[q] == x;
                if vs.last() < t {
                    assert(rest.push(ks.last())[q] == x);
                }
            } else {
                assert(rest.push(ks.last())[rest.len() as int] == x);
            }
        }
    }
}

/// The trains listed as having travelled less than `t` are exactly the trains
/// of the timeline whose time is below `t`.
pub proof fn less_time_lists_exactly(tl: Timeline, t: u32, x: Seq<char>)
    requires
        tl.wf(),
    ensures
        keys_below(tl.key_order(), tl.time_order(), t).contains(x) <==> (tl@.contains_key(x) && tl@[x] < t),
{
    tl.lemma_order();
    lemma_keys_below(tl.key_order(), tl.time_order(), t, x);
    if tl@.contains_key(x) {
        assert(tl.times.key_seq().contains(x));
        let i = tl.key_order().index_of(x);
        assert(tl.key_order()[i] == x);
    }
}

/// What a movement record holds, as plain values.
pub struct MovementInfo {
    pub time: u32,
    pub train: Seq<char>,
    pub from: Seq<char>,
    pub to: Seq<char>,
    pub picked: Map<Seq<char>, Package>,
    pub dropped: Map<Seq<char>, Package>,
    pub carriages: Map<Seq<char>, Package>,
}

/// `keys` joined with `sep` between them.
pub open spec fn join(keys: Seq<Seq<char>>, sep: Seq<char>) -> Seq<char>
    decreases keys.len(),
{
    if keys.len() == 0 {
        Seq::empty()
    } else if keys.len() == 1 {
        keys[0]
    } else {
        join(keys.drop_last(), sep) + sep + keys.last()
    }
}

/// The line of a movement: its time, train, both stations and the names of the
/// packages picked up and dropped off, each list joined with ", ".
pub open spec fn movement_line(
    time: u32,
    train: Seq<char>,
    from: Seq<char>,
    to: Seq<char>,
    picked: Seq<Seq<char>>,
    dropped: Seq<Seq<char>>,
) -> Seq<char> {
    "W="@ + decimal(time as nat) + ", "@ + "T="@ + train + ", "@ + "N1="@ + from + ", "@
        + "P1=["@ + join(picked, ", "@) + "]"@ + ", "@ + "N2="@ + to + ", "@
        + "P2=["@ + join(dropped, ", "@) + "]"@
}

/// One movement of a train: when it leaves, which train, from where to where, and
/// which packages it picks up and drops off.
#[derive(Debug, Clone)]
pub struct TrainMovement {
    time: u32,
    train: String,
    from: String,
    to: String,
    picked_pkgs: TextMap<Package>,
    drop_pkgs: TextMap<Package>,
    carriages: TextMap<Package>,
}

impl View for TrainMovement {
    type V = MovementInfo;

    closed spec fn view(&self) -> MovementInfo {
        MovementInfo {
            time: self.time,
            train: self.train@,
            from: self.from@,
            to: self.to@,
            picked: self.picked_pkgs@,
            dropped: self.drop_pkgs@,
            carriages: self.carriages@,
        }
    }
}

impl TrainMovement {
    pub closed spec fn wf(&self) -> bool {
        self.picked_pkgs.wf() && self.drop_pkgs.wf() && self.carriages.wf()
    }

    /// The names of the picked packages, in name order.
    pub closed spec fn picked_order(&self) -> Seq<Seq<char>> {
        self.picked_pkgs.key_seq()
    }

    /// The names of the dropped packages, in name order.
    pub closed spec fn dropped_order(&self) -> Seq<Seq<char>> {
        self.drop_pkgs.key_seq()
    }

    /// The line that describes this movement.
    pub open spec fn line(&self) -> Seq<char> {
        movement_line(self@.time, self@.train, self@.from, self@.to, self.picked_order(), self.dropped_order())
    }

    /// The picked and dropped names are listed in strictly increasing order, each
    /// list holding exactly the names marked.
    pub proof fn lemma_orders_sorted(&self)
        requires
            self.wf(),
        ensures
            crate::textmap::strictly_sorted(self.picked_order()),
            crate::textmap::strictly_sorted(self.dropped_order()),
            self.picked_order().to_set() == self@.picked.dom(),
            self.dropped_order().to_set() == self@.dropped.dom(),
    {
        assert(self.picked_order().to_set() =~= self@.picked.dom());
        assert(self.dropped_order().to_set() =~= self@.dropped.dom());
    }

    pub fn new() -> (r: Self)
        ensures
            r.wf(),
            r@ == (MovementInfo {
                time: 0,
                train: Seq::empty(),
                from: Seq::empty(),
                to: Seq::empty(),
                picked: Map::empty(),
                dropped: Map::empty(),
                carriages: Map::empty(),
            }),
    {
        let r = Self {
            time: 0,
            train: String::new(),
            from: String::new(),
            to: String::new(),
            picked_pkgs: TextMap::new(),
            drop_pkgs: TextMap::new(),
            carriages: TextMap::new(),
        };
        r
    }

    /// The departure time recorded so far.
    pub(crate) fn time(&self) -> (r: u32)
        ensures
            r == self@.time,
    {
        self.time
    }

    pub fn with_time(&mut self, time: u32)
        ensures
            final(self).wf() == old(self).wf(),
            final(self)@ == (MovementInfo { time, ..old(self)@ }),
            final(self).picked_order() == old(self).picked_order(),
            final(self).dropped_order() == old(self).dropped_order(),
    {
        self.time = time;
    }

    pub fn plus_time(&mut self, time: u32)
        requires
            old(self)@.time + time <= u32::MAX,
        ensures
            final(self).wf() == old(self).wf(),
            final(self)@ == (MovementInfo { time: (old(self)@.time + time) as u32, ..old(self)@ }),
            final(self).picked_order() == old(self).picked_order(),
            final(self).dropped_order() == old(self).dropped_order(),
    {
        self.time = self.time + time;
    }

    pub fn with_train(&mut self, train_name: String)
        ensures
            final(self).wf() == old(self).wf(),
            final(self)@ == (MovementInfo { train: train_name@, ..old(self)@ }),
            final(self).picked_order() == old(self).picked_order(),
            final(self).dropped_order() == old(self).dropped_order(),
    {
        self.train = train_name;
    }

    pub fn with_from(&mut self, from_index: String)
        ensures
            final(self).wf() == old(self).wf(),
            final(self)@ == (MovementInfo { from: from_index@, ..old(self)@ }),
            final(self).picked_order() == old(self).picked_order(),
            final(self).dropped_order() == old(self).dropped_order(),
    {
        self.from = from_index;
    }

    pub fn with_to(&mut self, to_index: String)
        ensures
            final(self).wf() == old(self).wf(),
            final(self)@ == (MovementInfo { to: to_index@, ..old(self)@ }),
            final(self).picked_order() == old(self).picked_order(),
            final(self).dropped_order() == old(self).dropped_order(),
    {
        self.to = to_index;
    }

    /// Record packages as picked up (and carried), each under its name.
    pub fn with_picked_pkgs(&mut self, picked: Vec<Package>)
        requires
            old(self).wf(),
        ensures
            final(self).wf(),
            final(self)@ == (MovementInfo {
                picked: insert_all(old(self)@.picked, picked@),
                carriages: insert_all(old(self)@.carriages, picked@),
                ..old(self)@
            }),
            final(self).dropped_order() == old(self).dropped_order(),
    {
        let n = picked.len();
        let mut i: usize = 0;
        while i < n
            invariant
                n == picked@.len(),
                i <= n,
                self.wf(),
                self@ == (MovementInfo {
                    picked: insert_all(old(self)@.picked, picked@.subrange(0, i as int)),
                    carriages: insert_all(old(self)@.carriages, picked@.subrange(0, i as int)),
                    ..old(self)@
                }),
                self.dropped_order() == old(self).dropped_order(),
            decreases n - i,
        {
            let pkg = &picked[i];
            self.picked_pkgs.insert(pkg.name().clone(), pkg.clone());
            self.carriages.insert(pkg.name().clone(), pkg.clone());
            proof {
                assert(picked@.subrange(0, i + 1).drop_last() =~= picked@.subrange(0, i as int));
            }
            i = i + 1;
        }
        assert(picked@.subrange(0, n as int) =~= picked@);
    }

    /// Record every entry of `picked` as picked up (and carried), under its key.
    pub fn with_picked_pkgs_btree(&mut self, picked: TextMap<Package>)
        requires
            old(self).wf(),
            picked.wf(),
        ensures
            final(self).wf(),
            final(self)@ == (MovementInfo {
                picked: old(self)@.picked.union_prefer_right(picked@),
                carriages: old(self)@.carriages.union_prefer_right(picked@),
                ..old(self)@
            }),
            final(self).dropped_order() == old(self).dropped_order(),
    {
        let n = picked.len();
        let mut i: usize = 0;
        proof {
            let e = Set::new(|k: Seq<char>| picked.key_seq().subrange(0, 0).contains(k));
            assert(e =~= Set::empty());
            assert(old(self)@.picked.union_prefer_right(picked@.restrict(e)) =~= old(self)@.picked);
            assert(old(self)@.carriages.union_prefer_right(picked@.restrict(e)) =~= old(self)@.carriages);
        }
        while i < n
            invariant
                n == picked.key_seq().len(),
                picked.wf(),
                i <= n,
                self.wf(),
                self@ == (MovementInfo {
                    picked: old(self)@.picked.union_prefer_right(picked@.restrict(
                        Set::new(|k: Seq<char>| picked.key_seq().subrange(0, i as int).contains(k)),
                    )),
                    carriages: old(self)@.carriages.union_prefer_right(picked@.restrict(
                        Set::new(|k: Seq<char>| picked.key_seq().subrange(0, i as int).contains(k)),
                    )),
                    ..old(self)@
                }),
                self.dropped_order() == old(self).dropped_order(),
            decreases n - i,
        {
            let key = picked.key_at(i);
            let pkg = picked.value_at(i);
            self.picked_pkgs.insert(key.clone(), pkg.clone());
            self.carriages.insert(key.clone(), pkg.clone());
            proof {
                picked.lemma_entry(i as int);
                lemma_prefix_grow(picked.key_seq(), i as int);
                let s0 = Set::new(|k: Seq<char>| picked.key_seq().subrange(0, i as int).contains(k));
                let s1 = Set::new(|k: Seq<char>| picked.key_seq().subrange(0, i + 1).contains(k));
                assert(old(self)@.picked.union_prefer_right(picked@.restrict(s1)) =~= old(self)@.picked.union_prefer_right(picked@.restrict(s0)).insert(key@, *pkg));
                assert(old(self)@.carriages.union_prefer_right(picked@.restrict(s1)) =~= old(self)@.carriages.union_prefer_right(picked@.restrict(s0)).insert(key@, *pkg));
            }
            i = i + 1;
        }
        proof {
            let s = Set::new(|k: Seq<char>| picked.key_seq().subrange(0, n as int).contains(k));
            assert(picked.key_seq().subrange(0, n as int) =~= picked.key_seq());
            assert(picked@.restrict(s) =~= picked@);
        }
    }

    /// Record a package as picked up (and carried).
    pub fn with_picked_pkage_btree(&mut self, picked: Package)
        requires
            old(self).wf(),
        ensures
            final(self).wf(),
            final(self)@ == (MovementInfo {
                picked: old(self)@.picked.insert(picked@.name, picked),
                carriages: old(self)@.carriages.insert(picked@.name, picked),
                ..old(self)@
            }),
            final(self).dropped_order() == old(self).dropped_order(),
    {
        self.picked_pkgs.insert(picked.name().clone(), picked.clone());
        self.carriages.insert(picked.name().clone(), picked);
    }

    /// Record a package as dropped off (and no longer carried).
    pub fn with_drop_pkage_btree(&mut self, picked: Package)
        requires
            old(self).wf(),
        ensures
            final(self).wf(),
            final(self)@ == (MovementInfo {
                dropped: old(self)@.dropped.insert(picked@.name, picked),
                carriages: old(self)@.carriages.remove(picked@.name),
                ..old(self)@
            }),
            final(self).picked_order() == old(self).picked_order(),
    {
        self.drop_pkgs.insert(picked.name().clone(), picked.clone());
        let _ = self.carriages.remove(picked.name().as_str());
    }

    /// Record every entry of `drop` as dropped off (and no longer carried).
    pub fn with_drop_pkgs(&mut self, drop: TextMap<Package>)
        requires
            old(self).wf(),
            drop.wf(),
        ensures
            final(self).wf(),
            final(self)@ == (MovementInfo {
                dropped: old(self)@.dropped.union_prefer_right(drop@),
                carriages: old(self)@.carriages.remove_keys(drop@.dom()),
                ..old(self)@
            }),
            final(self).picked_order() == old(self).picked_order(),
    {
        let n = drop.len();
        let mut i: usize = 0;
        proof {
            let e = Set::new(|k: Seq<char>| drop.key_seq().subrange(0, 0).contains(k));
            assert(e =~= Set::empty());
            assert(old(self)@.dropped.union_prefer_right(drop@.restrict(e)) =~= old(self)@.dropped);
            assert(old(self)@.carriages.remove_keys(e) =~= old(self)@.carriages);
        }
        while i < n
            invariant
                n == drop.key_seq().len(),
                drop.wf(),
                i <= n,
                self.wf(),
                self@ == (MovementInfo {
                    dropped: old(self)@.dropped.union_prefer_right(drop@.restrict(
                        Set::new(|k: Seq<char>| drop.key_seq().subrange(0, i as int).contains(k)),
                    )),
                    carriages: old(self)@.carriages.remove_keys(
                        Set::new(|k: Seq<char>| drop.key_seq().subrange(0, i as int).contains(k)),
                    ),
                    ..old(self)@
                }),
                self.picked_order() == old(self).picked_order(),
            decreases n - i,
        {
            let key = drop.key_at(i);
            let pkg = drop.value_at(i);
            self.drop_pkgs.insert(key.clone(), pkg.clone());
            let _ = self.carriages.remove(key.as_str());
            proof {
                drop.lemma_entry(i as int);
                lemma_prefix_grow(drop.key_seq(), i as int);
                let s0 = Set::new(|k: Seq<char>| drop.key_seq().subrange(0, i as int).contains(k));
                let s1 = Set::new(|k: Seq<char>| drop.key_seq().subrange(0, i + 1).contains(k));
                assert(old(self)@.dropped.union_prefer_right(drop@.restrict(s1)) =~= old(self)@.dropped.union_prefer_right(drop@.restrict(s0)).insert(key@, *pkg));
                assert(old(self)@.carriages.remove_keys(s1) =~= old(self)@.carriages.remove_keys(s0).remove(key@));
            }
            i = i + 1;
        }
        proof {
            let s = Set::new(|k: Seq<char>| drop.key_seq().subrange(0, n as int).contains(k));
            assert(drop.key_seq().subrange(0, n as int) =~= drop.key_seq());
            assert(drop@.restrict(s) =~= drop@);
            assert(s =~= drop@.dom());
        }
    }

    pub fn with_carriages(&mut self, pkg: Package)
        requires
            old(self).wf(),
        ensures
            final(self).wf(),
            final(self)@ == (MovementInfo { carriages: old(self)@.carriages.insert(pkg@.name, pkg), ..old(self)@ }),
            final(self).picked_order() == old(self).picked_order(),
            final(self).dropped_order() == old(self).dropped_order(),
    {
        let key = pkg.name().clone();
        self.carriages.insert(key, pkg);
    }

    /// Forget the picked and dropped packages (the carried ones stay).
    pub(crate) fn clear_marks(&mut self)
        requires
            old(self).wf(),
        ensures
            final(self).wf(),
            final(self)@ == (MovementInfo { picked: Map::empty(), dropped: Map::empty(), ..old(self)@ }),
            final(self).picked_order().len() == 0,
            final(self).dropped_order().len() == 0,
    {
        self.picked_pkgs = TextMap::new();
        self.drop_pkgs = TextMap::new();
    }

    /// The line that describes this movement: time, train, both stations and the
    /// picked and dropped package names.
    pub fn to_string(&self) -> (r: String)
        requires
            self.wf(),
        ensures
            r@ == self.line(),
    {
        let mut s = "W=".to_string();
        s.append(u32_text(self.time).as_str());
        s.append(", ");
        s.append("T=");
        s.append(self.train.as_str());
        s.append(", ");
        s.append("N1=");
        s.append(self.from.as_str());
        s.append(", ");
        s.append("P1=[");
        s.append(join_keys(self.picked_pkgs.keys()).as_str());
        s.append("]");
        s.append(", ");
        s.append("N2=");
        s.append(self.to.as_str());
        s.append(", ");
        s.append("P2=[");
        s.append(join_keys(self.drop_pkgs.keys()).as_str());
        s.append("]");
        s
    }
}

/// The set of the first `i + 1` keys is that of the first `i` and key `i`.
proof fn lemma_prefix_grow(ks: Seq<Seq<char>>, i: int)
    requires
        0 <= i < ks.len(),
    ensures
        Set::new(|k: Seq<char>| ks.subrange(0, i + 1).contains(k))
            == Set::new(|k: Seq<char>| ks.subrange(0, i).contains(k)).insert(ks[i]),
{
    let s0 = Set::new(|k: Seq<char>| ks.subrange(0, i).contains(k));
    let s1 = Set::new(|k: Seq<char>| ks.subrange(0, i + 1).contains(k));
    let t0 = ks.subrange(0, i);
    let t1 = ks.subrange(0, i + 1);
    assert forall|k: Seq<char>| #[trigger] s1.contains(k) == s0.insert(ks[i]).contains(k) by {
        if t0.contains(k) {
            let j = choose|j: int| 0 <= j < t0.len() && t0[j] == k;
            assert(t1[j] == k);
        }
        if k == ks[i] {
            assert(t1[i] == k);
        }
        if t1.contains(k) {
            let j = choose|j: int| 0 <= j < t1.len() && t1[j] == k;
            if j < i {
                assert(t0[j] == k);
            }
        }
    }
    assert(s1 =~= s0.insert(ks[i]));
}

/// The keys joined with ", ".
fn join_keys(keys: &Vec<String>) -> (r: String)
    ensures
        r@ == join(keys@.map_values(|s: String| s@), ", "@),
{
    let ghost ks = keys@.map_values(|s: String| s@);
    let mut out = String::new();
    let n = keys.len();
    let mut i: usize = 0;
    while i < n
        invariant
            n == keys@.len(),
            ks == keys@.map_values(|s: String| s@),
            i <= n,
            out@ == join(ks.subrange(0, i as int), ", "@),
        decreases n - i,
    {
        proof {
            assert(ks.subrange(0, i + 1).drop_last() =~= ks.subrange(0, i as int));
        }
        if i == 0 {
            out.append(keys[i].as_str());
            assert(ks.subrange(0, 1) =~= seq![ks[0]]);
            assert(out@ =~= ks[0]);
        } else {
            out.append(", ");
            out.append(keys[i].as_str());
        }
        i = i + 1;
    }
    assert(ks.subrange(0, n as int) =~= ks);
    out
}

} // verus!
