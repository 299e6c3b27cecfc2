//! Trains and the fleet that holds them.
use vstd::prelude::*;
use crate::text::text_eq;
use crate::textmap::TextMap;
use crate::package::{Package, copy_packages};

verus! {

/// What a train holds, as plain values.
pub struct TrainInfo {
    pub name: Seq<char>,
    pub capacity: u32,
    pub remain_capacity: u32,
    pub origin: Seq<char>,
    pub current: Seq<char>,
    pub loaded: Map<Seq<char>, Package>,
    pub time: u32,
}

/// `m` with each package of `s` stored under its name, in order (a later one wins).
pub open spec fn insert_all(m: Map<Seq<char>, Package>, s: Seq<Package>) -> Map<Seq<char>, Package>
    decreases s.len(),
{
    if s.len() == 0 {
        m
    } else {
        insert_all(m, s.drop_last()).insert(s.last()@.name, s.last())
    }
}

/// Loading `s` in order into `m` with `remain` capacity left: a package is taken
/// when it fits in what is left, and then uses up its weight.
pub open spec fn load_all(m: Map<Seq<char>, Package>, remain: u32, s: Seq<Package>) -> (Map<Seq<char>, Package>, u32)
    decreases s.len(),
{
    if s.len() == 0 {
        (m, remain)
    } else {
        let (m1, r1) = load_all(m, remain, s.drop_last());
        let p = s.last();
        if p@.weight <= r1 {
            (m1.insert(p@.name, p), (r1 - p@.weight) as u32)
        } else {
            (m1, r1)
        }
    }
}

/// Loading never raises the room left on a train and never takes a package off:
/// whatever was on board stays on board, and every package of `s` whose weight
/// fits in the room left at the end is on board.
pub proof fn loading_keeps_load(m: Map<Seq<char>, Package>, remain: u32, s: Seq<Package>)
    ensures
        load_all(m, remain, s).1 <= remain,
        forall|k: Seq<char>| #[trigger] m.contains_key(k) ==> load_all(m, remain, s).0.contains_key(k),
        forall|i: int| 0 <= i < s.len() && (#[trigger] s[i])@.weight <= load_all(m, remain, s).1
            ==> load_all(m, remain, s).0.contains_key(s[i]@.name),
    decreases s.len(),
{
    if s.len() > 0 {
        let r = s.drop_last();
        loading_keeps_load(m, remain, r);
        let (m1, r1) = load_all(m, remain, r);
        let (m2, r2) = load_all(m, remain, s);
        assert(r2 <= r1);
        assert forall|i: int| 0 <= i < s.len() && (#[trigger] s[i])@.weight <= r2 implies m2.contains_key(s[i]@.name) by {
            if i < s.len() - 1 {
                assert(s[i] == r[i]);
                assert(m1.contains_key(r[i]@.name));
            }
        }
    }
}

/// A train: name, capacity, remaining capacity, origin, current station, the
/// packages it carries (by name) and the time it has travelled.
#[derive(Debug, Clone)]
pub struct Train {
    name: String,
    capacity: u32,
    remain_capacity: u32,
    origin: String,
    current: String,
    packages: TextMap<Package>,
    time: u32,
}

impl View for Train {
    type V = TrainInfo;

    closed spec fn view(&self) -> TrainInfo {
        TrainInfo {
            name: self.name@,
            capacity: self.capacity,
            remain_capacity: self.remain_capacity,
            origin: self.origin@,
            current: self.current@,
            loaded: self.packages@,
            time: self.time,
        }
    }
}

/// Every package of `m` is stored under its own name.
pub open spec fn keyed(m: Map<Seq<char>, Package>) -> bool {
    forall|k: Seq<char>| #[trigger] m.contains_key(k) ==> m[k]@.name == k
}

impl Train {
    pub closed spec fn wf(&self) -> bool {
        self.packages.wf() && keyed(self.packages@)
    }

    /// The packages on board are stored under their own names.
    pub proof fn lemma_keyed(&self)
        requires
            self.wf(),
        ensures
            keyed(self@.loaded),
    {
    }

    /// The names on board, in name order, each once.
    pub proof fn lemma_loaded_order(&self)
        requires
            self.wf(),
        ensures
            crate::textmap::strictly_sorted(self.loaded_order()),
            forall|k: Seq<char>| #[trigger] self.loaded_order().contains(k) == self@.loaded.contains_key(k),
    {
    }

    /// A copy of the train.
    pub(crate) fn copy(&self) -> (r: Self)
        requires
            self.wf(),
        ensures
            r.wf(),
            r@ == self@,
    {
        Train {
            name: self.name.clone(),
            capacity: self.capacity,
            remain_capacity: self.remain_capacity,
            origin: self.origin.clone(),
            current: self.current.clone(),
            packages: copy_packages(&self.packages),
            time: self.time,
        }
    }

    fn add_all(&mut self, packages: &Vec<Package>)
        requires
            old(self).wf(),
        ensures
            final(self).wf(),
            final(self)@ == (TrainInfo { loaded: insert_all(old(self)@.loaded, packages@), ..old(self)@ }),
    {
        let n = packages.len();
        let mut i: usize = 0;
        while i < n
            invariant
                n == packages@.len(),
                i <= n,
                self.wf(),
                self@ == (TrainInfo { loaded: insert_all(old(self)@.loaded, packages@.subrange(0, i as int)), ..old(self)@ }),
            decreases n - i,
        {
            let pkg = packages[i].clone();
            let key = pkg.name().clone();
            self.packages.insert(key, pkg);
            proof {
                let s = packages@.subrange(0, i + 1);
                assert(s.drop_last() =~= packages@.subrange(0, i as int));
            }
            i = i + 1;
        }
        assert(packages@.subrange(0, n as int) =~= packages@);
    }

    pub fn new(
        name: String,
        capacity: u32,
        remain_capacity: u32,
        origin: String,
        current: String,
        packages: Vec<Package>,
        time: u32,
    ) -> (r: Self)
        ensures
            r.wf(),
            r@ == (TrainInfo {
                name: name@,
                capacity,
                remain_capacity,
                origin: origin@,
                current: current@,
                loaded: insert_all(Map::empty(), packages@),
                time,
            }),
    {
        let mut t = Self {
            name,
            capacity,
            remain_capacity,
            origin,
            current,
            packages: TextMap::new(),
            time,
        };
        t.add_all(&packages);
        t
    }

    /// Get the name of the train.
    pub fn name(&self) -> (r: &String)
        ensures
            r@ == self@.name,
    {
        &self.name
    }

    /// Get the capacity of the train.
    pub fn capacity(&self) -> (r: u32)
        ensures
            r == self@.capacity,
    {
        self.capacity
    }

    /// Get the remaining capacity of the train.
    pub fn remain_capacity(&self) -> (r: u32)
        ensures
            r == self@.remain_capacity,
    {
        self.remain_capacity
    }

    /// Add a vector of packages to the train.
    pub fn push_packages(&mut self, packages: Vec<Package>)
        requires
            old(self).wf(),
        ensures
            final(self).wf(),
            final(self)@ == (TrainInfo { loaded: insert_all(old(self)@.loaded, packages@), ..old(self)@ }),
    {
        self.add_all(&packages);
    }

    pub fn push_pkg(&mut self, pkg: Package)
        requires
            old(self).wf(),
        ensures
            final(self).wf(),
            final(self)@ == (TrainInfo { loaded: old(self)@.loaded.insert(pkg@.name, pkg), ..old(self)@ }),
    {
        let key = pkg.name().clone();
        self.packages.insert(key, pkg);
    }

    /// Get the origin of the train.
    pub fn origin(&self) -> (r: &str)
        ensures
            r@ == self@.origin,
    {
        self.origin.as_str()
    }

    /// Get the current index of the train.
    pub fn current_index(&self) -> (r: &str)
        ensures
            r@ == self@.current,
    {
        self.current.as_str()
    }

    /// Get the current time of the train.
    pub fn time(&self) -> (r: u32)
        ensures
            r == self@.time,
    {
        self.time
    }

    /// Accumulate time to the train's time.
    pub fn accumulate_time(&mut self, time_taken: u32)
        requires
            old(self)@.time + time_taken <= u32::MAX,
        ensures
            final(self).wf() == old(self).wf(),
            final(self)@ == (TrainInfo { time: (old(self)@.time + time_taken) as u32, ..old(self)@ }),
    {
        self.time = self.time + time_taken;
    }

    /// Check if a package is already loaded on the train.
    pub fn already_loaded_package(&self, package: &Package) -> (r: bool)
        requires
            self.wf(),
        ensures
            r == self@.loaded.contains_key(package@.name),
    {
        self.packages.contains_key(package.name().as_str())
    }

    /// Load a vector of packages onto the train.
    pub fn load_packages(&mut self, packages: Vec<Package>)
        requires
            old(self).wf(),
        ensures
            final(self).wf(),
            final(self)@ == (TrainInfo {
                loaded: load_all(old(self)@.loaded, old(self)@.remain_capacity, packages@).0,
                remain_capacity: load_all(old(self)@.loaded, old(self)@.remain_capacity, packages@).1,
                ..old(self)@
            }),
    {
        let n = packages.len();
        let mut i: usize = 0;
        while i < n
            invariant
                n == packages@.len(),
                i <= n,
                self.wf(),
                self@ == (TrainInfo {
                    loaded: load_all(old(self)@.loaded, old(self)@.remain_capacity, packages@.subrange(0, i as int)).0,
                    remain_capacity: load_all(old(self)@.loaded, old(self)@.remain_capacity, packages@.subrange(0, i as int)).1,
                    ..old(self)@
                }),
            decreases n - i,
        {
            proof {
                let s = packages@.subrange(0, i + 1);
                assert(s.drop_last() =~= packages@.subrange(0, i as int));
            }
            let pkg = &packages[i];
            if pkg.weight() <= self.remain_capacity {
                let key = pkg.name().clone();
                self.packages.insert(key, pkg.clone());
                self.remain_capacity = self.remain_capacity - pkg.weight();
            }
            i = i + 1;
        }
        assert(packages@.subrange(0, n as int) =~= packages@);
    }

    /// Remove a package from the train.
    pub fn remove_package(&mut self, package: &Package)
        requires
            old(self).wf(),
        ensures
            final(self).wf(),
            final(self)@ == (TrainInfo { loaded: old(self)@.loaded.remove(package@.name), ..old(self)@ }),
    {
        let _ = self.packages.remove(package.name().as_str());
    }

    /// Update the current index of the train.
    pub fn update_current_index(&mut self, index: String)
        ensures
            final(self).wf() == old(self).wf(),
            final(self)@ == (TrainInfo { current: index@, ..old(self)@ }),
    {
        self.current = index;
    }

    /// Update the name of the train.
    pub fn update_name(&mut self, name: String)
        ensures
            final(self).wf() == old(self).wf(),
            final(self)@ == (TrainInfo { name: name@, ..old(self)@ }),
    {
        self.name = name;
    }

    /// The names of the packages on board, in name order.
    pub closed spec fn loaded_order(&self) -> Seq<Seq<char>> {
        self.packages.key_seq()
    }

    /// The packages on board, in name order.
    pub(crate) fn loaded_packages(&self) -> (r: &Vec<Package>)
        requires
            self.wf(),
        ensures
            r@.len() == self.loaded_order().len(),
            forall|i: int| 0 <= i < r@.len() ==> #[trigger] self@.loaded.contains_key(self.loaded_order()[i])
                && self@.loaded[self.loaded_order()[i]] == r@[i],
            forall|k: Seq<char>| #[trigger] self@.loaded.contains_key(k) ==> exists|i: int| 0 <= i < r@.len()
                && self.loaded_order()[i] == k,
    {
        proof {
            assert forall|i: int| 0 <= i < self.packages.val_seq().len() implies #[trigger] self@.loaded.contains_key(self.packages.key_seq()[i])
                && self@.loaded[self.packages.key_seq()[i]] == self.packages.val_seq()[i] by {
                self.packages.lemma_entry(i);
            }
            assert forall|k: Seq<char>| #[trigger] self@.loaded.contains_key(k) implies exists|i: int| 0 <= i < self.packages.val_seq().len()
                && self.loaded_order()[i] == k by {
                self.packages.lemma_key_position(k);
                let i = self.packages.key_seq().index_of(k);
                assert(self.loaded_order()[i] == k);
            }
        }
        self.packages.values()
    }
}

/// Which trains a search looks at.
enum TrainFilter<'a> {
    /// Trains standing at a station.
    At(&'a str),
    /// Trains whose capacity exceeds a weight, other than the named one.
    Bigger(u32, &'a str),
    /// Trains at a station with at least a weight of room left.
    RoomAt(&'a str, u32),
    /// Trains at a station with more than a weight of room left.
    MoreRoomAt(&'a str, u32),
}

impl<'a> TrainFilter<'a> {
    spec fn selects(&self, t: TrainInfo) -> bool {
        match *self {
            TrainFilter::At(s) => t.current == s@,
            TrainFilter::Bigger(w, n) => t.capacity > w && t.name != n@,
            TrainFilter::RoomAt(s, w) => t.remain_capacity >= w && t.current == s@,
            TrainFilter::MoreRoomAt(s, w) => t.current == s@ && t.remain_capacity > w,
        }
    }

    fn check(&self, t: &Train) -> (r: bool)
        ensures
            r == self.selects(t@),
    {
        match *self {
            TrainFilter::At(s) => text_eq(t.current_index(), s),
            TrainFilter::Bigger(w, n) => t.capacity() > w && !text_eq(t.name().as_str(), n),
            TrainFilter::RoomAt(s, w) => t.remain_capacity() >= w && text_eq(t.current_index(), s),
            TrainFilter::MoreRoomAt(s, w) => text_eq(t.current_index(), s) && t.remain_capacity() > w,
        }
    }
}

/// `i` is the first of the selected positions with the least time.
pub open spec fn first_least(times: Seq<u32>, sel: Seq<bool>, i: int) -> bool {
    &&& 0 <= i < sel.len()
    &&& sel[i]
    &&& forall|j: int| 0 <= j < sel.len() && #[trigger] sel[j] ==> times[i] <= times[j]
    &&& forall|j: int| 0 <= j < i && #[trigger] sel[j] ==> times[i] < times[j]
}

/// The fleet of trains, in the order they were added.
#[derive(Debug, Clone)]
pub struct TrainCollection {
    trains: Vec<Train>,
}

impl View for TrainCollection {
    type V = Seq<Train>;

    closed spec fn view(&self) -> Seq<Train> {
        self.trains@
    }
}

impl TrainCollection {
    pub open spec fn wf(&self) -> bool {
        forall|i: int| 0 <= i < self@.len() ==> (#[trigger] self@[i]).wf()
    }

    /// The time of each train.
    pub open spec fn times(&self) -> Seq<u32> {
        Seq::new(self@.len(), |i: int| self@[i]@.time)
    }

    /// Which trains a condition selects.
    pub open spec fn picks(&self, p: spec_fn(TrainInfo) -> bool) -> Seq<bool> {
        Seq::new(self@.len(), |i: int| p(self@[i]@))
    }

    pub fn new() -> (r: Self)
        ensures
            r.wf(),
            r@ == Seq::<Train>::empty(),
    {
        Self { trains: Vec::new() }
    }

    pub fn add_train(
        &mut self,
        name: String,
        capacity: u32,
        remain_capacity: u32,
        origin: String,
        current: String,
        packages: Vec<Package>,
        time: u32,
    )
        requires
            old(self).wf(),
        ensures
            final(self).wf(),
            final(self)@.len() == old(self)@.len() + 1,
            final(self)@.drop_last() == old(self)@,
            final(self)@.last()@ == (TrainInfo {
                name: name@,
                capacity,
                remain_capacity,
                origin: origin@,
                current: current@,
                loaded: insert_all(Map::empty(), packages@),
                time,
            }),
    {
        let train = Train::new(name, capacity, remain_capacity, origin, current, packages, time);
        self.trains.push(train);
        assert(self@.drop_last() =~= old(self)@);
    }

    /// The first train selected by `f` with the least time.
    fn least_time_where(&self, f: &TrainFilter) -> (r: Option<usize>)
        ensures
            r is None <==> forall|j: int| 0 <= j < self@.len() ==> !f.selects(self@[j]@),
            r is Some ==> first_least(self.times(), self.picks(|t: TrainInfo| f.selects(t)), r->0 as int),
    {
        let n = self.trains.len();
        let mut best: Option<usize> = None;
        let mut i: usize = 0;
        while i < n
            invariant
                n == self@.len(),
                i <= n,
                best is None <==> forall|j: int| 0 <= j < i ==> !f.selects(self@[j]@),
                best is Some ==> first_least(self.times().subrange(0, i as int), self.picks(|t: TrainInfo| f.selects(t)).subrange(0, i as int), best->0 as int),
            decreases n - i,
        {
            let t = &self.trains[i];
            if f.check(t) {
                match best {
                    None => {
                        best = Some(i);
                    },
                    Some(b) => {
                        if t.time() < self.trains[b].time() {
                            best = Some(i);
                        }
                    },
                }
            }
            proof {
                let ts = self.times().subrange(0, i + 1);
                let ss = self.picks(|t: TrainInfo| f.selects(t)).subrange(0, i + 1);
                assert(ts[i as int] == self@[i as int]@.time);
                assert(ss[i as int] == f.selects(self@[i as int]@));
                if best is Some {
                    let b = best->0 as int;
                    assert forall|j: int| 0 <= j < ss.len() && #[trigger] ss[j] implies ts[b] <= ts[j] by {
                        if j < i {
                            assert(self.picks(|t: TrainInfo| f.selects(t)).subrange(0, i as int)[j] == ss[j]);
                            assert(self.times().subrange(0, i as int)[j] == ts[j]);
                        }
                    }
                    assert forall|j: int| 0 <= j < b && #[trigger] ss[j] implies ts[b] < ts[j] by {
                        assert(self.picks(|t: TrainInfo| f.selects(t)).subrange(0, i as int)[j] == ss[j]);
                        assert(self.times().subrange(0, i as int)[j] == ts[j]);
                    }
                }
            }
            i = i + 1;
        }
        assert(self.times().subrange(0, n as int) =~= self.times());
        assert(self.picks(|t: TrainInfo| f.selects(t)).subrange(0, n as int) =~= self.picks(|t: TrainInfo| f.selects(t)));
        best
    }

    pub fn find_closest_train(&self, package: &Package) -> (r: Option<&Train>)
        ensures
            r is None <==> forall|j: int| 0 <= j < self@.len() ==> self@[j]@.current != package@.from,
            r is Some ==> exists|i: int| first_least(self.times(), self.picks(|t: TrainInfo| t.current == package@.from), i)
                && *r->0 == self@[i],
    {
        let f = TrainFilter::At(package.from().as_str());
        assert(self.picks(|t: TrainInfo| f.selects(t)) =~= self.picks(|t: TrainInfo| t.current == package@.from));
        match self.least_time_where(&f) {
            Some(i) => Some(&self.trains[i]),
            None => None,
        }
    }

    pub fn find_closest_train_less_weight(&self, package: &Package, trainee: &Train) -> (r: Option<&Train>)
        ensures
            r is None <==> forall|j: int| 0 <= j < self@.len() ==> !(self@[j]@.capacity > package@.weight && self@[j]@.name != trainee@.name),
            r is Some ==> exists|i: int| first_least(self.times(), self.picks(|t: TrainInfo| t.capacity > package@.weight && t.name != trainee@.name), i)
                && *r->0 == self@[i],
    {
        let f = TrainFilter::Bigger(package.weight(), trainee.name().as_str());
        assert(self.picks(|t: TrainInfo| f.selects(t)) =~= self.picks(|t: TrainInfo| t.capacity > package@.weight && t.name != trainee@.name));
        match self.least_time_where(&f) {
            Some(i) => Some(&self.trains[i]),
            None => None,
        }
    }

    pub fn find_closest_train_with_constraint(&self, package: &Package) -> (r: Option<&Train>)
        ensures
            r is None <==> forall|j: int| 0 <= j < self@.len() ==> !(self@[j]@.remain_capacity >= package@.weight && self@[j]@.current == package@.from),
            r is Some ==> exists|i: int| first_least(self.times(), self.picks(|t: TrainInfo| t.remain_capacity >= package@.weight && t.current == package@.from), i)
                && *r->0 == self@[i],
    {
        let f = TrainFilter::RoomAt(package.from().as_str(), package.weight());
        assert(self.picks(|t: TrainInfo| f.selects(t)) =~= self.picks(|t: TrainInfo| t.remain_capacity >= package@.weight && t.current == package@.from));
        match self.least_time_where(&f) {
            Some(i) => Some(&self.trains[i]),
            None => None,
        }
    }

    pub fn find_index_of_train_with_least_time(&mut self, station_name: &str, pkg: &Package) -> (r: Option<usize>)
        ensures
            *final(self) == *old(self),
            r is None <==> forall|j: int| 0 <= j < old(self)@.len() ==> !(old(self)@[j]@.current == station_name@ && old(self)@[j]@.remain_capacity > pkg@.weight),
            r is Some ==> first_least(old(self).times(), old(self).picks(|t: TrainInfo| t.current == station_name@ && t.remain_capacity > pkg@.weight), r->0 as int),
    {
        let f = TrainFilter::MoreRoomAt(station_name, pkg.weight());
        assert(self.picks(|t: TrainInfo| f.selects(t)) =~= self.picks(|t: TrainInfo| t.current == station_name@ && t.remain_capacity > pkg@.weight));
        self.least_time_where(&f)
    }

    pub fn find_train_by_station_and_least_time(&mut self, station_name: &str) -> (r: Option<&mut Train>)
        ensures
            r is None <==> forall|j: int| 0 <= j < old(self)@.len() ==> old(self)@[j]@.current != station_name@,
            r is None ==> *final(self) == *old(self),
            r is Some ==> exists|i: int| first_least(old(self).times(), old(self).picks(|t: TrainInfo| t.current == station_name@), i)
                && *r->0 == old(self)@[i] && final(self)@ == old(self)@.update(i, *final(r->0)),
    {
        let f = TrainFilter::At(station_name);
        assert(self.picks(|t: TrainInfo| f.selects(t)) =~= self.picks(|t: TrainInfo| t.current == station_name@));
        match self.least_time_where(&f) {
            Some(i) => Some(&mut self.trains[i]),
            None => None,
        }
    }

    pub fn get_train(&self, index: usize) -> (r: Option<&Train>)
        ensures
            r is Some <==> index < self@.len(),
            r is Some ==> *r->0 == self@[index as int],
    {
        if index < self.trains.len() {
            Some(&self.trains[index])
        } else {
            None
        }
    }

    pub fn get_train_mut(&mut self, index: usize) -> (r: Option<&mut Train>)
        ensures
            r is Some <==> index < old(self)@.len(),
            r is None ==> *final(self) == *old(self),
            r is Some ==> *r->0 == old(self)@[index as int],
            r is Some ==> final(self)@ == old(self)@.update(index as int, *final(r->0)),
    {
        if index < self.trains.len() {
            Some(&mut self.trains[index])
        } else {
            None
        }
    }

    /// The trains, to change in place.
    pub fn iter_mut(&mut self) -> (r: &mut [Train])
        ensures
            r@ == old(self)@,
            final(self)@ == final(r)@,
    {
        self.trains.as_mut_slice()
    }

    /// The current location of every train, in order.
    pub fn current_locations(&self) -> (r: Vec<String>)
        ensures
            r@.len() == self@.len(),
            forall|i: int| 0 <= i < r@.len() ==> (#[trigger] r@[i])@ == self@[i]@.current,
    {
        let mut out: Vec<String> = Vec::new();
        let n = self.trains.len();
        let mut i: usize = 0;
        while i < n
            invariant
                n == self@.len(),
                i <= n,
                out@.len() == i,
                forall|j: int| 0 <= j < i ==> (#[trigger] out@[j])@ == self@[j]@.current,
            decreases n - i,
        {
            out.push(self.trains[i].current.clone());
            i = i + 1;
        }
        out
    }

    /// Push package at train's index
    pub fn push_train_carriage(&mut self, tr_cand: &Train, pkg: &Package)
        requires
            old(self).wf(),
        ensures
            final(self).wf(),
            final(self)@.len() == old(self)@.len(),
            forall|i: int| 0 <= i < old(self)@.len() ==> (#[trigger] final(self)@[i])@ == (if old(self)@[i]@.name == tr_cand@.name {
                TrainInfo { loaded: old(self)@[i]@.loaded.insert(pkg@.name, *pkg), ..old(self)@[i]@ }
            } else {
                old(self)@[i]@
            }),
    {
        let n = self.trains.len();
        let mut i: usize = 0;
        while i < n
            invariant
                n == old(self)@.len(),
                n == self@.len(),
                i <= n,
                forall|j: int| 0 <= j < n ==> (#[trigger] self@[j]).wf(),
                forall|j: int| 0 <= j < i ==> (#[trigger] self@[j])@ == (if old(self)@[j]@.name == tr_cand@.name {
                    TrainInfo { loaded: old(self)@[j]@.loaded.insert(pkg@.name, *pkg), ..old(self)@[j]@ }
                } else {
                    old(self)@[j]@
                }),
                forall|j: int| i <= j < n ==> #[trigger] self@[j] == old(self)@[j],
            decreases n - i,
        {
            if text_eq(self.trains[i].name().as_str(), tr_cand.name().as_str()) {
                let t = &mut self.trains[i];
                t.push_pkg(pkg.clone());
            }
            i = i + 1;
        }
    }

    /// Find train based on the origin
    pub fn find_train_by_name(&mut self, name: &str) -> (r: Option<&mut Train>)
        ensures
            r is None <==> forall|j: int| 0 <= j < old(self)@.len() ==> old(self)@[j]@.name != name@,
            r is None ==> *final(self) == *old(self),
            r is Some ==> exists|i: int| 0 <= i < old(self)@.len() && old(self)@[i]@.name == name@
                && (forall|j: int| 0 <= j < i ==> old(self)@[j]@.name != name@)
                && *r->0 == old(self)@[i] && final(self)@ == old(self)@.update(i, *final(r->0)),
    {
        let n = self.trains.len();
        let mut i: usize = 0;
        while i < n
            invariant
                n == self@.len(),
                *self == *old(self),
                i <= n,
                forall|j: int| 0 <= j < i ==> self@[j]@.name != name@,
            decreases n - i,
        {
            if text_eq(self.trains[i].name().as_str(), name) {
                return Some(&mut self.trains[i]);
            }
            i = i + 1;
        }
        None
    }

    /// Find a train based on the package name
    pub fn find_train_hold_this_pkg(&mut self, pkg: &Package) -> (r: Option<&mut Train>)
        requires
            old(self).wf(),
        ensures
            r is None <==> forall|j: int| 0 <= j < old(self)@.len() ==> !Self::holds(old(self)@[j]@, pkg@),
            r is None ==> *final(self) == *old(self),
            r is Some ==> exists|i: int| 0 <= i < old(self)@.len() && Self::holds(old(self)@[i]@, pkg@)
                && (forall|j: int| 0 <= j < i ==> !Self::holds(old(self)@[j]@, pkg@))
                && *r->0 == old(self)@[i] && final(self)@ == old(self)@.update(i, *final(r->0)),
    {
        match self.holder_of(pkg) {
            Some(i) => Some(&mut self.trains[i]),
            None => None,
        }
    }

    /// A train holds a package when it stands at the package's pickup station
    /// with the package on board.
    pub open spec fn holds(t: TrainInfo, p: crate::package::PackageInfo) -> bool {
        t.current == p.from && t.loaded.contains_key(p.name)
    }

    /// The first train that carries `pkg`, wherever it stands.
    pub(crate) fn carrier_of(&self, pkg: &Package) -> (r: Option<usize>)
        requires
            self.wf(),
        ensures
            r is None <==> forall|j: int| 0 <= j < self@.len() ==> !self@[j]@.loaded.contains_key(pkg@.name),
            r is Some ==> r->0 < self@.len() && self@[r->0 as int]@.loaded.contains_key(pkg@.name)
                && (forall|j: int| 0 <= j < r->0 ==> !self@[j]@.loaded.contains_key(pkg@.name)),
    {
        let n = self.trains.len();
        let mut i: usize = 0;
        while i < n
            invariant
                n == self@.len(),
                self.wf(),
                i <= n,
                forall|j: int| 0 <= j < i ==> !self@[j]@.loaded.contains_key(pkg@.name),
            decreases n - i,
        {
            let t = &self.trains[i];
            assert(t.wf());
            if t.already_loaded_package(pkg) {
                return Some(i);
            }
            i = i + 1;
        }
        None
    }

    /// The first train that holds `pkg`.
    pub fn holder_of(&self, pkg: &Package) -> (r: Option<usize>)
        requires
            self.wf(),
        ensures
            r is None <==> forall|j: int| 0 <= j < self@.len() ==> !Self::holds(self@[j]@, pkg@),
            r is Some ==> r->0 < self@.len() && Self::holds(self@[r->0 as int]@, pkg@)
                && (forall|j: int| 0 <= j < r->0 ==> !Self::holds(self@[j]@, pkg@)),
    {
        let n = self.trains.len();
        let mut i: usize = 0;
        while i < n
            invariant
                n == self@.len(),
                self.wf(),
                i <= n,
                forall|j: int| 0 <= j < i ==> !Self::holds(self@[j]@, pkg@),
            decreases n - i,
        {
            let t = &self.trains[i];
            assert(t.wf());
            if text_eq(t.current_index(), pkg.from().as_str()) && t.already_loaded_package(pkg) {
                return Some(i);
            }
            i = i + 1;
        }
        None
    }
}


/// The fixed attributes of a train: all but where it stands, what it carries and
/// how long it has travelled.
pub open spec fn same_frame(a: TrainInfo, b: TrainInfo) -> bool {
    &&& a.name == b.name
    &&& a.capacity == b.capacity
    &&& a.remain_capacity == b.remain_capacity
    &&& a.origin == b.origin
}

impl TrainCollection {
    /// The number of trains.
    pub(crate) fn len(&self) -> (r: usize)
        ensures
            r == self@.len(),
    {
        self.trains.len()
    }

    /// The name of train `i`.
    pub(crate) fn train_name(&self, i: usize) -> (r: &String)
        requires
            i < self@.len(),
        ensures
            r@ == self@[i as int]@.name,
    {
        self.trains[i].name()
    }

    /// A copy of train `i`.
    pub(crate) fn train_copy(&self, i: usize) -> (r: Train)
        requires
            self.wf(),
            i < self@.len(),
        ensures
            r.wf(),
            r@ == self@[i as int]@,
    {
        assert(self@[i as int].wf());
        self.trains[i].copy()
    }

    /// Load a package onto train `i`.
    pub(crate) fn push_to(&mut self, i: usize, pkg: Package)
        requires
            old(self).wf(),
            i < old(self)@.len(),
        ensures
            final(self).wf(),
            final(self)@.len() == old(self)@.len(),
            forall|j: int| 0 <= j < old(self)@.len() && j != i ==> #[trigger] final(self)@[j] == old(self)@[j],
            final(self)@[i as int]@ == (TrainInfo {
                loaded: old(self)@[i as int]@.loaded.insert(pkg@.name, pkg),
                ..old(self)@[i as int]@
            }),
    {
        assert(self@[i as int].wf());
        self.trains[i].push_pkg(pkg);
    }

    /// Take a package off train `i`.
    pub(crate) fn take_from(&mut self, i: usize, pkg: &Package)
        requires
            old(self).wf(),
            i < old(self)@.len(),
        ensures
            final(self).wf(),
            final(self)@.len() == old(self)@.len(),
            forall|j: int| 0 <= j < old(self)@.len() && j != i ==> #[trigger] final(self)@[j] == old(self)@[j],
            final(self)@[i as int]@ == (TrainInfo {
                loaded: old(self)@[i as int]@.loaded.remove(pkg@.name),
                ..old(self)@[i as int]@
            }),
    {
        assert(self@[i as int].wf());
        self.trains[i].remove_package(pkg);
    }

    /// Move train `i` to a station.
    pub(crate) fn relocate(&mut self, i: usize, station: String)
        requires
            old(self).wf(),
            i < old(self)@.len(),
        ensures
            final(self).wf(),
            final(self)@.len() == old(self)@.len(),
            forall|j: int| 0 <= j < old(self)@.len() && j != i ==> #[trigger] final(self)@[j] == old(self)@[j],
            final(self)@[i as int]@ == (TrainInfo { current: station@, ..old(self)@[i as int]@ }),
    {
        assert(self@[i as int].wf());
        self.trains[i].update_current_index(station);
    }

    /// Add travelled time to train `i`.
    pub(crate) fn add_time(&mut self, i: usize, d: u32)
        requires
            old(self).wf(),
            i < old(self)@.len(),
            old(self)@[i as int]@.time + d <= u32::MAX,
        ensures
            final(self).wf(),
            final(self)@.len() == old(self)@.len(),
            forall|j: int| 0 <= j < old(self)@.len() && j != i ==> #[trigger] final(self)@[j] == old(self)@[j],
            final(self)@[i as int]@ == (TrainInfo { time: (old(self)@[i as int]@.time + d) as u32, ..old(self)@[i as int]@ }),
    {
        assert(self@[i as int].wf());
        self.trains[i].accumulate_time(d);
    }

    /// A copy of the packages on train `i`, in name order.
    pub(crate) fn loaded_copy(&self, i: usize) -> (r: Vec<Package>)
        requires
            self.wf(),
            i < self@.len(),
        ensures
            r@.len() == self@[i as int].loaded_order().len(),
            forall|q: int| 0 <= q < r@.len() ==> #[trigger] self@[i as int]@.loaded.contains_key(self@[i as int].loaded_order()[q])
                && self@[i as int]@.loaded[self@[i as int].loaded_order()[q]] == r@[q],
    {
        let t = &self.trains[i];
        let src = t.loaded_packages();
        let mut out: Vec<Package> = Vec::new();
        let n = src.len();
        let mut j: usize = 0;
        while j < n
            invariant
                n == src@.len(),
                j <= n,
                out@.len() == j,
                forall|q: int| 0 <= q < j ==> #[trigger] out@[q] == src@[q],
            decreases n - j,
        {
            out.push(src[j].clone());
            j = j + 1;
        }
        assert(*t == self@[i as int]);
        assert forall|q: int| 0 <= q < out@.len() implies #[trigger] self@[i as int]@.loaded.contains_key(self@[i as int].loaded_order()[q])
            && self@[i as int]@.loaded[self@[i as int].loaded_order()[q]] == out@[q] by {
            assert(out@[q] == src@[q]);
            assert(t@.loaded.contains_key(t.loaded_order()[q]));
        }
        out
    }
}
} // verus!
