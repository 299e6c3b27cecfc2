//! Packages and the collections that hold them: the package list keyed by name,
//! the status tracker, the pick/drop log, candidate lists and name lists.
use vstd::prelude::*;
use core::cmp::Ordering;
use vstd::std_specs::cmp::PartialOrdSpecImpl;
use crate::text::{text_eq, text_less, text_lt};
use crate::textmap::TextMap;

verus! {

/// Where a package is in its delivery.
#[derive(Debug, Clone, Copy, PartialEq, Eq, Structural, Hash)]
pub enum PackageStatus {
    InTransit,
    Delivered,
    AwaitingPickup,
    Dummy,
}

/// What a package holds, as plain values.
pub struct PackageInfo {
    pub name: Seq<char>,
    pub weight: u32,
    pub from: Seq<char>,
    pub to: Seq<char>,
    pub status: PackageStatus,
}

/// A package: its name, weight, pickup station, destination and status.
#[derive(Debug, PartialEq, Eq, Hash)]
pub struct Package {
    name: String,
    weight: u32,
    from: String,
    to: String,
    status: PackageStatus,
}

impl View for Package {
    type V = PackageInfo;

    closed spec fn view(&self) -> PackageInfo {
        PackageInfo {
            name: self.name@,
            weight: self.weight,
            from: self.from@,
            to: self.to@,
            status: self.status,
        }
    }
}

impl Clone for Package {
    fn clone(&self) -> (r: Self)
        ensures
            r == *self,
    {
        Package {
            name: self.name.clone(),
            weight: self.weight,
            from: self.from.clone(),
            to: self.to.clone(),
            status: self.status,
        }
    }
}

impl Default for Package {
    fn default() -> (r: Self)
        ensures
            r@.name == "Unknown"@,
            r@.weight == 0,
            r@.from == "Unknown"@,
            r@.to == "Unknown"@,
            r@.status == PackageStatus::Dummy,
    {
        Package {
            name: "Unknown".to_string(),
            weight: 0,
            from: "Unknown".to_string(),
            to: "Unknown".to_string(),
            status: PackageStatus::Dummy,
        }
    }
}

/// Where two package names stand in text order (the order of `String`).
pub open spec fn name_order(a: Seq<char>, b: Seq<char>) -> Ordering {
    if a == b {
        Ordering::Equal
    } else if text_lt(a, b) {
        Ordering::Less
    } else {
        Ordering::Greater
    }
}

/// Packages are ordered by name alone.
impl PartialOrd for Package {
    fn partial_cmp(&self, other: &Self) -> (r: Option<Ordering>) {
        if text_eq(self.name.as_str(), other.name.as_str()) {
            Some(Ordering::Equal)
        } else if text_less(self.name.as_str(), other.name.as_str()) {
            Some(Ordering::Less)
        } else {
            Some(Ordering::Greater)
        }
    }
}

impl PartialOrdSpecImpl for Package {
    open spec fn obeys_partial_cmp_spec() -> bool {
        true
    }

    open spec fn partial_cmp_spec(&self, other: &Self) -> Option<Ordering> {
        Some(name_order(self@.name, other@.name))
    }
}

impl Package {
    pub fn new(name: String, weight: u32, from: String, to: String, status: PackageStatus) -> (r: Self)
        ensures
            r@ == (PackageInfo { name: name@, weight, from: from@, to: to@, status }),
    {
        Package { name, weight, from, to, status }
    }

    pub fn name(&self) -> (r: &String)
        ensures
            r@ == self@.name,
    {
        &self.name
    }

    pub fn weight(&self) -> (r: u32)
        ensures
            r == self@.weight,
    {
        self.weight
    }

    pub fn from(&self) -> (r: &String)
        ensures
            r@ == self@.from,
    {
        &self.from
    }

    pub fn to(&self) -> (r: &String)
        ensures
            r@ == self@.to,
    {
        &self.to
    }

    pub fn status(&self) -> (r: &PackageStatus)
        ensures
            *r == self@.status,
    {
        &self.status
    }

    pub fn set_name(&mut self, name: String)
        ensures
            final(self)@ == (PackageInfo { name: name@, ..old(self)@ }),
    {
        self.name = name;
    }

    pub fn set_weight(&mut self, weight: u32)
        ensures
            final(self)@ == (PackageInfo { weight, ..old(self)@ }),
    {
        self.weight = weight;
    }

    pub fn set_from(&mut self, from: String)
        ensures
            final(self)@ == (PackageInfo { from: from@, ..old(self)@ }),
    {
        self.from = from;
    }

    pub fn set_to(&mut self, to: String)
        ensures
            final(self)@ == (PackageInfo { to: to@, ..old(self)@ }),
    {
        self.to = to;
    }

    pub fn set_status(&mut self, status: PackageStatus)
        ensures
            final(self)@ == (PackageInfo { status, ..old(self)@ }),
    {
        self.status = status;
    }
}

/// A copy of a package map, entry for entry.
pub(crate) fn copy_packages(m: &TextMap<Package>) -> (r: TextMap<Package>)
    requires
        m.wf(),
    ensures
        r.wf(),
        r@ == m@,
        r.key_seq() == m.key_seq(),
        r.val_seq() == m.val_seq(),
{
    let mut out = TextMap::new();
    let n = m.len();
    let mut i: usize = 0;
    while i < n
        invariant
            n == m.key_seq().len(),
            m.wf(),
            out.wf(),
            i <= n,
            out.key_seq() == m.key_seq().subrange(0, i as int),
            out.val_seq() == m.val_seq().subrange(0, i as int),
        decreases n - i,
    {
        let k = m.key_at(i).clone();
        let v = m.value_at(i).clone();
        proof {
            assert forall|j: int| 0 <= j < out.key_seq().len() implies crate::text::text_lt(#[trigger] out.key_seq()[j], k@) by {
                assert(out.key_seq()[j] == m.key_seq()[j]);
            }
        }
        out.push_last(k, v);
        proof {
            assert(out.key_seq() =~= m.key_seq().subrange(0, i + 1));
            assert(out.val_seq() =~= m.val_seq().subrange(0, i + 1));
        }
        i = i + 1;
    }
    proof {
        assert(out.key_seq() =~= m.key_seq());
        assert(out.val_seq() =~= m.val_seq());
        assert(out@ =~= m@);
    }
    out
}

/// Record of which packages have been picked up and which dropped off, by name.
#[derive(Debug)]
pub struct Logger {
    picked: TextMap<Package>,
    dropped: TextMap<Package>,
}

impl Logger {
    /// Picked packages by name.
    pub closed spec fn picked(&self) -> Map<Seq<char>, Package> {
        self.picked@
    }

    /// Dropped packages by name.
    pub closed spec fn dropped(&self) -> Map<Seq<char>, Package> {
        self.dropped@
    }

    pub closed spec fn wf(&self) -> bool {
        self.picked.wf() && self.dropped.wf()
    }

    pub fn new() -> (r: Self)
        ensures
            r.wf(),
            r.picked() == Map::<Seq<char>, Package>::empty(),
            r.dropped() == Map::<Seq<char>, Package>::empty(),
    {
        Self { picked: TextMap::new(), dropped: TextMap::new() }
    }

    pub fn already_picked(&self, pkg: &Package) -> (r: bool)
        requires
            self.wf(),
        ensures
            r == self.picked().contains_key(pkg@.name),
    {
        self.picked.contains_key(pkg.name.as_str())
    }

    pub fn push_picked(&mut self, pkg: Package)
        requires
            old(self).wf(),
        ensures
            final(self).wf(),
            final(self).picked() == old(self).picked().insert(pkg@.name, pkg),
            final(self).dropped() == old(self).dropped(),
    {
        let key = pkg.name.clone();
        self.picked.insert(key, pkg);
    }

    pub fn already_dropped(&self, pkg: &Package) -> (r: bool)
        requires
            self.wf(),
        ensures
            r == self.dropped().contains_key(pkg@.name),
    {
        self.dropped.contains_key(pkg.name.as_str())
    }

    pub fn push_dropped(&mut self, pkg: Package)
        requires
            old(self).wf(),
        ensures
            final(self).wf(),
            final(self).dropped() == old(self).dropped().insert(pkg@.name, pkg),
            final(self).picked() == old(self).picked(),
    {
        let key = pkg.name.clone();
        self.dropped.insert(key, pkg);
    }
}

/// A list of package names, in the order they were added.
pub struct PackageName {
    name: Vec<String>,
}

impl View for PackageName {
    type V = Seq<Seq<char>>;

    closed spec fn view(&self) -> Seq<Seq<char>> {
        self.name@.map_values(|s: String| s@)
    }
}

impl PackageName {
    pub fn new() -> (r: Self)
        ensures
            r@ == Seq::<Seq<char>>::empty(),
    {
        let r = PackageName { name: Vec::new() };
        assert(r@ =~= Seq::<Seq<char>>::empty());
        r
    }

    pub fn add_name(&mut self, name: String)
        ensures
            final(self)@ == old(self)@.push(name@),
    {
        self.name.push(name);
        assert(self@ =~= old(self)@.push(name@));
    }

    pub fn names(&self) -> (r: &[String])
        ensures
            r@.map_values(|s: String| s@) == self@,
    {
        self.name.as_slice()
    }

    pub fn count(&self) -> (r: usize)
        ensures
            r == self@.len(),
    {
        self.name.len()
    }

    pub fn contains(&self, name: &str) -> (r: bool)
        ensures
            r == self@.contains(name@),
    {
        match self.position_of(name) {
            Some(_) => true,
            None => false,
        }
    }

    /// The first position holding `name`.
    fn position_of(&self, name: &str) -> (r: Option<usize>)
        ensures
            r is Some <==> self@.contains(name@),
            r is Some ==> r->0 < self@.len() && self@[r->0 as int] == name@
                && forall|j: int| 0 <= j < r->0 ==> self@[j] != name@,
    {
        let n = self.name.len();
        let mut i: usize = 0;
        while i < n
            invariant
                n == self@.len(),
                i <= n,
                forall|j: int| 0 <= j < i ==> self@[j] != name@,
            decreases n - i,
        {
            if text_eq(self.name[i].as_str(), name) {
                assert(self@[i as int] == name@);
                return Some(i);
            }
            i = i + 1;
        }
        None
    }

    /// Take out the first occurrence of `name`; false when there is none.
    pub fn remove_name(&mut self, name: &str) -> (r: bool)
        ensures
            r == old(self)@.contains(name@),
            !r ==> final(self)@ == old(self)@,
            r ==> final(self)@ == old(self)@.remove(old(self)@.index_of_first(name@)->0),
    {
        match self.position_of(name) {
            Some(pos) => {
                proof {
                    old(self)@.index_of_first_ensures(name@);
                    let f = old(self)@.index_of_first(name@)->0;
                    assert(f == pos as int);
                }
                self.name.remove(pos);
                assert(self@ =~= old(self)@.remove(pos as int));
                true
            },
            None => false,
        }
    }

    pub fn iter(&self) -> (r: &[String])
        ensures
            r@.map_values(|s: String| s@) == self@,
    {
        self.name.as_slice()
    }
}

/// The delivery status of each package, by package name.
#[derive(Debug, Clone)]
pub struct PackageTracker {
    track: TextMap<(Package, PackageStatus)>,
}

impl PackageTracker {
    /// A copy with the same statuses.
    pub(crate) fn copy(&self) -> (r: Self)
        requires
            self.wf(),
        ensures
            r.wf(),
            r.statuses() == self.statuses(),
    {
        let mut out: TextMap<(Package, PackageStatus)> = TextMap::new();
        let n = self.track.len();
        let mut i: usize = 0;
        while i < n
            invariant
                n == self.track.key_seq().len(),
                self.track.wf(),
                out.wf(),
                i <= n,
                out.key_seq() == self.track.key_seq().subrange(0, i as int),
                out.val_seq() == self.track.val_seq().subrange(0, i as int),
            decreases n - i,
        {
            let k = self.track.key_at(i).clone();
            let v = self.track.value_at(i);
            let entry = (v.0.clone(), v.1);
            proof {
                assert forall|j: int| 0 <= j < out.key_seq().len() implies crate::text::text_lt(#[trigger] out.key_seq()[j], k@) by {
                    assert(out.key_seq()[j] == self.track.key_seq()[j]);
                }
            }
            out.push_last(k, entry);
            proof {
                assert(out.key_seq() =~= self.track.key_seq().subrange(0, i + 1));
                assert(out.val_seq() =~= self.track.val_seq().subrange(0, i + 1));
            }
            i = i + 1;
        }
        let r = PackageTracker { track: out };
        proof {
            assert(out.key_seq() =~= self.track.key_seq());
            assert(out.val_seq() =~= self.track.val_seq());
            assert(out@ =~= self.track@);
            assert(r.statuses() =~= self.statuses());
        }
        r
    }

    /// Status by package name.
    pub closed spec fn statuses(&self) -> Map<Seq<char>, PackageStatus> {
        Map::new(|k: Seq<char>| self.track@.contains_key(k), |k: Seq<char>| self.track@[k].1)
    }

    pub closed spec fn wf(&self) -> bool {
        self.track.wf()
    }

    pub fn new() -> (r: Self)
        ensures
            r.wf(),
            r.statuses() == Map::<Seq<char>, PackageStatus>::empty(),
    {
        let r = Self { track: TextMap::new() };
        assert(r.statuses() =~= Map::<Seq<char>, PackageStatus>::empty());
        r
    }

    /// Track `package` with `status`; a package of the same name keeps its entry
    /// and takes the new status.
    pub fn add_package(&mut self, package: Package, status: PackageStatus)
        requires
            old(self).wf(),
        ensures
            final(self).wf(),
            final(self).statuses() == old(self).statuses().insert(package@.name, status),
    {
        match self.track.position(package.name.as_str()) {
            Some(i) => {
                let entry = self.track.value_at_mut(i);
                entry.1 = status;
                proof {
                    old(self).track.lemma_update_view(&self.track, i as int);
                }
            },
            None => {
                let key = package.name.clone();
                self.track.insert(key, (package, status));
            },
        }
        assert(self.statuses() =~= old(self).statuses().insert(package@.name, status));
    }

    pub fn update_status(&mut self, package: &Package, new_status: PackageStatus) -> (r: Result<(), &'static str>)
        requires
            old(self).wf(),
        ensures
            final(self).wf(),
            r is Ok <==> old(self).statuses().contains_key(package@.name),
            r is Ok ==> final(self).statuses() == old(self).statuses().insert(package@.name, new_status),
            r is Err ==> final(self).statuses() == old(self).statuses(),
            r matches Err(e) ==> e@ == "Package not found"@,
    {
        match self.track.position(package.name.as_str()) {
            Some(i) => {
                let entry = self.track.value_at_mut(i);
                entry.1 = new_status;
                proof {
                    old(self).track.lemma_update_view(&self.track, i as int);
                }
                assert(self.statuses() =~= old(self).statuses().insert(package@.name, new_status));
                Ok(())
            },
            None => Err("Package not found"),
        }
    }

    pub fn get_status(&self, package: &Package) -> (r: Option<PackageStatus>)
        requires
            self.wf(),
        ensures
            r == (if self.statuses().contains_key(package@.name) {
                Some(self.statuses()[package@.name])
            } else {
                None::<PackageStatus>
            }),
    {
        match self.track.get(package.name.as_str()) {
            Some(entry) => Some(entry.1),
            None => None,
        }
    }

    pub fn remove_package(&mut self, package: &Package) -> (r: Result<(), &'static str>)
        requires
            old(self).wf(),
        ensures
            final(self).wf(),
            r is Ok <==> old(self).statuses().contains_key(package@.name),
            final(self).statuses() == old(self).statuses().remove(package@.name),
            r matches Err(e) ==> e@ == "Package not found"@,
    {
        let removed = self.track.remove(package.name.as_str());
        assert(self.statuses() =~= old(self).statuses().remove(package@.name));
        match removed {
            Some(_) => Ok(()),
            None => Err("Package not found"),
        }
    }
}

/// A status recorded for a package is the status read back for it, and every
/// other package keeps what it had.
pub proof fn status_after_add(before: PackageTracker, after: PackageTracker, name: Seq<char>, status: PackageStatus, other: Seq<char>)
    requires
        after.statuses() == before.statuses().insert(name, status),
    ensures
        after.statuses().contains_key(name),
        after.statuses()[name] == status,
        other != name ==> after.statuses().contains_key(other) == before.statuses().contains_key(other),
        other != name && before.statuses().contains_key(other) ==> after.statuses()[other] == before.statuses()[other],
{
}

/// Once a package is removed from the tracker no status is read back for it, so a
/// later update or removal of it fails; the other packages keep what they had.
pub proof fn nothing_after_remove(before: PackageTracker, after: PackageTracker, name: Seq<char>, other: Seq<char>)
    requires
        after.statuses() == before.statuses().remove(name),
    ensures
        !after.statuses().contains_key(name),
        other != name ==> after.statuses().contains_key(other) == before.statuses().contains_key(other),
        other != name && before.statuses().contains_key(other) ==> after.statuses()[other] == before.statuses()[other],
{
}

/// The packages waiting to be delivered, keyed by name and walked in name order.
#[derive(Debug, Clone)]
pub struct PackageCollection {
    packages: TextMap<Package>,
}

impl View for PackageCollection {
    type V = Map<Seq<char>, Package>;

    closed spec fn view(&self) -> Map<Seq<char>, Package> {
        self.packages@
    }
}

impl PackageCollection {
    /// The keys in the order the collection is walked.
    pub closed spec fn key_order(&self) -> Seq<Seq<char>> {
        self.packages.key_seq()
    }

    /// The packages in the order the collection is walked.
    pub closed spec fn items(&self) -> Seq<Package> {
        self.packages.val_seq()
    }

    pub closed spec fn wf(&self) -> bool {
        self.packages.wf()
    }

    /// The walking order is the key order, and it lists the map.
    pub proof fn lemma_order(&self)
        requires
            self.wf(),
        ensures
            crate::textmap::strictly_sorted(self.key_order()),
            self.key_order().len() == self.items().len(),
            forall|i: int| 0 <= i < self.items().len() ==> #[trigger] self@.contains_key(self.key_order()[i])
                && self@[self.key_order()[i]] == self.items()[i],
            forall|k: Seq<char>| #[trigger] self@.contains_key(k) ==> self.key_order().contains(k),
    {
        assert forall|i: int| 0 <= i < self.items().len() implies #[trigger] self@.contains_key(self.key_order()[i])
            && self@[self.key_order()[i]] == self.items()[i] by {
            self.packages.lemma_entry(i);
        }
    }

    pub fn new() -> (r: Self)
        ensures
            r.wf(),
            r@ == Map::<Seq<char>, Package>::empty(),
    {
        Self { packages: TextMap::new() }
    }

    /// Drop the package with the smallest key, if any.
    pub fn remove_first(&mut self)
        requires
            old(self).wf(),
        ensures
            final(self).wf(),
            old(self).key_order().len() > 0 ==> final(self)@ == old(self)@.remove(old(self).key_order()[0]),
            old(self).key_order().len() == 0 ==> final(self)@ == old(self)@,
            final(self).key_order().len() == (if old(self).key_order().len() > 0 { old(self).key_order().len() - 1 } else { 0 }),
            old(self).key_order().len() > 0 ==> final(self).key_order() == old(self).key_order().drop_first()
                && final(self).items() == old(self).items().drop_first(),
    {
        let _ = self.packages.pop_first();
    }

    /// The entry with the smallest key, if any.
    pub fn first(&self) -> (r: Option<(&String, &Package)>)
        requires
            self.wf(),
        ensures
            r is Some <==> self.key_order().len() > 0,
            r is Some ==> (r->0).0@ == self.key_order()[0] && *(r->0).1 == self.items()[0],
            r is Some ==> self@.contains_key((r->0).0@) && self@[(r->0).0@] == *(r->0).1,
            r is Some ==> forall|k: Seq<char>| #[trigger] self@.contains_key(k) && k != (r->0).0@
                ==> crate::text::text_lt((r->0).0@, k),
    {
        self.packages.first()
    }

    /// The package with the smallest key, to change in place, if any.
    pub fn first_mut(&mut self) -> (r: Option<&mut Package>)
        requires
            old(self).wf(),
        ensures
            r is Some <==> old(self).key_order().len() > 0,
            r is None ==> *final(self) == *old(self),
            r is Some ==> *r->0 == old(self).items()[0],
            final(self).key_order() == old(self).key_order(),
            r is Some ==> final(self).items() == old(self).items().update(0, *final(r->0)),
    {
        if self.packages.len() == 0 {
            None
        } else {
            Some(self.packages.value_at_mut(0))
        }
    }

    pub fn clone_collection(&self) -> (r: Self)
        requires
            self.wf(),
        ensures
            r.wf(),
            r@ == self@,
            r.key_order() == self.key_order(),
            r.items() == self.items(),
    {
        let out = copy_packages(&self.packages);
        PackageCollection { packages: out }
    }

    pub fn len(&self) -> (r: usize)
        requires
            self.wf(),
        ensures
            r == self.key_order().len(),
    {
        self.packages.len()
    }

    pub fn is_empty(&mut self) -> (r: bool)
        requires
            old(self).wf(),
        ensures
            *final(self) == *old(self),
            r == (old(self)@ == Map::<Seq<char>, Package>::empty()),
            r == (old(self).key_order().len() == 0),
    {
        self.packages.is_empty()
    }

    /// Take out the entry with the smallest key, if any.
    pub fn pick_first(&mut self) -> (r: Option<(String, Package)>)
        requires
            old(self).wf(),
        ensures
            final(self).wf(),
            r is Some <==> old(self).key_order().len() > 0,
            r is Some ==> (r->0).0@ == old(self).key_order()[0] && (r->0).1 == old(self).items()[0],
            r is Some ==> final(self)@ == old(self)@.remove(old(self).key_order()[0]),
            r is None ==> final(self)@ == old(self)@,
    {
        self.packages.pop_first()
    }

    pub fn add_package(&mut self, name: String, weight: u32, from: String, to: String, status: PackageStatus)
        requires
            old(self).wf(),
        ensures
            final(self).wf(),
            final(self)@ == old(self)@.insert(name@, final(self)@[name@]),
            final(self)@[name@]@ == (PackageInfo { name: name@, weight, from: from@, to: to@, status }),
    {
        let package = Package::new(name.clone(), weight, from, to, status);
        self.packages.insert(name, package);
    }

    pub fn get_package(&self, name: &str) -> (r: Option<&Package>)
        requires
            self.wf(),
        ensures
            r is Some <==> self@.contains_key(name@),
            r is Some ==> *r->0 == self@[name@],
    {
        self.packages.get(name)
    }

    pub fn get_package_mut(&mut self, name: &str) -> (r: Option<&mut Package>)
        requires
            old(self).wf(),
        ensures
            r is Some <==> old(self)@.contains_key(name@),
            r is None ==> *final(self) == *old(self),
            r is Some ==> *r->0 == old(self)@[name@],
            final(self).key_order() == old(self).key_order(),
            r is Some ==> final(self).items() == old(self).items().update(
                old(self).key_order().index_of(name@),
                *final(r->0),
            ),
    {
        self.packages.get_mut(name)
    }

    /// The packages in key order.
    pub fn iter(&self) -> (r: &Vec<Package>)
        requires
            self.wf(),
        ensures
            r@ == self.items(),
    {
        self.packages.values()
    }

    /// The packages in key order, to change in place (the keys stay).
    pub fn iter_mut(&mut self) -> (r: &mut [Package])
        requires
            old(self).wf(),
        ensures
            r@ == old(self).items(),
            final(self).key_order() == old(self).key_order(),
            final(self).items() == final(r)@,
    {
        self.packages.values_mut()
    }
}

/// The collection is walked in name order: the package it gives first has the
/// least name of all the packages it holds.
pub proof fn first_is_least(c: PackageCollection)
    requires
        c.wf(),
        c.key_order().len() > 0,
    ensures
        c@.contains_key(c.key_order()[0]),
        forall|k: Seq<char>| #[trigger] c@.contains_key(k) && k != c.key_order()[0] ==> crate::text::text_lt(c.key_order()[0], k),
{
    c.lemma_order();
    assert forall|k: Seq<char>| #[trigger] c@.contains_key(k) && k != c.key_order()[0] implies crate::text::text_lt(c.key_order()[0], k) by {
        let i = c.key_order().index_of(k);
        assert(c.key_order()[i] == k);
        assert(i != 0);
    }
}

/// A list of candidate packages.
#[derive(Debug, Clone)]
pub struct PackageCandidates {
    cand: Vec<Package>,
}

impl View for PackageCandidates {
    type V = Seq<Package>;

    closed spec fn view(&self) -> Seq<Package> {
        self.cand@
    }
}

impl PackageCandidates {
    pub fn new() -> (r: Self)
        ensures
            r@ == Seq::<Package>::empty(),
    {
        Self { cand: Vec::new() }
    }

    pub fn push(&mut self, pkg: &Package)
        ensures
            final(self)@ == old(self)@.push(*pkg),
    {
        self.cand.push(pkg.clone())
    }

    pub fn is_empty(&self) -> (r: bool)
        ensures
            r == (self@.len() == 0),
    {
        self.cand.is_empty()
    }

    pub fn len(&self) -> (r: usize)
        ensures
            r == self@.len(),
    {
        self.cand.len()
    }

    /// Each candidate with its position.
    pub fn enumerate_cands(&self) -> (r: Vec<(usize, &Package)>)
        ensures
            r@.len() == self@.len(),
            forall|i: int| 0 <= i < r@.len() ==> (#[trigger] r@[i]).0 == i && *r@[i].1 == self@[i],
    {
        let mut out: Vec<(usize, &Package)> = Vec::new();
        let n = self.cand.len();
        let mut i: usize = 0;
        while i < n
            invariant
                n == self@.len(),
                i <= n,
                out@.len() == i,
                forall|j: int| 0 <= j < i ==> (#[trigger] out@[j]).0 == j && *out@[j].1 == self@[j],
            decreases n - i,
        {
            out.push((i, &self.cand[i]));
            i = i + 1;
        }
        out
    }

    pub fn iter(&self) -> (r: &[Package])
        ensures
            r@ == self@,
    {
        self.cand.as_slice()
    }

    pub fn iter_mut(&mut self) -> (r: &mut [Package])
        ensures
            r@ == old(self)@,
            final(self)@ == final(r)@,
    {
        self.cand.as_mut_slice()
    }
}

} // verus!
