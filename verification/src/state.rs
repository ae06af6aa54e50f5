//! The shared state of the application: the current environment, the root
//! of the stored data, and the cache of what has been loaded, by
//! environment.

use crate::relationship::{Relationship, RelationshipView};
use crate::service::ServiceView;
use crate::table::ServiceTable;
use crate::text::same_text;
use vstd::prelude::*;
use vstd::string::StringExecFns;

verus! {

/// A small map from names to values, kept in the order of insertion. An
/// absent name is one that nothing was stored under, which is not the same
/// as a name with an empty value.
pub struct Keyed<T> {
    keys: Vec<String>,
    values: Vec<T>,
}

impl<T> View for Keyed<T> {
    type V = Map<Seq<char>, T>;

    closed spec fn view(&self) -> Map<Seq<char>, T> {
        Map::new(
            |k: Seq<char>| self.keys.deep_view().contains(k),
            |k: Seq<char>| self.values[self.keys.deep_view().index_of(k)],
        )
    }
}

impl<T> Keyed<T> {
    /// Every name has its value, and no name occurs twice.
    pub closed spec fn wf(&self) -> bool {
        &&& self.keys.len() == self.values.len()
        &&& self.keys.deep_view().no_duplicates()
    }

    proof fn lemma_position(&self, i: int)
        requires
            self.wf(),
            0 <= i < self.keys.len(),
        ensures
            self.keys.deep_view().contains(self.keys[i]@),
            self.keys.deep_view().index_of(self.keys[i]@) == i,
            self@.contains_key(self.keys[i]@),
            self@[self.keys[i]@] == self.values[i],
    {
        let names = self.keys.deep_view();
        assert(names[i] == self.keys[i]@);
        let p = names.index_of(self.keys[i]@);
        assert(0 <= p < names.len() && names[p] == names[i]);
    }

    /// A map without names.
    pub fn new() -> (res: Self)
        ensures
            res.wf(),
            res@ == Map::<Seq<char>, T>::empty(),
    {
        let res = Keyed { keys: Vec::new(), values: Vec::new() };
        assert(res.keys.deep_view() =~= Seq::<Seq<char>>::empty());
        assert(res@ =~= Map::<Seq<char>, T>::empty());
        res
    }

    fn find(&self, key: &str) -> (res: Option<usize>)
        requires
            self.wf(),
        ensures
            match res {
                Some(i) => i < self.keys.len() && self.keys[i as int]@ == key@
                    && self@.contains_key(key@) && self@[key@] == self.values[i as int],
                None => !self@.contains_key(key@),
            },
    {
        let mut i: usize = 0;
        while i < self.keys.len()
            invariant
                i <= self.keys.len(),
                self.wf(),
                forall|k: int| 0 <= k < i ==> self.keys[k]@ != key@,
            decreases self.keys.len() - i,
        {
            if same_text(self.keys[i].as_str(), key) {
                proof {
                    self.lemma_position(i as int);
                }
                return Some(i);
            }
            i += 1;
        }
        proof {
            let names = self.keys.deep_view();
            if names.contains(key@) {
                let p = choose|p: int| 0 <= p < names.len() && names[p] == key@;
                assert(self.keys[p]@ == key@);
            }
        }
        None
    }

    /// Whether something is stored under the name.
    pub fn contains_key(&self, key: &str) -> (res: bool)
        requires
            self.wf(),
        ensures
            res == self@.contains_key(key@),
    {
        self.find(key).is_some()
    }

    /// What is stored under the name.
    pub fn get(&self, key: &str) -> (res: Option<&T>)
        requires
            self.wf(),
        ensures
            match res {
                Some(value) => self@.contains_key(key@) && *value == self@[key@],
                None => !self@.contains_key(key@),
            },
    {
        match self.find(key) {
            Some(i) => Some(&self.values[i]),
            None => None,
        }
    }

    /// Stores a value under a name, in place of what was stored there.
    pub fn insert(&mut self, key: String, value: T)
        requires
            old(self).wf(),
        ensures
            final(self).wf(),
            final(self)@ == old(self)@.insert(key@, value),
    {
        match self.find(key.as_str()) {
            Some(i) => {
                self.values[i] = value;
                proof {
                    assert forall|k: Seq<char>| #[trigger]
                        self@.contains_key(k) implies self@[k] == old(self)@.insert(
                        key@,
                        value,
                    )[k] by {
                        let names = self.keys.deep_view();
                        let p = names.index_of(k);
                        assert(0 <= p < names.len() && names[p] == k);
                        old(self).lemma_position(i as int);
                    }
                    assert(self@ =~= old(self)@.insert(key@, value));
                }
            },
            None => {
                let ghost names = self.keys.deep_view();
                self.keys.push(key);
                self.values.push(value);
                proof {
                    let after = self.keys.deep_view();
                    assert(after =~= names.push(key@));
                    assert forall|k: Seq<char>| after.contains(k) <==> (names.contains(k) || k
                        == key@) by {
                        if after.contains(k) {
                            let p = choose|p: int| 0 <= p < after.len() && after[p] == k;
                            if p < names.len() {
                                assert(names[p] == k);
                            }
                        }
                        if names.contains(k) {
                            let p = choose|p: int| 0 <= p < names.len() && names[p] == k;
                            assert(after[p] == k);
                        }
                        if k == key@ {
                            assert(after[names.len() as int] == k);
                        }
                    }
                    assert forall|k: Seq<char>| #[trigger]
                        self@.contains_key(k) implies self@[k] == old(self)@.insert(
                        key@,
                        value,
                    )[k] by {
                        let p = after.index_of(k);
                        assert(0 <= p < after.len() && after[p] == k);
                        if k != key@ {
                            let q = names.index_of(k);
                            assert(0 <= q < names.len() && names[q] == k);
                            assert(after[q] == k);
                        } else {
                            assert(after[names.len() as int] == k);
                        }
                    }
                    assert(self@ =~= old(self)@.insert(key@, value));
                }
            },
        }
    }

    /// Removes a name, and returns what was stored under it.
    pub fn remove(&mut self, key: &str) -> (res: Option<T>)
        requires
            old(self).wf(),
        ensures
            final(self).wf(),
            final(self)@ == old(self)@.remove(key@),
            res == if old(self)@.contains_key(key@) {
                Some(old(self)@[key@])
            } else {
                None
            },
    {
        match self.find(key) {
            Some(i) => {
                let ghost names = self.keys.deep_view();
                self.keys.remove(i);
                let value = self.values.remove(i);
                proof {
                    let after = self.keys.deep_view();
                    assert(after =~= names.remove(i as int));
                    assert(names[i as int] == key@);
                    assert forall|k: Seq<char>| after.contains(k) <==> (names.contains(k) && k
                        != key@) by {
                        if after.contains(k) {
                            let p = choose|p: int| 0 <= p < after.len() && after[p] == k;
                            if p < i {
                                assert(names[p] == k);
                            } else {
                                assert(names[p + 1] == k);
                            }
                        }
                        if names.contains(k) && k != key@ {
                            let p = choose|p: int| 0 <= p < names.len() && names[p] == k;
                            if p < i {
                                assert(after[p] == k);
                            } else {
                                assert(after[p - 1] == k);
                            }
                        }
                    }
                    assert forall|k: Seq<char>| #[trigger]
                        self@.contains_key(k) implies self@[k] == old(self)@[k] by {
                        let p = after.index_of(k);
                        assert(0 <= p < after.len() && after[p] == k);
                        let q = names.index_of(k);
                        assert(0 <= q < names.len() && names[q] == k);
                        if p < i {
                            assert(names[p] == k);
                        } else {
                            assert(names[p + 1] == k);
                        }
                    }
                    assert(self@ =~= old(self)@.remove(key@));
                }
                Some(value)
            },
            None => {
                assert(self@ =~= old(self)@.remove(key@));
                None
            },
        }
    }

    /// Removes every name.
    pub fn clear(&mut self)
        ensures
            final(self).wf(),
            final(self)@ == Map::<Seq<char>, T>::empty(),
    {
        self.keys.clear();
        self.values.clear();
        assert(self.keys.deep_view() =~= Seq::<Seq<char>>::empty());
        assert(self@ =~= Map::<Seq<char>, T>::empty());
    }
}

/// The state that all operations share.
pub struct AppState {
    /// The environment that is shown.
    pub current_environment: String,
    /// The root of the stored data.
    pub data_path: String,
    /// The services loaded so far, by environment and by id.
    pub services_cache: Keyed<ServiceTable>,
    /// The relationships loaded so far, by environment.
    pub relationships_cache: Keyed<Vec<Relationship>>,
}

/// What is cached of one kind, by environment.
pub type ServicesByEnvironment = Map<Seq<char>, Map<Seq<char>, ServiceView>>;

impl AppState {
    /// Both caches are well formed, and so is every table of services.
    pub open spec fn wf(&self) -> bool {
        &&& self.services_cache.wf()
        &&& self.relationships_cache.wf()
        &&& forall|environment: Seq<char>| #[trigger]
            self.services_cache@.contains_key(environment)
                ==> self.services_cache@[environment].wf()
    }

    /// The services cached, by environment and by id.
    pub open spec fn cached_services(&self) -> ServicesByEnvironment {
        Map::new(
            |environment: Seq<char>| self.services_cache@.contains_key(environment),
            |environment: Seq<char>| self.services_cache@[environment]@,
        )
    }

    /// The relationships cached, by environment.
    pub open spec fn cached_relationships(&self) -> Map<Seq<char>, Seq<RelationshipView>> {
        Map::new(
            |environment: Seq<char>| self.relationships_cache@.contains_key(environment),
            |environment: Seq<char>| self.relationships_cache@[environment].deep_view(),
        )
    }

    /// A state for the data under `data_path`, with `dev` as the current
    /// environment and nothing cached.
    pub fn new(data_path: String) -> (res: Self)
        ensures
            res.wf(),
            res.current_environment@ == "dev"@,
            res.data_path == data_path,
            res.cached_services() == ServicesByEnvironment::empty(),
            res.cached_relationships() == Map::<Seq<char>, Seq<RelationshipView>>::empty(),
    {
        let res = AppState {
            current_environment: String::from_str("dev"),
            data_path,
            services_cache: Keyed::new(),
            relationships_cache: Keyed::new(),
        };
        assert(res.cached_services() =~= ServicesByEnvironment::empty());
        assert(res.cached_relationships() =~= Map::<Seq<char>, Seq<RelationshipView>>::empty());
        res
    }

    /// Forgets everything cached, for every environment.
    pub fn clear_cache(&mut self)
        ensures
            final(self).wf(),
            final(self).current_environment == old(self).current_environment,
            final(self).data_path == old(self).data_path,
            final(self).cached_services() == ServicesByEnvironment::empty(),
            final(self).cached_relationships() == Map::<Seq<char>, Seq<RelationshipView>>::empty(),
    {
        self.services_cache.clear();
        self.relationships_cache.clear();
        assert(self.cached_services() =~= ServicesByEnvironment::empty());
        assert(self.cached_relationships() =~= Map::<Seq<char>, Seq<RelationshipView>>::empty());
    }

    /// Forgets what is cached for one environment, services and
    /// relationships alike.
    pub fn clear_environment_cache(&mut self, environment: &str)
        requires
            old(self).wf(),
        ensures
            final(self).wf(),
            final(self).current_environment == old(self).current_environment,
            final(self).data_path == old(self).data_path,
            final(self).cached_services() == old(self).cached_services().remove(environment@),
            final(self).cached_relationships() == old(self).cached_relationships().remove(
                environment@,
            ),
    {
        self.services_cache.remove(environment);
        self.relationships_cache.remove(environment);
        assert(self.cached_services() =~= old(self).cached_services().remove(environment@));
        assert(self.cached_relationships() =~= old(self).cached_relationships().remove(
            environment@,
        ));
    }
}

} // verus!
