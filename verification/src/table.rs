//! The services of one environment, keyed by id.

use crate::service::{Service, ServiceView};
use vstd::hash_map::StringHashMap;
use vstd::prelude::*;

verus! {

/// The services of one environment, each under its id: no two services of
/// a table share an id.
pub struct ServiceTable {
    items: Vec<Service>,
    index: StringHashMap<usize>,
}

impl View for ServiceTable {
    type V = Map<Seq<char>, ServiceView>;

    closed spec fn view(&self) -> Map<Seq<char>, ServiceView> {
        Map::new(
            |k: Seq<char>| self.index@.contains_key(k),
            |k: Seq<char>| self.items[self.index@[k] as int].deep_view(),
        )
    }
}

/// The table that a list of services fills: each service under its id, a
/// later service taking the place of an earlier one with the same id.
pub open spec fn table_of(services: Seq<ServiceView>) -> Map<Seq<char>, ServiceView>
    decreases services.len(),
{
    if services.len() == 0 {
        Map::empty()
    } else {
        table_of(services.drop_last()).insert(services.last().id, services.last())
    }
}

impl ServiceTable {
    /// The index leads from each id to the service that bears it, and every
    /// service is found under its id.
    pub closed spec fn wf(&self) -> bool {
        &&& forall|k: Seq<char>| #[trigger]
            self.index@.contains_key(k) ==> self.index@[k] < self.items.len()
                && self.items[self.index@[k] as int].id@ == k
        &&& forall|i: int|
            0 <= i < self.items.len() ==> self.index@.contains_key(#[trigger] self.items[i].id@)
                && self.index@[self.items[i].id@] == i
    }

    /// The services of the table, in the order in which it holds them.
    pub closed spec fn entries(&self) -> Seq<ServiceView> {
        self.items.deep_view()
    }

    /// Every service of a table is found under its own id, the entries are
    /// the services of the table, and no two entries share an id.
    pub proof fn lemma_entries(&self)
        requires
            self.wf(),
        ensures
            forall|k: Seq<char>| #[trigger] self@.contains_key(k) ==> self@[k].id == k,
            forall|i: int|
                0 <= i < self.entries().len() ==> self@.contains_key(
                    (#[trigger] self.entries()[i]).id,
                ) && self@[self.entries()[i].id] == self.entries()[i],
            forall|k: Seq<char>| #[trigger]
                self@.contains_key(k) ==> exists|i: int|
                    0 <= i < self.entries().len() && #[trigger] self.entries()[i] == self@[k],
            forall|i: int, j: int|
                0 <= i < j < self.entries().len() ==> (#[trigger] self.entries()[i]).id != (
                #[trigger] self.entries()[j]).id,
    {
        assert forall|k: Seq<char>| #[trigger] self@.contains_key(k) implies exists|i: int|
            0 <= i < self.entries().len() && #[trigger] self.entries()[i] == self@[k] by {
            let p = self.index@[k] as int;
            assert(self.entries()[p] == self@[k]);
        }
        assert forall|i: int, j: int| 0 <= i < j < self.entries().len() implies (
        #[trigger] self.entries()[i]).id != (#[trigger] self.entries()[j]).id by {
            assert(self.index@[self.items[i].id@] == i);
            assert(self.index@[self.items[j].id@] == j);
        }
    }

    /// A table without services.
    pub fn new() -> (res: Self)
        ensures
            res.wf(),
            res@ == Map::<Seq<char>, ServiceView>::empty(),
    {
        let res = ServiceTable { items: Vec::new(), index: StringHashMap::new() };
        assert(res@ =~= Map::<Seq<char>, ServiceView>::empty());
        res
    }

    /// The number of services.
    pub fn len(&self) -> (res: usize)
        requires
            self.wf(),
        ensures
            res == self.entries().len(),
    {
        self.items.len()
    }

    /// Whether the table has a service with this id.
    pub fn contains(&self, id: &str) -> (res: bool)
        requires
            self.wf(),
        ensures
            res == self@.contains_key(id@),
    {
        self.index.contains_key(id)
    }

    /// The service with this id, if the table has one.
    pub fn get(&self, id: &str) -> (res: Option<&Service>)
        requires
            self.wf(),
        ensures
            match res {
                Some(service) => self@.contains_key(id@) && service.deep_view() == self@[id@]
                    && service.id@ == id@,
                None => !self@.contains_key(id@),
            },
    {
        match self.index.get(id) {
            Some(position) => Some(&self.items[*position]),
            None => None,
        }
    }

    /// The service at a position of `entries`.
    pub fn entry(&self, position: usize) -> (res: &Service)
        requires
            self.wf(),
            position < self.entries().len(),
        ensures
            res.deep_view() == self.entries()[position as int],
    {
        &self.items[position]
    }

    /// Puts a service into the table, in place of the one with the same id
    /// if there is one.
    pub fn insert(&mut self, service: Service)
        requires
            old(self).wf(),
        ensures
            final(self).wf(),
            final(self)@ == old(self)@.insert(service.id@, service.deep_view()),
    {
        let found = match self.index.get(service.id.as_str()) {
            Some(position) => Some(*position),
            None => None,
        };
        match found {
            Some(position) => {
                self.items[position] = service;
                proof {
                    assert(self@ =~= old(self)@.insert(service.id@, service.deep_view()));
                }
            },
            None => {
                let position = self.items.len();
                self.index.insert(service.id.clone(), position);
                self.items.push(service);
                proof {
                    assert(self@ =~= old(self)@.insert(service.id@, service.deep_view()));
                }
            },
        }
    }

    /// Takes the service with this id out of the table. Returns whether
    /// there was one.
    pub fn remove(&mut self, id: &str) -> (res: bool)
        requires
            old(self).wf(),
        ensures
            final(self).wf(),
            res == old(self)@.contains_key(id@),
            final(self)@ == old(self)@.remove(id@),
    {
        let found = match self.index.get(id) {
            Some(position) => Some(*position),
            None => None,
        };
        match found {
            Some(position) => {
                let last = self.items.len() - 1;
                if position < last {
                    let moved = self.items[last].id.clone();
                    self.index.insert(moved, position);
                }
                self.index.remove(id);
                self.items.swap_remove(position);
                proof {
                    assert(self@ =~= old(self)@.remove(id@));
                }
                true
            },
            None => {
                assert(self@ =~= old(self)@.remove(id@));
                false
            },
        }
    }

    /// Fills a table from a list of services. Of two services with the same
    /// id the later one stays.
    pub fn from_services(services: &[Service]) -> (res: Self)
        ensures
            res.wf(),
            res@ == table_of(services.deep_view()),
    {
        let ghost views = services.deep_view();
        let mut table = ServiceTable::new();
        let mut i: usize = 0;
        assert(views.take(0) =~= Seq::<ServiceView>::empty());
        while i < services.len()
            invariant
                i <= services.len(),
                views == services.deep_view(),
                table.wf(),
                table@ == table_of(views.take(i as int)),
            decreases services.len() - i,
        {
            proof {
                assert(views.take(i + 1).drop_last() =~= views.take(i as int));
                assert(views.take(i + 1).last() == services[i as int].deep_view());
            }
            table.insert(services[i].clone());
            i += 1;
        }
        assert(views.take(i as int) =~= views);
        table
    }

    /// Copies of all the services of the table, in the order of `entries`.
    pub fn values(&self) -> (res: Vec<Service>)
        requires
            self.wf(),
        ensures
            res.deep_view() == self.entries(),
    {
        let mut out: Vec<Service> = Vec::new();
        let mut i: usize = 0;
        while i < self.items.len()
            invariant
                i <= self.items.len(),
                out.len() == i,
                forall|k: int| 0 <= k < i ==> out[k].deep_view() == self.items[k].deep_view(),
            decreases self.items.len() - i,
        {
            out.push(self.items[i].clone());
            i += 1;
        }
        assert(out.deep_view() =~= self.entries());
        out
    }
}

} // verus!
