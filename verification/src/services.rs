//! Operations on the services of an environment: reading through the
//! cache, searching, and keeping the cache in step with what was written.
//!
//! Loading and storing are the caller's part. A read says when the cache
//! cannot answer, the caller then loads and hands over what it got; a
//! write is reported once the store has taken it.

use crate::error::{AppError, AppErrorView};
use crate::service::{service_matches, Service, ServiceView};
use crate::state::{AppState, ServicesByEnvironment};
use crate::table::{table_of, ServiceTable};
use crate::views::lemma_deep_view_push;
use vstd::prelude::*;

verus! {

/// What the cache knows of a service.
#[derive(Debug)]
pub enum ServiceLookup {
    /// The cache has the service.
    Found(Service),
    /// The environment is cached and has no service with this id.
    Absent,
    /// Nothing is cached for the environment.
    NotLoaded,
}

/// The mathematical value of a [`ServiceLookup`].
pub enum ServiceLookupView {
    Found(ServiceView),
    Absent,
    NotLoaded,
}

impl DeepView for ServiceLookup {
    type V = ServiceLookupView;

    open spec fn deep_view(&self) -> ServiceLookupView {
        match self {
            ServiceLookup::Found(service) => ServiceLookupView::Found(service.deep_view()),
            ServiceLookup::Absent => ServiceLookupView::Absent,
            ServiceLookup::NotLoaded => ServiceLookupView::NotLoaded,
        }
    }
}

/// What a cache knows of the service `id` of `environment`.
pub open spec fn lookup_service(
    cache: ServicesByEnvironment,
    environment: Seq<char>,
    id: Seq<char>,
) -> ServiceLookupView {
    if !cache.contains_key(environment) {
        ServiceLookupView::NotLoaded
    } else if !cache[environment].contains_key(id) {
        ServiceLookupView::Absent
    } else {
        ServiceLookupView::Found(cache[environment][id])
    }
}

/// A cache after a service of `environment` was saved: the service stands
/// under its id, in a table that is made if the environment had none.
pub open spec fn with_service(
    cache: ServicesByEnvironment,
    environment: Seq<char>,
    service: ServiceView,
) -> ServicesByEnvironment {
    let table = if cache.contains_key(environment) {
        cache[environment]
    } else {
        Map::empty()
    };
    cache.insert(environment, table.insert(service.id, service))
}

/// A cache after the service `id` of `environment` was deleted: an
/// environment that is not cached stays so.
pub open spec fn without_service(
    cache: ServicesByEnvironment,
    environment: Seq<char>,
    id: Seq<char>,
) -> ServicesByEnvironment {
    if cache.contains_key(environment) {
        cache.insert(environment, cache[environment].remove(id))
    } else {
        cache
    }
}

/// A service that was saved is read back from the cache as it was saved:
/// the cache answers, and nothing needs to be loaded.
pub proof fn lemma_saved_service_is_found(
    cache: ServicesByEnvironment,
    environment: Seq<char>,
    service: ServiceView,
)
    ensures
        lookup_service(with_service(cache, environment, service), environment, service.id)
            == ServiceLookupView::Found(service),
{
}

/// All the services of an environment, if they are cached; `None` means
/// that they have to be loaded.
pub fn get_all_services(state: &AppState, environment: &str) -> (res: Option<Vec<Service>>)
    requires
        state.wf(),
    ensures
        match res {
            Some(services) => state.cached_services().contains_key(environment@)
                && services.deep_view() == state.services_cache@[environment@].entries(),
            None => !state.cached_services().contains_key(environment@),
        },
{
    match state.services_cache.get(environment) {
        Some(table) => Some(table.values()),
        None => None,
    }
}

/// Takes the services that were loaded for an environment into the cache,
/// each under its id, and hands them back.
pub fn services_loaded(state: &mut AppState, environment: String, services: Vec<Service>) -> (res:
    Vec<Service>)
    requires
        old(state).wf(),
    ensures
        final(state).wf(),
        res == services,
        final(state).cached_services() == old(state).cached_services().insert(
            environment@,
            table_of(services.deep_view()),
        ),
        final(state).cached_relationships() == old(state).cached_relationships(),
        final(state).current_environment == old(state).current_environment,
        final(state).data_path == old(state).data_path,
{
    let table = ServiceTable::from_services(services.as_slice());
    state.services_cache.insert(environment, table);
    assert(state.cached_services() =~= old(state).cached_services().insert(
        environment@,
        table_of(services.deep_view()),
    ));
    services
}

/// Looks a service up in the cache.
pub fn get_service_by_id(state: &AppState, environment: &str, service_id: &str) -> (res:
    ServiceLookup)
    requires
        state.wf(),
    ensures
        res.deep_view() == lookup_service(state.cached_services(), environment@, service_id@),
{
    match state.services_cache.get(environment) {
        Some(table) => match table.get(service_id) {
            Some(service) => ServiceLookup::Found(service.clone()),
            None => ServiceLookup::Absent,
        },
        None => ServiceLookup::NotLoaded,
    }
}

/// Looks a service up once its environment has been loaded: it is an error
/// if the cache does not have it then.
pub fn get_loaded_service(state: &AppState, environment: &str, service_id: &str) -> (res: Result<
    Service,
    AppError,
>)
    requires
        state.wf(),
    ensures
        match res {
            Ok(service) => lookup_service(state.cached_services(), environment@, service_id@)
                == ServiceLookupView::Found(service.deep_view()),
            Err(error) => !(lookup_service(state.cached_services(), environment@, service_id@)
                is Found) && error.deep_view() == AppErrorView::ServiceNotFound(service_id@),
        },
{
    match get_service_by_id(state, environment, service_id) {
        ServiceLookup::Found(service) => Ok(service),
        _ => Err(AppError::ServiceNotFound(service_id.to_owned())),
    }
}

/// Puts a service that was stored into the cache, in place of the one with
/// the same id.
pub fn save_service(state: &mut AppState, environment: String, service: Service)
    requires
        old(state).wf(),
    ensures
        final(state).wf(),
        final(state).cached_services() == with_service(
            old(state).cached_services(),
            environment@,
            service.deep_view(),
        ),
        final(state).cached_relationships() == old(state).cached_relationships(),
        final(state).current_environment == old(state).current_environment,
        final(state).data_path == old(state).data_path,
{
    let mut table = match state.services_cache.remove(environment.as_str()) {
        Some(table) => table,
        None => ServiceTable::new(),
    };
    table.insert(service);
    state.services_cache.insert(environment, table);
    assert(state.cached_services() =~= with_service(
        old(state).cached_services(),
        environment@,
        service.deep_view(),
    ));
}

/// Takes a service that was deleted from the store out of the cache.
pub fn delete_service(state: &mut AppState, environment: &str, service_id: &str)
    requires
        old(state).wf(),
    ensures
        final(state).wf(),
        final(state).cached_services() == without_service(
            old(state).cached_services(),
            environment@,
            service_id@,
        ),
        final(state).cached_relationships() == old(state).cached_relationships(),
        final(state).current_environment == old(state).current_environment,
        final(state).data_path == old(state).data_path,
{
    match state.services_cache.remove(environment) {
        Some(mut table) => {
            table.remove(service_id);
            state.services_cache.insert(environment.to_owned(), table);
        },
        None => {},
    }
    assert(state.cached_services() =~= without_service(
        old(state).cached_services(),
        environment@,
        service_id@,
    ));
}

/// The test by which a search keeps a service.
pub open spec fn matching(query: Seq<char>) -> spec_fn(ServiceView) -> bool {
    |service: ServiceView| service_matches(service, query)
}

/// The services that match a query, in the order given.
pub fn search_services(services: &[Service], query: &str) -> (res: Vec<Service>)
    ensures
        res.deep_view() == services.deep_view().filter(matching(query@)),
{
    let ghost views = services.deep_view();
    let mut out: Vec<Service> = Vec::new();
    let mut i: usize = 0;
    proof {
        reveal(Seq::filter);
        assert(views.take(0) =~= Seq::<ServiceView>::empty());
        assert(out.deep_view() =~= views.take(0).filter(matching(query@)));
    }
    while i < services.len()
        invariant
            i <= services.len(),
            views == services.deep_view(),
            out.deep_view() == views.take(i as int).filter(matching(query@)),
        decreases services.len() - i,
    {
        proof {
            reveal(Seq::filter);
            assert(views.take(i + 1).drop_last() =~= views.take(i as int));
            assert(views.take(i + 1).last() == services[i as int].deep_view());
        }
        if services[i].matches_search(query) {
            let ghost before = out@;
            let copy = services[i].clone();
            out.push(copy);
            proof {
                lemma_deep_view_push(before, out, copy);
            }
        }
        i += 1;
    }
    assert(views.take(i as int) =~= views);
    out
}

} // verus!
