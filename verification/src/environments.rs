//! Environments: the order in which they are listed, and the parts of the
//! shared state that say which one is current and where the data lies.

use crate::relationship::RelationshipView;
use crate::state::{AppState, ServicesByEnvironment};
use crate::text::{
    lemma_lex_less_asymmetric, lemma_lex_less_transitive, less_than, lex_less, same_text,
};
use crate::views::lemma_deep_view_insert;
use vstd::prelude::*;
use vstd::string::StrSliceExecFns;

verus! {

/// The rank of an environment in a listing: development first, then
/// staging, then production, then all others.
pub open spec fn environment_rank(name: Seq<char>) -> nat {
    if name == "dev"@ || name == "development"@ {
        0
    } else if name == "staging"@ || name == "stage"@ {
        1
    } else if name == "prod"@ || name == "production"@ {
        2
    } else {
        3
    }
}

/// The order of a listing: by rank, and by name within a rank.
pub open spec fn environment_before(a: Seq<char>, b: Seq<char>) -> bool {
    environment_rank(a) < environment_rank(b) || (environment_rank(a) == environment_rank(b)
        && lex_less(a, b))
}

/// A name that starts with a dot is hidden.
pub open spec fn is_hidden(name: Seq<char>) -> bool {
    name.len() > 0 && name[0] == '.'
}

/// The test by which a listing keeps a name.
pub open spec fn visible() -> spec_fn(Seq<char>) -> bool {
    |name: Seq<char>| !is_hidden(name)
}

/// No name of the list comes before an earlier one.
pub open spec fn is_listing_order(names: Seq<Seq<char>>) -> bool {
    forall|i: int, j: int|
        0 <= i < j < names.len() ==> !environment_before(#[trigger] names[j], #[trigger] names[i])
}

/// The rank of an environment.
pub fn rank_of(name: &str) -> (res: u8)
    ensures
        res == environment_rank(name@),
{
    if same_text(name, "dev") || same_text(name, "development") {
        0
    } else if same_text(name, "staging") || same_text(name, "stage") {
        1
    } else if same_text(name, "prod") || same_text(name, "production") {
        2
    } else {
        3
    }
}

/// Whether one environment is listed before another.
pub fn comes_before(a: &str, b: &str) -> (res: bool)
    ensures
        res == environment_before(a@, b@),
{
    let rank_a = rank_of(a);
    let rank_b = rank_of(b);
    rank_a < rank_b || (rank_a == rank_b && less_than(a, b))
}

/// Whether a name starts with a dot.
pub fn hidden(name: &str) -> (res: bool)
    ensures
        res == is_hidden(name@),
{
    if name.unicode_len() == 0 {
        false
    } else {
        name.get_char(0) == '.'
    }
}

proof fn lemma_before_transitive(a: Seq<char>, b: Seq<char>, c: Seq<char>)
    requires
        environment_before(a, b),
        environment_before(b, c),
    ensures
        environment_before(a, c),
{
    if environment_rank(a) == environment_rank(b) && environment_rank(b) == environment_rank(c) {
        lemma_lex_less_transitive(a, b, c);
    }
}

proof fn lemma_insert_to_multiset(names: Seq<Seq<char>>, at: int, name: Seq<char>)
    requires
        0 <= at <= names.len(),
    ensures
        names.insert(at, name).to_multiset() == names.to_multiset().insert(name),
{
    broadcast use vstd::seq_lib::group_to_multiset_ensures;

    let longer = names.insert(at, name);
    assert(longer[at] == name);
    assert(longer.remove(at) =~= names);
    assert(longer.remove(at).to_multiset() =~= longer.to_multiset().remove(name));
    assert(longer.contains(name));
    assert(longer.to_multiset().count(name) > 0);
    assert(longer.to_multiset() =~= names.to_multiset().insert(name));
}

/// Lists the environments among the given directory names: the hidden ones
/// are left out, and the others are put into the order of a listing.
pub fn list_environments(names: &[String]) -> (res: Vec<String>)
    ensures
        is_listing_order(res.deep_view()),
        res.deep_view().to_multiset() == names.deep_view().filter(visible()).to_multiset(),
{
    let ghost all = names.deep_view();
    let mut out: Vec<String> = Vec::new();
    let mut i: usize = 0;
    proof {
        reveal(Seq::filter);
        assert(all.take(0) =~= Seq::<Seq<char>>::empty());
        assert(out.deep_view() =~= all.take(0).filter(visible()));
    }
    while i < names.len()
        invariant
            i <= names.len(),
            all == names.deep_view(),
            is_listing_order(out.deep_view()),
            out.deep_view().to_multiset() == all.take(i as int).filter(visible()).to_multiset(),
        decreases names.len() - i,
    {
        let name = &names[i];
        proof {
            reveal(Seq::filter);
            assert(all.take(i + 1).drop_last() =~= all.take(i as int));
            assert(all.take(i + 1).last() == name@);
        }
        if !hidden(name.as_str()) {
            let ghost listed = out.deep_view();
            let mut at: usize = 0;
            while at < out.len() && !comes_before(name.as_str(), out[at].as_str())
                invariant
                    at <= out.len(),
                    listed == out.deep_view(),
                    forall|k: int| 0 <= k < at ==> !environment_before(name@, #[trigger] listed[k]),
                decreases out.len() - at,
            {
                assert(listed[at as int] == out[at as int]@);
                at += 1;
            }
            let ghost before = out;
            let copy = name.clone();
            out.insert(at, copy);
            proof {
                broadcast use vstd::seq_lib::group_to_multiset_ensures;

                lemma_deep_view_insert(before, out, at as int, copy);
                let longer = out.deep_view();
                assert(longer == listed.insert(at as int, name@));
                lemma_insert_to_multiset(listed, at as int, name@);
                if at < listed.len() {
                    assert(listed[at as int] == before[at as int]@);
                    assert(environment_before(name@, listed[at as int]));
                }
                assert forall|a: int, b: int| 0 <= a < b < longer.len() implies
                    !environment_before(#[trigger] longer[b], #[trigger] longer[a]) by {
                    if b == at {
                        assert(longer[a] == listed[a]);
                    } else if a == at {
                        assert(longer[b] == listed[b - 1]);
                        if environment_before(longer[b], name@) {
                            lemma_before_transitive(longer[b], name@, listed[at as int]);
                            if b - 1 == at {
                                lemma_lex_less_asymmetric(listed[at as int], listed[at as int]);
                            }
                        }
                    } else if b < at {
                        assert(longer[a] == listed[a] && longer[b] == listed[b]);
                    } else if a < at {
                        assert(longer[a] == listed[a] && longer[b] == listed[b - 1]);
                    } else {
                        assert(longer[a] == listed[a - 1] && longer[b] == listed[b - 1]);
                    }
                }
            }
        }
        i += 1;
    }
    assert(all.take(i as int) =~= all);
    out
}

/// The environment that is current.
pub fn get_current_environment(state: &AppState) -> (res: String)
    ensures
        res@ == state.current_environment@,
{
    state.current_environment.clone()
}

/// Makes an environment the current one. The cache stays as it is.
pub fn switch_environment(state: &mut AppState, environment: String)
    ensures
        final(state).current_environment == environment,
        final(state).data_path == old(state).data_path,
        final(state).services_cache == old(state).services_cache,
        final(state).relationships_cache == old(state).relationships_cache,
{
    state.current_environment = environment;
}

/// Moves the root of the stored data. Everything cached is forgotten, for
/// every environment, whether or not the path differs from the old one.
pub fn set_data_path(state: &mut AppState, path: String)
    ensures
        final(state).wf(),
        final(state).data_path == path,
        final(state).current_environment == old(state).current_environment,
        final(state).cached_services() == ServicesByEnvironment::empty(),
        final(state).cached_relationships() == Map::<Seq<char>, Seq<RelationshipView>>::empty(),
{
    state.clear_cache();
    state.data_path = path;
}

} // verus!
