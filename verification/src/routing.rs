//! Which providers a request goes to, and in which order.
use crate::json::str_view;
use crate::names::{
    holds_name, lemma_place, names_in_order, place_name, place_of, place_view, position_of,
};
use crate::policy::{
    apply_group_policy, apply_group_policy_with_roll, by_policy, candidate_views, is_arrangement,
    is_fair_roll, law_policies_keep_candidates, law_sorting_keeps_candidates, sort_candidates,
    sorted, weight_before, Candidate, CandidateView, GroupPolicy, HealthFailureKind, LoadOrder,
    PolicyRoll, RoundRobin,
};
use crate::text::{concat2, concat3, same, string_view, texts};
use vstd::prelude::*;
use vstd::string::*;

verus! {

/// A turn to try a provider of higher priority than the one that a session is
/// bound to.
#[derive(Debug, Clone, Copy, PartialEq, Eq, Structural)]
pub struct FailbackClaim {
    pub manual: bool,
    pub automatic: bool,
}

/// What the route of a request depends on besides the providers.
#[derive(Debug)]
pub struct RouteQuery {
    pub policy: GroupPolicy,
    pub fallback_enabled: bool,
    /// The providers of the group, the most important first.
    pub provider_order: Vec<String>,
    /// The provider that is meant to be tried again on request.
    pub failback_target: Option<String>,
    /// The provider that the session was set to.
    pub explicit_provider: Option<String>,
    /// The provider that answered the session before.
    pub affinity_provider: Option<String>,
    pub claim: Option<FailbackClaim>,
    /// How many further providers may be tried; 0 for all.
    pub retry_budget: u16,
}

/// What a `RouteQuery` holds.
#[verifier::ext_equal]
pub struct RouteQueryView {
    pub policy: GroupPolicy,
    pub fallback_enabled: bool,
    pub provider_order: Seq<Seq<char>>,
    pub failback_target: Option<Seq<char>>,
    pub explicit_provider: Option<Seq<char>>,
    pub affinity_provider: Option<Seq<char>>,
    pub claim: Option<FailbackClaim>,
    pub retry_budget: u16,
}

impl View for RouteQuery {
    type V = RouteQueryView;

    open spec fn view(&self) -> RouteQueryView {
        RouteQueryView {
            policy: self.policy,
            fallback_enabled: self.fallback_enabled,
            provider_order: texts(self.provider_order@),
            failback_target: string_view(self.failback_target),
            explicit_provider: string_view(self.explicit_provider),
            affinity_provider: string_view(self.affinity_provider),
            claim: self.claim,
            retry_budget: self.retry_budget,
        }
    }
}

/// The ids of a list of candidates.
pub open spec fn ids_of(list: Seq<CandidateView>) -> Seq<Seq<char>> {
    Seq::new(list.len(), |i: int| list[i].id)
}

/// Where a candidate of an id first stands in a list.
pub fn candidate_position(candidates: &Vec<Candidate>, id: &str) -> (place: Option<usize>)
    ensures
        place_view(place) == place_of(ids_of(candidate_views(candidates@)), id@),
        place matches Some(index) ==> index < candidates@.len()
            && candidates@[index as int]@.id == id@,
{
    let ghost all = ids_of(candidate_views(candidates@));
    let mut index: usize = 0;
    while index < candidates.len()
        invariant
            index <= candidates@.len(),
            all == ids_of(candidate_views(candidates@)),
            place_of(all, id@) == crate::names::place_from(all, id@, index as int),
        decreases candidates@.len() - index,
    {
        assert(all[index as int] == candidates@[index as int]@.id);
        if same(candidates[index].id.as_str(), id) {
            return Some(index);
        }
        index += 1;
    }
    None
}

/// The provider that a session was set to, where the group holds it and it is
/// switched on.
pub open spec fn preference_of(
    stored: Option<Seq<char>>,
    provider_order: Seq<Seq<char>>,
    enabled: Seq<Seq<char>>,
) -> Option<Seq<char>> {
    match stored {
        Some(id) if provider_order.contains(id) && enabled.contains(id) => Some(id),
        _ => None,
    }
}

/// The provider that a session was set to, where it can be used.
pub fn explicit_preference(
    stored: Option<String>,
    provider_order: &Vec<String>,
    enabled: &Vec<String>,
) -> (preference: Option<String>)
    ensures
        string_view(preference) == preference_of(
            string_view(stored),
            texts(provider_order@),
            texts(enabled@),
        ),
{
    match stored {
        Some(id) => if holds_name(provider_order, id.as_str()) && holds_name(
            enabled,
            id.as_str(),
        ) {
            Some(id)
        } else {
            None
        },
        None => None,
    }
}

/// The candidates of a group, with the one that a session was set to added where
/// it is missing.
pub open spec fn with_preference(
    list: Seq<CandidateView>,
    preferred: Option<CandidateView>,
) -> Seq<CandidateView> {
    match preferred {
        Some(candidate) if !ids_of(list).contains(candidate.id) => list.push(candidate),
        _ => list,
    }
}

/// Adds the candidate that a session was set to where it is missing.
pub fn add_preference(selected: Vec<Candidate>, preferred: Option<Candidate>) -> (result: Vec<
    Candidate,
>)
    ensures
        candidate_views(result@) == with_preference(
            candidate_views(selected@),
            match preferred {
                Some(candidate) => Some(candidate@),
                None => None,
            },
        ),
{
    match preferred {
        Some(candidate) => {
            proof {
                lemma_place(ids_of(candidate_views(selected@)), candidate.id@, 0);
            }
            if candidate_position(&selected, candidate.id.as_str()).is_some() {
                selected
            } else {
                let ghost before = selected@;
                let mut result = selected;
                result.push(candidate);
                assert(candidate_views(result@) =~= candidate_views(before).push(candidate@));
                result
            }
        },
        None => selected,
    }
}

/// The models that providers name, without the word for any model.
pub open spec fn models_named(model_maps: Seq<Seq<Seq<char>>>, count: int) -> Seq<Seq<char>>
    decreases count,
{
    if !(0 < count <= model_maps.len()) {
        seq![]
    } else {
        models_named(model_maps, count - 1) + model_maps[count - 1].filter(
            |model: Seq<char>| model != "default"@,
        )
    }
}

/// What lists of names hold.
pub open spec fn name_lists(lists: Seq<Vec<String>>) -> Seq<Seq<Seq<char>>> {
    Seq::new(lists.len(), |i: int| texts(lists[i]@))
}

/// The models that providers offer by name, in ascending order.
pub fn offered_models(model_maps: &Vec<Vec<String>>) -> (models: Vec<String>)
    ensures
        texts(models@) == names_in_order(
            models_named(name_lists(model_maps@), model_maps@.len() as int),
        ),
{
    let ghost all = name_lists(model_maps@);
    let ghost named = |model: Seq<char>| model != "default"@;
    let mut models: Vec<String> = Vec::new();
    let mut index: usize = 0;
    assert(texts(models@) =~= names_in_order(models_named(all, 0)));
    while index < model_maps.len()
        invariant
            index <= model_maps@.len(),
            all == name_lists(model_maps@),
            named == (|model: Seq<char>| model != "default"@),
            texts(models@) == names_in_order(models_named(all, index as int)),
        decreases model_maps@.len() - index,
    {
        let list = &model_maps[index];
        let ghost current = texts(list@);
        let ghost before = models_named(all, index as int);
        assert(all[index as int] == current);
        let mut at: usize = 0;
        assert(before + current.take(0).filter(named) =~= before) by {
            reveal(Seq::filter);
        }
        while at < list.len()
            invariant
                at <= list@.len(),
                current == texts(list@),
                named == (|model: Seq<char>| model != "default"@),
                texts(models@) == names_in_order(before + current.take(at as int).filter(named)),
            decreases list@.len() - at,
        {
            proof {
                reveal(Seq::filter);
                let more = current.take(at + 1);
                assert(more.drop_last() =~= current.take(at as int));
                assert(more.last() == list@[at as int]@);
                let whole = before + more.filter(named);
                if named(more.last()) {
                    assert(whole.drop_last() =~= before + current.take(at as int).filter(named));
                }
            }
            if !same(list[at].as_str(), "default") {
                place_name(&mut models, list[at].as_str());
            }
            at += 1;
        }
        assert(current.take(at as int) =~= current);
        index += 1;
    }
    models
}

/// Whether a request may claim a turn to try a provider of higher priority: one
/// whose session is bound, and was not set to a provider.
pub open spec fn may_claim(query: RouteQueryView) -> bool {
    query.explicit_provider is None && query.affinity_provider is Some
}

/// The turn that a request has.
pub open spec fn claim_of(query: RouteQueryView) -> Option<FailbackClaim> {
    if may_claim(query) {
        query.claim
    } else {
        None
    }
}

/// Whether a group tries its providers in order of priority.
pub open spec fn ranks_providers(query: RouteQueryView) -> bool {
    query.policy is PriorityFallback && query.fallback_enabled
}

/// The best-placed candidate below a rank among the first of a list, with its
/// rank. Of candidates of one rank it is the last.
pub open spec fn nearest_before(
    order: Seq<Seq<char>>,
    list: Seq<CandidateView>,
    rank: int,
    count: int,
) -> Option<(int, Seq<char>)>
    decreases count,
{
    if !(0 < count <= list.len()) {
        None
    } else {
        let best = nearest_before(order, list, rank, count - 1);
        match (place_of(order, list[count - 1].id), best) {
            (Some(place), Some((other, _))) if place < rank && other <= place => Some(
                (place, list[count - 1].id),
            ),
            (Some(place), None) if place < rank => Some((place, list[count - 1].id)),
            _ => best,
        }
    }
}

/// The candidate that comes nearest before a provider in the order of a group.
pub open spec fn nearest_of(
    query: RouteQueryView,
    list: Seq<CandidateView>,
    preferred: Seq<char>,
) -> Option<Seq<char>> {
    if !ranks_providers(query) {
        None
    } else {
        match place_of(query.provider_order, preferred) {
            Some(rank) => match nearest_before(
                query.provider_order,
                list,
                rank,
                list.len() as int,
            ) {
                Some((_, id)) => Some(id),
                None => None,
            },
            None => None,
        }
    }
}

/// The candidate that comes nearest before a provider in the order of a group.
pub fn nearest_higher_priority_provider(
    query: &RouteQuery,
    candidates: &Vec<Candidate>,
    preferred_provider: &str,
) -> (nearest: Option<String>)
    ensures
        string_view(nearest) == nearest_of(
            query@,
            candidate_views(candidates@),
            preferred_provider@,
        ),
{
    if query.policy != GroupPolicy::PriorityFallback || !query.fallback_enabled {
        return None;
    }
    let rank: usize = match position_of(&query.provider_order, preferred_provider) {
        Some(rank) => rank,
        None => {
            return None;
        },
    };
    let ghost order = texts(query.provider_order@);
    let ghost all = candidate_views(candidates@);
    let mut best: Option<(usize, usize)> = None;
    let mut index: usize = 0;
    while index < candidates.len()
        invariant
            index <= candidates@.len(),
            order == texts(query.provider_order@),
            all == candidate_views(candidates@),
            match best {
                Some((place, at)) => at < candidates@.len() && nearest_before(
                    order,
                    all,
                    rank as int,
                    index as int,
                ) == Some((place as int, all[at as int].id)),
                None => nearest_before(order, all, rank as int, index as int) is None,
            },
        decreases candidates@.len() - index,
    {
        assert(all[index as int] == candidates@[index as int]@);
        if let Some(place) = position_of(&query.provider_order, candidates[index].id.as_str()) {
            let better = match best {
                Some((other, _)) => other <= place,
                None => true,
            };
            if place < rank && better {
                best = Some((place, index));
            }
        }
        index += 1;
    }
    match best {
        Some((_, at)) => {
            assert(all[at as int] == candidates@[at as int]@);
            Some(candidates[at].id.clone())
        },
        None => None,
    }
}

proof fn lemma_nearest_before(
    order: Seq<Seq<char>>,
    list: Seq<CandidateView>,
    rank: int,
    count: int,
)
    requires
        0 <= count <= list.len(),
    ensures
        match nearest_before(order, list, rank, count) {
            Some((place, id)) => {
                &&& place_of(order, id) == Some(place)
                &&& place < rank
                &&& exists|i: int| 0 <= i < count && (#[trigger] list[i]).id == id
                &&& forall|i: int|
                    0 <= i < count ==> !((#[trigger] place_of(order, list[i].id)) matches Some(other)
                        && place < other < rank)
            },
            None => forall|i: int|
                0 <= i < count ==> !((#[trigger] place_of(order, list[i].id)) matches Some(other)
                    && other < rank),
        },
    decreases count,
{
    if count > 0 {
        lemma_nearest_before(order, list, rank, count - 1);
        if let Some((place, id)) = nearest_before(order, list, rank, count) {
            if id == list[count - 1].id {
                assert(list[count - 1].id == id);
            }
        }
    }
}

/// The provider that is tried on a turn is a candidate that comes before the
/// one that the session is bound to, and no candidate stands between the two.
pub proof fn law_nearest_is_next_in_rank(
    query: RouteQueryView,
    list: Seq<CandidateView>,
    preferred: Seq<char>,
)
    ensures
        match (nearest_of(query, list, preferred), place_of(query.provider_order, preferred)) {
            (Some(id), Some(rank)) => {
                &&& ids_of(list).contains(id)
                &&& place_of(query.provider_order, id) matches Some(place) && place < rank
                    && forall|i: int|
                    0 <= i < list.len() ==> !((#[trigger] place_of(
                        query.provider_order,
                        list[i].id,
                    )) matches Some(other) && place < other < rank)
            },
            (Some(_), None) => false,
            (None, Some(rank)) => ranks_providers(query) ==> forall|i: int|
                0 <= i < list.len() ==> !((#[trigger] place_of(
                    query.provider_order,
                    list[i].id,
                )) matches Some(other) && other < rank),
            (None, None) => true,
        },
{
    if let Some(rank) = place_of(query.provider_order, preferred) {
        lemma_nearest_before(query.provider_order, list, rank, list.len() as int);
        if let Some(id) = nearest_of(query, list, preferred) {
            let i = choose|i: int| 0 <= i < list.len() && (#[trigger] list[i]).id == id;
            assert(ids_of(list)[i] == id);
        }
    }
}

/// A provider that is meant, where it comes before another in the order of a
/// group and is a candidate.
pub open spec fn specific_of(
    query: RouteQueryView,
    list: Seq<CandidateView>,
    preferred: Seq<char>,
    target: Seq<char>,
) -> Option<Seq<char>> {
    if !ranks_providers(query) {
        None
    } else {
        match (place_of(query.provider_order, preferred), place_of(query.provider_order, target)) {
            (Some(rank), Some(place)) if place < rank && ids_of(list).contains(target) => Some(
                target,
            ),
            _ => None,
        }
    }
}

/// A provider that is meant, where it comes before another in the order of a
/// group and is a candidate.
pub fn specific_higher_priority_provider(
    query: &RouteQuery,
    candidates: &Vec<Candidate>,
    preferred_provider: &str,
    target_provider: &str,
) -> (found: Option<String>)
    ensures
        string_view(found) == specific_of(
            query@,
            candidate_views(candidates@),
            preferred_provider@,
            target_provider@,
        ),
{
    if query.policy != GroupPolicy::PriorityFallback || !query.fallback_enabled {
        return None;
    }
    let rank: usize = match position_of(&query.provider_order, preferred_provider) {
        Some(rank) => rank,
        None => {
            return None;
        },
    };
    let place: usize = match position_of(&query.provider_order, target_provider) {
        Some(place) => place,
        None => {
            return None;
        },
    };
    if place >= rank {
        return None;
    }
    proof {
        lemma_place(ids_of(candidate_views(candidates@)), target_provider@, 0);
    }
    if candidate_position(candidates, target_provider).is_some() {
        Some(target_provider.to_string())
    } else {
        None
    }
}

/// A list without its item of a place; without one it stays as it is.
pub open spec fn without_place(list: Seq<CandidateView>, place: Option<int>) -> Seq<CandidateView> {
    match place {
        Some(index) => list.remove(index),
        None => list,
    }
}

/// The items of a list at a place, none or one.
pub open spec fn at_place(list: Seq<CandidateView>, place: Option<int>) -> Seq<CandidateView> {
    match place {
        Some(index) => seq![list[index]],
        None => seq![],
    }
}

/// The candidates with the one that is tried first in front, where there is
/// one, the one that a session is bound to behind it, and the rest as they were.
pub open spec fn prioritized(
    list: Seq<CandidateView>,
    preferred: Seq<char>,
    probe: Option<Seq<char>>,
) -> Seq<CandidateView> {
    let probe_place = match probe {
        Some(id) => place_of(ids_of(list), id),
        None => None,
    };
    let rest = without_place(list, probe_place);
    let preferred_place = place_of(ids_of(rest), preferred);
    at_place(list, probe_place) + at_place(rest, preferred_place) + without_place(
        rest,
        preferred_place,
    )
}

/// Puts the candidate that is tried first in front, and the one that a session
/// is bound to behind it.
pub fn prioritize_session_affinity(
    candidates: Vec<Candidate>,
    preferred_provider: &str,
    priority_probe_provider: Option<&str>,
) -> (result: Vec<Candidate>)
    ensures
        candidate_views(result@) == prioritized(
            candidate_views(candidates@),
            preferred_provider@,
            str_view(priority_probe_provider),
        ),
{
    let ghost all = candidate_views(candidates@);
    let mut rest = candidates;
    let mut result: Vec<Candidate> = Vec::new();
    let probe_place: Option<usize> = match priority_probe_provider {
        Some(id) => candidate_position(&rest, id),
        None => None,
    };
    if let Some(index) = probe_place {
        assert(all[index as int] == rest@[index as int]@);
        result.push(rest.remove(index));
    }
    let ghost left = without_place(all, place_view(probe_place));
    assert(candidate_views(rest@) =~= left);
    assert(candidate_views(result@) =~= at_place(all, place_view(probe_place)));
    let preferred_place: Option<usize> = candidate_position(&rest, preferred_provider);
    if let Some(index) = preferred_place {
        assert(left[index as int] == rest@[index as int]@);
        result.push(rest.remove(index));
    }
    assert(candidate_views(rest@) =~= without_place(left, place_view(preferred_place)));
    assert(candidate_views(result@) =~= at_place(all, place_view(probe_place)) + at_place(
        left,
        place_view(preferred_place),
    ));
    let ghost front = candidate_views(result@);
    let ghost back = candidate_views(rest@);
    result.append(&mut rest);
    assert(candidate_views(result@) =~= front + back);
    result
}

proof fn lemma_taken_multiset(list: Seq<CandidateView>, place: Option<int>)
    requires
        place matches Some(index) ==> 0 <= index < list.len(),
    ensures
        at_place(list, place).to_multiset().add(without_place(list, place).to_multiset())
            == list.to_multiset(),
{
    broadcast use vstd::seq_lib::group_to_multiset_ensures;

    match place {
        Some(index) => {
            let rest = list.remove(index);
            assert(rest.insert(index, list[index]) =~= list);
            vstd::seq_lib::to_multiset_insert(rest, index, list[index]);
            assert(seq![list[index]] =~= Seq::empty().push(list[index]));
            assert(at_place(list, place).to_multiset().add(rest.to_multiset())
                =~= rest.to_multiset().insert(list[index]));
        },
        None => {
            assert(at_place(list, place).to_multiset().add(list.to_multiset())
                =~= list.to_multiset());
        },
    }
}

/// To put candidates in front neither loses nor adds one.
pub proof fn law_priority_keeps_candidates(
    list: Seq<CandidateView>,
    preferred: Seq<char>,
    probe: Option<Seq<char>>,
)
    ensures
        prioritized(list, preferred, probe).to_multiset() == list.to_multiset(),
        prioritized(list, preferred, probe).len() == list.len(),
{
    broadcast use vstd::seq_lib::group_to_multiset_ensures;

    let probe_place = match probe {
        Some(id) => place_of(ids_of(list), id),
        None => None,
    };
    if let Some(id) = probe {
        lemma_place(ids_of(list), id, 0);
    }
    let rest = without_place(list, probe_place);
    let preferred_place = place_of(ids_of(rest), preferred);
    lemma_place(ids_of(rest), preferred, 0);
    lemma_taken_multiset(list, probe_place);
    lemma_taken_multiset(rest, preferred_place);
    let first = at_place(list, probe_place);
    let second = at_place(rest, preferred_place);
    let third = without_place(rest, preferred_place);
    vstd::seq_lib::lemma_multiset_commutative(first, second);
    vstd::seq_lib::lemma_multiset_commutative(first + second, third);
    assert(prioritized(list, preferred, probe).to_multiset() =~= list.to_multiset());
}

/// The provider that is tried on a turn stands first, and the one that the
/// session is bound to stands behind it, or first where nothing is tried.
pub proof fn law_bound_provider_is_next(
    list: Seq<CandidateView>,
    preferred: Seq<char>,
    probe: Option<Seq<char>>,
)
    requires
        probe != Some(preferred),
        probe matches Some(id) ==> ids_of(list).contains(id),
    ensures
        probe matches Some(id) ==> prioritized(list, preferred, probe)[0].id == id,
        ids_of(list).contains(preferred) ==> prioritized(list, preferred, probe)[if probe is Some {
            1
        } else {
            0
        }].id == preferred,
{
    if let Some(id) = probe {
        lemma_place(ids_of(list), id, 0);
    }
    let probe_place = match probe {
        Some(id) => place_of(ids_of(list), id),
        None => None,
    };
    let rest = without_place(list, probe_place);
    lemma_place(ids_of(rest), preferred, 0);
    if ids_of(list).contains(preferred) {
        let i = choose|i: int| 0 <= i < ids_of(list).len() && ids_of(list)[i] == preferred;
        match probe_place {
            Some(index) => {
                if i < index {
                    assert(ids_of(rest)[i] == preferred);
                } else {
                    assert(i > index);
                    assert(ids_of(rest)[i - 1] == preferred);
                }
            },
            None => {
                assert(ids_of(rest)[i] == preferred);
            },
        }
    }
}

/// What becomes of a candidate.
#[derive(Debug, Clone, Copy, PartialEq, Eq, Structural)]
pub enum CandidateRole {
    /// It takes its turn.
    Ready,
    /// It is tried when all others have failed.
    LastResort,
    /// It is not tried.
    Dropped,
}

/// Whether a failure passes by itself.
pub open spec fn passes(failure: Option<HealthFailureKind>) -> bool {
    match failure {
        None => true,
        Some(kind) => kind is RateLimited || kind is UpstreamFailed || kind is NetworkFailed
            || kind is RequestRejected || kind is Unknown,
    }
}

/// What becomes of a candidate: one whose credentials were refused is not tried
/// at all; one that is asked for, or has no alternatives, or is not left alone
/// takes its turn; of the rest those whose failure passes are kept as a last
/// resort.
pub open spec fn role_of(
    candidate: CandidateView,
    asked_for: Option<Seq<char>>,
    alternatives: bool,
) -> CandidateRole {
    if candidate.auth_failed {
        CandidateRole::Dropped
    } else if asked_for == Some(candidate.id) || !alternatives || (!candidate.cooling_down
        && !candidate.model_cooling_down) {
        CandidateRole::Ready
    } else if passes(candidate.last_failure) {
        CandidateRole::LastResort
    } else {
        CandidateRole::Dropped
    }
}

/// What becomes of a candidate.
pub fn candidate_role(
    candidate: &Candidate,
    asked_for: Option<&str>,
    alternatives: bool,
) -> (role: CandidateRole)
    ensures
        role == role_of(candidate@, str_view(asked_for), alternatives),
{
    if candidate.auth_failed {
        return CandidateRole::Dropped;
    }
    if let Some(id) = asked_for {
        if same(id, candidate.id.as_str()) {
            return CandidateRole::Ready;
        }
    }
    if !alternatives || (!candidate.cooling_down && !candidate.model_cooling_down) {
        return CandidateRole::Ready;
    }
    match candidate.last_failure {
        None => CandidateRole::LastResort,
        Some(HealthFailureKind::RateLimited) => CandidateRole::LastResort,
        Some(HealthFailureKind::UpstreamFailed) => CandidateRole::LastResort,
        Some(HealthFailureKind::NetworkFailed) => CandidateRole::LastResort,
        Some(HealthFailureKind::RequestRejected) => CandidateRole::LastResort,
        Some(HealthFailureKind::Unknown) => CandidateRole::LastResort,
        Some(_) => CandidateRole::Dropped,
    }
}

/// The candidates of a role, as they stand.
pub open spec fn of_role(
    list: Seq<CandidateView>,
    asked_for: Option<Seq<char>>,
    alternatives: bool,
    role: CandidateRole,
) -> Seq<CandidateView>
    decreases list.len(),
{
    if list.len() == 0 {
        seq![]
    } else {
        let before = of_role(list.drop_last(), asked_for, alternatives, role);
        if role_of(list.last(), asked_for, alternatives) == role {
            before.push(list.last())
        } else {
            before
        }
    }
}

/// Parts candidates into those that take their turn and those of last resort.
pub fn part_candidates(
    selected: Vec<Candidate>,
    asked_for: Option<&str>,
    alternatives: bool,
) -> (parts: (Vec<Candidate>, Vec<Candidate>))
    ensures
        candidate_views(parts.0@) == of_role(
            candidate_views(selected@),
            str_view(asked_for),
            alternatives,
            CandidateRole::Ready,
        ),
        candidate_views(parts.1@) == of_role(
            candidate_views(selected@),
            str_view(asked_for),
            alternatives,
            CandidateRole::LastResort,
        ),
{
    let ghost all = candidate_views(selected@);
    let mut rest = selected;
    let mut ready: Vec<Candidate> = Vec::new();
    let mut last: Vec<Candidate> = Vec::new();
    let ghost mut done: int = 0;
    assert(candidate_views(ready@) =~= seq![]);
    assert(candidate_views(last@) =~= seq![]);
    assert(all.take(0) =~= seq![]);
    assert(all.skip(0) =~= all);
    while rest.len() > 0
        invariant
            0 <= done <= all.len(),
            candidate_views(rest@) == all.skip(done),
            candidate_views(ready@) == of_role(
                all.take(done),
                str_view(asked_for),
                alternatives,
                CandidateRole::Ready,
            ),
            candidate_views(last@) == of_role(
                all.take(done),
                str_view(asked_for),
                alternatives,
                CandidateRole::LastResort,
            ),
        decreases rest@.len(),
    {
        let ghost ready_before = candidate_views(ready@);
        let ghost last_before = candidate_views(last@);
        assert(candidate_views(rest@).len() == rest@.len());
        assert(candidate_views(rest@)[0] == rest@[0]@);
        assert(all.skip(done)[0] == all[done]);
        let candidate = rest.remove(0);
        let ghost view = candidate@;
        match candidate_role(&candidate, asked_for, alternatives) {
            CandidateRole::Ready => {
                ready.push(candidate);
                assert(candidate_views(ready@) =~= ready_before.push(view));
            },
            CandidateRole::LastResort => {
                last.push(candidate);
                assert(candidate_views(last@) =~= last_before.push(view));
            },
            CandidateRole::Dropped => {},
        }
        proof {
            assert(all.take(done + 1).drop_last() =~= all.take(done));
            assert(all.take(done + 1).last() == view);
            assert(candidate_views(rest@) =~= all.skip(done).skip(1));
            assert(all.skip(done).skip(1) =~= all.skip(done + 1));
            done = done + 1;
        }
    }
    assert(all.take(done) =~= all);
    (ready, last)
}

/// The provider that is asked for on a turn.
pub open spec fn asked_for(query: RouteQueryView, selected: Seq<CandidateView>) -> Option<
    Seq<char>,
> {
    match (claim_of(query), query.affinity_provider, query.failback_target) {
        (Some(claim), Some(preferred), Some(target)) if claim.manual => specific_of(
            query,
            selected,
            preferred,
            target,
        ),
        _ => None,
    }
}

/// The provider that is tried first on a turn: the one that is asked for, where
/// it is a candidate, or else the next in rank.
pub open spec fn probe_of(
    query: RouteQueryView,
    asked: Option<Seq<char>>,
    list: Seq<CandidateView>,
) -> Option<Seq<char>> {
    match (query.affinity_provider, asked) {
        (Some(_), Some(id)) if ids_of(list).contains(id) => Some(id),
        (Some(preferred), _) => match claim_of(query) {
            Some(claim) if claim.automatic => nearest_of(query, list, preferred),
            _ => None,
        },
        (None, _) => None,
    }
}

/// The candidates with those in front that a session asks for.
pub open spec fn for_session(
    query: RouteQueryView,
    list: Seq<CandidateView>,
    probe: Option<Seq<char>>,
) -> Seq<CandidateView> {
    match (query.explicit_provider, query.affinity_provider) {
        (Some(preferred), _) => prioritized(list, preferred, None),
        (None, Some(preferred)) => prioritized(list, preferred, probe),
        (None, None) => list,
    }
}

/// How many candidates are tried at most, if there is a limit.
pub open spec fn attempt_limit(query: RouteQueryView) -> Option<int> {
    if !query.fallback_enabled {
        Some(1)
    } else if query.retry_budget > 0 {
        Some(query.retry_budget + 1)
    } else {
        None
    }
}

/// The first items of a list up to a limit.
pub open spec fn up_to(list: Seq<CandidateView>, limit: Option<int>) -> Seq<CandidateView> {
    match limit {
        Some(most) if most < list.len() => list.take(most),
        _ => list,
    }
}

/// The providers of a request in the order in which they are tried.
pub ghost struct RouteView {
    pub candidates: Seq<CandidateView>,
    pub probe: Option<Seq<char>>,
}

/// The candidates that take their turn, before they are put in order.
pub open spec fn ready_of(query: RouteQueryView, selected: Seq<CandidateView>) -> Seq<
    CandidateView,
> {
    of_role(
        selected,
        asked_for(query, selected),
        query.fallback_enabled && selected.len() > 1,
        CandidateRole::Ready,
    )
}

/// The candidates of last resort, before they are put in order.
pub open spec fn last_of(query: RouteQueryView, selected: Seq<CandidateView>) -> Seq<
    CandidateView,
> {
    of_role(
        selected,
        asked_for(query, selected),
        query.fallback_enabled && selected.len() > 1,
        CandidateRole::LastResort,
    )
}

/// The route of a request once the candidates that take their turn are in the
/// order of the policy: the session's providers come first, those of last resort
/// come last, and no more are kept than may be tried.
pub open spec fn route_from(
    query: RouteQueryView,
    selected: Seq<CandidateView>,
    in_order: Seq<CandidateView>,
) -> RouteView {
    let probe = probe_of(query, asked_for(query, selected), in_order);
    let front = for_session(query, in_order, probe);
    let all = if query.fallback_enabled {
        front + sorted(LoadOrder::LoadThenCheck, last_of(query, selected))
    } else {
        front
    };
    RouteView { candidates: up_to(all, attempt_limit(query)), probe }
}

/// The route of a request, and the round-robin sequence after it.
pub open spec fn routed(
    query: RouteQueryView,
    selected: Seq<CandidateView>,
    sequence: u64,
    roll: nat,
    places: Seq<usize>,
) -> (RouteView, u64) {
    let (in_order, next) = by_policy(
        query.policy,
        ready_of(query, selected),
        sequence,
        roll,
        places,
    );
    (route_from(query, selected, in_order), next)
}

/// The providers of a request in the order in which they are tried.
#[derive(Debug)]
pub struct Route {
    pub candidates: Vec<Candidate>,
    /// The provider that is tried on a turn.
    pub probe: Option<String>,
}

impl View for Route {
    type V = RouteView;

    open spec fn view(&self) -> RouteView {
        RouteView { candidates: candidate_views(self.candidates@), probe: string_view(self.probe) }
    }
}

impl RouteQuery {
    /// Whether the request may claim a turn to try a provider of higher
    /// priority.
    pub fn may_claim_failback(&self) -> (may: bool)
        ensures
            may == may_claim(self@),
    {
        self.explicit_provider.is_none() && self.affinity_provider.is_some()
    }

    fn claim_now(&self) -> (claim: Option<FailbackClaim>)
        ensures
            claim == claim_of(self@),
    {
        if self.may_claim_failback() {
            self.claim
        } else {
            None
        }
    }

    fn asked_provider(&self, selected: &Vec<Candidate>) -> (asked: Option<String>)
        ensures
            string_view(asked) == asked_for(self@, candidate_views(selected@)),
    {
        match (self.claim_now(), &self.affinity_provider, &self.failback_target) {
            (Some(claim), Some(preferred), Some(target)) => if claim.manual {
                specific_higher_priority_provider(
                    self,
                    selected,
                    preferred.as_str(),
                    target.as_str(),
                )
            } else {
                None
            },
            _ => None,
        }
    }

    fn probe_provider(&self, asked: Option<String>, candidates: &Vec<Candidate>) -> (probe: Option<
        String,
    >)
        ensures
            string_view(probe) == probe_of(
                self@,
                string_view(asked),
                candidate_views(candidates@),
            ),
    {
        match &self.affinity_provider {
            Some(preferred) => {
                if let Some(id) = asked {
                    proof {
                        lemma_place(ids_of(candidate_views(candidates@)), id@, 0);
                    }
                    if candidate_position(candidates, id.as_str()).is_some() {
                        return Some(id);
                    }
                }
                match self.claim_now() {
                    Some(claim) => if claim.automatic {
                        nearest_higher_priority_provider(self, candidates, preferred.as_str())
                    } else {
                        None
                    },
                    None => None,
                }
            },
            None => None,
        }
    }

    /// The rest of a route once the candidates that take their turn are in the
    /// order of the policy.
    fn finish_route(
        &self,
        asked: Option<String>,
        in_order: Vec<Candidate>,
        last: Vec<Candidate>,
        selected: Ghost<Seq<CandidateView>>,
    ) -> (route: Route)
        requires
            string_view(asked) == asked_for(self@, selected@),
            candidate_views(last@) == last_of(self@, selected@),
        ensures
            route@ == route_from(self@, selected@, candidate_views(in_order@)),
    {
        let probe = self.probe_provider(asked, &in_order);
        let mut candidates = match (&self.explicit_provider, &self.affinity_provider) {
            (Some(preferred), _) => prioritize_session_affinity(in_order, preferred.as_str(), None),
            (None, Some(preferred)) => prioritize_session_affinity(
                in_order,
                preferred.as_str(),
                match &probe {
                    Some(id) => Some(id.as_str()),
                    None => None,
                },
            ),
            (None, None) => in_order,
        };
        let ghost front = candidate_views(candidates@);
        if self.fallback_enabled {
            let mut last = sort_candidates(LoadOrder::LoadThenCheck, last);
            let ghost back = candidate_views(last@);
            candidates.append(&mut last);
            assert(candidate_views(candidates@) =~= front + back);
        }
        let ghost all = candidate_views(candidates@);
        assert(all.len() == candidates@.len());
        if !self.fallback_enabled {
            candidates.truncate(1);
            assert(candidate_views(candidates@) =~= up_to(all, Some(1)));
        } else if self.retry_budget > 0 {
            candidates.truncate(self.retry_budget as usize + 1);
            assert(candidate_views(candidates@) =~= up_to(all, Some(self.retry_budget + 1)));
        }
        Route { candidates, probe }
    }

    /// The route of a request, given what chance contributes to a random or a
    /// weighted policy.
    pub fn route_with_roll(
        &self,
        round_robin: &mut RoundRobin,
        selected: Vec<Candidate>,
        weight: u64,
        places: Vec<usize>,
    ) -> (route: Route)
        requires
            is_arrangement(places@),
            places@.len() == ready_of(self@, candidate_views(selected@)).len(),
        ensures
            (route@, final(round_robin).sequence) == routed(
                self@,
                candidate_views(selected@),
                old(round_robin).sequence,
                weight as nat,
                places@,
            ),
    {
        let ghost all = candidate_views(selected@);
        let alternatives = self.fallback_enabled && selected.len() > 1;
        let asked = self.asked_provider(&selected);
        let (ready, last) = part_candidates(
            selected,
            match &asked {
                Some(id) => Some(id.as_str()),
                None => None,
            },
            alternatives,
        );
        assert(all.len() == selected@.len());
        assert(candidate_views(ready@).len() == ready@.len());
        let roll = PolicyRoll { weight, places };
        let in_order = apply_group_policy_with_roll(round_robin, self.policy, ready, &roll);
        self.finish_route(asked, in_order, last, Ghost(all))
    }

    /// The route of a request. What a random or a weighted policy does follows
    /// a roll that chance decides.
    pub fn route(&self, round_robin: &mut RoundRobin, selected: Vec<Candidate>) -> (route: Route)
        requires
            self.policy is Weighted ==> weight_before(
                ready_of(self@, candidate_views(selected@)),
                ready_of(self@, candidate_views(selected@)).len() as int,
            ) <= u64::MAX,
        ensures
            exists|roll: u64, places: Seq<usize>| #[trigger]
                is_fair_roll(
                    self.policy,
                    ready_of(self@, candidate_views(selected@)),
                    roll,
                    places,
                ) && (route@, final(round_robin).sequence) == routed(
                    self@,
                    candidate_views(selected@),
                    old(round_robin).sequence,
                    roll as nat,
                    places,
                ),
    {
        let ghost all = candidate_views(selected@);
        let alternatives = self.fallback_enabled && selected.len() > 1;
        let asked = self.asked_provider(&selected);
        let (ready, last) = part_candidates(
            selected,
            match &asked {
                Some(id) => Some(id.as_str()),
                None => None,
            },
            alternatives,
        );
        assert(all.len() == selected@.len());
        assert(candidate_views(ready@).len() == ready@.len());
        let ghost turn = ready_of(self@, all);
        let in_order = apply_group_policy(round_robin, self.policy, ready);
        let route = self.finish_route(asked, in_order, last, Ghost(all));
        proof {
            let (roll, places) = choose|roll: u64, places: Seq<usize>|
                is_fair_roll(self.policy, turn, roll, places) && (
                candidate_views(in_order@),
                final(round_robin).sequence,
                ) == by_policy(
                    self.policy,
                    turn,
                    old(round_robin).sequence,
                    roll as nat,
                    places,
                );
            assert(is_fair_roll(self.policy, turn, roll, places));
            assert(route@ == routed(
                self@,
                all,
                old(round_robin).sequence,
                roll as nat,
                places,
            ).0);
        }
        route
    }
}

proof fn lemma_of_role(
    list: Seq<CandidateView>,
    asked: Option<Seq<char>>,
    alternatives: bool,
    role: CandidateRole,
    candidate: CandidateView,
)
    ensures
        of_role(list, asked, alternatives, role).contains(candidate) <==> list.contains(candidate)
            && role_of(candidate, asked, alternatives) == role,
    decreases list.len(),
{
    if list.len() > 0 {
        let front = list.drop_last();
        lemma_of_role(front, asked, alternatives, role, candidate);
        let before = of_role(front, asked, alternatives, role);
        let result = of_role(list, asked, alternatives, role);
        assert(list =~= front.push(list.last()));
        if list.contains(candidate) {
            let i = choose|i: int| 0 <= i < list.len() && list[i] == candidate;
            if i < front.len() {
                assert(front[i] == candidate);
            }
        }
        if front.contains(candidate) {
            let i = choose|i: int| 0 <= i < front.len() && front[i] == candidate;
            assert(list[i] == candidate);
        }
        if candidate == list.last() {
            assert(list[list.len() - 1] == candidate);
            if role_of(candidate, asked, alternatives) == role {
                assert(result[result.len() - 1] == candidate);
            }
        }
        if before.contains(candidate) {
            let i = choose|i: int| 0 <= i < before.len() && before[i] == candidate;
            assert(result[i] == candidate);
        }
        if result.contains(candidate) {
            let i = choose|i: int| 0 <= i < result.len() && result[i] == candidate;
            if i < before.len() {
                assert(before[i] == candidate);
            }
        }
    }
}

proof fn lemma_same_members(left: Seq<CandidateView>, right: Seq<CandidateView>, candidate: CandidateView)
    requires
        left.to_multiset() == right.to_multiset(),
    ensures
        left.contains(candidate) <==> right.contains(candidate),
{
    broadcast use vstd::seq_lib::group_to_multiset_ensures;

    assert(left.contains(candidate) <==> left.to_multiset().count(candidate) > 0);
    assert(right.contains(candidate) <==> right.to_multiset().count(candidate) > 0);
}

/// The candidates of a route before it is cut to the number that may be tried.
pub open spec fn uncut(
    query: RouteQueryView,
    selected: Seq<CandidateView>,
    in_order: Seq<CandidateView>,
) -> Seq<CandidateView> {
    let front = for_session(query, in_order, probe_of(query, asked_for(query, selected), in_order));
    if query.fallback_enabled {
        front + sorted(LoadOrder::LoadThenCheck, last_of(query, selected))
    } else {
        front
    }
}

proof fn lemma_uncut_members(
    query: RouteQueryView,
    selected: Seq<CandidateView>,
    in_order: Seq<CandidateView>,
    candidate: CandidateView,
)
    requires
        in_order.to_multiset() == ready_of(query, selected).to_multiset(),
    ensures
        uncut(query, selected, in_order).contains(candidate) <==> ready_of(
            query,
            selected,
        ).contains(candidate) || (query.fallback_enabled && last_of(query, selected).contains(
            candidate,
        )),
{
    let probe = probe_of(query, asked_for(query, selected), in_order);
    let front = for_session(query, in_order, probe);
    match (query.explicit_provider, query.affinity_provider) {
        (Some(preferred), _) => {
            law_priority_keeps_candidates(in_order, preferred, None);
        },
        (None, Some(preferred)) => {
            law_priority_keeps_candidates(in_order, preferred, probe);
        },
        (None, None) => {},
    }
    assert(front.to_multiset() == ready_of(query, selected).to_multiset());
    lemma_same_members(front, ready_of(query, selected), candidate);
    let back = sorted(LoadOrder::LoadThenCheck, last_of(query, selected));
    law_sorting_keeps_candidates(LoadOrder::LoadThenCheck, last_of(query, selected));
    lemma_same_members(back, last_of(query, selected), candidate);
    let all = front + back;
    if front.contains(candidate) {
        let i = choose|i: int| 0 <= i < front.len() && front[i] == candidate;
        assert(all[i] == candidate);
    }
    if back.contains(candidate) {
        let i = choose|i: int| 0 <= i < back.len() && back[i] == candidate;
        assert(all[front.len() + i] == candidate);
    }
    if all.contains(candidate) {
        let i = choose|i: int| 0 <= i < all.len() && all[i] == candidate;
        if i < front.len() {
            assert(front[i] == candidate);
        } else {
            assert(back[i - front.len()] == candidate);
        }
    }
}

/// A request goes only to providers that were selected for it, and never to one
/// whose credentials were refused, whatever the policy rolled.
pub proof fn law_routes_hold_usable_candidates(
    query: RouteQueryView,
    selected: Seq<CandidateView>,
    sequence: u64,
    roll: u64,
    places: Seq<usize>,
    candidate: CandidateView,
)
    requires
        is_fair_roll(query.policy, ready_of(query, selected), roll, places),
        routed(query, selected, sequence, roll as nat, places).0.candidates.contains(candidate),
    ensures
        selected.contains(candidate),
        !candidate.auth_failed,
{
    let ready = ready_of(query, selected);
    let in_order = by_policy(query.policy, ready, sequence, roll as nat, places).0;
    law_policies_keep_candidates(query.policy, ready, sequence, roll, places);
    let all = uncut(query, selected, in_order);
    let result = route_from(query, selected, in_order).candidates;
    let i = choose|i: int| 0 <= i < result.len() && result[i] == candidate;
    assert(all[i] == candidate);
    lemma_uncut_members(query, selected, in_order, candidate);
    let alternatives = query.fallback_enabled && selected.len() > 1;
    let asked = asked_for(query, selected);
    lemma_of_role(selected, asked, alternatives, CandidateRole::Ready, candidate);
    lemma_of_role(selected, asked, alternatives, CandidateRole::LastResort, candidate);
}

/// With fallback on and no limit on retries, a request may go to every provider
/// that was selected for it, except where its credentials were refused or it is
/// left alone after a failure that does not pass.
pub proof fn law_unlimited_routes_are_complete(
    query: RouteQueryView,
    selected: Seq<CandidateView>,
    sequence: u64,
    roll: u64,
    places: Seq<usize>,
    candidate: CandidateView,
)
    requires
        is_fair_roll(query.policy, ready_of(query, selected), roll, places),
        query.fallback_enabled,
        query.retry_budget == 0,
        selected.contains(candidate),
        !candidate.auth_failed,
        passes(candidate.last_failure) || (!candidate.cooling_down
            && !candidate.model_cooling_down),
    ensures
        routed(query, selected, sequence, roll as nat, places).0.candidates.contains(candidate),
{
    let ready = ready_of(query, selected);
    let in_order = by_policy(query.policy, ready, sequence, roll as nat, places).0;
    law_policies_keep_candidates(query.policy, ready, sequence, roll, places);
    lemma_uncut_members(query, selected, in_order, candidate);
    let alternatives = query.fallback_enabled && selected.len() > 1;
    let asked = asked_for(query, selected);
    lemma_of_role(selected, asked, alternatives, CandidateRole::Ready, candidate);
    lemma_of_role(selected, asked, alternatives, CandidateRole::LastResort, candidate);
}

/// No more providers are tried than the retries allow, and only one without
/// fallback.
pub proof fn law_routes_are_limited(
    query: RouteQueryView,
    selected: Seq<CandidateView>,
    in_order: Seq<CandidateView>,
)
    ensures
        !query.fallback_enabled ==> route_from(query, selected, in_order).candidates.len() <= 1,
        query.retry_budget > 0 ==> route_from(query, selected, in_order).candidates.len()
            <= query.retry_budget + 1,
{
}

/// What the event of a turn says of how it came about.
pub open spec fn trigger_of(query: RouteQueryView, probe: Seq<char>) -> Seq<char> {
    match claim_of(query) {
        Some(claim) if claim.manual && query.failback_target == Some(probe) => "手动"@,
        _ => "自动"@,
    }
}

/// What the event of a turn says.
pub fn failback_note(query: &RouteQuery, probe: &str) -> (note: String)
    ensures
        note@ == "会话"@ + trigger_of(query@, probe@) + ("向上探测 Provider "@ + probe@),
{
    let by_hand = match (query.claim_now(), &query.failback_target) {
        (Some(claim), Some(target)) => claim.manual && same(target.as_str(), probe),
        _ => false,
    };
    let trigger = if by_hand {
        "手动"
    } else {
        "自动"
    };
    let end = concat2("向上探测 Provider ", probe);
    let note = concat3("会话", trigger, end.as_str());
    note
}

/// Why a provider is tried: the first for its session, its turn or its place in
/// the group, the others because one before it failed.
pub open spec fn route_reason(
    index: int,
    provider: Seq<char>,
    explicit_provider: Option<Seq<char>>,
    affinity_provider: Option<Seq<char>>,
    probe: Option<Seq<char>>,
    manual: bool,
) -> Seq<char> {
    if index > 0 {
        "fallback"@
    } else if probe == Some(provider) {
        if manual {
            "manual_failback"@
        } else {
            "automatic_failback"@
        }
    } else if explicit_provider == Some(provider) {
        "session_preference"@
    } else if affinity_provider == Some(provider) {
        "affinity"@
    } else {
        "policy"@
    }
}

fn is_this(name: Option<&str>, other: &str) -> (equal: bool)
    ensures
        equal == (str_view(name) == Some(other@)),
{
    match name {
        Some(text) => same(text, other),
        None => false,
    }
}

/// Why a provider is tried.
pub fn request_attempt_route_reason(
    index: usize,
    provider_id: &str,
    explicit_preferred_provider_id: Option<&str>,
    affinity_provider_id: Option<&str>,
    priority_probe_provider_id: Option<&str>,
    manual_priority_probe: bool,
) -> (reason: &'static str)
    ensures
        reason@ == route_reason(
            index as int,
            provider_id@,
            str_view(explicit_preferred_provider_id),
            str_view(affinity_provider_id),
            str_view(priority_probe_provider_id),
            manual_priority_probe,
        ),
{
    if index > 0 {
        return "fallback";
    }
    if is_this(priority_probe_provider_id, provider_id) {
        return if manual_priority_probe {
            "manual_failback"
        } else {
            "automatic_failback"
        };
    }
    if is_this(explicit_preferred_provider_id, provider_id) {
        return "session_preference";
    }
    if is_this(affinity_provider_id, provider_id) {
        return "affinity";
    }
    "policy"
}

/// Whether a provider is left alone for a while, as a whole or for the model that
/// is asked for.
pub open spec fn rests(candidate: CandidateView) -> bool {
    candidate.cooling_down || candidate.model_cooling_down
}

/// A provider that is well, or rests where there is no other to try, is among
/// those that take their turn.
proof fn lemma_well_is_ready(
    query: RouteQueryView,
    selected: Seq<CandidateView>,
    candidate: CandidateView,
)
    requires
        selected.contains(candidate),
        !candidate.auth_failed,
        !rests(candidate) || !query.fallback_enabled || selected.len() == 1,
    ensures
        ready_of(query, selected).contains(candidate),
{
    lemma_of_role(
        selected,
        asked_for(query, selected),
        query.fallback_enabled && selected.len() > 1,
        CandidateRole::Ready,
        candidate,
    );
}

/// A session that was set to a provider, or is bound to one and has no turn to
/// try another, goes to that provider first, whatever the policy rolled, unless
/// the provider cannot be used.
pub proof fn law_sessions_go_to_their_provider_first(
    query: RouteQueryView,
    selected: Seq<CandidateView>,
    sequence: u64,
    roll: u64,
    places: Seq<usize>,
    candidate: CandidateView,
)
    requires
        is_fair_roll(query.policy, ready_of(query, selected), roll, places),
        query.explicit_provider == Some(candidate.id) || (query.explicit_provider is None
            && query.affinity_provider == Some(candidate.id) && query.claim is None),
        selected.contains(candidate),
        !candidate.auth_failed,
        !rests(candidate) || !query.fallback_enabled || selected.len() == 1,
    ensures
        routed(query, selected, sequence, roll as nat, places).0.candidates.len() > 0,
        routed(query, selected, sequence, roll as nat, places).0.candidates[0].id == candidate.id,
{
    let ready = ready_of(query, selected);
    lemma_well_is_ready(query, selected, candidate);
    let in_order = by_policy(query.policy, ready, sequence, roll as nat, places).0;
    law_policies_keep_candidates(query.policy, ready, sequence, roll, places);
    lemma_same_members(in_order, ready, candidate);
    let place = choose|place: int| 0 <= place < in_order.len() && in_order[place] == candidate;
    assert(ids_of(in_order)[place] == candidate.id);
    let probe = probe_of(query, asked_for(query, selected), in_order);
    let front = for_session(query, in_order, probe);
    if query.explicit_provider is None {
        assert(probe is None);
    }
    law_bound_provider_is_next(in_order, candidate.id, None);
    law_priority_keeps_candidates(in_order, candidate.id, None);
    assert(front == prioritized(in_order, candidate.id, None));
    assert(front.len() > 0);
}

/// A request without a session goes to the providers that take their turn in the
/// order of the policy, before any other.
pub proof fn law_requests_without_a_session_follow_the_policy(
    query: RouteQueryView,
    selected: Seq<CandidateView>,
    sequence: u64,
    roll: nat,
    places: Seq<usize>,
    i: int,
)
    requires
        query.explicit_provider is None,
        query.affinity_provider is None,
    ensures
        ({
            let (order, after) = by_policy(
                query.policy,
                ready_of(query, selected),
                sequence,
                roll,
                places,
            );
            let (route, next) = routed(query, selected, sequence, roll, places);
            &&& next == after
            &&& route.probe is None
            &&& 0 <= i < order.len() && i < route.candidates.len() ==> route.candidates[i]
                == order[i]
            &&& order.len() > 0 ==> route.candidates.len() > 0
        }),
{
}

/// With another provider to try, one that rests comes behind all that do not, and
/// is not tried at all after a failure that does not pass by itself: an exhausted
/// quota, a missing model or refused credentials.
pub proof fn law_resting_providers_come_last(
    query: RouteQueryView,
    selected: Seq<CandidateView>,
    sequence: u64,
    roll: u64,
    places: Seq<usize>,
    i: int,
    j: int,
)
    requires
        is_fair_roll(query.policy, ready_of(query, selected), roll, places),
        query.claim is None,
        query.fallback_enabled,
        selected.len() > 1,
        0 <= i < j < routed(
            query,
            selected,
            sequence,
            roll as nat,
            places,
        ).0.candidates.len(),
    ensures
        ({
            let route = routed(query, selected, sequence, roll as nat, places).0.candidates;
            &&& rests(route[i]) ==> rests(route[j])
            &&& rests(route[j]) ==> !(route[j].last_failure matches Some(kind) && (
            kind is QuotaExhausted || kind is ModelMissing || kind is AuthFailed))
        }),
{
    let ready = ready_of(query, selected);
    let in_order = by_policy(query.policy, ready, sequence, roll as nat, places).0;
    law_policies_keep_candidates(query.policy, ready, sequence, roll, places);
    let asked = asked_for(query, selected);
    assert(asked is None);
    let probe = probe_of(query, asked, in_order);
    let front = for_session(query, in_order, probe);
    match (query.explicit_provider, query.affinity_provider) {
        (Some(preferred), _) => {
            law_priority_keeps_candidates(in_order, preferred, None);
        },
        (None, Some(preferred)) => {
            law_priority_keeps_candidates(in_order, preferred, probe);
        },
        (None, None) => {},
    }
    let last = last_of(query, selected);
    let back = sorted(LoadOrder::LoadThenCheck, last);
    law_sorting_keeps_candidates(LoadOrder::LoadThenCheck, last);
    let all = front + back;
    let route = route_from(query, selected, in_order).candidates;
    assert(route[i] == all[i] && route[j] == all[j]);
    if i < front.len() {
        lemma_same_members(front, ready, front[i]);
        assert(front.contains(front[i]));
        lemma_of_role(selected, asked, true, CandidateRole::Ready, front[i]);
    }
    if j < front.len() {
        lemma_same_members(front, ready, front[j]);
        assert(front.contains(front[j]));
        lemma_of_role(selected, asked, true, CandidateRole::Ready, front[j]);
    } else {
        let other = back[j - front.len()];
        assert(back.contains(other));
        lemma_same_members(back, last, other);
        lemma_of_role(selected, asked, true, CandidateRole::LastResort, other);
    }
}

/// As many providers are tried as there are that may be, up to one without
/// fallback, and up to one more than the retries where those are limited.
pub proof fn law_routes_are_cut_only_at_their_limit(
    query: RouteQueryView,
    selected: Seq<CandidateView>,
    in_order: Seq<CandidateView>,
)
    ensures
        ({
            let route = route_from(query, selected, in_order).candidates;
            let all = uncut(query, selected, in_order);
            let most = if !query.fallback_enabled {
                1
            } else if query.retry_budget > 0 {
                query.retry_budget + 1
            } else {
                all.len() as int
            };
            &&& route.len() == (if all.len() < most {
                all.len() as int
            } else {
                most
            })
            &&& forall|i: int| 0 <= i < route.len() ==> (#[trigger] route[i]) == all[i]
        }),
{
}

/// A turn that was asked for by hand goes to the provider that was meant, where it
/// stands above the one that the session is bound to in the order of the group
/// and can be used; that one is tried next.
pub proof fn law_turns_by_hand_go_to_their_target(
    query: RouteQueryView,
    selected: Seq<CandidateView>,
    sequence: u64,
    roll: u64,
    places: Seq<usize>,
    target: CandidateView,
    bound: Seq<char>,
    place: int,
    rank: int,
)
    requires
        is_fair_roll(query.policy, ready_of(query, selected), roll, places),
        query.explicit_provider is None,
        query.affinity_provider == Some(bound),
        query.failback_target == Some(target.id),
        query.claim matches Some(claim) && claim.manual,
        query.policy is PriorityFallback,
        query.fallback_enabled,
        place_of(query.provider_order, target.id) == Some(place),
        place_of(query.provider_order, bound) == Some(rank),
        place < rank,
        selected.contains(target),
        !target.auth_failed,
    ensures
        ({
            let route = routed(query, selected, sequence, roll as nat, places).0;
            &&& route.probe == Some(target.id)
            &&& route.candidates.len() > 0
            &&& route.candidates[0].id == target.id
        }),
{
    let ready = ready_of(query, selected);
    let index = choose|index: int| 0 <= index < selected.len() && selected[index] == target;
    assert(ids_of(selected)[index] == target.id);
    let asked = asked_for(query, selected);
    assert(asked == Some(target.id));
    lemma_of_role(selected, asked, selected.len() > 1, CandidateRole::Ready, target);
    let in_order = by_policy(query.policy, ready, sequence, roll as nat, places).0;
    law_policies_keep_candidates(query.policy, ready, sequence, roll, places);
    lemma_same_members(in_order, ready, target);
    let there = choose|there: int| 0 <= there < in_order.len() && in_order[there] == target;
    assert(ids_of(in_order)[there] == target.id);
    let probe = probe_of(query, asked, in_order);
    assert(probe == Some(target.id));
    assert(target.id != bound);
    law_bound_provider_is_next(in_order, bound, probe);
    law_priority_keeps_candidates(in_order, bound, probe);
}

/// The reason that is noted for an attempt tells the first from the others, and
/// of a first attempt why its provider was chosen.
pub proof fn law_reasons_name_the_cause(
    index: int,
    provider: Seq<char>,
    explicit_provider: Option<Seq<char>>,
    affinity_provider: Option<Seq<char>>,
    probe: Option<Seq<char>>,
    manual: bool,
)
    ensures
        ({
            let reason = route_reason(
                index,
                provider,
                explicit_provider,
                affinity_provider,
                probe,
                manual,
            );
            &&& reason == "fallback"@ <==> index > 0
            &&& index <= 0 && probe is None && explicit_provider is None && affinity_provider is None
                ==> reason == "policy"@
            &&& index <= 0 && probe is None ==> (reason == "session_preference"@
                <==> explicit_provider == Some(provider))
            &&& index <= 0 && probe == Some(provider) ==> reason == (if manual {
                "manual_failback"@
            } else {
                "automatic_failback"@
            })
            &&& index <= 0 && probe is None && explicit_provider is None && affinity_provider
                == Some(provider) ==> reason == "affinity"@
        }),
{
    reveal_strlit("fallback");
    reveal_strlit("manual_failback");
    reveal_strlit("automatic_failback");
    reveal_strlit("session_preference");
    reveal_strlit("affinity");
    reveal_strlit("policy");
    assert("fallback"@.len() == 8);
    assert("manual_failback"@.len() == 15);
    assert("automatic_failback"@.len() == 18);
    assert("session_preference"@.len() == 18);
    assert("affinity"@.len() == 8);
    assert("policy"@.len() == 6);
    assert("fallback"@[0] != "affinity"@[0]);
    assert("automatic_failback"@[0] != "session_preference"@[0]);
}

/// Every model that a provider of the group names is offered, but for the word
/// that stands for any model.
pub proof fn law_named_models_are_offered(
    model_maps: Seq<Seq<Seq<char>>>,
    count: int,
    map: int,
    model: Seq<char>,
)
    requires
        0 <= map < count <= model_maps.len(),
        model_maps[map].contains(model),
        model != "default"@,
    ensures
        models_named(model_maps, count).contains(model),
        !models_named(model_maps, count).contains("default"@),
    decreases count,
{
    broadcast use vstd::seq_lib::group_filter_ensures;

    let before = models_named(model_maps, count - 1);
    let wanted = |model: Seq<char>| model != "default"@;
    let more = model_maps[count - 1].filter(wanted);
    lemma_default_not_named(model_maps, count);
    let all = before + more;
    if map < count - 1 {
        law_named_models_are_offered(model_maps, count - 1, map, model);
        let place = choose|place: int| 0 <= place < before.len() && before[place] == model;
        assert(all[place] == model);
    } else {
        assert(more.contains(model));
        let place = choose|place: int| 0 <= place < more.len() && more[place] == model;
        assert(all[before.len() + place] == model);
    }
}

proof fn lemma_default_not_named(model_maps: Seq<Seq<Seq<char>>>, count: int)
    ensures
        !models_named(model_maps, count).contains("default"@),
    decreases count,
{
    broadcast use vstd::seq_lib::group_filter_ensures;

    if 0 < count <= model_maps.len() {
        lemma_default_not_named(model_maps, count - 1);
        let before = models_named(model_maps, count - 1);
        let wanted = |model: Seq<char>| model != "default"@;
        let more = model_maps[count - 1].filter(wanted);
        let all = before + more;
        if all.contains("default"@) {
            let place = choose|place: int| 0 <= place < all.len() && all[place] == "default"@;
            if place < before.len() {
                assert(before.contains(before[place]));
            } else {
                assert(more.contains(more[place - before.len()]));
            }
        }
    }
}

/// A session that was set to a provider keeps to it only while the group holds it
/// and it is switched on; it is then a candidate, behind those that were selected,
/// where it was not one already.
pub proof fn law_set_providers_become_candidates(
    stored: Seq<char>,
    provider_order: Seq<Seq<char>>,
    enabled: Seq<Seq<char>>,
    list: Seq<CandidateView>,
    candidate: CandidateView,
)
    ensures
        preference_of(Some(stored), provider_order, enabled) == (if provider_order.contains(stored)
            && enabled.contains(stored) {
            Some(stored)
        } else {
            None
        }),
        ids_of(with_preference(list, Some(candidate))).contains(candidate.id),
        list.len() <= with_preference(list, Some(candidate)).len(),
        with_preference(list, Some(candidate)).take(list.len() as int) == list,
        with_preference(list, None) == list,
{
    let all = with_preference(list, Some(candidate));
    assert(all.take(list.len() as int) =~= list);
    if !ids_of(list).contains(candidate.id) {
        assert(ids_of(all)[list.len() as int] == candidate.id);
    }
}

} // verus!
