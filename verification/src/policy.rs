//! The order in which the providers of a group are tried.
use rand::Rng;
use rand::seq::SliceRandom;
use vstd::prelude::*;
use vstd::string::*;

verus! {

/// How the providers of a group are put in order.
#[derive(Debug, Clone, Copy, PartialEq, Eq, Structural)]
pub enum GroupPolicy {
    PriorityFallback,
    Manual,
    RoundRobin,
    Random,
    Weighted,
    LeastLoaded,
}

/// What kind of failure a provider last had.
#[derive(Debug, Clone, Copy, PartialEq, Eq, Structural)]
pub enum HealthFailureKind {
    AuthFailed,
    RateLimited,
    QuotaExhausted,
    ModelMissing,
    RequestRejected,
    NetworkFailed,
    UpstreamFailed,
    Unknown,
}

/// A provider that a request may go to, with what its order depends on.
#[derive(Debug)]
pub struct Candidate {
    pub id: String,
    /// Its weight in the group, if it was given one.
    pub weight: Option<u32>,
    /// How many requests it is answering.
    pub inflight: usize,
    /// When it was last checked.
    pub last_checked: Option<i64>,
    /// Whether its credentials were refused.
    pub auth_failed: bool,
    /// Whether it is left alone for a while.
    pub cooling_down: bool,
    /// Whether it is left alone for a while for the model that is asked for.
    pub model_cooling_down: bool,
    pub last_failure: Option<HealthFailureKind>,
}

/// What a `Candidate` holds.
#[verifier::ext_equal]
pub struct CandidateView {
    pub id: Seq<char>,
    pub weight: Option<u32>,
    pub inflight: usize,
    pub last_checked: Option<i64>,
    pub auth_failed: bool,
    pub cooling_down: bool,
    pub model_cooling_down: bool,
    pub last_failure: Option<HealthFailureKind>,
}

impl View for Candidate {
    type V = CandidateView;

    open spec fn view(&self) -> CandidateView {
        CandidateView {
            id: self.id@,
            weight: self.weight,
            inflight: self.inflight,
            last_checked: self.last_checked,
            auth_failed: self.auth_failed,
            cooling_down: self.cooling_down,
            model_cooling_down: self.model_cooling_down,
            last_failure: self.last_failure,
        }
    }
}

/// What a list of candidates holds.
pub open spec fn candidate_views(list: Seq<Candidate>) -> Seq<CandidateView> {
    Seq::new(list.len(), |i: int| list[i]@)
}

/// A list that begins at one of its places and goes on from its front.
pub open spec fn rotated<T>(list: Seq<T>, by: int) -> Seq<T> {
    list.skip(by) + list.take(by)
}

/// Rotates a list.
pub fn rotate_left(list: Vec<Candidate>, by: usize) -> (result: Vec<Candidate>)
    requires
        by <= list@.len(),
    ensures
        candidate_views(result@) == rotated(candidate_views(list@), by as int),
{
    let ghost before = list@;
    let mut head = list;
    let mut result = head.split_off(by);
    result.append(&mut head);
    assert(candidate_views(result@) =~= rotated(candidate_views(before), by as int));
    result
}

/// The weight of a candidate: what it was given, but at least 1.
pub open spec fn weight_of(candidate: CandidateView) -> nat {
    match candidate.weight {
        Some(weight) if weight > 1 => weight as nat,
        _ => 1,
    }
}

/// The weights of the first candidates of a list added up.
pub open spec fn weight_before(list: Seq<CandidateView>, count: int) -> nat
    decreases count,
{
    if !(0 < count <= list.len()) {
        0
    } else {
        weight_before(list, count - 1) + weight_of(list[count - 1])
    }
}

/// Which candidate a roll falls on: each has as many rolls as its weight. A
/// roll beyond all of them falls on the first.
pub open spec fn rolled(list: Seq<CandidateView>, roll: nat, from: int) -> int
    decreases list.len() - from,
{
    if !(0 <= from < list.len()) {
        0
    } else if roll < weight_before(list, from + 1) {
        from
    } else {
        rolled(list, roll, from + 1)
    }
}

/// The weight of a candidate.
pub fn provider_weight(candidate: &Candidate) -> (weight: u64)
    ensures
        weight == weight_of(candidate@),
{
    match candidate.weight {
        Some(weight) if weight > 1 => weight as u64,
        _ => 1,
    }
}

proof fn lemma_weight_grows(list: Seq<CandidateView>, count: int, more: int)
    requires
        0 <= count <= more <= list.len(),
    ensures
        weight_before(list, count) <= weight_before(list, more),
    decreases more,
{
    if count < more {
        lemma_weight_grows(list, count, more - 1);
    }
}

/// The weights of all candidates added up.
pub fn total_weight(candidates: &Vec<Candidate>) -> (total: u64)
    requires
        weight_before(candidate_views(candidates@), candidates@.len() as int) <= u64::MAX,
    ensures
        total == weight_before(candidate_views(candidates@), candidates@.len() as int),
{
    let ghost all = candidate_views(candidates@);
    let mut total: u64 = 0;
    let mut index: usize = 0;
    while index < candidates.len()
        invariant
            index <= candidates@.len(),
            all == candidate_views(candidates@),
            weight_before(all, all.len() as int) <= u64::MAX,
            total == weight_before(all, index as int),
        decreases candidates@.len() - index,
    {
        proof {
            assert(all[index as int] == candidates@[index as int]@);
            lemma_weight_grows(all, index + 1, all.len() as int);
        }
        total = total + provider_weight(&candidates[index]);
        index += 1;
    }
    total
}

/// Which candidate a roll falls on.
pub fn weighted_candidate_index(candidates: &Vec<Candidate>, selected_weight: u64) -> (index: usize)
    ensures
        index == rolled(candidate_views(candidates@), selected_weight as nat, 0),
        index < candidates@.len() || index == 0,
{
    let ghost all = candidate_views(candidates@);
    let mut left: u64 = selected_weight;
    let mut index: usize = 0;
    while index < candidates.len()
        invariant
            index <= candidates@.len(),
            all == candidate_views(candidates@),
            left + weight_before(all, index as int) == selected_weight,
            rolled(all, selected_weight as nat, 0) == rolled(
                all,
                selected_weight as nat,
                index as int,
            ),
        decreases candidates@.len() - index,
    {
        assert(all[index as int] == candidates@[index as int]@);
        let weight: u64 = provider_weight(&candidates[index]);
        if left < weight {
            return index;
        }
        left = left - weight;
        index += 1;
    }
    0
}

/// Every roll below the total weight falls on the candidate in whose share it
/// lies: at or beyond the weights before it, and below them with its own.
pub proof fn law_rolls_are_shared_by_weight(list: Seq<CandidateView>, roll: nat)
    requires
        roll < weight_before(list, list.len() as int),
    ensures
        ({
            let index = rolled(list, roll, 0);
            &&& 0 <= index < list.len()
            &&& weight_before(list, index) <= roll < weight_before(list, index + 1)
        }),
{
    lemma_rolled(list, roll, 0);
}

proof fn lemma_rolled(list: Seq<CandidateView>, roll: nat, from: int)
    requires
        0 <= from <= list.len(),
        weight_before(list, from) <= roll < weight_before(list, list.len() as int),
    ensures
        ({
            let index = rolled(list, roll, from);
            &&& 0 <= index < list.len()
            &&& weight_before(list, index) <= roll < weight_before(list, index + 1)
        }),
    decreases list.len() - from,
{
    if from < list.len() && roll >= weight_before(list, from + 1) {
        lemma_rolled(list, roll, from + 1);
    }
}

/// Whether one candidate comes before another by its load.
pub open spec fn lighter(left: CandidateView, right: CandidateView) -> bool {
    left.inflight < right.inflight
}

/// Whether one candidate comes before another by its load, and then by the time
/// of its last check; one that was never checked comes first.
pub open spec fn sooner(left: CandidateView, right: CandidateView) -> bool {
    left.inflight < right.inflight || (left.inflight == right.inflight && (match (
        left.last_checked,
        right.last_checked,
    ) {
        (None, Some(_)) => true,
        (Some(a), Some(b)) => a < b,
        _ => false,
    }))
}

/// Which of two orders is meant.
#[derive(Debug, Clone, Copy, PartialEq, Eq, Structural)]
pub enum LoadOrder {
    Load,
    LoadThenCheck,
}

/// Whether one candidate comes before another in an order.
pub open spec fn precedes(order: LoadOrder, left: CandidateView, right: CandidateView) -> bool {
    match order {
        LoadOrder::Load => lighter(left, right),
        LoadOrder::LoadThenCheck => sooner(left, right),
    }
}

/// A list in order with one more candidate put in, behind those that it does
/// not precede.
pub open spec fn inserted(
    order: LoadOrder,
    list: Seq<CandidateView>,
    candidate: CandidateView,
) -> Seq<CandidateView>
    decreases list.len(),
{
    if list.len() == 0 {
        seq![candidate]
    } else if precedes(order, candidate, list.last()) {
        inserted(order, list.drop_last(), candidate).push(list.last())
    } else {
        list.push(candidate)
    }
}

/// A list put in order; candidates of which neither precedes the other stay as
/// they were.
pub open spec fn sorted(order: LoadOrder, list: Seq<CandidateView>) -> Seq<CandidateView>
    decreases list.len(),
{
    if list.len() == 0 {
        list
    } else {
        inserted(order, sorted(order, list.drop_last()), list.last())
    }
}

fn precedes_of(order: LoadOrder, left: &Candidate, right: &Candidate) -> (result: bool)
    ensures
        result == precedes(order, left@, right@),
{
    match order {
        LoadOrder::Load => left.inflight < right.inflight,
        LoadOrder::LoadThenCheck => left.inflight < right.inflight || (left.inflight
            == right.inflight && match (left.last_checked, right.last_checked) {
            (None, Some(_)) => true,
            (Some(a), Some(b)) => a < b,
            _ => false,
        }),
    }
}

proof fn lemma_inserted(
    order: LoadOrder,
    list: Seq<CandidateView>,
    candidate: CandidateView,
    position: int,
)
    requires
        0 <= position <= list.len(),
        forall|i: int| position <= i < list.len() ==> precedes(order, candidate, #[trigger] list[i]),
        position > 0 ==> !precedes(order, candidate, list[position - 1]),
    ensures
        inserted(order, list, candidate) == list.insert(position, candidate),
    decreases list.len(),
{
    if list.len() == 0 {
        assert(seq![candidate] =~= list.insert(0, candidate));
    } else if position < list.len() {
        let front = list.drop_last();
        assert forall|i: int| position <= i < front.len() implies precedes(
            order,
            candidate,
            #[trigger] front[i],
        ) by {
            assert(front[i] == list[i]);
        }
        assert(precedes(order, candidate, list[list.len() - 1]));
        lemma_inserted(order, front, candidate, position);
        assert(front.insert(position, candidate).push(list.last()) =~= list.insert(
            position,
            candidate,
        ));
    } else {
        assert(list.push(candidate) =~= list.insert(position, candidate));
    }
}

/// Puts candidates in order.
pub fn sort_candidates(order: LoadOrder, list: Vec<Candidate>) -> (result: Vec<Candidate>)
    ensures
        candidate_views(result@) == sorted(order, candidate_views(list@)),
{
    let ghost all = candidate_views(list@);
    let mut rest = list;
    let mut result: Vec<Candidate> = Vec::new();
    let ghost mut done: int = 0;
    assert(candidate_views(result@) =~= sorted(order, all.take(0)));
    assert(all.skip(0) =~= all);
    while rest.len() > 0
        invariant
            0 <= done <= all.len(),
            candidate_views(rest@) == all.skip(done),
            candidate_views(result@) == sorted(order, all.take(done)),
        decreases rest@.len(),
    {
        let ghost current = candidate_views(result@);
        assert(candidate_views(rest@).len() == rest@.len());
        assert(candidate_views(rest@)[0] == rest@[0]@);
        assert(all.skip(done)[0] == all[done]);
        let candidate = rest.remove(0);
        let ghost view = candidate@;
        let mut position: usize = result.len();
        while position > 0 && precedes_of(order, &candidate, &result[position - 1])
            invariant
                position <= result@.len(),
                current == candidate_views(result@),
                view == candidate@,
                forall|i: int|
                    position <= i < current.len() ==> precedes(order, view, #[trigger] current[i]),
            decreases position,
        {
            assert(current[position - 1] == result@[position - 1]@);
            position -= 1;
        }
        proof {
            if position > 0 {
                assert(current[position - 1] == result@[position - 1]@);
            }
            lemma_inserted(order, current, view, position as int);
        }
        result.insert(position, candidate);
        proof {
            assert(candidate_views(result@) =~= current.insert(position as int, view));
            assert(all.take(done + 1).drop_last() =~= all.take(done));
            assert(all.take(done + 1).last() == view);
            assert(candidate_views(rest@) =~= all.skip(done).skip(1));
            assert(all.skip(done).skip(1) =~= all.skip(done + 1));
            done = done + 1;
        }
    }
    assert(all.take(done) =~= all);
    result
}

proof fn lemma_inserted_multiset(
    order: LoadOrder,
    list: Seq<CandidateView>,
    candidate: CandidateView,
)
    ensures
        inserted(order, list, candidate).to_multiset() == list.to_multiset().insert(candidate),
        inserted(order, list, candidate).len() == list.len() + 1,
    decreases list.len(),
{
    broadcast use vstd::seq_lib::group_to_multiset_ensures;

    if list.len() > 0 && precedes(order, candidate, list.last()) {
        lemma_inserted_multiset(order, list.drop_last(), candidate);
        assert(list.drop_last().push(list.last()) =~= list);
        assert(list.to_multiset() =~= list.drop_last().to_multiset().insert(list.last()));
        assert(inserted(order, list, candidate).to_multiset()
            =~= list.drop_last().to_multiset().insert(candidate).insert(list.last()));
        assert(list.drop_last().to_multiset().insert(candidate).insert(list.last())
            =~= list.drop_last().to_multiset().insert(list.last()).insert(candidate));
    } else if list.len() == 0 {
        assert(seq![candidate] =~= list.push(candidate));
    }
}

/// Putting candidates in order neither loses nor adds one, and none stands
/// behind one that it precedes.
pub proof fn law_sorting_keeps_candidates(order: LoadOrder, list: Seq<CandidateView>)
    ensures
        sorted(order, list).to_multiset() == list.to_multiset(),
        sorted(order, list).len() == list.len(),
        forall|i: int, j: int|
            0 <= i < j < sorted(order, list).len() ==> !precedes(
                order,
                #[trigger] sorted(order, list)[j],
                #[trigger] sorted(order, list)[i],
            ),
    decreases list.len(),
{
    broadcast use vstd::seq_lib::group_to_multiset_ensures;

    if list.len() > 0 {
        let front = list.drop_last();
        law_sorting_keeps_candidates(order, front);
        lemma_inserted_multiset(order, sorted(order, front), list.last());
        lemma_inserted_sorted(order, sorted(order, front), list.last());
        assert(front.push(list.last()) =~= list);
    }
}

proof fn lemma_inserted_sorted(
    order: LoadOrder,
    list: Seq<CandidateView>,
    candidate: CandidateView,
)
    requires
        forall|i: int, j: int|
            0 <= i < j < list.len() ==> !precedes(order, #[trigger] list[j], #[trigger] list[i]),
    ensures
        forall|i: int, j: int|
            0 <= i < j < inserted(order, list, candidate).len() ==> !precedes(
                order,
                #[trigger] inserted(order, list, candidate)[j],
                #[trigger] inserted(order, list, candidate)[i],
            ),
        forall|i: int|
            0 <= i < inserted(order, list, candidate).len() ==> (#[trigger] inserted(
                order,
                list,
                candidate,
            )[i] == candidate || list.contains(inserted(order, list, candidate)[i])),
    decreases list.len(),
{
    let after = inserted(order, list, candidate);
    if list.len() == 0 {
    } else if precedes(order, candidate, list.last()) {
        let front = list.drop_last();
        lemma_inserted_sorted(order, front, candidate);
        let before = inserted(order, front, candidate);
        assert forall|i: int, j: int| 0 <= i < j < after.len() implies !precedes(
            order,
            #[trigger] after[j],
            #[trigger] after[i],
        ) by {
            if j == after.len() - 1 {
                assert(after[j] == list.last());
                assert(after[i] == before[i]);
                if before[i] != candidate {
                    let k = choose|k: int| 0 <= k < front.len() && front[k] == before[i];
                    assert(list[k] == front[k]);
                    assert(list[list.len() - 1] == list.last());
                }
            } else {
                assert(after[i] == before[i] && after[j] == before[j]);
            }
        }
        assert forall|i: int| 0 <= i < after.len() implies (#[trigger] after[i] == candidate
            || list.contains(after[i])) by {
            if i == after.len() - 1 {
                assert(list[list.len() - 1] == after[i]);
            } else {
                assert(after[i] == before[i]);
                if before[i] != candidate {
                    let k = choose|k: int| 0 <= k < front.len() && front[k] == before[i];
                    assert(list[k] == after[i]);
                }
            }
        }
    } else {
        assert forall|i: int, j: int| 0 <= i < j < after.len() implies !precedes(
            order,
            #[trigger] after[j],
            #[trigger] after[i],
        ) by {
            if j == after.len() - 1 {
                assert(after[j] == candidate);
                assert(after[i] == list[i]);
                if i < list.len() - 1 {
                    assert(!precedes(order, list[list.len() - 1], list[i]));
                }
            } else {
                assert(after[i] == list[i] && after[j] == list[j]);
            }
        }
        assert forall|i: int| 0 <= i < after.len() implies (#[trigger] after[i] == candidate
            || list.contains(after[i])) by {
            if i < list.len() {
                assert(list[i] == after[i]);
            }
        }
    }
}

/// `rand::Rng::random_range` on the generator of the thread draws a number below
/// a limit. Which one it is depends on chance.
#[verifier::external_body]
fn random_below(limit: u64) -> (roll: u64)
    requires
        limit > 0,
    ensures
        roll < limit,
{
    rand::rng().random_range(0..limit)
}

/// Whether a list holds each number below its length once.
pub open spec fn is_arrangement(places: Seq<usize>) -> bool {
    &&& forall|i: int| 0 <= i < places.len() ==> (#[trigger] places[i]) < places.len()
    &&& forall|i: int, j: int|
        0 <= i < j < places.len() ==> (#[trigger] places[i]) != (#[trigger] places[j])
}

/// `rand::seq::SliceRandom::shuffle` on the generator of the thread puts the
/// items of a list in some order. Which one it is depends on chance; every item
/// stays in the list once.
#[verifier::external_body]
fn shuffle_places(places: Vec<usize>) -> (result: Vec<usize>)
    ensures
        result@.len() == places@.len(),
        is_arrangement(places@) ==> is_arrangement(result@),
{
    let mut result = places;
    result.shuffle(&mut rand::rng());
    result
}

/// What chance contributes to an order: a roll for weights, and places for a
/// shuffle.
#[derive(Debug)]
pub struct PolicyRoll {
    pub weight: u64,
    pub places: Vec<usize>,
}

/// The numbers below a limit in order.
fn places_below(count: usize) -> (places: Vec<usize>)
    ensures
        places@.len() == count,
        is_arrangement(places@),
{
    let mut places: Vec<usize> = Vec::new();
    let mut index: usize = 0;
    while index < count
        invariant
            index <= count,
            places@.len() == index,
            forall|i: int| 0 <= i < index ==> (#[trigger] places@[i]) == i,
        decreases count - index,
    {
        places.push(index);
        index += 1;
    }
    places
}

/// A list with its items at the places that an arrangement gives them.
pub open spec fn arranged(list: Seq<CandidateView>, places: Seq<usize>) -> Seq<CandidateView> {
    Seq::new(places.len(), |i: int| list[places[i] as int])
}

fn copy_candidate(candidate: &Candidate) -> (copy: Candidate)
    ensures
        copy@ == candidate@,
{
    Candidate {
        id: candidate.id.clone(),
        weight: candidate.weight,
        inflight: candidate.inflight,
        last_checked: candidate.last_checked,
        auth_failed: candidate.auth_failed,
        cooling_down: candidate.cooling_down,
        model_cooling_down: candidate.model_cooling_down,
        last_failure: candidate.last_failure,
    }
}

fn arrange(candidates: &Vec<Candidate>, places: &Vec<usize>) -> (result: Vec<Candidate>)
    requires
        is_arrangement(places@),
        places@.len() == candidates@.len(),
    ensures
        candidate_views(result@) == arranged(candidate_views(candidates@), places@),
{
    let ghost all = candidate_views(candidates@);
    let mut result: Vec<Candidate> = Vec::new();
    let mut index: usize = 0;
    while index < places.len()
        invariant
            index <= places@.len(),
            all == candidate_views(candidates@),
            is_arrangement(places@),
            places@.len() == candidates@.len(),
            result@.len() == index,
            forall|i: int| 0 <= i < index ==> (#[trigger] result@[i])@ == all[places@[i] as int],
        decreases places@.len() - index,
    {
        assert(places@[index as int] < places@.len());
        let place: usize = places[index];
        assert(all[place as int] == candidates@[place as int]@);
        result.push(copy_candidate(&candidates[place]));
        index += 1;
    }
    assert(candidate_views(result@) =~= arranged(all, places@));
    result
}

/// The place in a list that a round-robin begins at, and the sequence after it.
pub open spec fn round_robin(sequence: u64, len: nat) -> (int, u64) {
    if len <= 1 {
        (0, sequence)
    } else {
        (((sequence as usize) as int) % (len as int), sequence.wrapping_add(1))
    }
}

/// A sequence that goes round the providers of a group.
#[derive(Debug)]
pub struct RoundRobin {
    pub sequence: u64,
}

impl RoundRobin {
    /// A sequence that begins at the first provider.
    pub fn new() -> (sequence: Self)
        ensures
            sequence.sequence == 0,
    {
        RoundRobin { sequence: 0 }
    }

    /// The place that a list begins at this time.
    pub fn next_round_robin_index(&mut self, len: usize) -> (index: usize)
        ensures
            (index as int, final(self).sequence) == round_robin(old(self).sequence, len as nat),
            len > 0 ==> index < len,
    {
        if len <= 1 {
            return 0;
        }
        let index: usize = (self.sequence as usize) % len;
        self.sequence = self.sequence.wrapping_add(1);
        index
    }
}

/// The candidates in the order of a policy, and the sequence after it.
pub open spec fn by_policy(
    policy: GroupPolicy,
    list: Seq<CandidateView>,
    sequence: u64,
    roll: nat,
    places: Seq<usize>,
) -> (Seq<CandidateView>, u64) {
    if list.len() <= 1 {
        (list, sequence)
    } else {
        match policy {
            GroupPolicy::PriorityFallback => (list, sequence),
            GroupPolicy::Manual => (list, sequence),
            GroupPolicy::RoundRobin => {
                let (index, next) = round_robin(sequence, list.len());
                (rotated(list, index), next)
            },
            GroupPolicy::Random => (arranged(list, places), sequence),
            GroupPolicy::Weighted => (rotated(list, rolled(list, roll, 0)), sequence),
            GroupPolicy::LeastLoaded => (sorted(LoadOrder::Load, list), sequence),
        }
    }
}

/// Puts candidates in the order of a policy, given what chance contributes.
pub fn apply_group_policy_with_roll(
    round_robin_state: &mut RoundRobin,
    policy: GroupPolicy,
    candidates: Vec<Candidate>,
    roll: &PolicyRoll,
) -> (result: Vec<Candidate>)
    requires
        is_arrangement(roll.places@),
        roll.places@.len() == candidates@.len(),
    ensures
        (candidate_views(result@), final(round_robin_state).sequence) == by_policy(
            policy,
            candidate_views(candidates@),
            old(round_robin_state).sequence,
            roll.weight as nat,
            roll.places@,
        ),
{
    assert(candidate_views(candidates@).len() == candidates@.len());
    if candidates.len() <= 1 {
        return candidates;
    }
    match policy {
        GroupPolicy::PriorityFallback => candidates,
        GroupPolicy::Manual => candidates,
        GroupPolicy::RoundRobin => {
            let index: usize = round_robin_state.next_round_robin_index(candidates.len());
            rotate_left(candidates, index)
        },
        GroupPolicy::Random => arrange(&candidates, &roll.places),
        GroupPolicy::Weighted => {
            let index: usize = weighted_candidate_index(&candidates, roll.weight);
            rotate_left(candidates, index)
        },
        GroupPolicy::LeastLoaded => sort_candidates(LoadOrder::Load, candidates),
    }
}

/// Puts candidates in the order of a policy. What a random or a weighted policy
/// does follows a roll that chance decides.
pub fn apply_group_policy(
    round_robin_state: &mut RoundRobin,
    policy: GroupPolicy,
    candidates: Vec<Candidate>,
) -> (result: Vec<Candidate>)
    requires
        policy is Weighted ==> weight_before(
            candidate_views(candidates@),
            candidates@.len() as int,
        ) <= u64::MAX,
    ensures
        exists|roll: u64, places: Seq<usize>|
            is_fair_roll(policy, candidate_views(candidates@), roll, places) && (
            candidate_views(result@),
            final(round_robin_state).sequence,
            ) == by_policy(
                policy,
                candidate_views(candidates@),
                old(round_robin_state).sequence,
                roll as nat,
                places,
            ),
{
    let ghost all = candidate_views(candidates@);
    let mut weight: u64 = 0;
    if policy == GroupPolicy::Weighted {
        let total: u64 = total_weight(&candidates);
        weight =
        random_below(
            if total == 0 {
                1
            } else {
                total
            },
        );
        proof {
            if all.len() > 0 {
                lemma_weight_grows(all, 1, all.len() as int);
                assert(weight_before(all, 1) == weight_before(all, 0) + weight_of(all[0]));
            }
        }
    }
    let places = shuffle_places(places_below(candidates.len()));
    let roll = PolicyRoll { weight, places };
    assert(is_fair_roll(policy, all, roll.weight, roll.places@));
    apply_group_policy_with_roll(round_robin_state, policy, candidates, &roll)
}

/// What may be rolled for a list: places for each of its candidates, and, where
/// weights decide, a number below their sum.
pub open spec fn is_fair_roll(
    policy: GroupPolicy,
    list: Seq<CandidateView>,
    roll: u64,
    places: Seq<usize>,
) -> bool {
    &&& is_arrangement(places)
    &&& places.len() == list.len()
    &&& policy is Weighted && list.len() > 0 ==> roll < weight_before(list, list.len() as int)
}

proof fn lemma_rotated_multiset(list: Seq<CandidateView>, by: int)
    requires
        0 <= by <= list.len(),
    ensures
        rotated(list, by).to_multiset() == list.to_multiset(),
{
    broadcast use vstd::seq_lib::group_to_multiset_ensures;

    vstd::seq_lib::lemma_multiset_commutative(list.skip(by), list.take(by));
    vstd::seq_lib::lemma_multiset_commutative(list.take(by), list.skip(by));
    assert(list.take(by) + list.skip(by) =~= list);
}

/// The place at which an arrangement puts the last of its numbers.
proof fn lemma_arrangement_has_last(places: Seq<usize>, limit: int) -> (at: int)
    requires
        places.len() == limit,
        limit > 0,
        is_arrangement(places),
    ensures
        0 <= at < limit,
        places[at] == limit - 1,
{
    let numbers = Seq::new(places.len(), |i: int| places[i] as int);
    assert(numbers.no_duplicates());
    let held = numbers.to_set();
    numbers.unique_seq_to_set();
    let below = vstd::set_lib::set_int_range(0, limit);
    vstd::set_lib::lemma_int_range(0, limit);
    assert(held.subset_of(below)) by {
        assert forall|x: int| held.contains(x) implies below.contains(x) by {
            let i = choose|i: int| 0 <= i < numbers.len() && numbers[i] == x;
            assert(places[i] < places.len());
        }
    }
    vstd::set_lib::lemma_subset_equality(held, below);
    assert(held.contains(limit - 1));
    choose|i: int| 0 <= i < numbers.len() && numbers[i] == limit - 1
}

proof fn lemma_arranged_multiset(list: Seq<CandidateView>, places: Seq<usize>)
    requires
        is_arrangement(places),
        places.len() == list.len(),
    ensures
        arranged(list, places).to_multiset() == list.to_multiset(),
    decreases list.len(),
{
    broadcast use vstd::seq_lib::group_to_multiset_ensures;

    if list.len() == 0 {
        assert(arranged(list, places) =~= list);
    } else {
        let at = lemma_arrangement_has_last(places, list.len() as int);
        let front = list.drop_last();
        let fewer = places.remove(at);
        assert forall|i: int| 0 <= i < fewer.len() implies (#[trigger] fewer[i]) < fewer.len() by {
            let j = if i < at {
                i
            } else {
                i + 1
            };
            assert(fewer[i] == places[j]);
            assert(places[j] != places[at]) by {
                if j < at {
                    assert(places[j] != places[at]);
                } else {
                    assert(places[at] != places[j]);
                }
            }
        }
        assert forall|i: int, j: int| 0 <= i < j < fewer.len() implies (#[trigger] fewer[i]) != (
        #[trigger] fewer[j]) by {
            let before = if i < at {
                i
            } else {
                i + 1
            };
            let after = if j < at {
                j
            } else {
                j + 1
            };
            assert(places[before] != places[after]);
        }
        lemma_arranged_multiset(front, fewer);
        let whole = arranged(list, places);
        assert(whole.remove(at) =~= arranged(front, fewer));
        assert(whole[at] == list.last());
        assert(front.push(list.last()) =~= list);
        assert(whole.remove(at).insert(at, whole[at]) =~= whole);
        vstd::seq_lib::to_multiset_insert(whole.remove(at), at, whole[at]);
    }
}

/// Whatever the policy and the rolls, the order holds the candidates that it was
/// made from, each once.
pub proof fn law_policies_keep_candidates(
    policy: GroupPolicy,
    list: Seq<CandidateView>,
    sequence: u64,
    roll: u64,
    places: Seq<usize>,
)
    requires
        is_fair_roll(policy, list, roll, places),
    ensures
        by_policy(policy, list, sequence, roll as nat, places).0.to_multiset()
            == list.to_multiset(),
        by_policy(policy, list, sequence, roll as nat, places).0.len() == list.len(),
{
    if list.len() > 1 {
        match policy {
            GroupPolicy::RoundRobin => {
                lemma_rotated_multiset(list, round_robin(sequence, list.len()).0);
            },
            GroupPolicy::Random => {
                lemma_arranged_multiset(list, places);
            },
            GroupPolicy::Weighted => {
                law_rolls_are_shared_by_weight(list, roll as nat);
                lemma_rotated_multiset(list, rolled(list, roll as nat, 0));
            },
            GroupPolicy::LeastLoaded => {
                law_sorting_keeps_candidates(LoadOrder::Load, list);
            },
            _ => {},
        }
    }
}

/// Of any consecutive requests as many as there are candidates, each begins
/// with another candidate.
pub proof fn law_round_robin_takes_turns(sequence: u64, len: nat, steps: nat)
    requires
        len > 1,
        0 < steps < len,
        sequence + steps <= u64::MAX,
        sequence + steps <= usize::MAX,
    ensures
        round_robin(sequence, len).0 != round_robin((sequence + steps) as u64, len).0,
        round_robin(sequence, len).1 == sequence + 1,
{
    vstd::arithmetic::div_mod::lemma_fundamental_div_mod(sequence as int, len as int);
    vstd::arithmetic::div_mod::lemma_fundamental_div_mod(sequence + steps, len as int);
    if sequence as int % len as int == (sequence + steps) % len as int {
        let low = sequence as int / len as int;
        let high = (sequence + steps) / len as int;
        assert(len as int * high - len as int * low == steps);
        assert(len as int * (high - low) == steps) by (nonlinear_arith)
            requires
                len as int * high - len as int * low == steps,
        ;
        assert(false) by (nonlinear_arith)
            requires
                len as int * (high - low) == steps,
                0 < steps < len,
        ;
    }
}

/// Where the least loaded come first, a candidate answers no more requests than
/// any that stands behind it; so the first answers the fewest of all.
pub proof fn law_least_loaded_come_first(
    list: Seq<CandidateView>,
    sequence: u64,
    roll: nat,
    places: Seq<usize>,
)
    ensures
        ({
            let (order, after) = by_policy(GroupPolicy::LeastLoaded, list, sequence, roll, places);
            &&& order.len() == list.len()
            &&& after == sequence
            &&& forall|i: int, j: int|
                0 <= i < j < order.len() ==> (#[trigger] order[i]).inflight <= (
                #[trigger] order[j]).inflight
        }),
{
    if list.len() > 1 {
        law_sorting_keeps_candidates(LoadOrder::Load, list);
        let order = sorted(LoadOrder::Load, list);
        assert forall|i: int, j: int| 0 <= i < j < order.len() implies (
        #[trigger] order[i]).inflight <= (#[trigger] order[j]).inflight by {
            assert(!precedes(LoadOrder::Load, order[j], order[i]));
        }
    }
}

/// Candidates of last resort are put in order by their load, and those of equal
/// load by the time since they were checked: one that was never checked comes
/// before one that was, and the longest ago comes first.
pub proof fn law_last_resorts_are_ordered_by_load_and_check(list: Seq<CandidateView>, i: int, j: int)
    requires
        0 <= i < j < list.len(),
    ensures
        ({
            let one = sorted(LoadOrder::LoadThenCheck, list)[i];
            let other = sorted(LoadOrder::LoadThenCheck, list)[j];
            &&& one.inflight <= other.inflight
            &&& one.inflight == other.inflight ==> match (one.last_checked, other.last_checked) {
                (Some(a), Some(b)) => a <= b,
                (Some(_), None) => false,
                _ => true,
            }
        }),
{
    law_sorting_keeps_candidates(LoadOrder::LoadThenCheck, list);
    let order = sorted(LoadOrder::LoadThenCheck, list);
    assert(!precedes(LoadOrder::LoadThenCheck, order[j], order[i]));
}

/// By priority and by hand, candidates are tried in the order of the group.
pub proof fn law_ranked_groups_keep_their_order(
    policy: GroupPolicy,
    list: Seq<CandidateView>,
    sequence: u64,
    roll: nat,
    places: Seq<usize>,
)
    requires
        policy is PriorityFallback || policy is Manual,
    ensures
        by_policy(policy, list, sequence, roll, places) == (list, sequence),
{
}

/// Round robin begins with another candidate each time, and goes on from there
/// through the others in their order.
pub proof fn law_round_robin_goes_around(
    list: Seq<CandidateView>,
    sequence: u64,
    roll: nat,
    places: Seq<usize>,
    i: int,
)
    requires
        list.len() > 1,
        list.len() <= usize::MAX,
        sequence < usize::MAX,
        0 <= i < list.len(),
    ensures
        ({
            let (order, after) = by_policy(GroupPolicy::RoundRobin, list, sequence, roll, places);
            &&& after == sequence + 1
            &&& order.len() == list.len()
            &&& order[i] == list[(sequence + i) % (list.len() as int)]
        }),
{
    let len = list.len() as int;
    let start = sequence as int % len;
    vstd::arithmetic::div_mod::lemma_fundamental_div_mod(sequence as int, len);
    vstd::arithmetic::div_mod::lemma_mod_bound(sequence as int, len);
    let turns = sequence as int / len;
    assert(rotated(list, start)[i] == if i < len - start {
        list[start + i]
    } else {
        list[start + i - len]
    });
    if i < len - start {
        assert(sequence + i == len * turns + (start + i));
        vstd::arithmetic::div_mod::lemma_fundamental_div_mod_converse(
            sequence + i,
            len,
            turns,
            start + i,
        );
    } else {
        assert(sequence + i == (turns + 1) * len + (start + i - len)) by (nonlinear_arith)
            requires
                sequence == len * turns + start,
        ;
        vstd::arithmetic::div_mod::lemma_fundamental_div_mod_converse(
            sequence + i,
            len,
            turns + 1,
            start + i - len,
        );
    }
}

/// The sum of the weights of the candidates in front of a place, each counted as
/// one at least.
pub open spec fn shares_before(list: Seq<CandidateView>, place: int) -> int
    decreases place,
{
    if place <= 0 {
        0
    } else {
        shares_before(list, place - 1) + match list[place - 1].weight {
            Some(weight) => if weight == 0 {
                1
            } else {
                weight as int
            },
            None => 1,
        }
    }
}

proof fn lemma_shares(list: Seq<CandidateView>, place: int)
    requires
        0 <= place <= list.len(),
    ensures
        shares_before(list, place) == weight_before(list, place),
    decreases place,
{
    if place > 0 {
        lemma_shares(list, place - 1);
    }
}

/// By weight, a candidate comes first for as many rolls as its weight, and the
/// others follow it in their order.
pub proof fn law_weights_decide_who_comes_first(
    list: Seq<CandidateView>,
    sequence: u64,
    roll: nat,
    places: Seq<usize>,
    place: int,
)
    requires
        list.len() > 1,
        0 <= place < list.len(),
        shares_before(list, place) <= roll < shares_before(list, place + 1),
    ensures
        by_policy(GroupPolicy::Weighted, list, sequence, roll, places).0 == list.skip(place)
            + list.take(place),
{
    lemma_shares(list, place);
    lemma_shares(list, place + 1);
    lemma_rolled_place(list, roll, 0, place);
}

proof fn lemma_rolled_place(list: Seq<CandidateView>, roll: nat, from: int, place: int)
    requires
        0 <= from <= place < list.len(),
        weight_before(list, place) <= roll < weight_before(list, place + 1),
    ensures
        rolled(list, roll, from) == place,
    decreases place - from,
{
    if from < place {
        lemma_weight_grows(list, from + 1, place);
        lemma_rolled_place(list, roll, from + 1, place);
    }
}

} // verus!
