//! What the relay remembers between requests: which provider a session is bound
//! to, and how many requests each provider is answering.
use crate::tally::{count_in, one_less, one_more, Tally};
use crate::text::{same, string_view};
use vstd::prelude::*;
use vstd::string::*;

verus! {

/// How many sessions are kept.
pub const MAX_SESSION_AFFINITY_BINDINGS: usize = 4096;

/// A session and the provider that it is bound to.
#[derive(Debug)]
pub struct SessionAffinityBinding {
    pub key: String,
    pub provider_id: String,
    /// When it was last used, in nanoseconds of a clock that never goes back.
    pub updated_at: u128,
}

/// What a `SessionAffinityBinding` holds.
#[verifier::ext_equal]
pub struct BindingView {
    pub key: Seq<char>,
    pub provider_id: Seq<char>,
    pub updated_at: u128,
}

impl View for SessionAffinityBinding {
    type V = BindingView;

    open spec fn view(&self) -> BindingView {
        BindingView {
            key: self.key@,
            provider_id: self.provider_id@,
            updated_at: self.updated_at,
        }
    }
}

/// What a list of bindings holds.
pub open spec fn binding_views(list: Seq<SessionAffinityBinding>) -> Seq<BindingView> {
    Seq::new(list.len(), |i: int| list[i]@)
}

/// How long a binding is kept without being used, in nanoseconds: what is asked
/// for, but at least a minute and at most a day.
pub open spec fn lifetime(ttl_seconds: u64) -> u128 {
    (if ttl_seconds < 60 {
        60
    } else if ttl_seconds > 86_400 {
        86_400
    } else {
        ttl_seconds as int
    } * 1_000_000_000) as u128
}

/// How long a binding is kept without being used, in nanoseconds.
pub fn binding_lifetime(ttl_seconds: u64) -> (nanos: u128)
    ensures
        nanos == lifetime(ttl_seconds),
{
    let seconds: u64 = if ttl_seconds < 60 {
        60
    } else if ttl_seconds > 86_400 {
        86_400
    } else {
        ttl_seconds
    };
    seconds as u128 * 1_000_000_000
}

/// Whether a binding was used recently enough.
pub open spec fn is_fresh(binding: BindingView, now: u128, ttl_seconds: u64) -> bool {
    now - binding.updated_at <= lifetime(ttl_seconds)
}

/// The bindings that were used recently enough.
pub open spec fn fresh(list: Seq<BindingView>, now: u128, ttl_seconds: u64) -> Seq<BindingView>
    decreases list.len(),
{
    if list.len() == 0 {
        list
    } else {
        let before = fresh(list.drop_last(), now, ttl_seconds);
        if is_fresh(list.last(), now, ttl_seconds) {
            before.push(list.last())
        } else {
            before
        }
    }
}

/// Where the binding of a key stands, from one place on.
pub open spec fn binding_from(list: Seq<BindingView>, key: Seq<char>, from: int) -> Option<int>
    decreases list.len() - from,
{
    if !(0 <= from < list.len()) {
        None
    } else if list[from].key == key {
        Some(from)
    } else {
        binding_from(list, key, from + 1)
    }
}

proof fn lemma_binding(list: Seq<BindingView>, key: Seq<char>, from: int)
    requires
        0 <= from,
    ensures
        match binding_from(list, key, from) {
            Some(index) => from <= index < list.len() && list[index].key == key,
            None => forall|i: int| from <= i < list.len() ==> (#[trigger] list[i]).key != key,
        },
    decreases list.len() - from,
{
    if from < list.len() && list[from].key != key {
        lemma_binding(list, key, from + 1);
    }
}

/// Whether no key is bound twice.
pub open spec fn keys_differ(list: Seq<BindingView>) -> bool {
    forall|i: int, j: int|
        0 <= i < j < list.len() ==> (#[trigger] list[i]).key != (#[trigger] list[j]).key
}

/// Drops the bindings that were not used recently enough.
pub fn prune_bindings(bindings: &mut Vec<SessionAffinityBinding>, ttl_seconds: u64, now: u128)
    ensures
        binding_views(final(bindings)@) == fresh(binding_views(old(bindings)@), now, ttl_seconds),
        final(bindings)@.len() <= old(bindings)@.len(),
{
    let ghost all = binding_views(bindings@);
    let allowed: u128 = binding_lifetime(ttl_seconds);
    let mut index: usize = 0;
    while index < bindings.len() && (now <= bindings[index].updated_at || now
        - bindings[index].updated_at <= allowed)
        invariant
            index <= bindings@.len(),
            all == binding_views(bindings@),
            bindings@ == old(bindings)@,
            allowed == lifetime(ttl_seconds),
            forall|i: int| 0 <= i < index ==> is_fresh(#[trigger] all[i], now, ttl_seconds),
        decreases bindings@.len() - index,
    {
        assert(all[index as int] == bindings@[index as int]@);
        index += 1;
    }
    if index == bindings.len() {
        proof {
            lemma_all_fresh(all, now, ttl_seconds);
        }
        return;
    }
    let mut rest: Vec<SessionAffinityBinding> = Vec::new();
    core::mem::swap(bindings, &mut rest);
    let ghost mut done: int = 0;
    assert(all.take(0) =~= seq![]);
    assert(binding_views(bindings@) =~= fresh(all.take(0), now, ttl_seconds));
    assert(all.skip(0) =~= all);
    while rest.len() > 0
        invariant
            0 <= done <= all.len(),
            allowed == lifetime(ttl_seconds),
            binding_views(rest@) == all.skip(done),
            binding_views(bindings@) == fresh(all.take(done), now, ttl_seconds),
            bindings@.len() <= done,
            all.len() == old(bindings)@.len(),
        decreases rest@.len(),
    {
        let ghost before = binding_views(bindings@);
        assert(binding_views(rest@).len() == rest@.len());
        assert(binding_views(rest@)[0] == rest@[0]@);
        assert(all.skip(done)[0] == all[done]);
        let binding = rest.remove(0);
        let ghost view = binding@;
        proof {
            assert(all.take(done + 1).drop_last() =~= all.take(done));
            assert(all.take(done + 1).last() == view);
            assert(binding_views(rest@) =~= all.skip(done).skip(1));
            assert(all.skip(done).skip(1) =~= all.skip(done + 1));
            done = done + 1;
        }
        if now <= binding.updated_at || now - binding.updated_at <= allowed {
            bindings.push(binding);
            assert(binding_views(bindings@) =~= before.push(view));
        }
    }
    assert(all.take(done) =~= all);
}

/// Where every binding was used recently enough, none is dropped.
proof fn lemma_all_fresh(list: Seq<BindingView>, now: u128, ttl_seconds: u64)
    requires
        forall|i: int| 0 <= i < list.len() ==> is_fresh(#[trigger] list[i], now, ttl_seconds),
    ensures
        fresh(list, now, ttl_seconds) == list,
    decreases list.len(),
{
    if list.len() > 0 {
        let front = list.drop_last();
        assert forall|i: int| 0 <= i < front.len() implies is_fresh(
            #[trigger] front[i],
            now,
            ttl_seconds,
        ) by {
            assert(front[i] == list[i]);
        }
        lemma_all_fresh(front, now, ttl_seconds);
        assert(is_fresh(list[list.len() - 1], now, ttl_seconds));
        assert(front.push(list.last()) =~= list);
    }
}

proof fn lemma_fresh(list: Seq<BindingView>, now: u128, ttl_seconds: u64, binding: BindingView)
    ensures
        fresh(list, now, ttl_seconds).contains(binding) <==> list.contains(binding) && is_fresh(
            binding,
            now,
            ttl_seconds,
        ),
    decreases list.len(),
{
    if list.len() > 0 {
        let front = list.drop_last();
        let before = fresh(front, now, ttl_seconds);
        let result = fresh(list, now, ttl_seconds);
        lemma_fresh(front, now, ttl_seconds, binding);
        if list.contains(binding) {
            let i = choose|i: int| 0 <= i < list.len() && list[i] == binding;
            if i < front.len() {
                assert(front[i] == binding);
            }
        }
        if front.contains(binding) {
            let i = choose|i: int| 0 <= i < front.len() && front[i] == binding;
            assert(list[i] == binding);
        }
        if before.contains(binding) {
            let i = choose|i: int| 0 <= i < before.len() && before[i] == binding;
            assert(result[i] == binding);
        }
        if result.contains(binding) {
            let i = choose|i: int| 0 <= i < result.len() && result[i] == binding;
            if i < before.len() {
                assert(before[i] == binding);
            } else {
                assert(list[list.len() - 1] == binding);
            }
        }
        if binding == list.last() {
            assert(list[list.len() - 1] == binding);
            if is_fresh(binding, now, ttl_seconds) {
                assert(result[result.len() - 1] == binding);
            }
        }
    }
}

proof fn lemma_fresh_keys(list: Seq<BindingView>, now: u128, ttl_seconds: u64)
    requires
        keys_differ(list),
    ensures
        keys_differ(fresh(list, now, ttl_seconds)),
        fresh(list, now, ttl_seconds).len() <= list.len(),
    decreases list.len(),
{
    if list.len() > 0 {
        let front = list.drop_last();
        let before = fresh(front, now, ttl_seconds);
        let result = fresh(list, now, ttl_seconds);
        assert forall|i: int, j: int| 0 <= i < j < front.len() implies (#[trigger] front[i]).key
            != (#[trigger] front[j]).key by {
            assert(list[i].key != list[j].key);
        }
        lemma_fresh_keys(front, now, ttl_seconds);
        assert forall|i: int, j: int| 0 <= i < j < result.len() implies (#[trigger] result[i]).key
            != (#[trigger] result[j]).key by {
            if j < before.len() {
                assert(before[i].key != before[j].key);
            } else {
                lemma_fresh(front, now, ttl_seconds, before[i]);
                assert(before.contains(before[i]));
                let k = choose|k: int| 0 <= k < front.len() && front[k] == before[i];
                assert(list[k].key != list[list.len() - 1].key);
            }
        }
    }
}

/// Where the binding that was used longest ago stands among the first of a list;
/// of several the first.
pub open spec fn oldest_of(list: Seq<BindingView>, count: int) -> int
    decreases count,
{
    if !(1 < count <= list.len()) {
        0
    } else {
        let oldest = oldest_of(list, count - 1);
        if list[count - 1].updated_at < list[oldest].updated_at {
            count - 1
        } else {
            oldest
        }
    }
}

proof fn lemma_oldest(list: Seq<BindingView>, count: int)
    requires
        1 <= count <= list.len(),
    ensures
        0 <= oldest_of(list, count) < count,
        forall|i: int|
            0 <= i < count ==> list[oldest_of(list, count)].updated_at <= (
            #[trigger] list[i]).updated_at,
        forall|i: int|
            0 <= i < oldest_of(list, count) ==> list[oldest_of(list, count)].updated_at < (
            #[trigger] list[i]).updated_at,
    decreases count,
{
    if count > 1 {
        lemma_oldest(list, count - 1);
    }
}

/// The bindings with one more, in place of that of its key or at the end.
pub open spec fn with_binding(list: Seq<BindingView>, binding: BindingView) -> Seq<BindingView> {
    match binding_from(list, binding.key, 0) {
        Some(index) => list.update(index, binding),
        None => list.push(binding),
    }
}

/// The bindings without that which was used longest ago, where there are too
/// many.
pub open spec fn capped(list: Seq<BindingView>) -> Seq<BindingView> {
    if list.len() > MAX_SESSION_AFFINITY_BINDINGS {
        list.remove(oldest_of(list, list.len() as int))
    } else {
        list
    }
}

/// The bindings after a session was bound to a provider.
pub open spec fn bound(
    list: Seq<BindingView>,
    key: Seq<char>,
    provider_id: Seq<char>,
    ttl_seconds: u64,
    now: u128,
) -> Seq<BindingView> {
    capped(
        with_binding(
            fresh(list, now, ttl_seconds),
            BindingView { key, provider_id, updated_at: now },
        ),
    )
}

/// The bindings after a session was asked for, and the provider that it is
/// bound to.
pub open spec fn asked(
    list: Seq<BindingView>,
    key: Seq<char>,
    ttl_seconds: u64,
    now: u128,
) -> (Seq<BindingView>, Option<Seq<char>>) {
    let kept = fresh(list, now, ttl_seconds);
    match binding_from(kept, key, 0) {
        Some(index) => (
            kept.update(index, BindingView { updated_at: now, ..kept[index] }),
            Some(kept[index].provider_id),
        ),
        None => (kept, None),
    }
}

/// The sessions that the relay remembers.
#[derive(Debug)]
pub struct SessionAffinity {
    bindings: Vec<SessionAffinityBinding>,
}

impl SessionAffinity {
    /// The bindings of the sessions.
    pub closed spec fn view(&self) -> Seq<BindingView> {
        binding_views(self.bindings@)
    }

    /// Whether no session is bound twice, and no more are kept than may be.
    pub open spec fn well_formed(&self) -> bool {
        keys_differ(self.view()) && self.view().len() <= MAX_SESSION_AFFINITY_BINDINGS
    }

    /// No sessions.
    pub fn new() -> (affinity: Self)
        ensures
            affinity.view() == Seq::<BindingView>::empty(),
            affinity.well_formed(),
    {
        let affinity = SessionAffinity { bindings: Vec::new() };
        assert(affinity.view() =~= seq![]);
        affinity
    }

    fn find(&self, key: &str) -> (place: Option<usize>)
        ensures
            match place {
                Some(index) => binding_from(self.view(), key@, 0) == Some(index as int) && index
                    < self.bindings@.len(),
                None => binding_from(self.view(), key@, 0) is None,
            },
    {
        let mut index: usize = 0;
        while index < self.bindings.len()
            invariant
                index <= self.bindings@.len(),
                binding_from(self.view(), key@, 0) == binding_from(
                    self.view(),
                    key@,
                    index as int,
                ),
            decreases self.bindings@.len() - index,
        {
            assert(self.view()[index as int] == self.bindings@[index as int]@);
            if same(self.bindings[index].key.as_str(), key) {
                return Some(index);
            }
            index += 1;
        }
        None
    }

    /// The provider that a session is bound to, where that was used recently
    /// enough; it counts as used now.
    pub fn preferred_provider(&mut self, key: &str, ttl_seconds: u64, now: u128) -> (provider:
        Option<String>)
        requires
            old(self).well_formed(),
        ensures
            (final(self).view(), string_view(provider)) == asked(
                old(self).view(),
                key@,
                ttl_seconds,
                now,
            ),
            final(self).well_formed(),
    {
        proof {
            lemma_fresh_keys(self.view(), now, ttl_seconds);
        }
        prune_bindings(&mut self.bindings, ttl_seconds, now);
        let ghost kept = self.view();
        match self.find(key) {
            Some(index) => {
                let provider = self.bindings[index].provider_id.clone();
                assert(kept[index as int] == self.bindings@[index as int]@);
                let binding = SessionAffinityBinding {
                    key: self.bindings[index].key.clone(),
                    provider_id: provider.clone(),
                    updated_at: now,
                };
                self.bindings.set(index, binding);
                proof {
                    lemma_binding(kept, key@, 0);
                    assert(self.view() =~= kept.update(
                        index as int,
                        BindingView { updated_at: now, ..kept[index as int] },
                    ));
                    assert(keys_differ(self.view()));
                }
                Some(provider)
            },
            None => None,
        }
    }

    fn oldest(&self) -> (index: usize)
        requires
            self.bindings@.len() > 0,
        ensures
            index == oldest_of(self.view(), self.view().len() as int),
            index < self.bindings@.len(),
    {
        let ghost all = self.view();
        let mut oldest: usize = 0;
        let mut index: usize = 1;
        while index < self.bindings.len()
            invariant
                1 <= index <= self.bindings@.len(),
                oldest < index,
                all == self.view(),
                oldest == oldest_of(all, index as int),
            decreases self.bindings@.len() - index,
        {
            assert(all[index as int] == self.bindings@[index as int]@);
            assert(all[oldest as int] == self.bindings@[oldest as int]@);
            if self.bindings[index].updated_at < self.bindings[oldest].updated_at {
                oldest = index;
            }
            index += 1;
        }
        oldest
    }

    /// Binds a session to a provider. Where there are too many sessions, the
    /// one that was used longest ago is dropped.
    pub fn bind_provider(&mut self, key: &str, provider_id: &str, ttl_seconds: u64, now: u128)
        requires
            old(self).well_formed(),
        ensures
            final(self).view() == bound(
                old(self).view(),
                key@,
                provider_id@,
                ttl_seconds,
                now,
            ),
            final(self).well_formed(),
    {
        proof {
            lemma_fresh_keys(self.view(), now, ttl_seconds);
        }
        prune_bindings(&mut self.bindings, ttl_seconds, now);
        let ghost kept = self.view();
        let binding = SessionAffinityBinding {
            key: key.to_string(),
            provider_id: provider_id.to_string(),
            updated_at: now,
        };
        let ghost added = binding@;
        proof {
            lemma_binding(kept, key@, 0);
        }
        match self.find(key) {
            Some(index) => {
                self.bindings.set(index, binding);
                assert(self.view() =~= kept.update(index as int, added));
            },
            None => {
                self.bindings.push(binding);
                assert(self.view() =~= kept.push(added));
            },
        }
        let ghost all = self.view();
        assert(keys_differ(all));
        assert(all.len() == self.bindings@.len());
        if self.bindings.len() > MAX_SESSION_AFFINITY_BINDINGS {
            let oldest: usize = self.oldest();
            self.bindings.remove(oldest);
            proof {
                assert(self.view() =~= all.remove(oldest as int));
                lemma_removed_keys(all, oldest as int);
            }
        }
    }
}

proof fn lemma_removed_keys(list: Seq<BindingView>, place: int)
    requires
        keys_differ(list),
        0 <= place < list.len(),
    ensures
        keys_differ(list.remove(place)),
{
    let result = list.remove(place);
    assert forall|i: int, j: int| 0 <= i < j < result.len() implies (#[trigger] result[i]).key != (
    #[trigger] result[j]).key by {
        let a = if i < place {
            i
        } else {
            i + 1
        };
        let b = if j < place {
            j
        } else {
            j + 1
        };
        assert(list[a].key != list[b].key);
    }
}

/// A session that was bound is found again, with its provider, as long as it was
/// used recently enough.
pub proof fn law_bound_sessions_are_found(
    list: Seq<BindingView>,
    key: Seq<char>,
    provider_id: Seq<char>,
    ttl_seconds: u64,
    now: u128,
    later: u128,
)
    requires
        keys_differ(list),
        list.len() <= MAX_SESSION_AFFINITY_BINDINGS,
        forall|i: int| 0 <= i < list.len() ==> (#[trigger] list[i]).updated_at <= now,
        now <= later <= now + lifetime(ttl_seconds),
    ensures
        asked(bound(list, key, provider_id, ttl_seconds, now), key, ttl_seconds, later).1 == Some(
            provider_id,
        ),
{
    let kept = fresh(list, now, ttl_seconds);
    let binding = BindingView { key, provider_id, updated_at: now };
    lemma_fresh_keys(list, now, ttl_seconds);
    lemma_binding(kept, key, 0);
    let all = with_binding(kept, binding);
    let at = match binding_from(kept, key, 0) {
        Some(index) => index,
        None => kept.len() as int,
    };
    assert(all[at] == binding);
    assert(keys_differ(all));
    assert forall|i: int| 0 <= i < kept.len() implies (#[trigger] kept[i]).updated_at <= now by {
        lemma_fresh(list, now, ttl_seconds, kept[i]);
        assert(kept.contains(kept[i]));
        let k = choose|k: int| 0 <= k < list.len() && list[k] == kept[i];
        assert(list[k].updated_at <= now);
    }
    let result = bound(list, key, provider_id, ttl_seconds, now);
    if all.len() > MAX_SESSION_AFFINITY_BINDINGS {
        let oldest = oldest_of(all, all.len() as int);
        lemma_oldest(all, all.len() as int);
        lemma_removed_keys(all, oldest);
        assert(at == kept.len());
        assert(all[0] == kept[0]);
        assert(oldest != at);
    }
    assert(result.contains(binding)) by {
        if all.len() > MAX_SESSION_AFFINITY_BINDINGS {
            let oldest = oldest_of(all, all.len() as int);
            if at < oldest {
                assert(result[at] == binding);
            } else {
                assert(result[at - 1] == binding);
            }
        } else {
            assert(result[at] == binding);
        }
    }
    lemma_fresh(result, later, ttl_seconds, binding);
    let found = fresh(result, later, ttl_seconds);
    lemma_fresh_keys(result, later, ttl_seconds);
    lemma_binding(found, key, 0);
    let i = choose|i: int| 0 <= i < found.len() && found[i] == binding;
    assert(found[i].key == key);
    let place = binding_from(found, key, 0)->Some_0;
    if i < place {
        assert(found[i].key != found[place].key);
    } else if place < i {
        assert(found[place].key != found[i].key);
    }
}

/// How many requests each provider is answering.
#[derive(Debug)]
pub struct ProviderLoad {
    pub inflight: Tally,
}

impl ProviderLoad {
    /// No requests.
    pub fn new() -> (load: Self)
        ensures
            load.inflight.well_formed(),
            load.inflight.view() == Map::<Seq<char>, usize>::empty(),
    {
        ProviderLoad { inflight: Tally::new() }
    }

    /// How many requests a provider is answering.
    pub fn provider_inflight_count(&self, provider_id: &str) -> (count: usize)
        requires
            self.inflight.well_formed(),
        ensures
            count == count_in(self.inflight.view(), provider_id@),
    {
        self.inflight.count(provider_id)
    }

    /// A provider is given a request.
    pub fn begin_provider_request(&mut self, provider_id: &str)
        requires
            old(self).inflight.well_formed(),
            count_in(old(self).inflight.view(), provider_id@) < usize::MAX,
        ensures
            final(self).inflight.well_formed(),
            final(self).inflight.view() == one_more(old(self).inflight.view(), provider_id@),
    {
        self.inflight.add_one(provider_id);
    }

    /// A provider is done with a request.
    pub fn end_provider_request(&mut self, provider_id: &str)
        requires
            old(self).inflight.well_formed(),
        ensures
            final(self).inflight.well_formed(),
            final(self).inflight.view() == one_less(old(self).inflight.view(), provider_id@),
    {
        self.inflight.take_one(provider_id);
    }
}

/// A session that was not used for longer than its lifetime is not found, and
/// neither is one that was never bound. Whatever was asked for, a session is kept
/// for a minute at least and for a day at most.
pub proof fn law_unused_sessions_are_forgotten(
    list: Seq<BindingView>,
    key: Seq<char>,
    ttl_seconds: u64,
    now: u128,
)
    requires
        forall|i: int|
            0 <= i < list.len() && (#[trigger] list[i]).key == key ==> now - list[i].updated_at
                > 86_400_000_000_000 || (now - list[i].updated_at > 60_000_000_000 && now
                - list[i].updated_at > ttl_seconds * 1_000_000_000),
    ensures
        asked(list, key, ttl_seconds, now).1 is None,
{
    let kept = fresh(list, now, ttl_seconds);
    lemma_binding(kept, key, 0);
    if let Some(index) = binding_from(kept, key, 0) {
        let found = kept[index];
        assert(kept.contains(found));
        lemma_fresh(list, now, ttl_seconds, found);
        let place = choose|place: int| 0 <= place < list.len() && list[place] == found;
        assert(list[place].key == key);
    }
}

/// Asking for a session that is bound gives the provider that it is bound to, as
/// long as it was used within a minute.
pub proof fn law_recent_sessions_keep_their_provider(
    list: Seq<BindingView>,
    place: int,
    ttl_seconds: u64,
    now: u128,
)
    requires
        keys_differ(list),
        0 <= place < list.len(),
        list[place].updated_at <= now <= list[place].updated_at + 60_000_000_000,
    ensures
        asked(list, list[place].key, ttl_seconds, now).1 == Some(list[place].provider_id),
{
    let kept = fresh(list, now, ttl_seconds);
    let wanted = list[place];
    lemma_fresh_keys(list, now, ttl_seconds);
    lemma_fresh(list, now, ttl_seconds, wanted);
    assert(list.contains(wanted));
    let at = choose|at: int| 0 <= at < kept.len() && kept[at] == wanted;
    lemma_binding(kept, wanted.key, 0);
    let index = binding_from(kept, wanted.key, 0)->0;
    if index != at {
        if index < at {
            assert(kept[index].key != kept[at].key);
        } else {
            assert(kept[at].key != kept[index].key);
        }
    }
}

} // verus!
