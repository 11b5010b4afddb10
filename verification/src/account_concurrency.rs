//! How many requests an account may answer at a time, and who waits for it.
use crate::digest::{hex, hex_text, sha256, sha256_digest};
use crate::tally::{count_in, one_less, one_more, Tally};
use crate::text::{concat2, decimal, numeral};
use vstd::prelude::*;
use vstd::string::*;
use vstd::utf8::*;

verus! {

/// How many requests may wait for an account.
pub const ACCOUNT_QUEUE_LENGTH: usize = 100;

/// The longest that a request waits, in milliseconds.
pub const MAX_ACCOUNT_WAIT_MS: u64 = 120_000;

/// How long a request waits before it looks again, in milliseconds.
pub const ACCOUNT_POLL_MS: u64 = 500;

/// Why an account could not be had.
#[derive(Debug, Clone, Copy, PartialEq, Eq, Structural)]
pub enum AccountError {
    StorageUnavailable,
    PolicyUnavailable,
    Exceeded,
    WaitTimeout,
    QueueFull,
}

impl AccountError {
    /// The code of the error.
    pub open spec fn name(self) -> Seq<char> {
        match self {
            AccountError::StorageUnavailable => "account_concurrency_storage_unavailable"@,
            AccountError::PolicyUnavailable => "account_policy_unavailable"@,
            AccountError::Exceeded => "account_concurrency_exceeded"@,
            AccountError::WaitTimeout => "account_concurrency_wait_timeout"@,
            AccountError::QueueFull => "account_concurrency_queue_full"@,
        }
    }

    /// The code of the error.
    pub fn code(self) -> (code: &'static str)
        ensures
            code@ == self.name(),
    {
        match self {
            AccountError::StorageUnavailable => "account_concurrency_storage_unavailable",
            AccountError::PolicyUnavailable => "account_policy_unavailable",
            AccountError::Exceeded => "account_concurrency_exceeded",
            AccountError::WaitTimeout => "account_concurrency_wait_timeout",
            AccountError::QueueFull => "account_concurrency_queue_full",
        }
    }
}

/// Whether an account that answers some requests may take one more; a limit of
/// 0 is none.
pub open spec fn has_room(count: usize, limit: u16) -> bool {
    limit == 0 || count < limit
}

/// What comes of reserving an account, and the counts after it: it is reserved
/// where it has room and a lock is held or none is needed.
pub open spec fn reservation(
    counts: Map<Seq<char>, usize>,
    key: Seq<char>,
    limit: u16,
    lock: LockStep,
) -> (Result<bool, AccountError>, Map<Seq<char>, usize>) {
    if !has_room(count_in(counts, key), limit) {
        (Ok(false), counts)
    } else {
        match lock {
            LockStep::Held => (Ok(true), one_more(counts, key)),
            LockStep::NotNeeded => (Ok(true), one_more(counts, key)),
            LockStep::Failed => (Err(AccountError::StorageUnavailable), counts),
            _ => (Ok(false), counts),
        }
    }
}

/// The directory that holds the locks of an account.
pub fn lock_directory(key: &str) -> (name: String)
    ensures
        name@ == hex(sha256(encode_utf8(key@))),
{
    let digest = sha256_digest(key.as_bytes());
    hex_text(digest.as_slice())
}

/// The file that holds a lock of an account.
pub fn lock_file(slot: u16) -> (name: String)
    ensures
        name@ == numeral(slot as nat, 10) + ".lock"@,
{
    let number = decimal(slot as u64);
    concat2(number.as_str(), ".lock")
}

/// What came of trying to lock a file.
#[derive(Debug, Clone, Copy, PartialEq, Eq, Structural)]
pub enum LockOutcome {
    Held,
    Busy,
    Failed,
}

/// What to do about the locks of an account.
#[derive(Debug, Clone, Copy, PartialEq, Eq, Structural)]
pub enum LockStep {
    /// Try the file of a number.
    TryFile(u16),
    /// A lock is held.
    Held,
    /// All locks are held by others.
    Full,
    /// The files cannot be used.
    Failed,
    /// No lock is needed.
    NotNeeded,
}

/// The first lock that is tried: none where the account has no limit or its
/// locks are not shared.
pub fn first_lock(shared: bool, limit: u16) -> (step: LockStep)
    ensures
        step == (if shared && limit > 0 {
            LockStep::TryFile(0)
        } else {
            LockStep::NotNeeded
        }),
{
    if shared && limit > 0 {
        LockStep::TryFile(0)
    } else {
        LockStep::NotNeeded
    }
}

/// What follows an attempt at a lock: each is tried in turn until one is held.
pub open spec fn lock_after(slot: u16, limit: u16, outcome: LockOutcome) -> LockStep {
    match outcome {
        LockOutcome::Held => LockStep::Held,
        LockOutcome::Busy => if slot + 1 < limit {
            LockStep::TryFile((slot + 1) as u16)
        } else {
            LockStep::Full
        },
        LockOutcome::Failed => LockStep::Failed,
    }
}

/// What follows an attempt at a lock.
pub fn next_lock(slot: u16, limit: u16, outcome: LockOutcome) -> (step: LockStep)
    ensures
        step == lock_after(slot, limit, outcome),
{
    match outcome {
        LockOutcome::Held => LockStep::Held,
        LockOutcome::Busy => if slot < limit && slot + 1 < limit {
            LockStep::TryFile(slot + 1)
        } else {
            LockStep::Full
        },
        LockOutcome::Failed => LockStep::Failed,
    }
}

/// Only locks below the limit are tried, each once at most.
pub proof fn law_locks_stay_below_the_limit(slot: u16, limit: u16, outcome: LockOutcome)
    ensures
        lock_after(slot, limit, outcome) matches LockStep::TryFile(next) ==> slot < next < limit,
{
}

/// How many requests each account is answering.
#[derive(Debug)]
pub struct AccountConcurrency {
    pub active: Tally,
}

impl AccountConcurrency {
    /// No requests.
    pub fn new() -> (accounts: Self)
        ensures
            accounts.active.well_formed(),
            accounts.active.view() == Map::<Seq<char>, usize>::empty(),
    {
        AccountConcurrency { active: Tally::new() }
    }

    /// Whether an account may take one more request.
    pub fn may_reserve(&self, key: &str, limit: u16) -> (may: bool)
        requires
            self.active.well_formed(),
        ensures
            may == has_room(count_in(self.active.view(), key@), limit),
    {
        limit == 0 || self.active.count(key) < limit as usize
    }

    /// Reserves an account for a request, given what came of its locks: it is
    /// reserved where it has room and a lock is held or none is needed.
    pub fn reserve(&mut self, key: &str, limit: u16, lock: LockStep) -> (reserved: Result<
        bool,
        AccountError,
    >)
        requires
            old(self).active.well_formed(),
            count_in(old(self).active.view(), key@) < usize::MAX,
        ensures
            final(self).active.well_formed(),
            (reserved, final(self).active.view()) == reservation(
                old(self).active.view(),
                key@,
                limit,
                lock,
            ),
    {
        if !self.may_reserve(key, limit) {
            return Ok(false);
        }
        match lock {
            LockStep::Held => {},
            LockStep::NotNeeded => {},
            LockStep::Failed => {
                return Err(AccountError::StorageUnavailable);
            },
            _ => {
                return Ok(false);
            },
        }
        self.active.add_one(key);
        Ok(true)
    }

    /// An account is done with a request.
    pub fn release(&mut self, key: &str)
        requires
            old(self).active.well_formed(),
        ensures
            final(self).active.well_formed(),
            final(self).active.view() == one_less(old(self).active.view(), key@),
    {
        self.active.take_one(key);
    }
}

/// An account at its limit is not reserved; one that is reserved answers one more
/// request, and no more than its limit allows; one without a limit, which needs no
/// lock, is always reserved. Where it is not reserved no count changes, and the
/// counts of other accounts never do.
pub proof fn law_reservations_are_counted(
    counts: Map<Seq<char>, usize>,
    key: Seq<char>,
    other: Seq<char>,
    limit: u16,
    lock: LockStep,
)
    requires
        count_in(counts, key) < usize::MAX,
        limit == 0 ==> lock is NotNeeded,
    ensures
        ({
            let (reserved, after) = reservation(counts, key, limit, lock);
            &&& limit > 0 && count_in(counts, key) >= limit ==> reserved == Ok::<
                bool,
                AccountError,
            >(false)
            &&& reserved == Ok::<bool, AccountError>(true) ==> count_in(after, key) == count_in(
                counts,
                key,
            ) + 1 && (limit > 0 ==> count_in(after, key) <= limit)
            &&& reserved != Ok::<bool, AccountError>(true) ==> after == counts
            &&& limit == 0 ==> reserved == Ok::<bool, AccountError>(true)
            &&& other != key ==> count_in(after, other) == count_in(counts, other)
        }),
{
}

/// An account that is reserved answers no more requests than its limit allows.
pub proof fn law_reservations_keep_the_limit(
    counts: Map<Seq<char>, usize>,
    key: Seq<char>,
    limit: u16,
)
    requires
        limit > 0,
        has_room(count_in(counts, key), limit),
    ensures
        count_in(one_more(counts, key), key) <= limit,
{
}

/// The first account from a place on that a request may use.
pub open spec fn eligible_from(eligible: Seq<bool>, from: int) -> Option<int>
    decreases eligible.len() - from,
{
    if !(0 <= from < eligible.len()) {
        None
    } else if eligible[from] {
        Some(from)
    } else {
        eligible_from(eligible, from + 1)
    }
}

/// The first account from a place on that a request may use.
pub fn next_eligible(eligible: &Vec<bool>, from: usize) -> (place: Option<usize>)
    ensures
        match place {
            Some(index) => eligible_from(eligible@, from as int) == Some(index as int),
            None => eligible_from(eligible@, from as int) is None,
        },
{
    let mut index: usize = from;
    while index < eligible.len()
        invariant
            from <= index,
            eligible_from(eligible@, from as int) == eligible_from(eligible@, index as int),
        decreases eligible@.len() - index,
    {
        if eligible[index] {
            return Some(index);
        }
        index += 1;
    }
    None
}

/// When a request stops waiting, in milliseconds.
pub open spec fn deadline_of(now: u128, wait_ms: u64) -> u128 {
    (now + if wait_ms < MAX_ACCOUNT_WAIT_MS {
        wait_ms
    } else {
        MAX_ACCOUNT_WAIT_MS
    }) as u128
}

/// When a request stops waiting, in milliseconds.
pub fn wait_deadline(now: u128, wait_ms: u64) -> (deadline: u128)
    requires
        now + MAX_ACCOUNT_WAIT_MS <= u128::MAX,
    ensures
        deadline == deadline_of(now, wait_ms),
{
    now + if wait_ms < MAX_ACCOUNT_WAIT_MS {
        wait_ms as u128
    } else {
        MAX_ACCOUNT_WAIT_MS as u128
    }
}

/// What a request that got no account does: it fails where it may use none, or
/// may not wait, or waited long enough, or finds no place in the queue; else it
/// waits until a time at the latest.
pub open spec fn after_refusal(
    available: bool,
    wait_ms: u64,
    now: u128,
    deadline: u128,
    queued: bool,
    queue_has_room: bool,
) -> Result<u128, AccountError> {
    if !available {
        Err(AccountError::PolicyUnavailable)
    } else if wait_ms == 0 {
        Err(AccountError::Exceeded)
    } else if now >= deadline {
        Err(AccountError::WaitTimeout)
    } else if !queued && !queue_has_room {
        Err(AccountError::QueueFull)
    } else if deadline < now + ACCOUNT_POLL_MS {
        Ok(deadline)
    } else {
        Ok((now + ACCOUNT_POLL_MS) as u128)
    }
}

/// What a request that got no account does.
pub fn wait_for_account(
    available: bool,
    wait_ms: u64,
    now: u128,
    deadline: u128,
    queued: bool,
    queue_has_room: bool,
) -> (wait: Result<u128, AccountError>)
    ensures
        wait == after_refusal(available, wait_ms, now, deadline, queued, queue_has_room),
{
    if !available {
        return Err(AccountError::PolicyUnavailable);
    }
    if wait_ms == 0 {
        return Err(AccountError::Exceeded);
    }
    if now >= deadline {
        return Err(AccountError::WaitTimeout);
    }
    if !queued && !queue_has_room {
        return Err(AccountError::QueueFull);
    }
    if deadline - now < ACCOUNT_POLL_MS as u128 {
        Ok(deadline)
    } else {
        Ok(now + ACCOUNT_POLL_MS as u128)
    }
}

/// A request that waits looks again later, but not after the time at which it
/// stops waiting.
pub proof fn law_waiting_ends_at_the_deadline(
    available: bool,
    wait_ms: u64,
    now: u128,
    deadline: u128,
    queued: bool,
    queue_has_room: bool,
)
    ensures
        after_refusal(available, wait_ms, now, deadline, queued, queue_has_room) matches Ok(until)
            ==> now < until <= deadline,
{
}

/// The locks of an account are tried one after the other, from the first to the
/// last; one that is held ends it, and so does a fault.
pub proof fn law_locks_are_tried_in_turn(slot: u16, limit: u16)
    requires
        slot < limit,
    ensures
        lock_after(slot, limit, LockOutcome::Held) is Held,
        lock_after(slot, limit, LockOutcome::Failed) is Failed,
        slot + 1 < limit ==> lock_after(slot, limit, LockOutcome::Busy) == LockStep::TryFile(
            (slot + 1) as u16,
        ),
        slot + 1 == limit ==> lock_after(slot, limit, LockOutcome::Busy) is Full,
{
}

/// A request waits for an account as long as it asked to, and two minutes at the
/// most; it is looked for again at least twice a second, up to the end of the
/// wait.
pub proof fn law_waiting_requests_look_again(wait_ms: u64, now: u128, deadline: u128)
    requires
        now + 120_000 <= u128::MAX,
        0 < wait_ms,
        now < deadline,
    ensures
        deadline_of(now, wait_ms) <= now + 120_000,
        wait_ms <= 120_000 ==> deadline_of(now, wait_ms) == now + wait_ms,
        after_refusal(true, wait_ms, now, deadline, true, false) matches Ok(until) && now < until
            && until <= deadline && until <= now + 500,
        after_refusal(true, wait_ms, deadline, deadline, true, true) == Err::<u128, AccountError>(
            AccountError::WaitTimeout,
        ),
        after_refusal(true, 0, now, deadline, true, true) == Err::<u128, AccountError>(
            AccountError::Exceeded,
        ),
        after_refusal(true, wait_ms, now, deadline, false, false) == Err::<u128, AccountError>(
            AccountError::QueueFull,
        ),
{
}

/// The account that is found is the first that may be taken, and one is found
/// wherever there is one.
pub proof fn law_first_account_that_may_be_taken_is_found(eligible: Seq<bool>, from: int)
    requires
        0 <= from,
    ensures
        match eligible_from(eligible, from) {
            Some(found) => {
                &&& from <= found < eligible.len()
                &&& eligible[found]
                &&& forall|i: int| from <= i < found ==> !#[trigger] eligible[i]
            },
            None => forall|i: int| from <= i < eligible.len() ==> !#[trigger] eligible[i],
        },
    decreases eligible.len() - from,
{
    if from < eligible.len() && !eligible[from] {
        law_first_account_that_may_be_taken_is_found(eligible, from + 1);
    }
}

} // verus!
