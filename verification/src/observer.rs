//! The observer pattern: a registry of observers, held by weak references,
//! that are told of each new state of the subject they observe.
use std::sync::{Arc, Weak};

use vstd::prelude::*;

verus! {

/// What a subject hands its observers: its state, and the error an observer
/// may answer with.
pub trait Subject {
    type State;
    type Error;
}

/// An observer of the subject `S`.
pub trait Observer<S: Subject> {
    /// Called with each new state of the subject.
    fn update(&self, state: &S::State) -> Result<(), S::Error>;
}

/// A subject that observers can be attached to and detached from.
pub trait Observable: Subject + Sized {
    fn attach(&mut self, observer: Arc<dyn Observer<Self>>);

    fn detach(&mut self, observer: Arc<dyn Observer<Self>>);
}

/// A weak reference to an observer.
///
/// It holds a `std::sync::Weak`, whose allocator parameter can only be named
/// with an unstable feature, so its content is kept opaque.
#[verifier::external_body]
#[verifier::reject_recursive_types(T)]
pub struct WeakObserver<T: Subject> {
    inner: Weak<dyn Observer<T>>,
}

/// Calls `Arc::as_ptr` and takes the address of the observer, which
/// identifies its allocation while any reference to it lives. Nothing is
/// stated of the address: it depends on the allocator.
#[verifier::external_body]
fn observer_address<T: Subject>(observer: &Arc<dyn Observer<T>>) -> usize {
    Arc::as_ptr(observer).addr()
}

/// Calls `Arc::downgrade`. Nothing is stated of the weak reference, whose
/// content is opaque.
#[verifier::external_body]
fn downgrade<T: Subject>(observer: &Arc<dyn Observer<T>>) -> WeakObserver<T> {
    WeakObserver { inner: Arc::downgrade(observer) }
}

/// Calls `Weak::upgrade`. Nothing is stated of the result: whether the
/// observer is still alive depends on the other references to it.
#[verifier::external_body]
fn upgrade<T: Subject>(observer: &WeakObserver<T>) -> Option<Arc<dyn Observer<T>>> {
    observer.inner.upgrade()
}

/// The key under which a registry holds `observer`: the address of its
/// allocation, which tells it apart from every other live observer, as
/// `Weak::ptr_eq` does.
pub fn observer_key<T: Subject>(observer: &Arc<dyn Observer<T>>) -> usize {
    observer_address(observer)
}

/// Tells the observer that `entry` refers to of `state`, if it is still
/// alive: `Some` with what its `update` answered, or `None` when it has been
/// dropped.
pub fn notify_entry<T: Subject>(entry: &WeakObserver<T>, state: &T::State) -> Option<Result<(), T::Error>> {
    match upgrade(entry) {
        Some(observer) => Some(observer.update(state)),
        None => None,
    }
}

/// Each of `outcomes` is what `notify_entry` gave for the entry of `s` at
/// its position, told of `state`.
pub open spec fn answered<T: Subject>(
    s: Seq<(usize, WeakObserver<T>)>,
    state: &T::State,
    outcomes: Seq<Option<Result<(), T::Error>>>,
) -> bool {
    &&& outcomes.len() <= s.len()
    &&& forall|i: int|
        0 <= i < outcomes.len() ==> call_ensures(notify_entry::<T>, (&s[i].1, state), #[trigger] outcomes[i])
}

/// Some entry of `s` is the observer at the address `key`.
pub open spec fn has_observer<T: Subject>(s: Seq<(usize, WeakObserver<T>)>, key: usize) -> bool {
    exists|i: int| 0 <= i < s.len() && (#[trigger] s[i]).0 == key
}

/// No observer occurs twice: no two entries share an address.
pub open spec fn no_duplicates<T: Subject>(s: Seq<(usize, WeakObserver<T>)>) -> bool {
    forall|i: int, j: int| 0 <= i < j < s.len() ==> (#[trigger] s[i]).0 != (#[trigger] s[j]).0
}

/// `t` is `s` after attaching the observer at the address `key`: `s` itself
/// when that observer is there already, and otherwise `s` with one entry for
/// it added at the end.
pub open spec fn attached<T: Subject>(
    s: Seq<(usize, WeakObserver<T>)>,
    key: usize,
    t: Seq<(usize, WeakObserver<T>)>,
) -> bool {
    if has_observer(s, key) {
        t == s
    } else {
        t.len() == s.len() + 1 && t.drop_last() == s && t.last().0 == key
    }
}

/// The entries after detaching the observer at the address `key`: all
/// others, in their order.
pub open spec fn without_observer<T: Subject>(s: Seq<(usize, WeakObserver<T>)>, key: usize) -> Seq<
    (usize, WeakObserver<T>),
> {
    s.filter(|e: (usize, WeakObserver<T>)| e.0 != key)
}

/// What notifying does with the outcome for one observer: `None` where the
/// observer had been dropped and was skipped, and otherwise what its
/// `update` answered. An error ends the notification with that error.
pub open spec fn settled<E>(outcome: Option<Result<(), E>>) -> Result<(), E> {
    match outcome {
        Some(Err(e)) => Err(e),
        _ => Ok(()),
    }
}

/// The outcome of notifying `n` observers in order, stopping at the first
/// error: the outcomes, one for each observer reached, as in `settled`, and
/// the result `r`.
pub open spec fn stops_at_first_error<E>(n: nat, outcomes: Seq<Option<Result<(), E>>>, r: Result<(), E>) -> bool {
    &&& outcomes.len() <= n
    &&& forall|i: int| 0 <= i < outcomes.len() - 1 ==> (#[trigger] settled(outcomes[i])) is Ok
    &&& match r {
        Ok(_) => outcomes.len() == n && (n > 0 ==> settled(outcomes.last()) is Ok),
        Err(e) => outcomes.len() > 0 && settled(outcomes.last()) == Err::<(), E>(e),
    }
}

/// Decides, after one observer's outcome (see `settled`), whether
/// notifying goes on (`Ok`) or ends with an error.
pub fn settle<E>(outcome: Option<Result<(), E>>) -> (r: Result<(), E>)
    ensures
        r == settled(outcome),
{
    match outcome {
        Some(Err(e)) => Err(e),
        _ => Ok(()),
    }
}

/// A registry of observers of the subject `T`, held by weak references, in
/// the order in which they were attached.
///
/// Its view is the sequence of its entries: the address of each observer's
/// allocation, which tells observers apart as `Weak::ptr_eq` does, with the
/// weak reference to it.
#[verifier::reject_recursive_types(T)]
pub struct ObserverRegistry<T: Observable> {
    entries: Vec<(usize, WeakObserver<T>)>,
}

impl<T: Observable> View for ObserverRegistry<T> {
    type V = Seq<(usize, WeakObserver<T>)>;

    closed spec fn view(&self) -> Self::V {
        self.entries@
    }
}

impl<T: Observable> ObserverRegistry<T> {
    #[verifier::type_invariant]
    closed spec fn well_formed(self) -> bool {
        no_duplicates(self.entries@)
    }

    /// An empty registry.
    pub fn new() -> (r: Self)
        ensures
            r@ == Seq::<(usize, WeakObserver<T>)>::empty(),
    {
        ObserverRegistry { entries: Vec::new() }
    }

    /// An empty registry with room for `capacity` observers.
    pub fn with_capacity(capacity: usize) -> (r: Self)
        ensures
            r@ == Seq::<(usize, WeakObserver<T>)>::empty(),
    {
        ObserverRegistry { entries: Vec::with_capacity(capacity) }
    }

    /// Attaches `observer` unless it is attached already; the registry
    /// keeps only a weak reference to it. Its key is the one that
    /// `observer_key` gives for it.
    pub fn attach(&mut self, observer: Arc<dyn Observer<T>>)
        ensures
            no_duplicates(final(self)@),
            exists|key: usize|
                call_ensures(observer_key::<T>, (&observer,), key)
                && #[trigger] attached(old(self)@, key, final(self)@),
    {
        // Called through its value, so that `call_ensures` records what it gave.
        let key_of = observer_key::<T>;
        let key = key_of(&observer);
        self.attach_at(key, &observer);
    }

    /// Attaches `observer` under `key`, unless an observer is attached under
    /// that key already. `attach` uses the observer's address as its key.
    pub fn attach_at(&mut self, key: usize, observer: &Arc<dyn Observer<T>>)
        ensures
            no_duplicates(final(self)@),
            attached(old(self)@, key, final(self)@),
    {
        let mut current = ObserverRegistry::new();
        std::mem::swap(&mut current, self);
        proof { use_type_invariant(&current); }
        let ObserverRegistry { mut entries } = current;
        let ghost before = entries@;
        assert(before == old(self)@);
        let n = entries.len();
        let mut i: usize = 0;
        while i < n
            invariant
                n == entries@.len(),
                entries@ == before,
                before == old(self)@,
                no_duplicates(before),
                i <= n,
                forall|j: int| 0 <= j < i ==> (#[trigger] entries@[j]).0 != key,
            decreases n - i,
        {
            if entries[i].0 == key {
                assert(has_observer(before, key));
                *self = ObserverRegistry { entries };
                return;
            }
            i = i + 1;
        }
        assert(!has_observer(before, key));
        entries.push((key, downgrade(observer)));
        assert(entries@.drop_last() == before);
        assert forall|a: int, b: int| 0 <= a < b < entries@.len() implies
            (#[trigger] entries@[a]).0 != (#[trigger] entries@[b]).0 by {
            if b == n {
                assert(entries@[a] == before[a]);
            } else {
                assert(entries@[a] == before[a] && entries@[b] == before[b]);
            }
        }
        *self = ObserverRegistry { entries };
    }

    /// Detaches `observer`; does nothing when it is not attached. Its key is
    /// the one that `observer_key` gives for it.
    pub fn detach(&mut self, observer: Arc<dyn Observer<T>>)
        ensures
            no_duplicates(final(self)@),
            exists|key: usize|
                call_ensures(observer_key::<T>, (&observer,), key)
                && #[trigger] without_observer(old(self)@, key) == final(self)@,
    {
        // Called through its value, so that `call_ensures` records what it gave.
        let key_of = observer_key::<T>;
        let key = key_of(&observer);
        self.detach_at(key);
    }

    /// Detaches the observer attached under `key`, if there is one.
    /// `detach` uses the observer's address as its key.
    pub fn detach_at(&mut self, key: usize)
        ensures
            no_duplicates(final(self)@),
            final(self)@ == without_observer(old(self)@, key),
    {
        let mut current = ObserverRegistry::new();
        std::mem::swap(&mut current, self);
        proof { use_type_invariant(&current); }
        let ObserverRegistry { mut entries } = current;
        let ghost before = entries@;
        assert(before == old(self)@);
        let n = entries.len();
        let mut i: usize = 0;
        while i < n
            invariant
                n == entries@.len(),
                entries@ == before,
                before == old(self)@,
                no_duplicates(before),
                i <= n,
                forall|j: int| 0 <= j < i ==> (#[trigger] entries@[j]).0 != key,
            decreases n - i,
        {
            if entries[i].0 == key {
                entries.remove(i);
                proof {
                    lemma_remove_is_filter(before, i as int, key);
                    lemma_remove_keeps_no_duplicates(before, i as int);
                }
                *self = ObserverRegistry { entries };
                return;
            }
            i = i + 1;
        }
        proof { lemma_filter_absent(before, key); }
        *self = ObserverRegistry { entries };
    }

    /// Tells every live observer, in the order of attachment, of `state`,
    /// and stops at the first that answers with an error, which it returns.
    /// Observers that have been dropped are skipped.
    pub fn notify(&self, state: &T::State) -> (r: Result<(), T::Error>)
        ensures
            exists|outcomes: Seq<Option<Result<(), T::Error>>>|
                answered(self@, state, outcomes)
                && #[trigger] stops_at_first_error(self@.len(), outcomes, r),
    {
        proof { use_type_invariant(self); }
        let n = self.entries.len();
        let ghost mut outcomes: Seq<Option<Result<(), T::Error>>> = Seq::empty();
        // Called through its value, so that `call_ensures` records what it gave.
        let tell = notify_entry::<T>;
        let mut i: usize = 0;
        while i < n
            invariant
                n == self@.len(),
                i <= n,
                outcomes.len() == i,
                answered(self@, state, outcomes),
                forall|j: int| 0 <= j < i ==> (#[trigger] settled(outcomes[j])) is Ok,
                tell == notify_entry::<T>,
            decreases n - i,
        {
            let outcome = tell(&self.entries[i].1, state);
            proof { outcomes = outcomes.push(outcome); }
            let step = settle(outcome);
            if let Err(e) = step {
                assert(stops_at_first_error(n as nat, outcomes, Err::<(), T::Error>(e)));
                return Err(e);
            }
            i = i + 1;
        }
        assert(stops_at_first_error(n as nat, outcomes, Ok::<(), T::Error>(())));
        Ok(())
    }

    /// Tells every live observer, in the order of attachment, of `state`,
    /// and goes on whatever they answer. Observers that have been dropped
    /// are skipped.
    pub fn notify_ignore_error(&self, state: &T::State)
        ensures
            exists|outcomes: Seq<Option<Result<(), T::Error>>>|
                outcomes.len() == self@.len() && #[trigger] answered(self@, state, outcomes),
    {
        proof { use_type_invariant(self); }
        let n = self.entries.len();
        let ghost mut outcomes: Seq<Option<Result<(), T::Error>>> = Seq::empty();
        // Called through its value, so that `call_ensures` records what it gave.
        let tell = notify_entry::<T>;
        let mut i: usize = 0;
        while i < n
            invariant
                n == self@.len(),
                i <= n,
                outcomes.len() == i,
                answered(self@, state, outcomes),
                tell == notify_entry::<T>,
            decreases n - i,
        {
            let outcome = tell(&self.entries[i].1, state);
            proof { outcomes = outcomes.push(outcome); }
            i = i + 1;
        }
        assert(outcomes.len() == self@.len() && answered(self@, state, outcomes));
    }
}

impl<T: Observable> Default for ObserverRegistry<T> {
    /// An empty registry, as `ObserverRegistry::new()`.
    fn default() -> (r: Self)
        ensures
            r@ == Seq::<(usize, WeakObserver<T>)>::empty(),
    {
        ObserverRegistry::new()
    }
}

/// Attaching never makes an observer occur twice, and the attached observer
/// is there afterwards.
pub proof fn lemma_attach_no_duplicates<T: Subject>(
    s: Seq<(usize, WeakObserver<T>)>,
    key: usize,
    t: Seq<(usize, WeakObserver<T>)>,
)
    requires
        no_duplicates(s),
        attached(s, key, t),
    ensures
        no_duplicates(t),
        has_observer(t, key),
{
    if !has_observer(s, key) {
        assert(t[s.len() as int].0 == key);
        assert forall|a: int, b: int| 0 <= a < b < t.len() implies (#[trigger] t[a]).0 != (#[trigger] t[b]).0 by {
            assert(t.drop_last()[a] == t[a]);
            if b < s.len() {
                assert(t.drop_last()[b] == t[b]);
            }
        }
    }
}

/// Attaching an observer that is attached already changes nothing, so that
/// attaching it twice is attaching it once.
pub proof fn lemma_attach_idempotent<T: Subject>(
    s: Seq<(usize, WeakObserver<T>)>,
    key: usize,
    t: Seq<(usize, WeakObserver<T>)>,
    u: Seq<(usize, WeakObserver<T>)>,
)
    requires
        attached(s, key, t),
        attached(t, key, u),
    ensures
        u == t,
{
    if !has_observer(s, key) {
        assert(t[s.len() as int].0 == key);
    }
}

/// Attaching keeps the observers attached before, with their weak
/// references, in their order, ahead of any new one, so that they are
/// notified first.
pub proof fn lemma_attach_keeps_order<T: Subject>(
    s: Seq<(usize, WeakObserver<T>)>,
    key: usize,
    t: Seq<(usize, WeakObserver<T>)>,
)
    requires
        attached(s, key, t),
    ensures
        t.take(s.len() as int) == s,
        t.len() <= s.len() + 1,
{
    assert(s.take(s.len() as int) == s);
    if !has_observer(s, key) {
        assert(t.take(s.len() as int) == t.drop_last());
    }
}

/// Detaching removes the observer and keeps the others, with their weak
/// references.
pub proof fn lemma_detach_removes<T: Subject>(s: Seq<(usize, WeakObserver<T>)>, key: usize)
    requires
        no_duplicates(s),
    ensures
        !has_observer(without_observer(s, key), key),
        no_duplicates(without_observer(s, key)),
        forall|e: (usize, WeakObserver<T>)| e.0 != key ==> (without_observer(s, key).contains(e) <==> s.contains(e)),
{
    if has_observer(s, key) {
        let i = choose|i: int| 0 <= i < s.len() && (#[trigger] s[i]).0 == key;
        lemma_remove_is_filter(s, i, key);
        lemma_remove_keeps_no_duplicates(s, i);
        let t = s.remove(i);
        assert(!has_observer(t, key)) by {
            if has_observer(t, key) {
                let j = choose|j: int| 0 <= j < t.len() && (#[trigger] t[j]).0 == key;
                let j0 = if j < i { j } else { j + 1 };
                assert(t[j] == s[j0]);
            }
        }
        assert forall|e: (usize, WeakObserver<T>)| e.0 != key implies (t.contains(e) <==> s.contains(e)) by {
            if s.contains(e) {
                let j = choose|j: int| 0 <= j < s.len() && s[j] == e;
                if j < i {
                    assert(t[j] == e);
                } else {
                    assert(j != i);
                    assert(t[j - 1] == e);
                }
            }
            if t.contains(e) {
                let j = choose|j: int| 0 <= j < t.len() && t[j] == e;
                let j0 = if j < i { j } else { j + 1 };
                assert(s[j0] == e);
            }
        }
    } else {
        lemma_filter_absent(s, key);
    }
}

/// Detaching an observer that is not attached changes nothing.
pub proof fn lemma_detach_absent<T: Subject>(s: Seq<(usize, WeakObserver<T>)>, key: usize)
    requires
        !has_observer(s, key),
    ensures
        without_observer(s, key) == s,
{
    lemma_filter_absent(s, key);
}

/// Detaching an observer right after attaching it, when it was not attached
/// before, gives back the entries as they were.
pub proof fn lemma_detach_undoes_attach<T: Subject>(
    s: Seq<(usize, WeakObserver<T>)>,
    key: usize,
    t: Seq<(usize, WeakObserver<T>)>,
)
    requires
        no_duplicates(s),
        !has_observer(s, key),
        attached(s, key, t),
    ensures
        without_observer(t, key) == s,
{
    lemma_attach_no_duplicates(s, key, t);
    lemma_remove_is_filter(t, s.len() as int, key);
    assert(t.remove(s.len() as int) == t.drop_last());
}

/// Notifying a registry without observers succeeds.
pub proof fn lemma_notify_without_observers<E>(outcomes: Seq<Option<Result<(), E>>>, r: Result<(), E>)
    requires
        stops_at_first_error(0, outcomes, r),
    ensures
        r is Ok,
{
}

/// When notifying fails, the error is the answer of the last observer
/// reached, and every observer before it accepted the state or had been
/// dropped.
pub proof fn lemma_notify_error_is_first<E>(n: nat, outcomes: Seq<Option<Result<(), E>>>, e: E)
    requires
        stops_at_first_error(n, outcomes, Err(e)),
    ensures
        outcomes.len() >= 1,
        outcomes[outcomes.len() - 1] == Some(Err::<(), E>(e)),
        forall|i: int| 0 <= i < outcomes.len() - 1 ==> !(#[trigger] outcomes[i] matches Some(Err(_))),
{
    assert forall|i: int| 0 <= i < outcomes.len() - 1 implies !(#[trigger] outcomes[i] matches Some(Err(_))) by {
        assert(settled(outcomes[i]) is Ok);
    }
}

/// Notifying succeeds exactly when every observer was reached and none of
/// them answered with an error, the last one included.
pub proof fn lemma_notify_ok_iff_all_accept<E>(n: nat, outcomes: Seq<Option<Result<(), E>>>, r: Result<(), E>)
    requires
        stops_at_first_error(n, outcomes, r),
    ensures
        r is Ok <==> (outcomes.len() == n && forall|i: int|
            0 <= i < n ==> !(#[trigger] outcomes[i] matches Some(Err(_)))),
{
    if r is Ok {
        assert forall|i: int| 0 <= i < n implies !(#[trigger] outcomes[i] matches Some(Err(_))) by {
            if i < n - 1 {
                assert(settled(outcomes[i]) is Ok);
            } else {
                assert(outcomes[i] == outcomes.last());
            }
        }
    } else if outcomes.len() == n {
        assert(outcomes[outcomes.len() - 1] == outcomes.last());
    }
}

/// A dropped observer does not end the notification: when the last outcome
/// is that of a dropped observer, every observer was reached and notifying
/// succeeded.
pub proof fn lemma_notify_skips_dropped<E>(n: nat, outcomes: Seq<Option<Result<(), E>>>, r: Result<(), E>)
    requires
        stops_at_first_error(n, outcomes, r),
        outcomes.len() > 0,
        outcomes.last() is None,
    ensures
        r is Ok,
        outcomes.len() == n,
{
}

/// Removing one entry from entries without duplicates leaves none.
proof fn lemma_remove_keeps_no_duplicates<T: Subject>(s: Seq<(usize, WeakObserver<T>)>, i: int)
    requires
        no_duplicates(s),
        0 <= i < s.len(),
    ensures
        no_duplicates(s.remove(i)),
{
    let t = s.remove(i);
    assert forall|a: int, b: int| 0 <= a < b < t.len() implies (#[trigger] t[a]).0 != (#[trigger] t[b]).0 by {
        let a0 = if a < i { a } else { a + 1 };
        let b0 = if b < i { b } else { b + 1 };
        assert(t[a] == s[a0] && t[b] == s[b0]);
    }
}

/// Filtering out a key that no entry has leaves the entries as they are.
proof fn lemma_filter_absent<T: Subject>(s: Seq<(usize, WeakObserver<T>)>, key: usize)
    requires
        !has_observer(s, key),
    ensures
        without_observer(s, key) == s,
    decreases s.len(),
{
    reveal(Seq::filter);
    if s.len() > 0 {
        assert(!has_observer(s.drop_last(), key)) by {
            if has_observer(s.drop_last(), key) {
                let j = choose|j: int| 0 <= j < s.drop_last().len() && (#[trigger] s.drop_last()[j]).0 == key;
                assert(s[j] == s.drop_last()[j]);
            }
        }
        lemma_filter_absent(s.drop_last(), key);
        assert(s.last().0 != key) by {
            assert(s[s.len() - 1] == s.last());
        }
        assert(s.drop_last().push(s.last()) == s);
    }
}

/// In entries without duplicates, filtering out the key at `i` removes
/// position `i`.
proof fn lemma_remove_is_filter<T: Subject>(s: Seq<(usize, WeakObserver<T>)>, i: int, key: usize)
    requires
        no_duplicates(s),
        0 <= i < s.len(),
        s[i].0 == key,
    ensures
        without_observer(s, key) == s.remove(i),
    decreases s.len(),
{
    reveal(Seq::filter);
    let init = s.drop_last();
    if i == s.len() - 1 {
        assert(!has_observer(init, key)) by {
            if has_observer(init, key) {
                let j = choose|j: int| 0 <= j < init.len() && (#[trigger] init[j]).0 == key;
                assert(s[j] == init[j]);
            }
        }
        lemma_filter_absent(init, key);
        assert(s.remove(i) == init);
    } else {
        assert(no_duplicates(init)) by {
            assert forall|a: int, b: int| 0 <= a < b < init.len() implies (#[trigger] init[a]).0 != (#[trigger] init[b]).0 by {
                assert(init[a] == s[a] && init[b] == s[b]);
            }
        }
        assert(init[i] == s[i]);
        lemma_remove_is_filter(init, i, key);
        assert(s.last().0 != key) by {
            assert(s[s.len() - 1] == s.last());
        }
        assert(s.remove(i) == init.remove(i).push(s.last()));
    }
}

} // verus!
