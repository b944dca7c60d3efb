//! A collection of factories, keyed by identifier, that creates boxed
//! products of a type `T`, with a choice of fallback when no identifier is
//! given.
use std::any::TypeId;

use vstd::prelude::*;
use vstd::string::StringExecFns;
use vstd::string::StringSliceAdditionalSpecFns;

use crate::key_order::{
    compare_keys, key_lt, lemma_bytes_lt_asymmetric, lemma_bytes_lt_transitive,
    KeyOrder,
};

verus! {

#[verifier::external_type_specification]
#[verifier::external_body]
pub struct ExTypeId(TypeId);

/// Calls `std::any::TypeId::of::<T>()`. Nothing is stated of the
/// identifier it returns: it is fixed by the compiler for the type `T`.
#[verifier::external_body]
fn type_id_of<T: ?Sized + 'static>() -> TypeId {
    TypeId::of::<T>()
}

/// Calls `==` on two `std::any::TypeId` values, which is true exactly when
/// they are the same identifier.
#[verifier::external_body]
fn same_type_id(a: &TypeId, b: &TypeId) -> (r: bool)
    ensures
        r == (*a == *b),
{
    *a == *b
}

/// The identifier of the product type `T`, as `TypeId::of` gives it: a
/// registration records it, and a collection keeps the registrations that
/// carry it.
pub fn product_type_id<T: ?Sized + 'static>() -> TypeId {
    type_id_of::<T>()
}

/// A factory that creates boxed instances of the product type `T`.
///
/// Factories are shared between threads, hence `Sync`.
pub trait Factory<T: ?Sized>: Sync {
    /// `product` is one that this factory made. An implementation that
    /// does not say more leaves it `true` of every product; to a caller that
    /// holds a factory as `dyn Factory<T>`, it tells one factory's products
    /// from another's.
    open spec fn made(&self, product: &T) -> bool {
        true
    }

    /// Makes a new product.
    fn create(&self) -> (r: Box<T>)
        ensures
            self.made(&*r),
    ;
}

/// Errors of `SimpleFactory::create`.
#[derive(Debug)]
pub enum FactoryError {
    /// No factory is registered under the given identifier.
    FactoryNotFound(String),
    /// An empty identifier was given and no fallback is allowed.
    EmptyIdNoFallback,
    /// The collection holds no factory at all.
    NoFactoriesAvailable,
}

impl FactoryError {
    /// The message that describes the error.
    pub fn to_string(&self) -> (r: String)
        ensures
            match self {
                FactoryError::FactoryNotFound(id) => r@ == "未找到 ID 为 '"@ + id@ + "' 的工厂"@,
                FactoryError::EmptyIdNoFallback => r@ == "不允许回退时提供了空 ID"@,
                FactoryError::NoFactoriesAvailable => r@ == "没有可用的工厂"@,
            },
    {
        match self {
            FactoryError::FactoryNotFound(id) => {
                let mut s = String::from_str("未找到 ID 为 '");
                s.append(id.as_str());
                s.append("' 的工厂");
                s
            },
            FactoryError::EmptyIdNoFallback => String::from_str("不允许回退时提供了空 ID"),
            FactoryError::NoFactoriesAvailable => String::from_str("没有可用的工厂"),
        }
    }
}

/// What `SimpleFactory::create` does when it is given an empty identifier.
#[derive(Debug, Clone, Copy, PartialEq, Eq, Structural)]
pub enum FactoryFallback {
    /// Use the factory with the smallest identifier when the identified
    /// factory cannot be found or no identifier is given.
    First,
    /// Use the factory with the largest identifier when the identified
    /// factory cannot be found or no identifier is given.
    Last,
    /// Do not fall back: an empty identifier, or one with no factory, is an
    /// error.
    NoFallback,
}

/// The entries of a factory collection are sorted by identifier, strictly,
/// so that no identifier occurs twice.
pub open spec fn keys_sorted<T: ?Sized>(s: Seq<(&'static str, &'static dyn Factory<T>)>) -> bool {
    forall|i: int, j: int| 0 <= i < j < s.len() ==> key_lt(#[trigger] s[i].0, #[trigger] s[j].0)
}

/// Some entry of `s` has the identifier `key`.
pub open spec fn has_key<T: ?Sized>(s: Seq<(&'static str, &'static dyn Factory<T>)>, key: Seq<char>) -> bool {
    exists|i: int| 0 <= i < s.len() && (#[trigger] s[i]).0@ == key
}

/// A collection of factories for the product type `T`, keyed by identifier,
/// kept in the order of the identifiers.
#[verifier::reject_recursive_types(T)]
pub struct SimpleFactory<T: ?Sized + 'static> {
    entries: Vec<(&'static str, &'static dyn Factory<T>)>,
}

impl<T: ?Sized + 'static> View for SimpleFactory<T> {
    type V = Seq<(&'static str, &'static dyn Factory<T>)>;

    closed spec fn view(&self) -> Self::V {
        self.entries@
    }
}

impl<T: ?Sized + 'static> SimpleFactory<T> {
    #[verifier::type_invariant]
    closed spec fn sorted_by_key(self) -> bool {
        keys_sorted(self.entries@)
    }

    /// Looks `id` up: `Ok` with its position, or `Err` with the position
    /// where it would be inserted.
    fn search(&self, id: &str) -> (r: Result<usize, usize>)
        ensures
            match r {
                Ok(i) => i < self@.len() && self@[i as int].0.spec_bytes() == id.spec_bytes()
                    && self@[i as int].0@ == id@,
                Err(p) => p <= self@.len()
                    && (forall|i: int| 0 <= i < p ==> key_lt(#[trigger] self@[i].0, id))
                    && (forall|i: int| p <= i < self@.len() ==> key_lt(id, #[trigger] self@[i].0)),
            },
    {
        proof { use_type_invariant(self); }
        let mut lo: usize = 0;
        let mut hi: usize = self.entries.len();
        while lo < hi
            invariant
                lo <= hi <= self.entries@.len(),
                keys_sorted(self.entries@),
                forall|i: int| 0 <= i < lo ==> key_lt(#[trigger] self.entries@[i].0, id),
                forall|i: int| hi <= i < self.entries@.len() ==> key_lt(id, #[trigger] self.entries@[i].0),
            decreases hi - lo,
        {
            let mid = lo + (hi - lo) / 2;
            let key = self.entries[mid].0;
            match compare_keys(key, id) {
                KeyOrder::Less => {
                    assert forall|i: int| 0 <= i <= mid implies key_lt(#[trigger] self.entries@[i].0, id) by {
                        if i < mid {
                            lemma_bytes_lt_transitive(
                                self.entries@[i].0.spec_bytes(),
                                key.spec_bytes(),
                                id.spec_bytes(),
                            );
                        }
                    }
                    lo = mid + 1;
                },
                KeyOrder::Equal => {
                    return Ok(mid);
                },
                KeyOrder::Greater => {
                    assert forall|i: int| mid <= i < self.entries@.len() implies key_lt(id, #[trigger] self.entries@[i].0) by {
                        if i > mid {
                            lemma_bytes_lt_transitive(
                                id.spec_bytes(),
                                key.spec_bytes(),
                                self.entries@[i].0.spec_bytes(),
                            );
                        }
                    }
                    hi = mid;
                },
            }
        }
        Err(lo)
    }

    /// Registers `factory` under `id`, replacing the entry of any factory
    /// registered under the same identifier.
    fn insert(&mut self, entry: (&'static str, &'static dyn Factory<T>))
        ensures
            keys_sorted(final(self)@),
            has_key(final(self)@, entry.0@),
            forall|i: int| 0 <= i < final(self)@.len() && (#[trigger] final(self)@[i]).0@ == entry.0@
                ==> final(self)@[i] == entry,
            forall|i: int| 0 <= i < final(self)@.len() && (#[trigger] final(self)@[i]).0@ != entry.0@
                ==> old(self)@.contains(final(self)@[i]),
            forall|i: int| 0 <= i < old(self)@.len() && (#[trigger] old(self)@[i]).0@ != entry.0@
                ==> final(self)@.contains(old(self)@[i]),
    {
        proof { use_type_invariant(&*self); }
        let id = entry.0;
        let found = self.search(id);
        let mut entries = Vec::new();
        std::mem::swap(&mut entries, &mut self.entries);
        let ghost before = entries@;
        match found {
            Ok(i) => {
                entries.set(i, entry);
                proof {
                    assert forall|a: int, b: int| 0 <= a < b < entries@.len() implies
                        key_lt(#[trigger] entries@[a].0, #[trigger] entries@[b].0) by {
                        if a != i {
                            assert(entries@[a] == before[a]);
                        }
                        if b != i {
                            assert(entries@[b] == before[b]);
                        }
                    }
                    assert forall|j: int| 0 <= j < entries@.len() && (#[trigger] entries@[j]).0@ == id@
                        implies entries@[j] == entry by {
                        if j != i {
                            if j < i {
                                lemma_bytes_lt_asymmetric(before[j].0.spec_bytes(), before[i as int].0.spec_bytes());
                            } else {
                                lemma_bytes_lt_asymmetric(before[i as int].0.spec_bytes(), before[j].0.spec_bytes());
                            }
                        }
                    }
                    assert forall|j: int| 0 <= j < entries@.len() && (#[trigger] entries@[j]).0@ != id@
                        implies before.contains(entries@[j]) by {
                        assert(before[j] == entries@[j]);
                    }
                    assert forall|j: int| 0 <= j < before.len() && (#[trigger] before[j]).0@ != id@
                        implies entries@.contains(before[j]) by {
                        assert(before[j] == entries@[j]);
                    }
                    assert(entries@[i as int].0@ == id@);
                }
            },
            Err(p) => {
                entries.insert(p, entry);
                proof {
                    assert forall|a: int, b: int| 0 <= a < b < entries@.len() implies
                        key_lt(#[trigger] entries@[a].0, #[trigger] entries@[b].0) by {
                        if b < p {
                            assert(entries@[a] == before[a] && entries@[b] == before[b]);
                        } else if b == p {
                            assert(entries@[a] == before[a]);
                        } else if a == p {
                            assert(entries@[b] == before[b - 1]);
                        } else if a < p {
                            assert(entries@[a] == before[a] && entries@[b] == before[b - 1]);
                        } else {
                            assert(entries@[a] == before[a - 1] && entries@[b] == before[b - 1]);
                        }
                    }
                    assert forall|j: int| 0 <= j < entries@.len() && (#[trigger] entries@[j]).0@ == id@
                        implies entries@[j] == entry by {
                        if j < p {
                            assert(entries@[j] == before[j]);
                            lemma_bytes_lt_asymmetric(before[j].0.spec_bytes(), id.spec_bytes());
                        } else if j > p {
                            assert(entries@[j] == before[j - 1]);
                            lemma_bytes_lt_asymmetric(id.spec_bytes(), before[j - 1].0.spec_bytes());
                        }
                    }
                    assert forall|j: int| 0 <= j < entries@.len() && (#[trigger] entries@[j]).0@ != id@
                        implies before.contains(entries@[j]) by {
                        if j < p {
                            assert(entries@[j] == before[j]);
                        } else if j > p {
                            assert(entries@[j] == before[j - 1]);
                        }
                    }
                    assert forall|j: int| 0 <= j < before.len() && (#[trigger] before[j]).0@ != id@
                        implies entries@.contains(before[j]) by {
                        if j < p {
                            assert(entries@[j] == before[j]);
                        } else {
                            assert(entries@[j + 1] == before[j]);
                        }
                    }
                    assert(entries@[p as int].0@ == id@);
                }
            },
        }
        self.entries = entries;
    }

    /// Builds the collection from registrations: those for the product type
    /// `T` are kept, and where several share an identifier, the last one wins.
    pub fn from_registrations(registrations: &[FactoryRegistry<T>]) -> (r: SimpleFactory<T>)
        ensures
            keys_sorted(r@),
            exists|tid: TypeId|
                call_ensures(product_type_id::<T>, (), tid)
                && #[trigger] collected_from(registrations@, tid, r@),
    {
        // Called through its value, so that `call_ensures` records what it gave.
        let type_of = product_type_id::<T>;
        let tid = type_of();
        SimpleFactory::from_registrations_of(registrations, tid)
    }

    /// Builds the collection from the registrations for the product type
    /// identified by `tid`; where several share an identifier, the last one
    /// wins.
    pub fn from_registrations_of(registrations: &[FactoryRegistry<T>], tid: TypeId) -> (r: SimpleFactory<T>)
        ensures
            collected_from(registrations@, tid, r@),
    {
        let mut out = SimpleFactory { entries: Vec::new() };
        let n = registrations.len();
        let mut j: usize = 0;
        while j < n
            invariant
                n == registrations@.len(),
                j <= n,
                collected_from(registrations@.take(j as int), tid, out@),
            decreases n - j,
        {
            let ghost prefix = registrations@.take(j as int);
            let ghost next = registrations@.take(j + 1);
            let ghost before = out@;
            assert(next == prefix.push(registrations@[j as int]));
            let reg = &registrations[j];
            if same_type_id(&reg.type_id, &tid) {
                out.insert(reg.entry);
                proof {
                    let after = out@;
                    assert forall|k: int| 0 <= k < next.len() && (#[trigger] next[k]).registered_type() == tid
                        implies has_key(after, next[k].registered_id()@) by {
                        if k < j && next[k].registered_id()@ != reg.entry.0@ {
                            assert(prefix[k] == next[k]);
                            let i = choose|i: int| 0 <= i < before.len() && (#[trigger] before[i]).0@ == prefix[k].registered_id()@;
                            assert(after.contains(before[i]));
                        }
                    }
                    assert forall|i: int| 0 <= i < after.len() implies
                        registered_last(next, tid, #[trigger] after[i]) by {
                        if after[i].0@ == reg.entry.0@ {
                            assert(last_registration(next, tid, j as int));
                        } else {
                            assert(before.contains(after[i]));
                            let b = choose|b: int| 0 <= b < before.len() && before[b] == after[i];
                            let k = choose|k: int| #[trigger] last_registration(prefix, tid, k)
                                && before[b] == prefix[k].registered_entry();
                            assert(prefix[k] == next[k]);
                            assert(last_registration(next, tid, k));
                        }
                    }
                }
            } else {
                proof {
                    assert forall|k: int| 0 <= k < next.len() && (#[trigger] next[k]).registered_type() == tid
                        implies has_key(out@, next[k].registered_id()@) by {
                        assert(prefix[k] == next[k]);
                    }
                    assert forall|i: int| 0 <= i < out@.len() implies
                        registered_last(next, tid, #[trigger] out@[i]) by {
                        let k = choose|k: int| #[trigger] last_registration(prefix, tid, k)
                            && out@[i] == prefix[k].registered_entry();
                        assert(prefix[k] == next[k]);
                        assert(last_registration(next, tid, k));
                    }
                }
            }
            j = j + 1;
        }
        assert(registrations@.take(n as int) == registrations@);
        proof { use_type_invariant(&out); }
        out
    }

    /// Creates an instance with the factory registered under `id`. When `id`
    /// is empty, or no factory is registered under it, `strategy` decides:
    /// `First` and `Last` use the factory with the smallest or the largest
    /// identifier, and `NoFallback` fails. Returns the identifier of the
    /// factory that was used, with the product it made.
    pub fn create<'a>(&self, id: &'a str, strategy: FactoryFallback) -> (r: Result<(&'a str, Box<T>), FactoryError>)
        ensures
            keys_sorted(self@),
            id@.len() > 0 && has_key(self@, id@) ==> (r matches Ok((k, p)) && k == id
                && exists|i: int| 0 <= i < self@.len() && self@[i].0@ == id@ && #[trigger] self@[i].1.made(&*p)),
            !(id@.len() > 0 && has_key(self@, id@)) ==> match strategy {
                FactoryFallback::NoFallback => if id@.len() == 0 {
                    r matches Err(FactoryError::EmptyIdNoFallback)
                } else {
                    r matches Err(FactoryError::FactoryNotFound(s)) && s@ == id@
                },
                FactoryFallback::First => if self@.len() > 0 {
                    r matches Ok((k, p)) && k == self@[0].0 && self@[0].1.made(&*p)
                } else {
                    r matches Err(FactoryError::NoFactoriesAvailable)
                },
                FactoryFallback::Last => if self@.len() > 0 {
                    r matches Ok((k, p)) && k == self@.last().0 && self@.last().1.made(&*p)
                } else {
                    r matches Err(FactoryError::NoFactoriesAvailable)
                },
            },
    {
        proof { use_type_invariant(self); }
        if !id.is_empty() {
            match self.search(id) {
                Ok(i) => {
                    let factory = self.entries[i].1;
                    let product = factory.create();
                    let r = Ok((id, product));
                    assert(r matches Ok((k, q)) && self@[i as int].1.made(&*q));
                    return r;
                },
                Err(p) => {
                    proof {
                        assert forall|i: int| 0 <= i < self@.len() implies (#[trigger] self@[i]).0@ != id@ by {
                            if i < p {
                                lemma_bytes_lt_asymmetric(self@[i].0.spec_bytes(), id.spec_bytes());
                            } else {
                                lemma_bytes_lt_asymmetric(id.spec_bytes(), self@[i].0.spec_bytes());
                            }
                        }
                    }
                    if strategy == FactoryFallback::NoFallback {
                        return Err(FactoryError::FactoryNotFound(id.to_owned()));
                    }
                },
            }
        }
        match strategy {
            FactoryFallback::First => {
                if self.entries.len() > 0 {
                    let (key, factory) = self.entries[0];
                    return Ok((key, factory.create()));
                }
            },
            FactoryFallback::Last => {
                let n = self.entries.len();
                if n > 0 {
                    let (key, factory) = self.entries[n - 1];
                    return Ok((key, factory.create()));
                }
            },
            FactoryFallback::NoFallback => return Err(FactoryError::EmptyIdNoFallback),
        }
        Err(FactoryError::NoFactoriesAvailable)
    }
}

/// The fallback `First` uses the factory with the smallest identifier, and
/// `Last` the one with the largest.
pub proof fn lemma_first_smallest_last_largest<T: ?Sized>(s: Seq<(&'static str, &'static dyn Factory<T>)>)
    requires
        keys_sorted(s),
        s.len() > 0,
    ensures
        forall|i: int| 0 < i < s.len() ==> key_lt(s[0].0, #[trigger] s[i].0),
        forall|i: int| 0 <= i < s.len() - 1 ==> key_lt(#[trigger] s[i].0, s.last().0),
{
    assert forall|i: int| 0 < i < s.len() implies key_lt(s[0].0, #[trigger] s[i].0) by {
        assert(key_lt(s[0].0, s[i].0));
    }
    assert forall|i: int| 0 <= i < s.len() - 1 implies key_lt(#[trigger] s[i].0, s.last().0) by {
        assert(key_lt(s[i].0, s[s.len() - 1].0));
    }
}

/// No two factories of a collection share an identifier, so that an
/// identifier selects at most one factory.
pub proof fn lemma_identifiers_unique<T: ?Sized>(s: Seq<(&'static str, &'static dyn Factory<T>)>)
    requires
        keys_sorted(s),
    ensures
        forall|i: int, j: int| 0 <= i < s.len() && 0 <= j < s.len() && i != j ==> #[trigger] s[i].0@ != #[trigger] s[j].0@,
{
    assert forall|i: int, j: int| 0 <= i < s.len() && 0 <= j < s.len() && i != j implies #[trigger] s[i].0@ != #[trigger] s[j].0@ by {
        if i < j {
            assert(key_lt(s[i].0, s[j].0));
            lemma_bytes_lt_asymmetric(s[i].0.spec_bytes(), s[j].0.spec_bytes());
        } else {
            assert(key_lt(s[j].0, s[i].0));
            lemma_bytes_lt_asymmetric(s[j].0.spec_bytes(), s[i].0.spec_bytes());
        }
    }
}

/// `k` is a registration for the product type `tid`, and no later
/// registration for that type shares its identifier.
pub open spec fn last_registration<T: ?Sized>(regs: Seq<FactoryRegistry<T>>, tid: TypeId, k: int) -> bool {
    &&& 0 <= k < regs.len()
    &&& regs[k].registered_type() == tid
    &&& forall|l: int| k < l < regs.len() && (#[trigger] regs[l]).registered_type() == tid
        ==> regs[l].registered_id()@ != regs[k].registered_id()@
}

/// A registration that no later one for its product type overrides is in
/// the collection built for that type, with its identifier and its factory.
pub proof fn lemma_last_registration_collected<T: ?Sized>(
    regs: Seq<FactoryRegistry<T>>,
    tid: TypeId,
    out: Seq<(&'static str, &'static dyn Factory<T>)>,
    k: int,
)
    requires
        collected_from(regs, tid, out),
        last_registration(regs, tid, k),
    ensures
        exists|i: int| 0 <= i < out.len() && #[trigger] out[i] == regs[k].registered_entry(),
{
    assert(has_key(out, regs[k].registered_id()@));
    let i = choose|i: int| 0 <= i < out.len() && (#[trigger] out[i]).0@ == regs[k].registered_id()@;
    assert(registered_last(regs, tid, out[i]));
    let k2 = choose|k2: int| #[trigger] last_registration(regs, tid, k2)
        && out[i] == regs[k2].registered_entry();
    if k < k2 {
        assert(regs[k2].registered_id()@ != regs[k].registered_id()@);
    } else if k2 < k {
        assert(regs[k].registered_id()@ != regs[k2].registered_id()@);
    }
    assert(out[i] == regs[k].registered_entry());
}

/// `out` holds the identifiers of all registrations for the product type
/// `tid`, each with the factory of the last registration under it.
pub open spec fn collected_from<T: ?Sized>(
    regs: Seq<FactoryRegistry<T>>,
    tid: TypeId,
    out: Seq<(&'static str, &'static dyn Factory<T>)>,
) -> bool {
    &&& keys_sorted(out)
    &&& forall|k: int| 0 <= k < regs.len() && (#[trigger] regs[k]).registered_type() == tid
        ==> has_key(out, regs[k].registered_id()@)
    &&& forall|i: int| 0 <= i < out.len() ==> registered_last(regs, tid, #[trigger] out[i])
}

/// `entry` is the identifier and factory of a registration for the product
/// type `tid` that no later registration for that type overrides.
pub open spec fn registered_last<T: ?Sized>(
    regs: Seq<FactoryRegistry<T>>,
    tid: TypeId,
    entry: (&'static str, &'static dyn Factory<T>),
) -> bool {
    exists|k: int| #[trigger] last_registration(regs, tid, k)
        && entry == regs[k].registered_entry()
}

/// The registration of a factory under an identifier, for the product type
/// `T`.
#[verifier::reject_recursive_types(T)]
pub struct FactoryRegistry<T: ?Sized + 'static> {
    entry: (&'static str, &'static dyn Factory<T>),
    type_id: TypeId,
}

impl<T: ?Sized + 'static> FactoryRegistry<T> {
    /// The identifier and the factory.
    pub closed spec fn registered_entry(self) -> (&'static str, &'static dyn Factory<T>) {
        self.entry
    }

    pub open spec fn registered_id(self) -> &'static str {
        self.registered_entry().0
    }

    pub closed spec fn registered_type(self) -> TypeId {
        self.type_id
    }

    /// Registers `factory` under `id`, for the product type `T`.
    pub fn new(id: &'static str, factory: &'static dyn Factory<T>) -> (r: Self)
        ensures
            r.registered_entry() == (id, factory),
            call_ensures(product_type_id::<T>, (), r.registered_type()),
    {
        let entry = (id, factory);
        // Called through its value, so that `call_ensures` records what it gave.
        let type_of = product_type_id::<T>;
        let type_id = type_of();
        FactoryRegistry { entry, type_id }
    }

    pub fn id(&self) -> (r: &'static str)
        ensures
            r == self.registered_id(),
    {
        self.entry.0
    }

    pub fn type_id(&self) -> (r: TypeId)
        ensures
            r == self.registered_type(),
    {
        self.type_id
    }
}

} // verus!
