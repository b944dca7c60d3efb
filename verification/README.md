# rust-pattern-components

Design-pattern building blocks, written in Verus and verified.

- `src/builder.rs`: `Builder` and `BuilderMut`, whose `when_some` applies a
  setter only when an optional value is present.
- `src/factory.rs`: `SimpleFactory`, a collection of factories kept sorted
  by identifier, whose `create` looks an identifier up or, for an empty or
  unregistered one, falls back to the first or last factory as the strategy
  says; `FactoryRegistry`, the
  registration of one factory, and `SimpleFactory::from_registrations`
  (`from_registrations_of` for a given product type id), where the last
  registration under an identifier wins.
- `src/key_order.rs`: the byte-wise order of identifiers, as `str` orders.
- `src/observer.rs`: `ObserverRegistry`, which holds observers weakly, never
  twice, and notifies them in the order of attachment, stopping at the first
  error (`notify`) or not (`notify_ignore_error`). Its view is the list of
  entries (the observer's address with the weak reference to it); laws about
  attaching and detaching are proved over it.
- `app/lib.rs`: registration of factories at link time (`register_factory!`,
  `inventory`), `simple_factory::<T>()` (also `FactoryRegistry::<T>::simple_factory()`),
  `FactoryErrorMessage`, the error type with `Display` (`thiserror`), and
  `builder_helper!`.

## Design notes

These parts of the API take their shape from what Verus accepts:

- `SimpleFactory` keeps its factories in a `Vec` sorted by identifier, with
  its own binary search and the byte order of `str`, in place of a
  `BTreeMap<&str, _>`: vstd specifies `BTreeMap` only for keys that obey its
  model of `Ord`, which it does not establish for `&str`, and it does not
  specify `first_key_value` or `last_key_value`.
- `Factory<T>` has `Sync` as a supertrait: Verus does not accept a trait
  object of two traits, `dyn Factory<T> + Sync`. `Factory` also has the spec
  function `made`, which ties a product to the factory that made it.
- `Observer` names its subject as a type parameter, `Observer<S>`, and the
  state and error types live in their own trait, `Subject`, of which
  `Observable` is a subtrait: Verus does not accept `dyn Observer<Subject = T>`
  (an associated-type binding counts as a second trait), nor the cycle of
  `Observable` naming `Observer` and `Observer` bounded by `Observable`.
- `FactoryRegistry::new` is not a `const fn`, so `register_factory!`
  registers a function that makes the registration.
- `FactoryError` has a `to_string` method; its `Display` is on app's copy,
  `FactoryErrorMessage`.
- `builder_helper!` expands to impls of the traits `Builder` and `BuilderMut`.
