# hydration

The verified core of server-to-browser hydration.

- `src/id.rs`: identifiers of serialized data as tree paths (`"4"`, `"4.0"`,
  `"4.0.2"`), browser-local (`"c0"`) and throwaway (`"discard"`) identifiers,
  and the hash an error identifier is built from; with proofs that child
  identifiers determine their anchor and number and that the three kinds
  never collide.
- `src/scope.rs`: the stack of id-allocation scopes, whose anchored frames
  hold a handle of their shared counter, and a model of allocation with
  proofs that allocations in scopes that share no counter commute, that the
  k-th allocation is numbered by the counter's value plus k, and that leaving
  a scope restores the allocation behaviour from before it; the exec
  contracts are stated through the model under any numbering of counters.
- `src/draw.rs`: allocation from a stack whose counters are shared atomics.
- `src/dom.rs`, `src/mount.rs`, `src/cursor.rs`: a tree model of the DOM
  (acyclic by a ranking of depths), the hydration cursor that walks it,
  branch markers, and branch replacement, which reports the edit it made.
- `src/preload.rs`: the route-preload queue and the path part of a location.
- `src/trace.rs`, `src/decimal.rs`: diagnostic text and decimal rendering.

`app/` holds what runs around the library: the per-thread scope stack with
its atomic counters and the futures that enter it, a cursor over the page
that makes each branch edit to the page too, the shared-context trait, the serde form of
identifiers, the preload context, and the bridge from `web_sys` nodes to the
tree model.
