# unbase

unbase is a causal, coordination-free distributed data-persistence framework.
This crate holds its logic as Rust verified with Verus: Verus checks every
function in `src/`, and the functions that compute something carry
`requires`/`ensures` contracts that it proves (a few, such as the one that
draws a random slab id, promise no more than that they return). The few small
wrappers around calls into other crates (random numbers, byte orders,
ed25519, base64, itertools' partition) are not proved: Verus takes their
contracts on trust, and their doc comments say what those contracts claim.

## Layout

- `src/slab.rs`: the memo data model (subjects, memorefs, bodies) and the
  slab's memo storage, where a memo only refers to older memos.
- `src/memorefhead.rs`: causal heads and how memorefs are applied to them.
- `src/causal.rs`, `src/projection.rs`: walking the causal history (breadth
  first, and in causal order, each memo once and after its descendants), and
  projecting values, relations and edges from it.
- `src/stash.rs`, `src/context.rs`: the query context's stash of subject heads
  with reference counts, and its compaction.
- `src/buffer.rs`: conversions between the data model and buffer elements.
- `src/netbuf.rs`: the network buffer, which writes each subject, slab and
  memoref once and refers to it by position.
- `src/network.rs`, `src/slabref.rs`, `src/simulator.rs`: transports,
  transmitters, slab references with their channels, and a simulated network
  with its own clock.
- `src/agent.rs`: the decisions a slab takes on incoming memos, peering and
  residency.
- `src/store.rs`: the small codecs of the persistent slab store.
- `app/`: the parts around the library that Verus does not check: the sled
  store, the UDP transport, subscriber channels, threads and serialization.
- `tests/`: tests of the library's public functions.
