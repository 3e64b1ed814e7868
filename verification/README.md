# cluster_controller

Verified decisions of a farmer cluster controller, written in Verus, and the
extrinsic weights of the messenger pallet.

- `src/caches.rs`: known caches of a cache group, their piece caches, expiry,
  and when the farmer cache is reinitialized.
- `src/farms.rs`: known farmers and farms, farm index allocation, farmer
  updates after identification, expiry.
- `src/farm_laws.rs`: what farmer updates keep (indices never shared between
  farmers, results held at their index, unchanged farmers untouched).
- `src/farm_operations.rs`: the queue of plotted-pieces operations run one at a
  time, and the order of sector updates buffered while a farm is added.
- `src/weights.rs`: extrinsic weights with saturating arithmetic.
- `src/index_map.rs`: association list keyed by farm index.
- `src/channel.rs`: expiry channels and shared handles from outside crates.
- `app/`: the event loops (message bus, clocks, futures) that feed the
  verified state machines; the cluster is reached through traits.

Timestamps are milliseconds of a monotonic clock, supplied by the caller.
