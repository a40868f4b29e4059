# tailscale

The core of a Tailscale node as a library verified with Verus.

- `src/packet`: packet layouts, buffers, raw and basic batches, and the batch operations
  (split, partition, retain, group by key, resegment, deep copy).
- `src/control`: the big-endian ChaCha20-Poly1305 cipher of the control protocol, nodes as
  control describes them, and the answers to control's ping requests.
- `src/keys`: node key pairs and their byte form.
- `src/netstack`: TCP listener bookkeeping and the network stack's errors.
- `src/runtime`: peer tracking across full and delta updates, and runtime errors.
- `src/http`, `src/error.rs`: error categories.

`app/` holds what talks to the outside world: the `noise_protocol::Cipher` binding, error
conversions from `hyper`, `smoltcp` and `flume`, the listener driver over a `smoltcp` socket
set, the peer service and the ping driver.

## What the batch API leaves out

- `batch_by` and `batch_by_mut` take an `FnMut` closure that returns a `&mut` into the
  caller's collection; Verus supports neither closures that capture mutably nor contracts on
  returned mutable borrows, so the operations built on them are written directly:
  `split_at`, `partition`, `retain` and `group_by`.
- `for_each_mut`, `retain_mut`, `partition_mut` and `group_by_mut` hand the closure a
  `PacketMut`, through which it may change the batch. Nothing could be promised of the batch
  afterwards, so they are left out; `PacketMut` can be taken with `get_mut` or `index_mut`.
- `group_by` keys are `u64`, whose ordering Verus knows, so the map it returns can be reasoned
  about.
- Each batch owns its buffer: the shared, reference-counted buffer and the unsafe functions
  that rely on it (`from_shared_buffer`, `push_layout_unchecked`, `get_data_and_layout_mut`,
  `resegment_unchecked`) are replaced by safe code, so the halves of a split no longer share
  bytes.
- `PacketMut` keeps its batch and index as public fields: its contracts relate the batch's
  value after the borrow ends to the field, which Verus can only write as a field of a
  public type. The batch's own fields stay private, so through a `PacketMut` the batch can
  only be changed by methods that keep it well formed.

## Maps

- The peer tracker files peer ids in a `HashMap<i64, _>`, whose behaviour Verus knows for
  integer keys. Peers themselves are keyed by a 32-byte node key; Verus states the hash-map
  key model only for integers, `bool` and boxes of them, so peers are kept in a small
  association list with distinct keys (`runtime::assoc::AssocList`), and the reported key
  sets are vectors without repeats.
