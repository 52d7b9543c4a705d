# sicht

Birelational maps: many-to-many maps between keys and values, where each key
and each value is filed under an id and each side lists what it is related to.

- `src/birelational_map/map.rs`: `BirelationalMap`, keys and values of type
  `usize`, each stored once per id in a `slotmap::DenseSlotMap`.
- `src/birelational_map/anyvec_map.rs`: `BirelationalAnyValueMap`, values of
  many kinds (`AnyValue`), each insertion stored anew in a `slotmap::SlotMap`.
- `src/birelational_map/any_value.rs`: the value kinds and their ids.
- `src/birelational_map/slots.rs`: the slot maps, reached through functions
  whose contracts state what slotmap's source does.
- `src/birelational_map/map_laws.rs`, `anyvec_laws.rs`: proved properties of
  the two maps (what a read gives back after an insert, a removal or a write;
  that a relation is recorded on both sides).

Every function under `src/` is verified with Verus, except the small
functions in `slots.rs` marked `external_body`: each makes one call into
slotmap, and its contract, which states what slotmap's source does, is
trusted. The tests under `tests/` run the library with the real `slotmap`
crate.
