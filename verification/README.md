# Veldwake world library

A verified library for a voxel world: chunk streaming (demand sets, the
streaming runtime's records and queues, the on-disk chunk cache format),
procedural landmarks (descriptors, the compiler, masses and silhouettes,
plan geometry and siting), plant geometry, terrain identities and
materials, and the paint of a combat weapon. Every function under `src/`
is verified with Verus against its contract.

- `src/` is the library. `src/streaming` holds demand, the runtime state
  machine and the cache; `src/procedural` the world identity, materials,
  plants and landmarks; `src/combat` the weapon descriptor and its paint.
- `tests/` exercises the library from outside.
- `app/` holds what rests on floating point, file I/O and threads: the
  terrain field and noise, sight lines and the landmark plan derivation, the
  streaming worker and driver, cache files, and the terrain probe.
