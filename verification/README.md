# metanoid_procgen

Procedural generation for a brick-breaker: a hierarchy of seeds (master,
galaxy, biome, level), share codes for seeds, level progression, and the
layers that turn a seed into a playable wall of bricks.

`src/` is the verified library (Verus). Every public function carries a
contract. The deterministic steps state their result exactly. The steps
that draw from a seeded ChaCha8 stream state their result, and the state
they leave the stream in, exactly as a function of their inputs and the
stream's state, over named draws (the value `random_range`, `random` or
`shuffle` gives from a given state, and the state after it); which values
those draws are is the generator's business and is not restated. Beside
that they state what holds of every draw (bricks only cleared or only
reinforced, teleports in far-apart pairs, a power-up at least every eighth
breakable brick, a coral cluster connected to its seed, a spiral that never
leaves two open lanes side by side, ...).

- `seed`: XXH3 child-seed derivation, the seed hierarchy and base-62 share
  codes.
- `random`: the seeded ChaCha8 generator behind trusted
  wrappers, and unit-interval rolls in steps of 2^-24.
- `level`: brick records, the occupancy grid, the layout generators
  (creative, geometric, hybrid, organic) and the generation layers
  (specials, power-ups, carving, validation), movers and runways.
- `difficulty`: boss-level shaping.
- `universe`: level addressing across galaxies and biomes, biome counts.
- `biome`, `visuals`: theme enums, the variation seed, flavour names.

`app/` holds the floating-point tuning around the library (biome
parameters, difficulty curves, brick metrics, noise and wave layouts,
motion specs) and computes the integer thresholds that the library's rolls
compare against.
