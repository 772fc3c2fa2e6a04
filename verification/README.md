# ez_core

The verified core of EZ2DEMOSCENE, a tool for seamless, loopable 3D demo
scenes. The functions in `src/` carry contracts that Verus proves. The
calls into other crates and into `std` that Verus does not know (the zip
writer and reader, the PNG encoder, path parsing, lossy UTF-8 decoding) go
through small wrappers marked `#[verifier::external_body]`: their
contracts are trusted, not proved, and each states only what the called
code's source or documentation shows.

| Module | What it holds |
|---|---|
| `midi` | Standard MIDI File reader: notes in ticks, paired on and off, and the tempo map that turns ticks into microseconds |
| `store` | Assets held in memory under `mem://` paths, with fresh names for imports |
| `assets` | `.ez2pack` files: the layout of a pack, writing it, opening it into the store; asset paths relative to the project folder |
| `export` | Export formats, and a zip of numbered PNG frames |
| `graph` | Node graph wiring and the order in which compiling visits nodes |
| `instancing` | How many copies instancers and modifiers make, in which order, with which seeds |
| `sequence` | Transitions and the bookkeeping of scenes on a timeline |
| `rng` | PCG random numbers and the lowbias32 hash |
| `scene`, `music`, `audio`, `palette`, `param`, `signal` | The plain choices of the scene model |
| `order`, `naming`, `text`, `paths`, `zipio` | Stable sorting, numbered names, characters and decimals, `/` paths, zip archives |

`app/` holds what stays outside the proofs: the process-wide store with its
fallback to files on disk, packs on disk, MIDI timing in seconds, floating
point draws and the GIF encoder.
