# Urbix

A procedural city engine: an unbounded city, generated in chunks on demand, the
same for the same seed.

- `src/` is the library. Every item of it is verified: what a function returns is
  stated in its contract, and what holds of the library as a whole is stated in
  the proof functions whose names begin with `law_`.
- `tests/` runs the library on concrete worlds.
- `app/` is the command line, the reading of configuration files, the C boundary,
  and the measuring of sines, cosines and powers that the library takes as given.

## Layout of the library

| Modules | What they hold |
|---|---|
| `float`, `single`, `double` | Arithmetic on binary floating-point patterns |
| `hash`, `zones`, `config` | Draws, zone types, and everything that shapes a world |
| `region` | District sites, the pull of zones, street frames, borders |
| `lot`, `street`, `building` | Blocks and lots, the street network, heights and palettes |
| `chunk`, `data` | Cells, and their bytes |
| `layout`, `interior` | Interiors: rule tables, floors, units, rooms, doors, furniture |
| `recency`, `cache`, `engine` | Bounded memory, and the engine over it |
| `ffi`, `cli` | What other languages and the command line are handed |

## Conventions

A number with a fraction is the bit pattern of an IEEE 754 number: `F32` or `F64`.
Operations that do not meet a NaN give the bits that hardware gives. A
configuration's numbers appear in contracts as bit patterns, with their value in a
comment.

A cell is generated from what is measured at it: the power of its distance to
every site, and where it lies in the frame of its district. `app/measure.rs`
measures it.
