# cull

A fast viewer for culling photo shoots, and the proofs that it does what it says. It shows one
image at a time, keeps the neighbouring ones decoded in the background so navigation is instant,
and deletes JPG+RAW pairs as a single unit.

Everything that decides something is in `src/`, a library verified with Verus. It neither reads
the disk nor the clock and touches no graphics device: it is handed plain values and answers with
plain values. `app/` is the program around it.

## The library

| module | what it is about |
|---|---|
| `app` | what is selected, what an input does, deleting and undoing |
| `prefetch` | the ring of decoded images around the selection |
| `gpu`, `upload` | which textures live, and which rows of which image are written next |
| `decode`, `frame`, `tiff`, `icc`, `view` | finding and decoding the pixels of a file, its orientation and colours |
| `scan`, `tree`, `path`, `search`, `report` | grouping files by basename, and the tree of directories |
| `trash` | moving groups to the trash, and the undo history |
| `ui`, `input`, `format`, `date`, `text` | what is shown, and what keys and buttons mean |
| `measure`, `table`, `shader` | timings, tables keyed by an index, the shader |

Each function says in its `ensures` what it returns or changes, over spec functions on sequences,
maps and integers. What holds across functions is stated by the public proof functions whose names
begin with `law_`.

Which files reach the trash is part of the contracts: the trait `Bin`, which the program
implements, speaks of a log of the calls made on it, and deleting, undoing and every action say
exactly by which calls that log grows.

What is believed without proof: that each call on a `Bin` is that one call, two JPEG decoders
(`zune-jpeg` and `jpeg-decoder`), `rayon`'s parallel map, `String::push` and `Vec::capacity`. Each
function of theirs has a small wrapper whose comment says what is claimed of it.

The decoders are kept from files whose headers would make them panic. What they read after the
headers cannot be looked through beforehand: arithmetic on it (such as a coefficient times a
16-bit quantization value in `zune-jpeg`) can overflow, and wraps. So build the program with overflow
checks switched off for these two packages, as a release build does.

## The program

`app/main.rs` starts the viewer; under the names `bench`, `probe`, `ringtest` and `scanrep` it runs
diagnostic tools instead. `app/shell.rs` is the window and the event loop, `app/render.rs` the GPU,
`app/panels.rs` the sidebar and status bar, `app/ring.rs` the decode workers, `app/files.rs` the
disk and the trash, and `app/view.rs` zoom and pan.
