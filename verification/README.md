# resources_db

A verified reader and packer for `resources.db` archives, and a decoder of PPMd
streams.

An archive is a header, a table of nodes (folders, files, hard links) and a blob
of payloads. The library

- parses the header and lists the table (`fat`),
- reads payloads as they are stored (`fat`); compressed ones are refused there,
- decodes PPMd streams (`ppmd::decompress`),
- builds a sorted tree from a directory (`source`) and packs it into an archive
  in which equal payloads are stored once (`assemble`, `pack`),
- turns listed paths into paths that stay below a chosen directory (`listing`).

## Layout

- `src/` is the library. Every function has a contract, and Verus proves it.
  - `bytes`, `flags`: little-endian fields, NUL-terminated names, node flags.
  - `fat`, `walk`: the table as it is read.
  - `layout`, `pack`: the table as it is written.
  - `source`, `assemble`: from a directory to an archive.
  - `roundtrip`, `placement`, `readback`, `order`: what holds of packing and
    reading together.
  - `ppmd/`: heap, allocator, context model, range coder and decoder.
- `tests/` runs the library.
- `app/` is the command-line program: arguments, files and directories.

## What is proved

The central theorem is `order::law_directory_reads_back`: an archive that was
assembled from a directory lists every file of the directory, with its path in
lower case, and no other; reading an entry gives the file's bytes. It holds where
no name has a NUL byte, no file is larger than 32 bits can say, and the size of
the table fits the 32 bits that the header has for it. For names of any bytes
`readback::law_payloads_in_place` says that the node of each file leads to its
bytes.

Each step of the decoder is exact: its contract states the model after the step
as a partial function of the model before it, with no outcome where the step
would leave the heap. `ppmd/laws.rs` holds what follows from that. Of the
allocator, `ppmd/taking.rs` and `ppmd/gluing.rs` prove that a block handed out
was free, that it overlaps no other, and that joining free blocks keeps exactly
the bytes that are free. Of the model, `ppmd/scaling.rs` proves that rescaling a
context keeps its states, halved and in order, and `ppmd/learning.rs` that every
context that learns a symbol gains exactly one state and nothing else changes.

## What is trusted

Three wrappers of `bytemuck::pod_read_unaligned` read little-endian integers.
One wrapper of `String::from_utf8_lossy` turns names into strings, and its
result is named `utf8_lossy`. Nothing else is believed without proof.
