# tga

A decoder for Truevision TGA images, verified with Verus, and the readers and decisions of two
programs that try out image decoders on arbitrary data.

- `src/header.rs`, `src/decoder.rs`: the header, opening a file and decoding its image
- `src/color.rs`, `src/color_map.rs`: pixel layouts, color maps and the colors of raw pixels
- `src/rle.rs`, `src/stream.rs`: run-length packets, in memory or from a reader piece by piece
- `src/orientation.rs`: the order in which an image stores its pixels
- `src/laws.rs`: what holds of the decoder as a whole
- `src/partial_reader.rs`, `src/strict_cursor.rs`, `src/seek.rs`: readers over data in memory
- `src/fuzzing.rs`: what to do after an attempt, and how two results compare
- `app/`: the same on the readers of the standard library
