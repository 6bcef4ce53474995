# infino_core

The vector index of a superfile, verified with Verus: the proximity graph and
its stored forms, the clustered subsections of vector columns, and the settings
that govern both.

Numbers of the vector space are binary32 and binary64 values. The library holds
them as bit patterns, so that every comparison, every ruler and every stored
byte is exact integer work that can be proved. What computes with the numbers
(distances, rotations, means, logarithms) stands outside and hands patterns in.

## Layout

| Place | What it holds |
| --- | --- |
| `src/float_bits.rs`, `rounding.rs`, `span.rs` | order, rounding and differences of numbers held as patterns |
| `src/wire.rs`, `checksum.rs`, `plane.rs` | little-endian fields, CRC-32C, byte planes |
| `src/scorer.rs`, `scored.rs`, `visited.rs`, `walk.rs`, `link.rs`, `graph.rs`, `reach.rs` | the graph: beam search, neighbor selection, insertion, pruning, and when a search is exhaustive |
| `src/graph_codec.rs`, `codes.rs`, `bundle.rs`, `envelope.rs` | stored forms of graphs, code planes, bundles and envelopes |
| `src/calibrate.rs`, `serve.rs` | recall, calibration of degree and beam, searching with a refine plane |
| `src/kmeans.rs`, `ivf.rs`, `order.rs` | clustering decisions, subsection layout, physical order of clusters |
| `src/subsection.rs`, `column.rs`, `builder.rs` | rows to subsections, columns to a blob |
| `src/config.rs` | settings, their defaults, clamping and validation |
| `app/` | configuration files, floating-point kernels, worker threads, scratch files |
| `tests/` | the library on concrete values |

Functions whose names begin with `law_` state what holds of the library as a
whole. Functions marked as trusted each name the outside function they call and
what is believed of it.
