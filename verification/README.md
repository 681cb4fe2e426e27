# copc

A reader and writer for COPC files (cloud optimized point clouds: LAZ files whose points lie
in an octree), written in Rust and verified with Verus.

`src/` is the library. Every function in it has a contract that Verus proves, but for the few
wrappers around the `las` and `laz` crates, whose doc comments say what is taken for granted.
`app/` is ordinary Rust around it: files, memory maps, HTTP requests, floating point
arithmetic, and conversions to and from the types of the `las` crate. `tests/` runs the library
with the real codec.

## Layout of the library

| Modules | What they are about |
|---|---|
| `bytes`, `float`, `seqs`, `checks` | little-endian integers, IEEE 754 order by bit patterns, sequences, chains of checks |
| `error`, `text`, `limits`, `cancel` | what can go wrong, and in which words; limits; stopping long work |
| `hierarchy`, `info`, `las_header`, `vlr`, `laszip`, `point_format` | the parts of a file |
| `range_read`, `file`, `index`, `sort` | opening a file and reading its whole hierarchy |
| `ranged`, `lazy`, `http` | reading a remote file piece by piece |
| `coding`, `gps_time`, `point_layers` | which LAZ chunks and which GPS times the codec can take |
| `bounds`, `query`, `reader`, `decode`, `columns`, `column_read` | queries, chunks, points and columns |
| `streaming`, `spill`, `source`, `validate`, `encode` | points on their way into a file |
| `lod` | spreading points over the nodes of the octree |
| `pages`, `page_tree`, `page_read` | pages of the hierarchy, planned, written and read back |
| `date`, `metadata`, `las_out`, `laz_out`, `writer`, `output`, `round_trip` | the parts of an output file, and the file as a whole |

## What is proved

Functions named `law_…` state what holds of several functions together. The main ones:

- what is written is read back: entries, pages, the COPC info, headers, spill records, point
  records, and whole files (`output::law_written_file_opens`, `law_file_round_trip`,
  `encode::law_fields_round_trip`);
- a file that opens is in order: every chunk lies in the point data, no two chunks overlap,
  and the nodes hold as many points as the header declares (`file::law_opened_file`);
- a reader that loads pages on demand ends with the hierarchy that reading the whole file
  gives (`lazy::law_lazy_is_whole`), and after loading what one query can reach has the nodes
  that the query takes (`lazy::law_lazy_query`);
- a query leaves out no node that a point of its levels and its box lies in
  (`query::law_no_point_is_missed`);
- columns that are read are a sound batch (`column_read::ColumnRead::finish`), and columns
  that are read apart and merged are those that are read together
  (`column_read::law_joined_columns`); their rows are those that a walk over the points meets,
  in the same order (`column_read::law_columns_are_rows`, `law_column_values`);
- a reader of a remote file fetches no page of the hierarchy twice, and none that cannot serve
  the query (`ranged::law_no_page_twice`, `law_only_needed_pages`);
- the octree holds each point once, in a node that it lies in, and no node holds more than
  its budget (`lod::law_points_are_spread`); its nodes are a tree
  (`lod::law_nodes_are_a_tree`).

Floating point arithmetic is not modelled. The library knows numbers by their bit patterns,
their order and whether they are finite; what has to be computed with them comes in as an
argument.
