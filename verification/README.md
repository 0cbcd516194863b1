# grafeo_compact

The compact columnar graph store: its section formats, the mapped payload that
opens without copying, the builders that write a payload from a stream of
nodes and edges, the admission control of the mutable overlay, and the chain of
tiers.

Every function under `src/` states what it returns and, but for those of
`outside`, is proved to do so.

- `wire`, `text`, `sorting`, `runs`: bytes, texts, sorted runs.
- `directory`, `views`, `payload`: the segment directory, aligned typed views,
  checked payloads.
- `id_index`, `id_lookup`, `label_membership`, `presence`, `string_dict`,
  `code_index`, `zone_maps`: the segments.
- `v5_write`, `v5_meta`, `v5_read`, `v5_laws`: the mapped payload, written, read,
  and that reading gives back what was written.
- `section_*`, `section`: the section formats before it, with the same law.
- `staging`, `node_pass`, `edge_pass`, `column_pass`, `csr_pass`, `dict_pass`,
  `membership_pass`, `emit_*`, `bounded_emit`, `orchestrator`, `stream_plan`,
  `stream_meta`, `builder`, `build_laws`, `total_laws`, `directory_laws`: building
  a payload; that a build is deterministic, counts what it was handed, and
  writes the directories and metadata of the serialized store.
- `placement_laws`, `edge_placement_laws`, `column_laws`, `plan_laws`,
  `csr_laws`, `adjacency_laws`: a plan holds its nodes and edges, with their
  properties and both directions of every edge.
- `layout_laws`, `built_zone_laws`, `built_laws`, `opening_laws`,
  `column_order_laws`: a built payload opens as the store of its plan, its
  columns under the plan's numbers.
- `lookup_laws`, `reading_laws`: a store and what its payload opens as answer
  lookups by original id alike; what a build wrote gives texts back and leads
  along every edge.
- `stream_laws`: a streaming build holds the properties of its nodes, and its
  store gives their texts back.
- `source_view`, `freeze`, `live_graph`, `walk_laws`: the sources of a build: a
  base, an overlay over it, both merged; a walk gives every row once.
- `overlay_budget`, `controller`, `overlay_cost`: admission of changes to the
  overlay.
- `graph_store`, `tier_chain`: what a graph can be asked, and a chain of tiers
  that answers like one graph.

`outside` holds what is taken on trust: the functions of `bytes`, `crc32fast`,
`arcstr` and the standard library that the code calls.

`app/` puts the admission controller and the section behind locks for threads to
share. Column bodies and adjacency blocks are opaque to the library: a caller
encodes and decodes them. A build refuses encoded columns that have not the
rows, the codec and the texts of its plan.
