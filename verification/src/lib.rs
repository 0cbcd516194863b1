//! Verified core of a compact graph store: its payload formats, the views
//! that read them in place, the passes that build a payload from a stream of
//! records, and the admission controller of the write overlay.

pub mod acceptance_laws;
pub mod accounting;
pub mod adjacency;
pub mod adjacency_laws;
pub mod admission_laws;
pub mod bounded_emit;
pub mod build_laws;
pub mod builder;
pub mod built_laws;
pub mod built_zone_laws;
pub mod chain_laws;
pub mod code_index;
pub mod column_acceptance_laws;
pub mod column_laws;
pub mod column_order_laws;
pub mod column_pass;
pub mod controller;
pub mod csr_laws;
pub mod csr_pass;
pub mod dict_pass;
pub mod directory;
pub mod directory_laws;
pub mod edge_acceptance_laws;
pub mod edge_pass;
pub mod edge_placement_laws;
pub mod emit_columns;
pub mod emit_ids;
pub mod emit_meta;
pub mod emit_metadata;
pub mod error;
pub mod faults;
pub mod format_laws;
pub mod freeze;
pub mod generation;
pub mod graph_store;
pub mod id_index;
pub mod id_lookup;
pub mod intern;
pub mod label_laws;
pub mod label_membership;
pub mod layout_laws;
pub mod live_graph;
pub mod lookup_laws;
pub mod membership_index;
pub mod membership_pass;
pub mod node_laws;
pub mod node_pass;
pub mod opened_laws;
pub mod opening_laws;
pub mod orchestrator;
pub mod outside;
pub mod overlay_budget;
pub mod overlay_cost;
pub mod payload;
pub mod placement_laws;
pub mod plan_laws;
pub mod presence;
pub mod reading_laws;
pub mod records;
pub mod runs;
pub mod section;
pub mod section_codec;
pub mod section_frame;
pub mod section_laws;
pub mod section_read;
pub mod sorting;
pub mod soundness_laws;
pub mod source_laws;
pub mod source_view;
pub mod stages;
pub mod staging;
pub mod store_laws;
pub mod stream_laws;
pub mod stream_meta;
pub mod stream_plan;
pub mod string_dict;
pub mod string_laws;
pub mod summary_laws;
pub mod table_laws;
pub mod tables;
pub mod text;
pub mod tier_chain;
pub mod total_laws;
pub mod types;
pub mod v5_laws;
pub mod v5_meta;
pub mod v5_parts_laws;
pub mod v5_read;
pub mod v5_write;
pub mod value;
pub mod value_laws;
pub mod views;
pub mod walk_laws;
pub mod wire;
pub mod zone_laws;
pub mod zone_maps;
