//! Repository pack, exchange, comparison, merge and garbage-collection logic
//! over the SLEYSCB1 canonical byte format.
//!
//! Every decoder here is a total function on bytes whose result is stated
//! over a mathematical model of the wire format, and every encoder is proved
//! to produce exactly the bytes that the matching decoder accepts.

pub mod bytes;
pub mod compare;
pub mod compare_fields;
pub mod compare_roots;
pub mod comparison;
pub mod comparison_laws;
pub mod conflict_laws;
pub mod delta;
pub mod delta_decode;
pub mod delta_laws;
pub mod digest;
pub mod entity_read;
pub mod exchange;
pub mod exchange_branch;
pub mod exchange_budget;
pub mod exchange_closure;
pub mod exchange_laws;
pub mod exchange_payload;
pub mod gc;
pub mod gc_plan;
pub mod gc_snapshot;
pub mod index_cache;
pub mod merge;
pub mod merge_collateral;
pub mod merge_compose;
pub mod merge_conflict;
pub mod merge_plan;
pub mod merge_sides;
pub mod merge_judge;
pub mod merge_laws;
pub mod ordered;
pub mod pack;
pub mod pack_closure;
pub mod pack_encode;
pub mod pack_envelope;
pub mod scb;
pub mod pack_payload;
pub mod pack_tree;
