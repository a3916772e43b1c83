//! Multiplicative-depth / multiplication-count analysis of arithmetic
//! programs for FHE: textual front ends, the shared arithmetic DAG, and the
//! decision logic around e-graph extraction.
pub mod text;
pub mod lang;
pub mod dag;
pub mod intern;
pub mod dag_parser;
pub mod evaluator;
pub mod cost;
pub mod expr_parser;
pub mod class_analysis;
pub mod md_mc_extractor;
pub mod optimizer;
pub mod text_round_trip;
pub mod mip_formulation;
pub mod normal_form;
pub mod decoded_depth;
pub mod mip_completeness;
pub mod parse_laws;
pub mod formula_laws;
