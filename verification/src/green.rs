//! The green tree: immutable, persistent, reference-counted tree elements and
//! the machinery that constructs and deduplicates them.

mod builder;
mod children;
mod codec;
mod node;
mod token;
mod tree_builder;

pub use self::builder::{
    child_views, children_of, children_older, counts_ok, elems_of, gc_trace, is_subseq_of,
    lemma_dead_nodes_turn_shrinks, lemma_dead_tokens_turn_empties, lemma_gc_dead_pool_empty,
    lemma_inv_wf, lemma_node_interning_idempotent, lemma_nodes_turn_all_live_identity,
    lemma_nodes_turn_keeps_live, lemma_owned_node_children_owned, lemma_owned_node_wf,
    lemma_owns_child_monotone, lemma_owns_node_view, lemma_owns_token_view,
    lemma_stable_dead_nodes_empty, lemma_subseq_refl, lemma_subseq_trans,
    lemma_token_interning_idempotent, lemma_tokens_turn_all_live_identity,
    lemma_tokens_turn_keeps_live, node_id_referenced, node_keep, node_key_matches, node_lookup,
    node_pooled, node_step, node_sweep, node_sweep_prefix, nodes_run, nodes_turn,
    prefix_child_len, token_id_referenced, token_keep, token_key_matches, token_lookup,
    token_pooled, token_step, token_sweep, token_sweep_prefix, tokens_turn, Builder, BuilderView,
};
pub use self::codec::{
    child_matches_data, decode_children, decode_element, decode_node, decode_token,
    element_count, element_data_valid, element_len, elements_count, elements_len,
    exec_node_matches_data, exec_token_matches_data, lemma_round_trip, node_data_count,
    node_data_len, node_data_valid, node_matches_data, ElementData, NodeData, TokenData,
};
pub use self::children::{Children, ChildrenWithOffsets};
pub use self::tree_builder::{lemma_owns_is_cache_owns, node_child, token_child, Checkpoint, TreeBuilder};
pub use self::node::{
    child_view, is_borrow_of, lemma_child_offset_is_prefix_sum, lemma_node_len_is_sum_of_children,
    prefix_len, ChildView, Element, ElemView, Node, NodeView,
};
pub use self::token::{Token, TokenView};
