//! A decentralized, identity-keyed access-control directory.
//!
//! The directory maps cryptographically identified peers ("nodes") to sets of
//! opaque role labels. Privileged peers mutate the assignment over a simple
//! binary request/response protocol; every operation is gated by a single
//! trust decision that also covers the initial bootstrap of an empty
//! directory.

use vstd::prelude::*;

mod arbiter;
mod codec;
mod common;
mod error;
mod laws;
mod order;
mod server;
mod store;

pub use arbiter::{delete_node_ok, grant_ok, revoke_ok, Arbiter};
pub use codec::{
    decode_cmd, decode_node_msg, decode_nodes, decode_strings, enc_bool, enc_cmd, enc_node,
    enc_nodes, enc_str, enc_strings, enc_u64, encode_cmd, encode_node_msg, encode_nodes,
    encode_strings, lemma_cmd_round_trip, lemma_node_msg_round_trip, lemma_nodes_round_trip,
    lemma_parse_cmd_sound, lemma_parse_nodes_sound, lemma_parse_strings_sound,
    lemma_strings_round_trip, parse_cmd, parse_node_msg, parse_nodes, parse_strings,
};
pub use common::{ALPN, Cmd, CmdV, Either, Node, NodeV};
pub use error::Error;
pub use laws::{
    lemma_bootstrap_disabled, lemma_bootstrap_latch, lemma_grant_idempotent,
    lemma_node_roles_listing_contains, lemma_node_roles_listing_sorted, lemma_nodes_listing_sorted,
    lemma_orphaned_associations, lemma_role_names_contains, lemma_role_names_sorted,
    lemma_role_persistence, lemma_revoke_before_grant, lemma_uniform_gating,
};
pub use order::{lex_le, str_le, str_lt};
pub use server::{dispatch_post, Server};
pub use store::{Count, NodeRole, NodeRow, RoleRow, Store};

verus! {

} // verus!
