//! The server-side protocol step for one connection: decode the request
//! buffer, gate the caller through the one trust decision, dispatch to the
//! arbiter, and encode the response.
//!
//! Every failure — undecodable bytes, a refused caller, or an arbiter
//! error — comes back as an `Err`, which the connection loop turns into a
//! transport-level failure: no structured error payload ever crosses the
//! wire, so a caller cannot tell the failure kinds apart.

use vstd::prelude::*;

use crate::arbiter::{delete_node_ok, grant_ok, revoke_ok, Arbiter};
use crate::store::insert_node_ok;
use crate::codec::{
    decode_cmd, enc_node, enc_nodes, enc_strings, encode_node_msg, encode_nodes, encode_strings,
    parse_cmd,
};
use crate::common::{Cmd, CmdV, NodeV};
use crate::error::Error;

verus! {

/// The per-connection handler: the arbiter and nothing else.
pub struct Server {
    pub arbiter: Arbiter,
}

/// What dispatching one decoded, authorized command does: the state change
/// of the matching arbiter operation, and the encoded response on success.
pub open spec fn dispatch_post(
    pre: Arbiter,
    post: Arbiter,
    cmd: CmdV,
    now: int,
    r: Result<Seq<u8>, Error>,
) -> bool {
    match cmd {
        CmdV::Roles => post == pre && r == Ok::<Seq<u8>, Error>(
            enc_strings(pre.store.role_names()),
        ),
        CmdV::Nodes => post == pre && r == Ok::<Seq<u8>, Error>(
            enc_nodes(pre.store.nodes_listing()),
        ),
        CmdV::NodeRoles { node } => post == pre && r == Ok::<Seq<u8>, Error>(
            enc_strings(pre.store.node_roles_listing(node)),
        ),
        CmdV::CreateNode { name, node, superadmin } => {
            &&& post.remote_setup == pre.remote_setup
            &&& (r is Ok <==> pre.store.ids_available() && !pre.store.has_node(node)
                && !pre.store.has_name(name))
            &&& match r {
                Ok(b) => insert_node_ok(pre.store, post.store, name, node, superadmin, now)
                    && b == enc_node(NodeV { name, node, superadmin }),
                Err(e) => post == pre && ((e == Error::StorageError
                    && !pre.store.ids_available()) || (e == Error::ConflictError
                    && pre.store.ids_available() && (pre.store.has_node(node)
                    || pre.store.has_name(name)))),
            }
        },
        CmdV::DeleteNode { node } => {
            &&& post.remote_setup == pre.remote_setup
            &&& (r is Ok <==> pre.store.has_node(node))
            &&& match r {
                Ok(b) => delete_node_ok(pre.store, post.store, node) && b == Seq::<u8>::empty(),
                Err(e) => post == pre && e == Error::NoSuchNodeError,
            }
        },
        CmdV::GrantRole { node, role } => {
            &&& post.remote_setup == pre.remote_setup
            &&& (r is Ok <==> pre.store.has_node(node) && pre.store.ids_available())
            &&& match r {
                Ok(b) => grant_ok(pre.store, post.store, node, role, now) && b
                    == Seq::<u8>::empty(),
                Err(e) => post == pre && ((e == Error::NoSuchNodeError && !pre.store.has_node(
                    node,
                )) || (e == Error::StorageError && pre.store.has_node(node)
                    && !pre.store.ids_available())),
            }
        },
        CmdV::RevokeRole { node, role } => {
            &&& post.remote_setup == pre.remote_setup
            &&& (r is Ok <==> pre.store.has_node(node) && pre.store.ids_available())
            &&& match r {
                Ok(b) => revoke_ok(pre.store, post.store, node, role, now) && b
                    == Seq::<u8>::empty(),
                Err(e) => post == pre && ((e == Error::NoSuchNodeError && !pre.store.has_node(
                    node,
                )) || (e == Error::StorageError && pre.store.has_node(node)
                    && !pre.store.ids_available())),
            }
        },
    }
}

impl Server {
    /// The handler's invariant: the arbiter's.
    pub open spec fn wf(self) -> bool {
        self.arbiter.wf()
    }

    /// A handler over the given arbiter.
    pub fn new(arbiter: Arbiter) -> (r: Server)
        requires
            arbiter.wf(),
        ensures
            r.wf(),
            r.arbiter == arbiter,
    {
        Server { arbiter }
    }

    /// One whole protocol step: the caller's verified identity and the
    /// complete request buffer go in; the encoded response or the failure
    /// comes out. Undecodable bytes fail before the trust decision; the
    /// trust decision fails before any dispatch; the state changes only
    /// when the matching arbiter operation succeeds.
    pub fn handle(&mut self, caller: &str, request: &[u8], now: i64) -> (r: Result<Vec<u8>, Error>)
        requires
            old(self).wf(),
        ensures
            final(self).wf(),
            final(self).arbiter.remote_setup == old(self).arbiter.remote_setup,
            match parse_cmd(request@) {
                None => r == Err::<Vec<u8>, Error>(Error::CodecError) && *final(self) == *old(
                    self,
                ),
                Some(cmd) => if !old(self).arbiter.allowed(caller@) {
                    r == Err::<Vec<u8>, Error>(Error::UnauthorizedError) && *final(self) == *old(
                        self,
                    )
                } else {
                    dispatch_post(
                        old(self).arbiter,
                        final(self).arbiter,
                        cmd,
                        now as int,
                        match r {
                            Ok(v) => Ok(v@),
                            Err(e) => Err(e),
                        },
                    )
                },
            },
    {
        let cmd = match decode_cmd(request) {
            Some(c) => c,
            None => {
                return Err(Error::CodecError);
            },
        };
        let allowed = match self.arbiter.allow(caller) {
            Ok(b) => b,
            Err(e) => {
                return Err(e);
            },
        };
        if !allowed {
            return Err(Error::UnauthorizedError);
        }
        match cmd {
            Cmd::Roles => {
                let v = match self.arbiter.roles() {
                    Ok(v) => v,
                    Err(e) => {
                        return Err(e);
                    },
                };
                Ok(encode_strings(&v))
            },
            Cmd::Nodes => {
                let v = match self.arbiter.nodes() {
                    Ok(v) => v,
                    Err(e) => {
                        return Err(e);
                    },
                };
                Ok(encode_nodes(&v))
            },
            Cmd::NodeRoles { node } => {
                let v = match self.arbiter.node_roles(node.as_str()) {
                    Ok(v) => v,
                    Err(e) => {
                        return Err(e);
                    },
                };
                Ok(encode_strings(&v))
            },
            Cmd::CreateNode { name, node, superadmin } => {
                match self.arbiter.create_node(name.as_str(), node.as_str(), superadmin, now) {
                    Ok(rec) => Ok(encode_node_msg(&rec)),
                    Err(e) => Err(e),
                }
            },
            Cmd::DeleteNode { node } => {
                match self.arbiter.delete_node(node.as_str()) {
                    Ok(()) => {
                        let b: Vec<u8> = Vec::new();
                        proof {
                            assert(b@ =~= Seq::<u8>::empty());
                        }
                        Ok(b)
                    },
                    Err(e) => Err(e),
                }
            },
            Cmd::GrantRole { node, role } => {
                match self.arbiter.grant_role(node.as_str(), role.as_str(), now) {
                    Ok(()) => {
                        let b: Vec<u8> = Vec::new();
                        proof {
                            assert(b@ =~= Seq::<u8>::empty());
                        }
                        Ok(b)
                    },
                    Err(e) => Err(e),
                }
            },
            Cmd::RevokeRole { node, role } => {
                match self.arbiter.revoke_role(node.as_str(), role.as_str(), now) {
                    Ok(()) => {
                        let b: Vec<u8> = Vec::new();
                        proof {
                            assert(b@ =~= Seq::<u8>::empty());
                        }
                        Ok(b)
                    },
                    Err(e) => Err(e),
                }
            },
        }
    }
}

} // verus!
