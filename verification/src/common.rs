//! The closed command set of the directory protocol and the wire-level node
//! record, together with their mathematical views.

use vstd::prelude::*;

verus! {

/// Application-layer protocol tag negotiated at channel-open time.
pub const ALPN: &'static str = "gatekeeper";

/// A value of one of two alternative types.
#[derive(Clone, Debug)]
pub enum Either<A, B> {
    Left(A),
    Right(B),
}

/// One request of the directory protocol.
#[derive(Clone, Debug)]
pub enum Cmd {
    /// List roles
    Roles,
    /// List nodes
    Nodes,
    /// List roles granted to the specified node
    NodeRoles {
        /// Node public key
        node: String,
    },
    /// Create a new node
    CreateNode {
        /// Node name (unique)
        name: String,
        /// Node public key (unique)
        node: String,
        /// Grant superadmin access to node?
        superadmin: bool,
    },
    /// Delete a node
    DeleteNode {
        /// Node public key
        node: String,
    },
    /// Grant a role to a node
    GrantRole {
        /// Node public key
        node: String,
        /// Role
        role: String,
    },
    /// Revoke a previously granted role
    RevokeRole {
        /// Node public key
        node: String,
        /// Role
        role: String,
    },
}

/// The mathematical value of a [`Cmd`]: the same tagged union over string
/// values.
pub enum CmdV {
    Roles,
    Nodes,
    NodeRoles { node: Seq<char> },
    CreateNode { name: Seq<char>, node: Seq<char>, superadmin: bool },
    DeleteNode { node: Seq<char> },
    GrantRole { node: Seq<char>, role: Seq<char> },
    RevokeRole { node: Seq<char>, role: Seq<char> },
}

impl View for Cmd {
    type V = CmdV;

    open spec fn view(&self) -> CmdV {
        match self {
            Cmd::Roles => CmdV::Roles,
            Cmd::Nodes => CmdV::Nodes,
            Cmd::NodeRoles { node } => CmdV::NodeRoles { node: node@ },
            Cmd::CreateNode { name, node, superadmin } => CmdV::CreateNode {
                name: name@,
                node: node@,
                superadmin: *superadmin,
            },
            Cmd::DeleteNode { node } => CmdV::DeleteNode { node: node@ },
            Cmd::GrantRole { node, role } => CmdV::GrantRole { node: node@, role: role@ },
            Cmd::RevokeRole { node, role } => CmdV::RevokeRole { node: node@, role: role@ },
        }
    }
}

/// The node record as it crosses the wire: display name, textual identity,
/// and the sole privilege bit.
#[derive(Clone, Debug)]
pub struct Node {
    pub name: String,
    pub node: String,
    pub superadmin: bool,
}

/// The mathematical value of a wire [`Node`] record.
pub struct NodeV {
    pub name: Seq<char>,
    pub node: Seq<char>,
    pub superadmin: bool,
}

impl View for Node {
    type V = NodeV;

    open spec fn view(&self) -> NodeV {
        NodeV { name: self.name@, node: self.node@, superadmin: self.superadmin }
    }
}

} // verus!
