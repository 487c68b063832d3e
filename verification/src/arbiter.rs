//! The authorization arbiter: the bootstrap trust decision and every
//! directory operation, each specified against the relational store.
//!
//! The trust decision `allow` is the single gate used for every operation:
//! while the directory is empty ("Uninitialized") and remote setup is
//! enabled, any caller is admitted; from the first node row on
//! ("Established"), only a caller whose identity matches a superadmin node
//! row is. The latch is keyed on store content alone, so deleting the last
//! node reopens bootstrap trust.

use vstd::prelude::*;

use crate::common::{Node, NodeV};
use crate::error::Error;
use crate::store::{
    has_assoc, insert_node_ok, lemma_node_id_of, lemma_node_index_unique, lemma_pair_held_iff,
    lemma_role_id_of, NodeRole, NodeRow, RoleRow, Store,
};

verus! {

/// The arbiter: the store handle and the one configuration flag.
pub struct Arbiter {
    pub store: Store,
    pub remote_setup: bool,
}

/// What a successful grant does: the role row exists afterwards (created
/// with a fresh id if it was absent), exactly one association row links the
/// node to it (appended if it was absent), and nothing else changes.
pub open spec fn grant_ok(
    pre: Store,
    post: Store,
    ident: Seq<char>,
    role: Seq<char>,
    now: int,
) -> bool {
    &&& pre.has_node(ident)
    &&& post.nodes@ == pre.nodes@
    &&& post.has_role(role)
    &&& if pre.has_role(role) {
        post.roles@ == pre.roles@
    } else {
        exists|p: int, row: RoleRow|
            #![trigger pre.roles@.insert(p, row)]
            0 <= p <= pre.roles@.len() && post.roles@ == pre.roles@.insert(p, row) && row.role@
                == role && row.created == now && row.id == pre.next_id
    }
    &&& post.pair_held(ident, role)
    &&& if pre.has_role(role) && pre.pair_held(ident, role) {
        post.node_roles@ == pre.node_roles@
    } else {
        exists|row: NodeRole|
            #![trigger pre.node_roles@.push(row)]
            post.node_roles@ == pre.node_roles@.push(row) && row.node_id == post.node_id_of(ident)
                && row.role_id == post.role_id_of(role)
    }
    &&& pre.next_id <= post.next_id <= pre.next_id + 2
}

/// What a successful revoke does: the role row exists afterwards (created
/// if absent — a grant need not have happened), no association row links the
/// node to it any more (one is removed if present), and nothing else
/// changes.
pub open spec fn revoke_ok(
    pre: Store,
    post: Store,
    ident: Seq<char>,
    role: Seq<char>,
    now: int,
) -> bool {
    &&& pre.has_node(ident)
    &&& post.nodes@ == pre.nodes@
    &&& post.has_role(role)
    &&& if pre.has_role(role) {
        post.roles@ == pre.roles@
    } else {
        exists|p: int, row: RoleRow|
            #![trigger pre.roles@.insert(p, row)]
            0 <= p <= pre.roles@.len() && post.roles@ == pre.roles@.insert(p, row) && row.role@
                == role && row.created == now && row.id == pre.next_id
    }
    &&& !post.pair_held(ident, role)
    &&& if pre.has_role(role) && pre.pair_held(ident, role) {
        exists|k: int|
            #![trigger pre.node_roles@.remove(k)]
            0 <= k < pre.node_roles@.len() && post.node_roles@ == pre.node_roles@.remove(k)
                && pre.node_roles@[k].node_id == pre.node_id_of(ident)
                && pre.node_roles@[k].role_id == pre.role_id_of(role)
    } else {
        post.node_roles@ == pre.node_roles@
    }
    &&& pre.next_id <= post.next_id <= pre.next_id + 1
}

/// What a successful node deletion does: exactly the row with the identity
/// goes away; roles and associations stay, orphaned or not.
pub open spec fn delete_node_ok(pre: Store, post: Store, ident: Seq<char>) -> bool {
    &&& pre.has_node(ident)
    &&& exists|i: int|
        #![trigger pre.nodes@.remove(i)]
        0 <= i < pre.nodes@.len() && pre.nodes@[i].node@ == ident && post.nodes@
            == pre.nodes@.remove(i)
    &&& post.roles@ == pre.roles@
    &&& post.node_roles@ == pre.node_roles@
    &&& post.next_id == pre.next_id
}

impl Arbiter {
    /// The store invariant, carried through every operation.
    pub open spec fn wf(self) -> bool {
        self.store.wf()
    }

    /// The trust decision, as a predicate over the state: bootstrap trust
    /// while the directory is empty and remote setup is on; otherwise a
    /// matching superadmin node row is required.
    pub open spec fn allowed(self, caller: Seq<char>) -> bool {
        (self.remote_setup && self.store.nodes@.len() == 0) || self.store.has_superadmin(caller)
    }

    /// An arbiter over the given store.
    pub fn new(store: Store, remote_setup: bool) -> (r: Arbiter)
        requires
            store.wf(),
        ensures
            r.wf(),
            r.store == store,
            r.remote_setup == remote_setup,
    {
        Arbiter { store, remote_setup }
    }

    /// The trust decision for a caller identity. Never fails; the `Result`
    /// mirrors the operation set, where every call can fail at the store.
    pub fn allow(&self, caller: &str) -> (r: Result<bool, Error>)
        requires
            self.wf(),
        ensures
            r matches Ok(b) && b == self.allowed(caller@),
    {
        if self.remote_setup && !self.store.node_any() {
            return Ok(true);
        }
        match self.store.node_find(caller) {
            Some(i) => {
                proof {
                    if !self.store.nodes@[i as int].superadmin {
                        assert forall|k: int|
                            0 <= k < self.store.nodes@.len() && #[trigger] self.store.nodes@[k].node@
                                == caller@ implies !self.store.nodes@[k].superadmin by {
                            lemma_node_index_unique(self.store, i as int, k);
                        }
                    }
                }
                Ok(self.store.nodes[i].superadmin)
            },
            None => Ok(false),
        }
    }

    /// All role names ever created, ordered lexicographically.
    pub fn roles(&self) -> (r: Result<Vec<String>, Error>)
        ensures
            r matches Ok(v) && v.deep_view() == self.store.role_names(),
    {
        Ok(self.store.roles_list())
    }

    /// All nodes, ordered lexicographically by identity.
    pub fn nodes(&self) -> (r: Result<Vec<Node>, Error>)
        ensures
            r matches Ok(v) && v.deep_view() == self.store.nodes_listing(),
    {
        Ok(self.store.nodes_list())
    }

    /// The roles held by the given node, ordered lexicographically; an
    /// unknown node yields the empty list, not an error.
    pub fn node_roles(&self, node: &str) -> (r: Result<Vec<String>, Error>)
        requires
            self.wf(),
        ensures
            r matches Ok(v) && v.deep_view() == self.store.node_roles_listing(node@),
    {
        Ok(self.store.node_roles_list(node))
    }

    /// Creates a node, stamped with the given creation time. Fails with a
    /// conflict when the name or the identity is taken, and at the store
    /// when the id space is exhausted.
    pub fn create_node(&mut self, name: &str, node: &str, superadmin: bool, now: i64) -> (r: Result<
        Node,
        Error,
    >)
        requires
            old(self).wf(),
        ensures
            final(self).wf(),
            final(self).remote_setup == old(self).remote_setup,
            match r {
                Ok(rec) => {
                    &&& insert_node_ok(
                        old(self).store,
                        final(self).store,
                        name@,
                        node@,
                        superadmin,
                        now as int,
                    )
                    &&& rec@ == (NodeV { name: name@, node: node@, superadmin })
                },
                Err(e) => final(self).store == old(self).store && ((e == Error::StorageError && !old(
                    self,
                ).store.ids_available()) || (e == Error::ConflictError && old(
                    self,
                ).store.ids_available() && (old(self).store.has_node(node@) || old(
                    self,
                ).store.has_name(name@)))),
            },
            r is Ok <==> old(self).store.ids_available() && !old(self).store.has_node(node@)
                && !old(self).store.has_name(name@),
    {
        match self.store.node_insert(name, node, superadmin, now) {
            Ok(()) => Ok(
                Node { name: name.to_owned(), node: node.to_owned(), superadmin },
            ),
            Err(e) => Err(e),
        }
    }

    /// Deletes the node with the given identity. Its role associations are
    /// deliberately left in place.
    pub fn delete_node(&mut self, node: &str) -> (r: Result<(), Error>)
        requires
            old(self).wf(),
        ensures
            final(self).wf(),
            final(self).remote_setup == old(self).remote_setup,
            match r {
                Ok(()) => delete_node_ok(old(self).store, final(self).store, node@),
                Err(e) => final(self).store == old(self).store && e == Error::NoSuchNodeError
                    && !old(self).store.has_node(node@),
            },
            r is Ok <==> old(self).store.has_node(node@),
    {
        let i = match self.store.node_find(node) {
            Some(i) => i,
            None => {
                return Err(Error::NoSuchNodeError);
            },
        };
        self.store.node_remove(i);
        Ok(())
    }

    /// Grants a role to the node with the given identity, creating the role
    /// row on first reference; granting the same pair again changes nothing.
    pub fn grant_role(&mut self, node: &str, role: &str, now: i64) -> (r: Result<(), Error>)
        requires
            old(self).wf(),
        ensures
            final(self).wf(),
            final(self).remote_setup == old(self).remote_setup,
            match r {
                Ok(()) => grant_ok(old(self).store, final(self).store, node@, role@, now as int),
                Err(e) => final(self).store == old(self).store && ((e == Error::NoSuchNodeError
                    && !old(self).store.has_node(node@)) || (e == Error::StorageError && old(
                    self,
                ).store.has_node(node@) && !old(self).store.ids_available())),
            },
            r is Ok <==> old(self).store.has_node(node@) && old(self).store.ids_available(),
    {
        let ghost pre = self.store;
        let i = match self.store.node_find(node) {
            Some(i) => i,
            None => {
                return Err(Error::NoSuchNodeError);
            },
        };
        if self.store.next_id > i64::MAX - 2 {
            return Err(Error::StorageError);
        }
        let nid = self.store.nodes[i].id;
        let j = self.store.role_ensure(role, now);
        let ghost mid = self.store;
        let rid = self.store.roles[j].id;
        proof {
            if pre.has_role(role@) {
                let j0 = choose|j0: int|
                    0 <= j0 < pre.roles@.len() && #[trigger] pre.roles@[j0].role@ == role@;
                lemma_role_index_unique_external(mid, j as int, j0);
                lemma_pair_held_iff(pre, i as int, j0);
            } else {
                assert(rid == pre.next_id);
                assert(!has_assoc(pre.node_roles@, nid as int, rid as int));
            }
        }
        self.store.assoc_ensure(nid, rid);
        proof {
            let post = self.store;
            lemma_node_id_of(post, i as int);
            lemma_role_id_of(post, j as int);
            lemma_pair_held_iff(post, i as int, j as int);
            assert(post.pair_held(node@, role@));
        }
        Ok(())
    }

    /// Revokes a role from the node with the given identity. The role row
    /// is created if it never existed; revoking an absent association is a
    /// silent no-op.
    pub fn revoke_role(&mut self, node: &str, role: &str, now: i64) -> (r: Result<(), Error>)
        requires
            old(self).wf(),
        ensures
            final(self).wf(),
            final(self).remote_setup == old(self).remote_setup,
            match r {
                Ok(()) => revoke_ok(old(self).store, final(self).store, node@, role@, now as int),
                Err(e) => final(self).store == old(self).store && ((e == Error::NoSuchNodeError
                    && !old(self).store.has_node(node@)) || (e == Error::StorageError && old(
                    self,
                ).store.has_node(node@) && !old(self).store.ids_available())),
            },
            r is Ok <==> old(self).store.has_node(node@) && old(self).store.ids_available(),
    {
        let ghost pre = self.store;
        let i = match self.store.node_find(node) {
            Some(i) => i,
            None => {
                return Err(Error::NoSuchNodeError);
            },
        };
        if self.store.next_id > i64::MAX - 2 {
            return Err(Error::StorageError);
        }
        let nid = self.store.nodes[i].id;
        let j = self.store.role_ensure(role, now);
        let ghost mid = self.store;
        let rid = self.store.roles[j].id;
        proof {
            lemma_node_id_of(pre, i as int);
            if pre.has_role(role@) {
                let j0 = choose|j0: int|
                    0 <= j0 < pre.roles@.len() && #[trigger] pre.roles@[j0].role@ == role@;
                lemma_role_index_unique_external(mid, j as int, j0);
                lemma_role_id_of(pre, j0);
                lemma_pair_held_iff(pre, i as int, j0);
            } else {
                assert(rid == pre.next_id);
                assert(!has_assoc(pre.node_roles@, nid as int, rid as int));
            }
        }
        match self.store.assoc_find(nid, rid) {
            Some(k) => {
                self.store.assoc_remove(k);
            },
            None => {},
        }
        proof {
            let post = self.store;
            lemma_node_id_of(post, i as int);
            lemma_role_id_of(post, j as int);
            lemma_pair_held_iff(post, i as int, j as int);
            if has_assoc(post.node_roles@, nid as int, rid as int) {
                let k2 = choose|k2: int|
                    0 <= k2 < post.node_roles@.len() && #[trigger] post.node_roles@[k2].node_id
                        == nid as int && post.node_roles@[k2].role_id == rid as int;
                assert(false);
            }
            assert(!post.pair_held(node@, role@));
        }
        Ok(())
    }
}

/// Role-name uniqueness, restated for rows of two store values that share
/// the role relation.
proof fn lemma_role_index_unique_external(s: Store, i: int, j: int)
    requires
        s.wf(),
        0 <= i < s.roles@.len(),
        0 <= j < s.roles@.len(),
        s.roles@[i].role@ == s.roles@[j].role@,
    ensures
        i == j,
{
    crate::store::lemma_role_index_unique(s, i, j);
}

} // verus!
