//! The directory store: three relations — nodes, roles, and node-role
//! associations — held with the same uniqueness guarantees the persistent
//! schema enforces (unique node name and identity, unique role name, at most
//! one association per pair), and kept ordered so that listings come out
//! lexicographically.
//!
//! Deleting a node deliberately does not cascade into the association
//! relation: associations of a deleted node stay behind, exactly as the
//! schema leaves them.

use vstd::prelude::*;

use crate::common::NodeV;
use crate::error::Error;
use crate::order::{lemma_str_lt_transitive, lemma_str_lt_trichotomy, str_eq_exec, str_lt, str_lt_exec};

verus! {

/// One row of the node relation.
pub struct NodeRow {
    pub id: i64,
    pub name: String,
    pub node: String,
    pub superadmin: bool,
    pub created: i64,
}

/// One row of the role relation.
pub struct RoleRow {
    pub id: i64,
    pub role: String,
    pub created: i64,
}

/// One row of the association relation.
pub struct NodeRole {
    pub id: i64,
    pub node_id: i64,
    pub role_id: i64,
}

/// A row count, as a counting query reports it.
pub struct Count {
    pub count: i64,
}

/// The three relations and the row-id allocator.
pub struct Store {
    pub nodes: Vec<NodeRow>,
    pub roles: Vec<RoleRow>,
    pub node_roles: Vec<NodeRole>,
    pub next_id: i64,
}

/// There is an association row linking the given node and role ids.
pub open spec fn has_assoc(assocs: Seq<NodeRole>, node_id: int, role_id: int) -> bool {
    exists|k: int|
        0 <= k < assocs.len() && #[trigger] assocs[k].node_id == node_id && assocs[k].role_id
            == role_id
}

impl Store {
    /// The node relation is strictly sorted by identity, and names and ids
    /// are unique.
    pub open spec fn nodes_wf(self) -> bool {
        &&& self.nodes@.len() < self.next_id
        &&& forall|i: int, j: int|
            0 <= i < j < self.nodes@.len() ==> str_lt(
                #[trigger] self.nodes@[i].node@,
                #[trigger] self.nodes@[j].node@,
            )
        &&& forall|i: int, j: int|
            0 <= i < j < self.nodes@.len() ==> #[trigger] self.nodes@[i].name@ != #[trigger] self.nodes@[j].name@
        &&& forall|i: int, j: int|
            0 <= i < j < self.nodes@.len() ==> #[trigger] self.nodes@[i].id != #[trigger] self.nodes@[j].id
        &&& forall|i: int| 0 <= i < self.nodes@.len() ==> 1 <= #[trigger] self.nodes@[i].id < self.next_id
    }

    /// The role relation is strictly sorted by name, and ids are unique.
    pub open spec fn roles_wf(self) -> bool {
        &&& self.roles@.len() < self.next_id
        &&& forall|i: int, j: int|
            0 <= i < j < self.roles@.len() ==> str_lt(
                #[trigger] self.roles@[i].role@,
                #[trigger] self.roles@[j].role@,
            )
        &&& forall|i: int, j: int|
            0 <= i < j < self.roles@.len() ==> #[trigger] self.roles@[i].id != #[trigger] self.roles@[j].id
        &&& forall|i: int| 0 <= i < self.roles@.len() ==> 1 <= #[trigger] self.roles@[i].id < self.next_id
    }

    /// The association relation holds at most one row per (node, role) pair,
    /// and ids are unique.
    pub open spec fn assocs_wf(self) -> bool {
        &&& self.node_roles@.len() < self.next_id
        &&& forall|i: int, j: int|
            0 <= i < j < self.node_roles@.len() ==> #[trigger] self.node_roles@[i].id
                != #[trigger] self.node_roles@[j].id
        &&& forall|i: int, j: int|
            0 <= i < j < self.node_roles@.len() ==> !(#[trigger] self.node_roles@[i].node_id
                == #[trigger] self.node_roles@[j].node_id && self.node_roles@[i].role_id
                == self.node_roles@[j].role_id)
        &&& forall|i: int|
            0 <= i < self.node_roles@.len() ==> 1 <= #[trigger] self.node_roles@[i].id
                < self.next_id
        &&& forall|i: int|
            0 <= i < self.node_roles@.len() ==> 1 <= #[trigger] self.node_roles@[i].node_id
                < self.next_id && 1 <= self.node_roles@[i].role_id < self.next_id
    }

    /// Well-formedness of the whole store.
    pub open spec fn wf(self) -> bool {
        &&& 1 <= self.next_id
        &&& self.nodes_wf()
        &&& self.roles_wf()
        &&& self.assocs_wf()
    }

    /// A node row with the given identity exists.
    pub open spec fn has_node(self, ident: Seq<char>) -> bool {
        exists|i: int| 0 <= i < self.nodes@.len() && #[trigger] self.nodes@[i].node@ == ident
    }

    /// A node row with the given display name exists.
    pub open spec fn has_name(self, name: Seq<char>) -> bool {
        exists|i: int| 0 <= i < self.nodes@.len() && #[trigger] self.nodes@[i].name@ == name
    }

    /// A role row with the given name exists.
    pub open spec fn has_role(self, role: Seq<char>) -> bool {
        exists|i: int| 0 <= i < self.roles@.len() && #[trigger] self.roles@[i].role@ == role
    }

    /// A node row with the given identity and a true superadmin flag exists.
    pub open spec fn has_superadmin(self, ident: Seq<char>) -> bool {
        exists|i: int|
            0 <= i < self.nodes@.len() && #[trigger] self.nodes@[i].node@ == ident
                && self.nodes@[i].superadmin
    }

    /// The node with the given identity currently holds the given role: some
    /// association row links their current rows.
    pub open spec fn pair_held(self, ident: Seq<char>, role: Seq<char>) -> bool {
        exists|i: int, j: int|
            #![trigger self.nodes@[i], self.roles@[j]]
            0 <= i < self.nodes@.len() && 0 <= j < self.roles@.len() && self.nodes@[i].node@
                == ident && self.roles@[j].role@ == role && has_assoc(
                self.node_roles@,
                self.nodes@[i].id as int,
                self.roles@[j].id as int,
            )
    }

    /// Room to allocate the ids one operation may need.
    pub open spec fn ids_available(self) -> bool {
        self.next_id <= i64::MAX - 2
    }

    /// An empty directory.
    pub fn new() -> (r: Store)
        ensures
            r.wf(),
            r.nodes@.len() == 0,
            r.roles@.len() == 0,
            r.node_roles@.len() == 0,
            r.next_id == 1,
    {
        Store { nodes: Vec::new(), roles: Vec::new(), node_roles: Vec::new(), next_id: 1 }
    }

    /// Index of the node row with the given identity, if any.
    pub fn node_find(&self, node: &str) -> (r: Option<usize>)
        ensures
            match r {
                Some(i) => i < self.nodes@.len() && self.nodes@[i as int].node@ == node@,
                None => !self.has_node(node@),
            },
    {
        let mut i: usize = 0;
        while i < self.nodes.len()
            invariant
                i <= self.nodes@.len(),
                forall|k: int| 0 <= k < i ==> #[trigger] self.nodes@[k].node@ != node@,
            decreases self.nodes@.len() - i,
        {
            if str_eq_exec(self.nodes[i].node.as_str(), node) {
                return Some(i);
            }
            i = i + 1;
        }
        None
    }

    /// Index of the node row with the given display name, if any.
    pub fn name_find(&self, name: &str) -> (r: Option<usize>)
        ensures
            match r {
                Some(i) => i < self.nodes@.len() && self.nodes@[i as int].name@ == name@,
                None => !self.has_name(name@),
            },
    {
        let mut i: usize = 0;
        while i < self.nodes.len()
            invariant
                i <= self.nodes@.len(),
                forall|k: int| 0 <= k < i ==> #[trigger] self.nodes@[k].name@ != name@,
            decreases self.nodes@.len() - i,
        {
            if str_eq_exec(self.nodes[i].name.as_str(), name) {
                return Some(i);
            }
            i = i + 1;
        }
        None
    }

    /// Index of the role row with the given name, if any.
    pub fn role_find(&self, role: &str) -> (r: Option<usize>)
        ensures
            match r {
                Some(i) => i < self.roles@.len() && self.roles@[i as int].role@ == role@,
                None => !self.has_role(role@),
            },
    {
        let mut i: usize = 0;
        while i < self.roles.len()
            invariant
                i <= self.roles@.len(),
                forall|k: int| 0 <= k < i ==> #[trigger] self.roles@[k].role@ != role@,
            decreases self.roles@.len() - i,
        {
            if str_eq_exec(self.roles[i].role.as_str(), role) {
                return Some(i);
            }
            i = i + 1;
        }
        None
    }

    /// Index of the association row linking the given ids, if any.
    pub fn assoc_find(&self, node_id: i64, role_id: i64) -> (r: Option<usize>)
        ensures
            match r {
                Some(k) => k < self.node_roles@.len() && self.node_roles@[k as int].node_id
                    == node_id && self.node_roles@[k as int].role_id == role_id,
                None => !has_assoc(self.node_roles@, node_id as int, role_id as int),
            },
    {
        let mut k: usize = 0;
        while k < self.node_roles.len()
            invariant
                k <= self.node_roles@.len(),
                forall|m: int|
                    0 <= m < k ==> !(#[trigger] self.node_roles@[m].node_id == node_id
                        && self.node_roles@[m].role_id == role_id),
            decreases self.node_roles@.len() - k,
        {
            if self.node_roles[k].node_id == node_id && self.node_roles[k].role_id == role_id {
                return Some(k);
            }
            k = k + 1;
        }
        None
    }

    /// Whether any node row exists at all: the Established test.
    pub fn node_any(&self) -> (r: bool)
        requires
            self.wf(),
        ensures
            r == (self.nodes@.len() > 0),
    {
        self.node_count().count > 0
    }

    /// How many node rows exist.
    pub fn node_count(&self) -> (r: Count)
        requires
            self.wf(),
        ensures
            r.count == self.nodes@.len(),
    {
        Count { count: self.nodes.len() as i64 }
    }
}


/// What a successful node insert does: one new row with the requested
/// fields and a fresh id, everything else untouched.
pub open spec fn insert_node_ok(
    pre: Store,
    post: Store,
    name: Seq<char>,
    ident: Seq<char>,
    superadmin: bool,
    created: int,
) -> bool {
    &&& !pre.has_node(ident)
    &&& !pre.has_name(name)
    &&& exists|p: int, row: NodeRow|
        #![trigger pre.nodes@.insert(p, row)]
        0 <= p <= pre.nodes@.len() && post.nodes@ == pre.nodes@.insert(p, row) && row.name@ == name
            && row.node@ == ident && row.superadmin == superadmin && row.created == created
            && row.id == pre.next_id
    &&& post.roles@ == pre.roles@
    &&& post.node_roles@ == pre.node_roles@
    &&& post.next_id == pre.next_id + 1
}

/// What ensuring a role does: nothing if the role exists, else one new row
/// with a fresh id; nodes and associations untouched.
pub open spec fn ensure_role_ok(pre: Store, post: Store, role: Seq<char>, created: int) -> bool {
    &&& if pre.has_role(role) {
        post.roles@ == pre.roles@ && post.next_id == pre.next_id
    } else {
        &&& exists|p: int, row: RoleRow|
            #![trigger pre.roles@.insert(p, row)]
            0 <= p <= pre.roles@.len() && post.roles@ == pre.roles@.insert(p, row) && row.role@
                == role && row.created == created && row.id == pre.next_id
        &&& post.next_id == pre.next_id + 1
    }
    &&& post.has_role(role)
    &&& post.nodes@ == pre.nodes@
    &&& post.node_roles@ == pre.node_roles@
}

impl Store {
    /// Inserts a node row, keeping the relation sorted by identity.
    /// Fails with a conflict when the identity or the name is taken.
    pub fn node_insert(&mut self, name: &str, node: &str, superadmin: bool, created: i64) -> (r:
        Result<(), Error>)
        requires
            old(self).wf(),
        ensures
            final(self).wf(),
            match r {
                Ok(()) => insert_node_ok(
                    *old(self),
                    *final(self),
                    name@,
                    node@,
                    superadmin,
                    created as int,
                ),
                Err(e) => *final(self) == *old(self) && ((e == Error::StorageError && !old(
                    self,
                ).ids_available()) || (e == Error::ConflictError && old(self).ids_available() && (
                old(self).has_node(node@) || old(self).has_name(name@)))),
            },
            r is Ok <==> old(self).ids_available() && !old(self).has_node(node@) && !old(
                self,
            ).has_name(name@),
    {
        if self.next_id > i64::MAX - 2 {
            return Err(Error::StorageError);
        }
        match self.node_find(node) {
            Some(_) => {
                return Err(Error::ConflictError);
            },
            None => {},
        }
        match self.name_find(name) {
            Some(_) => {
                return Err(Error::ConflictError);
            },
            None => {},
        }
        let mut p: usize = 0;
        loop
            invariant
                self.wf(),
                !self.has_node(node@),
                p <= self.nodes@.len(),
                forall|k: int| 0 <= k < p ==> str_lt(#[trigger] self.nodes@[k].node@, node@),
            ensures
                p <= self.nodes@.len(),
                forall|k: int| 0 <= k < p ==> str_lt(#[trigger] self.nodes@[k].node@, node@),
                forall|k: int|
                    p <= k < self.nodes@.len() ==> str_lt(node@, #[trigger] self.nodes@[k].node@),
            decreases self.nodes@.len() - p,
        {
            if p == self.nodes.len() {
                break;
            }
            if str_lt_exec(node, self.nodes[p].node.as_str()) {
                proof {
                    assert forall|k: int|
                        p <= k < self.nodes@.len() implies str_lt(
                        node@,
                        #[trigger] self.nodes@[k].node@,
                    ) by {
                        if k > p {
                            lemma_str_lt_transitive(
                                node@,
                                self.nodes@[p as int].node@,
                                self.nodes@[k].node@,
                            );
                        }
                    }
                }
                break;
            }
            proof {
                lemma_str_lt_trichotomy(node@, self.nodes@[p as int].node@);
                assert(self.nodes@[p as int].node@ != node@);
            }
            p = p + 1;
        }
        let row = NodeRow {
            id: self.next_id,
            name: name.to_owned(),
            node: node.to_owned(),
            superadmin,
            created,
        };
        let ghost pre = *self;
        let ghost grow = row;
        self.nodes.insert(p, row);
        self.next_id = self.next_id + 1;
        proof {
            let post = self.nodes@;
            assert(post == pre.nodes@.insert(p as int, grow));
            assert forall|i: int, j: int| 0 <= i < j < post.len() implies str_lt(
                #[trigger] post[i].node@,
                #[trigger] post[j].node@,
            ) by {
                if j < p {
                    assert(post[i] == pre.nodes@[i] && post[j] == pre.nodes@[j]);
                } else if i > p {
                    assert(post[i] == pre.nodes@[i - 1] && post[j] == pre.nodes@[j - 1]);
                } else if i < p && j == p {
                    assert(post[i] == pre.nodes@[i] && post[j] == grow);
                } else if i == p {
                    assert(post[i] == grow && post[j] == pre.nodes@[j - 1]);
                } else {
                    assert(i < p && j > p);
                    assert(post[i] == pre.nodes@[i] && post[j] == pre.nodes@[j - 1]);
                    lemma_str_lt_transitive(pre.nodes@[i].node@, node@, pre.nodes@[j - 1].node@);
                }
            }
            assert forall|i: int, j: int| 0 <= i < j < post.len() implies #[trigger] post[i].name@
                != #[trigger] post[j].name@ by {
                assert(forall|k: int|
                    0 <= k < pre.nodes@.len() ==> #[trigger] pre.nodes@[k].name@ != name@);
            }
            assert forall|i: int, j: int| 0 <= i < j < post.len() implies #[trigger] post[i].id
                != #[trigger] post[j].id by {}
            assert(self.wf());
        }
        Ok(())
    }

    /// Removes the node row at the given index. Associations are left as
    /// they are.
    pub fn node_remove(&mut self, i: usize)
        requires
            old(self).wf(),
            i < old(self).nodes@.len(),
        ensures
            final(self).wf(),
            final(self).nodes@ == old(self).nodes@.remove(i as int),
            final(self).roles@ == old(self).roles@,
            final(self).node_roles@ == old(self).node_roles@,
            final(self).next_id == old(self).next_id,
    {
        let ghost pre = *self;
        self.nodes.remove(i);
        proof {
            let post = self.nodes@;
            assert forall|a: int, b: int| 0 <= a < b < post.len() implies str_lt(
                #[trigger] post[a].node@,
                #[trigger] post[b].node@,
            ) by {
                let a0: int = if a < i { a } else { a + 1 };
                let b0: int = if b < i { b } else { b + 1 };
                assert(post[a] == pre.nodes@[a0] && post[b] == pre.nodes@[b0]);
            }
            assert forall|a: int, b: int| 0 <= a < b < post.len() implies #[trigger] post[a].name@
                != #[trigger] post[b].name@ by {
                let a0: int = if a < i { a } else { a + 1 };
                let b0: int = if b < i { b } else { b + 1 };
                assert(post[a] == pre.nodes@[a0] && post[b] == pre.nodes@[b0]);
            }
            assert forall|a: int, b: int| 0 <= a < b < post.len() implies #[trigger] post[a].id
                != #[trigger] post[b].id by {
                let a0: int = if a < i { a } else { a + 1 };
                let b0: int = if b < i { b } else { b + 1 };
                assert(post[a] == pre.nodes@[a0] && post[b] == pre.nodes@[b0]);
            }
            assert forall|a: int| 0 <= a < post.len() implies 1 <= #[trigger] post[a].id
                < self.next_id by {
                let a0: int = if a < i { a } else { a + 1 };
                assert(post[a] == pre.nodes@[a0]);
            }
            assert(self.wf());
        }
    }

    /// Inserts a role row, keeping the relation sorted by name.
    fn role_insert(&mut self, role: &str, created: i64) -> (r: usize)
        requires
            old(self).wf(),
            !old(self).has_role(role@),
            old(self).next_id < i64::MAX,
        ensures
            final(self).wf(),
            r <= old(self).roles@.len(),
            exists|row: RoleRow|
                #![trigger old(self).roles@.insert(r as int, row)]
                final(self).roles@ == old(self).roles@.insert(r as int, row) && row.role@ == role@
                    && row.created == created && row.id == old(self).next_id,
            final(self).roles@[r as int].role@ == role@,
            final(self).nodes@ == old(self).nodes@,
            final(self).node_roles@ == old(self).node_roles@,
            final(self).next_id == old(self).next_id + 1,
    {
        let mut p: usize = 0;
        loop
            invariant
                self.wf(),
                !self.has_role(role@),
                p <= self.roles@.len(),
                forall|k: int| 0 <= k < p ==> str_lt(#[trigger] self.roles@[k].role@, role@),
            ensures
                p <= self.roles@.len(),
                forall|k: int| 0 <= k < p ==> str_lt(#[trigger] self.roles@[k].role@, role@),
                forall|k: int|
                    p <= k < self.roles@.len() ==> str_lt(role@, #[trigger] self.roles@[k].role@),
            decreases self.roles@.len() - p,
        {
            if p == self.roles.len() {
                break;
            }
            if str_lt_exec(role, self.roles[p].role.as_str()) {
                proof {
                    assert forall|k: int|
                        p <= k < self.roles@.len() implies str_lt(
                        role@,
                        #[trigger] self.roles@[k].role@,
                    ) by {
                        if k > p {
                            lemma_str_lt_transitive(
                                role@,
                                self.roles@[p as int].role@,
                                self.roles@[k].role@,
                            );
                        }
                    }
                }
                break;
            }
            proof {
                lemma_str_lt_trichotomy(role@, self.roles@[p as int].role@);
                assert(self.roles@[p as int].role@ != role@);
            }
            p = p + 1;
        }
        let row = RoleRow { id: self.next_id, role: role.to_owned(), created };
        let ghost pre = *self;
        let ghost grow = row;
        self.roles.insert(p, row);
        self.next_id = self.next_id + 1;
        proof {
            let post = self.roles@;
            assert(post == pre.roles@.insert(p as int, grow));
            assert forall|i: int, j: int| 0 <= i < j < post.len() implies str_lt(
                #[trigger] post[i].role@,
                #[trigger] post[j].role@,
            ) by {
                if j < p {
                    assert(post[i] == pre.roles@[i] && post[j] == pre.roles@[j]);
                } else if i > p {
                    assert(post[i] == pre.roles@[i - 1] && post[j] == pre.roles@[j - 1]);
                } else if i < p && j == p {
                    assert(post[i] == pre.roles@[i] && post[j] == grow);
                } else if i == p {
                    assert(post[i] == grow && post[j] == pre.roles@[j - 1]);
                } else {
                    assert(i < p && j > p);
                    assert(post[i] == pre.roles@[i] && post[j] == pre.roles@[j - 1]);
                    lemma_str_lt_transitive(pre.roles@[i].role@, role@, pre.roles@[j - 1].role@);
                }
            }
            assert forall|i: int, j: int| 0 <= i < j < post.len() implies #[trigger] post[i].id
                != #[trigger] post[j].id by {}
            assert(self.wf());
        }
        p
    }

    /// Finds the role row with the given name, creating it if it is absent;
    /// returns its index either way.
    pub fn role_ensure(&mut self, role: &str, created: i64) -> (r: usize)
        requires
            old(self).wf(),
            old(self).next_id < i64::MAX,
        ensures
            final(self).wf(),
            ensure_role_ok(*old(self), *final(self), role@, created as int),
            r < final(self).roles@.len(),
            final(self).roles@[r as int].role@ == role@,
            final(self).next_id <= old(self).next_id + 1,
    {
        match self.role_find(role) {
            Some(j) => j,
            None => self.role_insert(role, created),
        }
    }

    /// Appends an association row linking the given ids; the pair must be
    /// new and the ids must come from current rows.
    fn assoc_insert(&mut self, node_id: i64, role_id: i64) -> (r: ())
        requires
            old(self).wf(),
            old(self).next_id < i64::MAX,
            1 <= node_id < old(self).next_id,
            1 <= role_id < old(self).next_id,
            !has_assoc(old(self).node_roles@, node_id as int, role_id as int),
        ensures
            final(self).wf(),
            exists|row: NodeRole|
                #![trigger old(self).node_roles@.push(row)]
                final(self).node_roles@ == old(self).node_roles@.push(row) && row.node_id == node_id
                    && row.role_id == role_id && row.id == old(self).next_id,
            has_assoc(final(self).node_roles@, node_id as int, role_id as int),
            final(self).nodes@ == old(self).nodes@,
            final(self).roles@ == old(self).roles@,
            final(self).next_id == old(self).next_id + 1,
    {
        let row = NodeRole { id: self.next_id, node_id, role_id };
        let ghost pre = *self;
        let ghost grow = row;
        self.node_roles.push(row);
        self.next_id = self.next_id + 1;
        proof {
            let post = self.node_roles@;
            assert(post == pre.node_roles@.push(grow));
            assert(post[post.len() - 1] == grow);
            assert(has_assoc(post, node_id as int, role_id as int)) by {
                assert(post[post.len() - 1].node_id == node_id && post[post.len() - 1].role_id
                    == role_id);
            }
            assert forall|i: int, j: int| 0 <= i < j < post.len() implies #[trigger] post[i].id
                != #[trigger] post[j].id by {}
            assert forall|i: int, j: int|
                0 <= i < j < post.len() implies !(#[trigger] post[i].node_id
                == #[trigger] post[j].node_id && post[i].role_id == post[j].role_id) by {
                if j == post.len() - 1 {
                    assert(post[i] == pre.node_roles@[i]);
                }
            }
            assert(self.wf());
        }
    }

    /// Ensures an association row linking the given ids exists; a second
    /// grant of the same pair changes nothing.
    pub fn assoc_ensure(&mut self, node_id: i64, role_id: i64)
        requires
            old(self).wf(),
            old(self).next_id < i64::MAX,
            1 <= node_id < old(self).next_id,
            1 <= role_id < old(self).next_id,
        ensures
            final(self).wf(),
            final(self).nodes@ == old(self).nodes@,
            final(self).roles@ == old(self).roles@,
            has_assoc(final(self).node_roles@, node_id as int, role_id as int),
            if has_assoc(old(self).node_roles@, node_id as int, role_id as int) {
                final(self).node_roles@ == old(self).node_roles@ && final(self).next_id == old(
                    self,
                ).next_id
            } else {
                &&& exists|row: NodeRole|
                    #![trigger old(self).node_roles@.push(row)]
                    final(self).node_roles@ == old(self).node_roles@.push(row) && row.node_id
                        == node_id && row.role_id == role_id && row.id == old(self).next_id
                &&& final(self).next_id == old(self).next_id + 1
            },
    {
        match self.assoc_find(node_id, role_id) {
            Some(_) => {},
            None => {
                self.assoc_insert(node_id, role_id);
            },
        }
    }

    /// Removes the association row at the given index.
    pub fn assoc_remove(&mut self, k: usize)
        requires
            old(self).wf(),
            k < old(self).node_roles@.len(),
        ensures
            final(self).wf(),
            final(self).node_roles@ == old(self).node_roles@.remove(k as int),
            final(self).nodes@ == old(self).nodes@,
            final(self).roles@ == old(self).roles@,
            final(self).next_id == old(self).next_id,
    {
        let ghost pre = *self;
        self.node_roles.remove(k);
        proof {
            let post = self.node_roles@;
            assert forall|a: int, b: int|
                0 <= a < b < post.len() implies #[trigger] post[a].id != #[trigger] post[b].id by {
                let a0: int = if a < k { a } else { a + 1 };
                let b0: int = if b < k { b } else { b + 1 };
                assert(post[a] == pre.node_roles@[a0] && post[b] == pre.node_roles@[b0]);
            }
            assert forall|a: int, b: int|
                0 <= a < b < post.len() implies !(#[trigger] post[a].node_id
                == #[trigger] post[b].node_id && post[a].role_id == post[b].role_id) by {
                let a0: int = if a < k { a } else { a + 1 };
                let b0: int = if b < k { b } else { b + 1 };
                assert(post[a] == pre.node_roles@[a0] && post[b] == pre.node_roles@[b0]);
            }
            assert forall|a: int| 0 <= a < post.len() implies 1 <= #[trigger] post[a].id
                < self.next_id by {
                let a0: int = if a < k { a } else { a + 1 };
                assert(post[a] == pre.node_roles@[a0]);
            }
            assert(self.wf());
        }
    }
}


impl Store {
    /// The global role listing: every role name, in the relation's
    /// lexicographic order.
    pub open spec fn role_names(self) -> Seq<Seq<char>> {
        self.roles@.map_values(|r: RoleRow| r.role@)
    }

    /// The global node listing: every node as a wire record, in the
    /// relation's order by identity.
    pub open spec fn nodes_listing(self) -> Seq<NodeV> {
        self.nodes@.map_values(
            |n: NodeRow| NodeV { name: n.name@, node: n.node@, superadmin: n.superadmin },
        )
    }

    /// The id of the node row with the given identity.
    pub open spec fn node_id_of(self, ident: Seq<char>) -> int {
        let i = choose|i: int| 0 <= i < self.nodes@.len() && self.nodes@[i].node@ == ident;
        self.nodes@[i].id as int
    }

    /// The names of the roles from index `j` on that the node with id `nid`
    /// holds, in the relation's order.
    pub open spec fn held_names_from(self, nid: int, j: int) -> Seq<Seq<char>>
        decreases self.roles@.len() - j,
    {
        if j < 0 || j >= self.roles@.len() {
            Seq::empty()
        } else if has_assoc(self.node_roles@, nid, self.roles@[j].id as int) {
            seq![self.roles@[j].role@] + self.held_names_from(nid, j + 1)
        } else {
            self.held_names_from(nid, j + 1)
        }
    }

    /// The roles held by the node with the given identity, in lexicographic
    /// order; empty when the node is unknown.
    pub open spec fn node_roles_listing(self, ident: Seq<char>) -> Seq<Seq<char>> {
        if self.has_node(ident) {
            self.held_names_from(self.node_id_of(ident), 0)
        } else {
            Seq::empty()
        }
    }

    /// All role names, in order.
    pub fn roles_list(&self) -> (r: Vec<String>)
        ensures
            r.deep_view() == self.role_names(),
    {
        let mut out: Vec<String> = Vec::new();
        let mut j: usize = 0;
        while j < self.roles.len()
            invariant
                j <= self.roles@.len(),
                out.deep_view() == self.role_names().take(j as int),
            decreases self.roles@.len() - j,
        {
            let ghost pre = out.deep_view();
            out.push(self.roles[j].role.clone());
            proof {
                assert(out.deep_view() =~= pre.push(self.roles@[j as int].role@));
                assert(self.role_names().take(j as int + 1) =~= pre.push(
                    self.roles@[j as int].role@,
                ));
            }
            j = j + 1;
        }
        proof {
            assert(self.role_names().take(self.roles@.len() as int) =~= self.role_names());
        }
        out
    }

    /// All nodes as wire records, in order.
    pub fn nodes_list(&self) -> (r: Vec<crate::common::Node>)
        ensures
            r.deep_view() == self.nodes_listing(),
    {
        let mut out: Vec<crate::common::Node> = Vec::new();
        let mut j: usize = 0;
        while j < self.nodes.len()
            invariant
                j <= self.nodes@.len(),
                out.deep_view() == self.nodes_listing().take(j as int),
            decreases self.nodes@.len() - j,
        {
            let ghost pre = out.deep_view();
            let row = &self.nodes[j];
            let rec = crate::common::Node {
                name: row.name.clone(),
                node: row.node.clone(),
                superadmin: row.superadmin,
            };
            out.push(rec);
            proof {
                assert(out.deep_view() =~= pre.push(self.nodes_listing()[j as int]));
                assert(self.nodes_listing().take(j as int + 1) =~= pre.push(
                    self.nodes_listing()[j as int],
                ));
            }
            j = j + 1;
        }
        proof {
            assert(self.nodes_listing().take(self.nodes@.len() as int) =~= self.nodes_listing());
        }
        out
    }

    /// The roles held by the given node, in order; empty when the node is
    /// unknown.
    pub fn node_roles_list(&self, node: &str) -> (r: Vec<String>)
        requires
            self.wf(),
        ensures
            r.deep_view() == self.node_roles_listing(node@),
    {
        let i = match self.node_find(node) {
            Some(i) => i,
            None => {
                let out: Vec<String> = Vec::new();
                proof {
                    assert(out.deep_view() =~= Seq::<Seq<char>>::empty());
                }
                return out;
            },
        };
        let nid = self.nodes[i].id;
        proof {
            lemma_node_id_of(*self, i as int);
            assert(self.node_id_of(node@) == nid as int);
        }
        let mut out: Vec<String> = Vec::new();
        let mut j: usize = 0;
        while j < self.roles.len()
            invariant
                self.wf(),
                j <= self.roles@.len(),
                out.deep_view() + self.held_names_from(nid as int, j as int)
                    == self.held_names_from(nid as int, 0),
            decreases self.roles@.len() - j,
        {
            let ghost pre = out.deep_view();
            match self.assoc_find(nid, self.roles[j].id) {
                Some(_) => {
                    out.push(self.roles[j].role.clone());
                    proof {
                        assert(out.deep_view() =~= pre.push(self.roles@[j as int].role@));
                        assert(self.held_names_from(nid as int, j as int) == seq![
                            self.roles@[j as int].role@,
                        ] + self.held_names_from(nid as int, j as int + 1));
                        assert(out.deep_view() + self.held_names_from(nid as int, j as int + 1)
                            =~= pre + self.held_names_from(nid as int, j as int));
                    }
                },
                None => {
                    proof {
                        assert(self.held_names_from(nid as int, j as int) == self.held_names_from(
                            nid as int,
                            j as int + 1,
                        ));
                    }
                },
            }
            j = j + 1;
        }
        proof {
            assert(self.held_names_from(nid as int, self.roles@.len() as int)
                =~= Seq::<Seq<char>>::empty());
            assert(out.deep_view() + Seq::<Seq<char>>::empty() =~= out.deep_view());
        }
        out
    }
}

/// The identity of a node row determines its index: identities are unique
/// in a well-formed store.
pub proof fn lemma_node_index_unique(s: Store, i: int, j: int)
    requires
        s.wf(),
        0 <= i < s.nodes@.len(),
        0 <= j < s.nodes@.len(),
        s.nodes@[i].node@ == s.nodes@[j].node@,
    ensures
        i == j,
{
    if i < j {
        assert(str_lt(s.nodes@[i].node@, s.nodes@[j].node@));
    } else if j < i {
        assert(str_lt(s.nodes@[j].node@, s.nodes@[i].node@));
    }
}

/// `node_id_of` agrees with any row that carries the identity.
pub proof fn lemma_node_id_of(s: Store, i: int)
    requires
        s.wf(),
        0 <= i < s.nodes@.len(),
    ensures
        s.node_id_of(s.nodes@[i].node@) == s.nodes@[i].id,
{
    let ident = s.nodes@[i].node@;
    assert(0 <= i < s.nodes@.len() && s.nodes@[i].node@ == ident);
    let k = choose|k: int| 0 <= k < s.nodes@.len() && s.nodes@[k].node@ == ident;
    lemma_node_index_unique(s, i, k);
}


impl Store {
    /// The id of the role row with the given name.
    pub open spec fn role_id_of(self, role: Seq<char>) -> int {
        let j = choose|j: int| 0 <= j < self.roles@.len() && self.roles@[j].role@ == role;
        self.roles@[j].id as int
    }
}

/// The name of a role row determines its index: names are unique in a
/// well-formed store.
pub proof fn lemma_role_index_unique(s: Store, i: int, j: int)
    requires
        s.wf(),
        0 <= i < s.roles@.len(),
        0 <= j < s.roles@.len(),
        s.roles@[i].role@ == s.roles@[j].role@,
    ensures
        i == j,
{
    if i < j {
        assert(str_lt(s.roles@[i].role@, s.roles@[j].role@));
    } else if j < i {
        assert(str_lt(s.roles@[j].role@, s.roles@[i].role@));
    }
}

/// `role_id_of` agrees with any row that carries the name.
pub proof fn lemma_role_id_of(s: Store, j: int)
    requires
        s.wf(),
        0 <= j < s.roles@.len(),
    ensures
        s.role_id_of(s.roles@[j].role@) == s.roles@[j].id,
{
    let role = s.roles@[j].role@;
    assert(0 <= j < s.roles@.len() && s.roles@[j].role@ == role);
    let k = choose|k: int| 0 <= k < s.roles@.len() && s.roles@[k].role@ == role;
    lemma_role_index_unique(s, j, k);
}

/// A pair is held exactly when an association row links the ids of the
/// unique rows that carry the identity and the role name.
pub proof fn lemma_pair_held_iff(s: Store, i: int, j: int)
    requires
        s.wf(),
        0 <= i < s.nodes@.len(),
        0 <= j < s.roles@.len(),
    ensures
        s.pair_held(s.nodes@[i].node@, s.roles@[j].role@) <==> has_assoc(
            s.node_roles@,
            s.nodes@[i].id as int,
            s.roles@[j].id as int,
        ),
{
    let ident = s.nodes@[i].node@;
    let role = s.roles@[j].role@;
    if s.pair_held(ident, role) {
        let (i2, j2) = choose|i2: int, j2: int|
            #![trigger s.nodes@[i2], s.roles@[j2]]
            0 <= i2 < s.nodes@.len() && 0 <= j2 < s.roles@.len() && s.nodes@[i2].node@ == ident
                && s.roles@[j2].role@ == role && has_assoc(
                s.node_roles@,
                s.nodes@[i2].id as int,
                s.roles@[j2].id as int,
            );
        lemma_node_index_unique(s, i, i2);
        lemma_role_index_unique(s, j, j2);
    }
    if has_assoc(s.node_roles@, s.nodes@[i].id as int, s.roles@[j].id as int) {
        assert(s.pair_held(ident, role)) by {
            assert(0 <= i < s.nodes@.len() && 0 <= j < s.roles@.len() && s.nodes@[i].node@ == ident
                && s.roles@[j].role@ == role && has_assoc(
                s.node_roles@,
                s.nodes@[i].id as int,
                s.roles@[j].id as int,
            ));
        }
    }
}


impl Store {
    /// Decides well-formedness at run time, so that a store rebuilt from an
    /// untrusted source (rows read back from disk) can be checked before it
    /// is used.
    pub fn wf_ok(&self) -> (r: bool)
        ensures
            r == self.wf(),
    {
        if self.next_id < 1 {
            return false;
        }
        if self.nodes.len() as i64 >= self.next_id || (self.nodes.len() as u64) >= (i64::MAX
            as u64) {
            return false;
        }
        if self.roles.len() as i64 >= self.next_id || (self.roles.len() as u64) >= (i64::MAX
            as u64) {
            return false;
        }
        if self.node_roles.len() as i64 >= self.next_id || (self.node_roles.len() as u64) >= (
        i64::MAX as u64) {
            return false;
        }
        let mut i: usize = 0;
        while i < self.nodes.len()
            invariant
                i <= self.nodes@.len(),
                forall|a: int|
                    0 <= a < i ==> 1 <= #[trigger] self.nodes@[a].id < self.next_id,
                forall|a: int, b: int|
                    0 <= a < b < self.nodes@.len() && a < i ==> str_lt(
                        #[trigger] self.nodes@[a].node@,
                        #[trigger] self.nodes@[b].node@,
                    ),
                forall|a: int, b: int|
                    0 <= a < b < self.nodes@.len() && a < i ==> #[trigger] self.nodes@[a].name@
                        != #[trigger] self.nodes@[b].name@,
                forall|a: int, b: int|
                    0 <= a < b < self.nodes@.len() && a < i ==> #[trigger] self.nodes@[a].id
                        != #[trigger] self.nodes@[b].id,
            decreases self.nodes@.len() - i,
        {
            if self.nodes[i].id < 1 || self.nodes[i].id >= self.next_id {
                return false;
            }
            let mut j: usize = i + 1;
            while j < self.nodes.len()
                invariant
                    i < j <= self.nodes@.len(),
                    i < self.nodes@.len(),
                    forall|b: int|
                        i < b < j ==> str_lt(
                            self.nodes@[i as int].node@,
                            #[trigger] self.nodes@[b].node@,
                        ),
                    forall|b: int|
                        i < b < j ==> self.nodes@[i as int].name@ != #[trigger] self.nodes@[b].name@,
                    forall|b: int|
                        i < b < j ==> self.nodes@[i as int].id != #[trigger] self.nodes@[b].id,
                decreases self.nodes@.len() - j,
            {
                if !str_lt_exec(self.nodes[i].node.as_str(), self.nodes[j].node.as_str()) {
                    return false;
                }
                if str_eq_exec(self.nodes[i].name.as_str(), self.nodes[j].name.as_str()) {
                    return false;
                }
                if self.nodes[i].id == self.nodes[j].id {
                    return false;
                }
                j = j + 1;
            }
            i = i + 1;
        }
        let mut i: usize = 0;
        while i < self.roles.len()
            invariant
                i <= self.roles@.len(),
                forall|a: int|
                    0 <= a < i ==> 1 <= #[trigger] self.roles@[a].id < self.next_id,
                forall|a: int, b: int|
                    0 <= a < b < self.roles@.len() && a < i ==> str_lt(
                        #[trigger] self.roles@[a].role@,
                        #[trigger] self.roles@[b].role@,
                    ),
                forall|a: int, b: int|
                    0 <= a < b < self.roles@.len() && a < i ==> #[trigger] self.roles@[a].id
                        != #[trigger] self.roles@[b].id,
            decreases self.roles@.len() - i,
        {
            if self.roles[i].id < 1 || self.roles[i].id >= self.next_id {
                return false;
            }
            let mut j: usize = i + 1;
            while j < self.roles.len()
                invariant
                    i < j <= self.roles@.len(),
                    i < self.roles@.len(),
                    forall|b: int|
                        i < b < j ==> str_lt(
                            self.roles@[i as int].role@,
                            #[trigger] self.roles@[b].role@,
                        ),
                    forall|b: int|
                        i < b < j ==> self.roles@[i as int].id != #[trigger] self.roles@[b].id,
                decreases self.roles@.len() - j,
            {
                if !str_lt_exec(self.roles[i].role.as_str(), self.roles[j].role.as_str()) {
                    return false;
                }
                if self.roles[i].id == self.roles[j].id {
                    return false;
                }
                j = j + 1;
            }
            i = i + 1;
        }
        let mut i: usize = 0;
        while i < self.node_roles.len()
            invariant
                i <= self.node_roles@.len(),
                forall|a: int|
                    0 <= a < i ==> 1 <= #[trigger] self.node_roles@[a].id < self.next_id,
                forall|a: int|
                    0 <= a < i ==> 1 <= #[trigger] self.node_roles@[a].node_id < self.next_id && 1
                        <= self.node_roles@[a].role_id < self.next_id,
                forall|a: int, b: int|
                    0 <= a < b < self.node_roles@.len() && a < i ==> #[trigger] self.node_roles@[a].id
                        != #[trigger] self.node_roles@[b].id,
                forall|a: int, b: int|
                    0 <= a < b < self.node_roles@.len() && a < i ==> !(
                    #[trigger] self.node_roles@[a].node_id == #[trigger] self.node_roles@[b].node_id
                        && self.node_roles@[a].role_id == self.node_roles@[b].role_id),
            decreases self.node_roles@.len() - i,
        {
            let row = &self.node_roles[i];
            if row.id < 1 || row.id >= self.next_id || row.node_id < 1 || row.node_id
                >= self.next_id || row.role_id < 1 || row.role_id >= self.next_id {
                return false;
            }
            let mut j: usize = i + 1;
            while j < self.node_roles.len()
                invariant
                    i < j <= self.node_roles@.len(),
                    i < self.node_roles@.len(),
                    forall|b: int|
                        i < b < j ==> self.node_roles@[i as int].id
                            != #[trigger] self.node_roles@[b].id,
                    forall|b: int|
                        i < b < j ==> !(self.node_roles@[i as int].node_id
                            == #[trigger] self.node_roles@[b].node_id
                            && self.node_roles@[i as int].role_id == self.node_roles@[b].role_id),
                decreases self.node_roles@.len() - j,
            {
                if self.node_roles[i].id == self.node_roles[j].id {
                    return false;
                }
                if self.node_roles[i].node_id == self.node_roles[j].node_id
                    && self.node_roles[i].role_id == self.node_roles[j].role_id {
                    return false;
                }
                j = j + 1;
            }
            i = i + 1;
        }
        true
    }
}

} // verus!
