//! The stated properties of the directory, proved from the operation
//! contracts: the bootstrap latch, the uniform gate, and how granting,
//! revoking and deleting interact with the three relations.

use vstd::prelude::*;

use crate::arbiter::{delete_node_ok, grant_ok, revoke_ok, Arbiter};
use crate::order::str_lt;
use crate::store::{has_assoc, insert_node_ok, lemma_node_index_unique, lemma_pair_held_iff, Store};

verus! {

// ---------------------------------------------------------------------------
// Listing laws
// ---------------------------------------------------------------------------

/// The global role listing holds exactly the role names of the store.
pub proof fn lemma_role_names_contains(s: Store, role: Seq<char>)
    ensures
        s.role_names().contains(role) <==> s.has_role(role),
{
    if s.has_role(role) {
        let j = choose|j: int| 0 <= j < s.roles@.len() && #[trigger] s.roles@[j].role@ == role;
        assert(s.role_names()[j] == role);
    }
    if s.role_names().contains(role) {
        let j = choose|j: int| 0 <= j < s.role_names().len() && s.role_names()[j] == role;
        assert(s.roles@[j].role@ == role);
    }
}

/// The global role listing is strictly sorted, so it has no duplicates.
pub proof fn lemma_role_names_sorted(s: Store)
    requires
        s.wf(),
    ensures
        forall|a: int, b: int|
            0 <= a < b < s.role_names().len() ==> str_lt(
                #[trigger] s.role_names()[a],
                #[trigger] s.role_names()[b],
            ),
{
    assert forall|a: int, b: int| 0 <= a < b < s.role_names().len() implies str_lt(
        #[trigger] s.role_names()[a],
        #[trigger] s.role_names()[b],
    ) by {
        assert(s.role_names()[a] == s.roles@[a].role@);
        assert(s.role_names()[b] == s.roles@[b].role@);
    }
}

/// The global node listing is strictly sorted by identity.
pub proof fn lemma_nodes_listing_sorted(s: Store)
    requires
        s.wf(),
    ensures
        forall|a: int, b: int|
            0 <= a < b < s.nodes_listing().len() ==> str_lt(
                #[trigger] s.nodes_listing()[a].node,
                #[trigger] s.nodes_listing()[b].node,
            ),
{
    assert forall|a: int, b: int| 0 <= a < b < s.nodes_listing().len() implies str_lt(
        #[trigger] s.nodes_listing()[a].node,
        #[trigger] s.nodes_listing()[b].node,
    ) by {
        assert(s.nodes_listing()[a].node == s.nodes@[a].node@);
        assert(s.nodes_listing()[b].node == s.nodes@[b].node@);
    }
}

/// What the tail of the per-node listing holds: exactly the names of roles
/// at index `j` or later whose id is linked to `nid`.
proof fn lemma_held_names_contains_from(s: Store, nid: int, j: int, x: Seq<char>)
    requires
        0 <= j <= s.roles@.len(),
    ensures
        s.held_names_from(nid, j).contains(x) <==> exists|k: int|
            j <= k < s.roles@.len() && #[trigger] s.roles@[k].role@ == x && has_assoc(
                s.node_roles@,
                nid,
                s.roles@[k].id as int,
            ),
    decreases s.roles@.len() - j,
{
    if j == s.roles@.len() {
    } else {
        lemma_held_names_contains_from(s, nid, j + 1, x);
        let tail = s.held_names_from(nid, j + 1);
        if has_assoc(s.node_roles@, nid, s.roles@[j].id as int) {
            let whole = seq![s.roles@[j].role@] + tail;
            assert(s.held_names_from(nid, j) == whole);
            if whole.contains(x) {
                let m = choose|m: int| 0 <= m < whole.len() && whole[m] == x;
                if m == 0 {
                    assert(s.roles@[j].role@ == x);
                } else {
                    assert(tail[m - 1] == x);
                    assert(tail.contains(x));
                }
            }
            if exists|k: int|
                j <= k < s.roles@.len() && #[trigger] s.roles@[k].role@ == x && has_assoc(
                    s.node_roles@,
                    nid,
                    s.roles@[k].id as int,
                ) {
                let k = choose|k: int|
                    j <= k < s.roles@.len() && #[trigger] s.roles@[k].role@ == x && has_assoc(
                        s.node_roles@,
                        nid,
                        s.roles@[k].id as int,
                    );
                if k == j {
                    assert(whole[0] == x);
                } else {
                    assert(tail.contains(x));
                    let m = choose|m: int| 0 <= m < tail.len() && tail[m] == x;
                    assert(whole[m + 1] == x);
                }
            }
        } else {
            if exists|k: int|
                j <= k < s.roles@.len() && #[trigger] s.roles@[k].role@ == x && has_assoc(
                    s.node_roles@,
                    nid,
                    s.roles@[k].id as int,
                ) {
                let k = choose|k: int|
                    j <= k < s.roles@.len() && #[trigger] s.roles@[k].role@ == x && has_assoc(
                        s.node_roles@,
                        nid,
                        s.roles@[k].id as int,
                    );
                assert(k != j);
            }
        }
    }
}

/// The per-node listing holds a role name exactly when the node exists and
/// currently holds that role.
pub proof fn lemma_node_roles_listing_contains(s: Store, ident: Seq<char>, role: Seq<char>)
    requires
        s.wf(),
    ensures
        s.node_roles_listing(ident).contains(role) <==> s.has_node(ident) && s.pair_held(
            ident,
            role,
        ),
{
    if s.has_node(ident) {
        let nid = s.node_id_of(ident);
        let i = choose|i: int| 0 <= i < s.nodes@.len() && #[trigger] s.nodes@[i].node@ == ident;
        lemma_held_names_contains_from(s, nid, 0, role);
        if s.node_roles_listing(ident).contains(role) {
            let k = choose|k: int|
                0 <= k < s.roles@.len() && #[trigger] s.roles@[k].role@ == role && has_assoc(
                    s.node_roles@,
                    nid,
                    s.roles@[k].id as int,
                );
            lemma_pair_held_iff(s, i, k);
        }
        if s.pair_held(ident, role) {
            let (i2, j2) = choose|i2: int, j2: int|
                #![trigger s.nodes@[i2], s.roles@[j2]]
                0 <= i2 < s.nodes@.len() && 0 <= j2 < s.roles@.len() && s.nodes@[i2].node@ == ident
                    && s.roles@[j2].role@ == role && has_assoc(
                    s.node_roles@,
                    s.nodes@[i2].id as int,
                    s.roles@[j2].id as int,
                );
            lemma_node_index_unique(s, i, i2);
            assert(s.nodes@[i].id as int == nid) by {
                crate::store::lemma_node_id_of(s, i);
            }
        }
    }
}

/// The per-node listing is strictly sorted, so it has no duplicates: a
/// granted role appears once.
pub proof fn lemma_node_roles_listing_sorted(s: Store, ident: Seq<char>)
    requires
        s.wf(),
    ensures
        forall|a: int, b: int|
            0 <= a < b < s.node_roles_listing(ident).len() ==> str_lt(
                #[trigger] s.node_roles_listing(ident)[a],
                #[trigger] s.node_roles_listing(ident)[b],
            ),
{
    if s.has_node(ident) {
        lemma_held_names_sorted_from(s, s.node_id_of(ident), 0);
    }
}

/// The tail of the per-node listing is strictly sorted.
proof fn lemma_held_names_sorted_from(s: Store, nid: int, j: int)
    requires
        s.wf(),
        0 <= j <= s.roles@.len(),
    ensures
        forall|a: int, b: int|
            0 <= a < b < s.held_names_from(nid, j).len() ==> str_lt(
                #[trigger] s.held_names_from(nid, j)[a],
                #[trigger] s.held_names_from(nid, j)[b],
            ),
    decreases s.roles@.len() - j,
{
    if j == s.roles@.len() {
    } else {
        lemma_held_names_sorted_from(s, nid, j + 1);
        let tail = s.held_names_from(nid, j + 1);
        assert forall|m: int| 0 <= m < tail.len() implies str_lt(s.roles@[j].role@, tail[m]) by {
            lemma_held_names_contains_from(s, nid, j + 1, tail[m]);
            assert(tail.contains(tail[m]));
            let k = choose|k: int|
                j + 1 <= k < s.roles@.len() && #[trigger] s.roles@[k].role@ == tail[m] && has_assoc(
                    s.node_roles@,
                    nid,
                    s.roles@[k].id as int,
                );
            assert(str_lt(s.roles@[j].role@, s.roles@[k].role@));
        }
        if has_assoc(s.node_roles@, nid, s.roles@[j].id as int) {
            let whole = seq![s.roles@[j].role@] + tail;
            assert(s.held_names_from(nid, j) == whole);
            assert forall|a: int, b: int| 0 <= a < b < whole.len() implies str_lt(
                #[trigger] whole[a],
                #[trigger] whole[b],
            ) by {
                if a == 0 {
                    assert(whole[b] == tail[b - 1]);
                } else {
                    assert(whole[a] == tail[a - 1] && whole[b] == tail[b - 1]);
                }
            }
        }
    }
}

// ---------------------------------------------------------------------------
// Bootstrap and gating laws
// ---------------------------------------------------------------------------

/// The bootstrap latch: while the store is empty and remote setup is on,
/// every caller is admitted; the moment the first node row is created, the
/// gate is keyed on superadmin rows alone, for every caller.
pub proof fn lemma_bootstrap_latch(
    pre: Arbiter,
    post: Arbiter,
    name: Seq<char>,
    ident: Seq<char>,
    superadmin: bool,
    now: int,
    caller: Seq<char>,
    caller2: Seq<char>,
)
    requires
        pre.wf(),
        pre.remote_setup,
        pre.store.nodes@.len() == 0,
        post.remote_setup,
        insert_node_ok(pre.store, post.store, name, ident, superadmin, now),
    ensures
        pre.allowed(caller),
        forall|x: Seq<char>| !pre.store.has_node(x) && !pre.store.has_name(x),
        post.store.nodes@.len() == 1,
        post.allowed(caller2) <==> post.store.has_superadmin(caller2),
{
    let (p, row) = choose|p: int, row: crate::store::NodeRow|
        #![trigger pre.store.nodes@.insert(p, row)]
        0 <= p <= pre.store.nodes@.len() && post.store.nodes@ == pre.store.nodes@.insert(p, row)
            && row.name@ == name && row.node@ == ident && row.superadmin == superadmin
            && row.created == now && row.id == pre.store.next_id;
    assert(post.store.nodes@.len() == 1);
}

/// With remote setup disabled, an empty directory admits nobody: it can
/// only be bootstrapped out of band.
pub proof fn lemma_bootstrap_disabled(a: Arbiter, caller: Seq<char>)
    requires
        !a.remote_setup,
        a.store.nodes@.len() == 0,
    ensures
        !a.allowed(caller),
{
}

/// The uniform gate: once any node row exists, a caller whose identity has
/// a row is admitted exactly according to that row's superadmin flag — the
/// same decision for every operation, reads included.
pub proof fn lemma_uniform_gating(a: Arbiter, i: int, caller: Seq<char>)
    requires
        a.wf(),
        0 <= i < a.store.nodes@.len(),
        a.store.nodes@[i].node@ == caller,
    ensures
        a.allowed(caller) == a.store.nodes@[i].superadmin,
{
    if a.store.nodes@[i].superadmin {
        assert(a.store.has_superadmin(caller));
    } else {
        if a.store.has_superadmin(caller) {
            let k = choose|k: int|
                0 <= k < a.store.nodes@.len() && #[trigger] a.store.nodes@[k].node@ == caller
                    && a.store.nodes@[k].superadmin;
            lemma_node_index_unique(a.store, i, k);
        }
    }
}

// ---------------------------------------------------------------------------
// Grant / revoke / delete laws
// ---------------------------------------------------------------------------

/// Role rows outlive assignments: granting a role and then revoking it
/// leaves the role in the global listing but out of the node's listing.
pub proof fn lemma_role_persistence(
    s0: Store,
    s1: Store,
    s2: Store,
    ident: Seq<char>,
    role: Seq<char>,
    t1: int,
    t2: int,
)
    requires
        s0.wf(),
        s1.wf(),
        s2.wf(),
        grant_ok(s0, s1, ident, role, t1),
        revoke_ok(s1, s2, ident, role, t2),
    ensures
        s2.has_role(role),
        s2.role_names().contains(role),
        !s2.pair_held(ident, role),
        !s2.node_roles_listing(ident).contains(role),
{
    lemma_role_names_contains(s2, role);
    lemma_node_roles_listing_contains(s2, ident, role);
}

/// Granting the same pair twice is the same as granting it once: the
/// second grant changes none of the three relations, and the pair is
/// linked by exactly one association row.
pub proof fn lemma_grant_idempotent(
    s0: Store,
    s1: Store,
    s2: Store,
    ident: Seq<char>,
    role: Seq<char>,
    t1: int,
    t2: int,
)
    requires
        s0.wf(),
        s1.wf(),
        s2.wf(),
        grant_ok(s0, s1, ident, role, t1),
        grant_ok(s1, s2, ident, role, t2),
    ensures
        s2.nodes@ == s1.nodes@,
        s2.roles@ == s1.roles@,
        s2.node_roles@ == s1.node_roles@,
        s2.pair_held(ident, role),
        forall|k1: int, k2: int|
            0 <= k1 < s2.node_roles@.len() && 0 <= k2 < s2.node_roles@.len()
                && #[trigger] s2.node_roles@[k1].node_id == #[trigger] s2.node_roles@[k2].node_id
                && s2.node_roles@[k1].role_id == s2.node_roles@[k2].role_id ==> k1 == k2,
{
    assert forall|k1: int, k2: int|
        0 <= k1 < s2.node_roles@.len() && 0 <= k2 < s2.node_roles@.len()
            && #[trigger] s2.node_roles@[k1].node_id == #[trigger] s2.node_roles@[k2].node_id
            && s2.node_roles@[k1].role_id == s2.node_roles@[k2].role_id implies k1 == k2 by {
        if k1 < k2 {
            assert(false);
        } else if k2 < k1 {
            assert(false);
        }
    }
}

/// Revoking a role that the node does not hold succeeds and leaves the
/// node relation and the association relation untouched; when the role row
/// already existed, the whole state of the three relations is unchanged.
/// (When the role was never seen before, its row is created — the one
/// state change a first revoke makes.)
pub proof fn lemma_revoke_before_grant(
    s0: Store,
    s1: Store,
    ident: Seq<char>,
    role: Seq<char>,
    t: int,
)
    requires
        s0.wf(),
        s1.wf(),
        revoke_ok(s0, s1, ident, role, t),
        !s0.pair_held(ident, role),
    ensures
        s1.nodes@ == s0.nodes@,
        s1.node_roles@ == s0.node_roles@,
        s0.has_role(role) ==> s1.roles@ == s0.roles@,
{
}

/// Orphaned associations: deleting a node removes only its node row; its
/// role associations and the role rows stay exactly as they were.
pub proof fn lemma_orphaned_associations(s0: Store, s1: Store, ident: Seq<char>)
    requires
        s0.wf(),
        s1.wf(),
        delete_node_ok(s0, s1, ident),
    ensures
        s1.node_roles@ == s0.node_roles@,
        s1.roles@ == s0.roles@,
{
}

} // verus!
