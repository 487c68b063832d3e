//! The directory's stated behavior on concrete runs: the bootstrap latch,
//! the uniform gate, idempotent grants, revokes without grants, orphaned
//! associations, every error condition, and the full end-to-end scenario.

use gatekeeper::{encode_cmd, Arbiter, Cmd, Error, Server, Store};

const NOW: i64 = 1_700_000_000;

fn call(server: &mut Server, caller: &str, cmd: Cmd) -> Result<Vec<u8>, Error> {
    let request = encode_cmd(&cmd);
    server.handle(caller, &request, NOW)
}

fn strings(rsp: Vec<u8>) -> Vec<String> {
    gatekeeper::decode_strings(&rsp).unwrap()
}

#[test]
fn bootstrap_latch_closes_after_first_node() {
    let mut arb = Arbiter::new(Store::new(), true);
    // Empty store, remote setup on: any caller is allowed.
    assert_eq!(arb.allow("anyone").unwrap(), true);
    assert_eq!(arb.allow("anyone-else").unwrap(), true);
    // The first node row closes the latch for everyone but superadmins.
    arb.create_node("self", "first-key", false, NOW).unwrap();
    assert_eq!(arb.allow("anyone").unwrap(), false);
    assert_eq!(arb.allow("first-key").unwrap(), false);
    // Deleting the only node reopens bootstrap trust.
    arb.delete_node("first-key").unwrap();
    assert_eq!(arb.allow("anyone").unwrap(), true);
}

#[test]
fn bootstrap_disabled_admits_nobody() {
    let arb = Arbiter::new(Store::new(), false);
    assert_eq!(arb.allow("anyone").unwrap(), false);
}

#[test]
fn gating_is_uniform_over_operations() {
    let mut srv = Server::new(Arbiter::new(Store::new(), true));
    let admin = "admin-key";
    let plain = "plain-key";
    call(
        &mut srv,
        admin,
        Cmd::CreateNode {
            name: "admin".to_string(),
            node: admin.to_string(),
            superadmin: true,
        },
    )
    .unwrap();
    call(
        &mut srv,
        admin,
        Cmd::CreateNode {
            name: "plain".to_string(),
            node: plain.to_string(),
            superadmin: false,
        },
    )
    .unwrap();

    // A non-superadmin node fails every operation, pure reads included.
    let reads = [
        Cmd::Roles,
        Cmd::Nodes,
        Cmd::NodeRoles {
            node: plain.to_string(),
        },
    ];
    for cmd in reads.iter() {
        let res = call(&mut srv, plain, cmd.clone());
        assert_eq!(res.unwrap_err(), Error::UnauthorizedError);
    }
    let res = call(
        &mut srv,
        plain,
        Cmd::GrantRole {
            node: plain.to_string(),
            role: "foo".to_string(),
        },
    );
    assert_eq!(res.unwrap_err(), Error::UnauthorizedError);

    // A superadmin node succeeds for every operation.
    for cmd in reads.iter() {
        assert!(call(&mut srv, admin, cmd.clone()).is_ok());
    }
    assert!(call(
        &mut srv,
        admin,
        Cmd::GrantRole {
            node: plain.to_string(),
            role: "foo".to_string(),
        },
    )
    .is_ok());
}

#[test]
fn role_survives_revocation() {
    let mut arb = Arbiter::new(Store::new(), true);
    arb.create_node("self", "self-key", true, NOW).unwrap();
    arb.grant_role("self-key", "baz", NOW).unwrap();
    arb.revoke_role("self-key", "baz", NOW).unwrap();
    assert_eq!(arb.roles().unwrap(), vec!["baz".to_string()]);
    assert_eq!(arb.node_roles("self-key").unwrap(), Vec::<String>::new());
}

#[test]
fn grant_is_idempotent() {
    let mut arb = Arbiter::new(Store::new(), true);
    arb.create_node("self", "self-key", true, NOW).unwrap();
    arb.grant_role("self-key", "foo", NOW).unwrap();
    arb.grant_role("self-key", "foo", NOW).unwrap();
    assert_eq!(arb.node_roles("self-key").unwrap(), vec!["foo".to_string()]);
    assert_eq!(arb.roles().unwrap(), vec!["foo".to_string()]);
}

#[test]
fn revoke_without_grant_is_silent() {
    let mut arb = Arbiter::new(Store::new(), true);
    arb.create_node("self", "self-key", true, NOW).unwrap();
    // Revoking a role never granted succeeds; the association relation is
    // untouched, though the role row itself is created on first reference.
    arb.revoke_role("self-key", "never-granted", NOW).unwrap();
    assert_eq!(arb.node_roles("self-key").unwrap(), Vec::<String>::new());
    assert_eq!(arb.roles().unwrap(), vec!["never-granted".to_string()]);
    // Revoking it again changes nothing at all.
    arb.revoke_role("self-key", "never-granted", NOW).unwrap();
    assert_eq!(arb.roles().unwrap(), vec!["never-granted".to_string()]);
}

#[test]
fn deleting_a_node_orphans_its_associations() {
    let mut arb = Arbiter::new(Store::new(), true);
    arb.create_node("self", "self-key", true, NOW).unwrap();
    arb.create_node("other", "other-key", false, NOW).unwrap();
    arb.grant_role("other-key", "foo", NOW).unwrap();
    let assoc_rows = arb.store.node_roles.len();
    assert_eq!(assoc_rows, 1);
    arb.delete_node("other-key").unwrap();
    // The association row is still there, orphaned.
    assert_eq!(arb.store.node_roles.len(), assoc_rows);
    // But the node is gone, so nothing lists it.
    assert_eq!(arb.node_roles("other-key").unwrap(), Vec::<String>::new());
}

#[test]
fn error_conditions() {
    let mut arb = Arbiter::new(Store::new(), true);
    arb.create_node("self", "self-key", true, NOW).unwrap();

    // Conflict: identity taken.
    let res = arb.create_node("fresh-name", "self-key", false, NOW);
    assert_eq!(res.unwrap_err(), Error::ConflictError);
    // Conflict: name taken.
    let res = arb.create_node("self", "fresh-key", false, NOW);
    assert_eq!(res.unwrap_err(), Error::ConflictError);
    // NotFound on delete, grant, revoke of an unknown identity.
    assert_eq!(
        arb.delete_node("unknown-key").unwrap_err(),
        Error::NoSuchNodeError
    );
    assert_eq!(
        arb.grant_role("unknown-key", "foo", NOW).unwrap_err(),
        Error::NoSuchNodeError
    );
    assert_eq!(
        arb.revoke_role("unknown-key", "foo", NOW).unwrap_err(),
        Error::NoSuchNodeError
    );
    // An unknown node lists no roles rather than failing.
    assert_eq!(arb.node_roles("unknown-key").unwrap(), Vec::<String>::new());

    // Codec failure: undecodable request bytes.
    let mut srv = Server::new(arb);
    let res = srv.handle("self-key", &[42u8, 7, 7], NOW);
    assert_eq!(res.unwrap_err(), Error::CodecError);
}

#[test]
fn end_to_end_scenario() {
    let mut srv = Server::new(Arbiter::new(Store::new(), true));
    let a = "caller-a-key";
    let b = "caller-b-key";

    // Empty store, remote setup on: caller A creates itself.
    let res = call(
        &mut srv,
        a,
        Cmd::CreateNode {
            name: "self".to_string(),
            node: a.to_string(),
            superadmin: true,
        },
    );
    assert!(res.is_ok());

    // A grants itself three roles.
    for role in ["foo", "bar", "baz"] {
        call(
            &mut srv,
            a,
            Cmd::GrantRole {
                node: a.to_string(),
                role: role.to_string(),
            },
        )
        .unwrap();
    }
    let roles = strings(call(&mut srv, a, Cmd::Roles).unwrap());
    assert_eq!(
        roles,
        vec!["bar".to_string(), "baz".to_string(), "foo".to_string()]
    );
    let node_roles = strings(
        call(
            &mut srv,
            a,
            Cmd::NodeRoles {
                node: a.to_string(),
            },
        )
        .unwrap(),
    );
    assert_eq!(
        node_roles,
        vec!["bar".to_string(), "baz".to_string(), "foo".to_string()]
    );

    // A revokes "baz": the global listing keeps it, A's listing loses it.
    call(
        &mut srv,
        a,
        Cmd::RevokeRole {
            node: a.to_string(),
            role: "baz".to_string(),
        },
    )
    .unwrap();
    let roles = strings(call(&mut srv, a, Cmd::Roles).unwrap());
    assert_eq!(
        roles,
        vec!["bar".to_string(), "baz".to_string(), "foo".to_string()]
    );
    let node_roles = strings(
        call(
            &mut srv,
            a,
            Cmd::NodeRoles {
                node: a.to_string(),
            },
        )
        .unwrap(),
    );
    assert_eq!(node_roles, vec!["bar".to_string(), "foo".to_string()]);

    // A creates B without superadmin; a connection as B fails even reads.
    call(
        &mut srv,
        a,
        Cmd::CreateNode {
            name: "b".to_string(),
            node: b.to_string(),
            superadmin: false,
        },
    )
    .unwrap();
    let res = call(&mut srv, b, Cmd::Roles);
    assert_eq!(res.unwrap_err(), Error::UnauthorizedError);
}

#[test]
fn listings_are_sorted_and_duplicate_free() {
    let mut arb = Arbiter::new(Store::new(), true);
    arb.create_node("zed", "zz-key", true, NOW).unwrap();
    arb.create_node("ann", "aa-key", false, NOW).unwrap();
    arb.create_node("mid", "mm-key", false, NOW).unwrap();

    let idents: Vec<String> = arb.nodes().unwrap().into_iter().map(|n| n.node).collect();
    assert_eq!(
        idents,
        vec!["aa-key".to_string(), "mm-key".to_string(), "zz-key".to_string()]
    );

    for role in ["delta", "alpha", "delta", "charlie", "alpha"] {
        arb.grant_role("mm-key", role, NOW).unwrap();
    }
    assert_eq!(
        arb.roles().unwrap(),
        vec!["alpha".to_string(), "charlie".to_string(), "delta".to_string()]
    );
    assert_eq!(
        arb.node_roles("mm-key").unwrap(),
        vec!["alpha".to_string(), "charlie".to_string(), "delta".to_string()]
    );
}

#[test]
fn store_validation_catches_corruption() {
    // A store built through the operations is well-formed.
    let mut arb = Arbiter::new(Store::new(), true);
    arb.create_node("self", "self-key", true, NOW).unwrap();
    arb.grant_role("self-key", "foo", NOW).unwrap();
    assert!(arb.store.wf_ok());

    // Hand-built rows with a duplicated identity are refused.
    let mut store = arb.store;
    store.next_id = 100;
    store.nodes.push(gatekeeper::NodeRow {
        id: 99,
        name: "other".to_string(),
        node: "self-key".to_string(),
        superadmin: false,
        created: NOW,
    });
    assert!(!store.wf_ok());

    // With a fresh identity but an out-of-range id they are still refused.
    store.nodes.pop();
    store.nodes.push(gatekeeper::NodeRow {
        id: 1000,
        name: "other".to_string(),
        node: "zz-key".to_string(),
        superadmin: false,
        created: NOW,
    });
    assert!(!store.wf_ok());
}

#[test]
fn error_descriptions_are_distinct() {
    let all = [
        Error::UnauthorizedError,
        Error::NoSuchNodeError,
        Error::ConflictError,
        Error::CodecError,
        Error::TransportError,
        Error::StorageError,
    ];
    for (i, a) in all.iter().enumerate() {
        assert!(!a.describe().is_empty());
        for b in all.iter().skip(i + 1) {
            assert_ne!(a.describe(), b.describe());
        }
    }
}
