//! The directory exercised end to end through the protocol step: each test
//! builds an empty store, wraps it in an arbiter and a server, and sends
//! encoded commands under a caller identity, exactly as a connection
//! handler would.

use gatekeeper::{encode_cmd, Arbiter, Cmd, Error, Server, Store};

const NOW: i64 = 1_700_000_000;

fn server(remote_setup: bool) -> Server {
    Server::new(Arbiter::new(Store::new(), remote_setup))
}

fn call(server: &mut Server, caller: &str, cmd: Cmd) -> Result<Vec<u8>, Error> {
    let request = encode_cmd(&cmd);
    server.handle(caller, &request, NOW)
}

fn create(
    server: &mut Server,
    caller: &str,
    name: &str,
    node: &str,
    superadmin: bool,
) -> Result<Vec<u8>, Error> {
    call(
        server,
        caller,
        Cmd::CreateNode {
            name: name.to_string(),
            node: node.to_string(),
            superadmin,
        },
    )
}

#[test]
fn non_privileged_node_creation() {
    let mut srv = server(true);
    let self_id = "aa11-self-key";
    let other_id = "bb22-other-key";

    let res = create(&mut srv, self_id, "self", self_id, true);
    assert!(matches!(res, Ok(_)));

    let rsp = create(&mut srv, self_id, "other", other_id, false).unwrap();
    let other = gatekeeper::decode_node_msg(&rsp).unwrap();
    assert_eq!(other.name, "other".to_string());
    assert_eq!(other.node, format!("{other_id}"));
    assert_eq!(other.superadmin, false);

    let res = call(&mut srv, other_id, Cmd::Roles);
    assert!(matches!(res, Err(_)));
}

#[test]
fn privileged_node_creation() {
    let mut srv = server(true);
    let self_id = "aa11-self-key";
    let other_id = "bb22-other-key";

    let res = create(&mut srv, self_id, "self", self_id, true);
    assert!(matches!(res, Ok(_)));

    let rsp = create(&mut srv, self_id, "other", other_id, true).unwrap();
    let other = gatekeeper::decode_node_msg(&rsp).unwrap();
    assert_eq!(other.name, "other".to_string());
    assert_eq!(other.node, format!("{other_id}"));
    assert_eq!(other.superadmin, true);

    let res = call(&mut srv, other_id, Cmd::Roles);
    assert!(matches!(res, Ok(_)));
}

#[test]
fn node_deletion() {
    let mut srv = server(true);
    let self_id = "aa11-self-key";
    let other_id = "bb22-other-key";

    let res = create(&mut srv, self_id, "self", self_id, true);
    assert!(matches!(res, Ok(_)));
    create(&mut srv, self_id, "other", other_id, false).unwrap();

    let rsp = call(&mut srv, self_id, Cmd::Nodes).unwrap();
    let nodes = gatekeeper::decode_nodes(&rsp).unwrap();
    assert_eq!(nodes.len(), 2);

    let mut node_ids: Vec<String> = nodes.into_iter().map(|n| n.node).collect();
    node_ids.sort();
    let mut expected_node_ids = vec![format!("{other_id}"), format!("{self_id}")];
    expected_node_ids.sort();
    assert_eq!(node_ids, expected_node_ids);

    call(
        &mut srv,
        self_id,
        Cmd::DeleteNode {
            node: other_id.to_string(),
        },
    )
    .unwrap();

    let rsp = call(&mut srv, self_id, Cmd::Nodes).unwrap();
    let nodes = gatekeeper::decode_nodes(&rsp).unwrap();
    let node_ids: Vec<String> = nodes.into_iter().map(|n| n.node).collect();
    let expected_node_ids = vec![format!("{self_id}")];
    assert_eq!(node_ids, expected_node_ids);
}

#[test]
fn role_assignment() {
    let mut srv = server(true);
    let self_id = "aa11-self-key";

    let res = create(&mut srv, self_id, "self", self_id, true);
    assert!(matches!(res, Ok(_)));

    for role in ["foo", "bar", "baz"] {
        call(
            &mut srv,
            self_id,
            Cmd::GrantRole {
                node: self_id.to_string(),
                role: role.to_string(),
            },
        )
        .unwrap();
    }

    let rsp = call(&mut srv, self_id, Cmd::Roles).unwrap();
    let roles = gatekeeper::decode_strings(&rsp).unwrap();
    assert_eq!(
        roles,
        vec!["bar".to_string(), "baz".to_string(), "foo".to_string()]
    );

    let rsp = call(
        &mut srv,
        self_id,
        Cmd::NodeRoles {
            node: self_id.to_string(),
        },
    )
    .unwrap();
    let node_roles = gatekeeper::decode_strings(&rsp).unwrap();
    assert_eq!(
        node_roles,
        vec!["bar".to_string(), "baz".to_string(), "foo".to_string()]
    );

    call(
        &mut srv,
        self_id,
        Cmd::RevokeRole {
            node: self_id.to_string(),
            role: "baz".to_string(),
        },
    )
    .unwrap();

    let rsp = call(&mut srv, self_id, Cmd::Roles).unwrap();
    let roles = gatekeeper::decode_strings(&rsp).unwrap();
    assert_eq!(
        roles,
        vec!["bar".to_string(), "baz".to_string(), "foo".to_string()]
    );

    let rsp = call(
        &mut srv,
        self_id,
        Cmd::NodeRoles {
            node: self_id.to_string(),
        },
    )
    .unwrap();
    let node_roles = gatekeeper::decode_strings(&rsp).unwrap();
    assert_eq!(node_roles, vec!["bar".to_string(), "foo".to_string()]);
}

#[test]
fn with_remote_setup() {
    let mut srv = server(true);
    let self_id = "aa11-self-key";

    let res = create(&mut srv, self_id, "self", self_id, true);
    assert!(matches!(res, Ok(_)));

    let res = call(&mut srv, self_id, Cmd::Roles);
    assert!(matches!(res, Ok(_)));
}

#[test]
fn without_remote_setup() {
    let mut srv = server(false);
    let self_id = "aa11-self-key";

    let res = create(&mut srv, self_id, "self", self_id, true);
    assert!(matches!(res, Err(_)));

    let res = call(&mut srv, self_id, Cmd::Roles);
    assert!(matches!(res, Err(_)));
}
