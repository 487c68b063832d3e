//! The wire codec on concrete values: every command round-trips, every
//! response payload round-trips, and malformed buffers are refused.

use gatekeeper::{
    decode_cmd, decode_node_msg, decode_nodes, decode_strings, encode_cmd, encode_node_msg,
    encode_nodes, encode_strings, Cmd, Node,
};

fn assert_cmd_round_trip(cmd: Cmd) {
    let bytes = encode_cmd(&cmd);
    let back = decode_cmd(&bytes).expect("an encoded command must decode");
    let again = encode_cmd(&back);
    assert_eq!(bytes, again);
}

#[test]
fn cmd_round_trips() {
    assert_cmd_round_trip(Cmd::Roles);
    assert_cmd_round_trip(Cmd::Nodes);
    assert_cmd_round_trip(Cmd::NodeRoles {
        node: "some-key".to_string(),
    });
    assert_cmd_round_trip(Cmd::CreateNode {
        name: "self".to_string(),
        node: "some-key".to_string(),
        superadmin: true,
    });
    assert_cmd_round_trip(Cmd::DeleteNode {
        node: "some-key".to_string(),
    });
    assert_cmd_round_trip(Cmd::GrantRole {
        node: "some-key".to_string(),
        role: "foo".to_string(),
    });
    assert_cmd_round_trip(Cmd::RevokeRole {
        node: "".to_string(),
        role: "rôle-ünïcode".to_string(),
    });
}

#[test]
fn cmd_fields_survive() {
    let bytes = encode_cmd(&Cmd::CreateNode {
        name: "a name".to_string(),
        node: "a-key".to_string(),
        superadmin: false,
    });
    match decode_cmd(&bytes) {
        Some(Cmd::CreateNode {
            name,
            node,
            superadmin,
        }) => {
            assert_eq!(name, "a name");
            assert_eq!(node, "a-key");
            assert_eq!(superadmin, false);
        }
        other => panic!("wrong decode: {:?}", other),
    }
}

#[test]
fn cmd_exact_bytes() {
    // Tag 0 alone is the whole Roles command.
    assert_eq!(encode_cmd(&Cmd::Roles), vec![0u8]);
    // A one-character role: tag, node length, node bytes, role length, role bytes.
    let bytes = encode_cmd(&Cmd::GrantRole {
        node: "k".to_string(),
        role: "r".to_string(),
    });
    assert_eq!(
        bytes,
        vec![5u8, 1, 0, 0, 0, 0, 0, 0, 0, b'k', 1, 0, 0, 0, 0, 0, 0, 0, b'r']
    );
}

#[test]
fn cmd_rejects_malformed() {
    // Empty buffer.
    assert!(decode_cmd(&[]).is_none());
    // Unknown tag.
    assert!(decode_cmd(&[9u8]).is_none());
    // Trailing byte after a complete command.
    let mut bytes = encode_cmd(&Cmd::Roles);
    bytes.push(0);
    assert!(decode_cmd(&bytes).is_none());
    // Truncated length field.
    assert!(decode_cmd(&[2u8, 1, 0, 0]).is_none());
    // Length that overruns the buffer.
    assert!(decode_cmd(&[2u8, 5, 0, 0, 0, 0, 0, 0, 0, b'x']).is_none());
}

#[test]
fn cmd_rejects_invalid_utf8() {
    // A NodeRoles command whose string bytes are not UTF-8 must be refused,
    // not smuggled through unchanged.
    let bytes = vec![2u8, 2, 0, 0, 0, 0, 0, 0, 0, 0xff, 0xfe];
    assert!(decode_cmd(&bytes).is_none());
    // The same frame with valid UTF-8 decodes.
    let bytes = vec![2u8, 2, 0, 0, 0, 0, 0, 0, 0, b'o', b'k'];
    match decode_cmd(&bytes) {
        Some(Cmd::NodeRoles { node }) => assert_eq!(node, "ok"),
        other => panic!("wrong decode: {:?}", other),
    }
}

#[test]
fn strings_response_round_trips() {
    let items = vec!["bar".to_string(), "baz".to_string(), "föö".to_string()];
    let bytes = encode_strings(&items);
    let back = decode_strings(&bytes).unwrap();
    assert_eq!(back, items);

    let empty: Vec<String> = vec![];
    let bytes = encode_strings(&empty);
    let back = decode_strings(&bytes).unwrap();
    assert_eq!(back, empty);
}

#[test]
fn strings_response_rejects_malformed() {
    // Count without items.
    assert!(decode_strings(&[2, 0, 0, 0, 0, 0, 0, 0]).is_none());
    // Trailing bytes after the last item.
    let mut bytes = encode_strings(&vec!["a".to_string()]);
    bytes.push(7);
    assert!(decode_strings(&bytes).is_none());
}

#[test]
fn nodes_response_round_trips() {
    let items = vec![
        Node {
            name: "self".to_string(),
            node: "aa-key".to_string(),
            superadmin: true,
        },
        Node {
            name: "other".to_string(),
            node: "bb-key".to_string(),
            superadmin: false,
        },
    ];
    let bytes = encode_nodes(&items);
    let back = decode_nodes(&bytes).unwrap();
    assert_eq!(back.len(), 2);
    for (a, b) in back.iter().zip(items.iter()) {
        assert_eq!(a.name, b.name);
        assert_eq!(a.node, b.node);
        assert_eq!(a.superadmin, b.superadmin);
    }
}

#[test]
fn node_response_round_trips() {
    let rec = Node {
        name: "self".to_string(),
        node: "aa-key".to_string(),
        superadmin: true,
    };
    let bytes = encode_node_msg(&rec);
    let back = decode_node_msg(&bytes).unwrap();
    assert_eq!(back.name, rec.name);
    assert_eq!(back.node, rec.node);
    assert_eq!(back.superadmin, rec.superadmin);
    // Trailing bytes are refused.
    let mut bytes = bytes;
    bytes.push(0);
    assert!(decode_node_msg(&bytes).is_none());
}
