//! The wire codec: a deterministic binary encoding of the closed command set
//! and of the response payloads.
//!
//! Every message is framed by the transport (a whole stream is one message),
//! so a decoder accepts a byte string only when it is consumed exactly.
//! Integers are little-endian 64-bit; strings are a length followed by their
//! UTF-8 bytes; lists are a count followed by the items; a command is a tag
//! byte followed by its fields.
//!
//! The executable encoders and decoders are proved against the specification
//! functions `enc_*` and `parse_*`, and the two directions are related by
//! round-trip and unambiguity lemmas.

use vstd::prelude::*;
use vstd::bytes::{
    lemma_auto_spec_u64_to_from_le_bytes, spec_u64_from_le_bytes, spec_u64_to_le_bytes,
    u64_from_le_bytes, u64_to_le_bytes,
};
use vstd::slice::{slice_subrange, slice_to_vec};
use vstd::utf8::{
    decode_utf8, decode_utf8_encode_utf8, encode_utf8, encode_utf8_decode_utf8,
    encode_utf8_valid_utf8, valid_utf8,
};

use crate::common::{Cmd, CmdV, Node, NodeV};

verus! {

impl DeepView for Node {
    type V = NodeV;

    open spec fn deep_view(&self) -> NodeV {
        self@
    }
}

// ---------------------------------------------------------------------------
// Specification: encoders
// ---------------------------------------------------------------------------

/// Encoding of an unsigned 64-bit integer: 8 bytes, little endian.
pub open spec fn enc_u64(n: u64) -> Seq<u8> {
    spec_u64_to_le_bytes(n)
}

/// Encoding of a boolean: one byte, `0` or `1`.
pub open spec fn enc_bool(b: bool) -> Seq<u8> {
    if b {
        seq![1u8]
    } else {
        seq![0u8]
    }
}

/// Encoding of a string: the length of its UTF-8 encoding, then those bytes.
pub open spec fn enc_str(s: Seq<char>) -> Seq<u8> {
    enc_u64(encode_utf8(s).len() as u64) + encode_utf8(s)
}

/// A string value whose UTF-8 length fits the length field.
pub open spec fn str_fits(s: Seq<char>) -> bool {
    encode_utf8(s).len() <= u64::MAX
}

/// Encoding of a command: a tag byte, then the fields in order.
pub open spec fn enc_cmd(c: CmdV) -> Seq<u8> {
    match c {
        CmdV::Roles => seq![0u8],
        CmdV::Nodes => seq![1u8],
        CmdV::NodeRoles { node } => seq![2u8] + enc_str(node),
        CmdV::CreateNode { name, node, superadmin } => seq![3u8] + enc_str(name) + enc_str(node)
            + enc_bool(superadmin),
        CmdV::DeleteNode { node } => seq![4u8] + enc_str(node),
        CmdV::GrantRole { node, role } => seq![5u8] + enc_str(node) + enc_str(role),
        CmdV::RevokeRole { node, role } => seq![6u8] + enc_str(node) + enc_str(role),
    }
}

/// A command whose string fields all fit their length fields.
pub open spec fn cmd_fits(c: CmdV) -> bool {
    match c {
        CmdV::Roles => true,
        CmdV::Nodes => true,
        CmdV::NodeRoles { node } => str_fits(node),
        CmdV::CreateNode { name, node, .. } => str_fits(name) && str_fits(node),
        CmdV::DeleteNode { node } => str_fits(node),
        CmdV::GrantRole { node, role } => str_fits(node) && str_fits(role),
        CmdV::RevokeRole { node, role } => str_fits(node) && str_fits(role),
    }
}

/// Encoding of the items of a string list, in order.
pub open spec fn enc_strings_items(ss: Seq<Seq<char>>) -> Seq<u8>
    decreases ss.len(),
{
    if ss.len() == 0 {
        Seq::empty()
    } else {
        enc_str(ss[0]) + enc_strings_items(ss.drop_first())
    }
}

/// Encoding of a string-list response: a count, then the items.
pub open spec fn enc_strings(ss: Seq<Seq<char>>) -> Seq<u8> {
    enc_u64(ss.len() as u64) + enc_strings_items(ss)
}

/// A string list that fits its count and length fields.
pub open spec fn strings_fit(ss: Seq<Seq<char>>) -> bool {
    ss.len() <= u64::MAX && forall|i: int| 0 <= i < ss.len() ==> str_fits(#[trigger] ss[i])
}

/// Encoding of one node record: name, identity, superadmin flag.
pub open spec fn enc_node(n: NodeV) -> Seq<u8> {
    enc_str(n.name) + enc_str(n.node) + enc_bool(n.superadmin)
}

/// A node record whose strings fit their length fields.
pub open spec fn node_fits(n: NodeV) -> bool {
    str_fits(n.name) && str_fits(n.node)
}

/// Encoding of the items of a node list, in order.
pub open spec fn enc_nodes_items(ns: Seq<NodeV>) -> Seq<u8>
    decreases ns.len(),
{
    if ns.len() == 0 {
        Seq::empty()
    } else {
        enc_node(ns[0]) + enc_nodes_items(ns.drop_first())
    }
}

/// Encoding of a node-list response: a count, then the items.
pub open spec fn enc_nodes(ns: Seq<NodeV>) -> Seq<u8> {
    enc_u64(ns.len() as u64) + enc_nodes_items(ns)
}

/// A node list that fits its count and length fields.
pub open spec fn nodes_fit(ns: Seq<NodeV>) -> bool {
    ns.len() <= u64::MAX && forall|i: int| 0 <= i < ns.len() ==> node_fits(#[trigger] ns[i])
}

// ---------------------------------------------------------------------------
// Specification: parsers
// ---------------------------------------------------------------------------

/// Reads an integer from the front; yields it and the remaining bytes.
pub open spec fn parse_u64(b: Seq<u8>) -> Option<(u64, Seq<u8>)> {
    if b.len() >= 8 {
        Some((spec_u64_from_le_bytes(b.take(8)), b.skip(8)))
    } else {
        None
    }
}

/// Reads a boolean from the front; only `0` and `1` are accepted.
pub open spec fn parse_bool(b: Seq<u8>) -> Option<(bool, Seq<u8>)> {
    if b.len() >= 1 && (b[0] == 0u8 || b[0] == 1u8) {
        Some((b[0] == 1u8, b.skip(1)))
    } else {
        None
    }
}

/// Reads a string from the front: its byte length, then valid UTF-8.
pub open spec fn parse_str(b: Seq<u8>) -> Option<(Seq<char>, Seq<u8>)> {
    match parse_u64(b) {
        Some((n, rest)) => if n <= rest.len() && valid_utf8(rest.take(n as int)) {
            Some((decode_utf8(rest.take(n as int)), rest.skip(n as int)))
        } else {
            None
        },
        None => None,
    }
}

/// Parses a whole buffer as one command; trailing bytes are refused.
pub open spec fn parse_cmd(b: Seq<u8>) -> Option<CmdV> {
    if b.len() == 0 {
        None
    } else {
        let tag = b[0];
        let rest = b.skip(1);
        if tag == 0u8 {
            if rest.len() == 0 {
                Some(CmdV::Roles)
            } else {
                None
            }
        } else if tag == 1u8 {
            if rest.len() == 0 {
                Some(CmdV::Nodes)
            } else {
                None
            }
        } else if tag == 2u8 {
            match parse_str(rest) {
                Some((node, r1)) => if r1.len() == 0 {
                    Some(CmdV::NodeRoles { node })
                } else {
                    None
                },
                None => None,
            }
        } else if tag == 3u8 {
            match parse_str(rest) {
                Some((name, r1)) => match parse_str(r1) {
                    Some((node, r2)) => match parse_bool(r2) {
                        Some((superadmin, r3)) => if r3.len() == 0 {
                            Some(CmdV::CreateNode { name, node, superadmin })
                        } else {
                            None
                        },
                        None => None,
                    },
                    None => None,
                },
                None => None,
            }
        } else if tag == 4u8 {
            match parse_str(rest) {
                Some((node, r1)) => if r1.len() == 0 {
                    Some(CmdV::DeleteNode { node })
                } else {
                    None
                },
                None => None,
            }
        } else if tag == 5u8 {
            match parse_str(rest) {
                Some((node, r1)) => match parse_str(r1) {
                    Some((role, r2)) => if r2.len() == 0 {
                        Some(CmdV::GrantRole { node, role })
                    } else {
                        None
                    },
                    None => None,
                },
                None => None,
            }
        } else if tag == 6u8 {
            match parse_str(rest) {
                Some((node, r1)) => match parse_str(r1) {
                    Some((role, r2)) => if r2.len() == 0 {
                        Some(CmdV::RevokeRole { node, role })
                    } else {
                        None
                    },
                    None => None,
                },
                None => None,
            }
        } else {
            None
        }
    }
}

/// Reads `n` strings from the front.
pub open spec fn parse_strings_items(b: Seq<u8>, n: nat) -> Option<(Seq<Seq<char>>, Seq<u8>)>
    decreases n,
{
    if n == 0 {
        Some((Seq::empty(), b))
    } else {
        match parse_str(b) {
            Some((s, r1)) => match parse_strings_items(r1, (n - 1) as nat) {
                Some((items, r2)) => Some((seq![s] + items, r2)),
                None => None,
            },
            None => None,
        }
    }
}

/// Parses a whole buffer as a string-list response.
pub open spec fn parse_strings(b: Seq<u8>) -> Option<Seq<Seq<char>>> {
    match parse_u64(b) {
        Some((n, rest)) => match parse_strings_items(rest, n as nat) {
            Some((items, r1)) => if r1.len() == 0 {
                Some(items)
            } else {
                None
            },
            None => None,
        },
        None => None,
    }
}

/// Reads one node record from the front.
pub open spec fn parse_node(b: Seq<u8>) -> Option<(NodeV, Seq<u8>)> {
    match parse_str(b) {
        Some((name, r1)) => match parse_str(r1) {
            Some((node, r2)) => match parse_bool(r2) {
                Some((superadmin, r3)) => Some((NodeV { name, node, superadmin }, r3)),
                None => None,
            },
            None => None,
        },
        None => None,
    }
}

/// Reads `n` node records from the front.
pub open spec fn parse_nodes_items(b: Seq<u8>, n: nat) -> Option<(Seq<NodeV>, Seq<u8>)>
    decreases n,
{
    if n == 0 {
        Some((Seq::empty(), b))
    } else {
        match parse_node(b) {
            Some((item, r1)) => match parse_nodes_items(r1, (n - 1) as nat) {
                Some((items, r2)) => Some((seq![item] + items, r2)),
                None => None,
            },
            None => None,
        }
    }
}

/// Parses a whole buffer as a node-list response.
pub open spec fn parse_nodes(b: Seq<u8>) -> Option<Seq<NodeV>> {
    match parse_u64(b) {
        Some((n, rest)) => match parse_nodes_items(rest, n as nat) {
            Some((items, r1)) => if r1.len() == 0 {
                Some(items)
            } else {
                None
            },
            None => None,
        },
        None => None,
    }
}

/// Parses a whole buffer as a single-node response.
pub open spec fn parse_node_msg(b: Seq<u8>) -> Option<NodeV> {
    match parse_node(b) {
        Some((item, r1)) => if r1.len() == 0 {
            Some(item)
        } else {
            None
        },
        None => None,
    }
}


// ---------------------------------------------------------------------------
// Round-trip and unambiguity lemmas for the primitives
// ---------------------------------------------------------------------------

/// Reading an encoded integer yields it back and leaves the rest untouched.
pub proof fn lemma_parse_enc_u64(n: u64, rest: Seq<u8>)
    ensures
        parse_u64(enc_u64(n) + rest) == Some((n, rest)),
{
    lemma_auto_spec_u64_to_from_le_bytes();
    assert((enc_u64(n) + rest).take(8) =~= enc_u64(n));
    assert((enc_u64(n) + rest).skip(8) =~= rest);
}

/// An integer parses from exactly one byte string: its encoding.
pub proof fn lemma_parse_u64_sound(b: Seq<u8>, n: u64, rest: Seq<u8>)
    requires
        parse_u64(b) == Some((n, rest)),
    ensures
        b == enc_u64(n) + rest,
        rest.len() + 8 == b.len(),
{
    lemma_auto_spec_u64_to_from_le_bytes();
    assert(b.take(8).len() == 8);
    assert(enc_u64(n) == b.take(8));
    assert(b =~= b.take(8) + b.skip(8));
}

/// Reading an encoded boolean yields it back.
pub proof fn lemma_parse_enc_bool(v: bool, rest: Seq<u8>)
    ensures
        parse_bool(enc_bool(v) + rest) == Some((v, rest)),
{
    assert((enc_bool(v) + rest)[0] == enc_bool(v)[0]);
    assert((enc_bool(v) + rest).skip(1) =~= rest);
}

/// A boolean parses from exactly one byte string: its encoding.
pub proof fn lemma_parse_bool_sound(b: Seq<u8>, v: bool, rest: Seq<u8>)
    requires
        parse_bool(b) == Some((v, rest)),
    ensures
        b == enc_bool(v) + rest,
        rest.len() + 1 == b.len(),
{
    assert(b =~= seq![b[0]] + b.skip(1));
    assert(enc_bool(v) =~= seq![b[0]]);
}

/// Reading an encoded string yields it back and leaves the rest untouched.
pub proof fn lemma_parse_enc_str(s: Seq<char>, rest: Seq<u8>)
    requires
        str_fits(s),
    ensures
        parse_str(enc_str(s) + rest) == Some((s, rest)),
{
    let e = encode_utf8(s);
    let n = e.len() as u64;
    assert(enc_str(s) + rest =~= enc_u64(n) + (e + rest));
    lemma_parse_enc_u64(n, e + rest);
    assert((e + rest).take(n as int) =~= e);
    assert((e + rest).skip(n as int) =~= rest);
    encode_utf8_valid_utf8(s);
    encode_utf8_decode_utf8(s);
}

/// A string parses from exactly one byte string: its encoding.
pub proof fn lemma_parse_str_sound(b: Seq<u8>, s: Seq<char>, rest: Seq<u8>)
    requires
        parse_str(b) == Some((s, rest)),
    ensures
        str_fits(s),
        b == enc_str(s) + rest,
        rest.len() + 8 <= b.len(),
{
    let (n, r0) = parse_u64(b).unwrap();
    lemma_parse_u64_sound(b, n, r0);
    let e = r0.take(n as int);
    decode_utf8_encode_utf8(e);
    assert(encode_utf8(s) == e);
    assert(enc_str(s) == enc_u64(n) + e);
    assert(b =~= (enc_u64(n) + e) + r0.skip(n as int)) by {
        assert(r0 =~= e + r0.skip(n as int));
        assert(enc_u64(n) + r0 =~= (enc_u64(n) + e) + r0.skip(n as int));
    }
}

// ---------------------------------------------------------------------------
// Round-trip and unambiguity for commands
// ---------------------------------------------------------------------------

/// Decoding an encoded command yields the command back.
pub proof fn lemma_cmd_round_trip(c: CmdV)
    requires
        cmd_fits(c),
    ensures
        parse_cmd(enc_cmd(c)) == Some(c),
{
    let b = enc_cmd(c);
    match c {
        CmdV::Roles => {
            assert(b.skip(1) =~= Seq::<u8>::empty());
        },
        CmdV::Nodes => {
            assert(b.skip(1) =~= Seq::<u8>::empty());
        },
        CmdV::NodeRoles { node } => {
            assert(b.skip(1) =~= enc_str(node) + Seq::<u8>::empty());
            lemma_parse_enc_str(node, Seq::<u8>::empty());
        },
        CmdV::CreateNode { name, node, superadmin } => {
            assert(b.skip(1) =~= enc_str(name) + (enc_str(node) + (enc_bool(superadmin)
                + Seq::<u8>::empty())));
            lemma_parse_enc_str(name, enc_str(node) + (enc_bool(superadmin) + Seq::<u8>::empty()));
            lemma_parse_enc_str(node, enc_bool(superadmin) + Seq::<u8>::empty());
            lemma_parse_enc_bool(superadmin, Seq::<u8>::empty());
        },
        CmdV::DeleteNode { node } => {
            assert(b.skip(1) =~= enc_str(node) + Seq::<u8>::empty());
            lemma_parse_enc_str(node, Seq::<u8>::empty());
        },
        CmdV::GrantRole { node, role } => {
            assert(b.skip(1) =~= enc_str(node) + (enc_str(role) + Seq::<u8>::empty()));
            lemma_parse_enc_str(node, enc_str(role) + Seq::<u8>::empty());
            lemma_parse_enc_str(role, Seq::<u8>::empty());
        },
        CmdV::RevokeRole { node, role } => {
            assert(b.skip(1) =~= enc_str(node) + (enc_str(role) + Seq::<u8>::empty()));
            lemma_parse_enc_str(node, enc_str(role) + Seq::<u8>::empty());
            lemma_parse_enc_str(role, Seq::<u8>::empty());
        },
    }
}

/// A command parses from exactly one byte string: its encoding. Together
/// with the round trip this makes the encoding unambiguous.
pub proof fn lemma_parse_cmd_sound(b: Seq<u8>, c: CmdV)
    requires
        parse_cmd(b) == Some(c),
    ensures
        cmd_fits(c),
        enc_cmd(c) == b,
{
    let tag = b[0];
    let rest = b.skip(1);
    assert(b =~= seq![tag] + rest);
    match c {
        CmdV::Roles => {
            assert(rest =~= Seq::<u8>::empty());
            assert(enc_cmd(c) =~= seq![tag] + rest);
        },
        CmdV::Nodes => {
            assert(rest =~= Seq::<u8>::empty());
            assert(enc_cmd(c) =~= seq![tag] + rest);
        },
        CmdV::NodeRoles { node } => {
            let (s1, r1) = parse_str(rest).unwrap();
            lemma_parse_str_sound(rest, s1, r1);
            assert(r1 =~= Seq::<u8>::empty());
            assert(enc_str(node) + r1 =~= enc_str(node));
            assert(enc_cmd(c) =~= seq![tag] + enc_str(node));
        },
        CmdV::CreateNode { name, node, superadmin } => {
            let (s1, r1) = parse_str(rest).unwrap();
            lemma_parse_str_sound(rest, s1, r1);
            let (s2, r2) = parse_str(r1).unwrap();
            lemma_parse_str_sound(r1, s2, r2);
            let (v3, r3) = parse_bool(r2).unwrap();
            lemma_parse_bool_sound(r2, v3, r3);
            assert(r3 =~= Seq::<u8>::empty());
            assert(enc_bool(superadmin) + r3 =~= enc_bool(superadmin));
            assert(enc_cmd(c) =~= seq![tag] + (enc_str(name) + (enc_str(node) + enc_bool(
                superadmin,
            ))));
        },
        CmdV::DeleteNode { node } => {
            let (s1, r1) = parse_str(rest).unwrap();
            lemma_parse_str_sound(rest, s1, r1);
            assert(r1 =~= Seq::<u8>::empty());
            assert(enc_str(node) + r1 =~= enc_str(node));
            assert(enc_cmd(c) =~= seq![tag] + enc_str(node));
        },
        CmdV::GrantRole { node, role } => {
            let (s1, r1) = parse_str(rest).unwrap();
            lemma_parse_str_sound(rest, s1, r1);
            let (s2, r2) = parse_str(r1).unwrap();
            lemma_parse_str_sound(r1, s2, r2);
            assert(r2 =~= Seq::<u8>::empty());
            assert(enc_str(role) + r2 =~= enc_str(role));
            assert(enc_cmd(c) =~= seq![tag] + (enc_str(node) + enc_str(role)));
        },
        CmdV::RevokeRole { node, role } => {
            let (s1, r1) = parse_str(rest).unwrap();
            lemma_parse_str_sound(rest, s1, r1);
            let (s2, r2) = parse_str(r1).unwrap();
            lemma_parse_str_sound(r1, s2, r2);
            assert(r2 =~= Seq::<u8>::empty());
            assert(enc_str(role) + r2 =~= enc_str(role));
            assert(enc_cmd(c) =~= seq![tag] + (enc_str(node) + enc_str(role)));
        },
    }
}


// ---------------------------------------------------------------------------
// Round-trip and unambiguity for responses
// ---------------------------------------------------------------------------

/// Appending one string to a list appends its encoding.
pub proof fn lemma_enc_strings_items_snoc(ss: Seq<Seq<char>>, x: Seq<char>)
    ensures
        enc_strings_items(ss.push(x)) == enc_strings_items(ss) + enc_str(x),
    decreases ss.len(),
{
    if ss.len() == 0 {
        assert(ss.push(x)[0] == x);
        assert(ss.push(x).drop_first() =~= Seq::<Seq<char>>::empty());
        assert(enc_strings_items(Seq::<Seq<char>>::empty()) == Seq::<u8>::empty());
        assert(enc_strings_items(ss.push(x)) == enc_str(x) + Seq::<u8>::empty());
        assert(enc_strings_items(ss.push(x)) =~= enc_strings_items(ss) + enc_str(x));
    } else {
        assert(ss.push(x)[0] == ss[0]);
        assert(ss.push(x).drop_first() =~= ss.drop_first().push(x));
        lemma_enc_strings_items_snoc(ss.drop_first(), x);
        assert(enc_strings_items(ss.push(x)) == enc_str(ss[0]) + (enc_strings_items(
            ss.drop_first(),
        ) + enc_str(x)));
        assert(enc_strings_items(ss.push(x)) =~= enc_strings_items(ss) + enc_str(x));
    }
}

/// Reading back `n` encoded strings yields them in order.
pub proof fn lemma_parse_enc_strings_items(ss: Seq<Seq<char>>, rest: Seq<u8>)
    requires
        forall|i: int| 0 <= i < ss.len() ==> str_fits(#[trigger] ss[i]),
    ensures
        parse_strings_items(enc_strings_items(ss) + rest, ss.len()) == Some((ss, rest)),
    decreases ss.len(),
{
    if ss.len() == 0 {
        assert(enc_strings_items(ss) + rest =~= rest);
        assert(parse_strings_items(rest, 0) == Some((Seq::<Seq<char>>::empty(), rest)));
        assert(ss =~= Seq::<Seq<char>>::empty());
    } else {
        let tail = ss.drop_first();
        assert(enc_strings_items(ss) + rest =~= enc_str(ss[0]) + (enc_strings_items(tail) + rest));
        lemma_parse_enc_str(ss[0], enc_strings_items(tail) + rest);
        lemma_parse_enc_strings_items(tail, rest);
        assert(seq![ss[0]] + tail =~= ss);
    }
}

/// `n` strings parse from exactly one byte string: their encodings in order.
pub proof fn lemma_parse_strings_items_sound(b: Seq<u8>, n: nat, items: Seq<Seq<char>>, rest: Seq<u8>)
    requires
        parse_strings_items(b, n) == Some((items, rest)),
    ensures
        items.len() == n,
        forall|i: int| 0 <= i < items.len() ==> str_fits(#[trigger] items[i]),
        b == enc_strings_items(items) + rest,
    decreases n,
{
    if n == 0 {
        assert(items =~= Seq::<Seq<char>>::empty());
        assert(b =~= enc_strings_items(items) + rest);
    } else {
        let (s, r1) = parse_str(b).unwrap();
        let (tail, r2) = parse_strings_items(r1, (n - 1) as nat).unwrap();
        lemma_parse_str_sound(b, s, r1);
        lemma_parse_strings_items_sound(r1, (n - 1) as nat, tail, r2);
        assert(items == seq![s] + tail);
        assert(items[0] == s);
        assert(items.drop_first() =~= tail);
        assert(b =~= enc_strings_items(items) + rest) by {
            assert(enc_strings_items(items) == enc_str(s) + enc_strings_items(tail));
            assert(b == enc_str(s) + (enc_strings_items(tail) + rest));
        }
    }
}

/// Decoding an encoded string-list response yields the list back.
pub proof fn lemma_strings_round_trip(ss: Seq<Seq<char>>)
    requires
        strings_fit(ss),
    ensures
        parse_strings(enc_strings(ss)) == Some(ss),
{
    let n = ss.len() as u64;
    assert(enc_strings(ss) =~= enc_u64(n) + (enc_strings_items(ss) + Seq::<u8>::empty()));
    lemma_parse_enc_u64(n, enc_strings_items(ss) + Seq::<u8>::empty());
    lemma_parse_enc_strings_items(ss, Seq::<u8>::empty());
}

/// A string-list response parses from exactly one byte string: its encoding.
pub proof fn lemma_parse_strings_sound(b: Seq<u8>, ss: Seq<Seq<char>>)
    requires
        parse_strings(b) == Some(ss),
    ensures
        strings_fit(ss),
        enc_strings(ss) == b,
{
    let (n, r0) = parse_u64(b).unwrap();
    lemma_parse_u64_sound(b, n, r0);
    let (items, r1) = parse_strings_items(r0, n as nat).unwrap();
    lemma_parse_strings_items_sound(r0, n as nat, items, r1);
    assert(r0 =~= enc_strings_items(ss) + r1);
    assert(enc_strings_items(ss) + r1 =~= enc_strings_items(ss));
    assert(enc_strings(ss) =~= enc_u64(n) + enc_strings_items(ss));
}

/// Reading an encoded node record yields it back.
pub proof fn lemma_parse_enc_node(n: NodeV, rest: Seq<u8>)
    requires
        node_fits(n),
    ensures
        parse_node(enc_node(n) + rest) == Some((n, rest)),
{
    assert(enc_node(n) + rest =~= enc_str(n.name) + (enc_str(n.node) + (enc_bool(n.superadmin)
        + rest)));
    lemma_parse_enc_str(n.name, enc_str(n.node) + (enc_bool(n.superadmin) + rest));
    lemma_parse_enc_str(n.node, enc_bool(n.superadmin) + rest);
    lemma_parse_enc_bool(n.superadmin, rest);
}

/// A node record parses from exactly one byte string: its encoding.
pub proof fn lemma_parse_node_sound(b: Seq<u8>, n: NodeV, rest: Seq<u8>)
    requires
        parse_node(b) == Some((n, rest)),
    ensures
        node_fits(n),
        b == enc_node(n) + rest,
        rest.len() < b.len(),
{
    let (s1, r1) = parse_str(b).unwrap();
    lemma_parse_str_sound(b, s1, r1);
    let (s2, r2) = parse_str(r1).unwrap();
    lemma_parse_str_sound(r1, s2, r2);
    let (v3, r3) = parse_bool(r2).unwrap();
    lemma_parse_bool_sound(r2, v3, r3);
    assert(b =~= enc_node(n) + rest);
}

/// Appending one node to a list appends its encoding.
pub proof fn lemma_enc_nodes_items_snoc(ns: Seq<NodeV>, x: NodeV)
    ensures
        enc_nodes_items(ns.push(x)) == enc_nodes_items(ns) + enc_node(x),
    decreases ns.len(),
{
    if ns.len() == 0 {
        assert(ns.push(x)[0] == x);
        assert(ns.push(x).drop_first() =~= Seq::<NodeV>::empty());
        assert(enc_nodes_items(Seq::<NodeV>::empty()) == Seq::<u8>::empty());
        assert(enc_nodes_items(ns.push(x)) == enc_node(x) + Seq::<u8>::empty());
        assert(enc_nodes_items(ns.push(x)) =~= enc_nodes_items(ns) + enc_node(x));
    } else {
        assert(ns.push(x)[0] == ns[0]);
        assert(ns.push(x).drop_first() =~= ns.drop_first().push(x));
        lemma_enc_nodes_items_snoc(ns.drop_first(), x);
        assert(enc_nodes_items(ns.push(x)) == enc_node(ns[0]) + (enc_nodes_items(ns.drop_first())
            + enc_node(x)));
        assert(enc_nodes_items(ns.push(x)) =~= enc_nodes_items(ns) + enc_node(x));
    }
}

/// Reading back `n` encoded node records yields them in order.
pub proof fn lemma_parse_enc_nodes_items(ns: Seq<NodeV>, rest: Seq<u8>)
    requires
        forall|i: int| 0 <= i < ns.len() ==> node_fits(#[trigger] ns[i]),
    ensures
        parse_nodes_items(enc_nodes_items(ns) + rest, ns.len()) == Some((ns, rest)),
    decreases ns.len(),
{
    if ns.len() == 0 {
        assert(enc_nodes_items(ns) + rest =~= rest);
        assert(ns =~= Seq::<NodeV>::empty());
    } else {
        let tail = ns.drop_first();
        assert(enc_nodes_items(ns) + rest =~= enc_node(ns[0]) + (enc_nodes_items(tail) + rest));
        lemma_parse_enc_node(ns[0], enc_nodes_items(tail) + rest);
        lemma_parse_enc_nodes_items(tail, rest);
        assert(seq![ns[0]] + tail =~= ns);
    }
}

/// `n` node records parse from exactly one byte string.
#[verifier::rlimit(50)]
pub proof fn lemma_parse_nodes_items_sound(b: Seq<u8>, n: nat, items: Seq<NodeV>, rest: Seq<u8>)
    requires
        parse_nodes_items(b, n) == Some((items, rest)),
    ensures
        items.len() == n,
        forall|i: int| 0 <= i < items.len() ==> node_fits(#[trigger] items[i]),
        b == enc_nodes_items(items) + rest,
    decreases n,
{
    if n == 0 {
        assert(items =~= Seq::<NodeV>::empty());
        assert(b =~= enc_nodes_items(items) + rest);
    } else {
        let (x, r1) = parse_node(b).unwrap();
        let (tail, r2) = parse_nodes_items(r1, (n - 1) as nat).unwrap();
        lemma_parse_node_sound(b, x, r1);
        lemma_parse_nodes_items_sound(r1, (n - 1) as nat, tail, r2);
        assert(items == seq![x] + tail);
        assert(items[0] == x);
        assert(items.drop_first() =~= tail);
        assert(b =~= enc_nodes_items(items) + rest) by {
            assert(enc_nodes_items(items) == enc_node(x) + enc_nodes_items(tail));
            assert(b == enc_node(x) + (enc_nodes_items(tail) + rest));
        }
    }
}

/// Decoding an encoded node-list response yields the list back.
pub proof fn lemma_nodes_round_trip(ns: Seq<NodeV>)
    requires
        nodes_fit(ns),
    ensures
        parse_nodes(enc_nodes(ns)) == Some(ns),
{
    let n = ns.len() as u64;
    assert(enc_nodes(ns) =~= enc_u64(n) + (enc_nodes_items(ns) + Seq::<u8>::empty()));
    lemma_parse_enc_u64(n, enc_nodes_items(ns) + Seq::<u8>::empty());
    lemma_parse_enc_nodes_items(ns, Seq::<u8>::empty());
}

/// A node-list response parses from exactly one byte string: its encoding.
pub proof fn lemma_parse_nodes_sound(b: Seq<u8>, ns: Seq<NodeV>)
    requires
        parse_nodes(b) == Some(ns),
    ensures
        nodes_fit(ns),
        enc_nodes(ns) == b,
{
    let (n, r0) = parse_u64(b).unwrap();
    lemma_parse_u64_sound(b, n, r0);
    let (items, r1) = parse_nodes_items(r0, n as nat).unwrap();
    lemma_parse_nodes_items_sound(r0, n as nat, items, r1);
    assert(r0 =~= enc_nodes_items(ns) + r1);
    assert(enc_nodes_items(ns) + r1 =~= enc_nodes_items(ns));
    assert(enc_nodes(ns) =~= enc_u64(n) + enc_nodes_items(ns));
}

/// Decoding an encoded single-node response yields the record back.
pub proof fn lemma_node_msg_round_trip(n: NodeV)
    requires
        node_fits(n),
    ensures
        parse_node_msg(enc_node(n)) == Some(n),
{
    assert(enc_node(n) =~= enc_node(n) + Seq::<u8>::empty());
    lemma_parse_enc_node(n, Seq::<u8>::empty());
}


// ---------------------------------------------------------------------------
// Executable decoders
// ---------------------------------------------------------------------------

/// Relies on String::from_utf8: it succeeds exactly on valid UTF-8 input and
/// yields the string of the decoded characters.
#[verifier::external_body]
fn string_from_utf8(v: Vec<u8>) -> (r: Option<String>)
    ensures
        r is Some <==> valid_utf8(v@),
        r matches Some(s) ==> s@ == decode_utf8(v@),
{
    String::from_utf8(v).ok()
}

/// Reads an integer at `pos`, returning it and the position after it.
fn read_u64(b: &[u8], pos: usize) -> (r: Option<(u64, usize)>)
    requires
        pos <= b@.len(),
    ensures
        match r {
            Some((n, end)) => pos <= end <= b@.len() && parse_u64(b@.skip(pos as int)) == Some(
                (n, b@.skip(end as int)),
            ),
            None => parse_u64(b@.skip(pos as int)) is None,
        },
{
    if b.len() - pos >= 8 {
        let sl = slice_subrange(b, pos, pos + 8);
        let n = u64_from_le_bytes(sl);
        proof {
            assert(b@.skip(pos as int).take(8) =~= sl@);
            assert(b@.skip(pos as int).skip(8) =~= b@.skip(pos as int + 8));
        }
        Some((n, pos + 8))
    } else {
        None
    }
}

/// Reads a boolean at `pos`.
fn read_bool(b: &[u8], pos: usize) -> (r: Option<(bool, usize)>)
    requires
        pos <= b@.len(),
    ensures
        match r {
            Some((v, end)) => pos <= end <= b@.len() && parse_bool(b@.skip(pos as int)) == Some(
                (v, b@.skip(end as int)),
            ),
            None => parse_bool(b@.skip(pos as int)) is None,
        },
{
    if pos < b.len() {
        let c = b[pos];
        proof {
            assert(b@.skip(pos as int)[0] == b@[pos as int]);
            assert(b@.skip(pos as int).skip(1) =~= b@.skip(pos as int + 1));
        }
        if c == 0 {
            Some((false, pos + 1))
        } else if c == 1 {
            Some((true, pos + 1))
        } else {
            None
        }
    } else {
        None
    }
}

/// Reads a string at `pos`.
fn read_str(b: &[u8], pos: usize) -> (r: Option<(String, usize)>)
    requires
        pos <= b@.len(),
    ensures
        match r {
            Some((s, end)) => pos <= end <= b@.len() && parse_str(b@.skip(pos as int)) == Some(
                (s@, b@.skip(end as int)),
            ),
            None => parse_str(b@.skip(pos as int)) is None,
        },
{
    let (n, p1) = match read_u64(b, pos) {
        Some(x) => x,
        None => {
            return None;
        },
    };
    let ghost rest = b@.skip(p1 as int);
    if n > (b.len() - p1) as u64 {
        return None;
    }
    let m = n as usize;
    let sl = slice_subrange(b, p1, p1 + m);
    let v = slice_to_vec(sl);
    proof {
        assert(rest.take(n as int) =~= sl@);
        assert(rest.skip(n as int) =~= b@.skip(p1 as int + m as int));
    }
    match string_from_utf8(v) {
        Some(s) => Some((s, p1 + m)),
        None => None,
    }
}

/// Reads one node record at `pos`.
fn read_node(b: &[u8], pos: usize) -> (r: Option<(Node, usize)>)
    requires
        pos <= b@.len(),
    ensures
        match r {
            Some((x, end)) => pos <= end <= b@.len() && parse_node(b@.skip(pos as int)) == Some(
                (x@, b@.skip(end as int)),
            ),
            None => parse_node(b@.skip(pos as int)) is None,
        },
{
    let (name, p1) = match read_str(b, pos) {
        Some(x) => x,
        None => {
            return None;
        },
    };
    let (node, p2) = match read_str(b, p1) {
        Some(x) => x,
        None => {
            return None;
        },
    };
    let (superadmin, p3) = match read_bool(b, p2) {
        Some(x) => x,
        None => {
            return None;
        },
    };
    Some((Node { name, node, superadmin }, p3))
}

/// Decodes a whole buffer as one command; trailing or malformed bytes are
/// refused, exactly as `parse_cmd` says.
pub fn decode_cmd(b: &[u8]) -> (r: Option<Cmd>)
    ensures
        match r {
            Some(c) => parse_cmd(b@) == Some(c@),
            None => parse_cmd(b@) is None,
        },
{
    if b.len() == 0 {
        return None;
    }
    let tag = b[0];
    proof {
        assert(b@.skip(1).len() == b@.len() - 1);
    }
    if tag == 0 {
        if b.len() == 1 {
            Some(Cmd::Roles)
        } else {
            None
        }
    } else if tag == 1 {
        if b.len() == 1 {
            Some(Cmd::Nodes)
        } else {
            None
        }
    } else if tag == 2 {
        match read_str(b, 1) {
            Some((node, end)) => if end == b.len() {
                Some(Cmd::NodeRoles { node })
            } else {
                None
            },
            None => None,
        }
    } else if tag == 3 {
        let (name, p1) = match read_str(b, 1) {
            Some(x) => x,
            None => {
                return None;
            },
        };
        let (node, p2) = match read_str(b, p1) {
            Some(x) => x,
            None => {
                return None;
            },
        };
        let (superadmin, p3) = match read_bool(b, p2) {
            Some(x) => x,
            None => {
                return None;
            },
        };
        if p3 == b.len() {
            Some(Cmd::CreateNode { name, node, superadmin })
        } else {
            None
        }
    } else if tag == 4 {
        match read_str(b, 1) {
            Some((node, end)) => if end == b.len() {
                Some(Cmd::DeleteNode { node })
            } else {
                None
            },
            None => None,
        }
    } else if tag == 5 {
        let (node, p1) = match read_str(b, 1) {
            Some(x) => x,
            None => {
                return None;
            },
        };
        let (role, p2) = match read_str(b, p1) {
            Some(x) => x,
            None => {
                return None;
            },
        };
        if p2 == b.len() {
            Some(Cmd::GrantRole { node, role })
        } else {
            None
        }
    } else if tag == 6 {
        let (node, p1) = match read_str(b, 1) {
            Some(x) => x,
            None => {
                return None;
            },
        };
        let (role, p2) = match read_str(b, p1) {
            Some(x) => x,
            None => {
                return None;
            },
        };
        if p2 == b.len() {
            Some(Cmd::RevokeRole { node, role })
        } else {
            None
        }
    } else {
        None
    }
}

/// Decodes a whole buffer as a string-list response.
pub fn decode_strings(b: &[u8]) -> (r: Option<Vec<String>>)
    ensures
        match r {
            Some(v) => parse_strings(b@) == Some(v.deep_view()),
            None => parse_strings(b@) is None,
        },
{
    proof {
        assert(b@.skip(0) =~= b@);
    }
    let (count, start_pos) = match read_u64(b, 0) {
        Some(x) => x,
        None => {
            return None;
        },
    };
    let ghost start = b@.skip(start_pos as int);
    let mut acc: Vec<String> = Vec::new();
    let mut pos = start_pos;
    let mut i: u64 = 0;
    loop
        invariant
            i <= count,
            pos <= b@.len(),
            acc.deep_view().len() == i,
            parse_u64(b@) == Some((count, start)),
            match parse_strings_items(b@.skip(pos as int), (count - i) as nat) {
                Some((items, r1)) => parse_strings_items(start, count as nat) == Some(
                    (acc.deep_view() + items, r1),
                ),
                None => parse_strings_items(start, count as nat) is None,
            },
        ensures
            pos <= b@.len(),
            parse_u64(b@) == Some((count, start)),
            parse_strings_items(start, count as nat) == Some(
                (acc.deep_view(), b@.skip(pos as int)),
            ),
        decreases count - i,
    {
        if i == count {
            proof {
                assert(parse_strings_items(b@.skip(pos as int), (count - i) as nat) == Some(
                    (Seq::<Seq<char>>::empty(), b@.skip(pos as int)),
                ));
                assert(acc.deep_view() + Seq::<Seq<char>>::empty() =~= acc.deep_view());
            }
            break;
        }
        match read_str(b, pos) {
            Some((s, p2)) => {
                proof {
                    let ghost tail_n = (count - i - 1) as nat;
                    match parse_strings_items(b@.skip(p2 as int), tail_n) {
                        Some((items, r1)) => {
                            assert((acc.deep_view().push(s@)) + items =~= acc.deep_view() + (seq![
                                s@,
                            ] + items));
                        },
                        None => {},
                    }
                }
                let ghost old_acc = acc.deep_view();
                acc.push(s);
                proof {
                    assert(acc.deep_view() =~= old_acc.push(s@));
                }
                pos = p2;
                i = i + 1;
            },
            None => {
                return None;
            },
        }
    }
    if pos == b.len() {
        proof {
            assert(b@.skip(pos as int).len() == 0);
        }
        Some(acc)
    } else {
        proof {
            assert(b@.skip(pos as int).len() != 0);
        }
        None
    }
}

/// Decodes a whole buffer as a node-list response.
pub fn decode_nodes(b: &[u8]) -> (r: Option<Vec<Node>>)
    ensures
        match r {
            Some(v) => parse_nodes(b@) == Some(v.deep_view()),
            None => parse_nodes(b@) is None,
        },
{
    proof {
        assert(b@.skip(0) =~= b@);
    }
    let (count, start_pos) = match read_u64(b, 0) {
        Some(x) => x,
        None => {
            return None;
        },
    };
    let ghost start = b@.skip(start_pos as int);
    let mut acc: Vec<Node> = Vec::new();
    let mut pos = start_pos;
    let mut i: u64 = 0;
    loop
        invariant
            i <= count,
            pos <= b@.len(),
            acc.deep_view().len() == i,
            parse_u64(b@) == Some((count, start)),
            match parse_nodes_items(b@.skip(pos as int), (count - i) as nat) {
                Some((items, r1)) => parse_nodes_items(start, count as nat) == Some(
                    (acc.deep_view() + items, r1),
                ),
                None => parse_nodes_items(start, count as nat) is None,
            },
        ensures
            pos <= b@.len(),
            parse_u64(b@) == Some((count, start)),
            parse_nodes_items(start, count as nat) == Some((acc.deep_view(), b@.skip(pos as int))),
        decreases count - i,
    {
        if i == count {
            proof {
                assert(parse_nodes_items(b@.skip(pos as int), (count - i) as nat) == Some(
                    (Seq::<NodeV>::empty(), b@.skip(pos as int)),
                ));
                assert(acc.deep_view() + Seq::<NodeV>::empty() =~= acc.deep_view());
            }
            break;
        }
        match read_node(b, pos) {
            Some((x, p2)) => {
                proof {
                    let ghost tail_n = (count - i - 1) as nat;
                    match parse_nodes_items(b@.skip(p2 as int), tail_n) {
                        Some((items, r1)) => {
                            assert((acc.deep_view().push(x@)) + items =~= acc.deep_view() + (seq![
                                x@,
                            ] + items));
                        },
                        None => {},
                    }
                }
                let ghost old_acc = acc.deep_view();
                acc.push(x);
                proof {
                    assert(acc.deep_view() =~= old_acc.push(x@));
                }
                pos = p2;
                i = i + 1;
            },
            None => {
                return None;
            },
        }
    }
    if pos == b.len() {
        proof {
            assert(b@.skip(pos as int).len() == 0);
        }
        Some(acc)
    } else {
        proof {
            assert(b@.skip(pos as int).len() != 0);
        }
        None
    }
}

/// Decodes a whole buffer as a single-node response.
pub fn decode_node_msg(b: &[u8]) -> (r: Option<Node>)
    ensures
        match r {
            Some(x) => parse_node_msg(b@) == Some(x@),
            None => parse_node_msg(b@) is None,
        },
{
    proof {
        assert(b@.skip(0) =~= b@);
    }
    match read_node(b, 0) {
        Some((x, end)) => if end == b.len() {
            proof {
                assert(b@.skip(end as int).len() == 0);
            }
            Some(x)
        } else {
            proof {
                assert(b@.skip(end as int).len() != 0);
            }
            None
        },
        None => None,
    }
}

// ---------------------------------------------------------------------------
// Executable encoders
// ---------------------------------------------------------------------------

/// Appends the encoding of an integer.
fn write_u64(out: &mut Vec<u8>, n: u64)
    ensures
        final(out)@ == old(out)@ + enc_u64(n),
{
    let mut tmp = u64_to_le_bytes(n);
    out.append(&mut tmp);
}

/// Appends the encoding of a boolean.
fn write_bool(out: &mut Vec<u8>, v: bool)
    ensures
        final(out)@ == old(out)@ + enc_bool(v),
{
    if v {
        out.push(1);
        proof {
            assert(old(out)@.push(1u8) =~= old(out)@ + enc_bool(v));
        }
    } else {
        out.push(0);
        proof {
            assert(old(out)@.push(0u8) =~= old(out)@ + enc_bool(v));
        }
    }
}

/// Appends the encoding of a string.
fn write_str(out: &mut Vec<u8>, s: &str)
    ensures
        final(out)@ == old(out)@ + enc_str(s@),
{
    let mut bytes = s.as_bytes_vec();
    let n = bytes.len() as u64;
    write_u64(out, n);
    out.append(&mut bytes);
    proof {
        assert(final(out)@ =~= old(out)@ + enc_str(s@));
    }
}

/// Appends the encoding of one node record.
fn write_node(out: &mut Vec<u8>, x: &Node)
    ensures
        final(out)@ == old(out)@ + enc_node(x@),
{
    write_str(out, x.name.as_str());
    write_str(out, x.node.as_str());
    write_bool(out, x.superadmin);
    proof {
        assert(final(out)@ =~= old(out)@ + enc_node(x@));
    }
}

/// Encodes one command for the wire.
pub fn encode_cmd(cmd: &Cmd) -> (r: Vec<u8>)
    ensures
        r@ == enc_cmd(cmd@),
{
    let mut out: Vec<u8> = Vec::new();
    match cmd {
        Cmd::Roles => {
            out.push(0);
            proof {
                assert(out@ =~= enc_cmd(cmd@));
            }
        },
        Cmd::Nodes => {
            out.push(1);
            proof {
                assert(out@ =~= enc_cmd(cmd@));
            }
        },
        Cmd::NodeRoles { node } => {
            out.push(2);
            write_str(&mut out, node.as_str());
            proof {
                assert(out@ =~= enc_cmd(cmd@));
            }
        },
        Cmd::CreateNode { name, node, superadmin } => {
            out.push(3);
            write_str(&mut out, name.as_str());
            write_str(&mut out, node.as_str());
            write_bool(&mut out, *superadmin);
            proof {
                assert(out@ =~= enc_cmd(cmd@));
            }
        },
        Cmd::DeleteNode { node } => {
            out.push(4);
            write_str(&mut out, node.as_str());
            proof {
                assert(out@ =~= enc_cmd(cmd@));
            }
        },
        Cmd::GrantRole { node, role } => {
            out.push(5);
            write_str(&mut out, node.as_str());
            write_str(&mut out, role.as_str());
            proof {
                assert(out@ =~= enc_cmd(cmd@));
            }
        },
        Cmd::RevokeRole { node, role } => {
            out.push(6);
            write_str(&mut out, node.as_str());
            write_str(&mut out, role.as_str());
            proof {
                assert(out@ =~= enc_cmd(cmd@));
            }
        },
    }
    out
}

/// Encodes a string-list response for the wire.
pub fn encode_strings(items: &Vec<String>) -> (r: Vec<u8>)
    ensures
        r@ == enc_strings(items.deep_view()),
{
    let mut out: Vec<u8> = Vec::new();
    proof {
        assert(items.deep_view().len() == items@.len());
    }
    write_u64(&mut out, items.len() as u64);
    let mut j: usize = 0;
    proof {
        assert(items.deep_view().take(0) =~= Seq::<Seq<char>>::empty());
        assert(out@ =~= enc_u64(items@.len() as u64) + enc_strings_items(
            items.deep_view().take(0),
        ));
    }
    while j < items.len()
        invariant
            j <= items@.len(),
            items.deep_view().len() == items@.len(),
            out@ == enc_u64(items@.len() as u64) + enc_strings_items(items.deep_view().take(
                j as int,
            )),
        decreases items@.len() - j,
    {
        let ghost pre = items.deep_view().take(j as int);
        write_str(&mut out, items[j].as_str());
        proof {
            assert(items.deep_view()[j as int] == items@[j as int]@);
            assert(items.deep_view().take(j as int + 1) =~= pre.push(items@[j as int]@));
            lemma_enc_strings_items_snoc(pre, items@[j as int]@);
            assert(out@ =~= enc_u64(items@.len() as u64) + enc_strings_items(
                items.deep_view().take(j as int + 1),
            ));
        }
        j = j + 1;
    }
    proof {
        assert(items.deep_view().take(items@.len() as int) =~= items.deep_view());
    }
    out
}

/// Encodes a node-list response for the wire.
pub fn encode_nodes(items: &Vec<Node>) -> (r: Vec<u8>)
    ensures
        r@ == enc_nodes(items.deep_view()),
{
    let mut out: Vec<u8> = Vec::new();
    proof {
        assert(items.deep_view().len() == items@.len());
    }
    write_u64(&mut out, items.len() as u64);
    let mut j: usize = 0;
    proof {
        assert(items.deep_view().take(0) =~= Seq::<NodeV>::empty());
        assert(out@ =~= enc_u64(items@.len() as u64) + enc_nodes_items(items.deep_view().take(0)));
    }
    while j < items.len()
        invariant
            j <= items@.len(),
            items.deep_view().len() == items@.len(),
            out@ == enc_u64(items@.len() as u64) + enc_nodes_items(items.deep_view().take(j as int)),
        decreases items@.len() - j,
    {
        let ghost pre = items.deep_view().take(j as int);
        write_node(&mut out, &items[j]);
        proof {
            assert(items.deep_view()[j as int] == items@[j as int]@);
            assert(items.deep_view().take(j as int + 1) =~= pre.push(items@[j as int]@));
            lemma_enc_nodes_items_snoc(pre, items@[j as int]@);
            assert(out@ =~= enc_u64(items@.len() as u64) + enc_nodes_items(items.deep_view().take(
                j as int + 1,
            )));
        }
        j = j + 1;
    }
    proof {
        assert(items.deep_view().take(items@.len() as int) =~= items.deep_view());
    }
    out
}

/// Encodes a single-node response for the wire.
pub fn encode_node_msg(x: &Node) -> (r: Vec<u8>)
    ensures
        r@ == enc_node(x@),
{
    let mut out: Vec<u8> = Vec::new();
    write_node(&mut out, x);
    proof {
        assert(out@ =~= enc_node(x@));
    }
    out
}

} // verus!
