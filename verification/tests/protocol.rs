use krpc::error::DecodeError;
use krpc::identifier::{decode_id, encode_id, NodeIdentifier};
use krpc::node::{decode_node, encode_node, CompactNode, NetworkAddress};
use krpc::package::{decode_package, decode_node_value, encode_package, key, Package, Payload};
use krpc::value::{Dict, Value};

const FAKE_TR_ID: [u8; 4] = [1, 2, 254, 255];

fn new_address(port: u16) -> NetworkAddress {
    NetworkAddress { oct0: 127, oct1: 0, oct2: 0, oct3: 1, port }
}

fn new_node(n: u64) -> CompactNode {
    CompactNode { id: NodeIdentifier::from_u64(n), address: new_address(8008) }
}

fn new_package(payload: Payload) -> Package {
    Package {
        transaction_id: FAKE_TR_ID.to_vec(),
        sender: Some(new_node(42)),
        payload,
    }
}

fn common<'a>(b: &'a Value, typ: &str) -> &'a Dict {
    match b {
        Value::Dict(d) => {
            match d.get(&key("tt")) {
                Some(Value::Bytes(v)) => assert_eq!(vec![1, 2, 254, 255], *v),
                other => panic!("unexpected {:?}", other),
            }
            match d.get(&key("y")) {
                Some(Value::Bytes(v)) => assert_eq!(typ.as_bytes(), v.as_slice()),
                other => panic!("unexpected {:?}", other),
            }
            d
        }
        _ => panic!("unexpected {:?}", b),
    }
}

fn dict<'a>(b: &'a Value, typ: &str) -> &'a Dict {
    let d = common(b, typ);
    match d.get(&key(typ)) {
        Some(Value::Dict(m)) => m,
        other => panic!("unexpected {:?}", other),
    }
}

fn list<'a>(b: &'a Value, typ: &str) -> &'a Vec<Value> {
    let d = common(b, typ);
    match d.get(&key(typ)) {
        Some(Value::List(l)) => l,
        other => panic!("unexpected {:?}", other),
    }
}

#[test]
fn test_error_to_bencode() {
    let p = new_package(Payload::Error(10, "error".to_string()));
    let enc = encode_package(p);
    let l = list(&enc, "e");
    assert_eq!(
        vec![Value::Int(10), Value::Bytes("error".as_bytes().to_vec())],
        *l
    );
}

#[test]
fn test_error_to_from_bencode() {
    let p = new_package(Payload::Error(10, "error".to_string()));
    let enc = encode_package(p);
    let p2: Package = decode_package(enc).unwrap();
    assert_eq!(FAKE_TR_ID, p2.transaction_id.as_slice());
    assert!(p2.sender.is_none());
    if let Payload::Error(code, msg) = p2.payload {
        assert_eq!(10, code);
        assert_eq!("error", msg.as_str());
    } else {
        panic!("Expected Error, got {:?}", p2.payload);
    }
}

#[test]
fn test_query_to_bencode() {
    let payload = Dict::new();
    let p = new_package(Payload::Query(payload));
    let enc = encode_package(p);
    let d = dict(&enc, "q");
    assert_eq!(1, d.len());
    assert!(d.contains_key(&key("id")));
}

#[test]
fn test_query_to_from_bencode() {
    let mut payload = Dict::new();
    payload.insert(key("test"), Value::Bytes("ok".as_bytes().to_vec()));
    let p = new_package(Payload::Query(payload));
    let enc = encode_package(p);
    let p2: Package = decode_package(enc).unwrap();
    assert_eq!(FAKE_TR_ID, p2.transaction_id.as_slice());
    assert_eq!(NodeIdentifier::from_u64(42), p2.sender.unwrap().id);
    if let Payload::Query(d) = p2.payload {
        assert_eq!(1, d.len());
        assert_eq!(
            Value::Bytes(vec![111, 107]),
            *d.get(&key("test")).unwrap()
        );
    } else {
        panic!("Expected Query, got {:?}", p2.payload);
    }
}

#[test]
fn test_response_to_bencode() {
    let payload = Dict::new();
    let p = new_package(Payload::Response(payload));
    let enc = encode_package(p);
    let d = dict(&enc, "r");
    assert_eq!(1, d.len());
    assert!(d.contains_key(&key("id")));
}

#[test]
fn test_response_to_from_bencode() {
    let mut payload = Dict::new();
    payload.insert(key("test"), Value::Bytes("ok".as_bytes().to_vec()));
    let p = new_package(Payload::Response(payload));
    let enc = encode_package(p);
    let p2: Package = decode_package(enc).unwrap();
    assert_eq!(FAKE_TR_ID, p2.transaction_id.as_slice());
    assert_eq!(NodeIdentifier::from_u64(42), p2.sender.unwrap().id);
    if let Payload::Response(d) = p2.payload {
        assert_eq!(1, d.len());
        assert_eq!(
            Value::Bytes(vec![111, 107]),
            *d.get(&key("test")).unwrap()
        );
    } else {
        panic!("Expected Response, got {:?}", p2.payload);
    }
}

#[test]
fn test_id_to_netbytes() {
    let id = NodeIdentifier::from_u64(0x0A0B0C0D);
    let b = encode_id(&id);
    let mut expected: Vec<u8> = std::iter::repeat(0u8).take(16).collect();
    expected.extend_from_slice(&[0x0A, 0x0B, 0x0C, 0x0D]);
    assert_eq!(expected, b);
}

#[test]
fn test_id_from_netbytes() {
    let mut bytes: Vec<u8> = std::iter::repeat(0u8).take(16).collect();
    bytes.extend_from_slice(&[0x0A, 0x0B, 0x0C, 0x0D]);
    let expected = NodeIdentifier::from_u64(0x0A0B0C0D);
    let id = decode_id(bytes.as_slice());
    assert_eq!(expected, id);
}

#[test]
fn test_node_to_bencode() {
    let n = new_node(42);
    let enc = encode_node(&n);
    let mut expected: Vec<u8> = std::iter::repeat(0u8).take(19).collect();
    expected.extend_from_slice(&[42, 127, 0, 0, 1, 31, 72]);
    assert_eq!(expected, enc);
}

#[test]
fn test_node_from_bencode() {
    let mut b: Vec<u8> = std::iter::repeat(0u8).take(19).collect();
    b.extend_from_slice(&[42, 127, 0, 0, 1, 0, 80]);
    let n: CompactNode = decode_node(b.as_slice()).unwrap();
    assert_eq!(n.id, NodeIdentifier::from_u64(42));
    assert_eq!(n.address, new_address(80));
}

#[test]
fn test_node_from_bencode_none() {
    let n = decode_node_value(&Value::Int(42));
    assert!(n.is_err());
}

#[test]
fn test_node_to_from_bencode() {
    let n = new_node(42);
    let enc = encode_node(&n);
    let n2: CompactNode = decode_node(enc.as_slice()).unwrap();
    assert_eq!(n.id, n2.id);
    assert_eq!(n.address, n2.address);
}

#[test]
fn test_error_encoding_structure() {
    let p = Package {
        transaction_id: vec![1, 2, 254, 255],
        payload: Payload::Error(10, "error".to_string()),
        sender: None,
    };
    let enc = encode_package(p);
    match &enc {
        Value::Dict(d) => {
            assert_eq!(3, d.len());
            assert_eq!(&d.entries[0].0, &key("e"));
            assert_eq!(&d.entries[1].0, &key("tt"));
            assert_eq!(&d.entries[2].0, &key("y"));
            assert_eq!(
                Value::List(vec![
                    Value::Int(10),
                    Value::Bytes("error".as_bytes().to_vec())
                ]),
                d.entries[0].1
            );
            assert_eq!(Value::Bytes(vec![1, 2, 254, 255]), d.entries[1].1);
            assert_eq!(Value::Bytes(vec![101]), d.entries[2].1);
        }
        other => panic!("unexpected {:?}", other),
    }
}

#[test]
fn test_empty_query_round_trip_with_port() {
    let node = CompactNode {
        id: NodeIdentifier::from_u64(42),
        address: new_address(31816),
    };
    let p = Package {
        transaction_id: vec![1, 2, 254, 255],
        payload: Payload::Query(Dict::new()),
        sender: Some(node),
    };
    let enc = encode_package(p);
    let d = dict(&enc, "q");
    assert_eq!(1, d.len());
    let mut compact: Vec<u8> = std::iter::repeat(0u8).take(19).collect();
    compact.extend_from_slice(&[42, 127, 0, 0, 1, 124, 72]);
    assert_eq!(Value::Bytes(compact), *d.get(&key("id")).unwrap());
    let p2 = decode_package(enc).unwrap();
    if let Payload::Query(fields) = p2.payload {
        assert_eq!(0, fields.len());
    } else {
        panic!("Expected Query, got {:?}", p2.payload);
    }
    let sender = p2.sender.unwrap();
    assert_eq!(NodeIdentifier::from_u64(42), sender.id);
    assert_eq!(new_address(31816), sender.address);
}

#[test]
fn test_error_message_not_utf8() {
    let mut top = Dict::new();
    top.insert(key("tt"), Value::Bytes(vec![1]));
    top.insert(key("y"), Value::Bytes(vec![101]));
    top.insert(
        key("e"),
        Value::List(vec![Value::Int(5), Value::Bytes(vec![0xFF, 0xFE])]),
    );
    let p = decode_package(Value::Dict(top)).unwrap();
    if let Payload::Error(code, msg) = p.payload {
        assert_eq!(5, code);
        assert_eq!("Unknown error", msg.as_str());
    } else {
        panic!("Expected Error, got {:?}", p.payload);
    }
}

#[test]
fn test_node_wrong_length() {
    let bytes: Vec<u8> = std::iter::repeat(7u8).take(25).collect();
    assert_eq!(Err(DecodeError::InvalidLength), decode_node(bytes.as_slice()));
    let longer: Vec<u8> = std::iter::repeat(7u8).take(27).collect();
    assert_eq!(Err(DecodeError::InvalidLength), decode_node(longer.as_slice()));
}

#[test]
fn test_query_without_sender_rejected() {
    let mut top = Dict::new();
    top.insert(key("tt"), Value::Bytes(vec![1]));
    top.insert(key("y"), Value::Bytes(vec![113]));
    top.insert(key("q"), Value::Dict(Dict::new()));
    assert_eq!(
        Err(DecodeError::MissingSender),
        decode_package(Value::Dict(top))
    );
}

#[test]
fn test_unknown_type_rejected() {
    let mut top = Dict::new();
    top.insert(key("tt"), Value::Bytes(vec![1]));
    top.insert(key("y"), Value::Bytes(vec![120]));
    top.insert(key("x"), Value::Dict(Dict::new()));
    assert_eq!(
        Err(DecodeError::UnknownType),
        decode_package(Value::Dict(top))
    );
}

#[test]
fn test_not_a_dict_rejected() {
    assert_eq!(Err(DecodeError::NotADict), decode_package(Value::Int(1)));
}

#[test]
fn test_missing_type_rejected() {
    let mut top = Dict::new();
    top.insert(key("tt"), Value::Bytes(vec![1]));
    assert_eq!(
        Err(DecodeError::MissingType),
        decode_package(Value::Dict(top))
    );
}

#[test]
fn test_missing_payload_rejected() {
    let mut top = Dict::new();
    top.insert(key("tt"), Value::Bytes(vec![1]));
    top.insert(key("y"), Value::Bytes(vec![113]));
    assert_eq!(
        Err(DecodeError::MissingPayload),
        decode_package(Value::Dict(top))
    );
}

#[test]
fn test_bad_error_shape_rejected() {
    let mut top = Dict::new();
    top.insert(key("tt"), Value::Bytes(vec![1]));
    top.insert(key("y"), Value::Bytes(vec![101]));
    top.insert(key("e"), Value::List(vec![Value::Int(5)]));
    assert_eq!(
        Err(DecodeError::BadErrorShape),
        decode_package(Value::Dict(top))
    );
}

#[test]
fn test_bad_body_shape_rejected() {
    let mut top = Dict::new();
    top.insert(key("tt"), Value::Bytes(vec![1]));
    top.insert(key("y"), Value::Bytes(vec![113]));
    top.insert(key("q"), Value::Bytes(vec![0]));
    assert_eq!(
        Err(DecodeError::BadBodyShape),
        decode_package(Value::Dict(top))
    );
}

#[test]
fn test_invalid_node_rejected() {
    let mut body = Dict::new();
    body.insert(key("id"), Value::Int(42));
    let mut top = Dict::new();
    top.insert(key("tt"), Value::Bytes(vec![1]));
    top.insert(key("y"), Value::Bytes(vec![113]));
    top.insert(key("q"), Value::Dict(body));
    assert_eq!(
        Err(DecodeError::InvalidNode),
        decode_package(Value::Dict(top))
    );
}

#[test]
fn test_missing_transaction_id_rejected() {
    let mut top = Dict::new();
    top.insert(key("y"), Value::Bytes(vec![101]));
    top.insert(
        key("e"),
        Value::List(vec![Value::Int(5), Value::Bytes(vec![111, 107])]),
    );
    assert_eq!(
        Err(DecodeError::MissingTransactionId),
        decode_package(Value::Dict(top))
    );
}

#[test]
fn test_id_round_trip_high_bits() {
    let mut bytes: Vec<u8> = Vec::new();
    for i in 0..20u8 {
        bytes.push(0xF0u8.wrapping_add(i));
    }
    let id = decode_id(bytes.as_slice());
    let enc = encode_id(&id);
    assert_eq!(bytes, enc);
    assert_eq!(20, enc.len());
}

#[test]
fn test_dict_canonical_order() {
    let mut d = Dict::new();
    d.insert(key("b"), Value::Int(2));
    d.insert(key("a"), Value::Int(1));
    d.insert(key("c"), Value::Int(3));
    d.insert(key("a"), Value::Int(7));
    assert_eq!(3, d.len());
    assert_eq!(&d.entries[0].0, &key("a"));
    assert_eq!(&d.entries[1].0, &key("b"));
    assert_eq!(&d.entries[2].0, &key("c"));
    assert_eq!(Value::Int(7), *d.get(&key("a")).unwrap());
}
