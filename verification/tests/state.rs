use forest::content_id::{cid_is_canonical, Cid};
use forest::state::{decode_state_root, encode_state_root, DecodeError, StateInfo0, StateRoot, StateTreeVersion};

const ROOT_HEX: &str = "8304d82a5827000171a0e402206cd918ea48518c9d13e291a66fa95c314d8a3866669a995253ea66f5914a4f5cd82a5827000171a0e4022045b0cfc220ceec5b7c1c62c4d4193d38e4eba48e8815729ce75f9c0ab0e4c1c0";
const ACTORS_HEX: &str = "0171a0e402206cd918ea48518c9d13e291a66fa95c314d8a3866669a995253ea66f5914a4f5c";
const INFO_HEX: &str = "0171a0e4022045b0cfc220ceec5b7c1c62c4d4193d38e4eba48e8815729ce75f9c0ab0e4c1c0";

fn cid_string(c: &Cid) -> String {
    cid::Cid::try_from(c.bytes.as_slice()).unwrap().to_string()
}

#[test]
fn test_decode() {
    let b = hex::decode(ROOT_HEX).unwrap();
    let s: StateRoot = decode_state_root(&b).unwrap();
    println!("state root {:?} {} {}", s.version, cid_string(&s.actors), cid_string(&s.info));
    assert_eq!(s.version, StateTreeVersion::V4);
    assert_eq!(s.actors.bytes, hex::decode(ACTORS_HEX).unwrap());
    assert_eq!(s.info.bytes, hex::decode(INFO_HEX).unwrap());
    assert_eq!(cid_string(&s.actors), "bafy2bzacebwnsghkjbiyzhit4ki2m35jlqyu3crymztjvgkskpvgn5mrjjhvy");
    assert_eq!(cid_string(&s.info), "bafy2bzacebc3bt6cedhoyw34drrmjvazhu4oj25er2ebk4u445pzycvq4ta4a");
}

#[test]
fn encode_gives_back_the_decoded_bytes() {
    let b = hex::decode(ROOT_HEX).unwrap();
    let s = decode_state_root(&b).unwrap();
    assert_eq!(encode_state_root(&s), b);
    assert_eq!(decode_state_root(&encode_state_root(&s)).unwrap(), s);
}

#[test]
fn roundtrip_every_version() {
    let actors = Cid { bytes: hex::decode(ACTORS_HEX).unwrap() };
    let info = Cid { bytes: hex::decode(INFO_HEX).unwrap() };
    for v in [StateTreeVersion::V0, StateTreeVersion::V1, StateTreeVersion::V2, StateTreeVersion::V3, StateTreeVersion::V4] {
        let root = StateRoot { version: v, actors: actors.clone(), info: info.clone() };
        let bytes = encode_state_root(&root);
        assert_eq!(bytes[1] as u64, v.to_u64());
        assert_eq!(decode_state_root(&bytes).unwrap(), root);
    }
}

#[test]
fn long_form_heads_are_read() {
    // The version written with a one-byte argument, and the first CID's length
    // with a two-byte argument.
    let b = hex::decode(ROOT_HEX).unwrap();
    let mut long = vec![0x83, 0x18, 0x04, 0xd8, 0x2a, 0x59, 0x00, 0x27];
    long.extend_from_slice(&b[6..]);
    let s = decode_state_root(&long).unwrap();
    assert_eq!(s, decode_state_root(&b).unwrap());
}

#[test]
fn decode_errors() {
    let b = hex::decode(ROOT_HEX).unwrap();
    assert_eq!(decode_state_root(&[]), Err(DecodeError::Malformed));
    assert_eq!(decode_state_root(&b[..40]), Err(DecodeError::Malformed));
    let mut two = b.clone();
    two[0] = 0x82;
    assert_eq!(decode_state_root(&two), Err(DecodeError::Malformed));
    let mut v5 = b.clone();
    v5[1] = 0x05;
    assert_eq!(decode_state_root(&v5), Err(DecodeError::UnknownVersion));
    let mut neg = b.clone();
    neg[1] = 0x24;
    assert_eq!(decode_state_root(&neg), Err(DecodeError::Malformed));
    let mut tag = b.clone();
    tag[3] = 0x2b;
    assert_eq!(decode_state_root(&tag), Err(DecodeError::Malformed));
    let mut prefix = b.clone();
    prefix[6] = 0x01;
    assert_eq!(decode_state_root(&prefix), Err(DecodeError::Malformed));
    let mut bad_cid = b.clone();
    bad_cid[7] = 0x02;
    assert_eq!(decode_state_root(&bad_cid), Err(DecodeError::InvalidCid));
    let mut trailing = b.clone();
    trailing.push(0);
    assert_eq!(decode_state_root(&trailing), Err(DecodeError::TrailingBytes));
    // An array of indefinite length that is never closed.
    let mut unclosed = b.clone();
    unclosed[0] = 0x9f;
    assert_eq!(decode_state_root(&unclosed), Err(DecodeError::Malformed));
    // Closed, then one byte too many.
    let mut after_break = unclosed.clone();
    after_break.push(0xff);
    after_break.push(0x00);
    assert_eq!(decode_state_root(&after_break), Err(DecodeError::TrailingBytes));
    // A fourth item in an array of indefinite length.
    let mut four = unclosed.clone();
    four.push(0x00);
    four.push(0xff);
    assert_eq!(decode_state_root(&four), Err(DecodeError::Malformed));
}

#[test]
fn indefinite_length_array_is_read() {
    let b = hex::decode(ROOT_HEX).unwrap();
    let mut v = b.clone();
    v[0] = 0x9f;
    v.push(0xff);
    assert_eq!(decode_state_root(&v).unwrap(), decode_state_root(&b).unwrap());
}

#[test]
fn indefinite_length_cid_bytes_are_read() {
    // The actors CID's byte string split into chunks of 1, 20 and 18 bytes.
    let b = hex::decode(ROOT_HEX).unwrap();
    let body = &b[6..45];
    let mut v = vec![0x83, 0x04, 0xd8, 0x2a, 0x5f];
    v.push(0x41);
    v.extend_from_slice(&body[..1]);
    v.push(0x54);
    v.extend_from_slice(&body[1..21]);
    v.push(0x52);
    v.extend_from_slice(&body[21..]);
    v.push(0xff);
    v.extend_from_slice(&b[45..]);
    assert_eq!(decode_state_root(&v).unwrap(), decode_state_root(&b).unwrap());
    // An empty chunk is allowed too.
    let mut w = vec![0x83, 0x04, 0xd8, 0x2a, 0x5f, 0x40, 0x58, 0x27];
    w.extend_from_slice(body);
    w.push(0xff);
    w.extend_from_slice(&b[45..]);
    assert_eq!(decode_state_root(&w).unwrap(), decode_state_root(&b).unwrap());
    // A chunk that is not a byte string.
    let mut x = vec![0x83, 0x04, 0xd8, 0x2a, 0x5f, 0x60, 0xff];
    x.extend_from_slice(&b[45..]);
    assert_eq!(decode_state_root(&x), Err(DecodeError::Malformed));
    // No break before the input ends.
    let mut y = vec![0x83, 0x04, 0xd8, 0x2a, 0x5f, 0x58, 0x27];
    y.extend_from_slice(body);
    assert_eq!(decode_state_root(&y), Err(DecodeError::Malformed));
}

#[test]
fn cid_with_extra_bytes_is_stored_in_canonical_form() {
    // One byte of garbage inside the byte string after a valid CID: the CID
    // reader takes the valid front, and the canonical bytes are kept.
    let b = hex::decode(ROOT_HEX).unwrap();
    let mut v = vec![0x83, 0x04, 0xd8, 0x2a, 0x58, 0x28];
    v.extend_from_slice(&b[6..45]);
    v.push(0xff);
    v.extend_from_slice(&b[45..]);
    let s = decode_state_root(&v).unwrap();
    assert_eq!(s.actors.bytes, hex::decode(ACTORS_HEX).unwrap());
}

#[test]
fn state_info0_codec() {
    let info = StateInfo0::default();
    assert_eq!(info.encode(), vec![0x80]);
    assert_eq!(StateInfo0::decode(&[0x80]), Ok(StateInfo0 {}));
    assert_eq!(StateInfo0::decode(&[0x80, 0x00]), Err(DecodeError::TrailingBytes));
    assert_eq!(StateInfo0::decode(&[0x81, 0x00]), Err(DecodeError::Malformed));
    assert_eq!(StateInfo0::decode(&[]), Err(DecodeError::Malformed));
    assert_eq!(StateInfo0::decode(&[0x9f, 0xff]), Ok(StateInfo0 {}));
    assert_eq!(StateInfo0::decode(&[0x9f]), Err(DecodeError::Malformed));
    assert_eq!(StateInfo0::decode(&[0x9f, 0x00, 0xff]), Err(DecodeError::Malformed));
    assert_eq!(StateInfo0::decode(&[0x9f, 0xff, 0x00]), Err(DecodeError::TrailingBytes));
}

#[test]
fn state_tree_version_numbers() {
    assert_eq!(StateTreeVersion::from_u64(0), Some(StateTreeVersion::V0));
    assert_eq!(StateTreeVersion::from_u64(3), Some(StateTreeVersion::V3));
    assert_eq!(StateTreeVersion::from_u64(5), None);
    assert_eq!(StateTreeVersion::V2.to_u64(), 2);
    assert!(StateTreeVersion::V0 < StateTreeVersion::V4);
    assert!(StateTreeVersion::V3 > StateTreeVersion::V1);
}

#[test]
fn canonical_cids() {
    assert!(cid_is_canonical(&Cid { bytes: hex::decode(ACTORS_HEX).unwrap() }));
    assert!(cid_is_canonical(&Cid { bytes: hex::decode(INFO_HEX).unwrap() }));
    let mut extra = hex::decode(ACTORS_HEX).unwrap();
    extra.push(0xff);
    assert!(!cid_is_canonical(&Cid { bytes: extra }));
    assert!(!cid_is_canonical(&Cid { bytes: vec![0x02, 0x71] }));
    assert!(!cid_is_canonical(&Cid { bytes: vec![] }));
}
