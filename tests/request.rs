use der::Encode;
use ocsp_request::request::{BitString, CertId, OcspRequest, Request, Signature, TbsRequest, Version};
use ocsp_request::tlv::{Element, Error};

fn sha256_algorithm() -> Element {
    let alg = spki::AlgorithmIdentifierOwned {
        oid: const_oid::db::rfc5912::ID_SHA_256,
        parameters: Some(der::Any::null()),
    };
    let bytes = alg.to_der().unwrap();
    element_of(&bytes)
}

fn element_of(bytes: &[u8]) -> Element {
    assert!(bytes[1] < 0x80);
    assert_eq!(bytes.len(), 2 + bytes[1] as usize);
    Element { tag: bytes[0], value: bytes[2..].to_vec() }
}

fn cert_id(serial: u8) -> CertId {
    CertId {
        hash_algorithm: sha256_algorithm(),
        issuer_name_hash: vec![0x11; 32],
        issuer_key_hash: vec![0x22; 32],
        serial_number: vec![serial],
    }
}

fn request(serial: u8) -> Request {
    Request { req_cert: cert_id(serial), single_request_extensions: None }
}

fn extensions() -> Element {
    // Extensions ::= SEQUENCE OF Extension, here one nonce extension.
    element_of(&[
        0x30, 0x13, 0x30, 0x11, 0x06, 0x09, 0x2b, 0x06, 0x01, 0x05, 0x05, 0x07, 0x30, 0x01, 0x02,
        0x04, 0x04, 0x04, 0x02, 0xab, 0xcd,
    ])
}

fn tbs(list: Vec<Request>) -> TbsRequest {
    TbsRequest {
        version: Version::v1(),
        requestor_name: None,
        request_list: list,
        request_extensions: None,
    }
}

fn full_request() -> OcspRequest {
    OcspRequest {
        tbs_request: TbsRequest {
            version: Version { number: 3 },
            requestor_name: Some(Element { tag: 0x82, value: b"responder.example".to_vec() }),
            request_list: vec![
                Request { req_cert: cert_id(1), single_request_extensions: Some(extensions()) },
                request(2),
            ],
            request_extensions: Some(extensions()),
        },
        optional_signature: Some(Signature {
            signature_algorithm: sha256_algorithm(),
            signature: BitString { unused_bits: 0, bytes: vec![1, 2, 3, 4] },
            certs: Some(vec![Element { tag: 0x30, value: vec![0x05, 0x00] }]),
        }),
    }
}

#[test]
fn round_trip_request() {
    let r = Request { req_cert: cert_id(7), single_request_extensions: Some(extensions()) };
    let bytes = r.to_der().unwrap();
    assert_eq!(Request::from_der(&bytes).unwrap(), r);
}

#[test]
fn round_trip_signature() {
    let s = full_request().optional_signature.unwrap();
    let bytes = s.to_der().unwrap();
    assert_eq!(Signature::from_der(&bytes).unwrap(), s);
}

#[test]
fn round_trip_tbs_request() {
    let t = full_request().tbs_request;
    let bytes = t.to_der().unwrap();
    assert_eq!(TbsRequest::from_der(&bytes).unwrap(), t);
}

#[test]
fn round_trip_ocsp_request() {
    let o = full_request();
    let bytes = o.to_der().unwrap();
    assert_eq!(OcspRequest::from_der(&bytes).unwrap(), o);
}

#[test]
fn round_trip_long_content() {
    // Contents over 127 and over 255 bytes take long-form lengths.
    for n in [200usize, 300, 70000] {
        let r = Request {
            req_cert: CertId {
                hash_algorithm: sha256_algorithm(),
                issuer_name_hash: vec![0x5a; n],
                issuer_key_hash: vec![0x22; 32],
                serial_number: vec![1],
            },
            single_request_extensions: None,
        };
        let bytes = r.to_der().unwrap();
        assert_eq!(Request::from_der(&bytes).unwrap(), r);
    }
}

#[test]
fn default_version_is_omitted() {
    let t = tbs(vec![request(1)]);
    let bytes = t.to_der().unwrap();
    assert_eq!(bytes[0], 0x30);
    assert_eq!(bytes[2], 0x30);
    let back = TbsRequest::from_der(&bytes).unwrap();
    assert_eq!(back.version, Version::default());
    assert_eq!(back, t);
}

#[test]
fn other_version_is_encoded() {
    let mut t = tbs(vec![request(1)]);
    t.version = Version { number: 1 };
    let bytes = t.to_der().unwrap();
    assert_eq!(&bytes[2..7], &[0xa0, 0x03, 0x02, 0x01, 0x01]);
    assert_eq!(TbsRequest::from_der(&bytes).unwrap(), t);
    t.version = Version { number: 200 };
    let bytes = t.to_der().unwrap();
    assert_eq!(&bytes[2..8], &[0xa0, 0x04, 0x02, 0x02, 0x00, 0xc8]);
    assert_eq!(TbsRequest::from_der(&bytes).unwrap(), t);
}

#[test]
fn explicit_default_version_is_rejected() {
    let t = tbs(vec![request(1)]);
    let bytes = t.to_der().unwrap();
    let mut content = vec![0xa0, 0x03, 0x02, 0x01, 0x00];
    content.extend_from_slice(&bytes[2..]);
    let mut forged = vec![0x30, content.len() as u8];
    forged.extend_from_slice(&content);
    assert_eq!(TbsRequest::from_der(&forged), Err(Error::Malformed));
}

#[test]
fn absent_extensions_are_omitted() {
    let r = request(1);
    let bytes = r.to_der().unwrap();
    let id = cert_id(1);
    let id_len = 2 + (15 + 34 + 34 + 3);
    assert_eq!(bytes.len(), 2 + id_len);
    assert_eq!(bytes[2], 0x30);
    assert!(!bytes[2 + id_len..].contains(&0xa0));
    let back = Request::from_der(&bytes).unwrap();
    assert_eq!(back.single_request_extensions, None);
    assert_eq!(back.req_cert, id);
}

#[test]
fn present_extensions_are_tagged() {
    let r = Request { req_cert: cert_id(1), single_request_extensions: Some(extensions()) };
    let bytes = r.to_der().unwrap();
    let id_len = 2 + (15 + 34 + 34 + 3);
    assert_eq!(bytes[2 + id_len], 0xa0);
}

#[test]
fn request_list_order_is_kept() {
    let t = tbs(vec![request(3), request(1), request(2)]);
    let bytes = t.to_der().unwrap();
    let back = TbsRequest::from_der(&bytes).unwrap();
    let serials: Vec<u8> =
        back.request_list.iter().map(|r| r.req_cert.serial_number[0]).collect();
    assert_eq!(serials, vec![3, 1, 2]);
}

#[test]
fn empty_request_list_round_trips() {
    let t = tbs(vec![]);
    let bytes = t.to_der().unwrap();
    assert_eq!(bytes, vec![0x30, 0x02, 0x30, 0x00]);
    assert_eq!(TbsRequest::from_der(&bytes).unwrap(), t);
}

#[test]
fn truncated_input_is_rejected() {
    let bytes = full_request().to_der().unwrap();
    assert_eq!(OcspRequest::from_der(&bytes[..bytes.len() - 1]), Err(Error::Malformed));
    assert_eq!(OcspRequest::from_der(&[]), Err(Error::Malformed));
}

#[test]
fn trailing_bytes_are_rejected() {
    let mut bytes = full_request().to_der().unwrap();
    bytes.push(0);
    assert_eq!(OcspRequest::from_der(&bytes), Err(Error::Malformed));
}

#[test]
fn misplaced_signature_tag_is_rejected() {
    let o = full_request();
    let bytes = o.to_der().unwrap();
    let tbs_len = o.tbs_request.to_der().unwrap().len();
    // The outer header takes four bytes here; the signature follows the body.
    assert_eq!(bytes[1], 0x82);
    let at = 4 + tbs_len;
    assert_eq!(bytes[at], 0xa0);
    let mut forged = bytes.clone();
    forged[at] = 0xa1;
    assert_eq!(OcspRequest::from_der(&forged), Err(Error::Malformed));
}

#[test]
fn non_minimal_length_is_rejected() {
    let r = request(1);
    let bytes = r.to_der().unwrap();
    let mut forged = vec![0x30, 0x81];
    forged.extend_from_slice(&bytes[1..]);
    assert_eq!(Request::from_der(&forged), Err(Error::Malformed));
}

#[test]
fn unencodable_values_are_refused() {
    let mut r = request(1);
    r.single_request_extensions = Some(Element { tag: 0x04, value: vec![] });
    assert_eq!(r.to_der(), Err(Error::Unencodable));
    let mut r = request(1);
    r.req_cert.serial_number = vec![];
    assert_eq!(r.to_der(), Err(Error::Unencodable));
    let mut r = request(1);
    r.req_cert.hash_algorithm.tag = 0x1f;
    assert_eq!(r.to_der(), Err(Error::Unencodable));
    let s = Signature {
        signature_algorithm: sha256_algorithm(),
        signature: BitString { unused_bits: 8, bytes: vec![0] },
        certs: None,
    };
    assert_eq!(s.to_der(), Err(Error::Unencodable));
}

#[test]
fn single_request_without_signature() {
    let r = Request::from_issuer(sha256_algorithm(), vec![0x11; 32], vec![0x22; 32], vec![0x01], None);
    assert_eq!(r.req_cert.serial_number, vec![0x01]);
    let o = OcspRequest { tbs_request: tbs(vec![r]), optional_signature: None };
    let bytes = o.to_der().unwrap();
    let tbs_bytes = o.tbs_request.to_der().unwrap();
    assert_eq!(bytes[0], 0x30);
    assert_eq!(bytes[1] as usize, tbs_bytes.len());
    assert_eq!(&bytes[2..], &tbs_bytes[..]);
    assert_eq!(tbs_bytes[0], 0x30);
    assert_eq!(tbs_bytes[2], 0x30);
    assert!(!bytes.contains(&0xa0));
    assert_eq!(OcspRequest::from_der(&bytes).unwrap(), o);
}

#[test]
fn high_tag_number_element_is_rejected() {
    let mut t = tbs(vec![request(1)]);
    t.requestor_name = Some(Element { tag: 0x82, value: vec![0x61] });
    let bytes = t.to_der().unwrap();
    // The name sits under [1] right after the body's header.
    assert_eq!(&bytes[2..7], &[0xa1, 0x03, 0x82, 0x01, 0x61]);
    let mut forged = bytes.clone();
    forged[4] = 0x9f;
    assert_eq!(TbsRequest::from_der(&forged), Err(Error::Malformed));
}
