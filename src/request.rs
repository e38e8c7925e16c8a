//! The OCSP request structures, their models and their DER encoding.
use vstd::prelude::*;

use crate::tlv::{
    at, concat, copy_bytes, lemma_concat_push, enc_element, element_ok, length_octets, lemma_at_concat, lemma_at_tlv,
    lemma_subrange_join, read_primitive, read_tagged, tlv, write_primitive, write_tlv, Element,
    ElementModel, Error, MAX_LEN,
};

verus! {

/// Identifier octet of a SEQUENCE.
pub const SEQUENCE: u8 = 0x30;

/// Identifier octet of an INTEGER.
pub const INTEGER: u8 = 0x02;

/// Identifier octet of a BIT STRING.
pub const BIT_STRING: u8 = 0x03;

/// Identifier octet of an OCTET STRING.
pub const OCTET_STRING: u8 = 0x04;

/// Identifier octet of an explicit context-specific tag `[0]`.
pub const EXPLICIT_0: u8 = 0xa0;

/// Identifier octet of an explicit context-specific tag `[1]`.
pub const EXPLICIT_1: u8 = 0xa1;

/// Identifier octet of an explicit context-specific tag `[2]`.
pub const EXPLICIT_2: u8 = 0xa2;

/// A BIT STRING: the number of unused bits in its last byte, and its bytes.
#[derive(Debug, Clone, PartialEq, Eq)]
pub struct BitString {
    pub unused_bits: u8,
    pub bytes: Vec<u8>,
}

/// What a `BitString` holds.
pub struct BitStringModel {
    pub unused_bits: u8,
    pub bytes: Seq<u8>,
}

impl View for BitString {
    type V = BitStringModel;

    open spec fn view(&self) -> BitStringModel {
        BitStringModel { unused_bits: self.unused_bits, bytes: self.bytes@ }
    }
}

pub open spec fn bit_string_ok(v: BitStringModel) -> bool {
    v.unused_bits <= 7 && (v.bytes.len() == 0 ==> v.unused_bits == 0) && v.bytes.len() < MAX_LEN
}

pub open spec fn enc_bit_string(v: BitStringModel) -> Seq<u8> {
    tlv(BIT_STRING, seq![v.unused_bits] + v.bytes)
}

impl BitString {
    /// Appends the DER encoding; fails exactly when the value cannot be
    /// encoded.
    pub fn encode_into(&self, out: &mut Vec<u8>) -> (r: Result<(), Error>)
        ensures
            r is Ok <==> bit_string_ok(self@),
            r is Ok ==> final(out)@ == old(out)@ + enc_bit_string(self@),
    {
        if self.unused_bits > 7 || (self.bytes.len() == 0 && self.unused_bits != 0)
            || self.bytes.len() >= MAX_LEN {
            return Err(Error::Unencodable);
        }
        let mut c: Vec<u8> = Vec::new();
        c.push(self.unused_bits);
        crate::tlv::push_bytes(&mut c, self.bytes.as_slice());
        assert(c@ =~= seq![self.unused_bits] + self.bytes@);
        write_tlv(out, BIT_STRING, &mut c)
    }

    /// Reads the value encoded at `pos`, ending by `end`; returns it with the
    /// position after it. Succeeds exactly when a valid value's encoding
    /// stands there.
    pub fn parse(b: &[u8], pos: usize, end: usize) -> (r: Option<(BitString, usize)>)
        requires
            pos <= end <= b@.len(),
        ensures
            r matches Some((x, p)) ==> pos < p <= end && bit_string_ok(x@) && b@.subrange(
                pos as int,
                p as int,
            ) == enc_bit_string(x@),
            forall|v: BitStringModel|
                #![trigger enc_bit_string(v)]
                bit_string_ok(v) && at(b@, pos as int, end as int, enc_bit_string(v)) ==> (r matches Some(
                    (x, p),
                ) && x@ == v && p == pos + enc_bit_string(v).len()),
    {
        proof {
            assert forall|v: BitStringModel|
                #![trigger enc_bit_string(v)]
                bit_string_ok(v) && at(b@, pos as int, end as int, enc_bit_string(v)) implies ({
                    let c = seq![v.unused_bits] + v.bytes;
                    let s = pos + 1 + length_octets(c.len()).len();
                    b@[s] == v.unused_bits && b@.subrange(s + 1, pos + enc_bit_string(v).len())
                        == v.bytes
                }) by {
                let c = seq![v.unused_bits] + v.bytes;
                let s = pos + 1 + length_octets(c.len()).len();
                let e = pos + enc_bit_string(v).len();
                lemma_at_tlv(b@, pos as int, end as int, BIT_STRING, c);
                assert(b@.subrange(s, e)[0] == c[0]);
                assert(b@.subrange(s + 1, e) =~= b@.subrange(s, e).subrange(1, c.len() as int));
                assert(c.subrange(1, c.len() as int) =~= v.bytes);
            }
        }
        match read_tagged(b, pos, end, BIT_STRING) {
            Some((s, e)) => {
                if s == e {
                    return None;
                }
                let unused = b[s];
                let bytes = copy_bytes(b, s + 1, e);
                if unused > 7 || (bytes.len() == 0 && unused != 0) {
                    return None;
                }
                proof {
                    assert(b@.subrange(s as int, e as int) =~= seq![unused] + bytes@);
                }
                Some((BitString { unused_bits: unused, bytes }, e))
            },
            None => {
                proof {
                    assert forall|v: BitStringModel|
                        #![trigger enc_bit_string(v)]
                        bit_string_ok(v) && at(
                            b@,
                            pos as int,
                            end as int,
                            enc_bit_string(v),
                        ) implies false by {
                        assert((seq![v.unused_bits] + v.bytes).len() <= MAX_LEN);
                    }
                }
                None
            },
        }
    }
}

/// Identifies the certificate asked about: the digest algorithm, the
/// digests of the issuer's name and public key, and the serial number.
#[derive(Debug, Clone, PartialEq, Eq)]
pub struct CertId {
    /// An AlgorithmIdentifier, as its DER element.
    pub hash_algorithm: Element,
    pub issuer_name_hash: Vec<u8>,
    pub issuer_key_hash: Vec<u8>,
    /// The contents octets of the serial number's INTEGER.
    pub serial_number: Vec<u8>,
}

/// What a `CertId` holds.
pub struct CertIdModel {
    pub hash_algorithm: ElementModel,
    pub issuer_name_hash: Seq<u8>,
    pub issuer_key_hash: Seq<u8>,
    pub serial_number: Seq<u8>,
}

impl View for CertId {
    type V = CertIdModel;

    open spec fn view(&self) -> CertIdModel {
        CertIdModel {
            hash_algorithm: self.hash_algorithm@,
            issuer_name_hash: self.issuer_name_hash@,
            issuer_key_hash: self.issuer_key_hash@,
            serial_number: self.serial_number@,
        }
    }
}

pub open spec fn cert_id_content(v: CertIdModel) -> Seq<u8> {
    enc_element(v.hash_algorithm) + tlv(OCTET_STRING, v.issuer_name_hash) + tlv(
        OCTET_STRING,
        v.issuer_key_hash,
    ) + tlv(INTEGER, v.serial_number)
}

pub open spec fn cert_id_ok(v: CertIdModel) -> bool {
    &&& element_ok(v.hash_algorithm)
    &&& v.hash_algorithm.tag == SEQUENCE
    &&& v.issuer_name_hash.len() <= MAX_LEN
    &&& v.issuer_key_hash.len() <= MAX_LEN
    &&& 1 <= v.serial_number.len() <= MAX_LEN
    &&& cert_id_content(v).len() <= MAX_LEN
}

pub open spec fn enc_cert_id(v: CertIdModel) -> Seq<u8> {
    tlv(SEQUENCE, cert_id_content(v))
}

impl CertId {
    /// Appends the DER encoding; fails exactly when the value cannot be
    /// encoded.
    pub fn encode_into(&self, out: &mut Vec<u8>) -> (r: Result<(), Error>)
        ensures
            r is Ok <==> cert_id_ok(self@),
            r is Ok ==> final(out)@ == old(out)@ + enc_cert_id(self@),
    {
        if self.hash_algorithm.tag != SEQUENCE || self.serial_number.len() == 0 {
            return Err(Error::Unencodable);
        }
        let mut c: Vec<u8> = Vec::new();
        match self.hash_algorithm.encode_into(&mut c) {
            Ok(()) => {},
            Err(e) => return Err(e),
        }
        match write_primitive(&mut c, OCTET_STRING, self.issuer_name_hash.as_slice()) {
            Ok(()) => {},
            Err(e) => return Err(e),
        }
        match write_primitive(&mut c, OCTET_STRING, self.issuer_key_hash.as_slice()) {
            Ok(()) => {},
            Err(e) => return Err(e),
        }
        match write_primitive(&mut c, INTEGER, self.serial_number.as_slice()) {
            Ok(()) => {},
            Err(e) => return Err(e),
        }
        assert(c@ =~= cert_id_content(self@));
        write_tlv(out, SEQUENCE, &mut c)
    }

    /// Reads the value encoded at `pos`, ending by `end`; returns it with the
    /// position after it. Succeeds exactly when a valid value's encoding
    /// stands there.
    pub fn parse(b: &[u8], pos: usize, end: usize) -> (r: Option<(CertId, usize)>)
        requires
            pos <= end <= b@.len(),
        ensures
            r matches Some((x, p)) ==> pos < p <= end && cert_id_ok(x@) && b@.subrange(
                pos as int,
                p as int,
            ) == enc_cert_id(x@),
            forall|v: CertIdModel|
                #![trigger enc_cert_id(v)]
                cert_id_ok(v) && at(b@, pos as int, end as int, enc_cert_id(v)) ==> (r matches Some(
                    (x, p),
                ) && x@ == v && p == pos + enc_cert_id(v).len()),
    {
        proof {
            assert forall|v: CertIdModel|
                #![trigger enc_cert_id(v)]
                cert_id_ok(v) && at(b@, pos as int, end as int, enc_cert_id(v)) implies ({
                    let c = cert_id_content(v);
                    let s = pos + 1 + length_octets(c.len()).len();
                    let e = pos + enc_cert_id(v).len();
                    let p1 = s + enc_element(v.hash_algorithm).len();
                    let p2 = p1 + tlv(OCTET_STRING, v.issuer_name_hash).len();
                    let p3 = p2 + tlv(OCTET_STRING, v.issuer_key_hash).len();
                    &&& at(b@, s, e, enc_element(v.hash_algorithm))
                    &&& at(b@, p1, e, tlv(OCTET_STRING, v.issuer_name_hash))
                    &&& at(b@, p2, e, tlv(OCTET_STRING, v.issuer_key_hash))
                    &&& at(b@, p3, e, tlv(INTEGER, v.serial_number))
                    &&& p3 + tlv(INTEGER, v.serial_number).len() == e
                }) by {
                let c = cert_id_content(v);
                let s = pos + 1 + length_octets(c.len()).len();
                let e = pos + enc_cert_id(v).len();
                let a = enc_element(v.hash_algorithm);
                let n = tlv(OCTET_STRING, v.issuer_name_hash);
                let k = tlv(OCTET_STRING, v.issuer_key_hash);
                let i = tlv(INTEGER, v.serial_number);
                lemma_at_tlv(b@, pos as int, end as int, SEQUENCE, c);
                lemma_at_concat(b@, s, e, a + n + k, i);
                lemma_at_concat(b@, s, e, a + n, k);
                lemma_at_concat(b@, s, e, a, n);
            }
        }
        let (s, e) = match read_tagged(b, pos, end, SEQUENCE) {
            Some(se) => se,
            None => return None,
        };
        let (hash_algorithm, p1) = match Element::parse(b, s, e) {
            Some(x) => x,
            None => return None,
        };
        if hash_algorithm.tag != SEQUENCE {
            return None;
        }
        let (issuer_name_hash, p2) = match read_primitive(b, p1, e, OCTET_STRING) {
            Some(x) => x,
            None => return None,
        };
        let (issuer_key_hash, p3) = match read_primitive(b, p2, e, OCTET_STRING) {
            Some(x) => x,
            None => return None,
        };
        let (serial_number, p4) = match read_primitive(b, p3, e, INTEGER) {
            Some(x) => x,
            None => return None,
        };
        if p4 != e || serial_number.len() == 0 {
            return None;
        }
        let r = CertId { hash_algorithm, issuer_name_hash, issuer_key_hash, serial_number };
        proof {
            lemma_subrange_join(b@, s as int, p3 as int, e as int);
            lemma_subrange_join(b@, s as int, p2 as int, p3 as int);
            lemma_subrange_join(b@, s as int, p1 as int, p2 as int);
            assert(b@.subrange(s as int, e as int) == cert_id_content(r@));
        }
        Some((r, e))
    }
}

/// One certificate status query: the certificate's identifier and optional
/// extensions of this query alone.
#[derive(Debug, Clone, PartialEq, Eq)]
pub struct Request {
    pub req_cert: CertId,
    /// Extensions, as their DER element (a SEQUENCE), under `[0] EXPLICIT`.
    pub single_request_extensions: Option<Element>,
}

/// What a `Request` holds.
pub struct RequestModel {
    pub req_cert: CertIdModel,
    pub single_request_extensions: Option<ElementModel>,
}

impl View for Request {
    type V = RequestModel;

    open spec fn view(&self) -> RequestModel {
        RequestModel {
            req_cert: self.req_cert@,
            single_request_extensions: match self.single_request_extensions {
                Some(e) => Some(e@),
                None => None,
            },
        }
    }
}

/// The encoding of an optional field under an explicit context tag: nothing
/// when the field is absent.
pub open spec fn explicit_opt(tag: u8, o: Option<Seq<u8>>) -> Seq<u8> {
    match o {
        Some(inner) => tlv(tag, inner),
        None => Seq::empty(),
    }
}

/// An optional extensions element can be encoded: it is a SEQUENCE.
pub open spec fn extensions_ok(o: Option<ElementModel>) -> bool {
    match o {
        Some(x) => element_ok(x) && x.tag == SEQUENCE,
        None => true,
    }
}

pub open spec fn enc_opt_element(o: Option<ElementModel>) -> Option<Seq<u8>> {
    match o {
        Some(x) => Some(enc_element(x)),
        None => None,
    }
}

pub open spec fn request_content(v: RequestModel) -> Seq<u8> {
    enc_cert_id(v.req_cert) + explicit_opt(EXPLICIT_0, enc_opt_element(v.single_request_extensions))
}

pub open spec fn request_ok(v: RequestModel) -> bool {
    &&& cert_id_ok(v.req_cert)
    &&& extensions_ok(v.single_request_extensions)
    &&& request_content(v).len() <= MAX_LEN
}

pub open spec fn enc_request(v: RequestModel) -> Seq<u8> {
    tlv(SEQUENCE, request_content(v))
}

/// Appends an optional element under the explicit tag `tag`.
fn encode_explicit_element(out: &mut Vec<u8>, tag: u8, o: &Option<Element>) -> (r: Result<
    (),
    Error,
>)
    ensures
        r is Ok <==> match o {
            Some(x) => element_ok(x@) && enc_element(x@).len() <= MAX_LEN,
            None => true,
        },
        r is Ok ==> final(out)@ == old(out)@ + explicit_opt(
            tag,
            match o {
                Some(x) => Some(enc_element(x@)),
                None => None,
            },
        ),
{
    match o {
        Some(x) => {
            let mut c: Vec<u8> = Vec::new();
            match x.encode_into(&mut c) {
                Ok(()) => {},
                Err(e) => return Err(e),
            }
            assert(c@ =~= enc_element(x@));
            write_tlv(out, tag, &mut c)
        },
        None => {
            assert(old(out)@ + Seq::<u8>::empty() =~= old(out)@);
            Ok(())
        },
    }
}

/// Reads an optional element under the explicit tag `tag` at `pos`: present
/// when the byte at `pos`, before `end`, is `tag`.
fn parse_explicit_element(b: &[u8], pos: usize, end: usize, tag: u8) -> (r: Option<
    (Option<Element>, usize),
>)
    requires
        pos <= end <= b@.len(),
    ensures
        r matches Some((o, p)) ==> pos <= p <= end && (o is Some ==> element_ok(o->0@))
            && b@.subrange(pos as int, p as int) == explicit_opt(tag, match o {
            Some(x) => Some(enc_element(x@)),
            None => None,
        }) && (o is None ==> p == pos),
        r matches Some((o, p)) && o is None ==> !(pos < end && b@[pos as int] == tag),
        forall|v: ElementModel|
            #![trigger enc_element(v)]
            element_ok(v) && enc_element(v).len() <= MAX_LEN && at(
                b@,
                pos as int,
                end as int,
                tlv(tag, enc_element(v)),
            ) ==> (r matches Some((o, p)) && o is Some && o->0@ == v && p == pos + tlv(
                tag,
                enc_element(v),
            ).len()),
        !(pos < end && b@[pos as int] == tag) ==> r == Some((None::<Element>, pos)),
{
    proof {
        assert forall|v: ElementModel|
            #![trigger enc_element(v)]
            element_ok(v) && enc_element(v).len() <= MAX_LEN && at(
                b@,
                pos as int,
                end as int,
                tlv(tag, enc_element(v)),
            ) implies b@[pos as int] == tag && at(
            b@,
            pos + 1 + length_octets(enc_element(v).len()).len(),
            pos + tlv(tag, enc_element(v)).len(),
            enc_element(v),
        ) by {
            lemma_at_tlv(b@, pos as int, end as int, tag, enc_element(v));
        }
    }
    if pos < end && b[pos] == tag {
        let (s, e) = match read_tagged(b, pos, end, tag) {
            Some(se) => se,
            None => return None,
        };
        let (x, p) = match Element::parse(b, s, e) {
            Some(xp) => xp,
            None => return None,
        };
        if p != e {
            return None;
        }
        Some((Some(x), e))
    } else {
        assert(b@.subrange(pos as int, pos as int) =~= Seq::<u8>::empty());
        Some((None, pos))
    }
}

impl Request {
    /// Appends the DER encoding; fails exactly when the value cannot be
    /// encoded.
    pub fn encode_into(&self, out: &mut Vec<u8>) -> (r: Result<(), Error>)
        ensures
            r is Ok <==> request_ok(self@),
            r is Ok ==> final(out)@ == old(out)@ + enc_request(self@),
    {
        let mut c: Vec<u8> = Vec::new();
        match self.req_cert.encode_into(&mut c) {
            Ok(()) => {},
            Err(e) => return Err(e),
        }
        match &self.single_request_extensions {
            Some(x) => {
                if x.tag != SEQUENCE {
                    return Err(Error::Unencodable);
                }
            },
            None => {},
        }
        match encode_explicit_element(&mut c, EXPLICIT_0, &self.single_request_extensions) {
            Ok(()) => {},
            Err(e) => return Err(e),
        }
        assert(c@ =~= request_content(self@));
        write_tlv(out, SEQUENCE, &mut c)
    }

    /// Reads the value encoded at `pos`, ending by `end`; returns it with the
    /// position after it. Succeeds exactly when a valid value's encoding
    /// stands there.
    pub fn parse(b: &[u8], pos: usize, end: usize) -> (r: Option<(Request, usize)>)
        requires
            pos <= end <= b@.len(),
        ensures
            r matches Some((x, p)) ==> pos < p <= end && request_ok(x@) && b@.subrange(
                pos as int,
                p as int,
            ) == enc_request(x@),
            forall|v: RequestModel|
                #![trigger enc_request(v)]
                request_ok(v) && at(b@, pos as int, end as int, enc_request(v)) ==> (r matches Some(
                    (x, p),
                ) && x@ == v && p == pos + enc_request(v).len()),
    {
        proof {
            assert forall|v: RequestModel|
                #![trigger enc_request(v)]
                request_ok(v) && at(b@, pos as int, end as int, enc_request(v)) implies ({
                    let c = request_content(v);
                    let s = pos + 1 + length_octets(c.len()).len();
                    let e = pos + enc_request(v).len();
                    let p1 = s + enc_cert_id(v.req_cert).len();
                    let x = explicit_opt(
                        EXPLICIT_0,
                        enc_opt_element(v.single_request_extensions),
                    );
                    &&& at(b@, s, e, enc_cert_id(v.req_cert))
                    &&& at(b@, p1, e, x)
                    &&& p1 + x.len() == e
                }) by {
                let c = request_content(v);
                let s = pos + 1 + length_octets(c.len()).len();
                let e = pos + enc_request(v).len();
                lemma_at_tlv(b@, pos as int, end as int, SEQUENCE, c);
                lemma_at_concat(
                    b@,
                    s,
                    e,
                    enc_cert_id(v.req_cert),
                    explicit_opt(EXPLICIT_0, enc_opt_element(v.single_request_extensions)),
                );
            }
        }
        let (s, e) = match read_tagged(b, pos, end, SEQUENCE) {
            Some(se) => se,
            None => return None,
        };
        let (req_cert, p1) = match CertId::parse(b, s, e) {
            Some(x) => x,
            None => return None,
        };
        let (single_request_extensions, p2) = match parse_explicit_element(b, p1, e, EXPLICIT_0) {
            Some(x) => x,
            None => return None,
        };
        if p2 != e {
            return None;
        }
        match &single_request_extensions {
            Some(x) => {
                if x.tag != SEQUENCE {
                    return None;
                }
            },
            None => {},
        }
        let r = Request { req_cert, single_request_extensions };
        proof {
            lemma_subrange_join(b@, s as int, p1 as int, e as int);
            assert(b@.subrange(s as int, e as int) == request_content(r@));
        }
        Some((r, e))
    }

    /// The query for one certificate, from the digests of its issuer's name
    /// and public key under `hash_algorithm`, its serial number and optional
    /// extensions. The digests are computed by the caller.
    pub fn from_issuer(
        hash_algorithm: Element,
        issuer_name_hash: Vec<u8>,
        issuer_key_hash: Vec<u8>,
        serial_number: Vec<u8>,
        single_request_extensions: Option<Element>,
    ) -> (r: Request)
        ensures
            r@.req_cert == (CertIdModel {
                hash_algorithm: hash_algorithm@,
                issuer_name_hash: issuer_name_hash@,
                issuer_key_hash: issuer_key_hash@,
                serial_number: serial_number@,
            }),
            r@.single_request_extensions == opt_element_view(single_request_extensions),
    {
        Request {
            req_cert: CertId { hash_algorithm, issuer_name_hash, issuer_key_hash, serial_number },
            single_request_extensions,
        }
    }

    /// The DER encoding of this request; fails exactly when it cannot be
    /// encoded.
    pub fn to_der(&self) -> (r: Result<Vec<u8>, Error>)
        ensures
            r is Ok <==> request_ok(self@),
            r matches Ok(b) ==> b@ == enc_request(self@),
            r matches Err(e) ==> e == Error::Unencodable,
    {
        let mut out: Vec<u8> = Vec::new();
        match self.encode_into(&mut out) {
            Ok(()) => {
                assert(out@ =~= enc_request(self@));
                Ok(out)
            },
            Err(_) => Err(Error::Unencodable),
        }
    }

    /// Decodes a request from exactly the bytes of `b`.
    pub fn from_der(b: &[u8]) -> (r: Result<Request, Error>)
        ensures
            r matches Ok(x) ==> request_ok(x@) && enc_request(x@) == b@,
            forall|v: RequestModel|
                #![trigger enc_request(v)]
                request_ok(v) && enc_request(v) == b@ ==> (r matches Ok(x) && x@ == v),
            r matches Err(e) ==> e == Error::Malformed,
    {
        proof {
            assert(b@.subrange(0, b@.len() as int) =~= b@);
        }
        match Request::parse(b, 0, b.len()) {
            Some((x, p)) => {
                if p == b.len() {
                    Ok(x)
                } else {
                    Err(Error::Malformed)
                }
            },
            None => Err(Error::Malformed),
        }
    }
}

pub open spec fn element_views(xs: Seq<Element>) -> Seq<ElementModel> {
    xs.map_values(|x: Element| x@)
}

/// The concatenated encodings of a list of elements.
pub open spec fn enc_elements(vs: Seq<ElementModel>) -> Seq<u8> {
    concat(vs.map_values(|v: ElementModel| enc_element(v)))
}

/// Every element of a certificate list is a SEQUENCE that can be encoded.
pub open spec fn certs_ok(vs: Seq<ElementModel>) -> bool {
    forall|i: int| 0 <= i < vs.len() ==> element_ok(#[trigger] vs[i]) && vs[i].tag == SEQUENCE
}

pub proof fn lemma_enc_elements_first(vs: Seq<ElementModel>)
    requires
        vs.len() > 0,
    ensures
        enc_elements(vs) == enc_element(vs[0]) + enc_elements(vs.skip(1)),
        enc_elements(vs).len() > 0,
{
    assert(vs.map_values(|v: ElementModel| enc_element(v)).skip(1) =~= vs.skip(1).map_values(
        |v: ElementModel| enc_element(v),
    ));
}

proof fn lemma_enc_elements_push(vs: Seq<ElementModel>, v: ElementModel)
    ensures
        enc_elements(vs.push(v)) == enc_elements(vs) + enc_element(v),
{
    assert(vs.push(v).map_values(|v: ElementModel| enc_element(v)) =~= vs.map_values(
        |v: ElementModel| enc_element(v),
    ).push(enc_element(v)));
    lemma_concat_push(vs.map_values(|v: ElementModel| enc_element(v)), enc_element(v));
}

/// Appends the encodings of the certificates of `xs`, in order.
fn encode_certs(out: &mut Vec<u8>, xs: &Vec<Element>) -> (r: Result<(), Error>)
    requires
        old(out)@.len() <= MAX_LEN,
    ensures
        r is Ok <==> certs_ok(element_views(xs@)) && old(out)@.len() + enc_elements(
            element_views(xs@),
        ).len() <= MAX_LEN,
        r is Ok ==> final(out)@ == old(out)@ + enc_elements(element_views(xs@)),
{
    let ghost start = out@;
    let mut i: usize = 0;
    proof {
        assert(element_views(xs@).take(0) =~= Seq::<ElementModel>::empty());
        assert(start + enc_elements(Seq::<ElementModel>::empty()) =~= start);
    }
    while i < xs.len()
        invariant
            i <= xs@.len(),
            certs_ok(element_views(xs@).take(i as int)),
            out@ == start + enc_elements(element_views(xs@).take(i as int)),
            out@.len() <= MAX_LEN,
            start == old(out)@,
        decreases xs@.len() - i,
    {
        let ghost vs = element_views(xs@);
        proof {
            lemma_enc_elements_push(vs.take(i as int), vs[i as int]);
            assert(vs.take(i + 1) =~= vs.take(i as int).push(vs[i as int]));
        }
        let x = &xs[i];
        if x.tag != SEQUENCE {
            proof {
                assert(vs[i as int] == x@);
            }
            return Err(Error::Unencodable);
        }
        match x.encode_into(out) {
            Ok(()) => {},
            Err(e) => {
                proof {
                    assert(vs[i as int] == x@);
                }
                return Err(e);
            },
        }
        proof {
            assert(vs[i as int] == x@);
            assert(out@ =~= start + enc_elements(vs.take(i + 1)));
        }
        if out.len() > MAX_LEN {
            proof {
                lemma_enc_elements_split(vs, i as int + 1);
            }
            return Err(Error::Unencodable);
        }
        i = i + 1;
        proof {
            assert(certs_ok(vs.take(i as int)));
        }
    }
    proof {
        assert(element_views(xs@).take(i as int) =~= element_views(xs@));
    }
    Ok(())
}

proof fn lemma_enc_elements_split(vs: Seq<ElementModel>, k: int)
    requires
        0 <= k <= vs.len(),
    ensures
        enc_elements(vs.take(k)).len() <= enc_elements(vs).len(),
    decreases vs.len() - k,
{
    if k < vs.len() {
        lemma_enc_elements_split(vs, k + 1);
        assert(vs.take(k + 1) =~= vs.take(k).push(vs[k]));
        lemma_enc_elements_push(vs.take(k), vs[k]);
    } else {
        assert(vs.take(k) =~= vs);
    }
}

/// Reads the certificates that fill the bytes from `s` to `e`.
fn parse_certs(b: &[u8], s: usize, e: usize) -> (r: Option<Vec<Element>>)
    requires
        s <= e <= b@.len(),
    ensures
        r matches Some(xs) ==> certs_ok(element_views(xs@)) && b@.subrange(s as int, e as int)
            == enc_elements(element_views(xs@)),
        forall|vs: Seq<ElementModel>|
            #![trigger enc_elements(vs)]
            certs_ok(vs) && b@.subrange(s as int, e as int) == enc_elements(vs) ==> (r matches Some(
                xs,
            ) && element_views(xs@) == vs),
{
    let mut xs: Vec<Element> = Vec::new();
    let mut p: usize = s;
    proof {
        assert(element_views(xs@) =~= Seq::<ElementModel>::empty());
        assert(b@.subrange(s as int, s as int) =~= enc_elements(Seq::<ElementModel>::empty()));
        assert forall|vs: Seq<ElementModel>|
            #![trigger enc_elements(vs)]
            certs_ok(vs) && b@.subrange(s as int, e as int) == enc_elements(vs) implies vs.take(0)
            =~= element_views(xs@) && vs.skip(0) =~= vs by {}
    }
    while p < e
        invariant
            s <= p <= e <= b@.len(),
            certs_ok(element_views(xs@)),
            b@.subrange(s as int, p as int) == enc_elements(element_views(xs@)),
            forall|vs: Seq<ElementModel>|
                #![trigger enc_elements(vs)]
                certs_ok(vs) && b@.subrange(s as int, e as int) == enc_elements(vs) ==> xs@.len()
                    <= vs.len() && element_views(xs@) == vs.take(xs@.len() as int) && b@.subrange(
                    p as int,
                    e as int,
                ) == enc_elements(vs.skip(xs@.len() as int)),
        decreases e - p,
    {
        let ghost k = xs@.len() as int;
        proof {
            assert forall|vs: Seq<ElementModel>|
                #![trigger enc_elements(vs)]
                certs_ok(vs) && b@.subrange(s as int, e as int) == enc_elements(vs) implies k
                < vs.len() && at(b@, p as int, e as int, enc_element(vs[k])) && b@.subrange(
                p + enc_element(vs[k]).len(),
                e as int,
            ) == enc_elements(vs.skip(k + 1)) && element_ok(vs[k]) && vs[k].tag == SEQUENCE by {
                if k == vs.len() {
                    assert(vs.skip(k) =~= Seq::<ElementModel>::empty());
                    assert(enc_elements(Seq::<ElementModel>::empty()) =~= Seq::<u8>::empty());
                }
                let rest = vs.skip(k);
                lemma_enc_elements_first(rest);
                assert(rest.skip(1) =~= vs.skip(k + 1));
                assert(rest[0] == vs[k]);
                assert(at(b@, p as int, e as int, enc_element(vs[k]) + enc_elements(vs.skip(k + 1))));
                lemma_at_concat(b@, p as int, e as int, enc_element(vs[k]), enc_elements(vs.skip(k + 1)));
            }
        }
        let (x, q) = match Element::parse(b, p, e) {
            Some(xq) => xq,
            None => return None,
        };
        if x.tag != SEQUENCE {
            return None;
        }
        proof {
            lemma_subrange_join(b@, s as int, p as int, q as int);
            lemma_enc_elements_push(element_views(xs@), x@);
            assert(element_views(xs@.push(x)) =~= element_views(xs@).push(x@));
            assert forall|vs: Seq<ElementModel>|
                #![trigger enc_elements(vs)]
                certs_ok(vs) && b@.subrange(s as int, e as int) == enc_elements(vs) implies
                element_views(xs@.push(x)) == vs.take(k + 1) by {
                assert(vs.take(k + 1) =~= vs.take(k).push(vs[k]));
            }
        }
        xs.push(x);
        p = q;
    }
    proof {
        assert forall|vs: Seq<ElementModel>|
            #![trigger enc_elements(vs)]
            certs_ok(vs) && b@.subrange(s as int, e as int) == enc_elements(vs) implies element_views(
            xs@,
        ) == vs by {
            let k = xs@.len() as int;
            if k < vs.len() {
                lemma_enc_elements_first(vs.skip(k));
            }
            assert(vs.take(k) =~= vs);
        }
    }
    Some(xs)
}

/// The encoding of an optional certificate list under `[0] EXPLICIT`.
pub open spec fn enc_opt_certs(o: Option<Seq<ElementModel>>) -> Seq<u8> {
    match o {
        Some(cs) => tlv(EXPLICIT_0, tlv(SEQUENCE, enc_elements(cs))),
        None => Seq::empty(),
    }
}

pub open spec fn opt_certs_ok(o: Option<Seq<ElementModel>>) -> bool {
    match o {
        Some(cs) => certs_ok(cs),
        None => true,
    }
}

/// Appends an optional certificate list under `[0] EXPLICIT`.
fn encode_opt_certs(out: &mut Vec<u8>, o: &Option<Vec<Element>>) -> (r: Result<(), Error>)
    ensures
        r is Ok <==> opt_certs_ok(
            match o {
                Some(xs) => Some(element_views(xs@)),
                None => None,
            },
        ) && enc_opt_certs(
            match o {
                Some(xs) => Some(element_views(xs@)),
                None => None,
            },
        ).len() <= MAX_LEN + 6,
        r is Ok ==> final(out)@ == old(out)@ + enc_opt_certs(
            match o {
                Some(xs) => Some(element_views(xs@)),
                None => None,
            },
        ),
{
    match o {
        Some(xs) => {
            let mut inner: Vec<u8> = Vec::new();
            match encode_certs(&mut inner, xs) {
                Ok(()) => {},
                Err(e) => {
                    proof {
                        let l = enc_elements(element_views(xs@));
                        assert(tlv(EXPLICIT_0, tlv(SEQUENCE, l)).len() >= l.len() + 4);
                    }
                    return Err(e);
                },
            }
            assert(inner@ =~= enc_elements(element_views(xs@)));
            let mut seq: Vec<u8> = Vec::new();
            match write_tlv(&mut seq, SEQUENCE, &mut inner) {
                Ok(()) => {},
                Err(e) => return Err(e),
            }
            assert(seq@ =~= tlv(SEQUENCE, enc_elements(element_views(xs@))));
            if seq.len() > MAX_LEN {
                return Err(Error::Unencodable);
            }
            write_tlv(out, EXPLICIT_0, &mut seq)
        },
        None => {
            assert(old(out)@ + Seq::<u8>::empty() =~= old(out)@);
            Ok(())
        },
    }
}

/// Reads an optional certificate list under `[0] EXPLICIT` at `pos`: present
/// when the byte at `pos`, before `end`, is the tag.
fn parse_opt_certs(b: &[u8], pos: usize, end: usize) -> (r: Option<(Option<Vec<Element>>, usize)>)
    requires
        pos <= end <= b@.len(),
    ensures
        r matches Some((o, p)) ==> pos <= p <= end && opt_certs_ok(
            match o {
                Some(xs) => Some(element_views(xs@)),
                None => None,
            },
        ) && b@.subrange(pos as int, p as int) == enc_opt_certs(
            match o {
                Some(xs) => Some(element_views(xs@)),
                None => None,
            },
        ),
        forall|cs: Seq<ElementModel>|
            #![trigger enc_elements(cs)]
            certs_ok(cs) && tlv(SEQUENCE, enc_elements(cs)).len() <= MAX_LEN && at(
                b@,
                pos as int,
                end as int,
                tlv(EXPLICIT_0, tlv(SEQUENCE, enc_elements(cs))),
            ) ==> (r matches Some((o, p)) && o is Some && element_views(o->0@) == cs && p == pos
                + tlv(EXPLICIT_0, tlv(SEQUENCE, enc_elements(cs))).len()),
        !(pos < end && b@[pos as int] == EXPLICIT_0) ==> r == Some((None::<Vec<Element>>, pos)),
{
    proof {
        assert forall|cs: Seq<ElementModel>|
            #![trigger enc_elements(cs)]
            certs_ok(cs) && tlv(SEQUENCE, enc_elements(cs)).len() <= MAX_LEN && at(
                b@,
                pos as int,
                end as int,
                tlv(EXPLICIT_0, tlv(SEQUENCE, enc_elements(cs))),
            ) implies ({
                let l = enc_elements(cs);
                let w = tlv(SEQUENCE, l);
                let s1 = pos + 1 + length_octets(w.len()).len();
                let e1 = pos + tlv(EXPLICIT_0, w).len();
                let s2 = s1 + 1 + length_octets(l.len()).len();
                b@[pos as int] == EXPLICIT_0 && at(b@, s1, e1, w) && s2 + l.len() == e1 && b@.subrange(
                    s2,
                    e1,
                ) == l
            }) by {
            let l = enc_elements(cs);
            let w = tlv(SEQUENCE, l);
            let s1 = pos + 1 + length_octets(w.len()).len();
            let e1 = pos + tlv(EXPLICIT_0, w).len();
            lemma_at_tlv(b@, pos as int, end as int, EXPLICIT_0, w);
            lemma_at_tlv(b@, s1, e1, SEQUENCE, l);
        }
    }
    if pos < end && b[pos] == EXPLICIT_0 {
        let (s1, e1) = match read_tagged(b, pos, end, EXPLICIT_0) {
            Some(se) => se,
            None => return None,
        };
        let (s2, e2) = match read_tagged(b, s1, e1, SEQUENCE) {
            Some(se) => se,
            None => return None,
        };
        if e2 != e1 {
            return None;
        }
        let xs = match parse_certs(b, s2, e2) {
            Some(xs) => xs,
            None => return None,
        };
        Some((Some(xs), e1))
    } else {
        assert(b@.subrange(pos as int, pos as int) =~= Seq::<u8>::empty());
        Some((None, pos))
    }
}

/// A signature over the request, with an optional list of certificates
/// that help to check it.
#[derive(Debug, Clone, PartialEq, Eq)]
pub struct Signature {
    /// An AlgorithmIdentifier, as its DER element.
    pub signature_algorithm: Element,
    pub signature: BitString,
    /// Certificates, each as its DER element, under `[0] EXPLICIT`.
    pub certs: Option<Vec<Element>>,
}

/// What a `Signature` holds.
pub struct SignatureModel {
    pub signature_algorithm: ElementModel,
    pub signature: BitStringModel,
    pub certs: Option<Seq<ElementModel>>,
}

impl View for Signature {
    type V = SignatureModel;

    open spec fn view(&self) -> SignatureModel {
        SignatureModel {
            signature_algorithm: self.signature_algorithm@,
            signature: self.signature@,
            certs: match self.certs {
                Some(xs) => Some(element_views(xs@)),
                None => None,
            },
        }
    }
}

pub open spec fn signature_content(v: SignatureModel) -> Seq<u8> {
    enc_element(v.signature_algorithm) + enc_bit_string(v.signature) + enc_opt_certs(v.certs)
}

pub open spec fn signature_ok(v: SignatureModel) -> bool {
    &&& element_ok(v.signature_algorithm)
    &&& v.signature_algorithm.tag == SEQUENCE
    &&& bit_string_ok(v.signature)
    &&& opt_certs_ok(v.certs)
    &&& signature_content(v).len() <= MAX_LEN
}

pub open spec fn enc_signature(v: SignatureModel) -> Seq<u8> {
    tlv(SEQUENCE, signature_content(v))
}

impl Signature {
    /// Appends the DER encoding; fails exactly when the value cannot be
    /// encoded.
    pub fn encode_into(&self, out: &mut Vec<u8>) -> (r: Result<(), Error>)
        ensures
            r is Ok <==> signature_ok(self@),
            r is Ok ==> final(out)@ == old(out)@ + enc_signature(self@),
    {
        if self.signature_algorithm.tag != SEQUENCE {
            return Err(Error::Unencodable);
        }
        let mut c: Vec<u8> = Vec::new();
        match self.signature_algorithm.encode_into(&mut c) {
            Ok(()) => {},
            Err(e) => return Err(e),
        }
        match self.signature.encode_into(&mut c) {
            Ok(()) => {},
            Err(e) => return Err(e),
        }
        match encode_opt_certs(&mut c, &self.certs) {
            Ok(()) => {},
            Err(e) => return Err(e),
        }
        assert(c@ =~= signature_content(self@));
        write_tlv(out, SEQUENCE, &mut c)
    }

    /// Reads the value encoded at `pos`, ending by `end`; returns it with the
    /// position after it. Succeeds exactly when a valid value's encoding
    /// stands there.
    pub fn parse(b: &[u8], pos: usize, end: usize) -> (r: Option<(Signature, usize)>)
        requires
            pos <= end <= b@.len(),
        ensures
            r matches Some((x, p)) ==> pos < p <= end && signature_ok(x@) && b@.subrange(
                pos as int,
                p as int,
            ) == enc_signature(x@),
            forall|v: SignatureModel|
                #![trigger enc_signature(v)]
                signature_ok(v) && at(b@, pos as int, end as int, enc_signature(v)) ==> (r matches Some(
                    (x, p),
                ) && x@ == v && p == pos + enc_signature(v).len()),
    {
        proof {
            assert forall|v: SignatureModel|
                #![trigger enc_signature(v)]
                signature_ok(v) && at(b@, pos as int, end as int, enc_signature(v)) implies ({
                    let c = signature_content(v);
                    let s = pos + 1 + length_octets(c.len()).len();
                    let e = pos + enc_signature(v).len();
                    let p1 = s + enc_element(v.signature_algorithm).len();
                    let p2 = p1 + enc_bit_string(v.signature).len();
                    &&& at(b@, s, e, enc_element(v.signature_algorithm))
                    &&& at(b@, p1, e, enc_bit_string(v.signature))
                    &&& at(b@, p2, e, enc_opt_certs(v.certs))
                    &&& p2 + enc_opt_certs(v.certs).len() == e
                }) by {
                let c = signature_content(v);
                let s = pos + 1 + length_octets(c.len()).len();
                let e = pos + enc_signature(v).len();
                let a = enc_element(v.signature_algorithm);
                let g = enc_bit_string(v.signature);
                lemma_at_tlv(b@, pos as int, end as int, SEQUENCE, c);
                lemma_at_concat(b@, s, e, a + g, enc_opt_certs(v.certs));
                lemma_at_concat(b@, s, e, a, g);
            }
        }
        let (s, e) = match read_tagged(b, pos, end, SEQUENCE) {
            Some(se) => se,
            None => return None,
        };
        let (signature_algorithm, p1) = match Element::parse(b, s, e) {
            Some(x) => x,
            None => return None,
        };
        if signature_algorithm.tag != SEQUENCE {
            return None;
        }
        let (signature, p2) = match BitString::parse(b, p1, e) {
            Some(x) => x,
            None => return None,
        };
        let (certs, p3) = match parse_opt_certs(b, p2, e) {
            Some(x) => x,
            None => return None,
        };
        if p3 != e {
            return None;
        }
        let r = Signature { signature_algorithm, signature, certs };
        proof {
            lemma_subrange_join(b@, s as int, p2 as int, e as int);
            lemma_subrange_join(b@, s as int, p1 as int, p2 as int);
            assert(b@.subrange(s as int, e as int) == signature_content(r@));
        }
        Some((r, e))
    }

    /// The DER encoding of this signature block; fails exactly when it
    /// cannot be encoded.
    pub fn to_der(&self) -> (r: Result<Vec<u8>, Error>)
        ensures
            r is Ok <==> signature_ok(self@),
            r matches Ok(b) ==> b@ == enc_signature(self@),
            r matches Err(e) ==> e == Error::Unencodable,
    {
        let mut out: Vec<u8> = Vec::new();
        match self.encode_into(&mut out) {
            Ok(()) => {
                assert(out@ =~= enc_signature(self@));
                Ok(out)
            },
            Err(_) => Err(Error::Unencodable),
        }
    }

    /// Decodes a signature block from exactly the bytes of `b`.
    pub fn from_der(b: &[u8]) -> (r: Result<Signature, Error>)
        ensures
            r matches Ok(x) ==> signature_ok(x@) && enc_signature(x@) == b@,
            forall|v: SignatureModel|
                #![trigger enc_signature(v)]
                signature_ok(v) && enc_signature(v) == b@ ==> (r matches Ok(x) && x@ == v),
            r matches Err(e) ==> e == Error::Malformed,
    {
        proof {
            assert(b@.subrange(0, b@.len() as int) =~= b@);
        }
        match Signature::parse(b, 0, b.len()) {
            Some((x, p)) => {
                if p == b.len() {
                    Ok(x)
                } else {
                    Err(Error::Malformed)
                }
            },
            None => Err(Error::Malformed),
        }
    }
}

pub open spec fn request_views(xs: Seq<Request>) -> Seq<RequestModel> {
    xs.map_values(|x: Request| x@)
}

/// The concatenated encodings of a list of requests.
pub open spec fn enc_requests(vs: Seq<RequestModel>) -> Seq<u8> {
    concat(vs.map_values(|v: RequestModel| enc_request(v)))
}

/// Every request of a list can be encoded.
pub open spec fn requests_ok(vs: Seq<RequestModel>) -> bool {
    forall|i: int| 0 <= i < vs.len() ==> request_ok(#[trigger] vs[i])
}

pub proof fn lemma_enc_requests_first(vs: Seq<RequestModel>)
    requires
        vs.len() > 0,
    ensures
        enc_requests(vs) == enc_request(vs[0]) + enc_requests(vs.skip(1)),
        enc_requests(vs).len() > 0,
{
    assert(vs.map_values(|v: RequestModel| enc_request(v)).skip(1) =~= vs.skip(1).map_values(
        |v: RequestModel| enc_request(v),
    ));
}

proof fn lemma_enc_requests_push(vs: Seq<RequestModel>, v: RequestModel)
    ensures
        enc_requests(vs.push(v)) == enc_requests(vs) + enc_request(v),
{
    assert(vs.push(v).map_values(|v: RequestModel| enc_request(v)) =~= vs.map_values(
        |v: RequestModel| enc_request(v),
    ).push(enc_request(v)));
    lemma_concat_push(vs.map_values(|v: RequestModel| enc_request(v)), enc_request(v));
}

/// Appends the encodings of the requests of `xs`, in order.
fn encode_requests(out: &mut Vec<u8>, xs: &Vec<Request>) -> (r: Result<(), Error>)
    requires
        old(out)@.len() <= MAX_LEN,
    ensures
        r is Ok <==> requests_ok(request_views(xs@)) && old(out)@.len() + enc_requests(
            request_views(xs@),
        ).len() <= MAX_LEN,
        r is Ok ==> final(out)@ == old(out)@ + enc_requests(request_views(xs@)),
{
    let ghost start = out@;
    let mut i: usize = 0;
    proof {
        assert(request_views(xs@).take(0) =~= Seq::<RequestModel>::empty());
        assert(start + enc_requests(Seq::<RequestModel>::empty()) =~= start);
    }
    while i < xs.len()
        invariant
            i <= xs@.len(),
            requests_ok(request_views(xs@).take(i as int)),
            out@ == start + enc_requests(request_views(xs@).take(i as int)),
            out@.len() <= MAX_LEN,
            start == old(out)@,
        decreases xs@.len() - i,
    {
        let ghost vs = request_views(xs@);
        proof {
            lemma_enc_requests_push(vs.take(i as int), vs[i as int]);
            assert(vs.take(i + 1) =~= vs.take(i as int).push(vs[i as int]));
        }
        let x = &xs[i];
        match x.encode_into(out) {
            Ok(()) => {},
            Err(e) => {
                proof {
                    assert(vs[i as int] == x@);
                }
                return Err(e);
            },
        }
        proof {
            assert(vs[i as int] == x@);
            assert(out@ =~= start + enc_requests(vs.take(i + 1)));
        }
        if out.len() > MAX_LEN {
            proof {
                lemma_enc_requests_split(vs, i as int + 1);
            }
            return Err(Error::Unencodable);
        }
        i = i + 1;
        proof {
            assert(requests_ok(vs.take(i as int)));
        }
    }
    proof {
        assert(request_views(xs@).take(i as int) =~= request_views(xs@));
    }
    Ok(())
}

proof fn lemma_enc_requests_split(vs: Seq<RequestModel>, k: int)
    requires
        0 <= k <= vs.len(),
    ensures
        enc_requests(vs.take(k)).len() <= enc_requests(vs).len(),
    decreases vs.len() - k,
{
    if k < vs.len() {
        lemma_enc_requests_split(vs, k + 1);
        assert(vs.take(k + 1) =~= vs.take(k).push(vs[k]));
        lemma_enc_requests_push(vs.take(k), vs[k]);
    } else {
        assert(vs.take(k) =~= vs);
    }
}

/// Reads the requests that fill the bytes from `s` to `e`.
fn parse_requests(b: &[u8], s: usize, e: usize) -> (r: Option<Vec<Request>>)
    requires
        s <= e <= b@.len(),
    ensures
        r matches Some(xs) ==> requests_ok(request_views(xs@)) && b@.subrange(s as int, e as int)
            == enc_requests(request_views(xs@)),
        forall|vs: Seq<RequestModel>|
            #![trigger enc_requests(vs)]
            requests_ok(vs) && b@.subrange(s as int, e as int) == enc_requests(vs) ==> (r matches Some(
                xs,
            ) && request_views(xs@) == vs),
{
    let mut xs: Vec<Request> = Vec::new();
    let mut p: usize = s;
    proof {
        assert(request_views(xs@) =~= Seq::<RequestModel>::empty());
        assert(b@.subrange(s as int, s as int) =~= enc_requests(Seq::<RequestModel>::empty()));
        assert forall|vs: Seq<RequestModel>|
            #![trigger enc_requests(vs)]
            requests_ok(vs) && b@.subrange(s as int, e as int) == enc_requests(vs) implies vs.take(0)
            =~= request_views(xs@) && vs.skip(0) =~= vs by {}
    }
    while p < e
        invariant
            s <= p <= e <= b@.len(),
            requests_ok(request_views(xs@)),
            b@.subrange(s as int, p as int) == enc_requests(request_views(xs@)),
            forall|vs: Seq<RequestModel>|
                #![trigger enc_requests(vs)]
                requests_ok(vs) && b@.subrange(s as int, e as int) == enc_requests(vs) ==> xs@.len()
                    <= vs.len() && request_views(xs@) == vs.take(xs@.len() as int) && b@.subrange(
                    p as int,
                    e as int,
                ) == enc_requests(vs.skip(xs@.len() as int)),
        decreases e - p,
    {
        let ghost k = xs@.len() as int;
        proof {
            assert forall|vs: Seq<RequestModel>|
                #![trigger enc_requests(vs)]
                requests_ok(vs) && b@.subrange(s as int, e as int) == enc_requests(vs) implies k
                < vs.len() && at(b@, p as int, e as int, enc_request(vs[k])) && b@.subrange(
                p + enc_request(vs[k]).len(),
                e as int,
            ) == enc_requests(vs.skip(k + 1)) && request_ok(vs[k]) by {
                if k == vs.len() {
                    assert(vs.skip(k) =~= Seq::<RequestModel>::empty());
                    assert(enc_requests(Seq::<RequestModel>::empty()) =~= Seq::<u8>::empty());
                }
                let rest = vs.skip(k);
                lemma_enc_requests_first(rest);
                assert(rest.skip(1) =~= vs.skip(k + 1));
                assert(rest[0] == vs[k]);
                assert(at(b@, p as int, e as int, enc_request(vs[k]) + enc_requests(vs.skip(k + 1))));
                lemma_at_concat(b@, p as int, e as int, enc_request(vs[k]), enc_requests(vs.skip(k + 1)));
            }
        }
        let (x, q) = match Request::parse(b, p, e) {
            Some(xq) => xq,
            None => return None,
        };
        proof {
            lemma_subrange_join(b@, s as int, p as int, q as int);
            lemma_enc_requests_push(request_views(xs@), x@);
            assert(request_views(xs@.push(x)) =~= request_views(xs@).push(x@));
            assert forall|vs: Seq<RequestModel>|
                #![trigger enc_requests(vs)]
                requests_ok(vs) && b@.subrange(s as int, e as int) == enc_requests(vs) implies
                request_views(xs@.push(x)) == vs.take(k + 1) by {
                assert(vs.take(k + 1) =~= vs.take(k).push(vs[k]));
            }
        }
        xs.push(x);
        p = q;
    }
    proof {
        assert forall|vs: Seq<RequestModel>|
            #![trigger enc_requests(vs)]
            requests_ok(vs) && b@.subrange(s as int, e as int) == enc_requests(vs) implies request_views(
            xs@,
        ) == vs by {
            let k = xs@.len() as int;
            if k < vs.len() {
                lemma_enc_requests_first(vs.skip(k));
            }
            assert(vs.take(k) =~= vs);
        }
    }
    Some(xs)
}

/// The syntax version of a request: `v1` is numbered 0, and is the default.
#[derive(Debug, Clone, Copy, PartialEq, Eq)]
pub struct Version {
    pub number: u8,
}

impl Version {
    /// Version `v1`.
    pub fn v1() -> (r: Version)
        ensures
            r.number == 0,
    {
        Version { number: 0 }
    }
}

impl Default for Version {
    fn default() -> (r: Version)
        ensures
            r.number == 0,
    {
        Version { number: 0 }
    }
}

/// The contents octets of a version number as a DER INTEGER.
pub open spec fn int_octets(n: u8) -> Seq<u8> {
    if n < 0x80 {
        seq![n]
    } else {
        seq![0u8, n]
    }
}

/// A version number under `[0] EXPLICIT`.
pub open spec fn enc_version(n: u8) -> Seq<u8> {
    tlv(EXPLICIT_0, tlv(INTEGER, int_octets(n)))
}

/// The version field: absent when it is the default.
pub open spec fn enc_opt_version(n: u8) -> Seq<u8> {
    if n == 0 {
        Seq::empty()
    } else {
        enc_version(n)
    }
}

fn encode_opt_version(out: &mut Vec<u8>, n: u8)
    ensures
        final(out)@ == old(out)@ + enc_opt_version(n),
{
    if n == 0 {
        assert(old(out)@ + Seq::<u8>::empty() =~= old(out)@);
        return;
    }
    let mut i: Vec<u8> = Vec::new();
    if n >= 0x80 {
        i.push(0u8);
    }
    i.push(n);
    assert(i@ =~= int_octets(n));
    let mut w: Vec<u8> = Vec::new();
    let _ = write_tlv(&mut w, INTEGER, &mut i);
    assert(w@ =~= tlv(INTEGER, int_octets(n)));
    let _ = write_tlv(out, EXPLICIT_0, &mut w);
}

/// Reads the version field at `pos`: present when the byte at `pos`, before
/// `end`, is `[0]`; the default when it is absent.
fn parse_opt_version(b: &[u8], pos: usize, end: usize) -> (r: Option<(u8, usize)>)
    requires
        pos <= end <= b@.len(),
    ensures
        r matches Some((n, p)) ==> pos <= p <= end && b@.subrange(pos as int, p as int)
            == enc_opt_version(n),
        forall|n: u8|
            #![trigger enc_version(n)]
            n != 0 && at(b@, pos as int, end as int, enc_version(n)) ==> r == Some(
                (n, (pos + enc_version(n).len()) as usize),
            ),
        !(pos < end && b@[pos as int] == EXPLICIT_0) ==> r == Some((0u8, pos)),
{
    proof {
        assert forall|n: u8|
            #![trigger enc_version(n)]
            n != 0 && at(b@, pos as int, end as int, enc_version(n)) implies ({
                let w = tlv(INTEGER, int_octets(n));
                let s1 = pos + 1 + length_octets(w.len()).len();
                b@[pos as int] == EXPLICIT_0 && at(b@, s1, pos + enc_version(n).len(), w)
            }) by {
            lemma_at_tlv(b@, pos as int, end as int, EXPLICIT_0, tlv(INTEGER, int_octets(n)));
        }
    }
    if pos < end && b[pos] == EXPLICIT_0 {
        let (s1, e1) = match read_tagged(b, pos, end, EXPLICIT_0) {
            Some(se) => se,
            None => return None,
        };
        let (i, q) = match read_primitive(b, s1, e1, INTEGER) {
            Some(x) => x,
            None => return None,
        };
        if q != e1 {
            return None;
        }
        let n: u8;
        if i.len() == 1 && i[0] != 0 && i[0] < 0x80 {
            n = i[0];
        } else if i.len() == 2 && i[0] == 0 && i[1] >= 0x80 {
            n = i[1];
        } else {
            return None;
        }
        assert(i@ =~= int_octets(n));
        Some((n, e1))
    } else {
        assert(b@.subrange(pos as int, pos as int) =~= Seq::<u8>::empty());
        Some((0, pos))
    }
}

/// The request to be signed: version, optional requestor name, the list of
/// single requests and optional extensions of the whole request.
#[derive(Debug, Clone, PartialEq, Eq)]
pub struct TbsRequest {
    pub version: Version,
    /// A GeneralName, as its DER element, under `[1] EXPLICIT`.
    pub requestor_name: Option<Element>,
    pub request_list: Vec<Request>,
    /// Extensions, as their DER element (a SEQUENCE), under `[2] EXPLICIT`.
    pub request_extensions: Option<Element>,
}

/// What a `TbsRequest` holds.
pub struct TbsRequestModel {
    pub version: u8,
    pub requestor_name: Option<ElementModel>,
    pub request_list: Seq<RequestModel>,
    pub request_extensions: Option<ElementModel>,
}

pub open spec fn opt_element_view(o: Option<Element>) -> Option<ElementModel> {
    match o {
        Some(e) => Some(e@),
        None => None,
    }
}

impl View for TbsRequest {
    type V = TbsRequestModel;

    open spec fn view(&self) -> TbsRequestModel {
        TbsRequestModel {
            version: self.version.number,
            requestor_name: opt_element_view(self.requestor_name),
            request_list: request_views(self.request_list@),
            request_extensions: opt_element_view(self.request_extensions),
        }
    }
}

pub open spec fn name_ok(o: Option<ElementModel>) -> bool {
    match o {
        Some(x) => element_ok(x),
        None => true,
    }
}

pub open spec fn tbs_request_content(v: TbsRequestModel) -> Seq<u8> {
    enc_opt_version(v.version) + explicit_opt(EXPLICIT_1, enc_opt_element(v.requestor_name)) + tlv(
        SEQUENCE,
        enc_requests(v.request_list),
    ) + explicit_opt(EXPLICIT_2, enc_opt_element(v.request_extensions))
}

pub open spec fn tbs_request_ok(v: TbsRequestModel) -> bool {
    &&& name_ok(v.requestor_name)
    &&& requests_ok(v.request_list)
    &&& extensions_ok(v.request_extensions)
    &&& tbs_request_content(v).len() <= MAX_LEN
}

pub open spec fn enc_tbs_request(v: TbsRequestModel) -> Seq<u8> {
    tlv(SEQUENCE, tbs_request_content(v))
}

/// Where the fields of a request body stand in its encoding.
proof fn lemma_tbs_request_layout(b: Seq<u8>, pos: int, end: int)
    requires
        0 <= pos <= end <= b.len(),
    ensures
        forall|v: TbsRequestModel|
                #![trigger enc_tbs_request(v)]
                tbs_request_ok(v) && at(b, pos, end, enc_tbs_request(v)) ==> ({
                    let c = tbs_request_content(v);
                    let s = pos + 1 + length_octets(c.len()).len();
                    let e = pos + enc_tbs_request(v).len();
                    let ov = enc_opt_version(v.version);
                    let on = explicit_opt(EXPLICIT_1, enc_opt_element(v.requestor_name));
                    let l = enc_requests(v.request_list);
                    let ol = tlv(SEQUENCE, l);
                    let ox = explicit_opt(EXPLICIT_2, enc_opt_element(v.request_extensions));
                    let p1 = s + ov.len();
                    let p2 = p1 + on.len();
                    let p3 = p2 + ol.len();
                    &&& at(b, s, e, ov)
                    &&& at(b, p1, e, on)
                    &&& at(b, p2, e, ol)
                    &&& b[p2] == SEQUENCE
                    &&& b.subrange(p2 + 1 + length_octets(l.len()).len(), p3) == l
                    &&& at(b, p3, e, ox)
                    &&& p3 + ox.len() == e
                    &&& (v.version == 0 ==> p1 == s)
                    &&& (v.requestor_name is None ==> p2 == p1)
                    &&& (v.requestor_name is Some ==> b[p1] == EXPLICIT_1)
                    &&& (ox.len() == 0 ==> p3 == e)
                }),
{
        assert forall|v: TbsRequestModel|
            #![trigger enc_tbs_request(v)]
            tbs_request_ok(v) && at(b, pos, end, enc_tbs_request(v)) implies ({
                let c = tbs_request_content(v);
                let s = pos + 1 + length_octets(c.len()).len();
                let e = pos + enc_tbs_request(v).len();
                let ov = enc_opt_version(v.version);
                let on = explicit_opt(EXPLICIT_1, enc_opt_element(v.requestor_name));
                let l = enc_requests(v.request_list);
                let ol = tlv(SEQUENCE, l);
                let ox = explicit_opt(EXPLICIT_2, enc_opt_element(v.request_extensions));
                let p1 = s + ov.len();
                let p2 = p1 + on.len();
                let p3 = p2 + ol.len();
                &&& at(b, s, e, ov)
                &&& at(b, p1, e, on)
                &&& at(b, p2, e, ol)
                &&& b[p2] == SEQUENCE
                &&& b.subrange(p2 + 1 + length_octets(l.len()).len(), p3) == l
                &&& at(b, p3, e, ox)
                &&& p3 + ox.len() == e
                &&& (v.version == 0 ==> p1 == s)
                &&& (v.requestor_name is None ==> p2 == p1)
                &&& (v.requestor_name is Some ==> b[p1] == EXPLICIT_1)
                &&& (ox.len() == 0 ==> p3 == e)
            }) by {
            let c = tbs_request_content(v);
            let s = pos + 1 + length_octets(c.len()).len();
            let e = pos + enc_tbs_request(v).len();
            let ov = enc_opt_version(v.version);
            let on = explicit_opt(EXPLICIT_1, enc_opt_element(v.requestor_name));
            let l = enc_requests(v.request_list);
            let ol = tlv(SEQUENCE, l);
            let ox = explicit_opt(EXPLICIT_2, enc_opt_element(v.request_extensions));
            let p1 = s + ov.len();
            let p2 = p1 + on.len();
            lemma_at_tlv(b, pos, end, SEQUENCE, c);
            lemma_at_concat(b, s, e, ov + on + ol, ox);
            lemma_at_concat(b, s, e, ov + on, ol);
            lemma_at_concat(b, s, e, ov, on);
            lemma_at_tlv(b, p2, e, SEQUENCE, l);
            match v.requestor_name {
                Some(x) => {
                    lemma_at_tlv(b, p1, e, EXPLICIT_1, enc_element(x));
                },
                None => {},
            }
        }
}

impl TbsRequest {
    /// Appends the DER encoding; fails exactly when the value cannot be
    /// encoded.
    pub fn encode_into(&self, out: &mut Vec<u8>) -> (r: Result<(), Error>)
        ensures
            r is Ok <==> tbs_request_ok(self@),
            r is Ok ==> final(out)@ == old(out)@ + enc_tbs_request(self@),
    {
        match &self.request_extensions {
            Some(x) => {
                if x.tag != SEQUENCE {
                    return Err(Error::Unencodable);
                }
            },
            None => {},
        }
        let mut c: Vec<u8> = Vec::new();
        encode_opt_version(&mut c, self.version.number);
        match encode_explicit_element(&mut c, EXPLICIT_1, &self.requestor_name) {
            Ok(()) => {},
            Err(e) => return Err(e),
        }
        let mut l: Vec<u8> = Vec::new();
        match encode_requests(&mut l, &self.request_list) {
            Ok(()) => {},
            Err(e) => return Err(e),
        }
        assert(l@ =~= enc_requests(self@.request_list));
        match write_tlv(&mut c, SEQUENCE, &mut l) {
            Ok(()) => {},
            Err(e) => return Err(e),
        }
        match encode_explicit_element(&mut c, EXPLICIT_2, &self.request_extensions) {
            Ok(()) => {},
            Err(e) => return Err(e),
        }
        assert(c@ =~= tbs_request_content(self@));
        write_tlv(out, SEQUENCE, &mut c)
    }

    /// Reads the value encoded at `pos`, ending by `end`; returns it with the
    /// position after it. Succeeds exactly when a valid value's encoding
    /// stands there.
    #[verifier::rlimit(100)]
    pub fn parse(b: &[u8], pos: usize, end: usize) -> (r: Option<(TbsRequest, usize)>)
        requires
            pos <= end <= b@.len(),
        ensures
            r matches Some((x, p)) ==> pos < p <= end && tbs_request_ok(x@) && b@.subrange(
                pos as int,
                p as int,
            ) == enc_tbs_request(x@),
            forall|v: TbsRequestModel|
                #![trigger enc_tbs_request(v)]
                tbs_request_ok(v) && at(b@, pos as int, end as int, enc_tbs_request(v)) ==> (r matches Some(
                    (x, p),
                ) && x@ == v && p == pos + enc_tbs_request(v).len()),
    {
        proof {
            lemma_tbs_request_layout(b@, pos as int, end as int);
        }
        let (s, e) = match read_tagged(b, pos, end, SEQUENCE) {
            Some(se) => se,
            None => return None,
        };
        let (number, p1) = match parse_opt_version(b, s, e) {
            Some(x) => x,
            None => return None,
        };
        let (requestor_name, p2) = match parse_explicit_element(b, p1, e, EXPLICIT_1) {
            Some(x) => x,
            None => return None,
        };
        let (ls, le) = match read_tagged(b, p2, e, SEQUENCE) {
            Some(x) => x,
            None => return None,
        };
        let request_list = match parse_requests(b, ls, le) {
            Some(x) => x,
            None => return None,
        };
        let (request_extensions, p4) = match parse_explicit_element(b, le, e, EXPLICIT_2) {
            Some(x) => x,
            None => return None,
        };
        if p4 != e {
            return None;
        }
        match &request_extensions {
            Some(x) => {
                if x.tag != SEQUENCE {
                    return None;
                }
            },
            None => {},
        }
        let r = TbsRequest {
            version: Version { number },
            requestor_name,
            request_list,
            request_extensions,
        };
        proof {
            lemma_subrange_join(b@, s as int, le as int, e as int);
            lemma_subrange_join(b@, s as int, p2 as int, le as int);
            lemma_subrange_join(b@, s as int, p1 as int, p2 as int);
            assert(b@.subrange(s as int, e as int) == tbs_request_content(r@));
        }
        Some((r, e))
    }

    /// The DER encoding of this request body; fails exactly when it cannot
    /// be encoded.
    pub fn to_der(&self) -> (r: Result<Vec<u8>, Error>)
        ensures
            r is Ok <==> tbs_request_ok(self@),
            r matches Ok(b) ==> b@ == enc_tbs_request(self@),
            r matches Err(e) ==> e == Error::Unencodable,
    {
        let mut out: Vec<u8> = Vec::new();
        match self.encode_into(&mut out) {
            Ok(()) => {
                assert(out@ =~= enc_tbs_request(self@));
                Ok(out)
            },
            Err(_) => Err(Error::Unencodable),
        }
    }

    /// Decodes a request body from exactly the bytes of `b`.
    pub fn from_der(b: &[u8]) -> (r: Result<TbsRequest, Error>)
        ensures
            r matches Ok(x) ==> tbs_request_ok(x@) && enc_tbs_request(x@) == b@,
            forall|v: TbsRequestModel|
                #![trigger enc_tbs_request(v)]
                tbs_request_ok(v) && enc_tbs_request(v) == b@ ==> (r matches Ok(x) && x@ == v),
            r matches Err(e) ==> e == Error::Malformed,
    {
        proof {
            assert(b@.subrange(0, b@.len() as int) =~= b@);
        }
        match TbsRequest::parse(b, 0, b.len()) {
            Some((x, p)) => {
                if p == b.len() {
                    Ok(x)
                } else {
                    Err(Error::Malformed)
                }
            },
            None => Err(Error::Malformed),
        }
    }
}

/// An OCSP request: the request body and an optional signature over it.
#[derive(Debug, Clone, PartialEq, Eq)]
pub struct OcspRequest {
    pub tbs_request: TbsRequest,
    /// Under `[0] EXPLICIT`.
    pub optional_signature: Option<Signature>,
}

/// What a `OcspRequest` holds.
pub struct OcspRequestModel {
    pub tbs_request: TbsRequestModel,
    pub optional_signature: Option<SignatureModel>,
}

impl View for OcspRequest {
    type V = OcspRequestModel;

    open spec fn view(&self) -> OcspRequestModel {
        OcspRequestModel {
            tbs_request: self.tbs_request@,
            optional_signature: match self.optional_signature {
                Some(s) => Some(s@),
                None => None,
            },
        }
    }
}

pub open spec fn enc_opt_signature(o: Option<SignatureModel>) -> Seq<u8> {
    match o {
        Some(s) => tlv(EXPLICIT_0, enc_signature(s)),
        None => Seq::empty(),
    }
}

pub open spec fn ocsp_request_content(v: OcspRequestModel) -> Seq<u8> {
    enc_tbs_request(v.tbs_request) + enc_opt_signature(v.optional_signature)
}

pub open spec fn ocsp_request_ok(v: OcspRequestModel) -> bool {
    &&& tbs_request_ok(v.tbs_request)
    &&& match v.optional_signature {
        Some(s) => signature_ok(s),
        None => true,
    }
    &&& ocsp_request_content(v).len() <= MAX_LEN
}

pub open spec fn enc_ocsp_request(v: OcspRequestModel) -> Seq<u8> {
    tlv(SEQUENCE, ocsp_request_content(v))
}

/// Reads an optional signature under `[0] EXPLICIT` at `pos`: present when
/// the byte at `pos`, before `end`, is the tag.
fn parse_opt_signature(b: &[u8], pos: usize, end: usize) -> (r: Option<(Option<Signature>, usize)>)
    requires
        pos <= end <= b@.len(),
    ensures
        r matches Some((o, p)) ==> pos <= p <= end && (o matches Some(sg) ==> signature_ok(sg@))
            && b@.subrange(pos as int, p as int) == enc_opt_signature(
            match o {
                Some(sg) => Some(sg@),
                None => None,
            },
        ),
        forall|v: SignatureModel|
            #![trigger enc_signature(v)]
            signature_ok(v) && enc_signature(v).len() <= MAX_LEN && at(
                b@,
                pos as int,
                end as int,
                tlv(EXPLICIT_0, enc_signature(v)),
            ) ==> (r matches Some((o, p)) && o is Some && o->0@ == v && p == pos + tlv(
                EXPLICIT_0,
                enc_signature(v),
            ).len()),
        !(pos < end && b@[pos as int] == EXPLICIT_0) ==> r == Some((None::<Signature>, pos)),
{
    proof {
        assert forall|v: SignatureModel|
            #![trigger enc_signature(v)]
            signature_ok(v) && enc_signature(v).len() <= MAX_LEN && at(
                b@,
                pos as int,
                end as int,
                tlv(EXPLICIT_0, enc_signature(v)),
            ) implies b@[pos as int] == EXPLICIT_0 && at(
            b@,
            pos + 1 + length_octets(enc_signature(v).len()).len(),
            pos + tlv(EXPLICIT_0, enc_signature(v)).len(),
            enc_signature(v),
        ) by {
            lemma_at_tlv(b@, pos as int, end as int, EXPLICIT_0, enc_signature(v));
        }
    }
    if pos < end && b[pos] == EXPLICIT_0 {
        let (s, e) = match read_tagged(b, pos, end, EXPLICIT_0) {
            Some(se) => se,
            None => return None,
        };
        let (x, p) = match Signature::parse(b, s, e) {
            Some(xp) => xp,
            None => return None,
        };
        if p != e {
            return None;
        }
        Some((Some(x), e))
    } else {
        assert(b@.subrange(pos as int, pos as int) =~= Seq::<u8>::empty());
        Some((None, pos))
    }
}

/// Where the fields of a request stand in its encoding.
proof fn lemma_ocsp_request_layout(b: Seq<u8>, pos: int, end: int)
    requires
        0 <= pos <= end <= b.len(),
    ensures
        forall|v: OcspRequestModel|
            #![trigger enc_ocsp_request(v)]
            ocsp_request_ok(v) && at(b, pos, end, enc_ocsp_request(v)) ==> ({
                let c = ocsp_request_content(v);
                let s = pos + 1 + length_octets(c.len()).len();
                let e = pos + enc_ocsp_request(v).len();
                let t = enc_tbs_request(v.tbs_request);
                let o = enc_opt_signature(v.optional_signature);
                let p1 = s + t.len();
                &&& at(b, s, e, t)
                &&& at(b, p1, e, o)
                &&& p1 + o.len() == e
            }),
{
    assert forall|v: OcspRequestModel|
        #![trigger enc_ocsp_request(v)]
        ocsp_request_ok(v) && at(b, pos, end, enc_ocsp_request(v)) implies ({
            let c = ocsp_request_content(v);
            let s = pos + 1 + length_octets(c.len()).len();
            let e = pos + enc_ocsp_request(v).len();
            let t = enc_tbs_request(v.tbs_request);
            let o = enc_opt_signature(v.optional_signature);
            let p1 = s + t.len();
            &&& at(b, s, e, t)
            &&& at(b, p1, e, o)
            &&& p1 + o.len() == e
        }) by {
        let c = ocsp_request_content(v);
        let s = pos + 1 + length_octets(c.len()).len();
        let e = pos + enc_ocsp_request(v).len();
        lemma_at_tlv(b, pos, end, SEQUENCE, c);
        lemma_at_concat(
            b,
            s,
            e,
            enc_tbs_request(v.tbs_request),
            enc_opt_signature(v.optional_signature),
        );
    }
}

impl OcspRequest {
    /// Appends the DER encoding; fails exactly when the value cannot be
    /// encoded.
    pub fn encode_into(&self, out: &mut Vec<u8>) -> (r: Result<(), Error>)
        ensures
            r is Ok <==> ocsp_request_ok(self@),
            r is Ok ==> final(out)@ == old(out)@ + enc_ocsp_request(self@),
    {
        let mut c: Vec<u8> = Vec::new();
        match self.tbs_request.encode_into(&mut c) {
            Ok(()) => {},
            Err(e) => return Err(e),
        }
        match &self.optional_signature {
            Some(sig) => {
                let mut w: Vec<u8> = Vec::new();
                match sig.encode_into(&mut w) {
                    Ok(()) => {},
                    Err(e) => return Err(e),
                }
                assert(w@ =~= enc_signature(sig@));
                match write_tlv(&mut c, EXPLICIT_0, &mut w) {
                    Ok(()) => {},
                    Err(e) => return Err(e),
                }
            },
            None => {},
        }
        assert(c@ =~= ocsp_request_content(self@));
        write_tlv(out, SEQUENCE, &mut c)
    }

    /// Reads the value encoded at `pos`, ending by `end`; returns it with the
    /// position after it. Succeeds exactly when a valid value's encoding
    /// stands there.
    pub fn parse(b: &[u8], pos: usize, end: usize) -> (r: Option<(OcspRequest, usize)>)
        requires
            pos <= end <= b@.len(),
        ensures
            r matches Some((x, p)) ==> pos < p <= end && ocsp_request_ok(x@) && b@.subrange(
                pos as int,
                p as int,
            ) == enc_ocsp_request(x@),
            forall|v: OcspRequestModel|
                #![trigger enc_ocsp_request(v)]
                ocsp_request_ok(v) && at(b@, pos as int, end as int, enc_ocsp_request(v)) ==> (r matches Some(
                    (x, p),
                ) && x@ == v && p == pos + enc_ocsp_request(v).len()),
    {
        proof {
            lemma_ocsp_request_layout(b@, pos as int, end as int);
        }
        let (s, e) = match read_tagged(b, pos, end, SEQUENCE) {
            Some(se) => se,
            None => return None,
        };
        let (tbs_request, p1) = match TbsRequest::parse(b, s, e) {
            Some(x) => x,
            None => return None,
        };
        let (optional_signature, p2) = match parse_opt_signature(b, p1, e) {
            Some(x) => x,
            None => return None,
        };
        if p2 != e {
            return None;
        }
        let r = OcspRequest { tbs_request, optional_signature };
        proof {
            lemma_subrange_join(b@, s as int, p1 as int, e as int);
            assert(b@.subrange(s as int, e as int) == ocsp_request_content(r@));
        }
        Some((r, e))
    }

    /// The DER encoding of this request; fails exactly when it cannot be
    /// encoded.
    pub fn to_der(&self) -> (r: Result<Vec<u8>, Error>)
        ensures
            r is Ok <==> ocsp_request_ok(self@),
            r matches Ok(b) ==> b@ == enc_ocsp_request(self@),
            r matches Err(e) ==> e == Error::Unencodable,
    {
        let mut out: Vec<u8> = Vec::new();
        match self.encode_into(&mut out) {
            Ok(()) => {
                assert(out@ =~= enc_ocsp_request(self@));
                Ok(out)
            },
            Err(_) => Err(Error::Unencodable),
        }
    }

    /// Decodes a request from exactly the bytes of `b`.
    pub fn from_der(b: &[u8]) -> (r: Result<OcspRequest, Error>)
        ensures
            r matches Ok(x) ==> ocsp_request_ok(x@) && enc_ocsp_request(x@) == b@,
            forall|v: OcspRequestModel|
                #![trigger enc_ocsp_request(v)]
                ocsp_request_ok(v) && enc_ocsp_request(v) == b@ ==> (r matches Ok(x) && x@ == v),
            r matches Err(e) ==> e == Error::Malformed,
    {
        proof {
            assert(b@.subrange(0, b@.len() as int) =~= b@);
        }
        match OcspRequest::parse(b, 0, b.len()) {
            Some((x, p)) => {
                if p == b.len() {
                    Ok(x)
                } else {
                    Err(Error::Malformed)
                }
            },
            None => Err(Error::Malformed),
        }
    }
}

} // verus!
