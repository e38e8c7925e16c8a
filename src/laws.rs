//! Properties of the encoding that relate several values or calls.
use vstd::prelude::*;

use crate::request::{
    bit_string_ok, cert_id_content, cert_id_ok, certs_ok, enc_bit_string, enc_elements,
    enc_opt_certs, enc_signature, int_octets, name_ok,
    request_ok, requests_ok, lemma_enc_elements_first, lemma_enc_requests_first, signature_content, signature_ok, BitStringModel, CertIdModel,
    SignatureModel, BIT_STRING, INTEGER, OCTET_STRING, enc_cert_id, enc_ocsp_request, enc_opt_element, enc_opt_signature, enc_request, enc_requests,
    enc_tbs_request, enc_version, enc_opt_version, explicit_opt, ocsp_request_content, ocsp_request_ok,
    request_content, tbs_request_content, tbs_request_ok, OcspRequestModel, RequestModel,
    TbsRequestModel, EXPLICIT_0, EXPLICIT_1, EXPLICIT_2, SEQUENCE,
};
use crate::tlv::{element_ok, enc_element, ElementModel, length_octets, lemma_parse_length_octets, tlv, MAX_LEN};

verus! {

/// An element followed by other bytes is told apart from any other: equal
/// byte strings that start with elements start with the same element.
pub proof fn lemma_tlv_prefix(
    t1: u8,
    c1: Seq<u8>,
    r1: Seq<u8>,
    t2: u8,
    c2: Seq<u8>,
    r2: Seq<u8>,
)
    requires
        c1.len() <= MAX_LEN,
        c2.len() <= MAX_LEN,
        tlv(t1, c1) + r1 == tlv(t2, c2) + r2,
    ensures
        t1 == t2,
        c1 == c2,
        r1 == r2,
{
    let x = tlv(t1, c1) + r1;
    assert(x[0] == t1);
    assert((tlv(t2, c2) + r2)[0] == t2);
    let l1 = length_octets(c1.len());
    let l2 = length_octets(c2.len());
    assert(x.skip(1) =~= l1 + (c1 + r1));
    assert(x.skip(1) =~= l2 + (c2 + r2));
    lemma_parse_length_octets(c1.len(), c1 + r1);
    lemma_parse_length_octets(c2.len(), c2 + r2);
    assert(c1.len() == c2.len() && l1.len() == l2.len());
    assert(x.skip(1 + l1.len() as int) =~= c1 + r1);
    assert(x.skip(1 + l2.len() as int) =~= c2 + r2);
    assert(c1 =~= (c1 + r1).take(c1.len() as int));
    assert(c2 =~= (c2 + r2).take(c2.len() as int));
    assert(r1 =~= (c1 + r1).skip(c1.len() as int));
    assert(r2 =~= (c2 + r2).skip(c2.len() as int));
}

/// A request body with the default version `v1` has no version field: its
/// contents start with the `[0]` tag exactly when the version is another.
pub proof fn law_default_version_omitted(v: TbsRequestModel)
    ensures
        v.version == 0 ==> tbs_request_content(v) == explicit_opt(
            EXPLICIT_1,
            enc_opt_element(v.requestor_name),
        ) + tlv(SEQUENCE, enc_requests(v.request_list)) + explicit_opt(
            EXPLICIT_2,
            enc_opt_element(v.request_extensions),
        ),
        v.version != 0 ==> tbs_request_content(v) == enc_version(v.version) + explicit_opt(
            EXPLICIT_1,
            enc_opt_element(v.requestor_name),
        ) + tlv(SEQUENCE, enc_requests(v.request_list)) + explicit_opt(
            EXPLICIT_2,
            enc_opt_element(v.request_extensions),
        ),
        tbs_request_content(v).len() > 0,
        tbs_request_content(v)[0] == EXPLICIT_0 <==> v.version != 0,
{
    let on = explicit_opt(EXPLICIT_1, enc_opt_element(v.requestor_name));
    let ol = tlv(SEQUENCE, enc_requests(v.request_list));
    let ox = explicit_opt(EXPLICIT_2, enc_opt_element(v.request_extensions));
    assert(Seq::<u8>::empty() + on + ol + ox =~= on + ol + ox);
    assert((on + ol + ox)[0] == if on.len() > 0 {
        on[0]
    } else {
        ol[0]
    });
    if v.version != 0 {
        assert((enc_version(v.version) + on + ol + ox)[0] == enc_version(v.version)[0]);
    }
}

/// A single request without extensions is encoded with no `[0]` field: its
/// contents are the certificate identifier alone.
pub proof fn law_absent_extensions_omitted(v: RequestModel)
    ensures
        v.single_request_extensions is None ==> request_content(v) == enc_cert_id(v.req_cert)
            && enc_request(v) == tlv(SEQUENCE, enc_cert_id(v.req_cert)),
        v.single_request_extensions is Some ==> request_content(v)[enc_cert_id(
            v.req_cert,
        ).len() as int] == EXPLICIT_0,
{
    let x = explicit_opt(EXPLICIT_0, enc_opt_element(v.single_request_extensions));
    assert(enc_cert_id(v.req_cert) + Seq::<u8>::empty() =~= enc_cert_id(v.req_cert));
    if v.single_request_extensions is Some {
        assert((enc_cert_id(v.req_cert) + x)[enc_cert_id(v.req_cert).len() as int] == x[0]);
    }
}

/// No request is encoded as another request's encoding with its last byte
/// cut off.
pub proof fn law_truncated_request_rejected(v: OcspRequestModel, w: OcspRequestModel)
    requires
        ocsp_request_ok(v),
        ocsp_request_ok(w),
    ensures
        enc_ocsp_request(v) != enc_ocsp_request(w).drop_last(),
{
    let a = enc_ocsp_request(v);
    let b = enc_ocsp_request(w);
    if a == b.drop_last() {
        assert(b =~= a + seq![b.last()]);
        assert(b =~= b + Seq::<u8>::empty());
        lemma_tlv_prefix(
            SEQUENCE,
            ocsp_request_content(v),
            seq![b.last()],
            SEQUENCE,
            ocsp_request_content(w),
            Seq::<u8>::empty(),
        );
    }
}

/// No request is encoded with a field tagged `[1]` after its body, where
/// only the signature, tagged `[0]`, may stand.
pub proof fn law_misplaced_signature_tag_rejected(
    t: TbsRequestModel,
    x: Seq<u8>,
    v: OcspRequestModel,
)
    requires
        tbs_request_ok(t),
        (enc_tbs_request(t) + tlv(EXPLICIT_1, x)).len() <= MAX_LEN,
        ocsp_request_ok(v),
    ensures
        enc_ocsp_request(v) != tlv(SEQUENCE, enc_tbs_request(t) + tlv(EXPLICIT_1, x)),
{
    let rest = tlv(EXPLICIT_1, x);
    if enc_ocsp_request(v) == tlv(SEQUENCE, enc_tbs_request(t) + rest) {
        assert(enc_ocsp_request(v) + Seq::<u8>::empty() =~= enc_ocsp_request(v));
        assert(tlv(SEQUENCE, enc_tbs_request(t) + rest) + Seq::<u8>::empty() =~= tlv(
            SEQUENCE,
            enc_tbs_request(t) + rest,
        ));
        lemma_tlv_prefix(
            SEQUENCE,
            ocsp_request_content(v),
            Seq::<u8>::empty(),
            SEQUENCE,
            enc_tbs_request(t) + rest,
            Seq::<u8>::empty(),
        );
        let o = enc_opt_signature(v.optional_signature);
        lemma_tlv_prefix(
            SEQUENCE,
            tbs_request_content(v.tbs_request),
            o,
            SEQUENCE,
            tbs_request_content(t),
            rest,
        );
        assert(rest[0] == EXPLICIT_1);
        match v.optional_signature {
            Some(sg) => {
                assert(o[0] == EXPLICIT_0);
            },
            None => {},
        }
    }
}

proof fn lemma_element_prefix(v1: ElementModel, r1: Seq<u8>, v2: ElementModel, r2: Seq<u8>)
    requires
        element_ok(v1),
        element_ok(v2),
        enc_element(v1) + r1 == enc_element(v2) + r2,
    ensures
        v1 == v2,
        r1 == r2,
{
    lemma_tlv_prefix(v1.tag, v1.value, r1, v2.tag, v2.value, r2);
}

proof fn lemma_bit_string_prefix(v1: BitStringModel, r1: Seq<u8>, v2: BitStringModel, r2: Seq<u8>)
    requires
        bit_string_ok(v1),
        bit_string_ok(v2),
        enc_bit_string(v1) + r1 == enc_bit_string(v2) + r2,
    ensures
        v1 == v2,
        r1 == r2,
{
    let c1 = seq![v1.unused_bits] + v1.bytes;
    let c2 = seq![v2.unused_bits] + v2.bytes;
    lemma_tlv_prefix(BIT_STRING, c1, r1, BIT_STRING, c2, r2);
    assert(c1[0] == c2[0]);
    assert(v1.bytes =~= c1.skip(1));
    assert(v2.bytes =~= c2.skip(1));
}

proof fn lemma_cert_id_prefix(v1: CertIdModel, r1: Seq<u8>, v2: CertIdModel, r2: Seq<u8>)
    requires
        cert_id_ok(v1),
        cert_id_ok(v2),
        enc_cert_id(v1) + r1 == enc_cert_id(v2) + r2,
    ensures
        v1 == v2,
        r1 == r2,
{
    lemma_tlv_prefix(SEQUENCE, cert_id_content(v1), r1, SEQUENCE, cert_id_content(v2), r2);
    let n1 = tlv(OCTET_STRING, v1.issuer_name_hash);
    let k1 = tlv(OCTET_STRING, v1.issuer_key_hash);
    let i1 = tlv(INTEGER, v1.serial_number);
    let n2 = tlv(OCTET_STRING, v2.issuer_name_hash);
    let k2 = tlv(OCTET_STRING, v2.issuer_key_hash);
    let i2 = tlv(INTEGER, v2.serial_number);
    let e = Seq::<u8>::empty();
    assert(cert_id_content(v1) =~= enc_element(v1.hash_algorithm) + (n1 + (k1 + i1)));
    assert(cert_id_content(v2) =~= enc_element(v2.hash_algorithm) + (n2 + (k2 + i2)));
    lemma_element_prefix(v1.hash_algorithm, n1 + (k1 + i1), v2.hash_algorithm, n2 + (k2 + i2));
    lemma_tlv_prefix(
        OCTET_STRING,
        v1.issuer_name_hash,
        k1 + i1,
        OCTET_STRING,
        v2.issuer_name_hash,
        k2 + i2,
    );
    lemma_tlv_prefix(OCTET_STRING, v1.issuer_key_hash, i1, OCTET_STRING, v2.issuer_key_hash, i2);
    assert(i1 + e =~= i1);
    assert(i2 + e =~= i2);
    lemma_tlv_prefix(INTEGER, v1.serial_number, e, INTEGER, v2.serial_number, e);
}

/// Two optional fields under the explicit tag `tag`, each followed by bytes
/// that do not start with `tag`, are equal when their bytes are.
proof fn lemma_opt_element_prefix(
    tag: u8,
    o1: Option<ElementModel>,
    r1: Seq<u8>,
    o2: Option<ElementModel>,
    r2: Seq<u8>,
)
    requires
        name_ok(o1),
        name_ok(o2),
        explicit_opt(tag, enc_opt_element(o1)).len() <= MAX_LEN + 6,
        explicit_opt(tag, enc_opt_element(o2)).len() <= MAX_LEN + 6,
        r1.len() > 0 ==> r1[0] != tag,
        r2.len() > 0 ==> r2[0] != tag,
        explicit_opt(tag, enc_opt_element(o1)) + r1 == explicit_opt(tag, enc_opt_element(o2)) + r2,
    ensures
        o1 == o2,
        r1 == r2,
{
    let x1 = explicit_opt(tag, enc_opt_element(o1));
    let x2 = explicit_opt(tag, enc_opt_element(o2));
    match (o1, o2) {
        (Some(a), Some(b)) => {
            lemma_tlv_prefix(tag, enc_element(a), r1, tag, enc_element(b), r2);
            let e = Seq::<u8>::empty();
            assert(enc_element(a) + e =~= enc_element(a));
            assert(enc_element(b) + e =~= enc_element(b));
            lemma_element_prefix(a, e, b, e);
        },
        (Some(a), None) => {
            assert((x1 + r1)[0] == tag);
            assert(x2 + r2 =~= r2);
        },
        (None, Some(b)) => {
            assert((x2 + r2)[0] == tag);
            assert(x1 + r1 =~= r1);
        },
        (None, None) => {
            assert(x1 + r1 =~= r1);
            assert(x2 + r2 =~= r2);
        },
    }
}

proof fn lemma_request_prefix(v1: RequestModel, r1: Seq<u8>, v2: RequestModel, r2: Seq<u8>)
    requires
        request_ok(v1),
        request_ok(v2),
        enc_request(v1) + r1 == enc_request(v2) + r2,
    ensures
        v1 == v2,
        r1 == r2,
{
    lemma_tlv_prefix(SEQUENCE, request_content(v1), r1, SEQUENCE, request_content(v2), r2);
    let x1 = explicit_opt(EXPLICIT_0, enc_opt_element(v1.single_request_extensions));
    let x2 = explicit_opt(EXPLICIT_0, enc_opt_element(v2.single_request_extensions));
    lemma_cert_id_prefix(v1.req_cert, x1, v2.req_cert, x2);
    let e = Seq::<u8>::empty();
    assert(x1 + e =~= x1);
    assert(x2 + e =~= x2);
    lemma_opt_element_prefix(
        EXPLICIT_0,
        v1.single_request_extensions,
        e,
        v2.single_request_extensions,
        e,
    );
}

proof fn lemma_requests_unique(vs1: Seq<RequestModel>, vs2: Seq<RequestModel>)
    requires
        requests_ok(vs1),
        requests_ok(vs2),
        enc_requests(vs1) == enc_requests(vs2),
    ensures
        vs1 == vs2,
    decreases vs1.len(),
{
    if vs1.len() > 0 {
        lemma_enc_requests_first(vs1);
    }
    if vs2.len() > 0 {
        lemma_enc_requests_first(vs2);
    }
    if vs1.len() > 0 && vs2.len() > 0 {
        lemma_request_prefix(vs1[0], enc_requests(vs1.skip(1)), vs2[0], enc_requests(vs2.skip(1)));
        assert(requests_ok(vs1.skip(1)) && requests_ok(vs2.skip(1))) by {
            assert forall|i: int| 0 <= i < vs1.skip(1).len() implies request_ok(
                #[trigger] vs1.skip(1)[i],
            ) by {
                assert(vs1.skip(1)[i] == vs1[i + 1]);
            }
            assert forall|i: int| 0 <= i < vs2.skip(1).len() implies request_ok(
                #[trigger] vs2.skip(1)[i],
            ) by {
                assert(vs2.skip(1)[i] == vs2[i + 1]);
            }
        }
        lemma_requests_unique(vs1.skip(1), vs2.skip(1));
        assert(vs1 =~= seq![vs1[0]] + vs1.skip(1));
        assert(vs2 =~= seq![vs2[0]] + vs2.skip(1));
    } else if vs1.len() == 0 && vs2.len() == 0 {
        assert(vs1 =~= vs2);
    } else {
        assert(enc_requests(Seq::<RequestModel>::empty()) =~= Seq::<u8>::empty());
        if vs1.len() == 0 {
            assert(vs1 =~= Seq::<RequestModel>::empty());
        } else {
            assert(vs2 =~= Seq::<RequestModel>::empty());
        }
    }
}

proof fn lemma_certs_unique(vs1: Seq<ElementModel>, vs2: Seq<ElementModel>)
    requires
        certs_ok(vs1),
        certs_ok(vs2),
        enc_elements(vs1) == enc_elements(vs2),
    ensures
        vs1 == vs2,
    decreases vs1.len(),
{
    if vs1.len() > 0 {
        lemma_enc_elements_first(vs1);
    }
    if vs2.len() > 0 {
        lemma_enc_elements_first(vs2);
    }
    if vs1.len() > 0 && vs2.len() > 0 {
        lemma_element_prefix(vs1[0], enc_elements(vs1.skip(1)), vs2[0], enc_elements(vs2.skip(1)));
        assert(certs_ok(vs1.skip(1)) && certs_ok(vs2.skip(1))) by {
            assert forall|i: int| 0 <= i < vs1.skip(1).len() implies element_ok(
                #[trigger] vs1.skip(1)[i],
            ) && vs1.skip(1)[i].tag == SEQUENCE by {
                assert(vs1.skip(1)[i] == vs1[i + 1]);
            }
            assert forall|i: int| 0 <= i < vs2.skip(1).len() implies element_ok(
                #[trigger] vs2.skip(1)[i],
            ) && vs2.skip(1)[i].tag == SEQUENCE by {
                assert(vs2.skip(1)[i] == vs2[i + 1]);
            }
        }
        lemma_certs_unique(vs1.skip(1), vs2.skip(1));
        assert(vs1 =~= seq![vs1[0]] + vs1.skip(1));
        assert(vs2 =~= seq![vs2[0]] + vs2.skip(1));
    } else if vs1.len() == 0 && vs2.len() == 0 {
        assert(vs1 =~= vs2);
    } else {
        assert(enc_elements(Seq::<ElementModel>::empty()) =~= Seq::<u8>::empty());
        if vs1.len() == 0 {
            assert(vs1 =~= Seq::<ElementModel>::empty());
        } else {
            assert(vs2 =~= Seq::<ElementModel>::empty());
        }
    }
}

proof fn lemma_signature_prefix(v1: SignatureModel, r1: Seq<u8>, v2: SignatureModel, r2: Seq<u8>)
    requires
        signature_ok(v1),
        signature_ok(v2),
        enc_signature(v1) + r1 == enc_signature(v2) + r2,
    ensures
        v1 == v2,
        r1 == r2,
{
    lemma_tlv_prefix(SEQUENCE, signature_content(v1), r1, SEQUENCE, signature_content(v2), r2);
    let b1 = enc_bit_string(v1.signature);
    let b2 = enc_bit_string(v2.signature);
    let c1 = enc_opt_certs(v1.certs);
    let c2 = enc_opt_certs(v2.certs);
    assert(signature_content(v1) =~= enc_element(v1.signature_algorithm) + (b1 + c1));
    assert(signature_content(v2) =~= enc_element(v2.signature_algorithm) + (b2 + c2));
    lemma_element_prefix(v1.signature_algorithm, b1 + c1, v2.signature_algorithm, b2 + c2);
    lemma_bit_string_prefix(v1.signature, c1, v2.signature, c2);
    let e = Seq::<u8>::empty();
    match (v1.certs, v2.certs) {
        (Some(l1), Some(l2)) => {
            let w1 = tlv(SEQUENCE, enc_elements(l1));
            let w2 = tlv(SEQUENCE, enc_elements(l2));
            assert(c1 + e =~= c1);
            assert(c2 + e =~= c2);
            lemma_tlv_prefix(EXPLICIT_0, w1, e, EXPLICIT_0, w2, e);
            assert(w1 + e =~= w1);
            assert(w2 + e =~= w2);
            lemma_tlv_prefix(SEQUENCE, enc_elements(l1), e, SEQUENCE, enc_elements(l2), e);
            lemma_certs_unique(l1, l2);
        },
        (Some(l1), None) => {
            assert(c1.len() > 0);
        },
        (None, Some(l2)) => {
            assert(c2.len() > 0);
        },
        (None, None) => {},
    }
}

proof fn lemma_int_octets_unique(n1: u8, n2: u8)
    requires
        int_octets(n1) == int_octets(n2),
    ensures
        n1 == n2,
{
    let a = int_octets(n1);
    let b = int_octets(n2);
    assert(a[a.len() - 1] == n1);
    assert(b[b.len() - 1] == n2);
}

/// The fields of a request body after its version.
spec fn tbs_rest(v: TbsRequestModel) -> Seq<u8> {
    explicit_opt(EXPLICIT_1, enc_opt_element(v.requestor_name)) + (tlv(
        SEQUENCE,
        enc_requests(v.request_list),
    ) + explicit_opt(EXPLICIT_2, enc_opt_element(v.request_extensions)))
}

proof fn lemma_tbs_version_unique(v1: TbsRequestModel, v2: TbsRequestModel)
    requires
        tbs_request_content(v1).len() <= MAX_LEN,
        tbs_request_content(v2).len() <= MAX_LEN,
        tbs_request_content(v1) == tbs_request_content(v2),
    ensures
        v1.version == v2.version,
        tbs_rest(v1) == tbs_rest(v2),
{
    let rest1 = tbs_rest(v1);
    let rest2 = tbs_rest(v2);
    assert(tbs_request_content(v1) =~= enc_opt_version(v1.version) + rest1);
    assert(tbs_request_content(v2) =~= enc_opt_version(v2.version) + rest2);
    if v1.version != 0 && v2.version != 0 {
        let i1 = tlv(INTEGER, int_octets(v1.version));
        let i2 = tlv(INTEGER, int_octets(v2.version));
        let e = Seq::<u8>::empty();
        assert(enc_opt_version(v1.version) == tlv(EXPLICIT_0, i1));
        assert(enc_opt_version(v2.version) == tlv(EXPLICIT_0, i2));
        lemma_tlv_prefix(EXPLICIT_0, i1, rest1, EXPLICIT_0, i2, rest2);
        assert(i1 + e =~= i1);
        assert(i2 + e =~= i2);
        lemma_tlv_prefix(INTEGER, int_octets(v1.version), e, INTEGER, int_octets(v2.version), e);
        lemma_int_octets_unique(v1.version, v2.version);
    } else if v1.version == 0 && v2.version == 0 {
        assert(rest1 =~= tbs_request_content(v1));
        assert(rest2 =~= tbs_request_content(v2));
    } else {
        law_default_version_omitted(v1);
        law_default_version_omitted(v2);
    }
}

proof fn lemma_tbs_rest_unique(v1: TbsRequestModel, v2: TbsRequestModel)
    requires
        tbs_request_ok(v1),
        tbs_request_ok(v2),
        tbs_rest(v1) == tbs_rest(v2),
        tbs_rest(v1).len() <= MAX_LEN,
        tbs_rest(v2).len() <= MAX_LEN,
    ensures
        v1.requestor_name == v2.requestor_name,
        v1.request_list == v2.request_list,
        v1.request_extensions == v2.request_extensions,
{
    let ol1 = tlv(SEQUENCE, enc_requests(v1.request_list));
    let ol2 = tlv(SEQUENCE, enc_requests(v2.request_list));
    let ox1 = explicit_opt(EXPLICIT_2, enc_opt_element(v1.request_extensions));
    let ox2 = explicit_opt(EXPLICIT_2, enc_opt_element(v2.request_extensions));
    assert((ol1 + ox1)[0] == SEQUENCE);
    assert((ol2 + ox2)[0] == SEQUENCE);
    lemma_opt_element_prefix(EXPLICIT_1, v1.requestor_name, ol1 + ox1, v2.requestor_name, ol2 + ox2);
    lemma_tlv_prefix(
        SEQUENCE,
        enc_requests(v1.request_list),
        ox1,
        SEQUENCE,
        enc_requests(v2.request_list),
        ox2,
    );
    lemma_requests_unique(v1.request_list, v2.request_list);
    let e = Seq::<u8>::empty();
    assert(ox1 + e =~= ox1);
    assert(ox2 + e =~= ox2);
    lemma_opt_element_prefix(EXPLICIT_2, v1.request_extensions, e, v2.request_extensions, e);
}

proof fn lemma_tbs_request_content_unique(v1: TbsRequestModel, v2: TbsRequestModel)
    requires
        tbs_request_ok(v1),
        tbs_request_ok(v2),
        tbs_request_content(v1) == tbs_request_content(v2),
    ensures
        v1 == v2,
{
    lemma_tbs_version_unique(v1, v2);
    assert(tbs_request_content(v1) =~= enc_opt_version(v1.version) + tbs_rest(v1));
    assert(tbs_request_content(v2) =~= enc_opt_version(v2.version) + tbs_rest(v2));
    lemma_tbs_rest_unique(v1, v2);
}

/// Valid request bodies with equal encodings are equal, their request lists
/// in the same order: decoding an encoding gives back the body encoded.
pub proof fn law_tbs_request_encoding_unique(v: TbsRequestModel, w: TbsRequestModel)
    requires
        tbs_request_ok(v),
        tbs_request_ok(w),
        enc_tbs_request(v) == enc_tbs_request(w),
    ensures
        v == w,
{
    let e = Seq::<u8>::empty();
    assert(enc_tbs_request(v) + e =~= enc_tbs_request(v));
    assert(enc_tbs_request(w) + e =~= enc_tbs_request(w));
    lemma_tlv_prefix(SEQUENCE, tbs_request_content(v), e, SEQUENCE, tbs_request_content(w), e);
    lemma_tbs_request_content_unique(v, w);
}

/// Valid single requests with equal encodings are equal: decoding an
/// encoding gives back the request encoded.
pub proof fn law_request_encoding_unique(v: RequestModel, w: RequestModel)
    requires
        request_ok(v),
        request_ok(w),
        enc_request(v) == enc_request(w),
    ensures
        v == w,
{
    let e = Seq::<u8>::empty();
    assert(enc_request(v) + e =~= enc_request(v));
    assert(enc_request(w) + e =~= enc_request(w));
    lemma_request_prefix(v, e, w, e);
}

/// Valid signature blocks with equal encodings are equal: decoding an
/// encoding gives back the block encoded.
pub proof fn law_signature_encoding_unique(v: SignatureModel, w: SignatureModel)
    requires
        signature_ok(v),
        signature_ok(w),
        enc_signature(v) == enc_signature(w),
    ensures
        v == w,
{
    let e = Seq::<u8>::empty();
    assert(enc_signature(v) + e =~= enc_signature(v));
    assert(enc_signature(w) + e =~= enc_signature(w));
    lemma_signature_prefix(v, e, w, e);
}

/// Valid requests with equal encodings are equal: decoding an encoding
/// gives back the request encoded.
pub proof fn law_ocsp_request_encoding_unique(v: OcspRequestModel, w: OcspRequestModel)
    requires
        ocsp_request_ok(v),
        ocsp_request_ok(w),
        enc_ocsp_request(v) == enc_ocsp_request(w),
    ensures
        v == w,
{
    let e = Seq::<u8>::empty();
    assert(enc_ocsp_request(v) + e =~= enc_ocsp_request(v));
    assert(enc_ocsp_request(w) + e =~= enc_ocsp_request(w));
    lemma_tlv_prefix(SEQUENCE, ocsp_request_content(v), e, SEQUENCE, ocsp_request_content(w), e);
    let s1 = enc_opt_signature(v.optional_signature);
    let s2 = enc_opt_signature(w.optional_signature);
    lemma_tlv_prefix(
        SEQUENCE,
        tbs_request_content(v.tbs_request),
        s1,
        SEQUENCE,
        tbs_request_content(w.tbs_request),
        s2,
    );
    lemma_tbs_request_content_unique(v.tbs_request, w.tbs_request);
    match (v.optional_signature, w.optional_signature) {
        (Some(a), Some(b)) => {
            assert(s1 + e =~= s1);
            assert(s2 + e =~= s2);
            lemma_tlv_prefix(EXPLICIT_0, enc_signature(a), e, EXPLICIT_0, enc_signature(b), e);
            assert(enc_signature(a) + e =~= enc_signature(a));
            assert(enc_signature(b) + e =~= enc_signature(b));
            lemma_signature_prefix(a, e, b, e);
        },
        (Some(a), None) => {
            assert(s1.len() > 0);
        },
        (None, Some(b)) => {
            assert(s2.len() > 0);
        },
        (None, None) => {},
    }
}

} // verus!
