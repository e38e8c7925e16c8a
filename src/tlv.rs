//! Tag-length-value framing in DER: length octets, element headers and
//! opaque elements.
use vstd::prelude::*;

verus! {

/// The largest content length accepted, in bytes.
pub const MAX_LEN: usize = 0x0fff_ffff;

/// What went wrong while encoding or decoding.
#[derive(Debug, Clone, Copy, PartialEq, Eq)]
pub enum Error {
    /// The bytes are not the DER encoding of a value of the expected type.
    Malformed,
    /// A value cannot be encoded: a content length is out of range, or a
    /// field breaks a rule of its type.
    Unencodable,
}

/// The DER length octets of a content of `n` bytes (definite form, as few
/// octets as possible).
pub open spec fn length_octets(n: nat) -> Seq<u8> {
    if n < 0x80 {
        seq![n as u8]
    } else if n < 0x100 {
        seq![0x81u8, n as u8]
    } else if n < 0x1_0000 {
        seq![0x82u8, (n / 0x100) as u8, (n % 0x100) as u8]
    } else if n < 0x100_0000 {
        seq![0x83u8, (n / 0x1_0000) as u8, ((n / 0x100) % 0x100) as u8, (n % 0x100) as u8]
    } else {
        seq![
            0x84u8,
            (n / 0x100_0000) as u8,
            ((n / 0x1_0000) % 0x100) as u8,
            ((n / 0x100) % 0x100) as u8,
            (n % 0x100) as u8,
        ]
    }
}

/// The DER element with identifier octet `tag` and contents `content`.
pub open spec fn tlv(tag: u8, content: Seq<u8>) -> Seq<u8> {
    seq![tag] + length_octets(content.len()) + content
}

/// Appends the identifier and length octets of an element.
fn write_header(out: &mut Vec<u8>, tag: u8, n: usize)
    requires
        n <= MAX_LEN,
    ensures
        final(out)@ == old(out)@ + seq![tag] + length_octets(n as nat),
{
    out.push(tag);
    if n < 0x80 {
        out.push(n as u8);
    } else if n < 0x100 {
        out.push(0x81u8);
        out.push(n as u8);
    } else if n < 0x1_0000 {
        out.push(0x82u8);
        out.push((n / 0x100) as u8);
        out.push((n % 0x100) as u8);
    } else if n < 0x100_0000 {
        out.push(0x83u8);
        out.push((n / 0x1_0000) as u8);
        out.push(((n / 0x100) % 0x100) as u8);
        out.push((n % 0x100) as u8);
    } else {
        out.push(0x84u8);
        out.push((n / 0x100_0000) as u8);
        out.push(((n / 0x1_0000) % 0x100) as u8);
        out.push(((n / 0x100) % 0x100) as u8);
        out.push((n % 0x100) as u8);
    }
    assert(final(out)@ =~= old(out)@ + seq![tag] + length_octets(n as nat));
}

/// Appends the element with identifier octet `tag` whose contents are
/// `content`; fails when the contents are too long.
pub fn write_tlv(out: &mut Vec<u8>, tag: u8, content: &mut Vec<u8>) -> (r: Result<(), Error>)
    ensures
        r is Ok <==> old(content)@.len() <= MAX_LEN,
        r is Ok ==> final(out)@ == old(out)@ + tlv(tag, old(content)@),
{
    if content.len() > MAX_LEN {
        return Err(Error::Unencodable);
    }
    write_header(out, tag, content.len());
    out.append(content);
    assert(final(out)@ =~= old(out)@ + tlv(tag, old(content)@));
    Ok(())
}

/// The length that the length octets at the start of `x` give, with the
/// number of octets read; `None` unless they are in DER's minimal form and
/// the length is at most `MAX_LEN`.
pub open spec fn parse_length(x: Seq<u8>) -> Option<(nat, nat)> {
    if x.len() < 1 {
        None
    } else if x[0] < 0x80 {
        Some((x[0] as nat, 1))
    } else if x[0] == 0x81 {
        if x.len() < 2 || x[1] < 0x80 {
            None
        } else {
            Some((x[1] as nat, 2))
        }
    } else if x[0] == 0x82 {
        if x.len() < 3 || x[1] == 0 {
            None
        } else {
            Some(((x[1] as nat) * 0x100 + x[2] as nat, 3))
        }
    } else if x[0] == 0x83 {
        if x.len() < 4 || x[1] == 0 {
            None
        } else {
            Some(((x[1] as nat) * 0x1_0000 + (x[2] as nat) * 0x100 + x[3] as nat, 4))
        }
    } else if x[0] == 0x84 {
        if x.len() < 5 || x[1] == 0 || x[1] > 0x0f {
            None
        } else {
            Some(
                (
                    (x[1] as nat) * 0x100_0000 + (x[2] as nat) * 0x1_0000 + (x[3] as nat) * 0x100
                        + x[4] as nat,
                    5,
                ),
            )
        }
    } else {
        None
    }
}

/// Length octets read back give the length they encode.
pub proof fn lemma_parse_length_octets(n: nat, rest: Seq<u8>)
    requires
        n <= MAX_LEN,
    ensures
        parse_length(length_octets(n) + rest) == Some((n, length_octets(n).len())),
{
    let x = length_octets(n) + rest;
    if n < 0x80 {
        assert(x[0] == n as u8);
    } else if n < 0x100 {
        assert(x[0] == 0x81u8 && x[1] == n as u8);
    } else if n < 0x1_0000 {
        assert(x[0] == 0x82u8 && x[1] == (n / 0x100) as u8 && x[2] == (n % 0x100) as u8);
    } else if n < 0x100_0000 {
        assert(x[0] == 0x83u8 && x[1] == (n / 0x1_0000) as u8 && x[2] == ((n / 0x100)
            % 0x100) as u8 && x[3] == (n % 0x100) as u8);
    } else {
        assert(x[0] == 0x84u8 && x[1] == (n / 0x100_0000) as u8 && x[2] == ((n / 0x1_0000)
            % 0x100) as u8 && x[3] == ((n / 0x100) % 0x100) as u8 && x[4] == (n % 0x100) as u8);
    }
}

/// What `parse_length` accepts are the length octets of the length it gives.
pub proof fn lemma_parse_length_sound(x: Seq<u8>)
    requires
        parse_length(x) is Some,
    ensures
        ({
            let (n, k) = parse_length(x).unwrap();
            n <= MAX_LEN && k == length_octets(n).len() && k <= x.len() && x.subrange(0, k as int)
                == length_octets(n)
        }),
{
    let (n, k) = parse_length(x).unwrap();
    let x1 = x[1] as nat;
    let x2 = x[2] as nat;
    let x3 = x[3] as nat;
    let x4 = x[4] as nat;
    if x[0] < 0x80 {
        assert(x.subrange(0, 1) =~= length_octets(n));
    } else if x[0] == 0x81 {
        assert(x.subrange(0, 2) =~= length_octets(n));
    } else if x[0] == 0x82 {
        assert(n / 0x100 == x1 && n % 0x100 == x2);
        assert(x.subrange(0, 3) =~= length_octets(n));
    } else if x[0] == 0x83 {
        assert(n / 0x1_0000 == x1 && (n / 0x100) % 0x100 == x2 && n % 0x100 == x3);
        assert(x.subrange(0, 4) =~= length_octets(n));
    } else {
        assert(n / 0x100_0000 == x1 && (n / 0x1_0000) % 0x100 == x2 && (n / 0x100) % 0x100 == x3
            && n % 0x100 == x4);
        assert(x.subrange(0, 5) =~= length_octets(n));
    }
}

/// Every element that the bytes from `pos` start with has its length octets
/// read back by `parse_length`.
proof fn lemma_header_complete(b: Seq<u8>, pos: int, end: int)
    requires
        0 <= pos <= end <= b.len(),
    ensures
        forall|t: u8, c: Seq<u8>|
            #![trigger tlv(t, c)]
            c.len() <= MAX_LEN && pos + tlv(t, c).len() <= end && b.subrange(
                pos,
                pos + tlv(t, c).len(),
            ) == tlv(t, c) ==> pos + 2 <= end && b[pos] == t && parse_length(
                b.subrange(pos + 1, end),
            ) == Some((c.len(), length_octets(c.len()).len())),
{
    assert forall|t: u8, c: Seq<u8>|
        #![trigger tlv(t, c)]
        c.len() <= MAX_LEN && pos + tlv(t, c).len() <= end && b.subrange(pos, pos + tlv(t, c).len())
            == tlv(t, c) implies pos + 2 <= end && b[pos] == t && parse_length(
        b.subrange(pos + 1, end),
    ) == Some((c.len(), length_octets(c.len()).len())) by {
        let whole = tlv(t, c);
        let lo = length_octets(c.len());
        assert(lo.len() >= 1);
        assert(b.subrange(pos, pos + whole.len())[0] == t);
        let rest = b.subrange(pos + 1 + lo.len(), end);
        assert(b.subrange(pos + 1, end) =~= lo + rest) by {
            assert forall|i: int| 0 <= i < lo.len() implies b.subrange(pos + 1, end)[i] == lo[i] by {
                assert(b.subrange(pos, pos + whole.len())[i + 1] == whole[i + 1]);
            }
        }
        lemma_parse_length_octets(c.len(), rest);
    }
}

/// Reads the length octets at `pos`, as `parse_length` does.
fn read_length(b: &[u8], pos: usize, end: usize) -> (r: Option<(usize, usize)>)
    requires
        pos <= end <= b@.len(),
    ensures
        r matches Some((n, k)) ==> parse_length(b@.subrange(pos as int, end as int)) == Some(
            (n as nat, k as nat),
        ),
        r is None ==> parse_length(b@.subrange(pos as int, end as int)) is None,
{
    let ghost x = b@.subrange(pos as int, end as int);
    if end - pos < 1 {
        return None;
    }
    let l0 = b[pos];
    if l0 < 0x80 {
        Some((l0 as usize, 1))
    } else if l0 == 0x81 {
        if end - pos < 2 || b[pos + 1] < 0x80 {
            return None;
        }
        Some((b[pos + 1] as usize, 2))
    } else if l0 == 0x82 {
        if end - pos < 3 || b[pos + 1] == 0 {
            return None;
        }
        Some((b[pos + 1] as usize * 0x100 + b[pos + 2] as usize, 3))
    } else if l0 == 0x83 {
        if end - pos < 4 || b[pos + 1] == 0 {
            return None;
        }
        Some((b[pos + 1] as usize * 0x1_0000 + b[pos + 2] as usize * 0x100 + b[pos + 3] as usize, 4))
    } else if l0 == 0x84 {
        if end - pos < 5 || b[pos + 1] == 0 || b[pos + 1] > 0x0f {
            return None;
        }
        Some(
            (
                b[pos + 1] as usize * 0x100_0000 + b[pos + 2] as usize * 0x1_0000 + b[pos + 3] as usize
                    * 0x100 + b[pos + 4] as usize,
                5,
            ),
        )
    } else {
        None
    }
}

/// Reads the header of the element that starts at `pos` and ends by `end`.
/// On success returns its identifier octet and the bounds of its contents.
pub fn read_header(b: &[u8], pos: usize, end: usize) -> (r: Option<(u8, usize, usize)>)
    requires
        pos <= end <= b@.len(),
    ensures
        r matches Some((t, s, e)) ==> pos < s <= e <= end && e - s <= MAX_LEN && b@.subrange(
            pos as int,
            e as int,
        ) == tlv(t, b@.subrange(s as int, e as int)),
        forall|t: u8, c: Seq<u8>|
            #![trigger tlv(t, c)]
            c.len() <= MAX_LEN && pos + tlv(t, c).len() <= end && b@.subrange(
                pos as int,
                pos + tlv(t, c).len(),
            ) == tlv(t, c) ==> r == Some(
                (t, (pos + tlv(t, c).len() - c.len()) as usize, (pos + tlv(t, c).len()) as usize),
            ),
{
    proof {
        lemma_header_complete(b@, pos as int, end as int);
    }
    if end - pos < 2 {
        return None;
    }
    let t = b[pos];
    let ghost x = b@.subrange(pos + 1, end as int);
    let (n, k) = match read_length(b, pos + 1, end) {
        Some(nk) => nk,
        None => return None,
    };
    proof {
        lemma_parse_length_sound(x);
    }
    let s = pos + 1 + k;
    if end - s < n {
        return None;
    }
    let e = s + n;
    proof {
        let c = b@.subrange(s as int, e as int);
        assert(b@.subrange(pos as int, e as int) =~= seq![t] + x.subrange(0, k as int) + c);
    }
    Some((t, s, e))
}

/// `w` stands in `b` from `pos` on, and ends by `end`.
pub open spec fn at(b: Seq<u8>, pos: int, end: int, w: Seq<u8>) -> bool {
    0 <= pos && pos + w.len() <= end && end <= b.len() && b.subrange(pos, pos + w.len()) == w
}

/// Bytes that stand at a position as a concatenation stand there part by
/// part.
pub proof fn lemma_at_concat(b: Seq<u8>, pos: int, end: int, x: Seq<u8>, y: Seq<u8>)
    requires
        at(b, pos, end, x + y),
    ensures
        at(b, pos, end, x),
        at(b, pos + x.len(), end, y),
{
    let w = b.subrange(pos, pos + x.len() + y.len());
    assert(w == x + y);
    assert(b.subrange(pos, pos + x.len()) =~= w.subrange(0, x.len() as int));
    assert(w.subrange(0, x.len() as int) =~= x);
    assert(b.subrange(pos + x.len(), pos + x.len() + y.len()) =~= w.subrange(
        x.len() as int,
        w.len() as int,
    ));
    assert(w.subrange(x.len() as int, w.len() as int) =~= y);
}

/// An element that stands at a position starts with its tag, and its
/// contents stand after its header.
pub proof fn lemma_at_tlv(b: Seq<u8>, pos: int, end: int, tag: u8, c: Seq<u8>)
    requires
        at(b, pos, end, tlv(tag, c)),
    ensures
        b[pos] == tag,
        at(b, pos + 1 + length_octets(c.len()).len(), pos + tlv(tag, c).len(), c),
{
    let w = tlv(tag, c);
    let k: int = 1 + length_octets(c.len()).len() as int;
    assert(w == (seq![tag] + length_octets(c.len())) + c);
    lemma_at_concat(b, pos, end, seq![tag] + length_octets(c.len()), c);
    assert(b.subrange(pos, pos + w.len())[0] == w[0]);
    assert(b.subrange(pos + k, pos + k + c.len()) == c);
}

/// Adjacent ranges of bytes join.
pub proof fn lemma_subrange_join(b: Seq<u8>, s: int, p: int, e: int)
    requires
        0 <= s <= p <= e <= b.len(),
    ensures
        b.subrange(s, e) == b.subrange(s, p) + b.subrange(p, e),
{
    assert(b.subrange(s, e) =~= b.subrange(s, p) + b.subrange(p, e));
}

/// Reads the header of an element with identifier octet `tag`; returns the
/// bounds of its contents.
pub fn read_tagged(b: &[u8], pos: usize, end: usize, tag: u8) -> (r: Option<(usize, usize)>)
    requires
        pos <= end <= b@.len(),
    ensures
        r matches Some((s, e)) ==> pos < s <= e <= end && e - s <= MAX_LEN && b@.subrange(
            pos as int,
            e as int,
        ) == tlv(tag, b@.subrange(s as int, e as int)),
        forall|c: Seq<u8>|
            #![trigger tlv(tag, c)]
            c.len() <= MAX_LEN && at(b@, pos as int, end as int, tlv(tag, c)) ==> r == Some(
                ((pos + tlv(tag, c).len() - c.len()) as usize, (pos + tlv(tag, c).len()) as usize),
            ),
{
    match read_header(b, pos, end) {
        Some((t, s, e)) => {
            if t == tag {
                Some((s, e))
            } else {
                None
            }
        },
        None => None,
    }
}

/// A copy of the bytes of `b` from `s` to `e`.
pub fn copy_bytes(b: &[u8], s: usize, e: usize) -> (r: Vec<u8>)
    requires
        s <= e <= b@.len(),
    ensures
        r@ == b@.subrange(s as int, e as int),
{
    let mut r: Vec<u8> = Vec::new();
    let mut i: usize = s;
    while i < e
        invariant
            s <= i <= e <= b@.len(),
            r@ == b@.subrange(s as int, i as int),
        decreases e - i,
    {
        r.push(b[i]);
        i = i + 1;
        assert(r@ =~= b@.subrange(s as int, i as int));
    }
    r
}

/// Appends the bytes of `b`.
pub fn push_bytes(out: &mut Vec<u8>, b: &[u8])
    ensures
        final(out)@ == old(out)@ + b@,
{
    let mut i: usize = 0;
    while i < b.len()
        invariant
            i <= b@.len(),
            out@ == old(out)@ + b@.subrange(0, i as int),
        decreases b@.len() - i,
    {
        out.push(b[i]);
        i = i + 1;
        assert(out@ =~= old(out)@ + b@.subrange(0, i as int));
    }
    assert(b@.subrange(0, b@.len() as int) =~= b@);
}

/// The concatenation of the byte strings of `ss`, in order.
pub open spec fn concat(ss: Seq<Seq<u8>>) -> Seq<u8>
    decreases ss.len(),
{
    if ss.len() == 0 {
        Seq::empty()
    } else {
        ss[0] + concat(ss.skip(1))
    }
}

/// Concatenating one more byte string appends it.
pub proof fn lemma_concat_push(ss: Seq<Seq<u8>>, x: Seq<u8>)
    ensures
        concat(ss.push(x)) == concat(ss) + x,
    decreases ss.len(),
{
    reveal_with_fuel(concat, 2);
    if ss.len() == 0 {
        assert(ss.push(x).skip(1) =~= Seq::<Seq<u8>>::empty());
        assert(concat(ss.push(x)) =~= x + Seq::<u8>::empty());
        assert(concat(ss) + x =~= x);
    } else {
        lemma_concat_push(ss.skip(1), x);
        assert(ss.push(x).skip(1) =~= ss.skip(1).push(x));
        assert(concat(ss.push(x)) =~= ss[0] + (concat(ss.skip(1)) + x));
    }
}

/// Appends the element with identifier octet `tag` and contents `bytes`;
/// fails when the contents are too long.
pub fn write_primitive(out: &mut Vec<u8>, tag: u8, bytes: &[u8]) -> (r: Result<(), Error>)
    ensures
        r is Ok <==> bytes@.len() <= MAX_LEN,
        r is Ok ==> final(out)@ == old(out)@ + tlv(tag, bytes@),
{
    if bytes.len() > MAX_LEN {
        return Err(Error::Unencodable);
    }
    write_header(out, tag, bytes.len());
    push_bytes(out, bytes);
    Ok(())
}

/// Reads the element with identifier octet `tag` at `pos`; returns a copy of
/// its contents and the position after it.
pub fn read_primitive(b: &[u8], pos: usize, end: usize, tag: u8) -> (r: Option<(Vec<u8>, usize)>)
    requires
        pos <= end <= b@.len(),
    ensures
        r matches Some((x, p)) ==> pos < p <= end && x@.len() <= MAX_LEN && b@.subrange(
            pos as int,
            p as int,
        ) == tlv(tag, x@),
        forall|c: Seq<u8>|
            #![trigger tlv(tag, c)]
            c.len() <= MAX_LEN && at(b@, pos as int, end as int, tlv(tag, c)) ==> (r matches Some(
                (x, p),
            ) && x@ == c && p == pos + tlv(tag, c).len()),
{
    proof {
        assert forall|c: Seq<u8>|
            #![trigger tlv(tag, c)]
            c.len() <= MAX_LEN && at(b@, pos as int, end as int, tlv(tag, c)) implies at(
                b@,
                pos + 1 + length_octets(c.len()).len(),
                pos + tlv(tag, c).len(),
                c,
            ) by {
            lemma_at_tlv(b@, pos as int, end as int, tag, c);
        }
    }
    match read_tagged(b, pos, end, tag) {
        Some((s, e)) => Some((copy_bytes(b, s, e), e)),
        None => None,
    }
}

/// An opaque DER element: its identifier octet and its contents, which are
/// kept as they are.
#[derive(Debug, Clone, PartialEq, Eq)]
pub struct Element {
    pub tag: u8,
    pub value: Vec<u8>,
}

/// What an `Element` holds.
pub struct ElementModel {
    pub tag: u8,
    pub value: Seq<u8>,
}

impl View for Element {
    type V = ElementModel;

    open spec fn view(&self) -> ElementModel {
        ElementModel { tag: self.tag, value: self.value@ }
    }
}

/// An element can be encoded: its tag has the low-tag-number form and its
/// contents fit a length.
pub open spec fn element_ok(e: ElementModel) -> bool {
    e.tag % 32 != 31 && e.value.len() <= MAX_LEN
}

pub open spec fn enc_element(e: ElementModel) -> Seq<u8> {
    tlv(e.tag, e.value)
}

impl Element {
    /// Appends the element's DER encoding.
    pub fn encode_into(&self, out: &mut Vec<u8>) -> (r: Result<(), Error>)
        ensures
            r is Ok <==> element_ok(self@),
            r is Ok ==> final(out)@ == old(out)@ + enc_element(self@),
    {
        if self.tag % 32 == 31 || self.value.len() > MAX_LEN {
            return Err(Error::Unencodable);
        }
        write_header(out, self.tag, self.value.len());
        push_bytes(out, self.value.as_slice());
        Ok(())
    }

    /// Reads the element that starts at `pos` and ends by `end`; returns it
    /// with the position after it.
    pub fn parse(b: &[u8], pos: usize, end: usize) -> (r: Option<(Element, usize)>)
        requires
            pos <= end <= b@.len(),
        ensures
            r matches Some((x, p)) ==> pos < p <= end && element_ok(x@) && b@.subrange(
                pos as int,
                p as int,
            ) == enc_element(x@),
            forall|v: ElementModel|
                #![trigger enc_element(v)]
                element_ok(v) && at(b@, pos as int, end as int, enc_element(v)) ==> (r matches Some(
                    (x, p),
                ) && x@ == v && p == pos + enc_element(v).len()),
    {
        proof {
            assert forall|v: ElementModel|
                #![trigger enc_element(v)]
                element_ok(v) && at(b@, pos as int, end as int, enc_element(v)) implies at(
                    b@,
                    pos + 1 + length_octets(v.value.len()).len(),
                    pos + enc_element(v).len(),
                    v.value,
                ) by {
                lemma_at_tlv(b@, pos as int, end as int, v.tag, v.value);
            }
        }
        match read_header(b, pos, end) {
            Some((t, s, e)) => {
                if t % 32 == 31 {
                    return None;
                }
                let value = copy_bytes(b, s, e);
                Some((Element { tag: t, value }, e))
            },
            None => None,
        }
    }
}

} // verus!
