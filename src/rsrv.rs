use vstd::prelude::*;
use vstd::utf8::{
    decode_utf8, encode_utf8, encode_utf8_decode_utf8, encode_utf8_valid_utf8, is_ascii_chars,
    is_ascii_chars_encode_utf8, valid_utf8,
};

use crate::error::DecodeError;
use crate::qap::{ByteReader, ByteStream};
use crate::text::utf8_text;

verus! {

/// What a server announces about itself in its identification string.
#[derive(Debug, PartialEq, Eq)]
pub enum ServerProtocol {
    /// The framed protocol: the version text and the five option fields, in order.
    QAP1(String, Vec<ServerAttribute>),
}

/// The eight four-byte fields of the identification string, in wire order.
#[derive(Debug, Clone, Copy, PartialEq, Eq)]
pub enum AttrIndex {
    IDsig,
    ServerVersion,
    Protocol,
    Opt4,
    Opt5,
    Opt6,
    Opt7,
    Opt8,
}

impl AttrIndex {
    /// The position of the field among the eight.
    pub open spec fn spec_index(self) -> nat {
        match self {
            AttrIndex::IDsig => 0,
            AttrIndex::ServerVersion => 1,
            AttrIndex::Protocol => 2,
            AttrIndex::Opt4 => 3,
            AttrIndex::Opt5 => 4,
            AttrIndex::Opt6 => 5,
            AttrIndex::Opt7 => 6,
            AttrIndex::Opt8 => 7,
        }
    }

    pub fn index(self) -> (r: usize)
        ensures
            r == self.spec_index(),
    {
        match self {
            AttrIndex::IDsig => 0,
            AttrIndex::ServerVersion => 1,
            AttrIndex::Protocol => 2,
            AttrIndex::Opt4 => 3,
            AttrIndex::Opt5 => 4,
            AttrIndex::Opt6 => 5,
            AttrIndex::Opt7 => 6,
            AttrIndex::Opt8 => 7,
        }
    }
}

/// The authentication scheme that a server asks for.
#[derive(Debug, Clone, Copy, PartialEq, Eq)]
pub enum AuthType {
    PlainText,
    UnixCrypt,
    MD5,
    AnyAuth(char, char),
}

/// One four-byte field of the identification string, classified by its shape.
#[derive(Debug, PartialEq, Eq)]
pub enum ServerAttribute {
    /// `R` followed by three decimal digits.
    RVersion(u8, u8, u8),
    /// `AR` followed by two characters naming the scheme.
    AuthorizationRequired(AuthType),
    /// `K` followed by three raw key bytes.
    Key(u8, u8, u8),
    /// Anything else: its text where it is valid UTF-8, else its bytes.
    AnyAttr(Result<String, (u8, u8, u8, u8)>),
}

/// A field of the identification string with its text as characters.
pub enum AttrView {
    RVersion(u8, u8, u8),
    AuthorizationRequired(AuthType),
    Key(u8, u8, u8),
    AnyAttr(Result<Seq<char>, (u8, u8, u8, u8)>),
}

impl View for ServerAttribute {
    type V = AttrView;

    open spec fn view(&self) -> AttrView {
        match self {
            ServerAttribute::RVersion(a, b, c) => AttrView::RVersion(*a, *b, *c),
            ServerAttribute::AuthorizationRequired(t) => AttrView::AuthorizationRequired(*t),
            ServerAttribute::Key(a, b, c) => AttrView::Key(*a, *b, *c),
            ServerAttribute::AnyAttr(Ok(s)) => AttrView::AnyAttr(Ok(s@)),
            ServerAttribute::AnyAttr(Err(t)) => AttrView::AnyAttr(Err(*t)),
        }
    }
}

/// The value of a byte that is an ASCII decimal digit.
pub open spec fn digit_of(b: u8) -> Option<u8> {
    if 48 <= b <= 57 {
        Some((b - 48) as u8)
    } else {
        None
    }
}

/// The scheme named by the two bytes that follow `AR`.
pub open spec fn auth_of(c2: u8, c3: u8) -> AuthType {
    if c2 == 'p' as u8 && c3 == 't' as u8 {
        AuthType::PlainText
    } else if c2 == 'u' as u8 && c3 == 'c' as u8 {
        AuthType::UnixCrypt
    } else if c2 == 'm' as u8 && c3 == '5' as u8 {
        AuthType::MD5
    } else {
        AuthType::AnyAuth(c2 as char, c3 as char)
    }
}

/// A field that has no recognised shape: its text, or its bytes where they are not UTF-8.
pub open spec fn generic_of(b: Seq<u8>) -> AttrView
    recommends
        b.len() == 4,
{
    if valid_utf8(b) {
        AttrView::AnyAttr(Ok(decode_utf8(b)))
    } else {
        AttrView::AnyAttr(Err((b[0], b[1], b[2], b[3])))
    }
}

/// How a four-byte field is classified; the first shape that matches wins.
pub open spec fn classify(b: Seq<u8>) -> AttrView
    recommends
        b.len() == 4,
{
    if b[0] == 'R' as u8 {
        if digit_of(b[1]) is Some && digit_of(b[2]) is Some && digit_of(b[3]) is Some {
            AttrView::RVersion(digit_of(b[1])->0, digit_of(b[2])->0, digit_of(b[3])->0)
        } else {
            generic_of(b)
        }
    } else if b[0] == 'A' as u8 && b[1] == 'R' as u8 {
        AttrView::AuthorizationRequired(auth_of(b[2], b[3]))
    } else if b[0] == 'K' as u8 {
        AttrView::Key(b[1], b[2], b[3])
    } else {
        generic_of(b)
    }
}

fn decimal_digit(b: u8) -> (r: Option<u8>)
    ensures
        r == digit_of(b),
{
    if 48 <= b && b <= 57 {
        Some(b - 48)
    } else {
        None
    }
}

impl ServerAttribute {
    /// Classifies a four-byte field of the identification string.
    pub fn new(bytes: &[u8]) -> (r: ServerAttribute)
        requires
            bytes@.len() == 4,
        ensures
            r@ == classify(bytes@),
    {
        let generic = |b: &[u8]| -> (g: ServerAttribute)
            requires
                b@.len() == 4,
            ensures
                g@ == generic_of(b@),
            {
                match utf8_text(b) {
                    Some(txt) => ServerAttribute::AnyAttr(Ok(txt)),
                    None => ServerAttribute::AnyAttr(Err((b[0], b[1], b[2], b[3]))),
                }
            };
        if bytes[0] == 'R' as u8 {
            match (decimal_digit(bytes[1]), decimal_digit(bytes[2]), decimal_digit(bytes[3])) {
                (Some(d1), Some(d2), Some(d3)) => ServerAttribute::RVersion(d1, d2, d3),
                _ => generic(bytes),
            }
        } else if bytes[0] == 'A' as u8 && bytes[1] == 'R' as u8 {
            let (c2, c3) = (bytes[2], bytes[3]);
            let auth = if c2 == 'p' as u8 && c3 == 't' as u8 {
                AuthType::PlainText
            } else if c2 == 'u' as u8 && c3 == 'c' as u8 {
                AuthType::UnixCrypt
            } else if c2 == 'm' as u8 && c3 == '5' as u8 {
                AuthType::MD5
            } else {
                AuthType::AnyAuth(c2 as char, c3 as char)
            };
            ServerAttribute::AuthorizationRequired(auth)
        } else if bytes[0] == 'K' as u8 {
            ServerAttribute::Key(bytes[1], bytes[2], bytes[3])
        } else {
            generic(bytes)
        }
    }
}

/// The four bytes of field `i` of an identification string.
pub open spec fn field(b: Seq<u8>, i: int) -> Seq<u8> {
    b.subrange(4 * i, 4 * i + 4)
}

/// Four bytes as a tuple, in order.
pub open spec fn quad(c: Seq<u8>) -> (u8, u8, u8, u8) {
    (c[0], c[1], c[2], c[3])
}

/// The literal that opens every identification string: `Rsrv`.
pub open spec fn signature_literal() -> (u8, u8, u8, u8) {
    ('R' as u8, 's' as u8, 'r' as u8, 'v' as u8)
}

/// The name of the only protocol understood here: `QAP1`.
pub open spec fn protocol_literal() -> (u8, u8, u8, u8) {
    ('Q' as u8, 'A' as u8, 'P' as u8, '1' as u8)
}

/// The version text, where the version field classifies as text.
pub open spec fn version_text(b: Seq<u8>) -> Option<Seq<char>> {
    match classify(field(b, 1)) {
        AttrView::AnyAttr(Ok(text)) => Some(text),
        _ => None,
    }
}

/// The bytes of field `i` of `buf`.
fn field_bytes(buf: &[u8], i: usize) -> (r: Vec<u8>)
    requires
        buf@.len() == 32,
        i < 8,
    ensures
        r@ == field(buf@, i as int),
{
    let k: usize = 4 * i;
    let r = vec![buf[k], buf[k + 1], buf[k + 2], buf[k + 3]];
    assert(r@ =~= field(buf@, i as int));
    r
}

/// Checks that the field at `which` holds the literal `expected`.
fn expect_field(buf: &[u8], which: AttrIndex, expected: (u8, u8, u8, u8)) -> (r: Result<
    (),
    DecodeError,
>)
    requires
        buf@.len() == 32,
    ensures
        quad(field(buf@, which.spec_index() as int)) == expected ==> r is Ok,
        quad(field(buf@, which.spec_index() as int)) != expected ==> r == Err::<(), DecodeError>(
            DecodeError::UnsupportedAttribute {
                field: which,
                expected,
                actual: quad(field(buf@, which.spec_index() as int)),
            },
        ),
{
    let k: usize = 4 * which.index();
    let actual = (buf[k], buf[k + 1], buf[k + 2], buf[k + 3]);
    if actual.0 == expected.0 && actual.1 == expected.1 && actual.2 == expected.2 && actual.3
        == expected.3 {
        Ok(())
    } else {
        Err(DecodeError::UnsupportedAttribute { field: which, expected, actual })
    }
}

/// What decoding the identification string `b` returns: exactly one outcome for each input.
pub open spec fn id_string_outcome(b: Seq<u8>, r: Result<ServerProtocol, DecodeError>) -> bool {
    if b.len() != 32 {
        r == Err::<ServerProtocol, DecodeError>(DecodeError::InvalidLength)
    } else if quad(field(b, 0)) != signature_literal() {
        r == Err::<ServerProtocol, DecodeError>(
            DecodeError::UnsupportedAttribute {
                field: AttrIndex::IDsig,
                expected: signature_literal(),
                actual: quad(field(b, 0)),
            },
        )
    } else if quad(field(b, 2)) != protocol_literal() {
        r == Err::<ServerProtocol, DecodeError>(
            DecodeError::UnsupportedAttribute {
                field: AttrIndex::Protocol,
                expected: protocol_literal(),
                actual: quad(field(b, 2)),
            },
        )
    } else {
        match version_text(b) {
            None => r matches Err(DecodeError::InvalidVersion(a)) && a@ == classify(field(b, 1)),
            Some(text) => r matches Ok(ServerProtocol::QAP1(version, attrs)) && version@ == text
                && attrs@.len() == 5 && forall|i: int|
                0 <= i < 5 ==> (#[trigger] attrs@[i])@ == classify(field(b, i + 3)),
        }
    }
}

impl ServerProtocol {
    /// Decodes the 32-byte identification string that a server sends on connect.
    pub fn decode_id_string(buf: &[u8]) -> (r: Result<ServerProtocol, DecodeError>)
        ensures
            id_string_outcome(buf@, r),
    {
        if buf.len() != 32 {
            return Err(DecodeError::InvalidLength);
        }
        expect_field(buf, AttrIndex::IDsig, ('R' as u8, 's' as u8, 'r' as u8, 'v' as u8))?;
        let version = ServerAttribute::new(field_bytes(buf, 1).as_slice());
        expect_field(buf, AttrIndex::Protocol, ('Q' as u8, 'A' as u8, 'P' as u8, '1' as u8))?;
        let mut attrs: Vec<ServerAttribute> = Vec::new();
        let mut i: usize = 3;
        while i < 8
            invariant
                buf@.len() == 32,
                3 <= i <= 8,
                attrs@.len() == i - 3,
                forall|j: int| 0 <= j < i - 3 ==> (#[trigger] attrs@[j])@ == classify(field(buf@, j + 3)),
            decreases 8 - i,
        {
            attrs.push(ServerAttribute::new(field_bytes(buf, i).as_slice()));
            i = i + 1;
        }
        match version {
            ServerAttribute::AnyAttr(Ok(txt)) => Ok(ServerProtocol::QAP1(txt, attrs)),
            _ => Err(DecodeError::InvalidVersion(version)),
        }
    }
}

/// Reading the identification string from a byte source.
pub trait ReadIDString: ByteStream {
    /// Reads 32 bytes and decodes them as the identification string.
    fn read_id_string(&mut self) -> (r: Result<ServerProtocol, DecodeError>)
        requires
            0 <= old(self).position() <= old(self).bytes().len(),
        ensures
            final(self).bytes() == old(self).bytes(),
            final(self).depth_limit() == old(self).depth_limit(),
            0 <= final(self).position() <= final(self).bytes().len(),
            old(self).position() + 32 <= old(self).bytes().len() ==> id_string_outcome(
                old(self).bytes().subrange(old(self).position(), old(self).position() + 32),
                r,
            ) && final(self).position() == old(self).position() + 32,
            old(self).position() + 32 > old(self).bytes().len() ==> r == Err::<
                ServerProtocol,
                DecodeError,
            >(DecodeError::Truncated) && final(self).position() == old(self).position(),
    ;
}

impl ReadIDString for ByteReader {
    fn read_id_string(&mut self) -> (r: Result<ServerProtocol, DecodeError>) {
        match self.read_exact(32) {
            Ok(buf) => ServerProtocol::decode_id_string(buf.as_slice()),
            Err(e) => Err(e),
        }
    }
}

/// The four bytes that stand for a field of a shape with a byte form of its own: a version
/// of three digits, a known authentication scheme, or a key.
pub open spec fn rendering(a: AttrView) -> Seq<u8> {
    match a {
        AttrView::RVersion(d1, d2, d3) => seq!['R' as u8, (48 + d1) as u8, (48 + d2) as u8, (48 + d3) as u8],
        AttrView::AuthorizationRequired(AuthType::PlainText) => seq!['A' as u8, 'R' as u8, 'p' as u8, 't' as u8],
        AttrView::AuthorizationRequired(AuthType::UnixCrypt) => seq!['A' as u8, 'R' as u8, 'u' as u8, 'c' as u8],
        AttrView::AuthorizationRequired(AuthType::MD5) => seq!['A' as u8, 'R' as u8, 'm' as u8, '5' as u8],
        AttrView::Key(k1, k2, k3) => seq!['K' as u8, k1, k2, k3],
        _ => Seq::empty(),
    }
}

/// The fields that have a byte form of their own.
pub open spec fn has_rendering(a: AttrView) -> bool {
    match a {
        AttrView::RVersion(d1, d2, d3) => d1 < 10 && d2 < 10 && d3 < 10,
        AttrView::AuthorizationRequired(AuthType::AnyAuth(_, _)) => false,
        AttrView::AuthorizationRequired(_) => true,
        AttrView::Key(_, _, _) => true,
        AttrView::AnyAttr(_) => false,
    }
}

/// Classifying the byte form of a version, a known scheme or a key gives back that field.
pub proof fn lemma_classify_rendering(a: AttrView)
    requires
        has_rendering(a),
    ensures
        classify(rendering(a)) == a,
{
}

/// Four ASCII bytes are valid UTF-8 and decode to the characters of the same codes.
proof fn lemma_ascii_text(c: Seq<u8>)
    requires
        forall|i: int| 0 <= i < c.len() ==> c[i] < 128,
    ensures
        valid_utf8(c),
        decode_utf8(c) == c.map_values(|x: u8| x as char),
{
    let chars = c.map_values(|x: u8| x as char);
    assert forall|i: int| 0 <= i < chars.len() implies '\0' <= #[trigger] chars[i] <= '\u{7f}' by {
        let x = c[i];
        assert(x < 128);
    }
    assert(is_ascii_chars(chars));
    is_ascii_chars_encode_utf8(chars);
    assert forall|i: int| 0 <= i < c.len() implies encode_utf8(chars)[i] == c[i] by {
        let x = c[i];
        assert(chars[i] == x as char);
        assert((x as char) as u8 == x);
    }
    assert(encode_utf8(chars) =~= c);
    encode_utf8_valid_utf8(chars);
    encode_utf8_decode_utf8(chars);
}

/// The identification string is 32 bytes, opens with the signature and names the protocol
/// in its third field, and its version field is four decimal digits.
pub open spec fn is_well_formed_id_string(b: Seq<u8>) -> bool {
    &&& b.len() == 32
    &&& quad(field(b, 0)) == signature_literal()
    &&& quad(field(b, 2)) == protocol_literal()
    &&& forall|i: int| 4 <= i < 8 ==> digit_of(b[i]) is Some
}

/// Any input of another length than 32 bytes fails with `InvalidLength`; a well-formed one
/// decodes to its version text and its five option fields, classified, in order.
pub proof fn lemma_id_string_outcomes(b: Seq<u8>, r: Result<ServerProtocol, DecodeError>)
    requires
        id_string_outcome(b, r),
    ensures
        b.len() != 32 ==> r == Err::<ServerProtocol, DecodeError>(DecodeError::InvalidLength),
        is_well_formed_id_string(b) ==> (r matches Ok(ServerProtocol::QAP1(version, attrs))
            && version@ == field(b, 1).map_values(|x: u8| x as char) && attrs@.len() == 5
            && forall|i: int| 0 <= i < 5 ==> (#[trigger] attrs@[i])@ == classify(field(b, i + 3))),
{
    if is_well_formed_id_string(b) {
        let c = field(b, 1);
        assert forall|i: int| 0 <= i < c.len() implies c[i] < 128 by {
            assert(digit_of(b[4 + i]) is Some);
        }
        assert(digit_of(b[4]) is Some);
        lemma_ascii_text(c);
    }
}

/// An identification string whose signature is anything but `Rsrv` fails with
/// `UnsupportedAttribute`, naming the signature field.
pub proof fn lemma_bad_signature(b: Seq<u8>, r: Result<ServerProtocol, DecodeError>)
    requires
        id_string_outcome(b, r),
        b.len() == 32,
        quad(field(b, 0)) != signature_literal(),
    ensures
        r matches Err(DecodeError::UnsupportedAttribute { field: AttrIndex::IDsig, .. }),
{
}

} // verus!
