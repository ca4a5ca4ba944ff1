use std::rc::Rc;

use rserve::error::DecodeError;
use rserve::qap::ListItem::Tagged;
use rserve::qap::SExpCell::{ArrayString, List, SExpWithAttrib, Symbol};
use rserve::qap::{
    decode_sexp, to_array_str, to_string, to_symbol, ByteReader, DataDecode, Datum, FrameHeader,
    Message, QAP1Decode, SExp, XpressionTypes,
};

fn word(v: u32) -> Vec<u8> {
    v.to_le_bytes().to_vec()
}

fn node(tag: u32, attr: bool, len: usize) -> Vec<u8> {
    let flag: u32 = if attr { 128 } else { 0 };
    word(tag | flag | ((len as u32) << 8))
}

fn sym(name: &str) -> SExp {
    Some(Rc::new(Symbol(name.to_string())))
}

#[test]
fn str_pad() {
    assert_eq!(
        to_array_str("abc\0defg\0\x01\x01\x01".as_bytes().to_vec()),
        Some(Rc::new(ArrayString(vec!["abc".to_string(), "defg".to_string()])))
    );
    assert_eq!(
        to_array_str("class\0\x01\x01".as_bytes().to_vec()),
        Some(Rc::new(ArrayString(vec!["class".to_string()])))
    );
}

#[test]
fn str_array_edge_cases() {
    assert_eq!(to_array_str(vec![]), Some(Rc::new(ArrayString(vec!["".to_string()]))));
    assert_eq!(
        to_array_str(b"abc\0".to_vec()),
        Some(Rc::new(ArrayString(vec!["abc".to_string(), "".to_string()])))
    );
    assert_eq!(
        to_array_str(b"a\0\x01\x01bc\0".to_vec()),
        Some(Rc::new(ArrayString(vec!["a".to_string(), "".to_string()])))
    );
}

#[test]
fn symbol_stops_at_zero() {
    assert_eq!(to_symbol(b"names\0\0\0".to_vec()), sym("names"));
    assert_eq!(to_symbol(b"dim".to_vec()), sym("dim"));
    assert_eq!(to_symbol(vec![0, 65]), sym(""));
}

#[test]
fn text_falls_back_to_lossy() {
    assert_eq!(to_string(b"plain"), "plain");
    assert_eq!(to_string("ünï".as_bytes()), "ünï");
    assert_eq!(to_string(&[b'a', 0xff, b'b']), "a\u{fffd}b");
}

#[test]
fn xpression_word_decoding() {
    assert_eq!(XpressionTypes::decode(0x0001_2395), Ok((XpressionTypes::XT_LIST_TAG, true, 0x123)));
    assert_eq!(XpressionTypes::decode(0x0000_0562), Ok((XpressionTypes::XT_ARRAY_STR, false, 5)));
    assert_eq!(XpressionTypes::decode(48), Ok((XpressionTypes::XT_UNKNOWN, false, 0)));
    assert_eq!(XpressionTypes::decode(0x0000_0108), Err(DecodeError::UnknownExpressionType(8)));
}

fn sexp_bytes() -> Vec<u8> {
    // a list of (symbol "x", string array ["abc", "de"]) under an attribute list of (nil, nil)
    let mut attr = node(21, false, 8);
    attr.extend(node(0, false, 0));
    attr.extend(node(0, false, 0));
    let mut value = Vec::new();
    value.extend(node(19, false, 4));
    value.extend(b"x\0\0\0");
    value.extend(node(34, false, 8));
    value.extend(b"abc\0de\0\x01");
    let mut out = node(21, true, attr.len() + value.len());
    out.extend(attr);
    out.extend(value);
    out
}

fn sexp_tree() -> SExp {
    let attr = Some(Rc::new(List(vec![Tagged(None, None)])));
    let strings = Some(Rc::new(ArrayString(vec!["abc".to_string(), "de".to_string()])));
    let value = Some(Rc::new(List(vec![Tagged(sym("x"), strings)])));
    Some(Rc::new(SExpWithAttrib(attr, value)))
}

#[test]
fn nested_expression() {
    let bytes = sexp_bytes();
    let mut r = ByteReader::new(bytes.clone());
    assert_eq!(r.read_sexp(), Ok(sexp_tree()));
    assert_eq!(r.pos(), bytes.len());
}

#[test]
fn decoding_twice_gives_equal_trees() {
    let bytes = sexp_bytes();
    let a = decode_sexp(&bytes, 0, bytes.len(), 64);
    let b = decode_sexp(&bytes, 0, bytes.len(), 64);
    assert_eq!(a, b);
    assert!(a.is_ok());
}

#[test]
fn list_consumes_declared_length() {
    let mut bytes = node(21, false, 12);
    bytes.extend(node(19, false, 4));
    bytes.extend(b"ab\0\0");
    bytes.extend(node(0, false, 0));
    bytes.extend(b"trailing");
    let r = decode_sexp(&bytes, 0, bytes.len(), 8);
    assert_eq!(r, Ok((Some(Rc::new(List(vec![Tagged(sym("ab"), None)]))), 16)));
}

#[test]
fn nil_expression() {
    let bytes = node(0, false, 0);
    assert_eq!(decode_sexp(&bytes, 0, 4, 1), Ok((None, 4)));
    let mut with_attr = node(0, true, 4);
    with_attr.extend(node(0, false, 0));
    assert_eq!(
        decode_sexp(&with_attr, 0, 8, 1),
        Ok((Some(Rc::new(SExpWithAttrib(None, None))), 8))
    );
}

#[test]
fn unknown_and_unsupported_tags_fail() {
    let unknown = node(48 + 1, false, 0);
    assert_eq!(decode_sexp(&unknown, 0, 4, 8), Err(DecodeError::UnknownExpressionType(49)));
    let mut xt_unknown = node(48, false, 4);
    xt_unknown.extend([0, 0, 0, 0]);
    assert_eq!(decode_sexp(&xt_unknown, 0, 8, 8), Err(DecodeError::UnsupportedExpressionType(48)));
    let mut int_array = node(32, true, 8);
    int_array.extend([0, 0, 0, 0, 2, 0, 0, 0]);
    assert_eq!(decode_sexp(&int_array, 0, 12, 8), Err(DecodeError::UnsupportedExpressionType(32)));
}

#[test]
fn unsupported_type_is_refused_before_its_length_is_checked() {
    let bytes = vec![0x81, 0x08, 0, 0, 0, 0, 0, 0];
    let mut r = ByteReader::new(bytes);
    assert_eq!(r.read_sexp(), Err(DecodeError::UnsupportedExpressionType(1)));
    assert_eq!(r.pos(), 0);
    let mut bad_attr = node(1, true, 8);
    bad_attr.extend(node(19, false, 4));
    assert_eq!(decode_sexp(&bad_attr, 0, 8, 8), Err(DecodeError::Truncated));
}

#[test]
fn attribute_is_decoded_before_the_value_type_is_refused() {
    let mut bad_attr = node(32, true, 8);
    bad_attr.extend(node(49, false, 0));
    bad_attr.extend([2, 0, 0, 0]);
    assert_eq!(decode_sexp(&bad_attr, 0, 12, 8), Err(DecodeError::UnknownExpressionType(49)));
    let mut int_attr = node(32, true, 8);
    int_attr.extend([1, 0, 0, 0, 2, 0, 0, 0]);
    assert_eq!(decode_sexp(&int_attr, 0, 12, 8), Err(DecodeError::UnsupportedExpressionType(1)));
}

#[test]
fn truncated_and_deep_expressions_fail() {
    let mut sym_node = node(19, false, 8);
    sym_node.extend(b"abc\0");
    assert_eq!(decode_sexp(&sym_node, 0, sym_node.len(), 8), Err(DecodeError::Truncated));
    assert_eq!(decode_sexp(&[0, 0], 0, 2, 8), Err(DecodeError::Truncated));
    let mut nested = node(21, false, 16);
    nested.extend(node(21, false, 8));
    nested.extend(node(0, false, 0));
    nested.extend(node(0, false, 0));
    nested.extend(node(0, false, 0));
    assert_eq!(decode_sexp(&nested, 0, nested.len(), 1), Err(DecodeError::RecursionLimitExceeded));
    let mut r = ByteReader::with_max_depth(nested.clone(), 1);
    assert_eq!(r.read_sexp(), Err(DecodeError::RecursionLimitExceeded));
    assert_eq!(r.pos(), 0);
    let ok = decode_sexp(&nested, 0, nested.len(), 2);
    assert!(ok.is_ok());
}

#[test]
fn header_fields_are_little_endian() {
    let mut bytes = word(0x434f_7352);
    bytes.extend(word(7));
    bytes.extend(word(0x0102_0304));
    bytes.extend(word(0));
    let mut r = ByteReader::new(bytes);
    assert_eq!(
        r.read_header(),
        Ok(FrameHeader { cmd: 0x434f_7352, len: 7, msg_id: 0x0102_0304, len_high: 0 })
    );
    assert_eq!(r.pos(), 16);
    let mut short = ByteReader::new(vec![1, 2, 3]);
    assert_eq!(short.read_header(), Err(DecodeError::Truncated));
}

#[test]
fn integer_message() {
    let mut bytes = word(0x10001);
    bytes.extend(word(8));
    bytes.extend(word(3));
    bytes.extend(word(0));
    bytes.extend(word(1 | (4 << 8)));
    bytes.extend((-5i32).to_le_bytes());
    let mut r = ByteReader::new(bytes);
    assert_eq!(
        r.read_message(None),
        Ok(Message { cmd: 0x10001, msg_id: 3, content: Some(Datum::DTInt(-5)) })
    );
    assert_eq!(r.pos(), 24);
}

#[test]
fn expression_message_with_given_header() {
    let sexp = sexp_bytes();
    let mut payload = word(10 | ((sexp.len() as u32) << 8));
    payload.extend(sexp);
    let hd = FrameHeader { cmd: 0x434f_7352, len: payload.len() as u32, msg_id: 1, len_high: 0 };
    let mut r = ByteReader::new(payload);
    assert_eq!(
        r.read_message(Some(hd)),
        Ok(Message { cmd: 0x434f_7352, msg_id: 1, content: Some(Datum::DTSExp(sexp_tree())) })
    );
}

#[test]
fn empty_message_has_no_content() {
    let hd = FrameHeader { cmd: 2, len: 0, msg_id: 9, len_high: 0 };
    let mut r = ByteReader::new(vec![]);
    assert_eq!(r.read_message(Some(hd)), Ok(Message { cmd: 2, msg_id: 9, content: None }));
}

#[test]
fn large_framing_is_refused() {
    let hd = FrameHeader { cmd: 2, len: 0, msg_id: 9, len_high: 1 };
    let mut r = ByteReader::new(vec![1, 0, 0, 0]);
    assert_eq!(r.read_message(Some(hd)), Err(DecodeError::UnsupportedFraming));
    let mut bytes = word(1);
    bytes.extend(word(8));
    bytes.extend(word(2));
    bytes.extend(word(0xffff_ffff));
    let mut r = ByteReader::new(bytes);
    assert_eq!(r.read_message(None), Err(DecodeError::UnsupportedFraming));
    assert_eq!(r.pos(), 16);
}

#[test]
fn failed_payload_is_skipped_whole() {
    // a first message whose expression payload is refused, then a good integer message
    let mut bytes = word(1);
    bytes.extend(word(8));
    bytes.extend(word(1));
    bytes.extend(word(0));
    bytes.extend(word(10 | (4 << 8)));
    bytes.extend(node(48, false, 0));
    bytes.extend(word(2));
    bytes.extend(word(8));
    bytes.extend(word(2));
    bytes.extend(word(0));
    bytes.extend(word(1 | (4 << 8)));
    bytes.extend(word(42));
    let mut r = ByteReader::new(bytes);
    assert_eq!(r.read_message(None), Err(DecodeError::UnsupportedExpressionType(48)));
    assert_eq!(r.pos(), 24);
    assert_eq!(
        r.read_message(None),
        Ok(Message { cmd: 2, msg_id: 2, content: Some(Datum::DTInt(42)) })
    );
}

#[test]
fn depth_limit_only_refuses() {
    let bytes = sexp_bytes();
    let deep = decode_sexp(&bytes, 0, bytes.len(), 64);
    let shallow = decode_sexp(&bytes, 0, bytes.len(), 2);
    assert_eq!(deep, shallow);
    assert_eq!(decode_sexp(&bytes, 0, bytes.len(), 1), Err(DecodeError::RecursionLimitExceeded));
}

#[test]
fn bad_payloads_fail() {
    let hd = FrameHeader { cmd: 2, len: 8, msg_id: 9, len_high: 0 };
    let mut r = ByteReader::new(vec![1, 0, 0, 0]);
    assert_eq!(r.read_message(Some(hd)), Err(DecodeError::Truncated));
    assert_eq!(r.pos(), 0);
    let mut r = ByteReader::new(vec![3, 4, 0, 0, 1, 2, 3, 4, 9]);
    assert_eq!(r.read_message(Some(hd)), Err(DecodeError::UnknownDatumType(3)));
    assert_eq!(r.pos(), 8);
    let mut r = ByteReader::new(vec![1, 0, 0, 0, 1, 2]);
    assert_eq!(r.read_datum(), Err(DecodeError::Truncated));
    let mut r = ByteReader::new(vec![10, 4, 0, 0, 0x14, 0, 0, 0]);
    assert_eq!(r.read_datum(), Err(DecodeError::UnsupportedExpressionType(20)));
}

#[test]
fn inconsistent_attribute_length_is_truncation() {
    // the attribute claims more bytes than its node holds
    let mut bytes = node(0, true, 4);
    bytes.extend(node(19, false, 4));
    bytes.extend(b"abc\0");
    assert_eq!(decode_sexp(&bytes, 0, bytes.len(), 8), Err(DecodeError::Truncated));
}
