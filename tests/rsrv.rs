use rserve::error::DecodeError;
use rserve::qap::ByteReader;
use rserve::rsrv::AuthType::{AnyAuth, MD5, PlainText, UnixCrypt};
use rserve::rsrv::ServerAttribute::{AnyAttr, AuthorizationRequired, Key, RVersion};
use rserve::rsrv::ServerProtocol::QAP1;
use rserve::rsrv::{AttrIndex, ReadIDString, ServerAttribute, ServerProtocol};

#[test]
fn empty_id_string() {
    match ServerProtocol::decode_id_string("".as_bytes()) {
        Ok(_) => panic!(),
        Err(e) => assert_eq!(e, DecodeError::InvalidLength),
    }
}

#[test]
fn ok_id_string() {
    let actual = ServerProtocol::decode_id_string("Rsrv0103QAP1****R151ARm5Kabc4444".as_bytes());
    assert_eq!(
        actual,
        Ok(QAP1(
            "0103".to_string(),
            vec![
                AnyAttr(Ok("****".to_string())),
                RVersion(1, 5, 1),
                AuthorizationRequired(MD5),
                Key('a' as u8, 'b' as u8, 'c' as u8),
                AnyAttr(Ok("4444".to_string())),
            ]
        ))
    )
}

#[test]
fn unknown_id_string() {
    match ServerProtocol::decode_id_string("Rsrv0100QAP2****R151ARm5Kabc4444".as_bytes()) {
        Ok(_) => panic!(),
        Err(e) => assert_eq!(
            e,
            DecodeError::UnsupportedAttribute {
                field: AttrIndex::Protocol,
                expected: (b'Q', b'A', b'P', b'1'),
                actual: (b'Q', b'A', b'P', b'2'),
            }
        ),
    }
}

#[test]
fn decode_sever_caps() {}

#[test]
fn id_string_wrong_lengths() {
    let long = "Rsrv0103QAP1****R151ARm5Kabc44445".as_bytes();
    assert_eq!(ServerProtocol::decode_id_string(long), Err(DecodeError::InvalidLength));
    let short = "Rsrv0103QAP1****R151ARm5Kabc444".as_bytes();
    assert_eq!(ServerProtocol::decode_id_string(short), Err(DecodeError::InvalidLength));
}

#[test]
fn id_string_bad_signature() {
    let r = ServerProtocol::decode_id_string("Rsrw0103QAP1****R151ARm5Kabc4444".as_bytes());
    assert_eq!(
        r,
        Err(DecodeError::UnsupportedAttribute {
            field: AttrIndex::IDsig,
            expected: (b'R', b's', b'r', b'v'),
            actual: (b'R', b's', b'r', b'w'),
        })
    );
}

#[test]
fn id_string_version_not_text() {
    let r = ServerProtocol::decode_id_string("RsrvR103QAP1****R151ARm5Kabc4444".as_bytes());
    assert_eq!(r, Err(DecodeError::InvalidVersion(RVersion(1, 0, 3))));
}

#[test]
fn id_string_any_well_formed_decodes() {
    let r = ServerProtocol::decode_id_string("Rsrv9876QAP1ARptARucKxyzR000ARzz".as_bytes());
    assert_eq!(
        r,
        Ok(QAP1(
            "9876".to_string(),
            vec![
                AuthorizationRequired(PlainText),
                AuthorizationRequired(UnixCrypt),
                Key(b'x', b'y', b'z'),
                RVersion(0, 0, 0),
                AuthorizationRequired(AnyAuth('z', 'z')),
            ]
        ))
    );
}

#[test]
fn attribute_shapes() {
    assert_eq!(ServerAttribute::new(b"R1x1"), AnyAttr(Ok("R1x1".to_string())));
    assert_eq!(ServerAttribute::new(b"K\x00\xff\x01"), Key(0, 255, 1));
    assert_eq!(ServerAttribute::new(&[0x41, 0xff, 0xfe, 0x20]), AnyAttr(Err((0x41, 0xff, 0xfe, 0x20))));
    assert_eq!(ServerAttribute::new("é!!".as_bytes()), AnyAttr(Ok("é!!".to_string())));
}

#[test]
fn attribute_renderings_classify_back() {
    for (bytes, attr) in [
        (*b"R907", RVersion(9, 0, 7)),
        (*b"ARpt", AuthorizationRequired(PlainText)),
        (*b"ARuc", AuthorizationRequired(UnixCrypt)),
        (*b"ARm5", AuthorizationRequired(MD5)),
        (*b"Kq\x00r", Key(b'q', 0, b'r')),
    ] {
        assert_eq!(ServerAttribute::new(&bytes), attr);
    }
}

#[test]
fn read_id_string_from_reader() {
    let mut r = ByteReader::new(b"Rsrv0103QAP1****R151ARm5Kabc4444tail".to_vec());
    match r.read_id_string() {
        Ok(QAP1(v, attrs)) => {
            assert_eq!(v, "0103");
            assert_eq!(attrs.len(), 5);
        }
        Err(e) => panic!("{:?}", e),
    }
    assert_eq!(r.pos(), 32);
    let mut short = ByteReader::new(b"Rsrv0103".to_vec());
    assert_eq!(short.read_id_string(), Err(DecodeError::Truncated));
    assert_eq!(short.pos(), 0);
}
