use tls13_codec::alert::Alert;
use tls13_codec::codes::{
    AlertDescription, AlertLevel, CipherSuite, ContentType, ExtensionType, HandshakeType,
    KeyUpdateRequest, NamedGroup, PskKeyExchangeMode, SignatureScheme,
};
use tls13_codec::ext_body::{
    decode_extension_body, EarlyDataIndication, ExtensionBody, KeyShareEntry, MessageContext,
    OfferedPsks, PreSharedKeyExtensionClient, PskIdentity, SupportedVersionsClient,
};
use tls13_codec::extension::{decode_extensions, encode_extensions, Extension};
use tls13_codec::handshake::{
    decode_handshake_body, Certificate, CertificateVerify, ClientHello, Handshake, HandshakeBody,
    NewSessionTicket, ServerHello,
};
use tls13_codec::record::{TLSCiphertext, TLSInnerPlaintext, TLSPlaintext};
use tls13_codec::wire::DecodeError;

const HRR_RANDOM: [u8; 32] = [
    0xcf, 0x21, 0xad, 0x74, 0xe5, 0x9a, 0x61, 0x11, 0xbe, 0x1d, 0x8c, 0x02, 0x1e, 0x65, 0xb8, 0x91,
    0xc2, 0xa2, 0x11, 0x16, 0x7a, 0xbb, 0x8c, 0x5e, 0x07, 0x9e, 0x09, 0xe2, 0xc8, 0xa8, 0x33, 0x9c,
];

fn server_hello_bytes(random: &[u8; 32]) -> Vec<u8> {
    let mut b = vec![0x02, 0x00, 0x00, 40, 0x03, 0x03];
    b.extend_from_slice(random);
    b.extend_from_slice(&[0x00, 0x13, 0x01, 0x00, 0x00, 0x00]);
    b
}

fn key_share_client_hello_bytes() -> Vec<u8> {
    // Two entries of X25519 with 32-byte keys: each 2 + 2 + 32 = 36 bytes.
    let mut shares = vec![0x00, 72];
    for fill in [0x11u8, 0x22u8] {
        shares.extend_from_slice(&[0x00, 0x1d, 0x00, 0x20]);
        shares.extend_from_slice(&[fill; 32]);
    }
    shares
}

#[test]
fn plaintext_record_round_trip() {
    let bytes = [0x16, 0x03, 0x03, 0x00, 0x05, 0x48, 0x65, 0x6c, 0x6c, 0x6f];
    let (rec, n) = TLSPlaintext::decode(&bytes).unwrap();
    assert_eq!(n, 10);
    assert_eq!(rec.type_, ContentType::Handshake);
    assert_eq!(rec.legacy_record_version, 0x0303);
    assert_eq!(rec.length, 5);
    assert_eq!(rec.fragment, b"Hello".to_vec());
    let mut out = Vec::new();
    rec.encode(&mut out);
    assert_eq!(out, bytes.to_vec());
}

#[test]
fn plaintext_record_truncations_fail() {
    let bytes = [0x16, 0x03, 0x03, 0x00, 0x05, 0x48, 0x65, 0x6c, 0x6c, 0x6f];
    for k in 0..bytes.len() {
        assert_eq!(TLSPlaintext::decode(&bytes[..k]).err(), Some(DecodeError::TruncatedInput));
    }
}

#[test]
fn plaintext_record_too_long_is_refused() {
    let mut bytes = vec![0x17, 0x03, 0x03, 0x40, 0x01];
    bytes.extend_from_slice(&vec![0u8; 16385]);
    assert_eq!(TLSPlaintext::decode(&bytes).err(), Some(DecodeError::InvalidVectorLength));
}

#[test]
fn plaintext_new_sets_length() {
    let rec = TLSPlaintext::new(ContentType::Alert, vec![2, 40]);
    assert_eq!(rec.length, 2);
    assert_eq!(rec.legacy_record_version, 0x0303);
    let mut out = Vec::new();
    rec.encode(&mut out);
    assert_eq!(out, vec![0x15, 0x03, 0x03, 0x00, 0x02, 0x02, 0x28]);
}

#[test]
fn ciphertext_record_round_trip() {
    let bytes = [0x17, 0x03, 0x03, 0x00, 0x03, 0xaa, 0xbb, 0xcc, 0x99];
    let (rec, n) = TLSCiphertext::decode(&bytes).unwrap();
    assert_eq!(n, 8);
    assert_eq!(rec.opaque_type, ContentType::ApplicationData);
    assert_eq!(rec.encrypted_record, vec![0xaa, 0xbb, 0xcc]);
    let mut out = Vec::new();
    rec.encode(&mut out);
    assert_eq!(out, bytes[..8].to_vec());
}

#[test]
fn inner_plaintext_pads_and_splits() {
    let rec = TLSPlaintext::new(ContentType::Handshake, vec![1, 0, 2]);
    let inner = TLSInnerPlaintext::from_plaintext(&rec, 3);
    let mut out = Vec::new();
    inner.encode(&mut out);
    assert_eq!(out, vec![1, 0, 2, 22, 0, 0, 0]);
    let back = TLSInnerPlaintext::decode(&out).unwrap();
    assert_eq!(back.content, vec![1, 0, 2]);
    assert_eq!(back.type_, ContentType::Handshake);
    assert_eq!(back.zeros, vec![0, 0, 0]);
}

#[test]
fn inner_plaintext_of_zeros_is_refused() {
    assert!(TLSInnerPlaintext::decode(&[0, 0, 0]).is_none());
    assert!(TLSInnerPlaintext::decode(&[]).is_none());
}

#[test]
fn hello_retry_request_is_flagged() {
    let bytes = server_hello_bytes(&HRR_RANDOM);
    let (hs, n) = Handshake::decode(&bytes).unwrap();
    assert_eq!(n, 44);
    assert_eq!(hs.msg_type, HandshakeType::ServerHello);
    match &hs.body {
        HandshakeBody::HelloRetryRequest(sh) => {
            assert_eq!(sh.cipher_suite, 0x1301);
            assert_eq!(sh.random, HRR_RANDOM.to_vec());
        }
        _ => panic!("expected a retry request"),
    }
    let mut out = Vec::new();
    hs.encode(&mut out);
    assert_eq!(out, bytes);
}

#[test]
fn ordinary_server_hello_is_not_flagged() {
    let bytes = server_hello_bytes(&[7u8; 32]);
    let (hs, _) = Handshake::decode(&bytes).unwrap();
    assert!(matches!(hs.body, HandshakeBody::ServerHello(_)));
}

#[test]
fn server_hello_truncations_fail() {
    let bytes = server_hello_bytes(&HRR_RANDOM);
    for k in 0..bytes.len() {
        assert_eq!(Handshake::decode(&bytes[..k]).err(), Some(DecodeError::TruncatedInput));
    }
}

#[test]
fn unknown_extension_round_trip() {
    let bytes = [0x12, 0x34, 0x00, 0x04, 0xde, 0xad, 0xbe, 0xef];
    let (ext, n) = Extension::decode(&bytes).unwrap();
    assert_eq!(n, 8);
    assert_eq!(ext.extension_type, ExtensionType::Unknown(0x1234));
    assert_eq!(ext.extension_data, vec![0xde, 0xad, 0xbe, 0xef]);
    let mut out = Vec::new();
    ext.encode(&mut out);
    assert_eq!(out, bytes.to_vec());
    let body = decode_extension_body(&ext, MessageContext::ClientHello).unwrap();
    assert!(matches!(body, ExtensionBody::Opaque(_)));
}

#[test]
fn extension_truncations_fail() {
    let bytes = [0x12, 0x34, 0x00, 0x04, 0xde, 0xad, 0xbe, 0xef];
    for k in 0..bytes.len() {
        assert_eq!(Extension::decode(&bytes[..k]).err(), Some(DecodeError::TruncatedInput));
    }
}

#[test]
fn handshake_shorter_than_declared_is_truncated() {
    let bytes = [0x14, 0x00, 0x00, 0x0a, 1, 2, 3, 4, 5, 6, 7, 8];
    assert_eq!(Handshake::decode(&bytes).err(), Some(DecodeError::TruncatedInput));
}

#[test]
fn key_share_client_hello_groups_are_named() {
    let shares = key_share_client_hello_bytes();
    let mut ext_list = vec![0x00, 0x33, 0x00, shares.len() as u8];
    ext_list.extend_from_slice(&shares);
    let mut list = vec![0x00, ext_list.len() as u8];
    list.extend_from_slice(&ext_list);
    let (exts, n) = decode_extensions(&list).unwrap();
    assert_eq!(n, list.len());
    assert_eq!(exts.len(), 1);
    assert_eq!(exts[0].extension_type, ExtensionType::KeyShare);
    match decode_extension_body(&exts[0], MessageContext::ClientHello).unwrap() {
        ExtensionBody::KeyShareClientHello(ks) => {
            assert_eq!(ks.client_shares.len(), 2);
            assert_eq!(ks.client_shares[0].group, NamedGroup::X25519);
            assert_eq!(ks.client_shares[1].group, NamedGroup::X25519);
            assert_eq!(ks.client_shares[0].key_exchange, vec![0x11; 32]);
            assert_eq!(ks.client_shares[1].key_exchange, vec![0x22; 32]);
        }
        _ => panic!("expected client key shares"),
    }
    let mut out = Vec::new();
    encode_extensions(&exts, &mut out);
    assert_eq!(out, list);
}

#[test]
fn key_share_depends_on_direction() {
    let ext = Extension { extension_type: ExtensionType::KeyShare, extension_data: vec![0x00, 0x1d] };
    match decode_extension_body(&ext, MessageContext::HelloRetryRequest).unwrap() {
        ExtensionBody::KeyShareHelloRetryRequest(k) => assert_eq!(k.selected_group, NamedGroup::X25519),
        _ => panic!("expected a selected group"),
    }
    assert_eq!(
        decode_extension_body(&ext, MessageContext::ServerHello).err(),
        Some(DecodeError::TruncatedInput)
    );
}

#[test]
fn supported_versions_by_direction() {
    let client = Extension {
        extension_type: ExtensionType::SupportedVersions,
        extension_data: vec![0x04, 0x03, 0x04, 0x03, 0x03],
    };
    match decode_extension_body(&client, MessageContext::ClientHello).unwrap() {
        ExtensionBody::SupportedVersionsClient(v) => assert_eq!(v.versions, vec![0x0304, 0x0303]),
        _ => panic!("expected client versions"),
    }
    let server = Extension { extension_type: ExtensionType::SupportedVersions, extension_data: vec![0x03, 0x04] };
    match decode_extension_body(&server, MessageContext::ServerHello).unwrap() {
        ExtensionBody::SupportedVersionsServer(v) => assert_eq!(v.selected_version, 0x0304),
        _ => panic!("expected a selected version"),
    }
    let back = ExtensionBody::SupportedVersionsClient(SupportedVersionsClient { versions: vec![0x0304] })
        .to_extension();
    assert_eq!(back.extension_type, ExtensionType::SupportedVersions);
    assert_eq!(back.extension_data, vec![0x02, 0x03, 0x04]);
}

#[test]
fn odd_version_list_is_invalid() {
    let ext = Extension {
        extension_type: ExtensionType::SupportedVersions,
        extension_data: vec![0x03, 0x03, 0x04, 0x03],
    };
    assert_eq!(
        decode_extension_body(&ext, MessageContext::ClientHello).err(),
        Some(DecodeError::InvalidVectorLength)
    );
}

#[test]
fn extension_body_with_trailing_bytes_is_refused() {
    let ext = Extension { extension_type: ExtensionType::SupportedVersions, extension_data: vec![0x03, 0x04, 0x00] };
    assert_eq!(
        decode_extension_body(&ext, MessageContext::ServerHello).err(),
        Some(DecodeError::LengthMismatch)
    );
}

#[test]
fn early_data_by_message() {
    let ticket = Extension { extension_type: ExtensionType::EarlyData, extension_data: vec![0, 0, 0x40, 0] };
    match decode_extension_body(&ticket, MessageContext::NewSessionTicket).unwrap() {
        ExtensionBody::EarlyData(e) => assert_eq!(e, EarlyDataIndication::MaxEarlyDataSize(16384)),
        _ => panic!("expected early data"),
    }
    let hello = Extension { extension_type: ExtensionType::EarlyData, extension_data: vec![] };
    match decode_extension_body(&hello, MessageContext::ClientHello).unwrap() {
        ExtensionBody::EarlyData(e) => assert_eq!(e, EarlyDataIndication::Empty),
        _ => panic!("expected early data"),
    }
}

#[test]
fn signature_algorithms_keep_private_and_unknown_codes() {
    let ext = Extension {
        extension_type: ExtensionType::SignatureAlgorithms,
        extension_data: vec![0x00, 0x06, 0x08, 0x07, 0xfe, 0x01, 0x12, 0x34],
    };
    match decode_extension_body(&ext, MessageContext::CertificateRequest).unwrap() {
        ExtensionBody::SignatureAlgorithms(l) => {
            assert_eq!(
                l.supported_signature_algorithms,
                vec![SignatureScheme::Ed25519, SignatureScheme::PrivateUse(0xfe01), SignatureScheme::Unknown(0x1234)]
            );
            let back = ExtensionBody::SignatureAlgorithms(l).to_extension();
            assert_eq!(back.extension_data, ext.extension_data);
        }
        _ => panic!("expected signature algorithms"),
    }
}

#[test]
fn empty_certificate_round_trip() {
    let body = HandshakeBody::Certificate(Certificate { certificate_request_context: vec![], certificate_list: vec![] });
    let hs = Handshake::new(HandshakeType::Certificate, body).unwrap();
    assert_eq!(hs.length, 4);
    let mut out = Vec::new();
    hs.encode(&mut out);
    assert_eq!(out, vec![0x0b, 0x00, 0x00, 0x04, 0x00, 0x00, 0x00, 0x00]);
    let (back, n) = Handshake::decode(&out).unwrap();
    assert_eq!(n, 8);
    match back.body {
        HandshakeBody::Certificate(c) => {
            assert!(c.certificate_list.is_empty());
            assert!(c.certificate_request_context.is_empty());
        }
        _ => panic!("expected a certificate"),
    }
}

#[test]
fn client_hello_round_trip() {
    let hello = ClientHello {
        legacy_version: 0x0303,
        random: vec![5u8; 32],
        legacy_session_id: vec![1, 2, 3],
        cipher_suites: vec![0x1301, 0x1302],
        legacy_compression_methods: vec![0],
        extensions: vec![
            Extension { extension_type: ExtensionType::SupportedVersions, extension_data: vec![0x02, 0x03, 0x04] },
            Extension { extension_type: ExtensionType::Unknown(0xabcd), extension_data: vec![9] },
        ],
    };
    let hs = Handshake::new(HandshakeType::ClientHello, HandshakeBody::ClientHello(hello)).unwrap();
    let mut out = Vec::new();
    hs.encode(&mut out);
    assert_eq!(out.len(), 4 + hs.length as usize);
    let (back, n) = Handshake::decode(&out).unwrap();
    assert_eq!(n, out.len());
    let mut again = Vec::new();
    back.encode(&mut again);
    assert_eq!(again, out);
    match back.body {
        HandshakeBody::ClientHello(c) => {
            assert_eq!(c.cipher_suites, vec![0x1301, 0x1302]);
            assert_eq!(c.legacy_session_id, vec![1, 2, 3]);
            assert_eq!(c.extensions.len(), 2);
            assert_eq!(c.extensions[1].extension_type, ExtensionType::Unknown(0xabcd));
        }
        _ => panic!("expected a client hello"),
    }
}

#[test]
fn odd_cipher_suite_list_is_invalid() {
    let mut body = vec![0x03, 0x03];
    body.extend_from_slice(&[0u8; 32]);
    body.extend_from_slice(&[0x00, 0x00, 0x03, 0x13, 0x01, 0x13, 0x01, 0x00, 0x00, 0x00]);
    assert_eq!(
        decode_handshake_body(HandshakeType::ClientHello, &body).err(),
        Some(DecodeError::InvalidVectorLength)
    );
}

#[test]
fn handshake_body_with_trailing_bytes_is_refused() {
    let bytes = [0x18, 0x00, 0x00, 0x02, 0x01, 0x00];
    assert_eq!(Handshake::decode(&bytes).err(), Some(DecodeError::LengthMismatch));
}

#[test]
fn key_update_and_unknown_message() {
    let (hs, _) = Handshake::decode(&[0x18, 0x00, 0x00, 0x01, 0x07]).unwrap();
    match hs.body {
        HandshakeBody::KeyUpdate(k) => assert_eq!(k.request_update, KeyUpdateRequest::Unknown(7)),
        _ => panic!("expected a key update"),
    }
    let bytes = [0x63, 0x00, 0x00, 0x02, 0xaa, 0xbb];
    let (hs, n) = Handshake::decode(&bytes).unwrap();
    assert_eq!(n, 6);
    assert_eq!(hs.msg_type, HandshakeType::Unknown(0x63));
    match &hs.body {
        HandshakeBody::Unknown(d) => assert_eq!(d, &vec![0xaa, 0xbb]),
        _ => panic!("expected an opaque body"),
    }
    let mut out = Vec::new();
    hs.encode(&mut out);
    assert_eq!(out, bytes.to_vec());
}

#[test]
fn finished_takes_the_whole_body() {
    let bytes = [0x14, 0x00, 0x00, 0x03, 1, 2, 3];
    let (hs, _) = Handshake::decode(&bytes).unwrap();
    match hs.body {
        HandshakeBody::Finished(f) => assert_eq!(f.verify_data, vec![1, 2, 3]),
        _ => panic!("expected finished"),
    }
}

#[test]
fn alert_round_trip() {
    let (a, n) = Alert::decode(&[0x02, 0x32]).unwrap();
    assert_eq!(n, 2);
    assert_eq!(a.level, AlertLevel::Fatal);
    assert_eq!(a.description, AlertDescription::DecodeError);
    let (u, _) = Alert::decode(&[0x09, 0xfa]).unwrap();
    assert_eq!(u.level, AlertLevel::Unknown(9));
    assert_eq!(u.description, AlertDescription::Unknown(0xfa));
    let mut out = Vec::new();
    u.encode(&mut out);
    assert_eq!(out, vec![0x09, 0xfa]);
    assert_eq!(Alert::decode(&[0x02]).err(), Some(DecodeError::TruncatedInput));
}

#[test]
fn every_byte_code_round_trips() {
    for c in 0..=255u8 {
        assert_eq!(ContentType::from_code(c).to_code(), c);
        assert_eq!(HandshakeType::from_code(c).to_code(), c);
        assert_eq!(AlertLevel::from_code(c).to_code(), c);
        assert_eq!(AlertDescription::from_code(c).to_code(), c);
        assert_eq!(PskKeyExchangeMode::from_code(c).to_code(), c);
        assert_eq!(KeyUpdateRequest::from_code(c).to_code(), c);
        assert_eq!(u8::from(HandshakeType::from(c)), c);
    }
}

#[test]
fn unknown_codes_are_kept() {
    assert_eq!(ContentType::from_code(99), ContentType::Unknown(99));
    assert_eq!(HandshakeType::from(3u8), HandshakeType::Unknown(3));
    assert_eq!(HandshakeType::from(1u8), HandshakeType::ClientHello);
    assert_eq!(u8::from(HandshakeType::MessageHash), 254);
    assert_eq!(AlertLevel::from_code(3), AlertLevel::Unknown(3));
    assert_eq!(AlertDescription::from_code(1), AlertDescription::Unknown(1));
    assert_eq!(PskKeyExchangeMode::from_code(2), PskKeyExchangeMode::Unknown(2));
    assert_eq!(KeyUpdateRequest::from_code(2), KeyUpdateRequest::Unknown(2));
    assert_eq!(ExtensionType::from_code(0x1234), ExtensionType::Unknown(0x1234));
    assert_eq!(CipherSuite::from_code(0x1306), CipherSuite::Unknown(0x1306));
    assert_eq!(CipherSuite::from_code(0x1303), CipherSuite::TlsChacha20Poly1305Sha256);
    assert_eq!(SignatureScheme::from_code(0x0402), SignatureScheme::Unknown(0x0402));
    assert_eq!(SignatureScheme::from_code(0xffff), SignatureScheme::PrivateUse(0xffff));
    assert_eq!(NamedGroup::from_code(0x01fd), NamedGroup::FfdhePrivateUse(0x01fd));
    assert_eq!(NamedGroup::from_code(0xfe10), NamedGroup::EcdhePrivateUse(0xfe10));
    assert_eq!(NamedGroup::from_code(0xff10), NamedGroup::Unknown(0xff10));
    assert_eq!(NamedGroup::from_code(0x001d), NamedGroup::X25519);
}

#[test]
fn every_two_byte_code_round_trips() {
    for c in 0..=0xffffu16 {
        assert_eq!(ExtensionType::from_code(c).to_code(), c);
        assert_eq!(SignatureScheme::from_code(c).to_code(), c);
        assert_eq!(NamedGroup::from_code(c).to_code(), c);
        assert_eq!(CipherSuite::from_code(c).to_code(), c);
    }
}

#[test]
fn key_share_entry_round_trip() {
    let e = KeyShareEntry { group: NamedGroup::Secp256r1, key_exchange: vec![4, 5, 6] };
    let mut out = Vec::new();
    e.encode(&mut out);
    assert_eq!(out, vec![0x00, 0x17, 0x00, 0x03, 4, 5, 6]);
    let (back, n) = KeyShareEntry::decode(&out).unwrap();
    assert_eq!(n, 7);
    assert_eq!(back.group, NamedGroup::Secp256r1);
    assert_eq!(back.key_exchange, vec![4, 5, 6]);
}

#[test]
fn bare_bodies_cut_short_are_truncated() {
    let e = KeyShareEntry { group: NamedGroup::X448, key_exchange: vec![1, 2, 3, 4] };
    let mut out = Vec::new();
    e.encode(&mut out);
    for k in 0..out.len() {
        assert_eq!(KeyShareEntry::decode(&out[..k]).err(), Some(DecodeError::TruncatedInput));
    }
    let body = server_hello_bytes(&[3u8; 32]);
    for k in 4..body.len() {
        assert_eq!(ServerHello::decode(&body[4..k]).err(), Some(DecodeError::TruncatedInput));
    }
}

#[test]
fn new_session_ticket_round_trip() {
    let early = ExtensionBody::EarlyData(EarlyDataIndication::MaxEarlyDataSize(1024)).to_extension();
    assert_eq!(early.extension_data, vec![0, 0, 4, 0]);
    let ticket = NewSessionTicket {
        ticket_lifetime: 7200,
        ticket_age_add: 0xdeadbeef,
        ticket_nonce: vec![0],
        ticket: vec![9, 8, 7],
        extensions: vec![early],
    };
    let hs = Handshake::new(HandshakeType::NewSessionTicket, HandshakeBody::NewSessionTicket(ticket)).unwrap();
    let mut out = Vec::new();
    hs.encode(&mut out);
    assert_eq!(
        out,
        vec![
            0x04, 0x00, 0x00, 0x19, 0x00, 0x00, 0x1c, 0x20, 0xde, 0xad, 0xbe, 0xef, 0x01, 0x00, 0x00, 0x03,
            9, 8, 7, 0x00, 0x08, 0x00, 0x2a, 0x00, 0x04, 0, 0, 4, 0
        ]
    );
    let (back, _) = Handshake::decode(&out).unwrap();
    match back.body {
        HandshakeBody::NewSessionTicket(t) => {
            assert_eq!(t.ticket_lifetime, 7200);
            assert_eq!(t.ticket_age_add, 0xdeadbeef);
            match decode_extension_body(&t.extensions[0], MessageContext::NewSessionTicket).unwrap() {
                ExtensionBody::EarlyData(e) => assert_eq!(e, EarlyDataIndication::MaxEarlyDataSize(1024)),
                _ => panic!("expected early data"),
            }
        }
        _ => panic!("expected a ticket"),
    }
}

#[test]
fn certificate_verify_round_trip() {
    let cv = CertificateVerify { algorithm: SignatureScheme::RsaPssRsaeSha256, signature: vec![1, 2] };
    let hs = Handshake::new(HandshakeType::CertificateVerify, HandshakeBody::CertificateVerify(cv)).unwrap();
    let mut out = Vec::new();
    hs.encode(&mut out);
    assert_eq!(out, vec![0x0f, 0x00, 0x00, 0x06, 0x08, 0x04, 0x00, 0x02, 1, 2]);
}

#[test]
fn pre_shared_key_offer_round_trip() {
    let offer = PreSharedKeyExtensionClient {
        offered_psks: OfferedPsks {
            identities: vec![PskIdentity { identity: vec![0xaa], obfuscated_ticket_age: 5 }],
            binders: vec![vec![0xbb, 0xcc]],
        },
    };
    let ext = ExtensionBody::PreSharedKeyClient(offer).to_extension();
    assert_eq!(ext.extension_type, ExtensionType::PreSharedKey);
    assert_eq!(
        ext.extension_data,
        vec![0x00, 0x07, 0x00, 0x01, 0xaa, 0x00, 0x00, 0x00, 0x05, 0x00, 0x03, 0x02, 0xbb, 0xcc]
    );
    match decode_extension_body(&ext, MessageContext::ClientHello).unwrap() {
        ExtensionBody::PreSharedKeyClient(p) => {
            assert_eq!(p.offered_psks.identities[0].obfuscated_ticket_age, 5);
            assert_eq!(p.offered_psks.binders, vec![vec![0xbb, 0xcc]]);
        }
        _ => panic!("expected a client offer"),
    }
    let server = Extension { extension_type: ExtensionType::PreSharedKey, extension_data: vec![0x00, 0x00] };
    match decode_extension_body(&server, MessageContext::ServerHello).unwrap() {
        ExtensionBody::PreSharedKeyServer(p) => assert_eq!(p.selected_identity, 0),
        _ => panic!("expected a selected identity"),
    }
}

#[test]
fn oid_filters_and_authorities() {
    let filters = Extension {
        extension_type: ExtensionType::OidFilters,
        extension_data: vec![0x00, 0x05, 0x01, 0x2a, 0x00, 0x01, 0x07],
    };
    match decode_extension_body(&filters, MessageContext::CertificateRequest).unwrap() {
        ExtensionBody::OidFilters(f) => {
            assert_eq!(f.filters.len(), 1);
            assert_eq!(f.filters[0].certificate_extension_oid, vec![0x2a]);
            assert_eq!(f.filters[0].certificate_extension_values, vec![0x07]);
        }
        _ => panic!("expected filters"),
    }
    let cas = Extension {
        extension_type: ExtensionType::CertificateAuthorities,
        extension_data: vec![0x00, 0x04, 0x00, 0x02, 0x30, 0x00],
    };
    match decode_extension_body(&cas, MessageContext::ClientHello).unwrap() {
        ExtensionBody::CertificateAuthorities(c) => assert_eq!(c.authorities, vec![vec![0x30, 0x00]]),
        _ => panic!("expected authorities"),
    }
    let modes = Extension { extension_type: ExtensionType::PskKeyExchangeModes, extension_data: vec![0x02, 0x01, 0x07] };
    match decode_extension_body(&modes, MessageContext::ClientHello).unwrap() {
        ExtensionBody::PskKeyExchangeModes(m) => {
            assert_eq!(m.ke_modes, vec![PskKeyExchangeMode::PskDheKe, PskKeyExchangeMode::Unknown(7)])
        }
        _ => panic!("expected modes"),
    }
}
