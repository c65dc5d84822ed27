//! Handshake messages: the type and length header, and each message's body grammar.
use vstd::prelude::*;
use crate::wire::{
    DecodeError, SpecResult, be24, decoded_as, skip, views, ser_u8, ser_u16, ser_u24, ser_u32,
    ser_opaque, parse_u8, parse_u16, parse_u24, parse_u32, parse_opaque, parse_fixed, parse_vec,
    ser_list, ser_items, items_round_trip, prefix_max, valid_width, lemma_u8, lemma_u16, lemma_u24,
    lemma_u32, lemma_opaque, lemma_opaque_truncated, lemma_fixed, lemma_vec, lemma_ser_items_push,
    lemma_skip, lemma_skip_skip, read_u8, read_u16, read_u24, read_u32, read_opaque, read_fixed,
    read_vec, put_u8, put_u16, put_u24, put_u32, put_opaque, put_bytes, u16_parser, u16_writer,
};
use crate::vectors::{u16_vec_wf, lemma_u16_vec, write_u16_vec};
use crate::codes::{HandshakeType, SignatureScheme, KeyUpdateRequest};
use crate::extension::{
    Extension, ExtensionModel, extension_writer, extensions_wf, ser_extensions, parse_extensions,
    lemma_extensions_round_trip, decode_extensions, encode_extensions,
};
use crate::ext_body::exactly;

verus! {

/// The first message a client sends.
pub struct ClientHello {
    pub legacy_version: u16,
    pub random: Vec<u8>,
    pub legacy_session_id: Vec<u8>,
    pub cipher_suites: Vec<u16>,
    pub legacy_compression_methods: Vec<u8>,
    pub extensions: Vec<Extension>,
}

pub ghost struct ClientHelloModel {
    pub legacy_version: u16,
    pub random: Seq<u8>,
    pub legacy_session_id: Seq<u8>,
    pub cipher_suites: Seq<u16>,
    pub legacy_compression_methods: Seq<u8>,
    pub extensions: Seq<ExtensionModel>,
}

impl View for ClientHello {
    type V = ClientHelloModel;

    open spec fn view(&self) -> ClientHelloModel {
        ClientHelloModel { legacy_version: self.legacy_version, random: self.random@, legacy_session_id: self.legacy_session_id@, cipher_suites: views(self.cipher_suites@), legacy_compression_methods: self.legacy_compression_methods@, extensions: views(self.extensions@) }
    }
}

impl ClientHelloModel {
    pub open spec fn wf(self) -> bool {
        let m = self;
        &&& m.random.len() == 32
        &&& m.legacy_session_id.len() <= 255
        &&& u16_vec_wf(m.cipher_suites, 2)
        &&& m.legacy_compression_methods.len() <= 255
        &&& extensions_wf(m.extensions)
    }
}

#[verifier::opaque]
pub open spec fn ser_client_hello(m: ClientHelloModel) -> Seq<u8> {
    ser_u16(m.legacy_version) + m.random + ser_opaque(1, m.legacy_session_id) + ser_list(2, m.cipher_suites, u16_writer()) + ser_opaque(1, m.legacy_compression_methods) + ser_extensions(m.extensions)
}

#[verifier::opaque]
pub open spec fn parse_client_hello(s: Seq<u8>) -> SpecResult<ClientHelloModel> {
    match parse_u16(s) {
        Err(e) => Err(e),
        Ok((v0, n0)) => 
        match parse_fixed(32, skip(s, n0)) {
            Err(e) => Err(e),
            Ok((v1, n1)) => 
            match parse_opaque(1, skip(s, n0 + n1)) {
                Err(e) => Err(e),
                Ok((v2, n2)) => 
                match parse_vec(2, 2, skip(s, n0 + n1 + n2), u16_parser()) {
                    Err(e) => Err(e),
                    Ok((v3, n3)) => 
                    match parse_opaque(1, skip(s, n0 + n1 + n2 + n3)) {
                        Err(e) => Err(e),
                        Ok((v4, n4)) => 
                        match parse_extensions(skip(s, n0 + n1 + n2 + n3 + n4)) {
                            Err(e) => Err(e),
                            Ok((v5, n5)) => Ok((ClientHelloModel { legacy_version: v0, random: v1, legacy_session_id: v2, cipher_suites: v3, legacy_compression_methods: v4, extensions: v5 }, n0 + n1 + n2 + n3 + n4 + n5)),
                        },
                    },
                },
            },
        },
    }
}

/// Decoding the encoding of a well-formed value gives it back, whatever follows.
#[verifier::rlimit(100)]
pub proof fn lemma_client_hello_round_trip(m: ClientHelloModel, rest: Seq<u8>)
    requires
        m.wf(),
    ensures
        parse_client_hello(ser_client_hello(m) + rest) == Ok::<(ClientHelloModel, nat), DecodeError>((m, ser_client_hello(m).len())),
        ser_client_hello(m).len() > 0,
{
    reveal(parse_client_hello);
    reveal(ser_client_hello);
    let a0 = ser_u16(m.legacy_version);
    let a1 = m.random;
    let a2 = ser_opaque(1, m.legacy_session_id);
    let a3 = ser_list(2, m.cipher_suites, u16_writer());
    let a4 = ser_opaque(1, m.legacy_compression_methods);
    let a5 = ser_extensions(m.extensions);
    let s = ser_client_hello(m) + rest;
    assert(s =~= (a0 + (a1 + (a2 + (a3 + (a4 + (a5 + rest)))))));
    lemma_u16(m.legacy_version, (a1 + (a2 + (a3 + (a4 + (a5 + rest))))));
    lemma_skip(a0, (a1 + (a2 + (a3 + (a4 + (a5 + rest))))));
    lemma_fixed(m.random, (a2 + (a3 + (a4 + (a5 + rest)))));
    lemma_skip(a1, (a2 + (a3 + (a4 + (a5 + rest)))));
    lemma_skip_skip(s, (a0.len()) as nat, a1.len());
    lemma_opaque(1, m.legacy_session_id, (a3 + (a4 + (a5 + rest))));
    lemma_skip(a2, (a3 + (a4 + (a5 + rest))));
    lemma_skip_skip(s, (a0.len() + a1.len()) as nat, a2.len());
    lemma_u16_vec(2, m.cipher_suites, (a4 + (a5 + rest)));
    lemma_skip(a3, (a4 + (a5 + rest)));
    lemma_skip_skip(s, (a0.len() + a1.len() + a2.len()) as nat, a3.len());
    lemma_opaque(1, m.legacy_compression_methods, (a5 + rest));
    lemma_skip(a4, (a5 + rest));
    lemma_skip_skip(s, (a0.len() + a1.len() + a2.len() + a3.len()) as nat, a4.len());
    lemma_extensions_round_trip(m.extensions, rest);
}

/// A well-formed value cut short by any number of bytes is refused as truncated.
#[verifier::rlimit(100)]
pub proof fn lemma_client_hello_truncated(m: ClientHelloModel, k: nat)
    requires
        m.wf(),
        k < ser_client_hello(m).len(),
    ensures
        parse_client_hello(ser_client_hello(m).take(k as int)) == Err::<(ClientHelloModel, nat), DecodeError>(
            DecodeError::TruncatedInput,
        ),
{
    reveal(parse_client_hello);
    reveal(ser_client_hello);
    let a0 = ser_u16(m.legacy_version);
    let a1 = m.random;
    let a2 = ser_opaque(1, m.legacy_session_id);
    let a3 = ser_list(2, m.cipher_suites, u16_writer());
    let a4 = ser_opaque(1, m.legacy_compression_methods);
    let a5 = ser_extensions(m.extensions);
    let t = ser_client_hello(m).take(k as int);
    if k < a0.len() {
        let u0 = a0.take(k - (0));
        assert(t =~= u0);
    } else if k < a0.len() + a1.len() {
        let u1 = a1.take(k - (a0.len()));
        assert(t =~= (a0 + u1));
        lemma_u16(m.legacy_version, u1);
        lemma_skip(a0, u1);
    } else if k < a0.len() + a1.len() + a2.len() {
        let u2 = a2.take(k - (a0.len() + a1.len()));
        assert(t =~= (a0 + (a1 + u2)));
        lemma_u16(m.legacy_version, (a1 + u2));
        lemma_skip(a0, (a1 + u2));
        lemma_fixed(m.random, u2);
        lemma_skip(a1, u2);
        lemma_skip_skip(t, (a0.len()) as nat, a1.len());
        lemma_opaque(1, m.legacy_session_id, Seq::empty()); lemma_opaque_truncated(1, m.legacy_session_id, (k - (a0.len() + a1.len())) as nat);
    } else if k < a0.len() + a1.len() + a2.len() + a3.len() {
        let u3 = a3.take(k - (a0.len() + a1.len() + a2.len()));
        assert(t =~= (a0 + (a1 + (a2 + u3))));
        lemma_u16(m.legacy_version, (a1 + (a2 + u3)));
        lemma_skip(a0, (a1 + (a2 + u3)));
        lemma_fixed(m.random, (a2 + u3));
        lemma_skip(a1, (a2 + u3));
        lemma_skip_skip(t, (a0.len()) as nat, a1.len());
        lemma_opaque(1, m.legacy_session_id, u3);
        lemma_skip(a2, u3);
        lemma_skip_skip(t, (a0.len() + a1.len()) as nat, a2.len());
        lemma_opaque(2, ser_items(m.cipher_suites, u16_writer()), Seq::empty()); lemma_opaque_truncated(2, ser_items(m.cipher_suites, u16_writer()), (k - (a0.len() + a1.len() + a2.len())) as nat);
    } else if k < a0.len() + a1.len() + a2.len() + a3.len() + a4.len() {
        let u4 = a4.take(k - (a0.len() + a1.len() + a2.len() + a3.len()));
        assert(t =~= (a0 + (a1 + (a2 + (a3 + u4)))));
        lemma_u16(m.legacy_version, (a1 + (a2 + (a3 + u4))));
        lemma_skip(a0, (a1 + (a2 + (a3 + u4))));
        lemma_fixed(m.random, (a2 + (a3 + u4)));
        lemma_skip(a1, (a2 + (a3 + u4)));
        lemma_skip_skip(t, (a0.len()) as nat, a1.len());
        lemma_opaque(1, m.legacy_session_id, (a3 + u4));
        lemma_skip(a2, (a3 + u4));
        lemma_skip_skip(t, (a0.len() + a1.len()) as nat, a2.len());
        lemma_u16_vec(2, m.cipher_suites, u4);
        lemma_skip(a3, u4);
        lemma_skip_skip(t, (a0.len() + a1.len() + a2.len()) as nat, a3.len());
        lemma_opaque(1, m.legacy_compression_methods, Seq::empty()); lemma_opaque_truncated(1, m.legacy_compression_methods, (k - (a0.len() + a1.len() + a2.len() + a3.len())) as nat);
    } else {
        let u5 = a5.take(k - (a0.len() + a1.len() + a2.len() + a3.len() + a4.len()));
        assert(t =~= (a0 + (a1 + (a2 + (a3 + (a4 + u5))))));
        lemma_u16(m.legacy_version, (a1 + (a2 + (a3 + (a4 + u5)))));
        lemma_skip(a0, (a1 + (a2 + (a3 + (a4 + u5)))));
        lemma_fixed(m.random, (a2 + (a3 + (a4 + u5))));
        lemma_skip(a1, (a2 + (a3 + (a4 + u5))));
        lemma_skip_skip(t, (a0.len()) as nat, a1.len());
        lemma_opaque(1, m.legacy_session_id, (a3 + (a4 + u5)));
        lemma_skip(a2, (a3 + (a4 + u5)));
        lemma_skip_skip(t, (a0.len() + a1.len()) as nat, a2.len());
        lemma_u16_vec(2, m.cipher_suites, (a4 + u5));
        lemma_skip(a3, (a4 + u5));
        lemma_skip_skip(t, (a0.len() + a1.len() + a2.len()) as nat, a3.len());
        lemma_opaque(1, m.legacy_compression_methods, u5);
        lemma_skip(a4, u5);
        lemma_skip_skip(t, (a0.len() + a1.len() + a2.len() + a3.len()) as nat, a4.len());
        lemma_opaque(2, ser_items(m.extensions, extension_writer()), Seq::empty()); lemma_opaque_truncated(2, ser_items(m.extensions, extension_writer()), (k - (a0.len() + a1.len() + a2.len() + a3.len() + a4.len())) as nat);
    }
}

impl ClientHello {
    pub fn decode(s: &[u8]) -> (r: Result<(Self, usize), DecodeError>)
        ensures
            decoded_as(r, parse_client_hello(s@)),
            r is Ok ==> r->Ok_0.1 <= s@.len(),
    {
        proof {
            reveal(parse_client_hello);
        }
        let mut off: usize = 0;
        let (v0, n0) = read_u16(s)?;
        off = off + n0;
        let t1 = vstd::slice::slice_subrange(s, off, s.len());
        assert(t1@ == skip(s@, off as nat));
        let (v1, n1) = read_fixed(t1, 32)?;
        off = off + n1;
        let t2 = vstd::slice::slice_subrange(s, off, s.len());
        assert(t2@ == skip(s@, off as nat));
        let (v2, n2) = read_opaque(t2, 1)?;
        off = off + n2;
        let t3 = vstd::slice::slice_subrange(s, off, s.len());
        assert(t3@ == skip(s@, off as nat));
        let (v3, n3) = read_vec(t3, 2, 2, read_u16, Ghost(u16_parser()))?;
        off = off + n3;
        let t4 = vstd::slice::slice_subrange(s, off, s.len());
        assert(t4@ == skip(s@, off as nat));
        let (v4, n4) = read_opaque(t4, 1)?;
        off = off + n4;
        let t5 = vstd::slice::slice_subrange(s, off, s.len());
        assert(t5@ == skip(s@, off as nat));
        let (v5, n5) = decode_extensions(t5)?;
        off = off + n5;
        Ok((ClientHello { legacy_version: v0, random: v1, legacy_session_id: v2, cipher_suites: v3, legacy_compression_methods: v4, extensions: v5 }, off))
    }

    pub fn encode(&self, out: &mut Vec<u8>)
        requires
            self@.wf(),
        ensures
            final(out)@ == old(out)@ + ser_client_hello(self@),
    {
        proof {
            reveal(ser_client_hello);
        }
        put_u16(out, self.legacy_version);
        put_bytes(out, self.random.as_slice());
        put_opaque(out, 1, self.legacy_session_id.as_slice());
        write_u16_vec(&self.cipher_suites, 2, out);
        put_opaque(out, 1, self.legacy_compression_methods.as_slice());
        encode_extensions(&self.extensions, out);
        assert(out@ =~= old(out)@ + ser_client_hello(self@));
    }
}

/// A server's answer to a ClientHello; with the retry random it asks for a new one.
pub struct ServerHello {
    pub legacy_version: u16,
    pub random: Vec<u8>,
    pub legacy_session_id_echo: Vec<u8>,
    pub cipher_suite: u16,
    pub legacy_compression_method: u8,
    pub extensions: Vec<Extension>,
}

pub ghost struct ServerHelloModel {
    pub legacy_version: u16,
    pub random: Seq<u8>,
    pub legacy_session_id_echo: Seq<u8>,
    pub cipher_suite: u16,
    pub legacy_compression_method: u8,
    pub extensions: Seq<ExtensionModel>,
}

impl View for ServerHello {
    type V = ServerHelloModel;

    open spec fn view(&self) -> ServerHelloModel {
        ServerHelloModel { legacy_version: self.legacy_version, random: self.random@, legacy_session_id_echo: self.legacy_session_id_echo@, cipher_suite: self.cipher_suite, legacy_compression_method: self.legacy_compression_method, extensions: views(self.extensions@) }
    }
}

impl ServerHelloModel {
    pub open spec fn wf(self) -> bool {
        let m = self;
        &&& m.random.len() == 32
        &&& m.legacy_session_id_echo.len() <= 255
        &&& extensions_wf(m.extensions)
    }
}

#[verifier::opaque]
pub open spec fn ser_server_hello(m: ServerHelloModel) -> Seq<u8> {
    ser_u16(m.legacy_version) + m.random + ser_opaque(1, m.legacy_session_id_echo) + ser_u16(m.cipher_suite) + ser_u8(m.legacy_compression_method) + ser_extensions(m.extensions)
}

#[verifier::opaque]
pub open spec fn parse_server_hello(s: Seq<u8>) -> SpecResult<ServerHelloModel> {
    match parse_u16(s) {
        Err(e) => Err(e),
        Ok((v0, n0)) => 
        match parse_fixed(32, skip(s, n0)) {
            Err(e) => Err(e),
            Ok((v1, n1)) => 
            match parse_opaque(1, skip(s, n0 + n1)) {
                Err(e) => Err(e),
                Ok((v2, n2)) => 
                match parse_u16(skip(s, n0 + n1 + n2)) {
                    Err(e) => Err(e),
                    Ok((v3, n3)) => 
                    match parse_u8(skip(s, n0 + n1 + n2 + n3)) {
                        Err(e) => Err(e),
                        Ok((v4, n4)) => 
                        match parse_extensions(skip(s, n0 + n1 + n2 + n3 + n4)) {
                            Err(e) => Err(e),
                            Ok((v5, n5)) => Ok((ServerHelloModel { legacy_version: v0, random: v1, legacy_session_id_echo: v2, cipher_suite: v3, legacy_compression_method: v4, extensions: v5 }, n0 + n1 + n2 + n3 + n4 + n5)),
                        },
                    },
                },
            },
        },
    }
}

/// Decoding the encoding of a well-formed value gives it back, whatever follows.
#[verifier::rlimit(100)]
pub proof fn lemma_server_hello_round_trip(m: ServerHelloModel, rest: Seq<u8>)
    requires
        m.wf(),
    ensures
        parse_server_hello(ser_server_hello(m) + rest) == Ok::<(ServerHelloModel, nat), DecodeError>((m, ser_server_hello(m).len())),
        ser_server_hello(m).len() > 0,
{
    reveal(parse_server_hello);
    reveal(ser_server_hello);
    let a0 = ser_u16(m.legacy_version);
    let a1 = m.random;
    let a2 = ser_opaque(1, m.legacy_session_id_echo);
    let a3 = ser_u16(m.cipher_suite);
    let a4 = ser_u8(m.legacy_compression_method);
    let a5 = ser_extensions(m.extensions);
    let s = ser_server_hello(m) + rest;
    assert(s =~= (a0 + (a1 + (a2 + (a3 + (a4 + (a5 + rest)))))));
    lemma_u16(m.legacy_version, (a1 + (a2 + (a3 + (a4 + (a5 + rest))))));
    lemma_skip(a0, (a1 + (a2 + (a3 + (a4 + (a5 + rest))))));
    lemma_fixed(m.random, (a2 + (a3 + (a4 + (a5 + rest)))));
    lemma_skip(a1, (a2 + (a3 + (a4 + (a5 + rest)))));
    lemma_skip_skip(s, (a0.len()) as nat, a1.len());
    lemma_opaque(1, m.legacy_session_id_echo, (a3 + (a4 + (a5 + rest))));
    lemma_skip(a2, (a3 + (a4 + (a5 + rest))));
    lemma_skip_skip(s, (a0.len() + a1.len()) as nat, a2.len());
    lemma_u16(m.cipher_suite, (a4 + (a5 + rest)));
    lemma_skip(a3, (a4 + (a5 + rest)));
    lemma_skip_skip(s, (a0.len() + a1.len() + a2.len()) as nat, a3.len());
    lemma_u8(m.legacy_compression_method, (a5 + rest));
    lemma_skip(a4, (a5 + rest));
    lemma_skip_skip(s, (a0.len() + a1.len() + a2.len() + a3.len()) as nat, a4.len());
    lemma_extensions_round_trip(m.extensions, rest);
}

/// A well-formed value cut short by any number of bytes is refused as truncated.
#[verifier::rlimit(100)]
pub proof fn lemma_server_hello_truncated(m: ServerHelloModel, k: nat)
    requires
        m.wf(),
        k < ser_server_hello(m).len(),
    ensures
        parse_server_hello(ser_server_hello(m).take(k as int)) == Err::<(ServerHelloModel, nat), DecodeError>(
            DecodeError::TruncatedInput,
        ),
{
    reveal(parse_server_hello);
    reveal(ser_server_hello);
    let a0 = ser_u16(m.legacy_version);
    let a1 = m.random;
    let a2 = ser_opaque(1, m.legacy_session_id_echo);
    let a3 = ser_u16(m.cipher_suite);
    let a4 = ser_u8(m.legacy_compression_method);
    let a5 = ser_extensions(m.extensions);
    let t = ser_server_hello(m).take(k as int);
    if k < a0.len() {
        let u0 = a0.take(k - (0));
        assert(t =~= u0);
    } else if k < a0.len() + a1.len() {
        let u1 = a1.take(k - (a0.len()));
        assert(t =~= (a0 + u1));
        lemma_u16(m.legacy_version, u1);
        lemma_skip(a0, u1);
    } else if k < a0.len() + a1.len() + a2.len() {
        let u2 = a2.take(k - (a0.len() + a1.len()));
        assert(t =~= (a0 + (a1 + u2)));
        lemma_u16(m.legacy_version, (a1 + u2));
        lemma_skip(a0, (a1 + u2));
        lemma_fixed(m.random, u2);
        lemma_skip(a1, u2);
        lemma_skip_skip(t, (a0.len()) as nat, a1.len());
        lemma_opaque(1, m.legacy_session_id_echo, Seq::empty()); lemma_opaque_truncated(1, m.legacy_session_id_echo, (k - (a0.len() + a1.len())) as nat);
    } else if k < a0.len() + a1.len() + a2.len() + a3.len() {
        let u3 = a3.take(k - (a0.len() + a1.len() + a2.len()));
        assert(t =~= (a0 + (a1 + (a2 + u3))));
        lemma_u16(m.legacy_version, (a1 + (a2 + u3)));
        lemma_skip(a0, (a1 + (a2 + u3)));
        lemma_fixed(m.random, (a2 + u3));
        lemma_skip(a1, (a2 + u3));
        lemma_skip_skip(t, (a0.len()) as nat, a1.len());
        lemma_opaque(1, m.legacy_session_id_echo, u3);
        lemma_skip(a2, u3);
        lemma_skip_skip(t, (a0.len() + a1.len()) as nat, a2.len());
    } else if k < a0.len() + a1.len() + a2.len() + a3.len() + a4.len() {
        let u4 = a4.take(k - (a0.len() + a1.len() + a2.len() + a3.len()));
        assert(t =~= (a0 + (a1 + (a2 + (a3 + u4)))));
        lemma_u16(m.legacy_version, (a1 + (a2 + (a3 + u4))));
        lemma_skip(a0, (a1 + (a2 + (a3 + u4))));
        lemma_fixed(m.random, (a2 + (a3 + u4)));
        lemma_skip(a1, (a2 + (a3 + u4)));
        lemma_skip_skip(t, (a0.len()) as nat, a1.len());
        lemma_opaque(1, m.legacy_session_id_echo, (a3 + u4));
        lemma_skip(a2, (a3 + u4));
        lemma_skip_skip(t, (a0.len() + a1.len()) as nat, a2.len());
        lemma_u16(m.cipher_suite, u4);
        lemma_skip(a3, u4);
        lemma_skip_skip(t, (a0.len() + a1.len() + a2.len()) as nat, a3.len());
    } else {
        let u5 = a5.take(k - (a0.len() + a1.len() + a2.len() + a3.len() + a4.len()));
        assert(t =~= (a0 + (a1 + (a2 + (a3 + (a4 + u5))))));
        lemma_u16(m.legacy_version, (a1 + (a2 + (a3 + (a4 + u5)))));
        lemma_skip(a0, (a1 + (a2 + (a3 + (a4 + u5)))));
        lemma_fixed(m.random, (a2 + (a3 + (a4 + u5))));
        lemma_skip(a1, (a2 + (a3 + (a4 + u5))));
        lemma_skip_skip(t, (a0.len()) as nat, a1.len());
        lemma_opaque(1, m.legacy_session_id_echo, (a3 + (a4 + u5)));
        lemma_skip(a2, (a3 + (a4 + u5)));
        lemma_skip_skip(t, (a0.len() + a1.len()) as nat, a2.len());
        lemma_u16(m.cipher_suite, (a4 + u5));
        lemma_skip(a3, (a4 + u5));
        lemma_skip_skip(t, (a0.len() + a1.len() + a2.len()) as nat, a3.len());
        lemma_u8(m.legacy_compression_method, u5);
        lemma_skip(a4, u5);
        lemma_skip_skip(t, (a0.len() + a1.len() + a2.len() + a3.len()) as nat, a4.len());
        lemma_opaque(2, ser_items(m.extensions, extension_writer()), Seq::empty()); lemma_opaque_truncated(2, ser_items(m.extensions, extension_writer()), (k - (a0.len() + a1.len() + a2.len() + a3.len() + a4.len())) as nat);
    }
}

impl ServerHello {
    pub fn decode(s: &[u8]) -> (r: Result<(Self, usize), DecodeError>)
        ensures
            decoded_as(r, parse_server_hello(s@)),
            r is Ok ==> r->Ok_0.1 <= s@.len(),
    {
        proof {
            reveal(parse_server_hello);
        }
        let mut off: usize = 0;
        let (v0, n0) = read_u16(s)?;
        off = off + n0;
        let t1 = vstd::slice::slice_subrange(s, off, s.len());
        assert(t1@ == skip(s@, off as nat));
        let (v1, n1) = read_fixed(t1, 32)?;
        off = off + n1;
        let t2 = vstd::slice::slice_subrange(s, off, s.len());
        assert(t2@ == skip(s@, off as nat));
        let (v2, n2) = read_opaque(t2, 1)?;
        off = off + n2;
        let t3 = vstd::slice::slice_subrange(s, off, s.len());
        assert(t3@ == skip(s@, off as nat));
        let (v3, n3) = read_u16(t3)?;
        off = off + n3;
        let t4 = vstd::slice::slice_subrange(s, off, s.len());
        assert(t4@ == skip(s@, off as nat));
        let (v4, n4) = read_u8(t4)?;
        off = off + n4;
        let t5 = vstd::slice::slice_subrange(s, off, s.len());
        assert(t5@ == skip(s@, off as nat));
        let (v5, n5) = decode_extensions(t5)?;
        off = off + n5;
        Ok((ServerHello { legacy_version: v0, random: v1, legacy_session_id_echo: v2, cipher_suite: v3, legacy_compression_method: v4, extensions: v5 }, off))
    }

    pub fn encode(&self, out: &mut Vec<u8>)
        requires
            self@.wf(),
        ensures
            final(out)@ == old(out)@ + ser_server_hello(self@),
    {
        proof {
            reveal(ser_server_hello);
        }
        put_u16(out, self.legacy_version);
        put_bytes(out, self.random.as_slice());
        put_opaque(out, 1, self.legacy_session_id_echo.as_slice());
        put_u16(out, self.cipher_suite);
        put_u8(out, self.legacy_compression_method);
        encode_extensions(&self.extensions, out);
        assert(out@ =~= old(out)@ + ser_server_hello(self@));
    }
}

/// Extensions a server sends under encryption.
pub struct EncryptedExtensions {
    pub extensions: Vec<Extension>,
}

pub ghost struct EncryptedExtensionsModel {
    pub extensions: Seq<ExtensionModel>,
}

impl View for EncryptedExtensions {
    type V = EncryptedExtensionsModel;

    open spec fn view(&self) -> EncryptedExtensionsModel {
        EncryptedExtensionsModel { extensions: views(self.extensions@) }
    }
}

impl EncryptedExtensionsModel {
    pub open spec fn wf(self) -> bool {
        let m = self;
        &&& extensions_wf(m.extensions)
    }
}

#[verifier::opaque]
pub open spec fn ser_encrypted_extensions(m: EncryptedExtensionsModel) -> Seq<u8> {
    ser_extensions(m.extensions)
}

#[verifier::opaque]
pub open spec fn parse_encrypted_extensions(s: Seq<u8>) -> SpecResult<EncryptedExtensionsModel> {
    match parse_extensions(s) {
        Err(e) => Err(e),
        Ok((v0, n0)) => Ok((EncryptedExtensionsModel { extensions: v0 }, n0)),
    }
}

/// Decoding the encoding of a well-formed value gives it back, whatever follows.
pub proof fn lemma_encrypted_extensions_round_trip(m: EncryptedExtensionsModel, rest: Seq<u8>)
    requires
        m.wf(),
    ensures
        parse_encrypted_extensions(ser_encrypted_extensions(m) + rest) == Ok::<(EncryptedExtensionsModel, nat), DecodeError>((m, ser_encrypted_extensions(m).len())),
        ser_encrypted_extensions(m).len() > 0,
{
    reveal(parse_encrypted_extensions);
    reveal(ser_encrypted_extensions);
    let a0 = ser_extensions(m.extensions);
    let s = ser_encrypted_extensions(m) + rest;
    assert(s =~= (a0 + rest));
    lemma_extensions_round_trip(m.extensions, rest);
}

/// A well-formed value cut short by any number of bytes is refused as truncated.
pub proof fn lemma_encrypted_extensions_truncated(m: EncryptedExtensionsModel, k: nat)
    requires
        m.wf(),
        k < ser_encrypted_extensions(m).len(),
    ensures
        parse_encrypted_extensions(ser_encrypted_extensions(m).take(k as int)) == Err::<(EncryptedExtensionsModel, nat), DecodeError>(
            DecodeError::TruncatedInput,
        ),
{
    reveal(parse_encrypted_extensions);
    reveal(ser_encrypted_extensions);
    let a0 = ser_extensions(m.extensions);
    let t = ser_encrypted_extensions(m).take(k as int);
    {
        let u0 = a0.take(k - (0));
        assert(t =~= u0);
        lemma_opaque(2, ser_items(m.extensions, extension_writer()), Seq::empty()); lemma_opaque_truncated(2, ser_items(m.extensions, extension_writer()), (k - (0)) as nat);
    }
}

impl EncryptedExtensions {
    pub fn decode(s: &[u8]) -> (r: Result<(Self, usize), DecodeError>)
        ensures
            decoded_as(r, parse_encrypted_extensions(s@)),
            r is Ok ==> r->Ok_0.1 <= s@.len(),
    {
        proof {
            reveal(parse_encrypted_extensions);
        }
        let mut off: usize = 0;
        let (v0, n0) = decode_extensions(s)?;
        off = off + n0;
        Ok((EncryptedExtensions { extensions: v0 }, off))
    }

    pub fn encode(&self, out: &mut Vec<u8>)
        requires
            self@.wf(),
        ensures
            final(out)@ == old(out)@ + ser_encrypted_extensions(self@),
    {
        proof {
            reveal(ser_encrypted_extensions);
        }
        encode_extensions(&self.extensions, out);
        assert(out@ =~= old(out)@ + ser_encrypted_extensions(self@));
    }
}

/// A server's request for a client certificate.
pub struct CertificateRequest {
    pub certificate_request_context: Vec<u8>,
    pub extensions: Vec<Extension>,
}

pub ghost struct CertificateRequestModel {
    pub certificate_request_context: Seq<u8>,
    pub extensions: Seq<ExtensionModel>,
}

impl View for CertificateRequest {
    type V = CertificateRequestModel;

    open spec fn view(&self) -> CertificateRequestModel {
        CertificateRequestModel { certificate_request_context: self.certificate_request_context@, extensions: views(self.extensions@) }
    }
}

impl CertificateRequestModel {
    pub open spec fn wf(self) -> bool {
        let m = self;
        &&& m.certificate_request_context.len() <= 255
        &&& extensions_wf(m.extensions)
    }
}

#[verifier::opaque]
pub open spec fn ser_certificate_request(m: CertificateRequestModel) -> Seq<u8> {
    ser_opaque(1, m.certificate_request_context) + ser_extensions(m.extensions)
}

#[verifier::opaque]
pub open spec fn parse_certificate_request(s: Seq<u8>) -> SpecResult<CertificateRequestModel> {
    match parse_opaque(1, s) {
        Err(e) => Err(e),
        Ok((v0, n0)) => 
        match parse_extensions(skip(s, n0)) {
            Err(e) => Err(e),
            Ok((v1, n1)) => Ok((CertificateRequestModel { certificate_request_context: v0, extensions: v1 }, n0 + n1)),
        },
    }
}

/// Decoding the encoding of a well-formed value gives it back, whatever follows.
pub proof fn lemma_certificate_request_round_trip(m: CertificateRequestModel, rest: Seq<u8>)
    requires
        m.wf(),
    ensures
        parse_certificate_request(ser_certificate_request(m) + rest) == Ok::<(CertificateRequestModel, nat), DecodeError>((m, ser_certificate_request(m).len())),
        ser_certificate_request(m).len() > 0,
{
    reveal(parse_certificate_request);
    reveal(ser_certificate_request);
    let a0 = ser_opaque(1, m.certificate_request_context);
    let a1 = ser_extensions(m.extensions);
    let s = ser_certificate_request(m) + rest;
    assert(s =~= (a0 + (a1 + rest)));
    lemma_opaque(1, m.certificate_request_context, (a1 + rest));
    lemma_skip(a0, (a1 + rest));
    lemma_extensions_round_trip(m.extensions, rest);
}

/// A well-formed value cut short by any number of bytes is refused as truncated.
pub proof fn lemma_certificate_request_truncated(m: CertificateRequestModel, k: nat)
    requires
        m.wf(),
        k < ser_certificate_request(m).len(),
    ensures
        parse_certificate_request(ser_certificate_request(m).take(k as int)) == Err::<(CertificateRequestModel, nat), DecodeError>(
            DecodeError::TruncatedInput,
        ),
{
    reveal(parse_certificate_request);
    reveal(ser_certificate_request);
    let a0 = ser_opaque(1, m.certificate_request_context);
    let a1 = ser_extensions(m.extensions);
    let t = ser_certificate_request(m).take(k as int);
    if k < a0.len() {
        let u0 = a0.take(k - (0));
        assert(t =~= u0);
        lemma_opaque(1, m.certificate_request_context, Seq::empty()); lemma_opaque_truncated(1, m.certificate_request_context, (k - (0)) as nat);
    } else {
        let u1 = a1.take(k - (a0.len()));
        assert(t =~= (a0 + u1));
        lemma_opaque(1, m.certificate_request_context, u1);
        lemma_skip(a0, u1);
        lemma_opaque(2, ser_items(m.extensions, extension_writer()), Seq::empty()); lemma_opaque_truncated(2, ser_items(m.extensions, extension_writer()), (k - (a0.len())) as nat);
    }
}

impl CertificateRequest {
    pub fn decode(s: &[u8]) -> (r: Result<(Self, usize), DecodeError>)
        ensures
            decoded_as(r, parse_certificate_request(s@)),
            r is Ok ==> r->Ok_0.1 <= s@.len(),
    {
        proof {
            reveal(parse_certificate_request);
        }
        let mut off: usize = 0;
        let (v0, n0) = read_opaque(s, 1)?;
        off = off + n0;
        let t1 = vstd::slice::slice_subrange(s, off, s.len());
        assert(t1@ == skip(s@, off as nat));
        let (v1, n1) = decode_extensions(t1)?;
        off = off + n1;
        Ok((CertificateRequest { certificate_request_context: v0, extensions: v1 }, off))
    }

    pub fn encode(&self, out: &mut Vec<u8>)
        requires
            self@.wf(),
        ensures
            final(out)@ == old(out)@ + ser_certificate_request(self@),
    {
        proof {
            reveal(ser_certificate_request);
        }
        put_opaque(out, 1, self.certificate_request_context.as_slice());
        encode_extensions(&self.extensions, out);
        assert(out@ =~= old(out)@ + ser_certificate_request(self@));
    }
}

/// One certificate of a chain and its extensions.
pub struct CertificateEntry {
    pub cert_data: Vec<u8>,
    pub extensions: Vec<Extension>,
}

pub ghost struct CertificateEntryModel {
    pub cert_data: Seq<u8>,
    pub extensions: Seq<ExtensionModel>,
}

impl View for CertificateEntry {
    type V = CertificateEntryModel;

    open spec fn view(&self) -> CertificateEntryModel {
        CertificateEntryModel { cert_data: self.cert_data@, extensions: views(self.extensions@) }
    }
}

impl CertificateEntryModel {
    pub open spec fn wf(self) -> bool {
        let m = self;
        &&& m.cert_data.len() <= 16777215
        &&& extensions_wf(m.extensions)
    }
}

#[verifier::opaque]
pub open spec fn ser_certificate_entry(m: CertificateEntryModel) -> Seq<u8> {
    ser_opaque(3, m.cert_data) + ser_extensions(m.extensions)
}

#[verifier::opaque]
pub open spec fn parse_certificate_entry(s: Seq<u8>) -> SpecResult<CertificateEntryModel> {
    match parse_opaque(3, s) {
        Err(e) => Err(e),
        Ok((v0, n0)) => 
        match parse_extensions(skip(s, n0)) {
            Err(e) => Err(e),
            Ok((v1, n1)) => Ok((CertificateEntryModel { cert_data: v0, extensions: v1 }, n0 + n1)),
        },
    }
}

/// Decoding the encoding of a well-formed value gives it back, whatever follows.
pub proof fn lemma_certificate_entry_round_trip(m: CertificateEntryModel, rest: Seq<u8>)
    requires
        m.wf(),
    ensures
        parse_certificate_entry(ser_certificate_entry(m) + rest) == Ok::<(CertificateEntryModel, nat), DecodeError>((m, ser_certificate_entry(m).len())),
        ser_certificate_entry(m).len() > 0,
{
    reveal(parse_certificate_entry);
    reveal(ser_certificate_entry);
    let a0 = ser_opaque(3, m.cert_data);
    let a1 = ser_extensions(m.extensions);
    let s = ser_certificate_entry(m) + rest;
    assert(s =~= (a0 + (a1 + rest)));
    lemma_opaque(3, m.cert_data, (a1 + rest));
    lemma_skip(a0, (a1 + rest));
    lemma_extensions_round_trip(m.extensions, rest);
}

/// A well-formed value cut short by any number of bytes is refused as truncated.
pub proof fn lemma_certificate_entry_truncated(m: CertificateEntryModel, k: nat)
    requires
        m.wf(),
        k < ser_certificate_entry(m).len(),
    ensures
        parse_certificate_entry(ser_certificate_entry(m).take(k as int)) == Err::<(CertificateEntryModel, nat), DecodeError>(
            DecodeError::TruncatedInput,
        ),
{
    reveal(parse_certificate_entry);
    reveal(ser_certificate_entry);
    let a0 = ser_opaque(3, m.cert_data);
    let a1 = ser_extensions(m.extensions);
    let t = ser_certificate_entry(m).take(k as int);
    if k < a0.len() {
        let u0 = a0.take(k - (0));
        assert(t =~= u0);
        lemma_opaque(3, m.cert_data, Seq::empty()); lemma_opaque_truncated(3, m.cert_data, (k - (0)) as nat);
    } else {
        let u1 = a1.take(k - (a0.len()));
        assert(t =~= (a0 + u1));
        lemma_opaque(3, m.cert_data, u1);
        lemma_skip(a0, u1);
        lemma_opaque(2, ser_items(m.extensions, extension_writer()), Seq::empty()); lemma_opaque_truncated(2, ser_items(m.extensions, extension_writer()), (k - (a0.len())) as nat);
    }
}

pub open spec fn certificate_entry_parser() -> spec_fn(Seq<u8>) -> SpecResult<CertificateEntryModel> {
    |s: Seq<u8>| parse_certificate_entry(s)
}

pub open spec fn certificate_entry_writer() -> spec_fn(CertificateEntryModel) -> Seq<u8> {
    |m: CertificateEntryModel| ser_certificate_entry(m)
}

impl CertificateEntry {
    pub fn decode(s: &[u8]) -> (r: Result<(Self, usize), DecodeError>)
        ensures
            decoded_as(r, parse_certificate_entry(s@)),
            r is Ok ==> r->Ok_0.1 <= s@.len(),
    {
        proof {
            reveal(parse_certificate_entry);
        }
        let mut off: usize = 0;
        let (v0, n0) = read_opaque(s, 3)?;
        off = off + n0;
        let t1 = vstd::slice::slice_subrange(s, off, s.len());
        assert(t1@ == skip(s@, off as nat));
        let (v1, n1) = decode_extensions(t1)?;
        off = off + n1;
        Ok((CertificateEntry { cert_data: v0, extensions: v1 }, off))
    }

    pub fn encode(&self, out: &mut Vec<u8>)
        requires
            self@.wf(),
        ensures
            final(out)@ == old(out)@ + ser_certificate_entry(self@),
    {
        proof {
            reveal(ser_certificate_entry);
        }
        put_opaque(out, 3, self.cert_data.as_slice());
        encode_extensions(&self.extensions, out);
        assert(out@ =~= old(out)@ + ser_certificate_entry(self@));
    }
}

pub open spec fn certificate_entry_vec_wf(xs: Seq<CertificateEntryModel>, w: nat) -> bool {
    &&& forall|i: int| 0 <= i < xs.len() ==> (#[trigger] xs[i]).wf()
    &&& ser_items(xs, certificate_entry_writer()).len() <= prefix_max(w)
}

pub proof fn lemma_certificate_entry_vec(w: nat, xs: Seq<CertificateEntryModel>, rest: Seq<u8>)
    requires
        valid_width(w),
        certificate_entry_vec_wf(xs, w),
    ensures
        parse_vec(w, 0, ser_list(w, xs, certificate_entry_writer()) + rest, certificate_entry_parser()) == Ok::<(Seq<CertificateEntryModel>, nat), DecodeError>(
            (xs, ser_list(w, xs, certificate_entry_writer()).len()),
        ),
        ser_list(w, xs, certificate_entry_writer()).len() >= w,
{
    assert forall|i: int, r: Seq<u8>| 0 <= i < xs.len() implies #[trigger] certificate_entry_parser()(certificate_entry_writer()(xs[i]) + r)
        == Ok::<(CertificateEntryModel, nat), DecodeError>((xs[i], certificate_entry_writer()(xs[i]).len())) && certificate_entry_writer()(xs[i]).len() > 0 by {
        let x = xs[i];
        assert(x.wf());
        lemma_certificate_entry_round_trip(x, r);
    }
    assert(items_round_trip(xs, certificate_entry_parser(), certificate_entry_writer()));
    lemma_vec(w, 0, xs, certificate_entry_parser(), certificate_entry_writer(), rest);
}

pub fn write_certificate_entry_vec(v: &Vec<CertificateEntry>, w: usize, out: &mut Vec<u8>)
    requires
        valid_width(w as nat),
        certificate_entry_vec_wf(views(v@), w as nat),
    ensures
        final(out)@ == old(out)@ + ser_list(w as nat, views(v@), certificate_entry_writer()),
{
    let mut tmp: Vec<u8> = Vec::new();
    let mut i: usize = 0;
    while i < v.len()
        invariant
            i <= v@.len(),
            certificate_entry_vec_wf(views(v@), w as nat),
            tmp@ == ser_items(views(v@).take(i as int), certificate_entry_writer()),
        decreases v@.len() - i,
    {
        let ghost x = views(v@)[i as int];
        assert(x == v@[i as int]@);
        assert(x.wf());
        v[i].encode(&mut tmp);
        proof {
            lemma_ser_items_push(views(v@).take(i as int), x, certificate_entry_writer());
            assert(views(v@).take(i as int).push(x) =~= views(v@).take(i + 1));
        }
        i = i + 1;
    }
    assert(views(v@).take(i as int) =~= views(v@));
    put_opaque(out, w, tmp.as_slice());
}
/// A certificate chain.
pub struct Certificate {
    pub certificate_request_context: Vec<u8>,
    pub certificate_list: Vec<CertificateEntry>,
}

pub ghost struct CertificateModel {
    pub certificate_request_context: Seq<u8>,
    pub certificate_list: Seq<CertificateEntryModel>,
}

impl View for Certificate {
    type V = CertificateModel;

    open spec fn view(&self) -> CertificateModel {
        CertificateModel { certificate_request_context: self.certificate_request_context@, certificate_list: views(self.certificate_list@) }
    }
}

impl CertificateModel {
    pub open spec fn wf(self) -> bool {
        let m = self;
        &&& m.certificate_request_context.len() <= 255
        &&& certificate_entry_vec_wf(m.certificate_list, 3)
    }
}

#[verifier::opaque]
pub open spec fn ser_certificate(m: CertificateModel) -> Seq<u8> {
    ser_opaque(1, m.certificate_request_context) + ser_list(3, m.certificate_list, certificate_entry_writer())
}

#[verifier::opaque]
pub open spec fn parse_certificate(s: Seq<u8>) -> SpecResult<CertificateModel> {
    match parse_opaque(1, s) {
        Err(e) => Err(e),
        Ok((v0, n0)) => 
        match parse_vec(3, 0, skip(s, n0), certificate_entry_parser()) {
            Err(e) => Err(e),
            Ok((v1, n1)) => Ok((CertificateModel { certificate_request_context: v0, certificate_list: v1 }, n0 + n1)),
        },
    }
}

/// Decoding the encoding of a well-formed value gives it back, whatever follows.
pub proof fn lemma_certificate_round_trip(m: CertificateModel, rest: Seq<u8>)
    requires
        m.wf(),
    ensures
        parse_certificate(ser_certificate(m) + rest) == Ok::<(CertificateModel, nat), DecodeError>((m, ser_certificate(m).len())),
        ser_certificate(m).len() > 0,
{
    reveal(parse_certificate);
    reveal(ser_certificate);
    let a0 = ser_opaque(1, m.certificate_request_context);
    let a1 = ser_list(3, m.certificate_list, certificate_entry_writer());
    let s = ser_certificate(m) + rest;
    assert(s =~= (a0 + (a1 + rest)));
    lemma_opaque(1, m.certificate_request_context, (a1 + rest));
    lemma_skip(a0, (a1 + rest));
    lemma_certificate_entry_vec(3, m.certificate_list, rest);
}

/// A well-formed value cut short by any number of bytes is refused as truncated.
pub proof fn lemma_certificate_truncated(m: CertificateModel, k: nat)
    requires
        m.wf(),
        k < ser_certificate(m).len(),
    ensures
        parse_certificate(ser_certificate(m).take(k as int)) == Err::<(CertificateModel, nat), DecodeError>(
            DecodeError::TruncatedInput,
        ),
{
    reveal(parse_certificate);
    reveal(ser_certificate);
    let a0 = ser_opaque(1, m.certificate_request_context);
    let a1 = ser_list(3, m.certificate_list, certificate_entry_writer());
    let t = ser_certificate(m).take(k as int);
    if k < a0.len() {
        let u0 = a0.take(k - (0));
        assert(t =~= u0);
        lemma_opaque(1, m.certificate_request_context, Seq::empty()); lemma_opaque_truncated(1, m.certificate_request_context, (k - (0)) as nat);
    } else {
        let u1 = a1.take(k - (a0.len()));
        assert(t =~= (a0 + u1));
        lemma_opaque(1, m.certificate_request_context, u1);
        lemma_skip(a0, u1);
        lemma_opaque(3, ser_items(m.certificate_list, certificate_entry_writer()), Seq::empty()); lemma_opaque_truncated(3, ser_items(m.certificate_list, certificate_entry_writer()), (k - (a0.len())) as nat);
    }
}

impl Certificate {
    pub fn decode(s: &[u8]) -> (r: Result<(Self, usize), DecodeError>)
        ensures
            decoded_as(r, parse_certificate(s@)),
            r is Ok ==> r->Ok_0.1 <= s@.len(),
    {
        proof {
            reveal(parse_certificate);
        }
        let mut off: usize = 0;
        let (v0, n0) = read_opaque(s, 1)?;
        off = off + n0;
        let t1 = vstd::slice::slice_subrange(s, off, s.len());
        assert(t1@ == skip(s@, off as nat));
        let (v1, n1) = read_vec(t1, 3, 0, CertificateEntry::decode, Ghost(certificate_entry_parser()))?;
        off = off + n1;
        Ok((Certificate { certificate_request_context: v0, certificate_list: v1 }, off))
    }

    pub fn encode(&self, out: &mut Vec<u8>)
        requires
            self@.wf(),
        ensures
            final(out)@ == old(out)@ + ser_certificate(self@),
    {
        proof {
            reveal(ser_certificate);
        }
        put_opaque(out, 1, self.certificate_request_context.as_slice());
        write_certificate_entry_vec(&self.certificate_list, 3, out);
        assert(out@ =~= old(out)@ + ser_certificate(self@));
    }
}

/// A signature over the transcript.
pub struct CertificateVerify {
    pub algorithm: SignatureScheme,
    pub signature: Vec<u8>,
}

pub ghost struct CertificateVerifyModel {
    pub algorithm: SignatureScheme,
    pub signature: Seq<u8>,
}

impl View for CertificateVerify {
    type V = CertificateVerifyModel;

    open spec fn view(&self) -> CertificateVerifyModel {
        CertificateVerifyModel { algorithm: self.algorithm, signature: self.signature@ }
    }
}

impl CertificateVerifyModel {
    pub open spec fn wf(self) -> bool {
        let m = self;
        &&& m.algorithm.is_canonical()
        &&& m.signature.len() <= 65535
    }
}

#[verifier::opaque]
pub open spec fn ser_certificate_verify(m: CertificateVerifyModel) -> Seq<u8> {
    ser_u16(m.algorithm.code()) + ser_opaque(2, m.signature)
}

#[verifier::opaque]
pub open spec fn parse_certificate_verify(s: Seq<u8>) -> SpecResult<CertificateVerifyModel> {
    match parse_u16(s) {
        Err(e) => Err(e),
        Ok((v0, n0)) => 
        match parse_opaque(2, skip(s, n0)) {
            Err(e) => Err(e),
            Ok((v1, n1)) => Ok((CertificateVerifyModel { algorithm: SignatureScheme::spec_from_code(v0), signature: v1 }, n0 + n1)),
        },
    }
}

/// Decoding the encoding of a well-formed value gives it back, whatever follows.
pub proof fn lemma_certificate_verify_round_trip(m: CertificateVerifyModel, rest: Seq<u8>)
    requires
        m.wf(),
    ensures
        parse_certificate_verify(ser_certificate_verify(m) + rest) == Ok::<(CertificateVerifyModel, nat), DecodeError>((m, ser_certificate_verify(m).len())),
        ser_certificate_verify(m).len() > 0,
{
    reveal(parse_certificate_verify);
    reveal(ser_certificate_verify);
    let a0 = ser_u16(m.algorithm.code());
    let a1 = ser_opaque(2, m.signature);
    let s = ser_certificate_verify(m) + rest;
    assert(s =~= (a0 + (a1 + rest)));
    lemma_u16(m.algorithm.code(), (a1 + rest)); SignatureScheme::lemma_codes(m.algorithm.code(), m.algorithm);
    lemma_skip(a0, (a1 + rest));
    lemma_opaque(2, m.signature, rest);
}

/// A well-formed value cut short by any number of bytes is refused as truncated.
#[verifier::rlimit(50)]
pub proof fn lemma_certificate_verify_truncated(m: CertificateVerifyModel, k: nat)
    requires
        m.wf(),
        k < ser_certificate_verify(m).len(),
    ensures
        parse_certificate_verify(ser_certificate_verify(m).take(k as int)) == Err::<(CertificateVerifyModel, nat), DecodeError>(
            DecodeError::TruncatedInput,
        ),
{
    reveal(parse_certificate_verify);
    reveal(ser_certificate_verify);
    let a0 = ser_u16(m.algorithm.code());
    let a1 = ser_opaque(2, m.signature);
    let t = ser_certificate_verify(m).take(k as int);
    if k < a0.len() {
        let u0 = a0.take(k - (0));
        assert(t =~= u0);
    } else {
        let u1 = a1.take(k - (a0.len()));
        assert(t =~= (a0 + u1));
        lemma_u16(m.algorithm.code(), u1);
        lemma_skip(a0, u1);
        lemma_opaque(2, m.signature, Seq::empty()); lemma_opaque_truncated(2, m.signature, (k - (a0.len())) as nat);
    }
}

impl CertificateVerify {
    pub fn decode(s: &[u8]) -> (r: Result<(Self, usize), DecodeError>)
        ensures
            decoded_as(r, parse_certificate_verify(s@)),
            r is Ok ==> r->Ok_0.1 <= s@.len(),
    {
        proof {
            reveal(parse_certificate_verify);
        }
        let mut off: usize = 0;
        let (v0, n0) = read_u16(s)?;
        off = off + n0;
        let t1 = vstd::slice::slice_subrange(s, off, s.len());
        assert(t1@ == skip(s@, off as nat));
        let (v1, n1) = read_opaque(t1, 2)?;
        off = off + n1;
        Ok((CertificateVerify { algorithm: SignatureScheme::from_code(v0), signature: v1 }, off))
    }

    pub fn encode(&self, out: &mut Vec<u8>)
        requires
            self@.wf(),
        ensures
            final(out)@ == old(out)@ + ser_certificate_verify(self@),
    {
        proof {
            reveal(ser_certificate_verify);
        }
        put_u16(out, self.algorithm.to_code());
        put_opaque(out, 2, self.signature.as_slice());
        assert(out@ =~= old(out)@ + ser_certificate_verify(self@));
    }
}

/// A ticket for later resumption.
pub struct NewSessionTicket {
    pub ticket_lifetime: u32,
    pub ticket_age_add: u32,
    pub ticket_nonce: Vec<u8>,
    pub ticket: Vec<u8>,
    pub extensions: Vec<Extension>,
}

pub ghost struct NewSessionTicketModel {
    pub ticket_lifetime: u32,
    pub ticket_age_add: u32,
    pub ticket_nonce: Seq<u8>,
    pub ticket: Seq<u8>,
    pub extensions: Seq<ExtensionModel>,
}

impl View for NewSessionTicket {
    type V = NewSessionTicketModel;

    open spec fn view(&self) -> NewSessionTicketModel {
        NewSessionTicketModel { ticket_lifetime: self.ticket_lifetime, ticket_age_add: self.ticket_age_add, ticket_nonce: self.ticket_nonce@, ticket: self.ticket@, extensions: views(self.extensions@) }
    }
}

impl NewSessionTicketModel {
    pub open spec fn wf(self) -> bool {
        let m = self;
        &&& m.ticket_nonce.len() <= 255
        &&& m.ticket.len() <= 65535
        &&& extensions_wf(m.extensions)
    }
}

#[verifier::opaque]
pub open spec fn ser_new_session_ticket(m: NewSessionTicketModel) -> Seq<u8> {
    ser_u32(m.ticket_lifetime) + ser_u32(m.ticket_age_add) + ser_opaque(1, m.ticket_nonce) + ser_opaque(2, m.ticket) + ser_extensions(m.extensions)
}

#[verifier::opaque]
pub open spec fn parse_new_session_ticket(s: Seq<u8>) -> SpecResult<NewSessionTicketModel> {
    match parse_u32(s) {
        Err(e) => Err(e),
        Ok((v0, n0)) => 
        match parse_u32(skip(s, n0)) {
            Err(e) => Err(e),
            Ok((v1, n1)) => 
            match parse_opaque(1, skip(s, n0 + n1)) {
                Err(e) => Err(e),
                Ok((v2, n2)) => 
                match parse_opaque(2, skip(s, n0 + n1 + n2)) {
                    Err(e) => Err(e),
                    Ok((v3, n3)) => 
                    match parse_extensions(skip(s, n0 + n1 + n2 + n3)) {
                        Err(e) => Err(e),
                        Ok((v4, n4)) => Ok((NewSessionTicketModel { ticket_lifetime: v0, ticket_age_add: v1, ticket_nonce: v2, ticket: v3, extensions: v4 }, n0 + n1 + n2 + n3 + n4)),
                    },
                },
            },
        },
    }
}

/// Decoding the encoding of a well-formed value gives it back, whatever follows.
#[verifier::rlimit(100)]
pub proof fn lemma_new_session_ticket_round_trip(m: NewSessionTicketModel, rest: Seq<u8>)
    requires
        m.wf(),
    ensures
        parse_new_session_ticket(ser_new_session_ticket(m) + rest) == Ok::<(NewSessionTicketModel, nat), DecodeError>((m, ser_new_session_ticket(m).len())),
        ser_new_session_ticket(m).len() > 0,
{
    reveal(parse_new_session_ticket);
    reveal(ser_new_session_ticket);
    let a0 = ser_u32(m.ticket_lifetime);
    let a1 = ser_u32(m.ticket_age_add);
    let a2 = ser_opaque(1, m.ticket_nonce);
    let a3 = ser_opaque(2, m.ticket);
    let a4 = ser_extensions(m.extensions);
    let s = ser_new_session_ticket(m) + rest;
    assert(s =~= (a0 + (a1 + (a2 + (a3 + (a4 + rest))))));
    lemma_u32(m.ticket_lifetime, (a1 + (a2 + (a3 + (a4 + rest)))));
    lemma_skip(a0, (a1 + (a2 + (a3 + (a4 + rest)))));
    lemma_u32(m.ticket_age_add, (a2 + (a3 + (a4 + rest))));
    lemma_skip(a1, (a2 + (a3 + (a4 + rest))));
    lemma_skip_skip(s, (a0.len()) as nat, a1.len());
    lemma_opaque(1, m.ticket_nonce, (a3 + (a4 + rest)));
    lemma_skip(a2, (a3 + (a4 + rest)));
    lemma_skip_skip(s, (a0.len() + a1.len()) as nat, a2.len());
    lemma_opaque(2, m.ticket, (a4 + rest));
    lemma_skip(a3, (a4 + rest));
    lemma_skip_skip(s, (a0.len() + a1.len() + a2.len()) as nat, a3.len());
    lemma_extensions_round_trip(m.extensions, rest);
}

/// A well-formed value cut short by any number of bytes is refused as truncated.
#[verifier::rlimit(100)]
pub proof fn lemma_new_session_ticket_truncated(m: NewSessionTicketModel, k: nat)
    requires
        m.wf(),
        k < ser_new_session_ticket(m).len(),
    ensures
        parse_new_session_ticket(ser_new_session_ticket(m).take(k as int)) == Err::<(NewSessionTicketModel, nat), DecodeError>(
            DecodeError::TruncatedInput,
        ),
{
    reveal(parse_new_session_ticket);
    reveal(ser_new_session_ticket);
    let a0 = ser_u32(m.ticket_lifetime);
    let a1 = ser_u32(m.ticket_age_add);
    let a2 = ser_opaque(1, m.ticket_nonce);
    let a3 = ser_opaque(2, m.ticket);
    let a4 = ser_extensions(m.extensions);
    let t = ser_new_session_ticket(m).take(k as int);
    if k < a0.len() {
        let u0 = a0.take(k - (0));
        assert(t =~= u0);
        lemma_u32(m.ticket_lifetime, Seq::empty());
    } else if k < a0.len() + a1.len() {
        let u1 = a1.take(k - (a0.len()));
        assert(t =~= (a0 + u1));
        lemma_u32(m.ticket_lifetime, u1);
        lemma_skip(a0, u1);
        lemma_u32(m.ticket_age_add, Seq::empty());
    } else if k < a0.len() + a1.len() + a2.len() {
        let u2 = a2.take(k - (a0.len() + a1.len()));
        assert(t =~= (a0 + (a1 + u2)));
        lemma_u32(m.ticket_lifetime, (a1 + u2));
        lemma_skip(a0, (a1 + u2));
        lemma_u32(m.ticket_age_add, u2);
        lemma_skip(a1, u2);
        lemma_skip_skip(t, (a0.len()) as nat, a1.len());
        lemma_opaque(1, m.ticket_nonce, Seq::empty()); lemma_opaque_truncated(1, m.ticket_nonce, (k - (a0.len() + a1.len())) as nat);
    } else if k < a0.len() + a1.len() + a2.len() + a3.len() {
        let u3 = a3.take(k - (a0.len() + a1.len() + a2.len()));
        assert(t =~= (a0 + (a1 + (a2 + u3))));
        lemma_u32(m.ticket_lifetime, (a1 + (a2 + u3)));
        lemma_skip(a0, (a1 + (a2 + u3)));
        lemma_u32(m.ticket_age_add, (a2 + u3));
        lemma_skip(a1, (a2 + u3));
        lemma_skip_skip(t, (a0.len()) as nat, a1.len());
        lemma_opaque(1, m.ticket_nonce, u3);
        lemma_skip(a2, u3);
        lemma_skip_skip(t, (a0.len() + a1.len()) as nat, a2.len());
        lemma_opaque(2, m.ticket, Seq::empty()); lemma_opaque_truncated(2, m.ticket, (k - (a0.len() + a1.len() + a2.len())) as nat);
    } else {
        let u4 = a4.take(k - (a0.len() + a1.len() + a2.len() + a3.len()));
        assert(t =~= (a0 + (a1 + (a2 + (a3 + u4)))));
        lemma_u32(m.ticket_lifetime, (a1 + (a2 + (a3 + u4))));
        lemma_skip(a0, (a1 + (a2 + (a3 + u4))));
        lemma_u32(m.ticket_age_add, (a2 + (a3 + u4)));
        lemma_skip(a1, (a2 + (a3 + u4)));
        lemma_skip_skip(t, (a0.len()) as nat, a1.len());
        lemma_opaque(1, m.ticket_nonce, (a3 + u4));
        lemma_skip(a2, (a3 + u4));
        lemma_skip_skip(t, (a0.len() + a1.len()) as nat, a2.len());
        lemma_opaque(2, m.ticket, u4);
        lemma_skip(a3, u4);
        lemma_skip_skip(t, (a0.len() + a1.len() + a2.len()) as nat, a3.len());
        lemma_opaque(2, ser_items(m.extensions, extension_writer()), Seq::empty()); lemma_opaque_truncated(2, ser_items(m.extensions, extension_writer()), (k - (a0.len() + a1.len() + a2.len() + a3.len())) as nat);
    }
}

impl NewSessionTicket {
    pub fn decode(s: &[u8]) -> (r: Result<(Self, usize), DecodeError>)
        ensures
            decoded_as(r, parse_new_session_ticket(s@)),
            r is Ok ==> r->Ok_0.1 <= s@.len(),
    {
        proof {
            reveal(parse_new_session_ticket);
        }
        let mut off: usize = 0;
        let (v0, n0) = read_u32(s)?;
        off = off + n0;
        let t1 = vstd::slice::slice_subrange(s, off, s.len());
        assert(t1@ == skip(s@, off as nat));
        let (v1, n1) = read_u32(t1)?;
        off = off + n1;
        let t2 = vstd::slice::slice_subrange(s, off, s.len());
        assert(t2@ == skip(s@, off as nat));
        let (v2, n2) = read_opaque(t2, 1)?;
        off = off + n2;
        let t3 = vstd::slice::slice_subrange(s, off, s.len());
        assert(t3@ == skip(s@, off as nat));
        let (v3, n3) = read_opaque(t3, 2)?;
        off = off + n3;
        let t4 = vstd::slice::slice_subrange(s, off, s.len());
        assert(t4@ == skip(s@, off as nat));
        let (v4, n4) = decode_extensions(t4)?;
        off = off + n4;
        Ok((NewSessionTicket { ticket_lifetime: v0, ticket_age_add: v1, ticket_nonce: v2, ticket: v3, extensions: v4 }, off))
    }

    pub fn encode(&self, out: &mut Vec<u8>)
        requires
            self@.wf(),
        ensures
            final(out)@ == old(out)@ + ser_new_session_ticket(self@),
    {
        proof {
            reveal(ser_new_session_ticket);
        }
        put_u32(out, self.ticket_lifetime);
        put_u32(out, self.ticket_age_add);
        put_opaque(out, 1, self.ticket_nonce.as_slice());
        put_opaque(out, 2, self.ticket.as_slice());
        encode_extensions(&self.extensions, out);
        assert(out@ =~= old(out)@ + ser_new_session_ticket(self@));
    }
}

/// A key update, and whether the peer should update too.
pub struct KeyUpdate {
    pub request_update: KeyUpdateRequest,
}

pub ghost struct KeyUpdateModel {
    pub request_update: KeyUpdateRequest,
}

impl View for KeyUpdate {
    type V = KeyUpdateModel;

    open spec fn view(&self) -> KeyUpdateModel {
        KeyUpdateModel { request_update: self.request_update }
    }
}

impl KeyUpdateModel {
    pub open spec fn wf(self) -> bool {
        let m = self;
        &&& m.request_update.is_canonical()
    }
}

#[verifier::opaque]
pub open spec fn ser_key_update(m: KeyUpdateModel) -> Seq<u8> {
    ser_u8(m.request_update.code())
}

#[verifier::opaque]
pub open spec fn parse_key_update(s: Seq<u8>) -> SpecResult<KeyUpdateModel> {
    match parse_u8(s) {
        Err(e) => Err(e),
        Ok((v0, n0)) => Ok((KeyUpdateModel { request_update: KeyUpdateRequest::spec_from_code(v0) }, n0)),
    }
}

/// Decoding the encoding of a well-formed value gives it back, whatever follows.
pub proof fn lemma_key_update_round_trip(m: KeyUpdateModel, rest: Seq<u8>)
    requires
        m.wf(),
    ensures
        parse_key_update(ser_key_update(m) + rest) == Ok::<(KeyUpdateModel, nat), DecodeError>((m, ser_key_update(m).len())),
        ser_key_update(m).len() > 0,
{
    reveal(parse_key_update);
    reveal(ser_key_update);
    let a0 = ser_u8(m.request_update.code());
    let s = ser_key_update(m) + rest;
    assert(s =~= (a0 + rest));
    lemma_u8(m.request_update.code(), rest); KeyUpdateRequest::lemma_codes(m.request_update.code(), m.request_update);
}

/// A well-formed value cut short by any number of bytes is refused as truncated.
#[verifier::rlimit(50)]
pub proof fn lemma_key_update_truncated(m: KeyUpdateModel, k: nat)
    requires
        m.wf(),
        k < ser_key_update(m).len(),
    ensures
        parse_key_update(ser_key_update(m).take(k as int)) == Err::<(KeyUpdateModel, nat), DecodeError>(
            DecodeError::TruncatedInput,
        ),
{
    reveal(parse_key_update);
    reveal(ser_key_update);
    let a0 = ser_u8(m.request_update.code());
    let t = ser_key_update(m).take(k as int);
    {
        let u0 = a0.take(k - (0));
        assert(t =~= u0);
    }
}

impl KeyUpdate {
    pub fn decode(s: &[u8]) -> (r: Result<(Self, usize), DecodeError>)
        ensures
            decoded_as(r, parse_key_update(s@)),
            r is Ok ==> r->Ok_0.1 <= s@.len(),
    {
        proof {
            reveal(parse_key_update);
        }
        let mut off: usize = 0;
        let (v0, n0) = read_u8(s)?;
        off = off + n0;
        Ok((KeyUpdate { request_update: KeyUpdateRequest::from_code(v0) }, off))
    }

    pub fn encode(&self, out: &mut Vec<u8>)
        requires
            self@.wf(),
        ensures
            final(out)@ == old(out)@ + ser_key_update(self@),
    {
        proof {
            reveal(ser_key_update);
        }
        put_u8(out, self.request_update.to_code());
        assert(out@ =~= old(out)@ + ser_key_update(self@));
    }
}

/// The random value that marks a ServerHello as a HelloRetryRequest.
pub open spec fn hello_retry_random() -> Seq<u8> {
    seq![
        0xcfu8, 0x21, 0xad, 0x74, 0xe5, 0x9a, 0x61, 0x11, 0xbe, 0x1d, 0x8c, 0x02, 0x1e, 0x65, 0xb8, 0x91,
        0xc2, 0xa2, 0x11, 0x16, 0x7a, 0xbb, 0x8c, 0x5e, 0x07, 0x9e, 0x09, 0xe2, 0xc8, 0xa8, 0x33, 0x9c,
    ]
}

/// Whether `r` is the HelloRetryRequest random value.
pub fn is_hello_retry_random(r: &[u8]) -> (b: bool)
    ensures
        b == (r@ == hello_retry_random()),
{
    let sentinel: Vec<u8> = vec![
        0xcfu8, 0x21, 0xad, 0x74, 0xe5, 0x9a, 0x61, 0x11, 0xbe, 0x1d, 0x8c, 0x02, 0x1e, 0x65, 0xb8, 0x91,
        0xc2, 0xa2, 0x11, 0x16, 0x7a, 0xbb, 0x8c, 0x5e, 0x07, 0x9e, 0x09, 0xe2, 0xc8, 0xa8, 0x33, 0x9c,
    ];
    assert(sentinel@ =~= hello_retry_random());
    if r.len() != 32 {
        return false;
    }
    let mut i: usize = 0;
    while i < 32
        invariant
            i <= 32,
            r@.len() == 32,
            sentinel@ == hello_retry_random(),
            forall|j: int| 0 <= j < i ==> r@[j] == sentinel@[j],
        decreases 32 - i,
    {
        if r[i] != sentinel[i] {
            return false;
        }
        i = i + 1;
    }
    assert(r@ =~= hello_retry_random());
    true
}

/// A Finished message: the verify data fills the whole body.
pub struct Finished {
    pub verify_data: Vec<u8>,
}

/// The body of a handshake message, by message type.
pub enum HandshakeBody {
    ClientHello(ClientHello),
    ServerHello(ServerHello),
    /// A ServerHello whose random value is the retry marker.
    HelloRetryRequest(ServerHello),
    EndOfEarlyData,
    EncryptedExtensions(EncryptedExtensions),
    CertificateRequest(CertificateRequest),
    Certificate(Certificate),
    CertificateVerify(CertificateVerify),
    Finished(Finished),
    NewSessionTicket(NewSessionTicket),
    KeyUpdate(KeyUpdate),
    /// The body of a message type without a grammar here, kept as it came.
    Unknown(Vec<u8>),
}

pub ghost enum HandshakeBodyModel {
    ClientHello(ClientHelloModel),
    ServerHello(ServerHelloModel),
    HelloRetryRequest(ServerHelloModel),
    EndOfEarlyData,
    EncryptedExtensions(EncryptedExtensionsModel),
    CertificateRequest(CertificateRequestModel),
    Certificate(CertificateModel),
    CertificateVerify(CertificateVerifyModel),
    Finished(Seq<u8>),
    NewSessionTicket(NewSessionTicketModel),
    KeyUpdate(KeyUpdateModel),
    Unknown(Seq<u8>),
}

impl View for HandshakeBody {
    type V = HandshakeBodyModel;

    open spec fn view(&self) -> HandshakeBodyModel {
        match self {
            HandshakeBody::ClientHello(x) => HandshakeBodyModel::ClientHello(x@),
            HandshakeBody::ServerHello(x) => HandshakeBodyModel::ServerHello(x@),
            HandshakeBody::HelloRetryRequest(x) => HandshakeBodyModel::HelloRetryRequest(x@),
            HandshakeBody::EndOfEarlyData => HandshakeBodyModel::EndOfEarlyData,
            HandshakeBody::EncryptedExtensions(x) => HandshakeBodyModel::EncryptedExtensions(x@),
            HandshakeBody::CertificateRequest(x) => HandshakeBodyModel::CertificateRequest(x@),
            HandshakeBody::Certificate(x) => HandshakeBodyModel::Certificate(x@),
            HandshakeBody::CertificateVerify(x) => HandshakeBodyModel::CertificateVerify(x@),
            HandshakeBody::Finished(x) => HandshakeBodyModel::Finished(x.verify_data@),
            HandshakeBody::NewSessionTicket(x) => HandshakeBodyModel::NewSessionTicket(x@),
            HandshakeBody::KeyUpdate(x) => HandshakeBodyModel::KeyUpdate(x@),
            HandshakeBody::Unknown(x) => HandshakeBodyModel::Unknown(x@),
        }
    }
}

/// Whether messages of type `t` have a body grammar here.
pub open spec fn has_grammar(t: HandshakeType) -> bool {
    !(t is MessageHash || t is Unknown)
}

/// Decodes a handshake body of `d.len()` bytes by its message type.
pub open spec fn parse_handshake_body(t: HandshakeType, d: Seq<u8>) -> Result<HandshakeBodyModel, DecodeError> {
    match t {
        HandshakeType::ClientHello => match exactly(parse_client_hello(d), d.len()) {
            Ok(x) => Ok(HandshakeBodyModel::ClientHello(x)),
            Err(e) => Err(e),
        },
        HandshakeType::ServerHello => match exactly(parse_server_hello(d), d.len()) {
            Ok(x) => if x.random == hello_retry_random() {
                Ok(HandshakeBodyModel::HelloRetryRequest(x))
            } else {
                Ok(HandshakeBodyModel::ServerHello(x))
            },
            Err(e) => Err(e),
        },
        HandshakeType::EndOfEarlyData => if d.len() == 0 {
            Ok(HandshakeBodyModel::EndOfEarlyData)
        } else {
            Err(DecodeError::LengthMismatch)
        },
        HandshakeType::EncryptedExtensions => match exactly(parse_encrypted_extensions(d), d.len()) {
            Ok(x) => Ok(HandshakeBodyModel::EncryptedExtensions(x)),
            Err(e) => Err(e),
        },
        HandshakeType::CertificateRequest => match exactly(parse_certificate_request(d), d.len()) {
            Ok(x) => Ok(HandshakeBodyModel::CertificateRequest(x)),
            Err(e) => Err(e),
        },
        HandshakeType::Certificate => match exactly(parse_certificate(d), d.len()) {
            Ok(x) => Ok(HandshakeBodyModel::Certificate(x)),
            Err(e) => Err(e),
        },
        HandshakeType::CertificateVerify => match exactly(parse_certificate_verify(d), d.len()) {
            Ok(x) => Ok(HandshakeBodyModel::CertificateVerify(x)),
            Err(e) => Err(e),
        },
        HandshakeType::Finished => Ok(HandshakeBodyModel::Finished(d)),
        HandshakeType::NewSessionTicket => match exactly(parse_new_session_ticket(d), d.len()) {
            Ok(x) => Ok(HandshakeBodyModel::NewSessionTicket(x)),
            Err(e) => Err(e),
        },
        HandshakeType::KeyUpdate => match exactly(parse_key_update(d), d.len()) {
            Ok(x) => Ok(HandshakeBodyModel::KeyUpdate(x)),
            Err(e) => Err(e),
        },
        _ => Ok(HandshakeBodyModel::Unknown(d)),
    }
}

pub open spec fn ser_handshake_body(b: HandshakeBodyModel) -> Seq<u8> {
    match b {
        HandshakeBodyModel::ClientHello(x) => ser_client_hello(x),
        HandshakeBodyModel::ServerHello(x) => ser_server_hello(x),
        HandshakeBodyModel::HelloRetryRequest(x) => ser_server_hello(x),
        HandshakeBodyModel::EndOfEarlyData => Seq::empty(),
        HandshakeBodyModel::EncryptedExtensions(x) => ser_encrypted_extensions(x),
        HandshakeBodyModel::CertificateRequest(x) => ser_certificate_request(x),
        HandshakeBodyModel::Certificate(x) => ser_certificate(x),
        HandshakeBodyModel::CertificateVerify(x) => ser_certificate_verify(x),
        HandshakeBodyModel::Finished(d) => d,
        HandshakeBodyModel::NewSessionTicket(x) => ser_new_session_ticket(x),
        HandshakeBodyModel::KeyUpdate(x) => ser_key_update(x),
        HandshakeBodyModel::Unknown(d) => d,
    }
}

impl HandshakeBodyModel {
    /// The parts are well formed, and a ServerHello carries the retry marker exactly
    /// when it is a HelloRetryRequest.
    pub open spec fn wf(self) -> bool {
        match self {
            HandshakeBodyModel::ClientHello(x) => x.wf(),
            HandshakeBodyModel::ServerHello(x) => x.wf() && x.random != hello_retry_random(),
            HandshakeBodyModel::HelloRetryRequest(x) => x.wf() && x.random == hello_retry_random(),
            HandshakeBodyModel::EncryptedExtensions(x) => x.wf(),
            HandshakeBodyModel::CertificateRequest(x) => x.wf(),
            HandshakeBodyModel::Certificate(x) => x.wf(),
            HandshakeBodyModel::CertificateVerify(x) => x.wf(),
            HandshakeBodyModel::NewSessionTicket(x) => x.wf(),
            HandshakeBodyModel::KeyUpdate(x) => x.wf(),
            _ => true,
        }
    }

    /// The decoder yields this body for messages of type `t`.
    pub open spec fn fits(self, t: HandshakeType) -> bool {
        match self {
            HandshakeBodyModel::ClientHello(_) => t == HandshakeType::ClientHello,
            HandshakeBodyModel::ServerHello(_) => t == HandshakeType::ServerHello,
            HandshakeBodyModel::HelloRetryRequest(_) => t == HandshakeType::ServerHello,
            HandshakeBodyModel::EndOfEarlyData => t == HandshakeType::EndOfEarlyData,
            HandshakeBodyModel::EncryptedExtensions(_) => t == HandshakeType::EncryptedExtensions,
            HandshakeBodyModel::CertificateRequest(_) => t == HandshakeType::CertificateRequest,
            HandshakeBodyModel::Certificate(_) => t == HandshakeType::Certificate,
            HandshakeBodyModel::CertificateVerify(_) => t == HandshakeType::CertificateVerify,
            HandshakeBodyModel::Finished(_) => t == HandshakeType::Finished,
            HandshakeBodyModel::NewSessionTicket(_) => t == HandshakeType::NewSessionTicket,
            HandshakeBodyModel::KeyUpdate(_) => t == HandshakeType::KeyUpdate,
            HandshakeBodyModel::Unknown(_) => !has_grammar(t),
        }
    }
}

/// Decoding the encoding of a well-formed body under a type it fits gives it back.
pub proof fn lemma_handshake_body_round_trip(b: HandshakeBodyModel, t: HandshakeType)
    requires
        b.wf(),
        b.fits(t),
    ensures
        parse_handshake_body(t, ser_handshake_body(b)) == Ok::<HandshakeBodyModel, DecodeError>(b),
{
    let e = Seq::<u8>::empty();
    match b {
        HandshakeBodyModel::ClientHello(x) => {
            lemma_client_hello_round_trip(x, e);
            assert(ser_client_hello(x) + e =~= ser_client_hello(x));
        },
        HandshakeBodyModel::ServerHello(x) => {
            lemma_server_hello_round_trip(x, e);
            assert(ser_server_hello(x) + e =~= ser_server_hello(x));
        },
        HandshakeBodyModel::HelloRetryRequest(x) => {
            lemma_server_hello_round_trip(x, e);
            assert(ser_server_hello(x) + e =~= ser_server_hello(x));
        },
        HandshakeBodyModel::EncryptedExtensions(x) => {
            lemma_encrypted_extensions_round_trip(x, e);
            assert(ser_encrypted_extensions(x) + e =~= ser_encrypted_extensions(x));
        },
        HandshakeBodyModel::CertificateRequest(x) => {
            lemma_certificate_request_round_trip(x, e);
            assert(ser_certificate_request(x) + e =~= ser_certificate_request(x));
        },
        HandshakeBodyModel::Certificate(x) => {
            lemma_certificate_round_trip(x, e);
            assert(ser_certificate(x) + e =~= ser_certificate(x));
        },
        HandshakeBodyModel::CertificateVerify(x) => {
            lemma_certificate_verify_round_trip(x, e);
            assert(ser_certificate_verify(x) + e =~= ser_certificate_verify(x));
        },
        HandshakeBodyModel::NewSessionTicket(x) => {
            lemma_new_session_ticket_round_trip(x, e);
            assert(ser_new_session_ticket(x) + e =~= ser_new_session_ticket(x));
        },
        HandshakeBodyModel::KeyUpdate(x) => {
            lemma_key_update_round_trip(x, e);
            assert(ser_key_update(x) + e =~= ser_key_update(x));
        },
        _ => {},
    }
}

/// Decodes a body of exactly `d.len()` bytes for messages of type `t`.
pub fn decode_handshake_body(t: HandshakeType, d: &[u8]) -> (r: Result<HandshakeBody, DecodeError>)
    ensures
        match r {
            Ok(b) => parse_handshake_body(t, d@) == Ok::<HandshakeBodyModel, DecodeError>(b@),
            Err(e) => parse_handshake_body(t, d@) == Err::<HandshakeBodyModel, DecodeError>(e),
        },
{
    match t {
        HandshakeType::ClientHello => {
            let (x, n) = ClientHello::decode(d)?;
            if n != d.len() {
                return Err(DecodeError::LengthMismatch);
            }
            Ok(HandshakeBody::ClientHello(x))
        },
        HandshakeType::ServerHello => {
            let (x, n) = ServerHello::decode(d)?;
            if n != d.len() {
                return Err(DecodeError::LengthMismatch);
            }
            if is_hello_retry_random(x.random.as_slice()) {
                Ok(HandshakeBody::HelloRetryRequest(x))
            } else {
                Ok(HandshakeBody::ServerHello(x))
            }
        },
        HandshakeType::EndOfEarlyData => {
            if d.len() == 0 {
                Ok(HandshakeBody::EndOfEarlyData)
            } else {
                Err(DecodeError::LengthMismatch)
            }
        },
        HandshakeType::EncryptedExtensions => {
            let (x, n) = EncryptedExtensions::decode(d)?;
            if n != d.len() {
                return Err(DecodeError::LengthMismatch);
            }
            Ok(HandshakeBody::EncryptedExtensions(x))
        },
        HandshakeType::CertificateRequest => {
            let (x, n) = CertificateRequest::decode(d)?;
            if n != d.len() {
                return Err(DecodeError::LengthMismatch);
            }
            Ok(HandshakeBody::CertificateRequest(x))
        },
        HandshakeType::Certificate => {
            let (x, n) = Certificate::decode(d)?;
            if n != d.len() {
                return Err(DecodeError::LengthMismatch);
            }
            Ok(HandshakeBody::Certificate(x))
        },
        HandshakeType::CertificateVerify => {
            let (x, n) = CertificateVerify::decode(d)?;
            if n != d.len() {
                return Err(DecodeError::LengthMismatch);
            }
            Ok(HandshakeBody::CertificateVerify(x))
        },
        HandshakeType::Finished => {
            Ok(HandshakeBody::Finished(Finished { verify_data: vstd::slice::slice_to_vec(d) }))
        },
        HandshakeType::NewSessionTicket => {
            let (x, n) = NewSessionTicket::decode(d)?;
            if n != d.len() {
                return Err(DecodeError::LengthMismatch);
            }
            Ok(HandshakeBody::NewSessionTicket(x))
        },
        HandshakeType::KeyUpdate => {
            let (x, n) = KeyUpdate::decode(d)?;
            if n != d.len() {
                return Err(DecodeError::LengthMismatch);
            }
            Ok(HandshakeBody::KeyUpdate(x))
        },
        _ => Ok(HandshakeBody::Unknown(vstd::slice::slice_to_vec(d))),
    }
}

impl HandshakeBody {
    pub fn encode(&self, out: &mut Vec<u8>)
        requires
            self@.wf(),
        ensures
            final(out)@ == old(out)@ + ser_handshake_body(self@),
    {
        match self {
            HandshakeBody::ClientHello(x) => x.encode(out),
            HandshakeBody::ServerHello(x) => x.encode(out),
            HandshakeBody::HelloRetryRequest(x) => x.encode(out),
            HandshakeBody::EndOfEarlyData => {
                assert(out@ =~= old(out)@ + Seq::<u8>::empty());
            },
            HandshakeBody::EncryptedExtensions(x) => x.encode(out),
            HandshakeBody::CertificateRequest(x) => x.encode(out),
            HandshakeBody::Certificate(x) => x.encode(out),
            HandshakeBody::CertificateVerify(x) => x.encode(out),
            HandshakeBody::Finished(x) => put_bytes(out, x.verify_data.as_slice()),
            HandshakeBody::NewSessionTicket(x) => x.encode(out),
            HandshakeBody::KeyUpdate(x) => x.encode(out),
            HandshakeBody::Unknown(d) => put_bytes(out, d.as_slice()),
        }
    }
}

/// A handshake message: type, 24-bit body length, body.
pub struct Handshake {
    pub msg_type: HandshakeType,
    pub length: u32,
    pub body: HandshakeBody,
}

pub ghost struct HandshakeModel {
    pub msg_type: HandshakeType,
    pub length: u32,
    pub body: HandshakeBodyModel,
}

impl View for Handshake {
    type V = HandshakeModel;

    open spec fn view(&self) -> HandshakeModel {
        HandshakeModel { msg_type: self.msg_type, length: self.length, body: self.body@ }
    }
}

impl HandshakeModel {
    /// The declared length is the body's encoded length, and the body fits the type.
    pub open spec fn wf(self) -> bool {
        &&& self.msg_type.is_canonical()
        &&& self.body.wf()
        &&& self.body.fits(self.msg_type)
        &&& self.length == ser_handshake_body(self.body).len()
        &&& self.length <= 16777215
    }
}

pub open spec fn ser_handshake(m: HandshakeModel) -> Seq<u8> {
    ser_u8(m.msg_type.code()) + ser_u24(m.length) + ser_handshake_body(m.body)
}

pub open spec fn parse_handshake(s: Seq<u8>) -> SpecResult<HandshakeModel> {
    match parse_u8(s) {
        Err(e) => Err(e),
        Ok((t, _)) => match parse_u24(skip(s, 1)) {
            Err(e) => Err(e),
            Ok((l, _)) => if s.len() < 4 + l {
                Err(DecodeError::TruncatedInput)
            } else {
                match parse_handshake_body(HandshakeType::spec_from_code(t), s.subrange(4, 4 + l)) {
                    Ok(b) => Ok((
                        HandshakeModel { msg_type: HandshakeType::spec_from_code(t), length: l, body: b },
                        (4 + l) as nat,
                    )),
                    Err(e) => Err(e),
                }
            },
        },
    }
}

/// Decoding the encoding of a well-formed handshake message gives it back.
pub proof fn lemma_handshake_round_trip(m: HandshakeModel, rest: Seq<u8>)
    requires
        m.wf(),
    ensures
        parse_handshake(ser_handshake(m) + rest) == Ok::<(HandshakeModel, nat), DecodeError>(
            (m, ser_handshake(m).len()),
        ),
{
    let a = ser_u8(m.msg_type.code());
    let b = ser_u24(m.length);
    let c = ser_handshake_body(m.body);
    let s = ser_handshake(m) + rest;
    assert(s =~= a + (b + (c + rest)));
    lemma_u8(m.msg_type.code(), b + (c + rest));
    lemma_skip(a, b + (c + rest));
    lemma_u24(m.length, c + rest);
    assert(s.subrange(4, 4 + m.length) =~= c);
    HandshakeType::lemma_codes(m.msg_type.code(), m.msg_type);
    lemma_handshake_body_round_trip(m.body, m.msg_type);
}

/// A well-formed message cut short by any number of bytes is refused as truncated.
pub proof fn lemma_handshake_truncated(m: HandshakeModel, k: nat)
    requires
        m.wf(),
        k < ser_handshake(m).len(),
    ensures
        parse_handshake(ser_handshake(m).take(k as int)) == Err::<(HandshakeModel, nat), DecodeError>(
            DecodeError::TruncatedInput,
        ),
{
    let t = ser_handshake(m).take(k as int);
    let c = ser_handshake_body(m.body);
    if k >= 4 {
        assert(skip(t, 1) =~= ser_u24(m.length) + c.take(k - 4));
        lemma_u24(m.length, c.take(k - 4));
    }
}

/// A body followed by bytes its grammar does not use is refused: the declared length
/// must match what the grammar consumes. (Finished and unknown bodies take every byte.)
pub proof fn lemma_handshake_body_trailing(b: HandshakeBodyModel, t: HandshakeType, extra: Seq<u8>)
    requires
        b.wf(),
        b.fits(t),
        !(b is Finished || b is Unknown),
        extra.len() > 0,
    ensures
        parse_handshake_body(t, ser_handshake_body(b) + extra) == Err::<HandshakeBodyModel, DecodeError>(
            DecodeError::LengthMismatch,
        ),
{
    match b {
        HandshakeBodyModel::ClientHello(x) => lemma_client_hello_round_trip(x, extra),
        HandshakeBodyModel::ServerHello(x) => lemma_server_hello_round_trip(x, extra),
        HandshakeBodyModel::HelloRetryRequest(x) => lemma_server_hello_round_trip(x, extra),
        HandshakeBodyModel::EncryptedExtensions(x) => lemma_encrypted_extensions_round_trip(x, extra),
        HandshakeBodyModel::CertificateRequest(x) => lemma_certificate_request_round_trip(x, extra),
        HandshakeBodyModel::Certificate(x) => lemma_certificate_round_trip(x, extra),
        HandshakeBodyModel::CertificateVerify(x) => lemma_certificate_verify_round_trip(x, extra),
        HandshakeBodyModel::NewSessionTicket(x) => lemma_new_session_ticket_round_trip(x, extra),
        HandshakeBodyModel::KeyUpdate(x) => lemma_key_update_round_trip(x, extra),
        _ => {
            assert((Seq::<u8>::empty() + extra).len() > 0);
        },
    }
}

/// Bytes whose type code has no variant still decode, to `Unknown` with that code and
/// the body kept as it came.
pub proof fn lemma_handshake_unknown_type(s: Seq<u8>)
    requires
        s.len() >= 4,
        s.len() >= 4 + be24(skip(s, 1)),
        !HandshakeType::is_assigned(s[0]),
    ensures
        parse_handshake(s) == Ok::<(HandshakeModel, nat), DecodeError>((
            HandshakeModel {
                msg_type: HandshakeType::Unknown(s[0]),
                length: be24(skip(s, 1)) as u32,
                body: HandshakeBodyModel::Unknown(s.subrange(4, 4 + be24(skip(s, 1)))),
            },
            (4 + be24(skip(s, 1))) as nat,
        )),
{
}

impl Handshake {
    /// A message of type `msg_type` whose length is that of the encoded body.
    pub fn new(msg_type: HandshakeType, body: HandshakeBody) -> (r: Option<Self>)
        requires
            msg_type.is_canonical(),
            body@.wf(),
            body@.fits(msg_type),
        ensures
            ser_handshake_body(body@).len() <= 16777215 <==> r is Some,
            r matches Some(h) ==> h@ == (HandshakeModel {
                msg_type,
                length: ser_handshake_body(body@).len() as u32,
                body: body@,
            }),
    {
        let mut tmp: Vec<u8> = Vec::new();
        body.encode(&mut tmp);
        assert(tmp@ =~= ser_handshake_body(body@));
        if tmp.len() > 16777215 {
            return None;
        }
        Some(Handshake { msg_type, length: tmp.len() as u32, body })
    }

    /// Decodes a handshake message from the start of `s`.
    pub fn decode(s: &[u8]) -> (r: Result<(Self, usize), DecodeError>)
        ensures
            decoded_as(r, parse_handshake(s@)),
    {
        let (t, _) = read_u8(s)?;
        let (l, _) = read_u24(vstd::slice::slice_subrange(s, 1, s.len()))?;
        if s.len() - 4 < l as usize {
            return Err(DecodeError::TruncatedInput);
        }
        let end = 4 + l as usize;
        let msg_type = HandshakeType::from_code(t);
        let body = decode_handshake_body(msg_type, vstd::slice::slice_subrange(s, 4, end))?;
        Ok((Handshake { msg_type, length: l, body }, end))
    }

    pub fn encode(&self, out: &mut Vec<u8>)
        requires
            self@.wf(),
        ensures
            final(out)@ == old(out)@ + ser_handshake(self@),
    {
        put_u8(out, self.msg_type.to_code());
        put_u24(out, self.length);
        self.body.encode(out);
        assert(out@ =~= old(out)@ + ser_handshake(self@));
    }
}

} // verus!
