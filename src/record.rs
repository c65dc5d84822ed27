//! Record layer framing: plaintext records, the inner plaintext that encryption
//! consumes, and the opaque encrypted record.
use vstd::prelude::*;
use crate::codes::ContentType;
use crate::wire::{
    DecodeError, SpecResult, decoded_as, skip, ser_u8, ser_u16, ser_opaque, parse_u8, parse_u16,
    parse_opaque, lemma_opaque_truncated, lemma_u8, lemma_u16, lemma_skip, lemma_opaque, read_u8,
    read_u16, read_opaque, put_u8, put_u16, put_opaque, put_bytes,
};

verus! {

/// The legacy version written in record headers and hellos.
pub const LEGACY_VERSION: u16 = 0x0303;

/// Largest fragment of a plaintext record.
pub const MAX_PLAINTEXT: usize = 16384;

/// Largest payload of an encrypted record.
pub const MAX_CIPHERTEXT: usize = 16640;

pub struct TLSPlaintext {
    pub type_: ContentType,
    pub legacy_record_version: u16,
    pub length: u16,
    pub fragment: Vec<u8>,
}

pub ghost struct TLSPlaintextModel {
    pub type_: ContentType,
    pub legacy_record_version: u16,
    pub length: u16,
    pub fragment: Seq<u8>,
}

impl View for TLSPlaintext {
    type V = TLSPlaintextModel;

    open spec fn view(&self) -> TLSPlaintextModel {
        TLSPlaintextModel {
            type_: self.type_,
            legacy_record_version: self.legacy_record_version,
            length: self.length,
            fragment: self.fragment@,
        }
    }
}

impl TLSPlaintextModel {
    pub open spec fn wf(self) -> bool {
        &&& self.type_.is_canonical()
        &&& self.length == self.fragment.len()
        &&& self.fragment.len() <= MAX_PLAINTEXT
    }
}

pub open spec fn ser_plaintext(m: TLSPlaintextModel) -> Seq<u8> {
    ser_u8(m.type_.code()) + ser_u16(m.legacy_record_version) + ser_opaque(2, m.fragment)
}

pub open spec fn parse_plaintext(s: Seq<u8>) -> SpecResult<TLSPlaintextModel> {
    match parse_u8(s) {
        Err(e) => Err(e),
        Ok((t, _)) => match parse_u16(skip(s, 1)) {
            Err(e) => Err(e),
            Ok((ver, _)) => match parse_opaque(2, skip(s, 3)) {
                Err(e) => Err(e),
                Ok((frag, n)) => if frag.len() > MAX_PLAINTEXT {
                    Err(DecodeError::InvalidVectorLength)
                } else {
                    Ok((
                        TLSPlaintextModel {
                            type_: ContentType::spec_from_code(t),
                            legacy_record_version: ver,
                            length: frag.len() as u16,
                            fragment: frag,
                        },
                        3 + n,
                    ))
                },
            },
        },
    }
}

/// Decoding the encoding of a well-formed plaintext record gives it back.
pub proof fn lemma_plaintext_round_trip(m: TLSPlaintextModel, rest: Seq<u8>)
    requires
        m.wf(),
    ensures
        parse_plaintext(ser_plaintext(m) + rest) == Ok::<(TLSPlaintextModel, nat), DecodeError>(
            (m, ser_plaintext(m).len()),
        ),
{
    let s = ser_plaintext(m) + rest;
    let a = ser_u8(m.type_.code());
    let b = ser_u16(m.legacy_record_version);
    let c = ser_opaque(2, m.fragment);
    assert(s =~= a + (b + (c + rest)));
    lemma_u8(m.type_.code(), b + (c + rest));
    lemma_skip(a, b + (c + rest));
    lemma_u16(m.legacy_record_version, c + rest);
    assert(skip(s, 3) =~= c + rest);
    lemma_opaque(2, m.fragment, rest);
    ContentType::lemma_codes(m.type_.code(), m.type_);
}

/// A well-formed record cut short by any number of bytes is refused as truncated.
pub proof fn lemma_plaintext_truncated(m: TLSPlaintextModel, k: nat)
    requires
        m.wf(),
        k < ser_plaintext(m).len(),
    ensures
        parse_plaintext(ser_plaintext(m).take(k as int)) == Err::<(TLSPlaintextModel, nat), DecodeError>(
            DecodeError::TruncatedInput,
        ),
{
    let c = ser_opaque(2, m.fragment);
    lemma_opaque(2, m.fragment, Seq::empty());
    let t = ser_plaintext(m).take(k as int);
    if k >= 3 {
        assert(skip(t, 3) =~= c.take(k - 3));
        lemma_opaque_truncated(2, m.fragment, (k - 3) as nat);
    }
}

impl TLSPlaintext {
    /// A record with the legacy version and a length that matches the fragment.
    pub fn new(type_: ContentType, fragment: Vec<u8>) -> (r: Self)
        requires
            fragment@.len() <= MAX_PLAINTEXT,
        ensures
            r@ == (TLSPlaintextModel {
                type_,
                legacy_record_version: LEGACY_VERSION,
                length: fragment@.len() as u16,
                fragment: fragment@,
            }),
    {
        let length = fragment.len() as u16;
        TLSPlaintext { type_, legacy_record_version: LEGACY_VERSION, length, fragment }
    }

    /// Decodes a record from the start of `s`, returning it and the bytes consumed.
    pub fn decode(s: &[u8]) -> (r: Result<(Self, usize), DecodeError>)
        ensures
            decoded_as(r, parse_plaintext(s@)),
    {
        let (t, _) = read_u8(s)?;
        let (ver, _) = read_u16(vstd::slice::slice_subrange(s, 1, s.len()))?;
        let (frag, n) = read_opaque(vstd::slice::slice_subrange(s, 3, s.len()), 2)?;
        if frag.len() > MAX_PLAINTEXT {
            return Err(DecodeError::InvalidVectorLength);
        }
        let length = frag.len() as u16;
        Ok((
            TLSPlaintext {
                type_: ContentType::from_code(t),
                legacy_record_version: ver,
                length,
                fragment: frag,
            },
            3 + n,
        ))
    }

    pub fn encode(&self, out: &mut Vec<u8>)
        requires
            self@.wf(),
        ensures
            final(out)@ == old(out)@ + ser_plaintext(self@),
    {
        put_u8(out, self.type_.to_code());
        put_u16(out, self.legacy_record_version);
        put_opaque(out, 2, self.fragment.as_slice());
        assert(out@ =~= old(out)@ + ser_plaintext(self@));
    }
}

pub struct TLSCiphertext {
    pub opaque_type: ContentType,
    pub legacy_record_version: u16,
    pub length: u16,
    pub encrypted_record: Vec<u8>,
}

pub ghost struct TLSCiphertextModel {
    pub opaque_type: ContentType,
    pub legacy_record_version: u16,
    pub length: u16,
    pub encrypted_record: Seq<u8>,
}

impl View for TLSCiphertext {
    type V = TLSCiphertextModel;

    open spec fn view(&self) -> TLSCiphertextModel {
        TLSCiphertextModel {
            opaque_type: self.opaque_type,
            legacy_record_version: self.legacy_record_version,
            length: self.length,
            encrypted_record: self.encrypted_record@,
        }
    }
}

impl TLSCiphertextModel {
    pub open spec fn wf(self) -> bool {
        &&& self.opaque_type.is_canonical()
        &&& self.length == self.encrypted_record.len()
        &&& self.encrypted_record.len() <= MAX_CIPHERTEXT
    }
}

pub open spec fn ser_ciphertext(m: TLSCiphertextModel) -> Seq<u8> {
    ser_u8(m.opaque_type.code()) + ser_u16(m.legacy_record_version) + ser_opaque(2, m.encrypted_record)
}

pub open spec fn parse_ciphertext(s: Seq<u8>) -> SpecResult<TLSCiphertextModel> {
    match parse_u8(s) {
        Err(e) => Err(e),
        Ok((t, _)) => match parse_u16(skip(s, 1)) {
            Err(e) => Err(e),
            Ok((ver, _)) => match parse_opaque(2, skip(s, 3)) {
                Err(e) => Err(e),
                Ok((frag, n)) => if frag.len() > MAX_CIPHERTEXT {
                    Err(DecodeError::InvalidVectorLength)
                } else {
                    Ok((
                        TLSCiphertextModel {
                            opaque_type: ContentType::spec_from_code(t),
                            legacy_record_version: ver,
                            length: frag.len() as u16,
                            encrypted_record: frag,
                        },
                        3 + n,
                    ))
                },
            },
        },
    }
}

/// Decoding the encoding of a well-formed encrypted record gives it back.
pub proof fn lemma_ciphertext_round_trip(m: TLSCiphertextModel, rest: Seq<u8>)
    requires
        m.wf(),
    ensures
        parse_ciphertext(ser_ciphertext(m) + rest) == Ok::<(TLSCiphertextModel, nat), DecodeError>(
            (m, ser_ciphertext(m).len()),
        ),
{
    let s = ser_ciphertext(m) + rest;
    let a = ser_u8(m.opaque_type.code());
    let b = ser_u16(m.legacy_record_version);
    let c = ser_opaque(2, m.encrypted_record);
    assert(s =~= a + (b + (c + rest)));
    lemma_u8(m.opaque_type.code(), b + (c + rest));
    lemma_skip(a, b + (c + rest));
    lemma_u16(m.legacy_record_version, c + rest);
    assert(skip(s, 3) =~= c + rest);
    lemma_opaque(2, m.encrypted_record, rest);
    ContentType::lemma_codes(m.opaque_type.code(), m.opaque_type);
}

/// A well-formed record cut short by any number of bytes is refused as truncated.
pub proof fn lemma_ciphertext_truncated(m: TLSCiphertextModel, k: nat)
    requires
        m.wf(),
        k < ser_ciphertext(m).len(),
    ensures
        parse_ciphertext(ser_ciphertext(m).take(k as int)) == Err::<(TLSCiphertextModel, nat), DecodeError>(
            DecodeError::TruncatedInput,
        ),
{
    let c = ser_opaque(2, m.encrypted_record);
    lemma_opaque(2, m.encrypted_record, Seq::empty());
    let t = ser_ciphertext(m).take(k as int);
    if k >= 3 {
        assert(skip(t, 3) =~= c.take(k - 3));
        lemma_opaque_truncated(2, m.encrypted_record, (k - 3) as nat);
    }
}

impl TLSCiphertext {
    /// An encrypted record with the legacy version and a length that matches the encrypted_record.
    pub fn new(opaque_type: ContentType, encrypted_record: Vec<u8>) -> (r: Self)
        requires
            encrypted_record@.len() <= MAX_CIPHERTEXT,
        ensures
            r@ == (TLSCiphertextModel {
                opaque_type,
                legacy_record_version: LEGACY_VERSION,
                length: encrypted_record@.len() as u16,
                encrypted_record: encrypted_record@,
            }),
    {
        let length = encrypted_record.len() as u16;
        TLSCiphertext { opaque_type, legacy_record_version: LEGACY_VERSION, length, encrypted_record }
    }

    /// Decodes a record from the start of `s`, returning it and the bytes consumed.
    pub fn decode(s: &[u8]) -> (r: Result<(Self, usize), DecodeError>)
        ensures
            decoded_as(r, parse_ciphertext(s@)),
    {
        let (t, _) = read_u8(s)?;
        let (ver, _) = read_u16(vstd::slice::slice_subrange(s, 1, s.len()))?;
        let (frag, n) = read_opaque(vstd::slice::slice_subrange(s, 3, s.len()), 2)?;
        if frag.len() > MAX_CIPHERTEXT {
            return Err(DecodeError::InvalidVectorLength);
        }
        let length = frag.len() as u16;
        Ok((
            TLSCiphertext {
                opaque_type: ContentType::from_code(t),
                legacy_record_version: ver,
                length,
                encrypted_record: frag,
            },
            3 + n,
        ))
    }

    pub fn encode(&self, out: &mut Vec<u8>)
        requires
            self@.wf(),
        ensures
            final(out)@ == old(out)@ + ser_ciphertext(self@),
    {
        put_u8(out, self.opaque_type.to_code());
        put_u16(out, self.legacy_record_version);
        put_opaque(out, 2, self.encrypted_record.as_slice());
        assert(out@ =~= old(out)@ + ser_ciphertext(self@));
    }
}

/// The structure an encryption step consumes: content, its true type, then zeros.
pub struct TLSInnerPlaintext {
    pub content: Vec<u8>,
    pub type_: ContentType,
    pub zeros: Vec<u8>,
}

pub ghost struct TLSInnerPlaintextModel {
    pub content: Seq<u8>,
    pub type_: ContentType,
    pub zeros: Seq<u8>,
}

impl View for TLSInnerPlaintext {
    type V = TLSInnerPlaintextModel;

    open spec fn view(&self) -> TLSInnerPlaintextModel {
        TLSInnerPlaintextModel { content: self.content@, type_: self.type_, zeros: self.zeros@ }
    }
}

pub open spec fn all_zero(s: Seq<u8>) -> bool {
    forall|i: int| 0 <= i < s.len() ==> s[i] == 0
}

impl TLSInnerPlaintextModel {
    /// The type byte is the last non-zero byte, so it cannot be zero itself.
    pub open spec fn wf(self) -> bool {
        &&& self.type_.is_canonical()
        &&& self.type_.code() != 0
        &&& all_zero(self.zeros)
    }
}

pub open spec fn ser_inner(m: TLSInnerPlaintextModel) -> Seq<u8> {
    m.content + ser_u8(m.type_.code()) + m.zeros
}

/// The index of the last non-zero byte, if any.
pub open spec fn last_nonzero(s: Seq<u8>) -> Option<nat>
    decreases s.len(),
{
    if s.len() == 0 {
        None
    } else if s.last() != 0 {
        Some((s.len() - 1) as nat)
    } else {
        last_nonzero(s.drop_last())
    }
}

/// Splits a decrypted payload at its last non-zero byte; `None` when every byte is zero.
pub open spec fn parse_inner(s: Seq<u8>) -> Option<TLSInnerPlaintextModel> {
    match last_nonzero(s) {
        None => None,
        Some(i) => Some(
            TLSInnerPlaintextModel {
                content: s.subrange(0, i as int),
                type_: ContentType::spec_from_code(s[i as int]),
                zeros: s.subrange(i as int + 1, s.len() as int),
            },
        ),
    }
}

proof fn lemma_last_nonzero_zeros(a: Seq<u8>, z: Seq<u8>)
    requires
        a.len() > 0,
        a.last() != 0,
        all_zero(z),
    ensures
        last_nonzero(a + z) == Some((a.len() - 1) as nat),
    decreases z.len(),
{
    if z.len() > 0 {
        assert((a + z).drop_last() =~= a + z.drop_last());
        lemma_last_nonzero_zeros(a, z.drop_last());
    } else {
        assert(a + z =~= a);
    }
}

/// Splitting the encoding of a well-formed inner plaintext gives it back.
pub proof fn lemma_inner_round_trip(m: TLSInnerPlaintextModel)
    requires
        m.wf(),
    ensures
        parse_inner(ser_inner(m)) == Some(m),
{
    let a = m.content + ser_u8(m.type_.code());
    lemma_last_nonzero_zeros(a, m.zeros);
    let s = ser_inner(m);
    assert(s.subrange(0, m.content.len() as int) =~= m.content);
    assert(s.subrange(m.content.len() as int + 1, s.len() as int) =~= m.zeros);
    ContentType::lemma_codes(m.type_.code(), m.type_);
}

impl TLSInnerPlaintext {
    /// Wraps the fragment and type of a record and appends `padding` zero bytes.
    pub fn from_plaintext(p: &TLSPlaintext, padding: usize) -> (r: Self)
        ensures
            r@ == (TLSInnerPlaintextModel {
                content: p.fragment@,
                type_: p.type_,
                zeros: Seq::new(padding as nat, |i: int| 0u8),
            }),
    {
        let content = p.fragment.clone();
        let mut zeros: Vec<u8> = Vec::new();
        let mut i: usize = 0;
        while i < padding
            invariant
                i <= padding,
                zeros@ == Seq::new(i as nat, |j: int| 0u8),
            decreases padding - i,
        {
            zeros.push(0u8);
            i = i + 1;
            assert(zeros@ =~= Seq::new(i as nat, |j: int| 0u8));
        }
        TLSInnerPlaintext { content, type_: p.type_, zeros }
    }

    /// Splits a decrypted payload; `None` when it holds no non-zero byte.
    pub fn decode(s: &[u8]) -> (r: Option<Self>)
        ensures
            r matches Some(v) ==> parse_inner(s@) == Some(v@),
            r is None ==> parse_inner(s@) is None,
    {
        let mut k: usize = s.len();
        assert(s@.subrange(0, k as int) =~= s@);
        while k > 0 && s[k - 1] == 0
            invariant
                k <= s@.len(),
                last_nonzero(s@) == last_nonzero(s@.subrange(0, k as int)),
            decreases k,
        {
            assert(s@.subrange(0, k as int).drop_last() =~= s@.subrange(0, k - 1));
            k = k - 1;
        }
        if k == 0 {
            assert(s@.subrange(0, 0) =~= Seq::<u8>::empty());
            return None;
        }
        let i = k - 1;
        assert(last_nonzero(s@.subrange(0, k as int)) == Some(i as nat));
        let content = vstd::slice::slice_to_vec(vstd::slice::slice_subrange(s, 0, i));
        let zeros = vstd::slice::slice_to_vec(vstd::slice::slice_subrange(s, k, s.len()));
        Some(TLSInnerPlaintext { content, type_: ContentType::from_code(s[i]), zeros })
    }

    pub fn encode(&self, out: &mut Vec<u8>)
        ensures
            final(out)@ == old(out)@ + ser_inner(self@),
    {
        put_bytes(out, self.content.as_slice());
        put_u8(out, self.type_.to_code());
        put_bytes(out, self.zeros.as_slice());
        assert(out@ =~= old(out)@ + ser_inner(self@));
    }
}

} // verus!
