//! Discriminant families: each maps every wire code to a variant and back.
use vstd::prelude::*;

verus! {

/// Record content type.
#[derive(Debug, Clone, Copy, PartialEq, Eq, Structural)]
pub enum ContentType {
    Invalid,
    ChangeCipherSpec,
    Alert,
    Handshake,
    ApplicationData,
    /// A code with no assigned meaning, kept as read.
    Unknown(u8),
}

impl View for ContentType {
    type V = ContentType;

    open spec fn view(&self) -> ContentType {
        *self
    }
}

impl ContentType {
    /// The codes with an assigned variant.
    pub open spec fn is_assigned(c: u8) -> bool {
        c == 0x00 || c == 0x14 || c == 0x15 || c == 0x16 || c == 0x17
    }

    pub open spec fn spec_from_code(c: u8) -> Self {
        if c == 0x00 {
            ContentType::Invalid
        } else if c == 0x14 {
            ContentType::ChangeCipherSpec
        } else if c == 0x15 {
            ContentType::Alert
        } else if c == 0x16 {
            ContentType::Handshake
        } else if c == 0x17 {
            ContentType::ApplicationData
        } else {
            ContentType::Unknown(c)
        }
    }

    pub open spec fn code(self) -> u8 {
        match self {
            ContentType::Invalid => 0x00,
            ContentType::ChangeCipherSpec => 0x14,
            ContentType::Alert => 0x15,
            ContentType::Handshake => 0x16,
            ContentType::ApplicationData => 0x17,
            ContentType::Unknown(c) => c,
        }
    }

    /// A raw code is held only where no variant stands for it.
    pub open spec fn is_canonical(self) -> bool {
        match self {
            ContentType::Unknown(c) => !Self::is_assigned(c),
            _ => true,
        }
    }

    pub fn from_code(c: u8) -> (r: Self)
        ensures
            r == Self::spec_from_code(c),
    {
        match c {
            0x00 => ContentType::Invalid,
            0x14 => ContentType::ChangeCipherSpec,
            0x15 => ContentType::Alert,
            0x16 => ContentType::Handshake,
            0x17 => ContentType::ApplicationData,
            _ => ContentType::Unknown(c),
        }
    }

    pub fn to_code(self) -> (r: u8)
        ensures
            r == self.code(),
    {
        match self {
            ContentType::Invalid => 0x00,
            ContentType::ChangeCipherSpec => 0x14,
            ContentType::Alert => 0x15,
            ContentType::Handshake => 0x16,
            ContentType::ApplicationData => 0x17,
            ContentType::Unknown(c) => c,
        }
    }

    /// Every code decodes to a canonical variant that encodes back to it; a canonical
    /// variant survives encoding and decoding; a code without a variant decodes to `Unknown`.
    pub proof fn lemma_codes(c: u8, v: Self)
        ensures
            Self::spec_from_code(c).code() == c,
            Self::spec_from_code(c).is_canonical(),
            v.is_canonical() ==> Self::spec_from_code(v.code()) == v,
            (!Self::is_assigned(c)) ==> Self::spec_from_code(c) == ContentType::Unknown(c),
    {
    }
}

/// Handshake message type.
#[derive(Debug, Clone, Copy, PartialEq, Eq, Structural)]
pub enum HandshakeType {
    ClientHello,
    ServerHello,
    NewSessionTicket,
    EndOfEarlyData,
    EncryptedExtensions,
    Certificate,
    CertificateRequest,
    CertificateVerify,
    Finished,
    KeyUpdate,
    MessageHash,
    /// A code with no assigned meaning, kept as read.
    Unknown(u8),
}

impl View for HandshakeType {
    type V = HandshakeType;

    open spec fn view(&self) -> HandshakeType {
        *self
    }
}

impl HandshakeType {
    /// The codes with an assigned variant.
    pub open spec fn is_assigned(c: u8) -> bool {
        c == 0x01 || c == 0x02 || c == 0x04 || c == 0x05 || c == 0x08 || c == 0x0b || c == 0x0d || c == 0x0f || c == 0x14 || c == 0x18 || c == 0xfe
    }

    pub open spec fn spec_from_code(c: u8) -> Self {
        if c == 0x01 {
            HandshakeType::ClientHello
        } else if c == 0x02 {
            HandshakeType::ServerHello
        } else if c == 0x04 {
            HandshakeType::NewSessionTicket
        } else if c == 0x05 {
            HandshakeType::EndOfEarlyData
        } else if c == 0x08 {
            HandshakeType::EncryptedExtensions
        } else if c == 0x0b {
            HandshakeType::Certificate
        } else if c == 0x0d {
            HandshakeType::CertificateRequest
        } else if c == 0x0f {
            HandshakeType::CertificateVerify
        } else if c == 0x14 {
            HandshakeType::Finished
        } else if c == 0x18 {
            HandshakeType::KeyUpdate
        } else if c == 0xfe {
            HandshakeType::MessageHash
        } else {
            HandshakeType::Unknown(c)
        }
    }

    pub open spec fn code(self) -> u8 {
        match self {
            HandshakeType::ClientHello => 0x01,
            HandshakeType::ServerHello => 0x02,
            HandshakeType::NewSessionTicket => 0x04,
            HandshakeType::EndOfEarlyData => 0x05,
            HandshakeType::EncryptedExtensions => 0x08,
            HandshakeType::Certificate => 0x0b,
            HandshakeType::CertificateRequest => 0x0d,
            HandshakeType::CertificateVerify => 0x0f,
            HandshakeType::Finished => 0x14,
            HandshakeType::KeyUpdate => 0x18,
            HandshakeType::MessageHash => 0xfe,
            HandshakeType::Unknown(c) => c,
        }
    }

    /// A raw code is held only where no variant stands for it.
    pub open spec fn is_canonical(self) -> bool {
        match self {
            HandshakeType::Unknown(c) => !Self::is_assigned(c),
            _ => true,
        }
    }

    pub fn from_code(c: u8) -> (r: Self)
        ensures
            r == Self::spec_from_code(c),
    {
        match c {
            0x01 => HandshakeType::ClientHello,
            0x02 => HandshakeType::ServerHello,
            0x04 => HandshakeType::NewSessionTicket,
            0x05 => HandshakeType::EndOfEarlyData,
            0x08 => HandshakeType::EncryptedExtensions,
            0x0b => HandshakeType::Certificate,
            0x0d => HandshakeType::CertificateRequest,
            0x0f => HandshakeType::CertificateVerify,
            0x14 => HandshakeType::Finished,
            0x18 => HandshakeType::KeyUpdate,
            0xfe => HandshakeType::MessageHash,
            _ => HandshakeType::Unknown(c),
        }
    }

    pub fn to_code(self) -> (r: u8)
        ensures
            r == self.code(),
    {
        match self {
            HandshakeType::ClientHello => 0x01,
            HandshakeType::ServerHello => 0x02,
            HandshakeType::NewSessionTicket => 0x04,
            HandshakeType::EndOfEarlyData => 0x05,
            HandshakeType::EncryptedExtensions => 0x08,
            HandshakeType::Certificate => 0x0b,
            HandshakeType::CertificateRequest => 0x0d,
            HandshakeType::CertificateVerify => 0x0f,
            HandshakeType::Finished => 0x14,
            HandshakeType::KeyUpdate => 0x18,
            HandshakeType::MessageHash => 0xfe,
            HandshakeType::Unknown(c) => c,
        }
    }

    /// Every code decodes to a canonical variant that encodes back to it; a canonical
    /// variant survives encoding and decoding; a code without a variant decodes to `Unknown`.
    pub proof fn lemma_codes(c: u8, v: Self)
        ensures
            Self::spec_from_code(c).code() == c,
            Self::spec_from_code(c).is_canonical(),
            v.is_canonical() ==> Self::spec_from_code(v.code()) == v,
            (!Self::is_assigned(c)) ==> Self::spec_from_code(c) == HandshakeType::Unknown(c),
    {
    }
}

/// Alert severity.
#[derive(Debug, Clone, Copy, PartialEq, Eq, Structural)]
pub enum AlertLevel {
    Warning,
    Fatal,
    /// A code with no assigned meaning, kept as read.
    Unknown(u8),
}

impl View for AlertLevel {
    type V = AlertLevel;

    open spec fn view(&self) -> AlertLevel {
        *self
    }
}

impl AlertLevel {
    /// The codes with an assigned variant.
    pub open spec fn is_assigned(c: u8) -> bool {
        c == 0x01 || c == 0x02
    }

    pub open spec fn spec_from_code(c: u8) -> Self {
        if c == 0x01 {
            AlertLevel::Warning
        } else if c == 0x02 {
            AlertLevel::Fatal
        } else {
            AlertLevel::Unknown(c)
        }
    }

    pub open spec fn code(self) -> u8 {
        match self {
            AlertLevel::Warning => 0x01,
            AlertLevel::Fatal => 0x02,
            AlertLevel::Unknown(c) => c,
        }
    }

    /// A raw code is held only where no variant stands for it.
    pub open spec fn is_canonical(self) -> bool {
        match self {
            AlertLevel::Unknown(c) => !Self::is_assigned(c),
            _ => true,
        }
    }

    pub fn from_code(c: u8) -> (r: Self)
        ensures
            r == Self::spec_from_code(c),
    {
        match c {
            0x01 => AlertLevel::Warning,
            0x02 => AlertLevel::Fatal,
            _ => AlertLevel::Unknown(c),
        }
    }

    pub fn to_code(self) -> (r: u8)
        ensures
            r == self.code(),
    {
        match self {
            AlertLevel::Warning => 0x01,
            AlertLevel::Fatal => 0x02,
            AlertLevel::Unknown(c) => c,
        }
    }

    /// Every code decodes to a canonical variant that encodes back to it; a canonical
    /// variant survives encoding and decoding; a code without a variant decodes to `Unknown`.
    pub proof fn lemma_codes(c: u8, v: Self)
        ensures
            Self::spec_from_code(c).code() == c,
            Self::spec_from_code(c).is_canonical(),
            v.is_canonical() ==> Self::spec_from_code(v.code()) == v,
            (!Self::is_assigned(c)) ==> Self::spec_from_code(c) == AlertLevel::Unknown(c),
    {
    }
}

/// Alert description.
#[derive(Debug, Clone, Copy, PartialEq, Eq, Structural)]
pub enum AlertDescription {
    CloseNotify,
    UnexpectedMessage,
    BadRecordMac,
    RecordOverflow,
    HandshakeFailure,
    BadCertificate,
    UnsupportedCertificate,
    CertificateRevoked,
    CertificateExpired,
    CertificateUnknown,
    IllegalParameter,
    UnknownCa,
    AccessDenied,
    DecodeError,
    DecryptError,
    ProtocolVersion,
    InsufficientSecurity,
    InternalError,
    InappropriateFallback,
    UserCanceled,
    MissingExtension,
    UnsupportedExtension,
    UnrecognizedName,
    BadCertificateStatusResponse,
    UnknownPskIdentity,
    CertificateRequired,
    NoApplicationProtocol,
    /// A code with no assigned meaning, kept as read.
    Unknown(u8),
}

impl View for AlertDescription {
    type V = AlertDescription;

    open spec fn view(&self) -> AlertDescription {
        *self
    }
}

impl AlertDescription {
    /// The codes with an assigned variant.
    pub open spec fn is_assigned(c: u8) -> bool {
        c == 0x00 || c == 0x0a || c == 0x14 || c == 0x16 || c == 0x28 || c == 0x2a || c == 0x2b || c == 0x2c || c == 0x2d || c == 0x2e || c == 0x2f || c == 0x30 || c == 0x31 || c == 0x32 || c == 0x33 || c == 0x46 || c == 0x47 || c == 0x50 || c == 0x56 || c == 0x5a || c == 0x6d || c == 0x6e || c == 0x70 || c == 0x71 || c == 0x73 || c == 0x74 || c == 0x78
    }

    pub open spec fn spec_from_code(c: u8) -> Self {
        if c == 0x00 {
            AlertDescription::CloseNotify
        } else if c == 0x0a {
            AlertDescription::UnexpectedMessage
        } else if c == 0x14 {
            AlertDescription::BadRecordMac
        } else if c == 0x16 {
            AlertDescription::RecordOverflow
        } else if c == 0x28 {
            AlertDescription::HandshakeFailure
        } else if c == 0x2a {
            AlertDescription::BadCertificate
        } else if c == 0x2b {
            AlertDescription::UnsupportedCertificate
        } else if c == 0x2c {
            AlertDescription::CertificateRevoked
        } else if c == 0x2d {
            AlertDescription::CertificateExpired
        } else if c == 0x2e {
            AlertDescription::CertificateUnknown
        } else if c == 0x2f {
            AlertDescription::IllegalParameter
        } else if c == 0x30 {
            AlertDescription::UnknownCa
        } else if c == 0x31 {
            AlertDescription::AccessDenied
        } else if c == 0x32 {
            AlertDescription::DecodeError
        } else if c == 0x33 {
            AlertDescription::DecryptError
        } else if c == 0x46 {
            AlertDescription::ProtocolVersion
        } else if c == 0x47 {
            AlertDescription::InsufficientSecurity
        } else if c == 0x50 {
            AlertDescription::InternalError
        } else if c == 0x56 {
            AlertDescription::InappropriateFallback
        } else if c == 0x5a {
            AlertDescription::UserCanceled
        } else if c == 0x6d {
            AlertDescription::MissingExtension
        } else if c == 0x6e {
            AlertDescription::UnsupportedExtension
        } else if c == 0x70 {
            AlertDescription::UnrecognizedName
        } else if c == 0x71 {
            AlertDescription::BadCertificateStatusResponse
        } else if c == 0x73 {
            AlertDescription::UnknownPskIdentity
        } else if c == 0x74 {
            AlertDescription::CertificateRequired
        } else if c == 0x78 {
            AlertDescription::NoApplicationProtocol
        } else {
            AlertDescription::Unknown(c)
        }
    }

    pub open spec fn code(self) -> u8 {
        match self {
            AlertDescription::CloseNotify => 0x00,
            AlertDescription::UnexpectedMessage => 0x0a,
            AlertDescription::BadRecordMac => 0x14,
            AlertDescription::RecordOverflow => 0x16,
            AlertDescription::HandshakeFailure => 0x28,
            AlertDescription::BadCertificate => 0x2a,
            AlertDescription::UnsupportedCertificate => 0x2b,
            AlertDescription::CertificateRevoked => 0x2c,
            AlertDescription::CertificateExpired => 0x2d,
            AlertDescription::CertificateUnknown => 0x2e,
            AlertDescription::IllegalParameter => 0x2f,
            AlertDescription::UnknownCa => 0x30,
            AlertDescription::AccessDenied => 0x31,
            AlertDescription::DecodeError => 0x32,
            AlertDescription::DecryptError => 0x33,
            AlertDescription::ProtocolVersion => 0x46,
            AlertDescription::InsufficientSecurity => 0x47,
            AlertDescription::InternalError => 0x50,
            AlertDescription::InappropriateFallback => 0x56,
            AlertDescription::UserCanceled => 0x5a,
            AlertDescription::MissingExtension => 0x6d,
            AlertDescription::UnsupportedExtension => 0x6e,
            AlertDescription::UnrecognizedName => 0x70,
            AlertDescription::BadCertificateStatusResponse => 0x71,
            AlertDescription::UnknownPskIdentity => 0x73,
            AlertDescription::CertificateRequired => 0x74,
            AlertDescription::NoApplicationProtocol => 0x78,
            AlertDescription::Unknown(c) => c,
        }
    }

    /// A raw code is held only where no variant stands for it.
    pub open spec fn is_canonical(self) -> bool {
        match self {
            AlertDescription::Unknown(c) => !Self::is_assigned(c),
            _ => true,
        }
    }

    pub fn from_code(c: u8) -> (r: Self)
        ensures
            r == Self::spec_from_code(c),
    {
        match c {
            0x00 => AlertDescription::CloseNotify,
            0x0a => AlertDescription::UnexpectedMessage,
            0x14 => AlertDescription::BadRecordMac,
            0x16 => AlertDescription::RecordOverflow,
            0x28 => AlertDescription::HandshakeFailure,
            0x2a => AlertDescription::BadCertificate,
            0x2b => AlertDescription::UnsupportedCertificate,
            0x2c => AlertDescription::CertificateRevoked,
            0x2d => AlertDescription::CertificateExpired,
            0x2e => AlertDescription::CertificateUnknown,
            0x2f => AlertDescription::IllegalParameter,
            0x30 => AlertDescription::UnknownCa,
            0x31 => AlertDescription::AccessDenied,
            0x32 => AlertDescription::DecodeError,
            0x33 => AlertDescription::DecryptError,
            0x46 => AlertDescription::ProtocolVersion,
            0x47 => AlertDescription::InsufficientSecurity,
            0x50 => AlertDescription::InternalError,
            0x56 => AlertDescription::InappropriateFallback,
            0x5a => AlertDescription::UserCanceled,
            0x6d => AlertDescription::MissingExtension,
            0x6e => AlertDescription::UnsupportedExtension,
            0x70 => AlertDescription::UnrecognizedName,
            0x71 => AlertDescription::BadCertificateStatusResponse,
            0x73 => AlertDescription::UnknownPskIdentity,
            0x74 => AlertDescription::CertificateRequired,
            0x78 => AlertDescription::NoApplicationProtocol,
            _ => AlertDescription::Unknown(c),
        }
    }

    pub fn to_code(self) -> (r: u8)
        ensures
            r == self.code(),
    {
        match self {
            AlertDescription::CloseNotify => 0x00,
            AlertDescription::UnexpectedMessage => 0x0a,
            AlertDescription::BadRecordMac => 0x14,
            AlertDescription::RecordOverflow => 0x16,
            AlertDescription::HandshakeFailure => 0x28,
            AlertDescription::BadCertificate => 0x2a,
            AlertDescription::UnsupportedCertificate => 0x2b,
            AlertDescription::CertificateRevoked => 0x2c,
            AlertDescription::CertificateExpired => 0x2d,
            AlertDescription::CertificateUnknown => 0x2e,
            AlertDescription::IllegalParameter => 0x2f,
            AlertDescription::UnknownCa => 0x30,
            AlertDescription::AccessDenied => 0x31,
            AlertDescription::DecodeError => 0x32,
            AlertDescription::DecryptError => 0x33,
            AlertDescription::ProtocolVersion => 0x46,
            AlertDescription::InsufficientSecurity => 0x47,
            AlertDescription::InternalError => 0x50,
            AlertDescription::InappropriateFallback => 0x56,
            AlertDescription::UserCanceled => 0x5a,
            AlertDescription::MissingExtension => 0x6d,
            AlertDescription::UnsupportedExtension => 0x6e,
            AlertDescription::UnrecognizedName => 0x70,
            AlertDescription::BadCertificateStatusResponse => 0x71,
            AlertDescription::UnknownPskIdentity => 0x73,
            AlertDescription::CertificateRequired => 0x74,
            AlertDescription::NoApplicationProtocol => 0x78,
            AlertDescription::Unknown(c) => c,
        }
    }

    /// Every code decodes to a canonical variant that encodes back to it; a canonical
    /// variant survives encoding and decoding; a code without a variant decodes to `Unknown`.
    pub proof fn lemma_codes(c: u8, v: Self)
        ensures
            Self::spec_from_code(c).code() == c,
            Self::spec_from_code(c).is_canonical(),
            v.is_canonical() ==> Self::spec_from_code(v.code()) == v,
            (!Self::is_assigned(c)) ==> Self::spec_from_code(c) == AlertDescription::Unknown(c),
    {
    }
}

/// PSK key exchange mode.
#[derive(Debug, Clone, Copy, PartialEq, Eq, Structural)]
pub enum PskKeyExchangeMode {
    PskKe,
    PskDheKe,
    /// A code with no assigned meaning, kept as read.
    Unknown(u8),
}

impl View for PskKeyExchangeMode {
    type V = PskKeyExchangeMode;

    open spec fn view(&self) -> PskKeyExchangeMode {
        *self
    }
}

impl PskKeyExchangeMode {
    /// The codes with an assigned variant.
    pub open spec fn is_assigned(c: u8) -> bool {
        c == 0x00 || c == 0x01
    }

    pub open spec fn spec_from_code(c: u8) -> Self {
        if c == 0x00 {
            PskKeyExchangeMode::PskKe
        } else if c == 0x01 {
            PskKeyExchangeMode::PskDheKe
        } else {
            PskKeyExchangeMode::Unknown(c)
        }
    }

    pub open spec fn code(self) -> u8 {
        match self {
            PskKeyExchangeMode::PskKe => 0x00,
            PskKeyExchangeMode::PskDheKe => 0x01,
            PskKeyExchangeMode::Unknown(c) => c,
        }
    }

    /// A raw code is held only where no variant stands for it.
    pub open spec fn is_canonical(self) -> bool {
        match self {
            PskKeyExchangeMode::Unknown(c) => !Self::is_assigned(c),
            _ => true,
        }
    }

    pub fn from_code(c: u8) -> (r: Self)
        ensures
            r == Self::spec_from_code(c),
    {
        match c {
            0x00 => PskKeyExchangeMode::PskKe,
            0x01 => PskKeyExchangeMode::PskDheKe,
            _ => PskKeyExchangeMode::Unknown(c),
        }
    }

    pub fn to_code(self) -> (r: u8)
        ensures
            r == self.code(),
    {
        match self {
            PskKeyExchangeMode::PskKe => 0x00,
            PskKeyExchangeMode::PskDheKe => 0x01,
            PskKeyExchangeMode::Unknown(c) => c,
        }
    }

    /// Every code decodes to a canonical variant that encodes back to it; a canonical
    /// variant survives encoding and decoding; a code without a variant decodes to `Unknown`.
    pub proof fn lemma_codes(c: u8, v: Self)
        ensures
            Self::spec_from_code(c).code() == c,
            Self::spec_from_code(c).is_canonical(),
            v.is_canonical() ==> Self::spec_from_code(v.code()) == v,
            (!Self::is_assigned(c)) ==> Self::spec_from_code(c) == PskKeyExchangeMode::Unknown(c),
    {
    }
}

/// Whether the peer is asked to update its keys too.
#[derive(Debug, Clone, Copy, PartialEq, Eq, Structural)]
pub enum KeyUpdateRequest {
    UpdateNotRequested,
    UpdateRequested,
    /// A code with no assigned meaning, kept as read.
    Unknown(u8),
}

impl View for KeyUpdateRequest {
    type V = KeyUpdateRequest;

    open spec fn view(&self) -> KeyUpdateRequest {
        *self
    }
}

impl KeyUpdateRequest {
    /// The codes with an assigned variant.
    pub open spec fn is_assigned(c: u8) -> bool {
        c == 0x00 || c == 0x01
    }

    pub open spec fn spec_from_code(c: u8) -> Self {
        if c == 0x00 {
            KeyUpdateRequest::UpdateNotRequested
        } else if c == 0x01 {
            KeyUpdateRequest::UpdateRequested
        } else {
            KeyUpdateRequest::Unknown(c)
        }
    }

    pub open spec fn code(self) -> u8 {
        match self {
            KeyUpdateRequest::UpdateNotRequested => 0x00,
            KeyUpdateRequest::UpdateRequested => 0x01,
            KeyUpdateRequest::Unknown(c) => c,
        }
    }

    /// A raw code is held only where no variant stands for it.
    pub open spec fn is_canonical(self) -> bool {
        match self {
            KeyUpdateRequest::Unknown(c) => !Self::is_assigned(c),
            _ => true,
        }
    }

    pub fn from_code(c: u8) -> (r: Self)
        ensures
            r == Self::spec_from_code(c),
    {
        match c {
            0x00 => KeyUpdateRequest::UpdateNotRequested,
            0x01 => KeyUpdateRequest::UpdateRequested,
            _ => KeyUpdateRequest::Unknown(c),
        }
    }

    pub fn to_code(self) -> (r: u8)
        ensures
            r == self.code(),
    {
        match self {
            KeyUpdateRequest::UpdateNotRequested => 0x00,
            KeyUpdateRequest::UpdateRequested => 0x01,
            KeyUpdateRequest::Unknown(c) => c,
        }
    }

    /// Every code decodes to a canonical variant that encodes back to it; a canonical
    /// variant survives encoding and decoding; a code without a variant decodes to `Unknown`.
    pub proof fn lemma_codes(c: u8, v: Self)
        ensures
            Self::spec_from_code(c).code() == c,
            Self::spec_from_code(c).is_canonical(),
            v.is_canonical() ==> Self::spec_from_code(v.code()) == v,
            (!Self::is_assigned(c)) ==> Self::spec_from_code(c) == KeyUpdateRequest::Unknown(c),
    {
    }
}

/// Certificate type (RFC 7250).
#[derive(Debug, Clone, Copy, PartialEq, Eq, Structural)]
pub enum CertificateType {
    X509,
    RawPublicKey,
    /// A code with no assigned meaning, kept as read.
    Unknown(u8),
}

impl View for CertificateType {
    type V = CertificateType;

    open spec fn view(&self) -> CertificateType {
        *self
    }
}

impl CertificateType {
    /// The codes with an assigned variant.
    pub open spec fn is_assigned(c: u8) -> bool {
        c == 0x00 || c == 0x02
    }

    pub open spec fn spec_from_code(c: u8) -> Self {
        if c == 0x00 {
            CertificateType::X509
        } else if c == 0x02 {
            CertificateType::RawPublicKey
        } else {
            CertificateType::Unknown(c)
        }
    }

    pub open spec fn code(self) -> u8 {
        match self {
            CertificateType::X509 => 0x00,
            CertificateType::RawPublicKey => 0x02,
            CertificateType::Unknown(c) => c,
        }
    }

    /// A raw code is held only where no variant stands for it.
    pub open spec fn is_canonical(self) -> bool {
        match self {
            CertificateType::Unknown(c) => !Self::is_assigned(c),
            _ => true,
        }
    }

    pub fn from_code(c: u8) -> (r: Self)
        ensures
            r == Self::spec_from_code(c),
    {
        match c {
            0x00 => CertificateType::X509,
            0x02 => CertificateType::RawPublicKey,
            _ => CertificateType::Unknown(c),
        }
    }

    pub fn to_code(self) -> (r: u8)
        ensures
            r == self.code(),
    {
        match self {
            CertificateType::X509 => 0x00,
            CertificateType::RawPublicKey => 0x02,
            CertificateType::Unknown(c) => c,
        }
    }

    /// Every code decodes to a canonical variant that encodes back to it; a canonical
    /// variant survives encoding and decoding; a code without a variant decodes to `Unknown`.
    pub proof fn lemma_codes(c: u8, v: Self)
        ensures
            Self::spec_from_code(c).code() == c,
            Self::spec_from_code(c).is_canonical(),
            v.is_canonical() ==> Self::spec_from_code(v.code()) == v,
            (!Self::is_assigned(c)) ==> Self::spec_from_code(c) == CertificateType::Unknown(c),
    {
    }
}

/// Extension type.
#[derive(Debug, Clone, Copy, PartialEq, Eq, Structural)]
pub enum ExtensionType {
    ServerName,
    MaxFragmentLength,
    StatusRequest,
    SupportedGroups,
    SignatureAlgorithms,
    UseSrtp,
    Heartbeat,
    ApplicationLayerProtocolNegotiation,
    SignedCertificateTimestamp,
    ClientCertificateType,
    ServerCertificateType,
    Padding,
    PreSharedKey,
    EarlyData,
    SupportedVersions,
    Cookie,
    PskKeyExchangeModes,
    CertificateAuthorities,
    OidFilters,
    PostHandshakeAuth,
    SignatureAlgorithmsCert,
    KeyShare,
    /// A code with no assigned meaning, kept as read.
    Unknown(u16),
}

impl View for ExtensionType {
    type V = ExtensionType;

    open spec fn view(&self) -> ExtensionType {
        *self
    }
}

impl ExtensionType {
    /// The codes with an assigned variant.
    pub open spec fn is_assigned(c: u16) -> bool {
        c == 0x0000 || c == 0x0001 || c == 0x0005 || c == 0x000a || c == 0x000d || c == 0x000e || c == 0x000f || c == 0x0010 || c == 0x0012 || c == 0x0013 || c == 0x0014 || c == 0x0015 || c == 0x0029 || c == 0x002a || c == 0x002b || c == 0x002c || c == 0x002d || c == 0x002f || c == 0x0030 || c == 0x0031 || c == 0x0032 || c == 0x0033
    }

    pub open spec fn spec_from_code(c: u16) -> Self {
        if c == 0x0000 {
            ExtensionType::ServerName
        } else if c == 0x0001 {
            ExtensionType::MaxFragmentLength
        } else if c == 0x0005 {
            ExtensionType::StatusRequest
        } else if c == 0x000a {
            ExtensionType::SupportedGroups
        } else if c == 0x000d {
            ExtensionType::SignatureAlgorithms
        } else if c == 0x000e {
            ExtensionType::UseSrtp
        } else if c == 0x000f {
            ExtensionType::Heartbeat
        } else if c == 0x0010 {
            ExtensionType::ApplicationLayerProtocolNegotiation
        } else if c == 0x0012 {
            ExtensionType::SignedCertificateTimestamp
        } else if c == 0x0013 {
            ExtensionType::ClientCertificateType
        } else if c == 0x0014 {
            ExtensionType::ServerCertificateType
        } else if c == 0x0015 {
            ExtensionType::Padding
        } else if c == 0x0029 {
            ExtensionType::PreSharedKey
        } else if c == 0x002a {
            ExtensionType::EarlyData
        } else if c == 0x002b {
            ExtensionType::SupportedVersions
        } else if c == 0x002c {
            ExtensionType::Cookie
        } else if c == 0x002d {
            ExtensionType::PskKeyExchangeModes
        } else if c == 0x002f {
            ExtensionType::CertificateAuthorities
        } else if c == 0x0030 {
            ExtensionType::OidFilters
        } else if c == 0x0031 {
            ExtensionType::PostHandshakeAuth
        } else if c == 0x0032 {
            ExtensionType::SignatureAlgorithmsCert
        } else if c == 0x0033 {
            ExtensionType::KeyShare
        } else {
            ExtensionType::Unknown(c)
        }
    }

    pub open spec fn code(self) -> u16 {
        match self {
            ExtensionType::ServerName => 0x0000,
            ExtensionType::MaxFragmentLength => 0x0001,
            ExtensionType::StatusRequest => 0x0005,
            ExtensionType::SupportedGroups => 0x000a,
            ExtensionType::SignatureAlgorithms => 0x000d,
            ExtensionType::UseSrtp => 0x000e,
            ExtensionType::Heartbeat => 0x000f,
            ExtensionType::ApplicationLayerProtocolNegotiation => 0x0010,
            ExtensionType::SignedCertificateTimestamp => 0x0012,
            ExtensionType::ClientCertificateType => 0x0013,
            ExtensionType::ServerCertificateType => 0x0014,
            ExtensionType::Padding => 0x0015,
            ExtensionType::PreSharedKey => 0x0029,
            ExtensionType::EarlyData => 0x002a,
            ExtensionType::SupportedVersions => 0x002b,
            ExtensionType::Cookie => 0x002c,
            ExtensionType::PskKeyExchangeModes => 0x002d,
            ExtensionType::CertificateAuthorities => 0x002f,
            ExtensionType::OidFilters => 0x0030,
            ExtensionType::PostHandshakeAuth => 0x0031,
            ExtensionType::SignatureAlgorithmsCert => 0x0032,
            ExtensionType::KeyShare => 0x0033,
            ExtensionType::Unknown(c) => c,
        }
    }

    /// A raw code is held only where no variant stands for it.
    pub open spec fn is_canonical(self) -> bool {
        match self {
            ExtensionType::Unknown(c) => !Self::is_assigned(c),
            _ => true,
        }
    }

    pub fn from_code(c: u16) -> (r: Self)
        ensures
            r == Self::spec_from_code(c),
    {
        match c {
            0x0000 => ExtensionType::ServerName,
            0x0001 => ExtensionType::MaxFragmentLength,
            0x0005 => ExtensionType::StatusRequest,
            0x000a => ExtensionType::SupportedGroups,
            0x000d => ExtensionType::SignatureAlgorithms,
            0x000e => ExtensionType::UseSrtp,
            0x000f => ExtensionType::Heartbeat,
            0x0010 => ExtensionType::ApplicationLayerProtocolNegotiation,
            0x0012 => ExtensionType::SignedCertificateTimestamp,
            0x0013 => ExtensionType::ClientCertificateType,
            0x0014 => ExtensionType::ServerCertificateType,
            0x0015 => ExtensionType::Padding,
            0x0029 => ExtensionType::PreSharedKey,
            0x002a => ExtensionType::EarlyData,
            0x002b => ExtensionType::SupportedVersions,
            0x002c => ExtensionType::Cookie,
            0x002d => ExtensionType::PskKeyExchangeModes,
            0x002f => ExtensionType::CertificateAuthorities,
            0x0030 => ExtensionType::OidFilters,
            0x0031 => ExtensionType::PostHandshakeAuth,
            0x0032 => ExtensionType::SignatureAlgorithmsCert,
            0x0033 => ExtensionType::KeyShare,
            _ => ExtensionType::Unknown(c),
        }
    }

    pub fn to_code(self) -> (r: u16)
        ensures
            r == self.code(),
    {
        match self {
            ExtensionType::ServerName => 0x0000,
            ExtensionType::MaxFragmentLength => 0x0001,
            ExtensionType::StatusRequest => 0x0005,
            ExtensionType::SupportedGroups => 0x000a,
            ExtensionType::SignatureAlgorithms => 0x000d,
            ExtensionType::UseSrtp => 0x000e,
            ExtensionType::Heartbeat => 0x000f,
            ExtensionType::ApplicationLayerProtocolNegotiation => 0x0010,
            ExtensionType::SignedCertificateTimestamp => 0x0012,
            ExtensionType::ClientCertificateType => 0x0013,
            ExtensionType::ServerCertificateType => 0x0014,
            ExtensionType::Padding => 0x0015,
            ExtensionType::PreSharedKey => 0x0029,
            ExtensionType::EarlyData => 0x002a,
            ExtensionType::SupportedVersions => 0x002b,
            ExtensionType::Cookie => 0x002c,
            ExtensionType::PskKeyExchangeModes => 0x002d,
            ExtensionType::CertificateAuthorities => 0x002f,
            ExtensionType::OidFilters => 0x0030,
            ExtensionType::PostHandshakeAuth => 0x0031,
            ExtensionType::SignatureAlgorithmsCert => 0x0032,
            ExtensionType::KeyShare => 0x0033,
            ExtensionType::Unknown(c) => c,
        }
    }

    /// Every code decodes to a canonical variant that encodes back to it; a canonical
    /// variant survives encoding and decoding; a code without a variant decodes to `Unknown`.
    pub proof fn lemma_codes(c: u16, v: Self)
        ensures
            Self::spec_from_code(c).code() == c,
            Self::spec_from_code(c).is_canonical(),
            v.is_canonical() ==> Self::spec_from_code(v.code()) == v,
            (!Self::is_assigned(c)) ==> Self::spec_from_code(c) == ExtensionType::Unknown(c),
    {
    }
}

/// Signature algorithm.
#[derive(Debug, Clone, Copy, PartialEq, Eq, Structural)]
pub enum SignatureScheme {
    RsaPkcs1Sha256,
    RsaPkcs1Sha384,
    RsaPkcs1Sha512,
    EcdsaSecp256r1Sha256,
    EcdsaSecp384r1Sha384,
    EcdsaSecp521r1Sha512,
    RsaPssRsaeSha256,
    RsaPssRsaeSha384,
    RsaPssRsaeSha512,
    Ed25519,
    Ed448,
    RsaPssPssSha256,
    RsaPssPssSha384,
    RsaPssPssSha512,
    RsaPkcs1Sha1,
    EcdsaSha1,
    /// Reserved for private use: 0xfe00 to 0xffff.
    PrivateUse(u16),
    /// A code with no assigned meaning, kept as read.
    Unknown(u16),
}

impl View for SignatureScheme {
    type V = SignatureScheme;

    open spec fn view(&self) -> SignatureScheme {
        *self
    }
}

impl SignatureScheme {
    /// The codes with an assigned variant.
    pub open spec fn is_assigned(c: u16) -> bool {
        c == 0x0401 || c == 0x0501 || c == 0x0601 || c == 0x0403 || c == 0x0503 || c == 0x0603 || c == 0x0804 || c == 0x0805 || c == 0x0806 || c == 0x0807 || c == 0x0808 || c == 0x0809 || c == 0x080a || c == 0x080b || c == 0x0201 || c == 0x0203
    }

    pub open spec fn in_privateuse_range(c: u16) -> bool {
        0xfe00 <= c <= 0xffff
    }

    pub open spec fn spec_from_code(c: u16) -> Self {
        if c == 0x0401 {
            SignatureScheme::RsaPkcs1Sha256
        } else if c == 0x0501 {
            SignatureScheme::RsaPkcs1Sha384
        } else if c == 0x0601 {
            SignatureScheme::RsaPkcs1Sha512
        } else if c == 0x0403 {
            SignatureScheme::EcdsaSecp256r1Sha256
        } else if c == 0x0503 {
            SignatureScheme::EcdsaSecp384r1Sha384
        } else if c == 0x0603 {
            SignatureScheme::EcdsaSecp521r1Sha512
        } else if c == 0x0804 {
            SignatureScheme::RsaPssRsaeSha256
        } else if c == 0x0805 {
            SignatureScheme::RsaPssRsaeSha384
        } else if c == 0x0806 {
            SignatureScheme::RsaPssRsaeSha512
        } else if c == 0x0807 {
            SignatureScheme::Ed25519
        } else if c == 0x0808 {
            SignatureScheme::Ed448
        } else if c == 0x0809 {
            SignatureScheme::RsaPssPssSha256
        } else if c == 0x080a {
            SignatureScheme::RsaPssPssSha384
        } else if c == 0x080b {
            SignatureScheme::RsaPssPssSha512
        } else if c == 0x0201 {
            SignatureScheme::RsaPkcs1Sha1
        } else if c == 0x0203 {
            SignatureScheme::EcdsaSha1
        } else if Self::in_privateuse_range(c) {
            SignatureScheme::PrivateUse(c)
        } else {
            SignatureScheme::Unknown(c)
        }
    }

    pub open spec fn code(self) -> u16 {
        match self {
            SignatureScheme::RsaPkcs1Sha256 => 0x0401,
            SignatureScheme::RsaPkcs1Sha384 => 0x0501,
            SignatureScheme::RsaPkcs1Sha512 => 0x0601,
            SignatureScheme::EcdsaSecp256r1Sha256 => 0x0403,
            SignatureScheme::EcdsaSecp384r1Sha384 => 0x0503,
            SignatureScheme::EcdsaSecp521r1Sha512 => 0x0603,
            SignatureScheme::RsaPssRsaeSha256 => 0x0804,
            SignatureScheme::RsaPssRsaeSha384 => 0x0805,
            SignatureScheme::RsaPssRsaeSha512 => 0x0806,
            SignatureScheme::Ed25519 => 0x0807,
            SignatureScheme::Ed448 => 0x0808,
            SignatureScheme::RsaPssPssSha256 => 0x0809,
            SignatureScheme::RsaPssPssSha384 => 0x080a,
            SignatureScheme::RsaPssPssSha512 => 0x080b,
            SignatureScheme::RsaPkcs1Sha1 => 0x0201,
            SignatureScheme::EcdsaSha1 => 0x0203,
            SignatureScheme::PrivateUse(c) => c,
            SignatureScheme::Unknown(c) => c,
        }
    }

    /// A raw code is held only where no variant stands for it.
    pub open spec fn is_canonical(self) -> bool {
        match self {
            SignatureScheme::PrivateUse(c) => Self::in_privateuse_range(c) && !Self::is_assigned(c),
            SignatureScheme::Unknown(c) => !Self::is_assigned(c) && !Self::in_privateuse_range(c),
            _ => true,
        }
    }

    pub fn from_code(c: u16) -> (r: Self)
        ensures
            r == Self::spec_from_code(c),
    {
        match c {
            0x0401 => SignatureScheme::RsaPkcs1Sha256,
            0x0501 => SignatureScheme::RsaPkcs1Sha384,
            0x0601 => SignatureScheme::RsaPkcs1Sha512,
            0x0403 => SignatureScheme::EcdsaSecp256r1Sha256,
            0x0503 => SignatureScheme::EcdsaSecp384r1Sha384,
            0x0603 => SignatureScheme::EcdsaSecp521r1Sha512,
            0x0804 => SignatureScheme::RsaPssRsaeSha256,
            0x0805 => SignatureScheme::RsaPssRsaeSha384,
            0x0806 => SignatureScheme::RsaPssRsaeSha512,
            0x0807 => SignatureScheme::Ed25519,
            0x0808 => SignatureScheme::Ed448,
            0x0809 => SignatureScheme::RsaPssPssSha256,
            0x080a => SignatureScheme::RsaPssPssSha384,
            0x080b => SignatureScheme::RsaPssPssSha512,
            0x0201 => SignatureScheme::RsaPkcs1Sha1,
            0x0203 => SignatureScheme::EcdsaSha1,
            0xfe00..=0xffff => SignatureScheme::PrivateUse(c),
            _ => SignatureScheme::Unknown(c),
        }
    }

    pub fn to_code(self) -> (r: u16)
        ensures
            r == self.code(),
    {
        match self {
            SignatureScheme::RsaPkcs1Sha256 => 0x0401,
            SignatureScheme::RsaPkcs1Sha384 => 0x0501,
            SignatureScheme::RsaPkcs1Sha512 => 0x0601,
            SignatureScheme::EcdsaSecp256r1Sha256 => 0x0403,
            SignatureScheme::EcdsaSecp384r1Sha384 => 0x0503,
            SignatureScheme::EcdsaSecp521r1Sha512 => 0x0603,
            SignatureScheme::RsaPssRsaeSha256 => 0x0804,
            SignatureScheme::RsaPssRsaeSha384 => 0x0805,
            SignatureScheme::RsaPssRsaeSha512 => 0x0806,
            SignatureScheme::Ed25519 => 0x0807,
            SignatureScheme::Ed448 => 0x0808,
            SignatureScheme::RsaPssPssSha256 => 0x0809,
            SignatureScheme::RsaPssPssSha384 => 0x080a,
            SignatureScheme::RsaPssPssSha512 => 0x080b,
            SignatureScheme::RsaPkcs1Sha1 => 0x0201,
            SignatureScheme::EcdsaSha1 => 0x0203,
            SignatureScheme::PrivateUse(c) => c,
            SignatureScheme::Unknown(c) => c,
        }
    }

    /// Every code decodes to a canonical variant that encodes back to it; a canonical
    /// variant survives encoding and decoding; a code without a variant decodes to `Unknown`.
    pub proof fn lemma_codes(c: u16, v: Self)
        ensures
            Self::spec_from_code(c).code() == c,
            Self::spec_from_code(c).is_canonical(),
            v.is_canonical() ==> Self::spec_from_code(v.code()) == v,
            (!Self::is_assigned(c) && !Self::in_privateuse_range(c)) ==> Self::spec_from_code(c) == SignatureScheme::Unknown(c),
    {
    }
}

/// Key exchange group.
#[derive(Debug, Clone, Copy, PartialEq, Eq, Structural)]
pub enum NamedGroup {
    Secp256r1,
    Secp384r1,
    Secp521r1,
    X25519,
    X448,
    Ffdhe2048,
    Ffdhe3072,
    Ffdhe4096,
    Ffdhe6144,
    Ffdhe8192,
    /// Reserved for private use: 0x01fc to 0x01ff.
    FfdhePrivateUse(u16),
    /// Reserved for private use: 0xfe00 to 0xfeff.
    EcdhePrivateUse(u16),
    /// A code with no assigned meaning, kept as read.
    Unknown(u16),
}

impl View for NamedGroup {
    type V = NamedGroup;

    open spec fn view(&self) -> NamedGroup {
        *self
    }
}

impl NamedGroup {
    /// The codes with an assigned variant.
    pub open spec fn is_assigned(c: u16) -> bool {
        c == 0x0017 || c == 0x0018 || c == 0x0019 || c == 0x001d || c == 0x001e || c == 0x0100 || c == 0x0101 || c == 0x0102 || c == 0x0103 || c == 0x0104
    }

    pub open spec fn in_ffdheprivateuse_range(c: u16) -> bool {
        0x01fc <= c <= 0x01ff
    }

    pub open spec fn in_ecdheprivateuse_range(c: u16) -> bool {
        0xfe00 <= c <= 0xfeff
    }

    pub open spec fn spec_from_code(c: u16) -> Self {
        if c == 0x0017 {
            NamedGroup::Secp256r1
        } else if c == 0x0018 {
            NamedGroup::Secp384r1
        } else if c == 0x0019 {
            NamedGroup::Secp521r1
        } else if c == 0x001d {
            NamedGroup::X25519
        } else if c == 0x001e {
            NamedGroup::X448
        } else if c == 0x0100 {
            NamedGroup::Ffdhe2048
        } else if c == 0x0101 {
            NamedGroup::Ffdhe3072
        } else if c == 0x0102 {
            NamedGroup::Ffdhe4096
        } else if c == 0x0103 {
            NamedGroup::Ffdhe6144
        } else if c == 0x0104 {
            NamedGroup::Ffdhe8192
        } else if Self::in_ffdheprivateuse_range(c) {
            NamedGroup::FfdhePrivateUse(c)
        } else if Self::in_ecdheprivateuse_range(c) {
            NamedGroup::EcdhePrivateUse(c)
        } else {
            NamedGroup::Unknown(c)
        }
    }

    pub open spec fn code(self) -> u16 {
        match self {
            NamedGroup::Secp256r1 => 0x0017,
            NamedGroup::Secp384r1 => 0x0018,
            NamedGroup::Secp521r1 => 0x0019,
            NamedGroup::X25519 => 0x001d,
            NamedGroup::X448 => 0x001e,
            NamedGroup::Ffdhe2048 => 0x0100,
            NamedGroup::Ffdhe3072 => 0x0101,
            NamedGroup::Ffdhe4096 => 0x0102,
            NamedGroup::Ffdhe6144 => 0x0103,
            NamedGroup::Ffdhe8192 => 0x0104,
            NamedGroup::FfdhePrivateUse(c) => c,
            NamedGroup::EcdhePrivateUse(c) => c,
            NamedGroup::Unknown(c) => c,
        }
    }

    /// A raw code is held only where no variant stands for it.
    pub open spec fn is_canonical(self) -> bool {
        match self {
            NamedGroup::FfdhePrivateUse(c) => Self::in_ffdheprivateuse_range(c) && !Self::is_assigned(c),
            NamedGroup::EcdhePrivateUse(c) => Self::in_ecdheprivateuse_range(c) && !Self::is_assigned(c),
            NamedGroup::Unknown(c) => !Self::is_assigned(c) && !Self::in_ffdheprivateuse_range(c) && !Self::in_ecdheprivateuse_range(c),
            _ => true,
        }
    }

    pub fn from_code(c: u16) -> (r: Self)
        ensures
            r == Self::spec_from_code(c),
    {
        match c {
            0x0017 => NamedGroup::Secp256r1,
            0x0018 => NamedGroup::Secp384r1,
            0x0019 => NamedGroup::Secp521r1,
            0x001d => NamedGroup::X25519,
            0x001e => NamedGroup::X448,
            0x0100 => NamedGroup::Ffdhe2048,
            0x0101 => NamedGroup::Ffdhe3072,
            0x0102 => NamedGroup::Ffdhe4096,
            0x0103 => NamedGroup::Ffdhe6144,
            0x0104 => NamedGroup::Ffdhe8192,
            0x01fc..=0x01ff => NamedGroup::FfdhePrivateUse(c),
            0xfe00..=0xfeff => NamedGroup::EcdhePrivateUse(c),
            _ => NamedGroup::Unknown(c),
        }
    }

    pub fn to_code(self) -> (r: u16)
        ensures
            r == self.code(),
    {
        match self {
            NamedGroup::Secp256r1 => 0x0017,
            NamedGroup::Secp384r1 => 0x0018,
            NamedGroup::Secp521r1 => 0x0019,
            NamedGroup::X25519 => 0x001d,
            NamedGroup::X448 => 0x001e,
            NamedGroup::Ffdhe2048 => 0x0100,
            NamedGroup::Ffdhe3072 => 0x0101,
            NamedGroup::Ffdhe4096 => 0x0102,
            NamedGroup::Ffdhe6144 => 0x0103,
            NamedGroup::Ffdhe8192 => 0x0104,
            NamedGroup::FfdhePrivateUse(c) => c,
            NamedGroup::EcdhePrivateUse(c) => c,
            NamedGroup::Unknown(c) => c,
        }
    }

    /// Every code decodes to a canonical variant that encodes back to it; a canonical
    /// variant survives encoding and decoding; a code without a variant decodes to `Unknown`.
    pub proof fn lemma_codes(c: u16, v: Self)
        ensures
            Self::spec_from_code(c).code() == c,
            Self::spec_from_code(c).is_canonical(),
            v.is_canonical() ==> Self::spec_from_code(v.code()) == v,
            (!Self::is_assigned(c) && !Self::in_ffdheprivateuse_range(c) && !Self::in_ecdheprivateuse_range(c)) ==> Self::spec_from_code(c) == NamedGroup::Unknown(c),
    {
    }
}

/// TLS 1.3 cipher suite.
#[derive(Debug, Clone, Copy, PartialEq, Eq, Structural)]
pub enum CipherSuite {
    TlsAes128GcmSha256,
    TlsAes256GcmSha384,
    TlsChacha20Poly1305Sha256,
    TlsAes128CcmSha256,
    TlsAes128Ccm8Sha256,
    /// A code with no assigned meaning, kept as read.
    Unknown(u16),
}

impl View for CipherSuite {
    type V = CipherSuite;

    open spec fn view(&self) -> CipherSuite {
        *self
    }
}

impl CipherSuite {
    /// The codes with an assigned variant.
    pub open spec fn is_assigned(c: u16) -> bool {
        c == 0x1301 || c == 0x1302 || c == 0x1303 || c == 0x1304 || c == 0x1305
    }

    pub open spec fn spec_from_code(c: u16) -> Self {
        if c == 0x1301 {
            CipherSuite::TlsAes128GcmSha256
        } else if c == 0x1302 {
            CipherSuite::TlsAes256GcmSha384
        } else if c == 0x1303 {
            CipherSuite::TlsChacha20Poly1305Sha256
        } else if c == 0x1304 {
            CipherSuite::TlsAes128CcmSha256
        } else if c == 0x1305 {
            CipherSuite::TlsAes128Ccm8Sha256
        } else {
            CipherSuite::Unknown(c)
        }
    }

    pub open spec fn code(self) -> u16 {
        match self {
            CipherSuite::TlsAes128GcmSha256 => 0x1301,
            CipherSuite::TlsAes256GcmSha384 => 0x1302,
            CipherSuite::TlsChacha20Poly1305Sha256 => 0x1303,
            CipherSuite::TlsAes128CcmSha256 => 0x1304,
            CipherSuite::TlsAes128Ccm8Sha256 => 0x1305,
            CipherSuite::Unknown(c) => c,
        }
    }

    /// A raw code is held only where no variant stands for it.
    pub open spec fn is_canonical(self) -> bool {
        match self {
            CipherSuite::Unknown(c) => !Self::is_assigned(c),
            _ => true,
        }
    }

    pub fn from_code(c: u16) -> (r: Self)
        ensures
            r == Self::spec_from_code(c),
    {
        match c {
            0x1301 => CipherSuite::TlsAes128GcmSha256,
            0x1302 => CipherSuite::TlsAes256GcmSha384,
            0x1303 => CipherSuite::TlsChacha20Poly1305Sha256,
            0x1304 => CipherSuite::TlsAes128CcmSha256,
            0x1305 => CipherSuite::TlsAes128Ccm8Sha256,
            _ => CipherSuite::Unknown(c),
        }
    }

    pub fn to_code(self) -> (r: u16)
        ensures
            r == self.code(),
    {
        match self {
            CipherSuite::TlsAes128GcmSha256 => 0x1301,
            CipherSuite::TlsAes256GcmSha384 => 0x1302,
            CipherSuite::TlsChacha20Poly1305Sha256 => 0x1303,
            CipherSuite::TlsAes128CcmSha256 => 0x1304,
            CipherSuite::TlsAes128Ccm8Sha256 => 0x1305,
            CipherSuite::Unknown(c) => c,
        }
    }

    /// Every code decodes to a canonical variant that encodes back to it; a canonical
    /// variant survives encoding and decoding; a code without a variant decodes to `Unknown`.
    pub proof fn lemma_codes(c: u16, v: Self)
        ensures
            Self::spec_from_code(c).code() == c,
            Self::spec_from_code(c).is_canonical(),
            v.is_canonical() ==> Self::spec_from_code(v.code()) == v,
            (!Self::is_assigned(c)) ==> Self::spec_from_code(c) == CipherSuite::Unknown(c),
    {
    }
}

impl From<u8> for HandshakeType {
    fn from(val: u8) -> (r: HandshakeType)
        ensures
            r == HandshakeType::spec_from_code(val),
    {
        HandshakeType::from_code(val)
    }
}

impl vstd::std_specs::convert::FromSpecImpl<u8> for HandshakeType {
    open spec fn obeys_from_spec() -> bool {
        true
    }

    open spec fn from_spec(v: u8) -> HandshakeType {
        HandshakeType::spec_from_code(v)
    }
}

impl From<HandshakeType> for u8 {
    fn from(val: HandshakeType) -> (r: u8)
        ensures
            r == val.code(),
    {
        val.to_code()
    }
}

impl vstd::std_specs::convert::FromSpecImpl<HandshakeType> for u8 {
    open spec fn obeys_from_spec() -> bool {
        true
    }

    open spec fn from_spec(v: HandshakeType) -> u8 {
        v.code()
    }
}

} // verus!
