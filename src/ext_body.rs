//! Typed extension bodies and the dispatcher that picks one by type code and direction.
use vstd::prelude::*;
use crate::codes::{ExtensionType, SignatureScheme, NamedGroup, PskKeyExchangeMode};
use crate::extension::{Extension, ExtensionModel};
use crate::vectors::{
    u16_vec_wf, opaque1_vec_wf, opaque2_vec_wf, lemma_u16_vec, lemma_opaque1_vec,
    lemma_opaque2_vec, write_u16_vec, write_opaque1_vec, write_opaque2_vec,
};
use crate::wire::{
    DecodeError, SpecResult, decoded_as, skip, views, ser_u8, ser_u16, ser_u32, ser_opaque,
    parse_u8, parse_u16, parse_u32, parse_opaque, parse_vec, ser_list, ser_items, items_round_trip,
    prefix_max, valid_width, lemma_u8, lemma_u16, lemma_u32, lemma_opaque, lemma_opaque_truncated,
    lemma_vec, lemma_ser_items_push, lemma_skip, read_u8, read_u16, read_u32, read_opaque,
    read_vec, put_u8, put_u16, put_u32, put_opaque, u16_parser, u16_writer, opaque1_parser,
    opaque1_writer, opaque2_parser, opaque2_writer, read_opaque1, read_opaque2,
};

verus! {

pub open spec fn parse_signature_scheme(s: Seq<u8>) -> SpecResult<SignatureScheme> {
    match parse_u16(s) {
        Ok((c, n)) => Ok((SignatureScheme::spec_from_code(c), n)),
        Err(e) => Err(e),
    }
}

pub open spec fn signature_scheme_parser() -> spec_fn(Seq<u8>) -> SpecResult<SignatureScheme> {
    |s: Seq<u8>| parse_signature_scheme(s)
}

pub open spec fn signature_scheme_writer() -> spec_fn(SignatureScheme) -> Seq<u8> {
    |x: SignatureScheme| ser_u16(x.code())
}

pub fn read_signature_scheme(s: &[u8]) -> (r: Result<(SignatureScheme, usize), DecodeError>)
    ensures
        decoded_as(r, parse_signature_scheme(s@)),
{
    let (c, n) = read_u16(s)?;
    Ok((SignatureScheme::from_code(c), n))
}

pub open spec fn signature_scheme_vec_wf(xs: Seq<SignatureScheme>, w: nat) -> bool {
    &&& forall|i: int| 0 <= i < xs.len() ==> (#[trigger] xs[i]).is_canonical()
    &&& ser_items(xs, signature_scheme_writer()).len() <= prefix_max(w)
}

pub proof fn lemma_signature_scheme_vec(w: nat, xs: Seq<SignatureScheme>, rest: Seq<u8>)
    requires
        valid_width(w),
        signature_scheme_vec_wf(xs, w),
    ensures
        parse_vec(w, 2, ser_list(w, xs, signature_scheme_writer()) + rest, signature_scheme_parser()) == Ok::<(Seq<SignatureScheme>, nat), DecodeError>(
            (xs, ser_list(w, xs, signature_scheme_writer()).len()),
        ),
        ser_list(w, xs, signature_scheme_writer()).len() >= w,
{
    assert forall|i: int, r: Seq<u8>| 0 <= i < xs.len() implies #[trigger] signature_scheme_parser()(signature_scheme_writer()(xs[i]) + r)
        == Ok::<(SignatureScheme, nat), DecodeError>((xs[i], signature_scheme_writer()(xs[i]).len())) && signature_scheme_writer()(xs[i]).len() > 0 by {
        let x = xs[i];
        assert(x.is_canonical());
        lemma_u16(x.code(), r); SignatureScheme::lemma_codes(x.code(), x);
    }
    assert(items_round_trip(xs, signature_scheme_parser(), signature_scheme_writer()));
    lemma_vec(w, 2, xs, signature_scheme_parser(), signature_scheme_writer(), rest);
}

pub fn write_signature_scheme_vec(v: &Vec<SignatureScheme>, w: usize, out: &mut Vec<u8>)
    requires
        valid_width(w as nat),
        signature_scheme_vec_wf(views(v@), w as nat),
    ensures
        final(out)@ == old(out)@ + ser_list(w as nat, views(v@), signature_scheme_writer()),
{
    let mut tmp: Vec<u8> = Vec::new();
    let mut i: usize = 0;
    while i < v.len()
        invariant
            i <= v@.len(),
            signature_scheme_vec_wf(views(v@), w as nat),
            tmp@ == ser_items(views(v@).take(i as int), signature_scheme_writer()),
        decreases v@.len() - i,
    {
        let ghost x = views(v@)[i as int];
        assert(x == v@[i as int]@);
        assert(x.is_canonical());
        put_u16(&mut tmp, v[i].to_code());
        proof {
            lemma_ser_items_push(views(v@).take(i as int), x, signature_scheme_writer());
            assert(views(v@).take(i as int).push(x) =~= views(v@).take(i + 1));
        }
        i = i + 1;
    }
    assert(views(v@).take(i as int) =~= views(v@));
    put_opaque(out, w, tmp.as_slice());
}

pub open spec fn parse_named_group(s: Seq<u8>) -> SpecResult<NamedGroup> {
    match parse_u16(s) {
        Ok((c, n)) => Ok((NamedGroup::spec_from_code(c), n)),
        Err(e) => Err(e),
    }
}

pub open spec fn named_group_parser() -> spec_fn(Seq<u8>) -> SpecResult<NamedGroup> {
    |s: Seq<u8>| parse_named_group(s)
}

pub open spec fn named_group_writer() -> spec_fn(NamedGroup) -> Seq<u8> {
    |x: NamedGroup| ser_u16(x.code())
}

pub fn read_named_group(s: &[u8]) -> (r: Result<(NamedGroup, usize), DecodeError>)
    ensures
        decoded_as(r, parse_named_group(s@)),
{
    let (c, n) = read_u16(s)?;
    Ok((NamedGroup::from_code(c), n))
}

pub open spec fn named_group_vec_wf(xs: Seq<NamedGroup>, w: nat) -> bool {
    &&& forall|i: int| 0 <= i < xs.len() ==> (#[trigger] xs[i]).is_canonical()
    &&& ser_items(xs, named_group_writer()).len() <= prefix_max(w)
}

pub proof fn lemma_named_group_vec(w: nat, xs: Seq<NamedGroup>, rest: Seq<u8>)
    requires
        valid_width(w),
        named_group_vec_wf(xs, w),
    ensures
        parse_vec(w, 2, ser_list(w, xs, named_group_writer()) + rest, named_group_parser()) == Ok::<(Seq<NamedGroup>, nat), DecodeError>(
            (xs, ser_list(w, xs, named_group_writer()).len()),
        ),
        ser_list(w, xs, named_group_writer()).len() >= w,
{
    assert forall|i: int, r: Seq<u8>| 0 <= i < xs.len() implies #[trigger] named_group_parser()(named_group_writer()(xs[i]) + r)
        == Ok::<(NamedGroup, nat), DecodeError>((xs[i], named_group_writer()(xs[i]).len())) && named_group_writer()(xs[i]).len() > 0 by {
        let x = xs[i];
        assert(x.is_canonical());
        lemma_u16(x.code(), r); NamedGroup::lemma_codes(x.code(), x);
    }
    assert(items_round_trip(xs, named_group_parser(), named_group_writer()));
    lemma_vec(w, 2, xs, named_group_parser(), named_group_writer(), rest);
}

pub fn write_named_group_vec(v: &Vec<NamedGroup>, w: usize, out: &mut Vec<u8>)
    requires
        valid_width(w as nat),
        named_group_vec_wf(views(v@), w as nat),
    ensures
        final(out)@ == old(out)@ + ser_list(w as nat, views(v@), named_group_writer()),
{
    let mut tmp: Vec<u8> = Vec::new();
    let mut i: usize = 0;
    while i < v.len()
        invariant
            i <= v@.len(),
            named_group_vec_wf(views(v@), w as nat),
            tmp@ == ser_items(views(v@).take(i as int), named_group_writer()),
        decreases v@.len() - i,
    {
        let ghost x = views(v@)[i as int];
        assert(x == v@[i as int]@);
        assert(x.is_canonical());
        put_u16(&mut tmp, v[i].to_code());
        proof {
            lemma_ser_items_push(views(v@).take(i as int), x, named_group_writer());
            assert(views(v@).take(i as int).push(x) =~= views(v@).take(i + 1));
        }
        i = i + 1;
    }
    assert(views(v@).take(i as int) =~= views(v@));
    put_opaque(out, w, tmp.as_slice());
}

pub open spec fn parse_psk_key_exchange_mode(s: Seq<u8>) -> SpecResult<PskKeyExchangeMode> {
    match parse_u8(s) {
        Ok((c, n)) => Ok((PskKeyExchangeMode::spec_from_code(c), n)),
        Err(e) => Err(e),
    }
}

pub open spec fn psk_key_exchange_mode_parser() -> spec_fn(Seq<u8>) -> SpecResult<PskKeyExchangeMode> {
    |s: Seq<u8>| parse_psk_key_exchange_mode(s)
}

pub open spec fn psk_key_exchange_mode_writer() -> spec_fn(PskKeyExchangeMode) -> Seq<u8> {
    |x: PskKeyExchangeMode| ser_u8(x.code())
}

pub fn read_psk_key_exchange_mode(s: &[u8]) -> (r: Result<(PskKeyExchangeMode, usize), DecodeError>)
    ensures
        decoded_as(r, parse_psk_key_exchange_mode(s@)),
{
    let (c, n) = read_u8(s)?;
    Ok((PskKeyExchangeMode::from_code(c), n))
}

pub open spec fn psk_key_exchange_mode_vec_wf(xs: Seq<PskKeyExchangeMode>, w: nat) -> bool {
    &&& forall|i: int| 0 <= i < xs.len() ==> (#[trigger] xs[i]).is_canonical()
    &&& ser_items(xs, psk_key_exchange_mode_writer()).len() <= prefix_max(w)
}

pub proof fn lemma_psk_key_exchange_mode_vec(w: nat, xs: Seq<PskKeyExchangeMode>, rest: Seq<u8>)
    requires
        valid_width(w),
        psk_key_exchange_mode_vec_wf(xs, w),
    ensures
        parse_vec(w, 1, ser_list(w, xs, psk_key_exchange_mode_writer()) + rest, psk_key_exchange_mode_parser()) == Ok::<(Seq<PskKeyExchangeMode>, nat), DecodeError>(
            (xs, ser_list(w, xs, psk_key_exchange_mode_writer()).len()),
        ),
        ser_list(w, xs, psk_key_exchange_mode_writer()).len() >= w,
{
    assert forall|i: int, r: Seq<u8>| 0 <= i < xs.len() implies #[trigger] psk_key_exchange_mode_parser()(psk_key_exchange_mode_writer()(xs[i]) + r)
        == Ok::<(PskKeyExchangeMode, nat), DecodeError>((xs[i], psk_key_exchange_mode_writer()(xs[i]).len())) && psk_key_exchange_mode_writer()(xs[i]).len() > 0 by {
        let x = xs[i];
        assert(x.is_canonical());
        lemma_u8(x.code(), r); PskKeyExchangeMode::lemma_codes(x.code(), x);
    }
    assert(items_round_trip(xs, psk_key_exchange_mode_parser(), psk_key_exchange_mode_writer()));
    lemma_vec(w, 1, xs, psk_key_exchange_mode_parser(), psk_key_exchange_mode_writer(), rest);
}

pub fn write_psk_key_exchange_mode_vec(v: &Vec<PskKeyExchangeMode>, w: usize, out: &mut Vec<u8>)
    requires
        valid_width(w as nat),
        psk_key_exchange_mode_vec_wf(views(v@), w as nat),
    ensures
        final(out)@ == old(out)@ + ser_list(w as nat, views(v@), psk_key_exchange_mode_writer()),
{
    let mut tmp: Vec<u8> = Vec::new();
    let mut i: usize = 0;
    while i < v.len()
        invariant
            i <= v@.len(),
            psk_key_exchange_mode_vec_wf(views(v@), w as nat),
            tmp@ == ser_items(views(v@).take(i as int), psk_key_exchange_mode_writer()),
        decreases v@.len() - i,
    {
        let ghost x = views(v@)[i as int];
        assert(x == v@[i as int]@);
        assert(x.is_canonical());
        put_u8(&mut tmp, v[i].to_code());
        proof {
            lemma_ser_items_push(views(v@).take(i as int), x, psk_key_exchange_mode_writer());
            assert(views(v@).take(i as int).push(x) =~= views(v@).take(i + 1));
        }
        i = i + 1;
    }
    assert(views(v@).take(i as int) =~= views(v@));
    put_opaque(out, w, tmp.as_slice());
}
/// The versions a client offers.
pub struct SupportedVersionsClient {
    pub versions: Vec<u16>,
}

pub ghost struct SupportedVersionsClientModel {
    pub versions: Seq<u16>,
}

impl View for SupportedVersionsClient {
    type V = SupportedVersionsClientModel;

    open spec fn view(&self) -> SupportedVersionsClientModel {
        SupportedVersionsClientModel { versions: views(self.versions@) }
    }
}

impl SupportedVersionsClientModel {
    pub open spec fn wf(self) -> bool {
        let m = self;
        &&& u16_vec_wf(m.versions, 1)
    }
}

#[verifier::opaque]
pub open spec fn ser_supported_versions_client(m: SupportedVersionsClientModel) -> Seq<u8> {
    ser_list(1, m.versions, u16_writer())
}

#[verifier::opaque]
pub open spec fn parse_supported_versions_client(s: Seq<u8>) -> SpecResult<SupportedVersionsClientModel> {
    match parse_vec(1, 2, s, u16_parser()) {
        Err(e) => Err(e),
        Ok((v0, n0)) => Ok((SupportedVersionsClientModel { versions: v0 }, n0)),
    }
}

/// Decoding the encoding of a well-formed value gives it back, whatever follows.
pub proof fn lemma_supported_versions_client_round_trip(m: SupportedVersionsClientModel, rest: Seq<u8>)
    requires
        m.wf(),
    ensures
        parse_supported_versions_client(ser_supported_versions_client(m) + rest) == Ok::<(SupportedVersionsClientModel, nat), DecodeError>((m, ser_supported_versions_client(m).len())),
        ser_supported_versions_client(m).len() > 0,
{
    reveal(parse_supported_versions_client);
    reveal(ser_supported_versions_client);
    let a0 = ser_list(1, m.versions, u16_writer());
    let s = ser_supported_versions_client(m) + rest;
    assert(s =~= (a0 + rest));
    lemma_u16_vec(1, m.versions, rest);
}

/// A well-formed value cut short by any number of bytes is refused as truncated.
pub proof fn lemma_supported_versions_client_truncated(m: SupportedVersionsClientModel, k: nat)
    requires
        m.wf(),
        k < ser_supported_versions_client(m).len(),
    ensures
        parse_supported_versions_client(ser_supported_versions_client(m).take(k as int)) == Err::<(SupportedVersionsClientModel, nat), DecodeError>(
            DecodeError::TruncatedInput,
        ),
{
    reveal(parse_supported_versions_client);
    reveal(ser_supported_versions_client);
    let a0 = ser_list(1, m.versions, u16_writer());
    let t = ser_supported_versions_client(m).take(k as int);
    {
        let u0 = a0.take(k - (0));
        assert(t =~= u0);
        lemma_opaque(1, ser_items(m.versions, u16_writer()), Seq::empty()); lemma_opaque_truncated(1, ser_items(m.versions, u16_writer()), (k - (0)) as nat);
    }
}

impl SupportedVersionsClient {
    pub fn decode(s: &[u8]) -> (r: Result<(Self, usize), DecodeError>)
        ensures
            decoded_as(r, parse_supported_versions_client(s@)),
            r is Ok ==> r->Ok_0.1 <= s@.len(),
    {
        proof {
            reveal(parse_supported_versions_client);
        }
        let mut off: usize = 0;
        let (v0, n0) = read_vec(s, 1, 2, read_u16, Ghost(u16_parser()))?;
        off = off + n0;
        Ok((SupportedVersionsClient { versions: v0 }, off))
    }

    pub fn encode(&self, out: &mut Vec<u8>)
        requires
            self@.wf(),
        ensures
            final(out)@ == old(out)@ + ser_supported_versions_client(self@),
    {
        proof {
            reveal(ser_supported_versions_client);
        }
        write_u16_vec(&self.versions, 1, out);
        assert(out@ =~= old(out)@ + ser_supported_versions_client(self@));
    }
}

/// The version a server selected.
pub struct SupportedVersionsServer {
    pub selected_version: u16,
}

pub ghost struct SupportedVersionsServerModel {
    pub selected_version: u16,
}

impl View for SupportedVersionsServer {
    type V = SupportedVersionsServerModel;

    open spec fn view(&self) -> SupportedVersionsServerModel {
        SupportedVersionsServerModel { selected_version: self.selected_version }
    }
}

impl SupportedVersionsServerModel {
    pub open spec fn wf(self) -> bool {
        let m = self;
        &&& true
    }
}

#[verifier::opaque]
pub open spec fn ser_supported_versions_server(m: SupportedVersionsServerModel) -> Seq<u8> {
    ser_u16(m.selected_version)
}

#[verifier::opaque]
pub open spec fn parse_supported_versions_server(s: Seq<u8>) -> SpecResult<SupportedVersionsServerModel> {
    match parse_u16(s) {
        Err(e) => Err(e),
        Ok((v0, n0)) => Ok((SupportedVersionsServerModel { selected_version: v0 }, n0)),
    }
}

/// Decoding the encoding of a well-formed value gives it back, whatever follows.
pub proof fn lemma_supported_versions_server_round_trip(m: SupportedVersionsServerModel, rest: Seq<u8>)
    requires
        m.wf(),
    ensures
        parse_supported_versions_server(ser_supported_versions_server(m) + rest) == Ok::<(SupportedVersionsServerModel, nat), DecodeError>((m, ser_supported_versions_server(m).len())),
        ser_supported_versions_server(m).len() > 0,
{
    reveal(parse_supported_versions_server);
    reveal(ser_supported_versions_server);
    let a0 = ser_u16(m.selected_version);
    let s = ser_supported_versions_server(m) + rest;
    assert(s =~= (a0 + rest));
    lemma_u16(m.selected_version, rest);
}

/// A well-formed value cut short by any number of bytes is refused as truncated.
pub proof fn lemma_supported_versions_server_truncated(m: SupportedVersionsServerModel, k: nat)
    requires
        m.wf(),
        k < ser_supported_versions_server(m).len(),
    ensures
        parse_supported_versions_server(ser_supported_versions_server(m).take(k as int)) == Err::<(SupportedVersionsServerModel, nat), DecodeError>(
            DecodeError::TruncatedInput,
        ),
{
    reveal(parse_supported_versions_server);
    reveal(ser_supported_versions_server);
    let a0 = ser_u16(m.selected_version);
    let t = ser_supported_versions_server(m).take(k as int);
    {
        let u0 = a0.take(k - (0));
        assert(t =~= u0);
    }
}

impl SupportedVersionsServer {
    pub fn decode(s: &[u8]) -> (r: Result<(Self, usize), DecodeError>)
        ensures
            decoded_as(r, parse_supported_versions_server(s@)),
            r is Ok ==> r->Ok_0.1 <= s@.len(),
    {
        proof {
            reveal(parse_supported_versions_server);
        }
        let mut off: usize = 0;
        let (v0, n0) = read_u16(s)?;
        off = off + n0;
        Ok((SupportedVersionsServer { selected_version: v0 }, off))
    }

    pub fn encode(&self, out: &mut Vec<u8>)
        requires
            self@.wf(),
        ensures
            final(out)@ == old(out)@ + ser_supported_versions_server(self@),
    {
        proof {
            reveal(ser_supported_versions_server);
        }
        put_u16(out, self.selected_version);
        assert(out@ =~= old(out)@ + ser_supported_versions_server(self@));
    }
}

/// A cookie a server hands to a client to echo.
pub struct Cookie {
    pub cookie: Vec<u8>,
}

pub ghost struct CookieModel {
    pub cookie: Seq<u8>,
}

impl View for Cookie {
    type V = CookieModel;

    open spec fn view(&self) -> CookieModel {
        CookieModel { cookie: self.cookie@ }
    }
}

impl CookieModel {
    pub open spec fn wf(self) -> bool {
        let m = self;
        &&& m.cookie.len() <= 65535
    }
}

#[verifier::opaque]
pub open spec fn ser_cookie(m: CookieModel) -> Seq<u8> {
    ser_opaque(2, m.cookie)
}

#[verifier::opaque]
pub open spec fn parse_cookie(s: Seq<u8>) -> SpecResult<CookieModel> {
    match parse_opaque(2, s) {
        Err(e) => Err(e),
        Ok((v0, n0)) => Ok((CookieModel { cookie: v0 }, n0)),
    }
}

/// Decoding the encoding of a well-formed value gives it back, whatever follows.
pub proof fn lemma_cookie_round_trip(m: CookieModel, rest: Seq<u8>)
    requires
        m.wf(),
    ensures
        parse_cookie(ser_cookie(m) + rest) == Ok::<(CookieModel, nat), DecodeError>((m, ser_cookie(m).len())),
        ser_cookie(m).len() > 0,
{
    reveal(parse_cookie);
    reveal(ser_cookie);
    let a0 = ser_opaque(2, m.cookie);
    let s = ser_cookie(m) + rest;
    assert(s =~= (a0 + rest));
    lemma_opaque(2, m.cookie, rest);
}

/// A well-formed value cut short by any number of bytes is refused as truncated.
pub proof fn lemma_cookie_truncated(m: CookieModel, k: nat)
    requires
        m.wf(),
        k < ser_cookie(m).len(),
    ensures
        parse_cookie(ser_cookie(m).take(k as int)) == Err::<(CookieModel, nat), DecodeError>(
            DecodeError::TruncatedInput,
        ),
{
    reveal(parse_cookie);
    reveal(ser_cookie);
    let a0 = ser_opaque(2, m.cookie);
    let t = ser_cookie(m).take(k as int);
    {
        let u0 = a0.take(k - (0));
        assert(t =~= u0);
        lemma_opaque(2, m.cookie, Seq::empty()); lemma_opaque_truncated(2, m.cookie, (k - (0)) as nat);
    }
}

impl Cookie {
    pub fn decode(s: &[u8]) -> (r: Result<(Self, usize), DecodeError>)
        ensures
            decoded_as(r, parse_cookie(s@)),
            r is Ok ==> r->Ok_0.1 <= s@.len(),
    {
        proof {
            reveal(parse_cookie);
        }
        let mut off: usize = 0;
        let (v0, n0) = read_opaque(s, 2)?;
        off = off + n0;
        Ok((Cookie { cookie: v0 }, off))
    }

    pub fn encode(&self, out: &mut Vec<u8>)
        requires
            self@.wf(),
        ensures
            final(out)@ == old(out)@ + ser_cookie(self@),
    {
        proof {
            reveal(ser_cookie);
        }
        put_opaque(out, 2, self.cookie.as_slice());
        assert(out@ =~= old(out)@ + ser_cookie(self@));
    }
}

/// Signature algorithms, most preferred first.
pub struct SignatureSchemeList {
    pub supported_signature_algorithms: Vec<SignatureScheme>,
}

pub ghost struct SignatureSchemeListModel {
    pub supported_signature_algorithms: Seq<SignatureScheme>,
}

impl View for SignatureSchemeList {
    type V = SignatureSchemeListModel;

    open spec fn view(&self) -> SignatureSchemeListModel {
        SignatureSchemeListModel { supported_signature_algorithms: views(self.supported_signature_algorithms@) }
    }
}

impl SignatureSchemeListModel {
    pub open spec fn wf(self) -> bool {
        let m = self;
        &&& signature_scheme_vec_wf(m.supported_signature_algorithms, 2)
    }
}

#[verifier::opaque]
pub open spec fn ser_signature_scheme_list(m: SignatureSchemeListModel) -> Seq<u8> {
    ser_list(2, m.supported_signature_algorithms, signature_scheme_writer())
}

#[verifier::opaque]
pub open spec fn parse_signature_scheme_list(s: Seq<u8>) -> SpecResult<SignatureSchemeListModel> {
    match parse_vec(2, 2, s, signature_scheme_parser()) {
        Err(e) => Err(e),
        Ok((v0, n0)) => Ok((SignatureSchemeListModel { supported_signature_algorithms: v0 }, n0)),
    }
}

/// Decoding the encoding of a well-formed value gives it back, whatever follows.
pub proof fn lemma_signature_scheme_list_round_trip(m: SignatureSchemeListModel, rest: Seq<u8>)
    requires
        m.wf(),
    ensures
        parse_signature_scheme_list(ser_signature_scheme_list(m) + rest) == Ok::<(SignatureSchemeListModel, nat), DecodeError>((m, ser_signature_scheme_list(m).len())),
        ser_signature_scheme_list(m).len() > 0,
{
    reveal(parse_signature_scheme_list);
    reveal(ser_signature_scheme_list);
    let a0 = ser_list(2, m.supported_signature_algorithms, signature_scheme_writer());
    let s = ser_signature_scheme_list(m) + rest;
    assert(s =~= (a0 + rest));
    lemma_signature_scheme_vec(2, m.supported_signature_algorithms, rest);
}

/// A well-formed value cut short by any number of bytes is refused as truncated.
pub proof fn lemma_signature_scheme_list_truncated(m: SignatureSchemeListModel, k: nat)
    requires
        m.wf(),
        k < ser_signature_scheme_list(m).len(),
    ensures
        parse_signature_scheme_list(ser_signature_scheme_list(m).take(k as int)) == Err::<(SignatureSchemeListModel, nat), DecodeError>(
            DecodeError::TruncatedInput,
        ),
{
    reveal(parse_signature_scheme_list);
    reveal(ser_signature_scheme_list);
    let a0 = ser_list(2, m.supported_signature_algorithms, signature_scheme_writer());
    let t = ser_signature_scheme_list(m).take(k as int);
    {
        let u0 = a0.take(k - (0));
        assert(t =~= u0);
        lemma_opaque(2, ser_items(m.supported_signature_algorithms, signature_scheme_writer()), Seq::empty()); lemma_opaque_truncated(2, ser_items(m.supported_signature_algorithms, signature_scheme_writer()), (k - (0)) as nat);
    }
}

impl SignatureSchemeList {
    pub fn decode(s: &[u8]) -> (r: Result<(Self, usize), DecodeError>)
        ensures
            decoded_as(r, parse_signature_scheme_list(s@)),
            r is Ok ==> r->Ok_0.1 <= s@.len(),
    {
        proof {
            reveal(parse_signature_scheme_list);
        }
        let mut off: usize = 0;
        let (v0, n0) = read_vec(s, 2, 2, read_signature_scheme, Ghost(signature_scheme_parser()))?;
        off = off + n0;
        Ok((SignatureSchemeList { supported_signature_algorithms: v0 }, off))
    }

    pub fn encode(&self, out: &mut Vec<u8>)
        requires
            self@.wf(),
        ensures
            final(out)@ == old(out)@ + ser_signature_scheme_list(self@),
    {
        proof {
            reveal(ser_signature_scheme_list);
        }
        write_signature_scheme_vec(&self.supported_signature_algorithms, 2, out);
        assert(out@ =~= old(out)@ + ser_signature_scheme_list(self@));
    }
}

/// Supported key exchange groups, most preferred first.
pub struct NamedGroupList {
    pub named_group_list: Vec<NamedGroup>,
}

pub ghost struct NamedGroupListModel {
    pub named_group_list: Seq<NamedGroup>,
}

impl View for NamedGroupList {
    type V = NamedGroupListModel;

    open spec fn view(&self) -> NamedGroupListModel {
        NamedGroupListModel { named_group_list: views(self.named_group_list@) }
    }
}

impl NamedGroupListModel {
    pub open spec fn wf(self) -> bool {
        let m = self;
        &&& named_group_vec_wf(m.named_group_list, 2)
    }
}

#[verifier::opaque]
pub open spec fn ser_named_group_list(m: NamedGroupListModel) -> Seq<u8> {
    ser_list(2, m.named_group_list, named_group_writer())
}

#[verifier::opaque]
pub open spec fn parse_named_group_list(s: Seq<u8>) -> SpecResult<NamedGroupListModel> {
    match parse_vec(2, 2, s, named_group_parser()) {
        Err(e) => Err(e),
        Ok((v0, n0)) => Ok((NamedGroupListModel { named_group_list: v0 }, n0)),
    }
}

/// Decoding the encoding of a well-formed value gives it back, whatever follows.
pub proof fn lemma_named_group_list_round_trip(m: NamedGroupListModel, rest: Seq<u8>)
    requires
        m.wf(),
    ensures
        parse_named_group_list(ser_named_group_list(m) + rest) == Ok::<(NamedGroupListModel, nat), DecodeError>((m, ser_named_group_list(m).len())),
        ser_named_group_list(m).len() > 0,
{
    reveal(parse_named_group_list);
    reveal(ser_named_group_list);
    let a0 = ser_list(2, m.named_group_list, named_group_writer());
    let s = ser_named_group_list(m) + rest;
    assert(s =~= (a0 + rest));
    lemma_named_group_vec(2, m.named_group_list, rest);
}

/// A well-formed value cut short by any number of bytes is refused as truncated.
pub proof fn lemma_named_group_list_truncated(m: NamedGroupListModel, k: nat)
    requires
        m.wf(),
        k < ser_named_group_list(m).len(),
    ensures
        parse_named_group_list(ser_named_group_list(m).take(k as int)) == Err::<(NamedGroupListModel, nat), DecodeError>(
            DecodeError::TruncatedInput,
        ),
{
    reveal(parse_named_group_list);
    reveal(ser_named_group_list);
    let a0 = ser_list(2, m.named_group_list, named_group_writer());
    let t = ser_named_group_list(m).take(k as int);
    {
        let u0 = a0.take(k - (0));
        assert(t =~= u0);
        lemma_opaque(2, ser_items(m.named_group_list, named_group_writer()), Seq::empty()); lemma_opaque_truncated(2, ser_items(m.named_group_list, named_group_writer()), (k - (0)) as nat);
    }
}

impl NamedGroupList {
    pub fn decode(s: &[u8]) -> (r: Result<(Self, usize), DecodeError>)
        ensures
            decoded_as(r, parse_named_group_list(s@)),
            r is Ok ==> r->Ok_0.1 <= s@.len(),
    {
        proof {
            reveal(parse_named_group_list);
        }
        let mut off: usize = 0;
        let (v0, n0) = read_vec(s, 2, 2, read_named_group, Ghost(named_group_parser()))?;
        off = off + n0;
        Ok((NamedGroupList { named_group_list: v0 }, off))
    }

    pub fn encode(&self, out: &mut Vec<u8>)
        requires
            self@.wf(),
        ensures
            final(out)@ == old(out)@ + ser_named_group_list(self@),
    {
        proof {
            reveal(ser_named_group_list);
        }
        write_named_group_vec(&self.named_group_list, 2, out);
        assert(out@ =~= old(out)@ + ser_named_group_list(self@));
    }
}

/// A key share for one group.
pub struct KeyShareEntry {
    pub group: NamedGroup,
    pub key_exchange: Vec<u8>,
}

pub ghost struct KeyShareEntryModel {
    pub group: NamedGroup,
    pub key_exchange: Seq<u8>,
}

impl View for KeyShareEntry {
    type V = KeyShareEntryModel;

    open spec fn view(&self) -> KeyShareEntryModel {
        KeyShareEntryModel { group: self.group, key_exchange: self.key_exchange@ }
    }
}

impl KeyShareEntryModel {
    pub open spec fn wf(self) -> bool {
        let m = self;
        &&& m.group.is_canonical()
        &&& m.key_exchange.len() <= 65535
    }
}

#[verifier::opaque]
pub open spec fn ser_key_share_entry(m: KeyShareEntryModel) -> Seq<u8> {
    ser_u16(m.group.code()) + ser_opaque(2, m.key_exchange)
}

#[verifier::opaque]
pub open spec fn parse_key_share_entry(s: Seq<u8>) -> SpecResult<KeyShareEntryModel> {
    match parse_u16(s) {
        Err(e) => Err(e),
        Ok((v0, n0)) => 
        match parse_opaque(2, skip(s, n0)) {
            Err(e) => Err(e),
            Ok((v1, n1)) => Ok((KeyShareEntryModel { group: NamedGroup::spec_from_code(v0), key_exchange: v1 }, n0 + n1)),
        },
    }
}

/// Decoding the encoding of a well-formed value gives it back, whatever follows.
pub proof fn lemma_key_share_entry_round_trip(m: KeyShareEntryModel, rest: Seq<u8>)
    requires
        m.wf(),
    ensures
        parse_key_share_entry(ser_key_share_entry(m) + rest) == Ok::<(KeyShareEntryModel, nat), DecodeError>((m, ser_key_share_entry(m).len())),
        ser_key_share_entry(m).len() > 0,
{
    reveal(parse_key_share_entry);
    reveal(ser_key_share_entry);
    let a0 = ser_u16(m.group.code());
    let a1 = ser_opaque(2, m.key_exchange);
    let s = ser_key_share_entry(m) + rest;
    assert(s =~= (a0 + (a1 + rest)));
    lemma_u16(m.group.code(), (a1 + rest)); NamedGroup::lemma_codes(m.group.code(), m.group);
    lemma_skip(a0, (a1 + rest));
    lemma_opaque(2, m.key_exchange, rest);
}

/// A well-formed value cut short by any number of bytes is refused as truncated.
#[verifier::rlimit(50)]
pub proof fn lemma_key_share_entry_truncated(m: KeyShareEntryModel, k: nat)
    requires
        m.wf(),
        k < ser_key_share_entry(m).len(),
    ensures
        parse_key_share_entry(ser_key_share_entry(m).take(k as int)) == Err::<(KeyShareEntryModel, nat), DecodeError>(
            DecodeError::TruncatedInput,
        ),
{
    reveal(parse_key_share_entry);
    reveal(ser_key_share_entry);
    let a0 = ser_u16(m.group.code());
    let a1 = ser_opaque(2, m.key_exchange);
    let t = ser_key_share_entry(m).take(k as int);
    if k < a0.len() {
        let u0 = a0.take(k - (0));
        assert(t =~= u0);
    } else {
        let u1 = a1.take(k - (a0.len()));
        assert(t =~= (a0 + u1));
        lemma_u16(m.group.code(), u1);
        lemma_skip(a0, u1);
        lemma_opaque(2, m.key_exchange, Seq::empty()); lemma_opaque_truncated(2, m.key_exchange, (k - (a0.len())) as nat);
    }
}

pub open spec fn key_share_entry_parser() -> spec_fn(Seq<u8>) -> SpecResult<KeyShareEntryModel> {
    |s: Seq<u8>| parse_key_share_entry(s)
}

pub open spec fn key_share_entry_writer() -> spec_fn(KeyShareEntryModel) -> Seq<u8> {
    |m: KeyShareEntryModel| ser_key_share_entry(m)
}

impl KeyShareEntry {
    pub fn decode(s: &[u8]) -> (r: Result<(Self, usize), DecodeError>)
        ensures
            decoded_as(r, parse_key_share_entry(s@)),
            r is Ok ==> r->Ok_0.1 <= s@.len(),
    {
        proof {
            reveal(parse_key_share_entry);
        }
        let mut off: usize = 0;
        let (v0, n0) = read_u16(s)?;
        off = off + n0;
        let t1 = vstd::slice::slice_subrange(s, off, s.len());
        assert(t1@ == skip(s@, off as nat));
        let (v1, n1) = read_opaque(t1, 2)?;
        off = off + n1;
        Ok((KeyShareEntry { group: NamedGroup::from_code(v0), key_exchange: v1 }, off))
    }

    pub fn encode(&self, out: &mut Vec<u8>)
        requires
            self@.wf(),
        ensures
            final(out)@ == old(out)@ + ser_key_share_entry(self@),
    {
        proof {
            reveal(ser_key_share_entry);
        }
        put_u16(out, self.group.to_code());
        put_opaque(out, 2, self.key_exchange.as_slice());
        assert(out@ =~= old(out)@ + ser_key_share_entry(self@));
    }
}

pub open spec fn key_share_entry_vec_wf(xs: Seq<KeyShareEntryModel>, w: nat) -> bool {
    &&& forall|i: int| 0 <= i < xs.len() ==> (#[trigger] xs[i]).wf()
    &&& ser_items(xs, key_share_entry_writer()).len() <= prefix_max(w)
}

pub proof fn lemma_key_share_entry_vec(w: nat, xs: Seq<KeyShareEntryModel>, rest: Seq<u8>)
    requires
        valid_width(w),
        key_share_entry_vec_wf(xs, w),
    ensures
        parse_vec(w, 0, ser_list(w, xs, key_share_entry_writer()) + rest, key_share_entry_parser()) == Ok::<(Seq<KeyShareEntryModel>, nat), DecodeError>(
            (xs, ser_list(w, xs, key_share_entry_writer()).len()),
        ),
        ser_list(w, xs, key_share_entry_writer()).len() >= w,
{
    assert forall|i: int, r: Seq<u8>| 0 <= i < xs.len() implies #[trigger] key_share_entry_parser()(key_share_entry_writer()(xs[i]) + r)
        == Ok::<(KeyShareEntryModel, nat), DecodeError>((xs[i], key_share_entry_writer()(xs[i]).len())) && key_share_entry_writer()(xs[i]).len() > 0 by {
        let x = xs[i];
        assert(x.wf());
        lemma_key_share_entry_round_trip(x, r);
    }
    assert(items_round_trip(xs, key_share_entry_parser(), key_share_entry_writer()));
    lemma_vec(w, 0, xs, key_share_entry_parser(), key_share_entry_writer(), rest);
}

pub fn write_key_share_entry_vec(v: &Vec<KeyShareEntry>, w: usize, out: &mut Vec<u8>)
    requires
        valid_width(w as nat),
        key_share_entry_vec_wf(views(v@), w as nat),
    ensures
        final(out)@ == old(out)@ + ser_list(w as nat, views(v@), key_share_entry_writer()),
{
    let mut tmp: Vec<u8> = Vec::new();
    let mut i: usize = 0;
    while i < v.len()
        invariant
            i <= v@.len(),
            key_share_entry_vec_wf(views(v@), w as nat),
            tmp@ == ser_items(views(v@).take(i as int), key_share_entry_writer()),
        decreases v@.len() - i,
    {
        let ghost x = views(v@)[i as int];
        assert(x == v@[i as int]@);
        assert(x.wf());
        v[i].encode(&mut tmp);
        proof {
            lemma_ser_items_push(views(v@).take(i as int), x, key_share_entry_writer());
            assert(views(v@).take(i as int).push(x) =~= views(v@).take(i + 1));
        }
        i = i + 1;
    }
    assert(views(v@).take(i as int) =~= views(v@));
    put_opaque(out, w, tmp.as_slice());
}
/// The key shares a client offers.
pub struct KeyShareClientHello {
    pub client_shares: Vec<KeyShareEntry>,
}

pub ghost struct KeyShareClientHelloModel {
    pub client_shares: Seq<KeyShareEntryModel>,
}

impl View for KeyShareClientHello {
    type V = KeyShareClientHelloModel;

    open spec fn view(&self) -> KeyShareClientHelloModel {
        KeyShareClientHelloModel { client_shares: views(self.client_shares@) }
    }
}

impl KeyShareClientHelloModel {
    pub open spec fn wf(self) -> bool {
        let m = self;
        &&& key_share_entry_vec_wf(m.client_shares, 2)
    }
}

#[verifier::opaque]
pub open spec fn ser_key_share_client_hello(m: KeyShareClientHelloModel) -> Seq<u8> {
    ser_list(2, m.client_shares, key_share_entry_writer())
}

#[verifier::opaque]
pub open spec fn parse_key_share_client_hello(s: Seq<u8>) -> SpecResult<KeyShareClientHelloModel> {
    match parse_vec(2, 0, s, key_share_entry_parser()) {
        Err(e) => Err(e),
        Ok((v0, n0)) => Ok((KeyShareClientHelloModel { client_shares: v0 }, n0)),
    }
}

/// Decoding the encoding of a well-formed value gives it back, whatever follows.
pub proof fn lemma_key_share_client_hello_round_trip(m: KeyShareClientHelloModel, rest: Seq<u8>)
    requires
        m.wf(),
    ensures
        parse_key_share_client_hello(ser_key_share_client_hello(m) + rest) == Ok::<(KeyShareClientHelloModel, nat), DecodeError>((m, ser_key_share_client_hello(m).len())),
        ser_key_share_client_hello(m).len() > 0,
{
    reveal(parse_key_share_client_hello);
    reveal(ser_key_share_client_hello);
    let a0 = ser_list(2, m.client_shares, key_share_entry_writer());
    let s = ser_key_share_client_hello(m) + rest;
    assert(s =~= (a0 + rest));
    lemma_key_share_entry_vec(2, m.client_shares, rest);
}

/// A well-formed value cut short by any number of bytes is refused as truncated.
pub proof fn lemma_key_share_client_hello_truncated(m: KeyShareClientHelloModel, k: nat)
    requires
        m.wf(),
        k < ser_key_share_client_hello(m).len(),
    ensures
        parse_key_share_client_hello(ser_key_share_client_hello(m).take(k as int)) == Err::<(KeyShareClientHelloModel, nat), DecodeError>(
            DecodeError::TruncatedInput,
        ),
{
    reveal(parse_key_share_client_hello);
    reveal(ser_key_share_client_hello);
    let a0 = ser_list(2, m.client_shares, key_share_entry_writer());
    let t = ser_key_share_client_hello(m).take(k as int);
    {
        let u0 = a0.take(k - (0));
        assert(t =~= u0);
        lemma_opaque(2, ser_items(m.client_shares, key_share_entry_writer()), Seq::empty()); lemma_opaque_truncated(2, ser_items(m.client_shares, key_share_entry_writer()), (k - (0)) as nat);
    }
}

impl KeyShareClientHello {
    pub fn decode(s: &[u8]) -> (r: Result<(Self, usize), DecodeError>)
        ensures
            decoded_as(r, parse_key_share_client_hello(s@)),
            r is Ok ==> r->Ok_0.1 <= s@.len(),
    {
        proof {
            reveal(parse_key_share_client_hello);
        }
        let mut off: usize = 0;
        let (v0, n0) = read_vec(s, 2, 0, KeyShareEntry::decode, Ghost(key_share_entry_parser()))?;
        off = off + n0;
        Ok((KeyShareClientHello { client_shares: v0 }, off))
    }

    pub fn encode(&self, out: &mut Vec<u8>)
        requires
            self@.wf(),
        ensures
            final(out)@ == old(out)@ + ser_key_share_client_hello(self@),
    {
        proof {
            reveal(ser_key_share_client_hello);
        }
        write_key_share_entry_vec(&self.client_shares, 2, out);
        assert(out@ =~= old(out)@ + ser_key_share_client_hello(self@));
    }
}

/// The group a server asks the client to retry with.
pub struct KeyShareHelloRetryRequest {
    pub selected_group: NamedGroup,
}

pub ghost struct KeyShareHelloRetryRequestModel {
    pub selected_group: NamedGroup,
}

impl View for KeyShareHelloRetryRequest {
    type V = KeyShareHelloRetryRequestModel;

    open spec fn view(&self) -> KeyShareHelloRetryRequestModel {
        KeyShareHelloRetryRequestModel { selected_group: self.selected_group }
    }
}

impl KeyShareHelloRetryRequestModel {
    pub open spec fn wf(self) -> bool {
        let m = self;
        &&& m.selected_group.is_canonical()
    }
}

#[verifier::opaque]
pub open spec fn ser_key_share_hello_retry_request(m: KeyShareHelloRetryRequestModel) -> Seq<u8> {
    ser_u16(m.selected_group.code())
}

#[verifier::opaque]
pub open spec fn parse_key_share_hello_retry_request(s: Seq<u8>) -> SpecResult<KeyShareHelloRetryRequestModel> {
    match parse_u16(s) {
        Err(e) => Err(e),
        Ok((v0, n0)) => Ok((KeyShareHelloRetryRequestModel { selected_group: NamedGroup::spec_from_code(v0) }, n0)),
    }
}

/// Decoding the encoding of a well-formed value gives it back, whatever follows.
pub proof fn lemma_key_share_hello_retry_request_round_trip(m: KeyShareHelloRetryRequestModel, rest: Seq<u8>)
    requires
        m.wf(),
    ensures
        parse_key_share_hello_retry_request(ser_key_share_hello_retry_request(m) + rest) == Ok::<(KeyShareHelloRetryRequestModel, nat), DecodeError>((m, ser_key_share_hello_retry_request(m).len())),
        ser_key_share_hello_retry_request(m).len() > 0,
{
    reveal(parse_key_share_hello_retry_request);
    reveal(ser_key_share_hello_retry_request);
    let a0 = ser_u16(m.selected_group.code());
    let s = ser_key_share_hello_retry_request(m) + rest;
    assert(s =~= (a0 + rest));
    lemma_u16(m.selected_group.code(), rest); NamedGroup::lemma_codes(m.selected_group.code(), m.selected_group);
}

/// A well-formed value cut short by any number of bytes is refused as truncated.
#[verifier::rlimit(50)]
pub proof fn lemma_key_share_hello_retry_request_truncated(m: KeyShareHelloRetryRequestModel, k: nat)
    requires
        m.wf(),
        k < ser_key_share_hello_retry_request(m).len(),
    ensures
        parse_key_share_hello_retry_request(ser_key_share_hello_retry_request(m).take(k as int)) == Err::<(KeyShareHelloRetryRequestModel, nat), DecodeError>(
            DecodeError::TruncatedInput,
        ),
{
    reveal(parse_key_share_hello_retry_request);
    reveal(ser_key_share_hello_retry_request);
    let a0 = ser_u16(m.selected_group.code());
    let t = ser_key_share_hello_retry_request(m).take(k as int);
    {
        let u0 = a0.take(k - (0));
        assert(t =~= u0);
    }
}

impl KeyShareHelloRetryRequest {
    pub fn decode(s: &[u8]) -> (r: Result<(Self, usize), DecodeError>)
        ensures
            decoded_as(r, parse_key_share_hello_retry_request(s@)),
            r is Ok ==> r->Ok_0.1 <= s@.len(),
    {
        proof {
            reveal(parse_key_share_hello_retry_request);
        }
        let mut off: usize = 0;
        let (v0, n0) = read_u16(s)?;
        off = off + n0;
        Ok((KeyShareHelloRetryRequest { selected_group: NamedGroup::from_code(v0) }, off))
    }

    pub fn encode(&self, out: &mut Vec<u8>)
        requires
            self@.wf(),
        ensures
            final(out)@ == old(out)@ + ser_key_share_hello_retry_request(self@),
    {
        proof {
            reveal(ser_key_share_hello_retry_request);
        }
        put_u16(out, self.selected_group.to_code());
        assert(out@ =~= old(out)@ + ser_key_share_hello_retry_request(self@));
    }
}

/// The key share a server selected.
pub struct KeyShareServerHello {
    pub server_share: KeyShareEntry,
}

pub ghost struct KeyShareServerHelloModel {
    pub server_share: KeyShareEntryModel,
}

impl View for KeyShareServerHello {
    type V = KeyShareServerHelloModel;

    open spec fn view(&self) -> KeyShareServerHelloModel {
        KeyShareServerHelloModel { server_share: self.server_share@ }
    }
}

impl KeyShareServerHelloModel {
    pub open spec fn wf(self) -> bool {
        let m = self;
        &&& m.server_share.wf()
    }
}

#[verifier::opaque]
pub open spec fn ser_key_share_server_hello(m: KeyShareServerHelloModel) -> Seq<u8> {
    ser_key_share_entry(m.server_share)
}

#[verifier::opaque]
pub open spec fn parse_key_share_server_hello(s: Seq<u8>) -> SpecResult<KeyShareServerHelloModel> {
    match parse_key_share_entry(s) {
        Err(e) => Err(e),
        Ok((v0, n0)) => Ok((KeyShareServerHelloModel { server_share: v0 }, n0)),
    }
}

/// Decoding the encoding of a well-formed value gives it back, whatever follows.
pub proof fn lemma_key_share_server_hello_round_trip(m: KeyShareServerHelloModel, rest: Seq<u8>)
    requires
        m.wf(),
    ensures
        parse_key_share_server_hello(ser_key_share_server_hello(m) + rest) == Ok::<(KeyShareServerHelloModel, nat), DecodeError>((m, ser_key_share_server_hello(m).len())),
        ser_key_share_server_hello(m).len() > 0,
{
    reveal(parse_key_share_server_hello);
    reveal(ser_key_share_server_hello);
    let a0 = ser_key_share_entry(m.server_share);
    let s = ser_key_share_server_hello(m) + rest;
    assert(s =~= (a0 + rest));
    lemma_key_share_entry_round_trip(m.server_share, rest);
}

/// A well-formed value cut short by any number of bytes is refused as truncated.
pub proof fn lemma_key_share_server_hello_truncated(m: KeyShareServerHelloModel, k: nat)
    requires
        m.wf(),
        k < ser_key_share_server_hello(m).len(),
    ensures
        parse_key_share_server_hello(ser_key_share_server_hello(m).take(k as int)) == Err::<(KeyShareServerHelloModel, nat), DecodeError>(
            DecodeError::TruncatedInput,
        ),
{
    reveal(parse_key_share_server_hello);
    reveal(ser_key_share_server_hello);
    let a0 = ser_key_share_entry(m.server_share);
    let t = ser_key_share_server_hello(m).take(k as int);
    {
        let u0 = a0.take(k - (0));
        assert(t =~= u0);
        lemma_key_share_entry_truncated(m.server_share, (k - (0)) as nat);
    }
}

impl KeyShareServerHello {
    pub fn decode(s: &[u8]) -> (r: Result<(Self, usize), DecodeError>)
        ensures
            decoded_as(r, parse_key_share_server_hello(s@)),
            r is Ok ==> r->Ok_0.1 <= s@.len(),
    {
        proof {
            reveal(parse_key_share_server_hello);
        }
        let mut off: usize = 0;
        let (v0, n0) = KeyShareEntry::decode(s)?;
        off = off + n0;
        Ok((KeyShareServerHello { server_share: v0 }, off))
    }

    pub fn encode(&self, out: &mut Vec<u8>)
        requires
            self@.wf(),
        ensures
            final(out)@ == old(out)@ + ser_key_share_server_hello(self@),
    {
        proof {
            reveal(ser_key_share_server_hello);
        }
        self.server_share.encode(out);
        assert(out@ =~= old(out)@ + ser_key_share_server_hello(self@));
    }
}

/// The PSK key exchange modes a client supports.
pub struct PskKeyExchangeModes {
    pub ke_modes: Vec<PskKeyExchangeMode>,
}

pub ghost struct PskKeyExchangeModesModel {
    pub ke_modes: Seq<PskKeyExchangeMode>,
}

impl View for PskKeyExchangeModes {
    type V = PskKeyExchangeModesModel;

    open spec fn view(&self) -> PskKeyExchangeModesModel {
        PskKeyExchangeModesModel { ke_modes: views(self.ke_modes@) }
    }
}

impl PskKeyExchangeModesModel {
    pub open spec fn wf(self) -> bool {
        let m = self;
        &&& psk_key_exchange_mode_vec_wf(m.ke_modes, 1)
    }
}

#[verifier::opaque]
pub open spec fn ser_psk_key_exchange_modes(m: PskKeyExchangeModesModel) -> Seq<u8> {
    ser_list(1, m.ke_modes, psk_key_exchange_mode_writer())
}

#[verifier::opaque]
pub open spec fn parse_psk_key_exchange_modes(s: Seq<u8>) -> SpecResult<PskKeyExchangeModesModel> {
    match parse_vec(1, 1, s, psk_key_exchange_mode_parser()) {
        Err(e) => Err(e),
        Ok((v0, n0)) => Ok((PskKeyExchangeModesModel { ke_modes: v0 }, n0)),
    }
}

/// Decoding the encoding of a well-formed value gives it back, whatever follows.
pub proof fn lemma_psk_key_exchange_modes_round_trip(m: PskKeyExchangeModesModel, rest: Seq<u8>)
    requires
        m.wf(),
    ensures
        parse_psk_key_exchange_modes(ser_psk_key_exchange_modes(m) + rest) == Ok::<(PskKeyExchangeModesModel, nat), DecodeError>((m, ser_psk_key_exchange_modes(m).len())),
        ser_psk_key_exchange_modes(m).len() > 0,
{
    reveal(parse_psk_key_exchange_modes);
    reveal(ser_psk_key_exchange_modes);
    let a0 = ser_list(1, m.ke_modes, psk_key_exchange_mode_writer());
    let s = ser_psk_key_exchange_modes(m) + rest;
    assert(s =~= (a0 + rest));
    lemma_psk_key_exchange_mode_vec(1, m.ke_modes, rest);
}

/// A well-formed value cut short by any number of bytes is refused as truncated.
pub proof fn lemma_psk_key_exchange_modes_truncated(m: PskKeyExchangeModesModel, k: nat)
    requires
        m.wf(),
        k < ser_psk_key_exchange_modes(m).len(),
    ensures
        parse_psk_key_exchange_modes(ser_psk_key_exchange_modes(m).take(k as int)) == Err::<(PskKeyExchangeModesModel, nat), DecodeError>(
            DecodeError::TruncatedInput,
        ),
{
    reveal(parse_psk_key_exchange_modes);
    reveal(ser_psk_key_exchange_modes);
    let a0 = ser_list(1, m.ke_modes, psk_key_exchange_mode_writer());
    let t = ser_psk_key_exchange_modes(m).take(k as int);
    {
        let u0 = a0.take(k - (0));
        assert(t =~= u0);
        lemma_opaque(1, ser_items(m.ke_modes, psk_key_exchange_mode_writer()), Seq::empty()); lemma_opaque_truncated(1, ser_items(m.ke_modes, psk_key_exchange_mode_writer()), (k - (0)) as nat);
    }
}

impl PskKeyExchangeModes {
    pub fn decode(s: &[u8]) -> (r: Result<(Self, usize), DecodeError>)
        ensures
            decoded_as(r, parse_psk_key_exchange_modes(s@)),
            r is Ok ==> r->Ok_0.1 <= s@.len(),
    {
        proof {
            reveal(parse_psk_key_exchange_modes);
        }
        let mut off: usize = 0;
        let (v0, n0) = read_vec(s, 1, 1, read_psk_key_exchange_mode, Ghost(psk_key_exchange_mode_parser()))?;
        off = off + n0;
        Ok((PskKeyExchangeModes { ke_modes: v0 }, off))
    }

    pub fn encode(&self, out: &mut Vec<u8>)
        requires
            self@.wf(),
        ensures
            final(out)@ == old(out)@ + ser_psk_key_exchange_modes(self@),
    {
        proof {
            reveal(ser_psk_key_exchange_modes);
        }
        write_psk_key_exchange_mode_vec(&self.ke_modes, 1, out);
        assert(out@ =~= old(out)@ + ser_psk_key_exchange_modes(self@));
    }
}

/// A PSK identity and its obfuscated ticket age.
pub struct PskIdentity {
    pub identity: Vec<u8>,
    pub obfuscated_ticket_age: u32,
}

pub ghost struct PskIdentityModel {
    pub identity: Seq<u8>,
    pub obfuscated_ticket_age: u32,
}

impl View for PskIdentity {
    type V = PskIdentityModel;

    open spec fn view(&self) -> PskIdentityModel {
        PskIdentityModel { identity: self.identity@, obfuscated_ticket_age: self.obfuscated_ticket_age }
    }
}

impl PskIdentityModel {
    pub open spec fn wf(self) -> bool {
        let m = self;
        &&& m.identity.len() <= 65535
    }
}

#[verifier::opaque]
pub open spec fn ser_psk_identity(m: PskIdentityModel) -> Seq<u8> {
    ser_opaque(2, m.identity) + ser_u32(m.obfuscated_ticket_age)
}

#[verifier::opaque]
pub open spec fn parse_psk_identity(s: Seq<u8>) -> SpecResult<PskIdentityModel> {
    match parse_opaque(2, s) {
        Err(e) => Err(e),
        Ok((v0, n0)) => 
        match parse_u32(skip(s, n0)) {
            Err(e) => Err(e),
            Ok((v1, n1)) => Ok((PskIdentityModel { identity: v0, obfuscated_ticket_age: v1 }, n0 + n1)),
        },
    }
}

/// Decoding the encoding of a well-formed value gives it back, whatever follows.
pub proof fn lemma_psk_identity_round_trip(m: PskIdentityModel, rest: Seq<u8>)
    requires
        m.wf(),
    ensures
        parse_psk_identity(ser_psk_identity(m) + rest) == Ok::<(PskIdentityModel, nat), DecodeError>((m, ser_psk_identity(m).len())),
        ser_psk_identity(m).len() > 0,
{
    reveal(parse_psk_identity);
    reveal(ser_psk_identity);
    let a0 = ser_opaque(2, m.identity);
    let a1 = ser_u32(m.obfuscated_ticket_age);
    let s = ser_psk_identity(m) + rest;
    assert(s =~= (a0 + (a1 + rest)));
    lemma_opaque(2, m.identity, (a1 + rest));
    lemma_skip(a0, (a1 + rest));
    lemma_u32(m.obfuscated_ticket_age, rest);
}

/// A well-formed value cut short by any number of bytes is refused as truncated.
pub proof fn lemma_psk_identity_truncated(m: PskIdentityModel, k: nat)
    requires
        m.wf(),
        k < ser_psk_identity(m).len(),
    ensures
        parse_psk_identity(ser_psk_identity(m).take(k as int)) == Err::<(PskIdentityModel, nat), DecodeError>(
            DecodeError::TruncatedInput,
        ),
{
    reveal(parse_psk_identity);
    reveal(ser_psk_identity);
    let a0 = ser_opaque(2, m.identity);
    let a1 = ser_u32(m.obfuscated_ticket_age);
    let t = ser_psk_identity(m).take(k as int);
    if k < a0.len() {
        let u0 = a0.take(k - (0));
        assert(t =~= u0);
        lemma_opaque(2, m.identity, Seq::empty()); lemma_opaque_truncated(2, m.identity, (k - (0)) as nat);
    } else {
        let u1 = a1.take(k - (a0.len()));
        assert(t =~= (a0 + u1));
        lemma_opaque(2, m.identity, u1);
        lemma_skip(a0, u1);
        lemma_u32(m.obfuscated_ticket_age, Seq::empty());
    }
}

pub open spec fn psk_identity_parser() -> spec_fn(Seq<u8>) -> SpecResult<PskIdentityModel> {
    |s: Seq<u8>| parse_psk_identity(s)
}

pub open spec fn psk_identity_writer() -> spec_fn(PskIdentityModel) -> Seq<u8> {
    |m: PskIdentityModel| ser_psk_identity(m)
}

impl PskIdentity {
    pub fn decode(s: &[u8]) -> (r: Result<(Self, usize), DecodeError>)
        ensures
            decoded_as(r, parse_psk_identity(s@)),
            r is Ok ==> r->Ok_0.1 <= s@.len(),
    {
        proof {
            reveal(parse_psk_identity);
        }
        let mut off: usize = 0;
        let (v0, n0) = read_opaque(s, 2)?;
        off = off + n0;
        let t1 = vstd::slice::slice_subrange(s, off, s.len());
        assert(t1@ == skip(s@, off as nat));
        let (v1, n1) = read_u32(t1)?;
        off = off + n1;
        Ok((PskIdentity { identity: v0, obfuscated_ticket_age: v1 }, off))
    }

    pub fn encode(&self, out: &mut Vec<u8>)
        requires
            self@.wf(),
        ensures
            final(out)@ == old(out)@ + ser_psk_identity(self@),
    {
        proof {
            reveal(ser_psk_identity);
        }
        put_opaque(out, 2, self.identity.as_slice());
        put_u32(out, self.obfuscated_ticket_age);
        assert(out@ =~= old(out)@ + ser_psk_identity(self@));
    }
}

pub open spec fn psk_identity_vec_wf(xs: Seq<PskIdentityModel>, w: nat) -> bool {
    &&& forall|i: int| 0 <= i < xs.len() ==> (#[trigger] xs[i]).wf()
    &&& ser_items(xs, psk_identity_writer()).len() <= prefix_max(w)
}

pub proof fn lemma_psk_identity_vec(w: nat, xs: Seq<PskIdentityModel>, rest: Seq<u8>)
    requires
        valid_width(w),
        psk_identity_vec_wf(xs, w),
    ensures
        parse_vec(w, 0, ser_list(w, xs, psk_identity_writer()) + rest, psk_identity_parser()) == Ok::<(Seq<PskIdentityModel>, nat), DecodeError>(
            (xs, ser_list(w, xs, psk_identity_writer()).len()),
        ),
        ser_list(w, xs, psk_identity_writer()).len() >= w,
{
    assert forall|i: int, r: Seq<u8>| 0 <= i < xs.len() implies #[trigger] psk_identity_parser()(psk_identity_writer()(xs[i]) + r)
        == Ok::<(PskIdentityModel, nat), DecodeError>((xs[i], psk_identity_writer()(xs[i]).len())) && psk_identity_writer()(xs[i]).len() > 0 by {
        let x = xs[i];
        assert(x.wf());
        lemma_psk_identity_round_trip(x, r);
    }
    assert(items_round_trip(xs, psk_identity_parser(), psk_identity_writer()));
    lemma_vec(w, 0, xs, psk_identity_parser(), psk_identity_writer(), rest);
}

pub fn write_psk_identity_vec(v: &Vec<PskIdentity>, w: usize, out: &mut Vec<u8>)
    requires
        valid_width(w as nat),
        psk_identity_vec_wf(views(v@), w as nat),
    ensures
        final(out)@ == old(out)@ + ser_list(w as nat, views(v@), psk_identity_writer()),
{
    let mut tmp: Vec<u8> = Vec::new();
    let mut i: usize = 0;
    while i < v.len()
        invariant
            i <= v@.len(),
            psk_identity_vec_wf(views(v@), w as nat),
            tmp@ == ser_items(views(v@).take(i as int), psk_identity_writer()),
        decreases v@.len() - i,
    {
        let ghost x = views(v@)[i as int];
        assert(x == v@[i as int]@);
        assert(x.wf());
        v[i].encode(&mut tmp);
        proof {
            lemma_ser_items_push(views(v@).take(i as int), x, psk_identity_writer());
            assert(views(v@).take(i as int).push(x) =~= views(v@).take(i + 1));
        }
        i = i + 1;
    }
    assert(views(v@).take(i as int) =~= views(v@));
    put_opaque(out, w, tmp.as_slice());
}
/// The identities a client offers and one binder for each.
pub struct OfferedPsks {
    pub identities: Vec<PskIdentity>,
    pub binders: Vec<Vec<u8>>,
}

pub ghost struct OfferedPsksModel {
    pub identities: Seq<PskIdentityModel>,
    pub binders: Seq<Seq<u8>>,
}

impl View for OfferedPsks {
    type V = OfferedPsksModel;

    open spec fn view(&self) -> OfferedPsksModel {
        OfferedPsksModel { identities: views(self.identities@), binders: views(self.binders@) }
    }
}

impl OfferedPsksModel {
    pub open spec fn wf(self) -> bool {
        let m = self;
        &&& psk_identity_vec_wf(m.identities, 2)
        &&& opaque1_vec_wf(m.binders, 2)
    }
}

#[verifier::opaque]
pub open spec fn ser_offered_psks(m: OfferedPsksModel) -> Seq<u8> {
    ser_list(2, m.identities, psk_identity_writer()) + ser_list(2, m.binders, opaque1_writer())
}

#[verifier::opaque]
pub open spec fn parse_offered_psks(s: Seq<u8>) -> SpecResult<OfferedPsksModel> {
    match parse_vec(2, 0, s, psk_identity_parser()) {
        Err(e) => Err(e),
        Ok((v0, n0)) => 
        match parse_vec(2, 0, skip(s, n0), opaque1_parser()) {
            Err(e) => Err(e),
            Ok((v1, n1)) => Ok((OfferedPsksModel { identities: v0, binders: v1 }, n0 + n1)),
        },
    }
}

/// Decoding the encoding of a well-formed value gives it back, whatever follows.
pub proof fn lemma_offered_psks_round_trip(m: OfferedPsksModel, rest: Seq<u8>)
    requires
        m.wf(),
    ensures
        parse_offered_psks(ser_offered_psks(m) + rest) == Ok::<(OfferedPsksModel, nat), DecodeError>((m, ser_offered_psks(m).len())),
        ser_offered_psks(m).len() > 0,
{
    reveal(parse_offered_psks);
    reveal(ser_offered_psks);
    let a0 = ser_list(2, m.identities, psk_identity_writer());
    let a1 = ser_list(2, m.binders, opaque1_writer());
    let s = ser_offered_psks(m) + rest;
    assert(s =~= (a0 + (a1 + rest)));
    lemma_psk_identity_vec(2, m.identities, (a1 + rest));
    lemma_skip(a0, (a1 + rest));
    lemma_opaque1_vec(2, m.binders, rest);
}

/// A well-formed value cut short by any number of bytes is refused as truncated.
pub proof fn lemma_offered_psks_truncated(m: OfferedPsksModel, k: nat)
    requires
        m.wf(),
        k < ser_offered_psks(m).len(),
    ensures
        parse_offered_psks(ser_offered_psks(m).take(k as int)) == Err::<(OfferedPsksModel, nat), DecodeError>(
            DecodeError::TruncatedInput,
        ),
{
    reveal(parse_offered_psks);
    reveal(ser_offered_psks);
    let a0 = ser_list(2, m.identities, psk_identity_writer());
    let a1 = ser_list(2, m.binders, opaque1_writer());
    let t = ser_offered_psks(m).take(k as int);
    if k < a0.len() {
        let u0 = a0.take(k - (0));
        assert(t =~= u0);
        lemma_opaque(2, ser_items(m.identities, psk_identity_writer()), Seq::empty()); lemma_opaque_truncated(2, ser_items(m.identities, psk_identity_writer()), (k - (0)) as nat);
    } else {
        let u1 = a1.take(k - (a0.len()));
        assert(t =~= (a0 + u1));
        lemma_psk_identity_vec(2, m.identities, u1);
        lemma_skip(a0, u1);
        lemma_opaque(2, ser_items(m.binders, opaque1_writer()), Seq::empty()); lemma_opaque_truncated(2, ser_items(m.binders, opaque1_writer()), (k - (a0.len())) as nat);
    }
}

impl OfferedPsks {
    pub fn decode(s: &[u8]) -> (r: Result<(Self, usize), DecodeError>)
        ensures
            decoded_as(r, parse_offered_psks(s@)),
            r is Ok ==> r->Ok_0.1 <= s@.len(),
    {
        proof {
            reveal(parse_offered_psks);
        }
        let mut off: usize = 0;
        let (v0, n0) = read_vec(s, 2, 0, PskIdentity::decode, Ghost(psk_identity_parser()))?;
        off = off + n0;
        let t1 = vstd::slice::slice_subrange(s, off, s.len());
        assert(t1@ == skip(s@, off as nat));
        let (v1, n1) = read_vec(t1, 2, 0, read_opaque1, Ghost(opaque1_parser()))?;
        off = off + n1;
        Ok((OfferedPsks { identities: v0, binders: v1 }, off))
    }

    pub fn encode(&self, out: &mut Vec<u8>)
        requires
            self@.wf(),
        ensures
            final(out)@ == old(out)@ + ser_offered_psks(self@),
    {
        proof {
            reveal(ser_offered_psks);
        }
        write_psk_identity_vec(&self.identities, 2, out);
        write_opaque1_vec(&self.binders, 2, out);
        assert(out@ =~= old(out)@ + ser_offered_psks(self@));
    }
}

/// A client's pre-shared key offer.
pub struct PreSharedKeyExtensionClient {
    pub offered_psks: OfferedPsks,
}

pub ghost struct PreSharedKeyExtensionClientModel {
    pub offered_psks: OfferedPsksModel,
}

impl View for PreSharedKeyExtensionClient {
    type V = PreSharedKeyExtensionClientModel;

    open spec fn view(&self) -> PreSharedKeyExtensionClientModel {
        PreSharedKeyExtensionClientModel { offered_psks: self.offered_psks@ }
    }
}

impl PreSharedKeyExtensionClientModel {
    pub open spec fn wf(self) -> bool {
        let m = self;
        &&& m.offered_psks.wf()
    }
}

#[verifier::opaque]
pub open spec fn ser_pre_shared_key_extension_client(m: PreSharedKeyExtensionClientModel) -> Seq<u8> {
    ser_offered_psks(m.offered_psks)
}

#[verifier::opaque]
pub open spec fn parse_pre_shared_key_extension_client(s: Seq<u8>) -> SpecResult<PreSharedKeyExtensionClientModel> {
    match parse_offered_psks(s) {
        Err(e) => Err(e),
        Ok((v0, n0)) => Ok((PreSharedKeyExtensionClientModel { offered_psks: v0 }, n0)),
    }
}

/// Decoding the encoding of a well-formed value gives it back, whatever follows.
pub proof fn lemma_pre_shared_key_extension_client_round_trip(m: PreSharedKeyExtensionClientModel, rest: Seq<u8>)
    requires
        m.wf(),
    ensures
        parse_pre_shared_key_extension_client(ser_pre_shared_key_extension_client(m) + rest) == Ok::<(PreSharedKeyExtensionClientModel, nat), DecodeError>((m, ser_pre_shared_key_extension_client(m).len())),
        ser_pre_shared_key_extension_client(m).len() > 0,
{
    reveal(parse_pre_shared_key_extension_client);
    reveal(ser_pre_shared_key_extension_client);
    let a0 = ser_offered_psks(m.offered_psks);
    let s = ser_pre_shared_key_extension_client(m) + rest;
    assert(s =~= (a0 + rest));
    lemma_offered_psks_round_trip(m.offered_psks, rest);
}

/// A well-formed value cut short by any number of bytes is refused as truncated.
pub proof fn lemma_pre_shared_key_extension_client_truncated(m: PreSharedKeyExtensionClientModel, k: nat)
    requires
        m.wf(),
        k < ser_pre_shared_key_extension_client(m).len(),
    ensures
        parse_pre_shared_key_extension_client(ser_pre_shared_key_extension_client(m).take(k as int)) == Err::<(PreSharedKeyExtensionClientModel, nat), DecodeError>(
            DecodeError::TruncatedInput,
        ),
{
    reveal(parse_pre_shared_key_extension_client);
    reveal(ser_pre_shared_key_extension_client);
    let a0 = ser_offered_psks(m.offered_psks);
    let t = ser_pre_shared_key_extension_client(m).take(k as int);
    {
        let u0 = a0.take(k - (0));
        assert(t =~= u0);
        lemma_offered_psks_truncated(m.offered_psks, (k - (0)) as nat);
    }
}

impl PreSharedKeyExtensionClient {
    pub fn decode(s: &[u8]) -> (r: Result<(Self, usize), DecodeError>)
        ensures
            decoded_as(r, parse_pre_shared_key_extension_client(s@)),
            r is Ok ==> r->Ok_0.1 <= s@.len(),
    {
        proof {
            reveal(parse_pre_shared_key_extension_client);
        }
        let mut off: usize = 0;
        let (v0, n0) = OfferedPsks::decode(s)?;
        off = off + n0;
        Ok((PreSharedKeyExtensionClient { offered_psks: v0 }, off))
    }

    pub fn encode(&self, out: &mut Vec<u8>)
        requires
            self@.wf(),
        ensures
            final(out)@ == old(out)@ + ser_pre_shared_key_extension_client(self@),
    {
        proof {
            reveal(ser_pre_shared_key_extension_client);
        }
        self.offered_psks.encode(out);
        assert(out@ =~= old(out)@ + ser_pre_shared_key_extension_client(self@));
    }
}

/// The identity a server selected.
pub struct PreSharedKeyExtensionServer {
    pub selected_identity: u16,
}

pub ghost struct PreSharedKeyExtensionServerModel {
    pub selected_identity: u16,
}

impl View for PreSharedKeyExtensionServer {
    type V = PreSharedKeyExtensionServerModel;

    open spec fn view(&self) -> PreSharedKeyExtensionServerModel {
        PreSharedKeyExtensionServerModel { selected_identity: self.selected_identity }
    }
}

impl PreSharedKeyExtensionServerModel {
    pub open spec fn wf(self) -> bool {
        let m = self;
        &&& true
    }
}

#[verifier::opaque]
pub open spec fn ser_pre_shared_key_extension_server(m: PreSharedKeyExtensionServerModel) -> Seq<u8> {
    ser_u16(m.selected_identity)
}

#[verifier::opaque]
pub open spec fn parse_pre_shared_key_extension_server(s: Seq<u8>) -> SpecResult<PreSharedKeyExtensionServerModel> {
    match parse_u16(s) {
        Err(e) => Err(e),
        Ok((v0, n0)) => Ok((PreSharedKeyExtensionServerModel { selected_identity: v0 }, n0)),
    }
}

/// Decoding the encoding of a well-formed value gives it back, whatever follows.
pub proof fn lemma_pre_shared_key_extension_server_round_trip(m: PreSharedKeyExtensionServerModel, rest: Seq<u8>)
    requires
        m.wf(),
    ensures
        parse_pre_shared_key_extension_server(ser_pre_shared_key_extension_server(m) + rest) == Ok::<(PreSharedKeyExtensionServerModel, nat), DecodeError>((m, ser_pre_shared_key_extension_server(m).len())),
        ser_pre_shared_key_extension_server(m).len() > 0,
{
    reveal(parse_pre_shared_key_extension_server);
    reveal(ser_pre_shared_key_extension_server);
    let a0 = ser_u16(m.selected_identity);
    let s = ser_pre_shared_key_extension_server(m) + rest;
    assert(s =~= (a0 + rest));
    lemma_u16(m.selected_identity, rest);
}

/// A well-formed value cut short by any number of bytes is refused as truncated.
pub proof fn lemma_pre_shared_key_extension_server_truncated(m: PreSharedKeyExtensionServerModel, k: nat)
    requires
        m.wf(),
        k < ser_pre_shared_key_extension_server(m).len(),
    ensures
        parse_pre_shared_key_extension_server(ser_pre_shared_key_extension_server(m).take(k as int)) == Err::<(PreSharedKeyExtensionServerModel, nat), DecodeError>(
            DecodeError::TruncatedInput,
        ),
{
    reveal(parse_pre_shared_key_extension_server);
    reveal(ser_pre_shared_key_extension_server);
    let a0 = ser_u16(m.selected_identity);
    let t = ser_pre_shared_key_extension_server(m).take(k as int);
    {
        let u0 = a0.take(k - (0));
        assert(t =~= u0);
    }
}

impl PreSharedKeyExtensionServer {
    pub fn decode(s: &[u8]) -> (r: Result<(Self, usize), DecodeError>)
        ensures
            decoded_as(r, parse_pre_shared_key_extension_server(s@)),
            r is Ok ==> r->Ok_0.1 <= s@.len(),
    {
        proof {
            reveal(parse_pre_shared_key_extension_server);
        }
        let mut off: usize = 0;
        let (v0, n0) = read_u16(s)?;
        off = off + n0;
        Ok((PreSharedKeyExtensionServer { selected_identity: v0 }, off))
    }

    pub fn encode(&self, out: &mut Vec<u8>)
        requires
            self@.wf(),
        ensures
            final(out)@ == old(out)@ + ser_pre_shared_key_extension_server(self@),
    {
        proof {
            reveal(ser_pre_shared_key_extension_server);
        }
        put_u16(out, self.selected_identity);
        assert(out@ =~= old(out)@ + ser_pre_shared_key_extension_server(self@));
    }
}

/// Distinguished names of acceptable certificate authorities.
pub struct CertificateAuthoritiesExtension {
    pub authorities: Vec<Vec<u8>>,
}

pub ghost struct CertificateAuthoritiesExtensionModel {
    pub authorities: Seq<Seq<u8>>,
}

impl View for CertificateAuthoritiesExtension {
    type V = CertificateAuthoritiesExtensionModel;

    open spec fn view(&self) -> CertificateAuthoritiesExtensionModel {
        CertificateAuthoritiesExtensionModel { authorities: views(self.authorities@) }
    }
}

impl CertificateAuthoritiesExtensionModel {
    pub open spec fn wf(self) -> bool {
        let m = self;
        &&& opaque2_vec_wf(m.authorities, 2)
    }
}

#[verifier::opaque]
pub open spec fn ser_certificate_authorities_extension(m: CertificateAuthoritiesExtensionModel) -> Seq<u8> {
    ser_list(2, m.authorities, opaque2_writer())
}

#[verifier::opaque]
pub open spec fn parse_certificate_authorities_extension(s: Seq<u8>) -> SpecResult<CertificateAuthoritiesExtensionModel> {
    match parse_vec(2, 0, s, opaque2_parser()) {
        Err(e) => Err(e),
        Ok((v0, n0)) => Ok((CertificateAuthoritiesExtensionModel { authorities: v0 }, n0)),
    }
}

/// Decoding the encoding of a well-formed value gives it back, whatever follows.
pub proof fn lemma_certificate_authorities_extension_round_trip(m: CertificateAuthoritiesExtensionModel, rest: Seq<u8>)
    requires
        m.wf(),
    ensures
        parse_certificate_authorities_extension(ser_certificate_authorities_extension(m) + rest) == Ok::<(CertificateAuthoritiesExtensionModel, nat), DecodeError>((m, ser_certificate_authorities_extension(m).len())),
        ser_certificate_authorities_extension(m).len() > 0,
{
    reveal(parse_certificate_authorities_extension);
    reveal(ser_certificate_authorities_extension);
    let a0 = ser_list(2, m.authorities, opaque2_writer());
    let s = ser_certificate_authorities_extension(m) + rest;
    assert(s =~= (a0 + rest));
    lemma_opaque2_vec(2, m.authorities, rest);
}

/// A well-formed value cut short by any number of bytes is refused as truncated.
pub proof fn lemma_certificate_authorities_extension_truncated(m: CertificateAuthoritiesExtensionModel, k: nat)
    requires
        m.wf(),
        k < ser_certificate_authorities_extension(m).len(),
    ensures
        parse_certificate_authorities_extension(ser_certificate_authorities_extension(m).take(k as int)) == Err::<(CertificateAuthoritiesExtensionModel, nat), DecodeError>(
            DecodeError::TruncatedInput,
        ),
{
    reveal(parse_certificate_authorities_extension);
    reveal(ser_certificate_authorities_extension);
    let a0 = ser_list(2, m.authorities, opaque2_writer());
    let t = ser_certificate_authorities_extension(m).take(k as int);
    {
        let u0 = a0.take(k - (0));
        assert(t =~= u0);
        lemma_opaque(2, ser_items(m.authorities, opaque2_writer()), Seq::empty()); lemma_opaque_truncated(2, ser_items(m.authorities, opaque2_writer()), (k - (0)) as nat);
    }
}

impl CertificateAuthoritiesExtension {
    pub fn decode(s: &[u8]) -> (r: Result<(Self, usize), DecodeError>)
        ensures
            decoded_as(r, parse_certificate_authorities_extension(s@)),
            r is Ok ==> r->Ok_0.1 <= s@.len(),
    {
        proof {
            reveal(parse_certificate_authorities_extension);
        }
        let mut off: usize = 0;
        let (v0, n0) = read_vec(s, 2, 0, read_opaque2, Ghost(opaque2_parser()))?;
        off = off + n0;
        Ok((CertificateAuthoritiesExtension { authorities: v0 }, off))
    }

    pub fn encode(&self, out: &mut Vec<u8>)
        requires
            self@.wf(),
        ensures
            final(out)@ == old(out)@ + ser_certificate_authorities_extension(self@),
    {
        proof {
            reveal(ser_certificate_authorities_extension);
        }
        write_opaque2_vec(&self.authorities, 2, out);
        assert(out@ =~= old(out)@ + ser_certificate_authorities_extension(self@));
    }
}

/// A certificate extension OID and the values it must hold.
pub struct OIDFilter {
    pub certificate_extension_oid: Vec<u8>,
    pub certificate_extension_values: Vec<u8>,
}

pub ghost struct OIDFilterModel {
    pub certificate_extension_oid: Seq<u8>,
    pub certificate_extension_values: Seq<u8>,
}

impl View for OIDFilter {
    type V = OIDFilterModel;

    open spec fn view(&self) -> OIDFilterModel {
        OIDFilterModel { certificate_extension_oid: self.certificate_extension_oid@, certificate_extension_values: self.certificate_extension_values@ }
    }
}

impl OIDFilterModel {
    pub open spec fn wf(self) -> bool {
        let m = self;
        &&& m.certificate_extension_oid.len() <= 255
        &&& m.certificate_extension_values.len() <= 65535
    }
}

#[verifier::opaque]
pub open spec fn ser_o_id_filter(m: OIDFilterModel) -> Seq<u8> {
    ser_opaque(1, m.certificate_extension_oid) + ser_opaque(2, m.certificate_extension_values)
}

#[verifier::opaque]
pub open spec fn parse_o_id_filter(s: Seq<u8>) -> SpecResult<OIDFilterModel> {
    match parse_opaque(1, s) {
        Err(e) => Err(e),
        Ok((v0, n0)) => 
        match parse_opaque(2, skip(s, n0)) {
            Err(e) => Err(e),
            Ok((v1, n1)) => Ok((OIDFilterModel { certificate_extension_oid: v0, certificate_extension_values: v1 }, n0 + n1)),
        },
    }
}

/// Decoding the encoding of a well-formed value gives it back, whatever follows.
pub proof fn lemma_o_id_filter_round_trip(m: OIDFilterModel, rest: Seq<u8>)
    requires
        m.wf(),
    ensures
        parse_o_id_filter(ser_o_id_filter(m) + rest) == Ok::<(OIDFilterModel, nat), DecodeError>((m, ser_o_id_filter(m).len())),
        ser_o_id_filter(m).len() > 0,
{
    reveal(parse_o_id_filter);
    reveal(ser_o_id_filter);
    let a0 = ser_opaque(1, m.certificate_extension_oid);
    let a1 = ser_opaque(2, m.certificate_extension_values);
    let s = ser_o_id_filter(m) + rest;
    assert(s =~= (a0 + (a1 + rest)));
    lemma_opaque(1, m.certificate_extension_oid, (a1 + rest));
    lemma_skip(a0, (a1 + rest));
    lemma_opaque(2, m.certificate_extension_values, rest);
}

/// A well-formed value cut short by any number of bytes is refused as truncated.
pub proof fn lemma_o_id_filter_truncated(m: OIDFilterModel, k: nat)
    requires
        m.wf(),
        k < ser_o_id_filter(m).len(),
    ensures
        parse_o_id_filter(ser_o_id_filter(m).take(k as int)) == Err::<(OIDFilterModel, nat), DecodeError>(
            DecodeError::TruncatedInput,
        ),
{
    reveal(parse_o_id_filter);
    reveal(ser_o_id_filter);
    let a0 = ser_opaque(1, m.certificate_extension_oid);
    let a1 = ser_opaque(2, m.certificate_extension_values);
    let t = ser_o_id_filter(m).take(k as int);
    if k < a0.len() {
        let u0 = a0.take(k - (0));
        assert(t =~= u0);
        lemma_opaque(1, m.certificate_extension_oid, Seq::empty()); lemma_opaque_truncated(1, m.certificate_extension_oid, (k - (0)) as nat);
    } else {
        let u1 = a1.take(k - (a0.len()));
        assert(t =~= (a0 + u1));
        lemma_opaque(1, m.certificate_extension_oid, u1);
        lemma_skip(a0, u1);
        lemma_opaque(2, m.certificate_extension_values, Seq::empty()); lemma_opaque_truncated(2, m.certificate_extension_values, (k - (a0.len())) as nat);
    }
}

pub open spec fn o_id_filter_parser() -> spec_fn(Seq<u8>) -> SpecResult<OIDFilterModel> {
    |s: Seq<u8>| parse_o_id_filter(s)
}

pub open spec fn o_id_filter_writer() -> spec_fn(OIDFilterModel) -> Seq<u8> {
    |m: OIDFilterModel| ser_o_id_filter(m)
}

impl OIDFilter {
    pub fn decode(s: &[u8]) -> (r: Result<(Self, usize), DecodeError>)
        ensures
            decoded_as(r, parse_o_id_filter(s@)),
            r is Ok ==> r->Ok_0.1 <= s@.len(),
    {
        proof {
            reveal(parse_o_id_filter);
        }
        let mut off: usize = 0;
        let (v0, n0) = read_opaque(s, 1)?;
        off = off + n0;
        let t1 = vstd::slice::slice_subrange(s, off, s.len());
        assert(t1@ == skip(s@, off as nat));
        let (v1, n1) = read_opaque(t1, 2)?;
        off = off + n1;
        Ok((OIDFilter { certificate_extension_oid: v0, certificate_extension_values: v1 }, off))
    }

    pub fn encode(&self, out: &mut Vec<u8>)
        requires
            self@.wf(),
        ensures
            final(out)@ == old(out)@ + ser_o_id_filter(self@),
    {
        proof {
            reveal(ser_o_id_filter);
        }
        put_opaque(out, 1, self.certificate_extension_oid.as_slice());
        put_opaque(out, 2, self.certificate_extension_values.as_slice());
        assert(out@ =~= old(out)@ + ser_o_id_filter(self@));
    }
}

pub open spec fn o_id_filter_vec_wf(xs: Seq<OIDFilterModel>, w: nat) -> bool {
    &&& forall|i: int| 0 <= i < xs.len() ==> (#[trigger] xs[i]).wf()
    &&& ser_items(xs, o_id_filter_writer()).len() <= prefix_max(w)
}

pub proof fn lemma_o_id_filter_vec(w: nat, xs: Seq<OIDFilterModel>, rest: Seq<u8>)
    requires
        valid_width(w),
        o_id_filter_vec_wf(xs, w),
    ensures
        parse_vec(w, 0, ser_list(w, xs, o_id_filter_writer()) + rest, o_id_filter_parser()) == Ok::<(Seq<OIDFilterModel>, nat), DecodeError>(
            (xs, ser_list(w, xs, o_id_filter_writer()).len()),
        ),
        ser_list(w, xs, o_id_filter_writer()).len() >= w,
{
    assert forall|i: int, r: Seq<u8>| 0 <= i < xs.len() implies #[trigger] o_id_filter_parser()(o_id_filter_writer()(xs[i]) + r)
        == Ok::<(OIDFilterModel, nat), DecodeError>((xs[i], o_id_filter_writer()(xs[i]).len())) && o_id_filter_writer()(xs[i]).len() > 0 by {
        let x = xs[i];
        assert(x.wf());
        lemma_o_id_filter_round_trip(x, r);
    }
    assert(items_round_trip(xs, o_id_filter_parser(), o_id_filter_writer()));
    lemma_vec(w, 0, xs, o_id_filter_parser(), o_id_filter_writer(), rest);
}

pub fn write_o_id_filter_vec(v: &Vec<OIDFilter>, w: usize, out: &mut Vec<u8>)
    requires
        valid_width(w as nat),
        o_id_filter_vec_wf(views(v@), w as nat),
    ensures
        final(out)@ == old(out)@ + ser_list(w as nat, views(v@), o_id_filter_writer()),
{
    let mut tmp: Vec<u8> = Vec::new();
    let mut i: usize = 0;
    while i < v.len()
        invariant
            i <= v@.len(),
            o_id_filter_vec_wf(views(v@), w as nat),
            tmp@ == ser_items(views(v@).take(i as int), o_id_filter_writer()),
        decreases v@.len() - i,
    {
        let ghost x = views(v@)[i as int];
        assert(x == v@[i as int]@);
        assert(x.wf());
        v[i].encode(&mut tmp);
        proof {
            lemma_ser_items_push(views(v@).take(i as int), x, o_id_filter_writer());
            assert(views(v@).take(i as int).push(x) =~= views(v@).take(i + 1));
        }
        i = i + 1;
    }
    assert(views(v@).take(i as int) =~= views(v@));
    put_opaque(out, w, tmp.as_slice());
}
/// Certificate extension filters.
pub struct OIDFilterExtension {
    pub filters: Vec<OIDFilter>,
}

pub ghost struct OIDFilterExtensionModel {
    pub filters: Seq<OIDFilterModel>,
}

impl View for OIDFilterExtension {
    type V = OIDFilterExtensionModel;

    open spec fn view(&self) -> OIDFilterExtensionModel {
        OIDFilterExtensionModel { filters: views(self.filters@) }
    }
}

impl OIDFilterExtensionModel {
    pub open spec fn wf(self) -> bool {
        let m = self;
        &&& o_id_filter_vec_wf(m.filters, 2)
    }
}

#[verifier::opaque]
pub open spec fn ser_o_id_filter_extension(m: OIDFilterExtensionModel) -> Seq<u8> {
    ser_list(2, m.filters, o_id_filter_writer())
}

#[verifier::opaque]
pub open spec fn parse_o_id_filter_extension(s: Seq<u8>) -> SpecResult<OIDFilterExtensionModel> {
    match parse_vec(2, 0, s, o_id_filter_parser()) {
        Err(e) => Err(e),
        Ok((v0, n0)) => Ok((OIDFilterExtensionModel { filters: v0 }, n0)),
    }
}

/// Decoding the encoding of a well-formed value gives it back, whatever follows.
pub proof fn lemma_o_id_filter_extension_round_trip(m: OIDFilterExtensionModel, rest: Seq<u8>)
    requires
        m.wf(),
    ensures
        parse_o_id_filter_extension(ser_o_id_filter_extension(m) + rest) == Ok::<(OIDFilterExtensionModel, nat), DecodeError>((m, ser_o_id_filter_extension(m).len())),
        ser_o_id_filter_extension(m).len() > 0,
{
    reveal(parse_o_id_filter_extension);
    reveal(ser_o_id_filter_extension);
    let a0 = ser_list(2, m.filters, o_id_filter_writer());
    let s = ser_o_id_filter_extension(m) + rest;
    assert(s =~= (a0 + rest));
    lemma_o_id_filter_vec(2, m.filters, rest);
}

/// A well-formed value cut short by any number of bytes is refused as truncated.
pub proof fn lemma_o_id_filter_extension_truncated(m: OIDFilterExtensionModel, k: nat)
    requires
        m.wf(),
        k < ser_o_id_filter_extension(m).len(),
    ensures
        parse_o_id_filter_extension(ser_o_id_filter_extension(m).take(k as int)) == Err::<(OIDFilterExtensionModel, nat), DecodeError>(
            DecodeError::TruncatedInput,
        ),
{
    reveal(parse_o_id_filter_extension);
    reveal(ser_o_id_filter_extension);
    let a0 = ser_list(2, m.filters, o_id_filter_writer());
    let t = ser_o_id_filter_extension(m).take(k as int);
    {
        let u0 = a0.take(k - (0));
        assert(t =~= u0);
        lemma_opaque(2, ser_items(m.filters, o_id_filter_writer()), Seq::empty()); lemma_opaque_truncated(2, ser_items(m.filters, o_id_filter_writer()), (k - (0)) as nat);
    }
}

impl OIDFilterExtension {
    pub fn decode(s: &[u8]) -> (r: Result<(Self, usize), DecodeError>)
        ensures
            decoded_as(r, parse_o_id_filter_extension(s@)),
            r is Ok ==> r->Ok_0.1 <= s@.len(),
    {
        proof {
            reveal(parse_o_id_filter_extension);
        }
        let mut off: usize = 0;
        let (v0, n0) = read_vec(s, 2, 0, OIDFilter::decode, Ghost(o_id_filter_parser()))?;
        off = off + n0;
        Ok((OIDFilterExtension { filters: v0 }, off))
    }

    pub fn encode(&self, out: &mut Vec<u8>)
        requires
            self@.wf(),
        ensures
            final(out)@ == old(out)@ + ser_o_id_filter_extension(self@),
    {
        proof {
            reveal(ser_o_id_filter_extension);
        }
        write_o_id_filter_vec(&self.filters, 2, out);
        assert(out@ =~= old(out)@ + ser_o_id_filter_extension(self@));
    }
}

/// Which message an extension list belongs to; it decides between grammars that share
/// one extension type code.
#[derive(Debug, Clone, Copy, PartialEq, Eq, Structural)]
pub enum MessageContext {
    ClientHello,
    ServerHello,
    HelloRetryRequest,
    EncryptedExtensions,
    CertificateRequest,
    Certificate,
    NewSessionTicket,
}

/// The early data extension: empty, except in a ticket where it bounds early data.
#[derive(Debug, Clone, Copy, PartialEq, Eq, Structural)]
pub enum EarlyDataIndication {
    Empty,
    MaxEarlyDataSize(u32),
}

/// An extension body, typed where its grammar is known for the message it came in.
pub enum ExtensionBody {
    SupportedVersionsClient(SupportedVersionsClient),
    SupportedVersionsServer(SupportedVersionsServer),
    KeyShareClientHello(KeyShareClientHello),
    KeyShareServerHello(KeyShareServerHello),
    KeyShareHelloRetryRequest(KeyShareHelloRetryRequest),
    PreSharedKeyClient(PreSharedKeyExtensionClient),
    PreSharedKeyServer(PreSharedKeyExtensionServer),
    Cookie(Cookie),
    SignatureAlgorithms(SignatureSchemeList),
    SignatureAlgorithmsCert(SignatureSchemeList),
    SupportedGroups(NamedGroupList),
    PskKeyExchangeModes(PskKeyExchangeModes),
    CertificateAuthorities(CertificateAuthoritiesExtension),
    OidFilters(OIDFilterExtension),
    EarlyData(EarlyDataIndication),
    PostHandshakeAuth,
    /// Any other extension, kept as it came.
    Opaque(Extension),
}

pub ghost enum ExtensionBodyModel {
    SupportedVersionsClient(SupportedVersionsClientModel),
    SupportedVersionsServer(SupportedVersionsServerModel),
    KeyShareClientHello(KeyShareClientHelloModel),
    KeyShareServerHello(KeyShareServerHelloModel),
    KeyShareHelloRetryRequest(KeyShareHelloRetryRequestModel),
    PreSharedKeyClient(PreSharedKeyExtensionClientModel),
    PreSharedKeyServer(PreSharedKeyExtensionServerModel),
    Cookie(CookieModel),
    SignatureAlgorithms(SignatureSchemeListModel),
    SignatureAlgorithmsCert(SignatureSchemeListModel),
    SupportedGroups(NamedGroupListModel),
    PskKeyExchangeModes(PskKeyExchangeModesModel),
    CertificateAuthorities(CertificateAuthoritiesExtensionModel),
    OidFilters(OIDFilterExtensionModel),
    EarlyData(EarlyDataIndication),
    PostHandshakeAuth,
    Opaque(ExtensionModel),
}

impl View for ExtensionBody {
    type V = ExtensionBodyModel;

    open spec fn view(&self) -> ExtensionBodyModel {
        match self {
            ExtensionBody::SupportedVersionsClient(x) => ExtensionBodyModel::SupportedVersionsClient(x@),
            ExtensionBody::SupportedVersionsServer(x) => ExtensionBodyModel::SupportedVersionsServer(x@),
            ExtensionBody::KeyShareClientHello(x) => ExtensionBodyModel::KeyShareClientHello(x@),
            ExtensionBody::KeyShareServerHello(x) => ExtensionBodyModel::KeyShareServerHello(x@),
            ExtensionBody::KeyShareHelloRetryRequest(x) => ExtensionBodyModel::KeyShareHelloRetryRequest(x@),
            ExtensionBody::PreSharedKeyClient(x) => ExtensionBodyModel::PreSharedKeyClient(x@),
            ExtensionBody::PreSharedKeyServer(x) => ExtensionBodyModel::PreSharedKeyServer(x@),
            ExtensionBody::Cookie(x) => ExtensionBodyModel::Cookie(x@),
            ExtensionBody::SignatureAlgorithms(x) => ExtensionBodyModel::SignatureAlgorithms(x@),
            ExtensionBody::SignatureAlgorithmsCert(x) => ExtensionBodyModel::SignatureAlgorithmsCert(x@),
            ExtensionBody::SupportedGroups(x) => ExtensionBodyModel::SupportedGroups(x@),
            ExtensionBody::PskKeyExchangeModes(x) => ExtensionBodyModel::PskKeyExchangeModes(x@),
            ExtensionBody::CertificateAuthorities(x) => ExtensionBodyModel::CertificateAuthorities(x@),
            ExtensionBody::OidFilters(x) => ExtensionBodyModel::OidFilters(x@),
            ExtensionBody::EarlyData(x) => ExtensionBodyModel::EarlyData(*x),
            ExtensionBody::PostHandshakeAuth => ExtensionBodyModel::PostHandshakeAuth,
            ExtensionBody::Opaque(x) => ExtensionBodyModel::Opaque(x@),
        }
    }
}

/// Whether an extension of type `t` has a typed grammar in context `ctx`.
pub open spec fn typed_in(t: ExtensionType, ctx: MessageContext) -> bool {
    ||| t == ExtensionType::SupportedVersions && ctx == MessageContext::ClientHello
    ||| t == ExtensionType::SupportedVersions && (ctx == MessageContext::ServerHello || ctx == MessageContext::HelloRetryRequest)
    ||| t == ExtensionType::KeyShare && ctx == MessageContext::ClientHello
    ||| t == ExtensionType::KeyShare && ctx == MessageContext::ServerHello
    ||| t == ExtensionType::KeyShare && ctx == MessageContext::HelloRetryRequest
    ||| t == ExtensionType::PreSharedKey && ctx == MessageContext::ClientHello
    ||| t == ExtensionType::PreSharedKey && ctx == MessageContext::ServerHello
    ||| t == ExtensionType::Cookie
    ||| t == ExtensionType::SignatureAlgorithms
    ||| t == ExtensionType::SignatureAlgorithmsCert
    ||| t == ExtensionType::SupportedGroups
    ||| t == ExtensionType::PskKeyExchangeModes
    ||| t == ExtensionType::CertificateAuthorities
    ||| t == ExtensionType::OidFilters
    ||| t == ExtensionType::EarlyData
    ||| t == ExtensionType::PostHandshakeAuth
}

/// A grammar's result, required to use up exactly `len` bytes.
pub open spec fn exactly<T>(r: SpecResult<T>, len: nat) -> Result<T, DecodeError> {
    match r {
        Ok((v, n)) => if n == len { Ok(v) } else { Err(DecodeError::LengthMismatch) },
        Err(e) => Err(e),
    }
}

/// Decodes an extension's body by its type code and the message it came in.
pub open spec fn parse_extension_body(ext: ExtensionModel, ctx: MessageContext) -> Result<ExtensionBodyModel, DecodeError> {
    let d = ext.extension_data;
    if ext.extension_type == ExtensionType::SupportedVersions && ctx == MessageContext::ClientHello {
        match exactly(parse_supported_versions_client(d), d.len()) {
            Ok(x) => Ok(ExtensionBodyModel::SupportedVersionsClient(x)),
            Err(e) => Err(e),
        }
    } else if ext.extension_type == ExtensionType::SupportedVersions && (ctx == MessageContext::ServerHello || ctx == MessageContext::HelloRetryRequest) {
        match exactly(parse_supported_versions_server(d), d.len()) {
            Ok(x) => Ok(ExtensionBodyModel::SupportedVersionsServer(x)),
            Err(e) => Err(e),
        }
    } else if ext.extension_type == ExtensionType::KeyShare && ctx == MessageContext::ClientHello {
        match exactly(parse_key_share_client_hello(d), d.len()) {
            Ok(x) => Ok(ExtensionBodyModel::KeyShareClientHello(x)),
            Err(e) => Err(e),
        }
    } else if ext.extension_type == ExtensionType::KeyShare && ctx == MessageContext::ServerHello {
        match exactly(parse_key_share_server_hello(d), d.len()) {
            Ok(x) => Ok(ExtensionBodyModel::KeyShareServerHello(x)),
            Err(e) => Err(e),
        }
    } else if ext.extension_type == ExtensionType::KeyShare && ctx == MessageContext::HelloRetryRequest {
        match exactly(parse_key_share_hello_retry_request(d), d.len()) {
            Ok(x) => Ok(ExtensionBodyModel::KeyShareHelloRetryRequest(x)),
            Err(e) => Err(e),
        }
    } else if ext.extension_type == ExtensionType::PreSharedKey && ctx == MessageContext::ClientHello {
        match exactly(parse_pre_shared_key_extension_client(d), d.len()) {
            Ok(x) => Ok(ExtensionBodyModel::PreSharedKeyClient(x)),
            Err(e) => Err(e),
        }
    } else if ext.extension_type == ExtensionType::PreSharedKey && ctx == MessageContext::ServerHello {
        match exactly(parse_pre_shared_key_extension_server(d), d.len()) {
            Ok(x) => Ok(ExtensionBodyModel::PreSharedKeyServer(x)),
            Err(e) => Err(e),
        }
    } else if ext.extension_type == ExtensionType::Cookie {
        match exactly(parse_cookie(d), d.len()) {
            Ok(x) => Ok(ExtensionBodyModel::Cookie(x)),
            Err(e) => Err(e),
        }
    } else if ext.extension_type == ExtensionType::SignatureAlgorithms {
        match exactly(parse_signature_scheme_list(d), d.len()) {
            Ok(x) => Ok(ExtensionBodyModel::SignatureAlgorithms(x)),
            Err(e) => Err(e),
        }
    } else if ext.extension_type == ExtensionType::SignatureAlgorithmsCert {
        match exactly(parse_signature_scheme_list(d), d.len()) {
            Ok(x) => Ok(ExtensionBodyModel::SignatureAlgorithmsCert(x)),
            Err(e) => Err(e),
        }
    } else if ext.extension_type == ExtensionType::SupportedGroups {
        match exactly(parse_named_group_list(d), d.len()) {
            Ok(x) => Ok(ExtensionBodyModel::SupportedGroups(x)),
            Err(e) => Err(e),
        }
    } else if ext.extension_type == ExtensionType::PskKeyExchangeModes {
        match exactly(parse_psk_key_exchange_modes(d), d.len()) {
            Ok(x) => Ok(ExtensionBodyModel::PskKeyExchangeModes(x)),
            Err(e) => Err(e),
        }
    } else if ext.extension_type == ExtensionType::CertificateAuthorities {
        match exactly(parse_certificate_authorities_extension(d), d.len()) {
            Ok(x) => Ok(ExtensionBodyModel::CertificateAuthorities(x)),
            Err(e) => Err(e),
        }
    } else if ext.extension_type == ExtensionType::OidFilters {
        match exactly(parse_o_id_filter_extension(d), d.len()) {
            Ok(x) => Ok(ExtensionBodyModel::OidFilters(x)),
            Err(e) => Err(e),
        }
    } else if ext.extension_type == ExtensionType::EarlyData && ctx == MessageContext::NewSessionTicket {
        match exactly(parse_u32(d), d.len()) {
            Ok(x) => Ok(ExtensionBodyModel::EarlyData(EarlyDataIndication::MaxEarlyDataSize(x))),
            Err(e) => Err(e),
        }
    } else if ext.extension_type == ExtensionType::EarlyData {
        if d.len() == 0 {
            Ok(ExtensionBodyModel::EarlyData(EarlyDataIndication::Empty))
        } else {
            Err(DecodeError::LengthMismatch)
        }
    } else if ext.extension_type == ExtensionType::PostHandshakeAuth {
        if d.len() == 0 { Ok(ExtensionBodyModel::PostHandshakeAuth) } else { Err(DecodeError::LengthMismatch) }
    } else {
        Ok(ExtensionBodyModel::Opaque(ext))
    }
}

/// The extension that carries a body.
pub open spec fn ser_extension_body(b: ExtensionBodyModel) -> ExtensionModel {
    match b {
        ExtensionBodyModel::SupportedVersionsClient(x) => ExtensionModel { extension_type: ExtensionType::SupportedVersions, extension_data: ser_supported_versions_client(x) },
        ExtensionBodyModel::SupportedVersionsServer(x) => ExtensionModel { extension_type: ExtensionType::SupportedVersions, extension_data: ser_supported_versions_server(x) },
        ExtensionBodyModel::KeyShareClientHello(x) => ExtensionModel { extension_type: ExtensionType::KeyShare, extension_data: ser_key_share_client_hello(x) },
        ExtensionBodyModel::KeyShareServerHello(x) => ExtensionModel { extension_type: ExtensionType::KeyShare, extension_data: ser_key_share_server_hello(x) },
        ExtensionBodyModel::KeyShareHelloRetryRequest(x) => ExtensionModel { extension_type: ExtensionType::KeyShare, extension_data: ser_key_share_hello_retry_request(x) },
        ExtensionBodyModel::PreSharedKeyClient(x) => ExtensionModel { extension_type: ExtensionType::PreSharedKey, extension_data: ser_pre_shared_key_extension_client(x) },
        ExtensionBodyModel::PreSharedKeyServer(x) => ExtensionModel { extension_type: ExtensionType::PreSharedKey, extension_data: ser_pre_shared_key_extension_server(x) },
        ExtensionBodyModel::Cookie(x) => ExtensionModel { extension_type: ExtensionType::Cookie, extension_data: ser_cookie(x) },
        ExtensionBodyModel::SignatureAlgorithms(x) => ExtensionModel { extension_type: ExtensionType::SignatureAlgorithms, extension_data: ser_signature_scheme_list(x) },
        ExtensionBodyModel::SignatureAlgorithmsCert(x) => ExtensionModel { extension_type: ExtensionType::SignatureAlgorithmsCert, extension_data: ser_signature_scheme_list(x) },
        ExtensionBodyModel::SupportedGroups(x) => ExtensionModel { extension_type: ExtensionType::SupportedGroups, extension_data: ser_named_group_list(x) },
        ExtensionBodyModel::PskKeyExchangeModes(x) => ExtensionModel { extension_type: ExtensionType::PskKeyExchangeModes, extension_data: ser_psk_key_exchange_modes(x) },
        ExtensionBodyModel::CertificateAuthorities(x) => ExtensionModel { extension_type: ExtensionType::CertificateAuthorities, extension_data: ser_certificate_authorities_extension(x) },
        ExtensionBodyModel::OidFilters(x) => ExtensionModel { extension_type: ExtensionType::OidFilters, extension_data: ser_o_id_filter_extension(x) },
        ExtensionBodyModel::EarlyData(EarlyDataIndication::MaxEarlyDataSize(x)) => ExtensionModel {
            extension_type: ExtensionType::EarlyData,
            extension_data: ser_u32(x),
        },
        ExtensionBodyModel::EarlyData(EarlyDataIndication::Empty) => ExtensionModel {
            extension_type: ExtensionType::EarlyData,
            extension_data: Seq::empty(),
        },
        ExtensionBodyModel::PostHandshakeAuth => ExtensionModel {
            extension_type: ExtensionType::PostHandshakeAuth,
            extension_data: Seq::empty(),
        },
        ExtensionBodyModel::Opaque(e) => e,
    }
}

impl ExtensionBodyModel {
    /// The parts are well formed and the body fits a two-byte length.
    pub open spec fn wf(self) -> bool {
        &&& ser_extension_body(self).extension_data.len() <= 65535
        &&& match self {
            ExtensionBodyModel::SupportedVersionsClient(x) => x.wf(),
            ExtensionBodyModel::SupportedVersionsServer(x) => x.wf(),
            ExtensionBodyModel::KeyShareClientHello(x) => x.wf(),
            ExtensionBodyModel::KeyShareServerHello(x) => x.wf(),
            ExtensionBodyModel::KeyShareHelloRetryRequest(x) => x.wf(),
            ExtensionBodyModel::PreSharedKeyClient(x) => x.wf(),
            ExtensionBodyModel::PreSharedKeyServer(x) => x.wf(),
            ExtensionBodyModel::Cookie(x) => x.wf(),
            ExtensionBodyModel::SignatureAlgorithms(x) => x.wf(),
            ExtensionBodyModel::SignatureAlgorithmsCert(x) => x.wf(),
            ExtensionBodyModel::SupportedGroups(x) => x.wf(),
            ExtensionBodyModel::PskKeyExchangeModes(x) => x.wf(),
            ExtensionBodyModel::CertificateAuthorities(x) => x.wf(),
            ExtensionBodyModel::OidFilters(x) => x.wf(),
            ExtensionBodyModel::Opaque(e) => e.wf(),
            _ => true,
        }
    }

    /// The decoder yields this body in context `ctx`.
    pub open spec fn fits(self, ctx: MessageContext) -> bool {
        match self {
            ExtensionBodyModel::SupportedVersionsClient(_) => ctx == MessageContext::ClientHello,
            ExtensionBodyModel::SupportedVersionsServer(_) => (ctx == MessageContext::ServerHello || ctx == MessageContext::HelloRetryRequest),
            ExtensionBodyModel::KeyShareClientHello(_) => ctx == MessageContext::ClientHello,
            ExtensionBodyModel::KeyShareServerHello(_) => ctx == MessageContext::ServerHello,
            ExtensionBodyModel::KeyShareHelloRetryRequest(_) => ctx == MessageContext::HelloRetryRequest,
            ExtensionBodyModel::PreSharedKeyClient(_) => ctx == MessageContext::ClientHello,
            ExtensionBodyModel::PreSharedKeyServer(_) => ctx == MessageContext::ServerHello,
            ExtensionBodyModel::Cookie(_) => true,
            ExtensionBodyModel::SignatureAlgorithms(_) => true,
            ExtensionBodyModel::SignatureAlgorithmsCert(_) => true,
            ExtensionBodyModel::SupportedGroups(_) => true,
            ExtensionBodyModel::PskKeyExchangeModes(_) => true,
            ExtensionBodyModel::CertificateAuthorities(_) => true,
            ExtensionBodyModel::OidFilters(_) => true,
            ExtensionBodyModel::EarlyData(EarlyDataIndication::MaxEarlyDataSize(_)) => ctx == MessageContext::NewSessionTicket,
            ExtensionBodyModel::EarlyData(EarlyDataIndication::Empty) => ctx != MessageContext::NewSessionTicket,
            ExtensionBodyModel::PostHandshakeAuth => true,
            ExtensionBodyModel::Opaque(e) => !typed_in(e.extension_type, ctx),
        }
    }
}

/// Decoding the extension that carries a well-formed body, in a context where the
/// body's grammar applies, gives the body back.
pub proof fn lemma_extension_body_round_trip(b: ExtensionBodyModel, ctx: MessageContext)
    requires
        b.wf(),
        b.fits(ctx),
    ensures
        parse_extension_body(ser_extension_body(b), ctx) == Ok::<ExtensionBodyModel, DecodeError>(b),
        ser_extension_body(b).wf(),
{
    let e = Seq::<u8>::empty();
    match b {
        ExtensionBodyModel::SupportedVersionsClient(x) => {
            lemma_supported_versions_client_round_trip(x, e);
            assert(ser_supported_versions_client(x) + e =~= ser_supported_versions_client(x));
        },
        ExtensionBodyModel::SupportedVersionsServer(x) => {
            lemma_supported_versions_server_round_trip(x, e);
            assert(ser_supported_versions_server(x) + e =~= ser_supported_versions_server(x));
        },
        ExtensionBodyModel::KeyShareClientHello(x) => {
            lemma_key_share_client_hello_round_trip(x, e);
            assert(ser_key_share_client_hello(x) + e =~= ser_key_share_client_hello(x));
        },
        ExtensionBodyModel::KeyShareServerHello(x) => {
            lemma_key_share_server_hello_round_trip(x, e);
            assert(ser_key_share_server_hello(x) + e =~= ser_key_share_server_hello(x));
        },
        ExtensionBodyModel::KeyShareHelloRetryRequest(x) => {
            lemma_key_share_hello_retry_request_round_trip(x, e);
            assert(ser_key_share_hello_retry_request(x) + e =~= ser_key_share_hello_retry_request(x));
        },
        ExtensionBodyModel::PreSharedKeyClient(x) => {
            lemma_pre_shared_key_extension_client_round_trip(x, e);
            assert(ser_pre_shared_key_extension_client(x) + e =~= ser_pre_shared_key_extension_client(x));
        },
        ExtensionBodyModel::PreSharedKeyServer(x) => {
            lemma_pre_shared_key_extension_server_round_trip(x, e);
            assert(ser_pre_shared_key_extension_server(x) + e =~= ser_pre_shared_key_extension_server(x));
        },
        ExtensionBodyModel::Cookie(x) => {
            lemma_cookie_round_trip(x, e);
            assert(ser_cookie(x) + e =~= ser_cookie(x));
        },
        ExtensionBodyModel::SignatureAlgorithms(x) => {
            lemma_signature_scheme_list_round_trip(x, e);
            assert(ser_signature_scheme_list(x) + e =~= ser_signature_scheme_list(x));
        },
        ExtensionBodyModel::SignatureAlgorithmsCert(x) => {
            lemma_signature_scheme_list_round_trip(x, e);
            assert(ser_signature_scheme_list(x) + e =~= ser_signature_scheme_list(x));
        },
        ExtensionBodyModel::SupportedGroups(x) => {
            lemma_named_group_list_round_trip(x, e);
            assert(ser_named_group_list(x) + e =~= ser_named_group_list(x));
        },
        ExtensionBodyModel::PskKeyExchangeModes(x) => {
            lemma_psk_key_exchange_modes_round_trip(x, e);
            assert(ser_psk_key_exchange_modes(x) + e =~= ser_psk_key_exchange_modes(x));
        },
        ExtensionBodyModel::CertificateAuthorities(x) => {
            lemma_certificate_authorities_extension_round_trip(x, e);
            assert(ser_certificate_authorities_extension(x) + e =~= ser_certificate_authorities_extension(x));
        },
        ExtensionBodyModel::OidFilters(x) => {
            lemma_o_id_filter_extension_round_trip(x, e);
            assert(ser_o_id_filter_extension(x) + e =~= ser_o_id_filter_extension(x));
        },
        ExtensionBodyModel::EarlyData(EarlyDataIndication::MaxEarlyDataSize(x)) => {
            lemma_u32(x, e);
            assert(ser_u32(x) + e =~= ser_u32(x));
        },
        _ => {},
    }
}

/// An extension body followed by bytes its grammar does not use is refused.
pub proof fn lemma_extension_body_trailing(b: ExtensionBodyModel, ctx: MessageContext, extra: Seq<u8>)
    requires
        b.wf(),
        b.fits(ctx),
        !(b is Opaque),
        extra.len() > 0,
    ensures
        parse_extension_body(
            ExtensionModel {
                extension_type: ser_extension_body(b).extension_type,
                extension_data: ser_extension_body(b).extension_data + extra,
            },
            ctx,
        ) == Err::<ExtensionBodyModel, DecodeError>(DecodeError::LengthMismatch),
{
    match b {
        ExtensionBodyModel::SupportedVersionsClient(x) => lemma_supported_versions_client_round_trip(x, extra),
        ExtensionBodyModel::SupportedVersionsServer(x) => lemma_supported_versions_server_round_trip(x, extra),
        ExtensionBodyModel::KeyShareClientHello(x) => lemma_key_share_client_hello_round_trip(x, extra),
        ExtensionBodyModel::KeyShareServerHello(x) => lemma_key_share_server_hello_round_trip(x, extra),
        ExtensionBodyModel::KeyShareHelloRetryRequest(x) => lemma_key_share_hello_retry_request_round_trip(x, extra),
        ExtensionBodyModel::PreSharedKeyClient(x) => lemma_pre_shared_key_extension_client_round_trip(x, extra),
        ExtensionBodyModel::PreSharedKeyServer(x) => lemma_pre_shared_key_extension_server_round_trip(x, extra),
        ExtensionBodyModel::Cookie(x) => lemma_cookie_round_trip(x, extra),
        ExtensionBodyModel::SignatureAlgorithms(x) => lemma_signature_scheme_list_round_trip(x, extra),
        ExtensionBodyModel::SignatureAlgorithmsCert(x) => lemma_signature_scheme_list_round_trip(x, extra),
        ExtensionBodyModel::SupportedGroups(x) => lemma_named_group_list_round_trip(x, extra),
        ExtensionBodyModel::PskKeyExchangeModes(x) => lemma_psk_key_exchange_modes_round_trip(x, extra),
        ExtensionBodyModel::CertificateAuthorities(x) => lemma_certificate_authorities_extension_round_trip(x, extra),
        ExtensionBodyModel::OidFilters(x) => lemma_o_id_filter_extension_round_trip(x, extra),
        ExtensionBodyModel::EarlyData(EarlyDataIndication::MaxEarlyDataSize(x)) => lemma_u32(x, extra),
        _ => {
            assert((Seq::<u8>::empty() + extra).len() > 0);
        },
    }
}

/// Typed decoding of an extension's body, given the message it came in.
pub fn decode_extension_body(ext: &Extension, ctx: MessageContext) -> (r: Result<ExtensionBody, DecodeError>)
    ensures
        match r {
            Ok(b) => parse_extension_body(ext@, ctx) == Ok::<ExtensionBodyModel, DecodeError>(b@),
            Err(e) => parse_extension_body(ext@, ctx) == Err::<ExtensionBodyModel, DecodeError>(e),
        },
{
    let d = ext.extension_data.as_slice();
    if ext.extension_type == ExtensionType::SupportedVersions && ctx == MessageContext::ClientHello {
        let (x, n) = SupportedVersionsClient::decode(d)?;
        if n != d.len() {
            return Err(DecodeError::LengthMismatch);
        }
        Ok(ExtensionBody::SupportedVersionsClient(x))
    } else if ext.extension_type == ExtensionType::SupportedVersions && (ctx == MessageContext::ServerHello || ctx == MessageContext::HelloRetryRequest) {
        let (x, n) = SupportedVersionsServer::decode(d)?;
        if n != d.len() {
            return Err(DecodeError::LengthMismatch);
        }
        Ok(ExtensionBody::SupportedVersionsServer(x))
    } else if ext.extension_type == ExtensionType::KeyShare && ctx == MessageContext::ClientHello {
        let (x, n) = KeyShareClientHello::decode(d)?;
        if n != d.len() {
            return Err(DecodeError::LengthMismatch);
        }
        Ok(ExtensionBody::KeyShareClientHello(x))
    } else if ext.extension_type == ExtensionType::KeyShare && ctx == MessageContext::ServerHello {
        let (x, n) = KeyShareServerHello::decode(d)?;
        if n != d.len() {
            return Err(DecodeError::LengthMismatch);
        }
        Ok(ExtensionBody::KeyShareServerHello(x))
    } else if ext.extension_type == ExtensionType::KeyShare && ctx == MessageContext::HelloRetryRequest {
        let (x, n) = KeyShareHelloRetryRequest::decode(d)?;
        if n != d.len() {
            return Err(DecodeError::LengthMismatch);
        }
        Ok(ExtensionBody::KeyShareHelloRetryRequest(x))
    } else if ext.extension_type == ExtensionType::PreSharedKey && ctx == MessageContext::ClientHello {
        let (x, n) = PreSharedKeyExtensionClient::decode(d)?;
        if n != d.len() {
            return Err(DecodeError::LengthMismatch);
        }
        Ok(ExtensionBody::PreSharedKeyClient(x))
    } else if ext.extension_type == ExtensionType::PreSharedKey && ctx == MessageContext::ServerHello {
        let (x, n) = PreSharedKeyExtensionServer::decode(d)?;
        if n != d.len() {
            return Err(DecodeError::LengthMismatch);
        }
        Ok(ExtensionBody::PreSharedKeyServer(x))
    } else if ext.extension_type == ExtensionType::Cookie {
        let (x, n) = Cookie::decode(d)?;
        if n != d.len() {
            return Err(DecodeError::LengthMismatch);
        }
        Ok(ExtensionBody::Cookie(x))
    } else if ext.extension_type == ExtensionType::SignatureAlgorithms {
        let (x, n) = SignatureSchemeList::decode(d)?;
        if n != d.len() {
            return Err(DecodeError::LengthMismatch);
        }
        Ok(ExtensionBody::SignatureAlgorithms(x))
    } else if ext.extension_type == ExtensionType::SignatureAlgorithmsCert {
        let (x, n) = SignatureSchemeList::decode(d)?;
        if n != d.len() {
            return Err(DecodeError::LengthMismatch);
        }
        Ok(ExtensionBody::SignatureAlgorithmsCert(x))
    } else if ext.extension_type == ExtensionType::SupportedGroups {
        let (x, n) = NamedGroupList::decode(d)?;
        if n != d.len() {
            return Err(DecodeError::LengthMismatch);
        }
        Ok(ExtensionBody::SupportedGroups(x))
    } else if ext.extension_type == ExtensionType::PskKeyExchangeModes {
        let (x, n) = PskKeyExchangeModes::decode(d)?;
        if n != d.len() {
            return Err(DecodeError::LengthMismatch);
        }
        Ok(ExtensionBody::PskKeyExchangeModes(x))
    } else if ext.extension_type == ExtensionType::CertificateAuthorities {
        let (x, n) = CertificateAuthoritiesExtension::decode(d)?;
        if n != d.len() {
            return Err(DecodeError::LengthMismatch);
        }
        Ok(ExtensionBody::CertificateAuthorities(x))
    } else if ext.extension_type == ExtensionType::OidFilters {
        let (x, n) = OIDFilterExtension::decode(d)?;
        if n != d.len() {
            return Err(DecodeError::LengthMismatch);
        }
        Ok(ExtensionBody::OidFilters(x))
    } else if ext.extension_type == ExtensionType::EarlyData && ctx == MessageContext::NewSessionTicket {
        let (x, n) = read_u32(d)?;
        if n != d.len() {
            return Err(DecodeError::LengthMismatch);
        }
        Ok(ExtensionBody::EarlyData(EarlyDataIndication::MaxEarlyDataSize(x)))
    } else if ext.extension_type == ExtensionType::EarlyData {
        if d.len() == 0 {
            Ok(ExtensionBody::EarlyData(EarlyDataIndication::Empty))
        } else {
            Err(DecodeError::LengthMismatch)
        }
    } else if ext.extension_type == ExtensionType::PostHandshakeAuth {
        if d.len() == 0 {
            Ok(ExtensionBody::PostHandshakeAuth)
        } else {
            Err(DecodeError::LengthMismatch)
        }
    } else {
        Ok(ExtensionBody::Opaque(Extension { extension_type: ext.extension_type, extension_data: ext.extension_data.clone() }))
    }
}

impl ExtensionBody {
    /// The extension that carries this body.
    pub fn to_extension(&self) -> (r: Extension)
        requires
            self@.wf(),
        ensures
            r@ == ser_extension_body(self@),
    {
        let mut d: Vec<u8> = Vec::new();
        match self {
            ExtensionBody::SupportedVersionsClient(x) => {
                x.encode(&mut d);
                assert(d@ =~= ser_supported_versions_client(x@));
                Extension { extension_type: ExtensionType::SupportedVersions, extension_data: d }
            },
            ExtensionBody::SupportedVersionsServer(x) => {
                x.encode(&mut d);
                assert(d@ =~= ser_supported_versions_server(x@));
                Extension { extension_type: ExtensionType::SupportedVersions, extension_data: d }
            },
            ExtensionBody::KeyShareClientHello(x) => {
                x.encode(&mut d);
                assert(d@ =~= ser_key_share_client_hello(x@));
                Extension { extension_type: ExtensionType::KeyShare, extension_data: d }
            },
            ExtensionBody::KeyShareServerHello(x) => {
                x.encode(&mut d);
                assert(d@ =~= ser_key_share_server_hello(x@));
                Extension { extension_type: ExtensionType::KeyShare, extension_data: d }
            },
            ExtensionBody::KeyShareHelloRetryRequest(x) => {
                x.encode(&mut d);
                assert(d@ =~= ser_key_share_hello_retry_request(x@));
                Extension { extension_type: ExtensionType::KeyShare, extension_data: d }
            },
            ExtensionBody::PreSharedKeyClient(x) => {
                x.encode(&mut d);
                assert(d@ =~= ser_pre_shared_key_extension_client(x@));
                Extension { extension_type: ExtensionType::PreSharedKey, extension_data: d }
            },
            ExtensionBody::PreSharedKeyServer(x) => {
                x.encode(&mut d);
                assert(d@ =~= ser_pre_shared_key_extension_server(x@));
                Extension { extension_type: ExtensionType::PreSharedKey, extension_data: d }
            },
            ExtensionBody::Cookie(x) => {
                x.encode(&mut d);
                assert(d@ =~= ser_cookie(x@));
                Extension { extension_type: ExtensionType::Cookie, extension_data: d }
            },
            ExtensionBody::SignatureAlgorithms(x) => {
                x.encode(&mut d);
                assert(d@ =~= ser_signature_scheme_list(x@));
                Extension { extension_type: ExtensionType::SignatureAlgorithms, extension_data: d }
            },
            ExtensionBody::SignatureAlgorithmsCert(x) => {
                x.encode(&mut d);
                assert(d@ =~= ser_signature_scheme_list(x@));
                Extension { extension_type: ExtensionType::SignatureAlgorithmsCert, extension_data: d }
            },
            ExtensionBody::SupportedGroups(x) => {
                x.encode(&mut d);
                assert(d@ =~= ser_named_group_list(x@));
                Extension { extension_type: ExtensionType::SupportedGroups, extension_data: d }
            },
            ExtensionBody::PskKeyExchangeModes(x) => {
                x.encode(&mut d);
                assert(d@ =~= ser_psk_key_exchange_modes(x@));
                Extension { extension_type: ExtensionType::PskKeyExchangeModes, extension_data: d }
            },
            ExtensionBody::CertificateAuthorities(x) => {
                x.encode(&mut d);
                assert(d@ =~= ser_certificate_authorities_extension(x@));
                Extension { extension_type: ExtensionType::CertificateAuthorities, extension_data: d }
            },
            ExtensionBody::OidFilters(x) => {
                x.encode(&mut d);
                assert(d@ =~= ser_o_id_filter_extension(x@));
                Extension { extension_type: ExtensionType::OidFilters, extension_data: d }
            },
            ExtensionBody::EarlyData(EarlyDataIndication::MaxEarlyDataSize(x)) => {
                put_u32(&mut d, *x);
                assert(d@ =~= ser_u32(*x));
                Extension { extension_type: ExtensionType::EarlyData, extension_data: d }
            },
            ExtensionBody::EarlyData(EarlyDataIndication::Empty) => {
                assert(d@ =~= Seq::<u8>::empty());
                Extension { extension_type: ExtensionType::EarlyData, extension_data: d }
            },
            ExtensionBody::PostHandshakeAuth => {
                assert(d@ =~= Seq::<u8>::empty());
                Extension { extension_type: ExtensionType::PostHandshakeAuth, extension_data: d }
            },
            ExtensionBody::Opaque(e) => {
                Extension { extension_type: e.extension_type, extension_data: e.extension_data.clone() }
            },
        }
    }
}

} // verus!
