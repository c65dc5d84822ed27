//! Extensions: a type code and an opaque body, and lists of them.
use vstd::prelude::*;
use crate::codes::ExtensionType;
use crate::wire::{
    DecodeError, SpecResult, be16, decoded_as, skip, views, ser_u16, ser_opaque, parse_u16,
    parse_opaque, parse_list, ser_list, ser_items, items_round_trip, lemma_u16, lemma_skip,
    lemma_opaque, lemma_opaque_truncated, lemma_list, lemma_ser_items_push, read_u16, read_opaque,
    read_items, put_u16, put_opaque,
};

verus! {

pub struct Extension {
    pub extension_type: ExtensionType,
    pub extension_data: Vec<u8>,
}

pub ghost struct ExtensionModel {
    pub extension_type: ExtensionType,
    pub extension_data: Seq<u8>,
}

impl View for Extension {
    type V = ExtensionModel;

    open spec fn view(&self) -> ExtensionModel {
        ExtensionModel { extension_type: self.extension_type, extension_data: self.extension_data@ }
    }
}

impl ExtensionModel {
    pub open spec fn wf(self) -> bool {
        self.extension_type.is_canonical() && self.extension_data.len() <= 65535
    }
}

pub open spec fn ser_extension(m: ExtensionModel) -> Seq<u8> {
    ser_u16(m.extension_type.code()) + ser_opaque(2, m.extension_data)
}

pub open spec fn parse_extension(s: Seq<u8>) -> SpecResult<ExtensionModel> {
    match parse_u16(s) {
        Err(e) => Err(e),
        Ok((t, _)) => match parse_opaque(2, skip(s, 2)) {
            Err(e) => Err(e),
            Ok((d, n)) => Ok((
                ExtensionModel { extension_type: ExtensionType::spec_from_code(t), extension_data: d },
                2 + n,
            )),
        },
    }
}

pub open spec fn extension_parser() -> spec_fn(Seq<u8>) -> SpecResult<ExtensionModel> {
    |s: Seq<u8>| parse_extension(s)
}

pub open spec fn extension_writer() -> spec_fn(ExtensionModel) -> Seq<u8> {
    |m: ExtensionModel| ser_extension(m)
}

/// An extension list: a two-byte length prefix, then the extensions back to back.
pub open spec fn parse_extensions(s: Seq<u8>) -> SpecResult<Seq<ExtensionModel>> {
    parse_list(2, s, extension_parser())
}

pub open spec fn ser_extensions(xs: Seq<ExtensionModel>) -> Seq<u8> {
    ser_list(2, xs, extension_writer())
}

pub open spec fn extensions_wf(xs: Seq<ExtensionModel>) -> bool {
    &&& forall|i: int| 0 <= i < xs.len() ==> (#[trigger] xs[i]).wf()
    &&& ser_items(xs, extension_writer()).len() <= 65535
}

/// Decoding the encoding of a well-formed extension gives it back.
pub proof fn lemma_extension_round_trip(m: ExtensionModel, rest: Seq<u8>)
    requires
        m.wf(),
    ensures
        parse_extension(ser_extension(m) + rest) == Ok::<(ExtensionModel, nat), DecodeError>(
            (m, ser_extension(m).len()),
        ),
        ser_extension(m).len() >= 4,
{
    let a = ser_u16(m.extension_type.code());
    let b = ser_opaque(2, m.extension_data);
    assert(ser_extension(m) + rest =~= a + (b + rest));
    lemma_u16(m.extension_type.code(), b + rest);
    lemma_skip(a, b + rest);
    lemma_opaque(2, m.extension_data, rest);
    ExtensionType::lemma_codes(m.extension_type.code(), m.extension_type);
}

/// Decoding the encoding of a well-formed extension list gives it back.
pub proof fn lemma_extensions_round_trip(xs: Seq<ExtensionModel>, rest: Seq<u8>)
    requires
        extensions_wf(xs),
    ensures
        parse_extensions(ser_extensions(xs) + rest) == Ok::<(Seq<ExtensionModel>, nat), DecodeError>(
            (xs, ser_extensions(xs).len()),
        ),
{
    assert forall|i: int, r: Seq<u8>| 0 <= i < xs.len() implies #[trigger] extension_parser()(
        extension_writer()(xs[i]) + r,
    ) == Ok::<(ExtensionModel, nat), DecodeError>((xs[i], extension_writer()(xs[i]).len()))
        && extension_writer()(xs[i]).len() > 0 by {
        lemma_extension_round_trip(xs[i], r);
    }
    assert(items_round_trip(xs, extension_parser(), extension_writer()));
    lemma_list(2, xs, extension_parser(), extension_writer(), rest);
}

/// A well-formed extension cut short by any number of bytes is refused as truncated.
pub proof fn lemma_extension_truncated(m: ExtensionModel, k: nat)
    requires
        m.wf(),
        k < ser_extension(m).len(),
    ensures
        parse_extension(ser_extension(m).take(k as int)) == Err::<(ExtensionModel, nat), DecodeError>(
            DecodeError::TruncatedInput,
        ),
{
    let c = ser_opaque(2, m.extension_data);
    lemma_opaque(2, m.extension_data, Seq::empty());
    let t = ser_extension(m).take(k as int);
    if k >= 2 {
        assert(skip(t, 2) =~= c.take(k - 2));
        lemma_opaque_truncated(2, m.extension_data, (k - 2) as nat);
    }
}

/// Bytes whose type code has no variant still decode, to `Unknown` with that code.
pub proof fn lemma_extension_unknown_type(s: Seq<u8>)
    requires
        s.len() >= 4,
        s.len() >= 4 + be16(skip(s, 2)),
        !ExtensionType::is_assigned(be16(s) as u16),
    ensures
        parse_extension(s) matches Ok((e, _)) && e.extension_type == ExtensionType::Unknown(be16(s) as u16),
{
}

impl Extension {
    pub fn decode(s: &[u8]) -> (r: Result<(Self, usize), DecodeError>)
        ensures
            decoded_as(r, parse_extension(s@)),
    {
        let (t, _) = read_u16(s)?;
        let (d, n) = read_opaque(vstd::slice::slice_subrange(s, 2, s.len()), 2)?;
        Ok((Extension { extension_type: ExtensionType::from_code(t), extension_data: d }, 2 + n))
    }

    pub fn encode(&self, out: &mut Vec<u8>)
        requires
            self@.wf(),
        ensures
            final(out)@ == old(out)@ + ser_extension(self@),
    {
        put_u16(out, self.extension_type.to_code());
        put_opaque(out, 2, self.extension_data.as_slice());
        assert(out@ =~= old(out)@ + ser_extension(self@));
    }
}

/// Decodes an extension list from the start of `s`.
pub fn decode_extensions(s: &[u8]) -> (r: Result<(Vec<Extension>, usize), DecodeError>)
    ensures
        match r {
            Ok((v, n)) => parse_extensions(s@) == Ok::<(Seq<ExtensionModel>, nat), DecodeError>(
                (views(v@), n as nat),
            ),
            Err(e) => parse_extensions(s@) == Err::<(Seq<ExtensionModel>, nat), DecodeError>(e),
        },
        r is Ok ==> r->Ok_0.1 <= s@.len(),
{
    let (body, n) = read_opaque(s, 2)?;
    let v = read_items(body.as_slice(), Extension::decode, Ghost(extension_parser()))?;
    Ok((v, n))
}

/// Appends an extension list with its two-byte length prefix.
pub fn encode_extensions(v: &Vec<Extension>, out: &mut Vec<u8>)
    requires
        extensions_wf(views(v@)),
    ensures
        final(out)@ == old(out)@ + ser_extensions(views(v@)),
{
    let mut tmp: Vec<u8> = Vec::new();
    let mut i: usize = 0;
    while i < v.len()
        invariant
            i <= v@.len(),
            extensions_wf(views(v@)),
            tmp@ == ser_items(views(v@).take(i as int), extension_writer()),
        decreases v@.len() - i,
    {
        let ghost before = tmp@;
        assert(views(v@)[i as int] == v@[i as int]@);
        v[i].encode(&mut tmp);
        proof {
            lemma_ser_items_push(views(v@).take(i as int), v@[i as int]@, extension_writer());
            assert(views(v@).take(i as int).push(v@[i as int]@) =~= views(v@).take(i + 1));
        }
        i = i + 1;
    }
    assert(views(v@).take(i as int) =~= views(v@));
    put_opaque(out, 2, tmp.as_slice());
}

} // verus!
