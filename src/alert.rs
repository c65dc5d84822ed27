//! Alerts: a severity and a description, one byte each.
use vstd::prelude::*;
use crate::codes::{AlertLevel, AlertDescription};
use crate::wire::{
    DecodeError, SpecResult, decoded_as, skip, ser_u8, parse_u8, lemma_u8, lemma_skip, read_u8,
    put_u8,
};

verus! {

#[derive(Debug, Clone, Copy, PartialEq, Eq, Structural)]
pub struct Alert {
    pub level: AlertLevel,
    pub description: AlertDescription,
}

impl View for Alert {
    type V = Alert;

    open spec fn view(&self) -> Alert {
        *self
    }
}

impl Alert {
    pub open spec fn wf(self) -> bool {
        self.level.is_canonical() && self.description.is_canonical()
    }
}

pub open spec fn ser_alert(a: Alert) -> Seq<u8> {
    ser_u8(a.level.code()) + ser_u8(a.description.code())
}

pub open spec fn parse_alert(s: Seq<u8>) -> SpecResult<Alert> {
    match parse_u8(s) {
        Err(e) => Err(e),
        Ok((l, _)) => match parse_u8(skip(s, 1)) {
            Err(e) => Err(e),
            Ok((d, _)) => Ok((
                Alert { level: AlertLevel::spec_from_code(l), description: AlertDescription::spec_from_code(d) },
                2,
            )),
        },
    }
}

/// Decoding the encoding of a well-formed alert gives it back.
pub proof fn lemma_alert_round_trip(a: Alert, rest: Seq<u8>)
    requires
        a.wf(),
    ensures
        parse_alert(ser_alert(a) + rest) == Ok::<(Alert, nat), DecodeError>((a, 2)),
{
    let x = ser_u8(a.level.code());
    let y = ser_u8(a.description.code());
    assert(ser_alert(a) + rest =~= x + (y + rest));
    lemma_u8(a.level.code(), y + rest);
    lemma_skip(x, y + rest);
    lemma_u8(a.description.code(), rest);
    AlertLevel::lemma_codes(a.level.code(), a.level);
    AlertDescription::lemma_codes(a.description.code(), a.description);
}

/// An alert cut short is refused.
pub proof fn lemma_alert_truncated(a: Alert, k: nat)
    requires
        k < 2,
    ensures
        parse_alert(ser_alert(a).take(k as int)) == Err::<(Alert, nat), DecodeError>(DecodeError::TruncatedInput),
{
}

impl Alert {
    pub fn decode(s: &[u8]) -> (r: Result<(Self, usize), DecodeError>)
        ensures
            decoded_as(r, parse_alert(s@)),
    {
        let (l, _) = read_u8(s)?;
        let (d, _) = read_u8(vstd::slice::slice_subrange(s, 1, s.len()))?;
        Ok((Alert { level: AlertLevel::from_code(l), description: AlertDescription::from_code(d) }, 2))
    }

    pub fn encode(&self, out: &mut Vec<u8>)
        ensures
            final(out)@ == old(out)@ + ser_alert(*self),
    {
        put_u8(out, self.level.to_code());
        put_u8(out, self.description.to_code());
        assert(out@ =~= old(out)@ + ser_alert(*self));
    }
}

} // verus!
