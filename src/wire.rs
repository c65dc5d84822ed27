//! Primitive codec: big-endian integers and length-prefixed vectors.
use vstd::prelude::*;

verus! {

/// Why a decode failed.
#[derive(Debug, Clone, Copy, PartialEq, Eq, Structural)]
pub enum DecodeError {
    /// Fewer bytes remain than a declared or fixed length requires.
    TruncatedInput,
    /// A grammar consumed a different byte count than its declared length.
    LengthMismatch,
    /// A vector's byte length is not a multiple of its element width.
    InvalidVectorLength,
}

/// What a decoder yields in the model: a value and the number of bytes consumed.
pub type SpecResult<T> = Result<(T, nat), DecodeError>;

/// An executable decode result agrees with its model.
pub open spec fn decoded_as<T: View>(r: Result<(T, usize), DecodeError>, m: SpecResult<T::V>) -> bool {
    match r {
        Ok((v, n)) => m == Ok::<(T::V, nat), DecodeError>((v@, n as nat)),
        Err(e) => m == Err::<(T::V, nat), DecodeError>(e),
    }
}

/// The bytes that follow the first `n`.
pub open spec fn skip(s: Seq<u8>, n: nat) -> Seq<u8> {
    s.subrange(n as int, s.len() as int)
}

pub open spec fn be16(s: Seq<u8>) -> int {
    s[0] as int * 256 + s[1] as int
}

pub open spec fn be24(s: Seq<u8>) -> int {
    s[0] as int * 65536 + s[1] as int * 256 + s[2] as int
}

pub open spec fn be32(s: Seq<u8>) -> int {
    s[0] as int * 16777216 + s[1] as int * 65536 + s[2] as int * 256 + s[3] as int
}

pub open spec fn ser_u8(v: u8) -> Seq<u8> {
    seq![v]
}

pub open spec fn ser_u16(v: u16) -> Seq<u8> {
    seq![(v / 256) as u8, (v % 256) as u8]
}

pub open spec fn ser_u24(v: u32) -> Seq<u8> {
    seq![(v / 65536) as u8, ((v / 256) % 256) as u8, (v % 256) as u8]
}

#[verifier::opaque]
pub open spec fn ser_u32(v: u32) -> Seq<u8> {
    seq![(v / 16777216) as u8, ((v / 65536) % 256) as u8, ((v / 256) % 256) as u8, (v % 256) as u8]
}

pub open spec fn parse_u8(s: Seq<u8>) -> SpecResult<u8> {
    if s.len() < 1 { Err(DecodeError::TruncatedInput) } else { Ok((s[0], 1)) }
}

pub open spec fn parse_u16(s: Seq<u8>) -> SpecResult<u16> {
    if s.len() < 2 { Err(DecodeError::TruncatedInput) } else { Ok((be16(s) as u16, 2)) }
}

pub open spec fn parse_u24(s: Seq<u8>) -> SpecResult<u32> {
    if s.len() < 3 { Err(DecodeError::TruncatedInput) } else { Ok((be24(s) as u32, 3)) }
}

pub open spec fn parse_u32(s: Seq<u8>) -> SpecResult<u32> {
    if s.len() < 4 { Err(DecodeError::TruncatedInput) } else { Ok((be32(s) as u32, 4)) }
}

/// The largest length a prefix of `w` bytes can declare.
pub open spec fn prefix_max(w: nat) -> nat {
    if w == 1 { 255 } else if w == 2 { 65535 } else { 16777215 }
}

pub open spec fn valid_width(w: nat) -> bool {
    1 <= w <= 3
}

/// A length prefix of `w` bytes.
pub open spec fn ser_len(w: nat, n: nat) -> Seq<u8> {
    if w == 1 { ser_u8(n as u8) } else if w == 2 { ser_u16(n as u16) } else { ser_u24(n as u32) }
}

pub open spec fn parse_len(w: nat, s: Seq<u8>) -> SpecResult<nat> {
    if w == 1 {
        match parse_u8(s) { Ok((v, n)) => Ok((v as nat, n)), Err(e) => Err(e) }
    } else if w == 2 {
        match parse_u16(s) { Ok((v, n)) => Ok((v as nat, n)), Err(e) => Err(e) }
    } else {
        match parse_u24(s) { Ok((v, n)) => Ok((v as nat, n)), Err(e) => Err(e) }
    }
}

/// An opaque vector whose length prefix is `w` bytes wide.
pub open spec fn ser_opaque(w: nat, d: Seq<u8>) -> Seq<u8> {
    ser_len(w, d.len()) + d
}

pub open spec fn parse_opaque(w: nat, s: Seq<u8>) -> SpecResult<Seq<u8>> {
    match parse_len(w, s) {
        Ok((l, _)) => if s.len() < w + l {
            Err(DecodeError::TruncatedInput)
        } else {
            Ok((s.subrange(w as int, (w + l) as int), w + l))
        },
        Err(e) => Err(e),
    }
}

pub proof fn lemma_skip(a: Seq<u8>, t: Seq<u8>)
    ensures
        skip(a + t, a.len()) == t,
        (a + t).subrange(0, a.len() as int) == a,
{
    assert(skip(a + t, a.len()) =~= t);
    assert((a + t).subrange(0, a.len() as int) =~= a);
}

pub proof fn lemma_skip_skip(s: Seq<u8>, a: nat, b: nat)
    requires
        a + b <= s.len(),
    ensures
        skip(skip(s, a), b) == skip(s, a + b),
{
    assert(skip(skip(s, a), b) =~= skip(s, a + b));
}

pub proof fn lemma_u8(v: u8, rest: Seq<u8>)
    ensures
        parse_u8(ser_u8(v) + rest) == Ok::<(u8, nat), DecodeError>((v, 1)),
{
}

pub proof fn lemma_u16(v: u16, rest: Seq<u8>)
    ensures
        parse_u16(ser_u16(v) + rest) == Ok::<(u16, nat), DecodeError>((v, 2)),
{
    let s = ser_u16(v) + rest;
    assert(s[0] == (v / 256) as u8 && s[1] == (v % 256) as u8);
}

pub proof fn lemma_u24(v: u32, rest: Seq<u8>)
    requires
        v <= 16777215,
    ensures
        parse_u24(ser_u24(v) + rest) == Ok::<(u32, nat), DecodeError>((v, 3)),
{
    let s = ser_u24(v) + rest;
    assert(s[0] == (v / 65536) as u8 && s[1] == ((v / 256) % 256) as u8 && s[2] == (v % 256) as u8);
}

pub proof fn lemma_u32(v: u32, rest: Seq<u8>)
    ensures
        parse_u32(ser_u32(v) + rest) == Ok::<(u32, nat), DecodeError>((v, 4)),
        ser_u32(v).len() == 4,
{
    reveal(ser_u32);
    let s = ser_u32(v) + rest;
    assert(s[0] == (v / 16777216) as u8 && s[1] == ((v / 65536) % 256) as u8);
    assert(s[2] == ((v / 256) % 256) as u8 && s[3] == (v % 256) as u8);
}

pub proof fn lemma_len(w: nat, n: nat, rest: Seq<u8>)
    requires
        valid_width(w),
        n <= prefix_max(w),
    ensures
        parse_len(w, ser_len(w, n) + rest) == Ok::<(nat, nat), DecodeError>((n, w)),
        ser_len(w, n).len() == w,
{
    if w == 1 {
        lemma_u8(n as u8, rest);
    } else if w == 2 {
        lemma_u16(n as u16, rest);
    } else {
        lemma_u24(n as u32, rest);
    }
}

pub proof fn lemma_opaque(w: nat, d: Seq<u8>, rest: Seq<u8>)
    requires
        valid_width(w),
        d.len() <= prefix_max(w),
    ensures
        parse_opaque(w, ser_opaque(w, d) + rest) == Ok::<(Seq<u8>, nat), DecodeError>(
            (d, ser_opaque(w, d).len()),
        ),
        ser_opaque(w, d).len() == w + d.len(),
{
    lemma_len(w, d.len(), d + rest);
    let s = ser_opaque(w, d) + rest;
    assert(s =~= ser_len(w, d.len()) + (d + rest));
    assert(s.subrange(w as int, (w + d.len()) as int) =~= d);
}

pub fn read_u8(s: &[u8]) -> (r: Result<(u8, usize), DecodeError>)
    ensures
        decoded_as(r, parse_u8(s@)),
{
    if s.len() < 1 {
        Err(DecodeError::TruncatedInput)
    } else {
        Ok((s[0], 1))
    }
}

pub fn read_u16(s: &[u8]) -> (r: Result<(u16, usize), DecodeError>)
    ensures
        decoded_as(r, parse_u16(s@)),
{
    if s.len() < 2 {
        Err(DecodeError::TruncatedInput)
    } else {
        Ok(((s[0] as u16) * 256 + s[1] as u16, 2))
    }
}

pub fn read_u24(s: &[u8]) -> (r: Result<(u32, usize), DecodeError>)
    ensures
        decoded_as(r, parse_u24(s@)),
{
    if s.len() < 3 {
        Err(DecodeError::TruncatedInput)
    } else {
        Ok(((s[0] as u32) * 65536 + (s[1] as u32) * 256 + s[2] as u32, 3))
    }
}

pub fn read_u32(s: &[u8]) -> (r: Result<(u32, usize), DecodeError>)
    ensures
        decoded_as(r, parse_u32(s@)),
{
    if s.len() < 4 {
        Err(DecodeError::TruncatedInput)
    } else {
        Ok((
            (s[0] as u32) * 16777216 + (s[1] as u32) * 65536 + (s[2] as u32) * 256 + s[3] as u32,
            4,
        ))
    }
}

/// Reads a length prefix of `w` bytes.
pub fn read_len(s: &[u8], w: usize) -> (r: Result<(usize, usize), DecodeError>)
    requires
        valid_width(w as nat),
    ensures
        decoded_as(r, match parse_len(w as nat, s@) {
            Ok((l, n)) => Ok::<(usize, nat), DecodeError>((l as usize, n)),
            Err(e) => Err(e),
        }),
        r is Ok ==> r->Ok_0.0 <= prefix_max(w as nat) && r->Ok_0.1 == w,
{
    if w == 1 {
        match read_u8(s) {
            Ok((v, n)) => Ok((v as usize, n)),
            Err(e) => Err(e),
        }
    } else if w == 2 {
        match read_u16(s) {
            Ok((v, n)) => Ok((v as usize, n)),
            Err(e) => Err(e),
        }
    } else {
        match read_u24(s) {
            Ok((v, n)) => Ok((v as usize, n)),
            Err(e) => Err(e),
        }
    }
}

/// Reads an opaque vector whose length prefix is `w` bytes wide.
pub fn read_opaque(s: &[u8], w: usize) -> (r: Result<(Vec<u8>, usize), DecodeError>)
    requires
        valid_width(w as nat),
    ensures
        decoded_as(r, parse_opaque(w as nat, s@)),
        r is Ok ==> r->Ok_0.1 <= s@.len(),
{
    let (l, _) = read_len(s, w)?;
    if s.len() - w < l {
        Err(DecodeError::TruncatedInput)
    } else {
        let d = vstd::slice::slice_to_vec(vstd::slice::slice_subrange(s, w, w + l));
        Ok((d, w + l))
    }
}

pub fn put_u8(out: &mut Vec<u8>, v: u8)
    ensures
        final(out)@ == old(out)@ + ser_u8(v),
{
    out.push(v);
    assert(out@ =~= old(out)@ + ser_u8(v));
}

pub fn put_u16(out: &mut Vec<u8>, v: u16)
    ensures
        final(out)@ == old(out)@ + ser_u16(v),
{
    out.push((v / 256) as u8);
    out.push((v % 256) as u8);
    assert(out@ =~= old(out)@ + ser_u16(v));
}

pub fn put_u24(out: &mut Vec<u8>, v: u32)
    requires
        v <= 16777215,
    ensures
        final(out)@ == old(out)@ + ser_u24(v),
{
    out.push((v / 65536) as u8);
    out.push(((v / 256) % 256) as u8);
    out.push((v % 256) as u8);
    assert(out@ =~= old(out)@ + ser_u24(v));
}

pub fn put_u32(out: &mut Vec<u8>, v: u32)
    ensures
        final(out)@ == old(out)@ + ser_u32(v),
{
    reveal(ser_u32);
    out.push((v / 16777216) as u8);
    out.push(((v / 65536) % 256) as u8);
    out.push(((v / 256) % 256) as u8);
    out.push((v % 256) as u8);
    assert(out@ =~= old(out)@ + ser_u32(v));
}

/// Appends raw bytes.
pub fn put_bytes(out: &mut Vec<u8>, d: &[u8])
    ensures
        final(out)@ == old(out)@ + d@,
{
    let mut i: usize = 0;
    while i < d.len()
        invariant
            i <= d@.len(),
            out@ == old(out)@ + d@.subrange(0, i as int),
        decreases d.len() - i,
    {
        out.push(d[i]);
        i = i + 1;
        assert(out@ =~= old(out)@ + d@.subrange(0, i as int));
    }
    assert(d@.subrange(0, i as int) =~= d@);
}

/// Appends an opaque vector with a length prefix of `w` bytes.
pub fn put_opaque(out: &mut Vec<u8>, w: usize, d: &[u8])
    requires
        valid_width(w as nat),
        d@.len() <= prefix_max(w as nat),
    ensures
        final(out)@ == old(out)@ + ser_opaque(w as nat, d@),
{
    if w == 1 {
        put_u8(out, d.len() as u8);
    } else if w == 2 {
        put_u16(out, d.len() as u16);
    } else {
        put_u24(out, d.len() as u32);
    }
    put_bytes(out, d);
    assert(out@ =~= old(out)@ + ser_opaque(w as nat, d@));
}

/// The models of a sequence of values.
pub open spec fn views<T: View>(v: Seq<T>) -> Seq<T::V> {
    v.map_values(|x: T| x@)
}

/// Items read back to back until the bytes are used up.
pub open spec fn parse_items<T>(s: Seq<u8>, p: spec_fn(Seq<u8>) -> SpecResult<T>) -> Result<Seq<T>, DecodeError>
    decreases s.len(),
{
    if s.len() == 0 {
        Ok(Seq::empty())
    } else {
        match p(s) {
            Err(e) => Err(e),
            Ok((x, n)) => if 0 < n && n <= s.len() {
                match parse_items(skip(s, n), p) {
                    Ok(xs) => Ok(seq![x] + xs),
                    Err(e) => Err(e),
                }
            } else {
                Err(DecodeError::LengthMismatch)
            },
        }
    }
}

pub open spec fn ser_items<T>(xs: Seq<T>, f: spec_fn(T) -> Seq<u8>) -> Seq<u8>
    decreases xs.len(),
{
    if xs.len() == 0 {
        Seq::empty()
    } else {
        f(xs[0]) + ser_items(xs.drop_first(), f)
    }
}

/// A vector of items behind a length prefix of `w` bytes.
pub open spec fn parse_list<T>(w: nat, s: Seq<u8>, p: spec_fn(Seq<u8>) -> SpecResult<T>) -> SpecResult<Seq<T>> {
    match parse_opaque(w, s) {
        Err(e) => Err(e),
        Ok((body, n)) => match parse_items(body, p) {
            Ok(xs) => Ok((xs, n)),
            Err(e) => Err(e),
        },
    }
}

pub open spec fn ser_list<T>(w: nat, xs: Seq<T>, f: spec_fn(T) -> Seq<u8>) -> Seq<u8> {
    ser_opaque(w, ser_items(xs, f))
}

/// Each item decodes from its own encoding, whatever follows it.
pub open spec fn items_round_trip<T>(
    xs: Seq<T>,
    p: spec_fn(Seq<u8>) -> SpecResult<T>,
    f: spec_fn(T) -> Seq<u8>,
) -> bool {
    forall|i: int, rest: Seq<u8>|
        0 <= i < xs.len() ==> #[trigger] p(f(xs[i]) + rest) == Ok::<(T, nat), DecodeError>(
            (xs[i], f(xs[i]).len()),
        ) && f(xs[i]).len() > 0
}

pub proof fn lemma_items<T>(xs: Seq<T>, p: spec_fn(Seq<u8>) -> SpecResult<T>, f: spec_fn(T) -> Seq<u8>)
    requires
        items_round_trip(xs, p, f),
    ensures
        parse_items(ser_items(xs, f), p) == Ok::<Seq<T>, DecodeError>(xs),
    decreases xs.len(),
{
    if xs.len() > 0 {
        let t = ser_items(xs.drop_first(), f);
        let tail = xs.drop_first();
        assert forall|i: int, rest: Seq<u8>| 0 <= i < tail.len() implies #[trigger] p(f(tail[i]) + rest)
            == Ok::<(T, nat), DecodeError>((tail[i], f(tail[i]).len())) && f(tail[i]).len() > 0 by {
            assert(tail[i] == xs[i + 1]);
            assert(p(f(xs[i + 1]) + rest) == Ok::<(T, nat), DecodeError>((xs[i + 1], f(xs[i + 1]).len())));
        }
        lemma_items(tail, p, f);
        assert(p(f(xs[0]) + t) == Ok::<(T, nat), DecodeError>((xs[0], f(xs[0]).len())));
        lemma_skip(f(xs[0]), t);
        assert(ser_items(xs, f) == f(xs[0]) + t);
        assert(seq![xs[0]] + tail =~= xs);
    } else {
        assert(xs =~= Seq::<T>::empty());
    }
}

pub proof fn lemma_list<T>(w: nat, xs: Seq<T>, p: spec_fn(Seq<u8>) -> SpecResult<T>, f: spec_fn(T) -> Seq<u8>, rest: Seq<u8>)
    requires
        valid_width(w),
        items_round_trip(xs, p, f),
        ser_items(xs, f).len() <= prefix_max(w),
    ensures
        parse_list(w, ser_list(w, xs, f) + rest, p) == Ok::<(Seq<T>, nat), DecodeError>(
            (xs, ser_list(w, xs, f).len()),
        ),
{
    lemma_opaque(w, ser_items(xs, f), rest);
    lemma_items(xs, p, f);
}

/// Reads items back to back until `s` is used up.
pub fn read_items<T: View, F: Fn(&[u8]) -> Result<(T, usize), DecodeError>>(
    s: &[u8],
    dec: F,
    Ghost(p): Ghost<spec_fn(Seq<u8>) -> SpecResult<T::V>>,
) -> (r: Result<Vec<T>, DecodeError>)
    requires
        forall|t: &[u8]| #[trigger] dec.requires((t,)),
        forall|t: &[u8], r: Result<(T, usize), DecodeError>|
            #[trigger] dec.ensures((t,), r) ==> decoded_as(r, p(t@)),
    ensures
        match r {
            Ok(v) => parse_items(s@, p) == Ok::<Seq<T::V>, DecodeError>(views(v@)),
            Err(e) => parse_items(s@, p) == Err::<Seq<T::V>, DecodeError>(e),
        },
{
    let mut out: Vec<T> = Vec::new();
    let mut pos: usize = 0;
    assert(skip(s@, 0) =~= s@);
    while pos < s.len()
        invariant
            pos <= s@.len(),
            forall|t: &[u8]| #[trigger] dec.requires((t,)),
            forall|t: &[u8], r: Result<(T, usize), DecodeError>|
                #[trigger] dec.ensures((t,), r) ==> decoded_as(r, p(t@)),
            parse_items(s@, p) == match parse_items(skip(s@, pos as nat), p) {
                Ok(xs) => Ok::<Seq<T::V>, DecodeError>(views(out@) + xs),
                Err(e) => Err(e),
            },
        decreases s@.len() - pos,
    {
        let t = vstd::slice::slice_subrange(s, pos, s.len());
        assert(t@ == skip(s@, pos as nat));
        match dec(t) {
            Err(e) => {
                return Err(e);
            },
            Ok((x, n)) => {
                if n == 0 || n > t.len() {
                    return Err(DecodeError::LengthMismatch);
                }
                assert(skip(t@, n as nat) =~= skip(s@, (pos + n) as nat));
                let ghost before = views(out@);
                out.push(x);
                assert(views(out@) =~= before + seq![x@]);
                pos = pos + n;
                assert forall|xs: Seq<T::V>| true implies before + (seq![x@] + xs) =~= views(out@) + xs by {}
            },
        }
    }
    assert(skip(s@, pos as nat) =~= Seq::<u8>::empty());
    assert(views(out@) + Seq::<T::V>::empty() =~= views(out@));
    Ok(out)
}

pub proof fn lemma_ser_items_push<T>(xs: Seq<T>, x: T, f: spec_fn(T) -> Seq<u8>)
    ensures
        ser_items(xs.push(x), f) == ser_items(xs, f) + f(x),
    decreases xs.len(),
{
    if xs.len() == 0 {
        assert(xs.push(x).drop_first() =~= Seq::<T>::empty());
        assert(ser_items(xs.push(x).drop_first(), f) == Seq::<u8>::empty());
        assert(xs.push(x)[0] == x);
        assert(ser_items(xs.push(x), f) =~= f(x));
        assert(ser_items(xs, f) + f(x) =~= f(x));
    } else {
        lemma_ser_items_push(xs.drop_first(), x, f);
        assert(xs.push(x).drop_first() =~= xs.drop_first().push(x));
        assert(ser_items(xs.push(x), f) =~= ser_items(xs, f) + f(x));
    }
}

/// A vector of items behind a `w`-byte length prefix; where every item is `k` bytes
/// wide (`k > 0`), a byte length that is not a multiple of `k` is refused.
pub open spec fn parse_vec<T>(w: nat, k: nat, s: Seq<u8>, p: spec_fn(Seq<u8>) -> SpecResult<T>) -> SpecResult<Seq<T>> {
    match parse_opaque(w, s) {
        Err(e) => Err(e),
        Ok((body, n)) => if k > 0 && body.len() % k != 0 {
            Err(DecodeError::InvalidVectorLength)
        } else {
            match parse_items(body, p) {
                Ok(xs) => Ok((xs, n)),
                Err(e) => Err(e),
            }
        },
    }
}

pub open spec fn items_of_width<T>(xs: Seq<T>, f: spec_fn(T) -> Seq<u8>, k: nat) -> bool {
    k > 0 ==> forall|i: int| 0 <= i < xs.len() ==> (#[trigger] f(xs[i])).len() == k
}

proof fn lemma_items_len<T>(xs: Seq<T>, f: spec_fn(T) -> Seq<u8>, k: nat)
    requires
        k > 0,
        items_of_width(xs, f, k),
    ensures
        ser_items(xs, f).len() == k * xs.len(),
    decreases xs.len(),
{
    if xs.len() > 0 {
        let tail = xs.drop_first();
        assert forall|i: int| 0 <= i < tail.len() implies (#[trigger] f(tail[i])).len() == k by {
            assert(tail[i] == xs[i + 1]);
        }
        lemma_items_len(tail, f, k);
        assert(f(xs[0]).len() == k);
        assert(k * xs.len() == k + k * tail.len()) by (nonlinear_arith)
            requires xs.len() == tail.len() + 1;
    }
}

pub proof fn lemma_vec<T>(
    w: nat,
    k: nat,
    xs: Seq<T>,
    p: spec_fn(Seq<u8>) -> SpecResult<T>,
    f: spec_fn(T) -> Seq<u8>,
    rest: Seq<u8>,
)
    requires
        valid_width(w),
        items_round_trip(xs, p, f),
        items_of_width(xs, f, k),
        ser_items(xs, f).len() <= prefix_max(w),
    ensures
        parse_vec(w, k, ser_list(w, xs, f) + rest, p) == Ok::<(Seq<T>, nat), DecodeError>(
            (xs, ser_list(w, xs, f).len()),
        ),
        ser_list(w, xs, f).len() == w + ser_items(xs, f).len(),
{
    lemma_opaque(w, ser_items(xs, f), rest);
    lemma_items(xs, p, f);
    if k > 0 {
        lemma_items_len(xs, f, k);
        vstd::arithmetic::div_mod::lemma_mod_multiples_basic(xs.len() as int, k as int);
        assert((k * xs.len()) as int == (xs.len() as int) * (k as int)) by (nonlinear_arith);
    }
}

/// Reads a vector of items behind a `w`-byte length prefix.
pub fn read_vec<T: View, F: Fn(&[u8]) -> Result<(T, usize), DecodeError>>(
    s: &[u8],
    w: usize,
    k: usize,
    dec: F,
    Ghost(p): Ghost<spec_fn(Seq<u8>) -> SpecResult<T::V>>,
) -> (r: Result<(Vec<T>, usize), DecodeError>)
    requires
        valid_width(w as nat),
        forall|t: &[u8]| #[trigger] dec.requires((t,)),
        forall|t: &[u8], r: Result<(T, usize), DecodeError>|
            #[trigger] dec.ensures((t,), r) ==> decoded_as(r, p(t@)),
    ensures
        match r {
            Ok((v, n)) => parse_vec(w as nat, k as nat, s@, p) == Ok::<(Seq<T::V>, nat), DecodeError>(
                (views(v@), n as nat),
            ),
            Err(e) => parse_vec(w as nat, k as nat, s@, p) == Err::<(Seq<T::V>, nat), DecodeError>(e),
        },
        r is Ok ==> r->Ok_0.1 <= s@.len(),
{
    let (body, n) = read_opaque(s, w)?;
    if k > 0 && body.len() % k != 0 {
        return Err(DecodeError::InvalidVectorLength);
    }
    let v = read_items(body.as_slice(), dec, Ghost(p))?;
    Ok((v, n))
}

pub open spec fn u16_parser() -> spec_fn(Seq<u8>) -> SpecResult<u16> {
    |s: Seq<u8>| parse_u16(s)
}

pub open spec fn u16_writer() -> spec_fn(u16) -> Seq<u8> {
    |v: u16| ser_u16(v)
}

pub open spec fn opaque1_parser() -> spec_fn(Seq<u8>) -> SpecResult<Seq<u8>> {
    |s: Seq<u8>| parse_opaque(1, s)
}

pub open spec fn opaque1_writer() -> spec_fn(Seq<u8>) -> Seq<u8> {
    |d: Seq<u8>| ser_opaque(1, d)
}

pub open spec fn opaque2_parser() -> spec_fn(Seq<u8>) -> SpecResult<Seq<u8>> {
    |s: Seq<u8>| parse_opaque(2, s)
}

pub open spec fn opaque2_writer() -> spec_fn(Seq<u8>) -> Seq<u8> {
    |d: Seq<u8>| ser_opaque(2, d)
}

pub fn read_opaque1(s: &[u8]) -> (r: Result<(Vec<u8>, usize), DecodeError>)
    ensures
        decoded_as(r, parse_opaque(1, s@)),
{
    read_opaque(s, 1)
}

pub fn read_opaque2(s: &[u8]) -> (r: Result<(Vec<u8>, usize), DecodeError>)
    ensures
        decoded_as(r, parse_opaque(2, s@)),
{
    read_opaque(s, 2)
}

/// `n` bytes taken as they are.
pub open spec fn parse_fixed(n: nat, s: Seq<u8>) -> SpecResult<Seq<u8>> {
    if s.len() < n { Err(DecodeError::TruncatedInput) } else { Ok((s.take(n as int), n)) }
}

pub proof fn lemma_fixed(d: Seq<u8>, rest: Seq<u8>)
    ensures
        parse_fixed(d.len(), d + rest) == Ok::<(Seq<u8>, nat), DecodeError>((d, d.len())),
{
    assert((d + rest).take(d.len() as int) =~= d);
}

pub fn read_fixed(s: &[u8], n: usize) -> (r: Result<(Vec<u8>, usize), DecodeError>)
    ensures
        decoded_as(r, parse_fixed(n as nat, s@)),
        r is Ok ==> r->Ok_0.1 <= s@.len(),
{
    if s.len() < n {
        Err(DecodeError::TruncatedInput)
    } else {
        let d = vstd::slice::slice_to_vec(vstd::slice::slice_subrange(s, 0, n));
        assert(d@ =~= s@.take(n as int));
        Ok((d, n))
    }
}

/// An opaque vector cut short anywhere is refused as truncated.
pub proof fn lemma_opaque_truncated(w: nat, d: Seq<u8>, k: nat)
    requires
        valid_width(w),
        d.len() <= prefix_max(w),
        k < w + d.len(),
    ensures
        parse_opaque(w, ser_opaque(w, d).take(k as int)) == Err::<(Seq<u8>, nat), DecodeError>(
            DecodeError::TruncatedInput,
        ),
{
    lemma_len(w, d.len(), d);
    let t = ser_opaque(w, d).take(k as int);
    if k >= w {
        let tail = d.take(k - w);
        assert(t =~= ser_len(w, d.len()) + tail);
        lemma_len(w, d.len(), tail);
    }
}

/// A vector of `k`-byte items whose byte length is not a multiple of `k` is refused.
pub proof fn lemma_vec_width_mismatch<T>(w: nat, k: nat, s: Seq<u8>, p: spec_fn(Seq<u8>) -> SpecResult<T>)
    requires
        k > 0,
        parse_opaque(w, s) matches Ok((body, _)) && body.len() % k != 0,
    ensures
        parse_vec(w, k, s, p) == Err::<(Seq<T>, nat), DecodeError>(DecodeError::InvalidVectorLength),
{
}

} // verus!
