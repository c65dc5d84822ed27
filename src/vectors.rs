//! Vectors of plain items: two-byte integers and opaque byte strings.
use vstd::prelude::*;
use crate::wire::{
    DecodeError, views, parse_vec, ser_list, ser_items, items_round_trip, prefix_max, valid_width,
    lemma_u16, lemma_opaque, lemma_vec, lemma_ser_items_push, put_u16, put_opaque, u16_parser,
    u16_writer, opaque1_parser, opaque1_writer, opaque2_parser, opaque2_writer,
};

verus! {

pub open spec fn u16_vec_wf(xs: Seq<u16>, w: nat) -> bool {
    &&& ser_items(xs, u16_writer()).len() <= prefix_max(w)
}

pub proof fn lemma_u16_vec(w: nat, xs: Seq<u16>, rest: Seq<u8>)
    requires
        valid_width(w),
        u16_vec_wf(xs, w),
    ensures
        parse_vec(w, 2, ser_list(w, xs, u16_writer()) + rest, u16_parser()) == Ok::<(Seq<u16>, nat), DecodeError>(
            (xs, ser_list(w, xs, u16_writer()).len()),
        ),
        ser_list(w, xs, u16_writer()).len() >= w,
{
    assert forall|i: int, r: Seq<u8>| 0 <= i < xs.len() implies #[trigger] u16_parser()(u16_writer()(xs[i]) + r)
        == Ok::<(u16, nat), DecodeError>((xs[i], u16_writer()(xs[i]).len())) && u16_writer()(xs[i]).len() > 0 by {
        let x = xs[i];
        assert(true);
        lemma_u16(x, r);
    }
    assert(items_round_trip(xs, u16_parser(), u16_writer()));
    lemma_vec(w, 2, xs, u16_parser(), u16_writer(), rest);
}

pub fn write_u16_vec(v: &Vec<u16>, w: usize, out: &mut Vec<u8>)
    requires
        valid_width(w as nat),
        u16_vec_wf(views(v@), w as nat),
    ensures
        final(out)@ == old(out)@ + ser_list(w as nat, views(v@), u16_writer()),
{
    let mut tmp: Vec<u8> = Vec::new();
    let mut i: usize = 0;
    while i < v.len()
        invariant
            i <= v@.len(),
            u16_vec_wf(views(v@), w as nat),
            tmp@ == ser_items(views(v@).take(i as int), u16_writer()),
        decreases v@.len() - i,
    {
        let ghost x = views(v@)[i as int];
        assert(x == v@[i as int]@);
        assert(true);
        put_u16(&mut tmp, v[i]);
        proof {
            lemma_ser_items_push(views(v@).take(i as int), x, u16_writer());
            assert(views(v@).take(i as int).push(x) =~= views(v@).take(i + 1));
        }
        i = i + 1;
    }
    assert(views(v@).take(i as int) =~= views(v@));
    put_opaque(out, w, tmp.as_slice());
}

pub open spec fn opaque1_vec_wf(xs: Seq<Seq<u8>>, w: nat) -> bool {
    &&& forall|i: int| 0 <= i < xs.len() ==> (#[trigger] xs[i]).len() <= 255
    &&& ser_items(xs, opaque1_writer()).len() <= prefix_max(w)
}

pub proof fn lemma_opaque1_vec(w: nat, xs: Seq<Seq<u8>>, rest: Seq<u8>)
    requires
        valid_width(w),
        opaque1_vec_wf(xs, w),
    ensures
        parse_vec(w, 0, ser_list(w, xs, opaque1_writer()) + rest, opaque1_parser()) == Ok::<(Seq<Seq<u8>>, nat), DecodeError>(
            (xs, ser_list(w, xs, opaque1_writer()).len()),
        ),
        ser_list(w, xs, opaque1_writer()).len() >= w,
{
    assert forall|i: int, r: Seq<u8>| 0 <= i < xs.len() implies #[trigger] opaque1_parser()(opaque1_writer()(xs[i]) + r)
        == Ok::<(Seq<u8>, nat), DecodeError>((xs[i], opaque1_writer()(xs[i]).len())) && opaque1_writer()(xs[i]).len() > 0 by {
        let x = xs[i];
        assert(x.len() <= 255);
        lemma_opaque(1, x, r);
    }
    assert(items_round_trip(xs, opaque1_parser(), opaque1_writer()));
    lemma_vec(w, 0, xs, opaque1_parser(), opaque1_writer(), rest);
}

pub fn write_opaque1_vec(v: &Vec<Vec<u8>>, w: usize, out: &mut Vec<u8>)
    requires
        valid_width(w as nat),
        opaque1_vec_wf(views(v@), w as nat),
    ensures
        final(out)@ == old(out)@ + ser_list(w as nat, views(v@), opaque1_writer()),
{
    let mut tmp: Vec<u8> = Vec::new();
    let mut i: usize = 0;
    while i < v.len()
        invariant
            i <= v@.len(),
            opaque1_vec_wf(views(v@), w as nat),
            tmp@ == ser_items(views(v@).take(i as int), opaque1_writer()),
        decreases v@.len() - i,
    {
        let ghost x = views(v@)[i as int];
        assert(x == v@[i as int]@);
        assert(x.len() <= 255);
        put_opaque(&mut tmp, 1, v[i].as_slice());
        proof {
            lemma_ser_items_push(views(v@).take(i as int), x, opaque1_writer());
            assert(views(v@).take(i as int).push(x) =~= views(v@).take(i + 1));
        }
        i = i + 1;
    }
    assert(views(v@).take(i as int) =~= views(v@));
    put_opaque(out, w, tmp.as_slice());
}

pub open spec fn opaque2_vec_wf(xs: Seq<Seq<u8>>, w: nat) -> bool {
    &&& forall|i: int| 0 <= i < xs.len() ==> (#[trigger] xs[i]).len() <= 65535
    &&& ser_items(xs, opaque2_writer()).len() <= prefix_max(w)
}

pub proof fn lemma_opaque2_vec(w: nat, xs: Seq<Seq<u8>>, rest: Seq<u8>)
    requires
        valid_width(w),
        opaque2_vec_wf(xs, w),
    ensures
        parse_vec(w, 0, ser_list(w, xs, opaque2_writer()) + rest, opaque2_parser()) == Ok::<(Seq<Seq<u8>>, nat), DecodeError>(
            (xs, ser_list(w, xs, opaque2_writer()).len()),
        ),
        ser_list(w, xs, opaque2_writer()).len() >= w,
{
    assert forall|i: int, r: Seq<u8>| 0 <= i < xs.len() implies #[trigger] opaque2_parser()(opaque2_writer()(xs[i]) + r)
        == Ok::<(Seq<u8>, nat), DecodeError>((xs[i], opaque2_writer()(xs[i]).len())) && opaque2_writer()(xs[i]).len() > 0 by {
        let x = xs[i];
        assert(x.len() <= 65535);
        lemma_opaque(2, x, r);
    }
    assert(items_round_trip(xs, opaque2_parser(), opaque2_writer()));
    lemma_vec(w, 0, xs, opaque2_parser(), opaque2_writer(), rest);
}

pub fn write_opaque2_vec(v: &Vec<Vec<u8>>, w: usize, out: &mut Vec<u8>)
    requires
        valid_width(w as nat),
        opaque2_vec_wf(views(v@), w as nat),
    ensures
        final(out)@ == old(out)@ + ser_list(w as nat, views(v@), opaque2_writer()),
{
    let mut tmp: Vec<u8> = Vec::new();
    let mut i: usize = 0;
    while i < v.len()
        invariant
            i <= v@.len(),
            opaque2_vec_wf(views(v@), w as nat),
            tmp@ == ser_items(views(v@).take(i as int), opaque2_writer()),
        decreases v@.len() - i,
    {
        let ghost x = views(v@)[i as int];
        assert(x == v@[i as int]@);
        assert(x.len() <= 65535);
        put_opaque(&mut tmp, 2, v[i].as_slice());
        proof {
            lemma_ser_items_push(views(v@).take(i as int), x, opaque2_writer());
            assert(views(v@).take(i as int).push(x) =~= views(v@).take(i + 1));
        }
        i = i + 1;
    }
    assert(views(v@).take(i as int) =~= views(v@));
    put_opaque(out, w, tmp.as_slice());
}

} // verus!
