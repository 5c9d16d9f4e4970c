//! What holds across the functions of the codec: decoding what was encoded
//! gives the value back, and alignment settles at a byte boundary.
use crate::bits::{int_bits, lemma_uint_of_int_bits, pad_len};
use crate::schema::{
    count_of, field_pad, field_plan_ok, field_wire, fields_framable, fields_lengths_ok,
    fields_plan_ok, fields_typed, fields_wire, int_fits, is_signed, item_framable, item_typed,
    items_framable, items_wire, len_bits, len_prefix, member_framable, member_length,
    member_lengths_ok, member_plan_ok, member_typed, member_variant_ok, member_wire, native,
    parse_fields, parse_items, parse_len, parse_member, parse_pad, parse_record, parse_scalar,
    parse_units, parse_value, record_framable, record_lengths_ok, record_ok, record_plan_ok,
    record_variants_ok, record_wire, scalar_ok, scalar_wire, shape_length, shape_wire,
    units_bits, value_framable, value_length_ok, value_typed, width, wire_u64, FieldPlan,
    IntKind, ItemV, MemberPlanV, MemberV, Scalar, Shape, ValueV,
};
use crate::utf16::{
    ascii_chars, lemma_ascii_utf16, lemma_text_of_utf16, lemma_utf16_injective, utf16_of,
};
use vstd::arithmetic::div_mod::{lemma_fundamental_div_mod_converse, lemma_mod_mod, lemma_small_mod};
use vstd::arithmetic::power2::{
    lemma2_to64, lemma2_to64_rest, lemma_pow2_adds, lemma_pow2_pos, lemma_pow2_strictly_increases,
    pow2,
};
use vstd::prelude::*;

verus! {

/// Aligning twice is aligning once, and aligning at a byte boundary does
/// nothing: after the padding that `align` takes there is none left.
pub proof fn lemma_align_idempotent(pos: int)
    ensures
        pad_len(pos + pad_len(pos)) == 0,
        pos % 8 == 0 ==> pad_len(pos) == 0,
{
}

/// Bits that stand in a stream at `p` can be taken apart where they were put together.
proof fn lemma_agree_split(s: Seq<bool>, p: int, a: Seq<bool>, b: Seq<bool>)
    requires
        0 <= p,
        p + a.len() + b.len() <= s.len(),
        s.subrange(p, p + (a + b).len()) == a + b,
    ensures
        s.subrange(p, p + a.len()) == a,
        s.subrange(p + a.len(), p + a.len() + b.len()) == b,
{
    assert(s.subrange(p, p + a.len()) =~= (a + b).subrange(0, a.len() as int));
    assert(s.subrange(p + a.len(), p + a.len() + b.len()) =~= (a + b).subrange(
        a.len() as int,
        (a + b).len() as int,
    ));
    assert((a + b).subrange(0, a.len() as int) =~= a);
    assert((a + b).subrange(a.len() as int, (a + b).len() as int) =~= b);
}

/// An integer that fits its field comes back from its wire bits unchanged.
proof fn lemma_native_round_trip(k: IntKind, bits: nat, v: int)
    requires
        1 <= bits <= 64,
        int_fits(k, bits, v),
    ensures
        native(k, wire_u64(v) % pow2(bits)) == v,
{
    lemma2_to64();
    lemma2_to64_rest();
    let w = width(k);
    let u = wire_u64(v);
    let m64 = pow2(64);
    assert(u == v % (m64 as int));
    if bits >= w {
        // 2^w divides both 2^bits and 2^64
        lemma_pow2_adds(w, (bits - w) as nat);
        lemma_pow2_adds(w, (64 - w) as nat);
        lemma_pow2_pos(w);
        lemma_pow2_pos((bits - w) as nat);
        lemma_pow2_pos((64 - w) as nat);
        lemma_mod_mod(u as int, pow2(w) as int, pow2((bits - w) as nat) as int);
        lemma_mod_mod(v, pow2(w) as int, pow2((64 - w) as nat) as int);
        assert(u % pow2(bits) % pow2(w) == v % (pow2(w) as int));
        if v >= 0 {
            lemma_small_mod(v as nat, pow2(w));
        } else {
            lemma_fundamental_div_mod_converse(v, pow2(w) as int, -1, v + pow2(w));
        }
    } else {
        lemma_pow2_strictly_increases(bits, w);
        lemma_pow2_strictly_increases(bits, 64);
        lemma_small_mod(v as nat, m64);
        lemma_small_mod(v as nat, pow2(bits));
        lemma_small_mod(v as nat, pow2(w));
        if is_signed(k) {
            if bits < w - 1 {
                lemma_pow2_strictly_increases(bits, (w - 1) as nat);
            }
        }
    }
}

/// A run of code units, each below `2^w`, comes back from its wire bits.
proof fn lemma_units_round_trip(u: Seq<u16>, w: nat, s: Seq<bool>, p: int)
    requires
        0 <= p,
        1 <= w <= 16,
        forall|i: int| 0 <= i < u.len() ==> (#[trigger] u[i] as nat) < pow2(w),
        p + units_bits(u, w).len() <= s.len(),
        s.subrange(p, p + units_bits(u, w).len()) == units_bits(u, w),
    ensures
        parse_units(s, p, u.len(), w) == Ok::<(Seq<u16>, int), crate::BitPackError>(
            (u, p + units_bits(u, w).len()),
        ),
    decreases u.len(),
{
    if u.len() > 0 {
        let pre = units_bits(u.drop_last(), w);
        let last = int_bits(u.last() as nat, w);
        lemma_agree_split(s, p, pre, last);
        lemma_units_round_trip(u.drop_last(), w, s, p);
        lemma_uint_of_int_bits(u.last() as nat, w);
        lemma_small_mod(u.last() as nat, pow2(w));
        assert(u.drop_last().push(u.last()) =~= u);
    } else {
        assert(u =~= Seq::<u16>::empty());
    }
}

/// A string's length comes back from its prefix.
proof fn lemma_len_round_trip(n: nat, s: Seq<bool>, p: int)
    requires
        0 <= p,
        n < 0x8000,
        p + len_prefix(n).len() <= s.len(),
        s.subrange(p, p + len_prefix(n).len()) == len_prefix(n),
    ensures
        parse_len(s, p) == Ok::<(nat, int), crate::BitPackError>((n, p + len_prefix(n).len())),
{
    lemma2_to64();
    assert(s[p] == len_prefix(n)[0]);
    lemma_agree_split(s, p, seq![n > 127], int_bits(n, len_bits(n)));
    lemma_uint_of_int_bits(n, len_bits(n));
    lemma_small_mod(n, pow2(len_bits(n)));
}

/// An element comes back from its wire bits.
pub proof fn lemma_scalar_round_trip(sc: Scalar, it: ItemV, s: Seq<bool>, p: int)
    requires
        0 <= p,
        scalar_ok(sc),
        item_typed(sc, it),
        item_framable(sc, it),
        p + scalar_wire(sc, it).len() <= s.len(),
        s.subrange(p, p + scalar_wire(sc, it).len()) == scalar_wire(sc, it),
    ensures
        parse_scalar(sc, s, p) == Ok::<(ItemV, int), crate::BitPackError>(
            (it, p + scalar_wire(sc, it).len()),
        ),
{
    lemma2_to64();
    match (sc, it) {
        (Scalar::Int { kind, bits }, ItemV::Int(v)) => {
            lemma_uint_of_int_bits(wire_u64(v), bits as nat);
            lemma_native_round_trip(kind, bits as nat, v);
        },
        (Scalar::Bool, ItemV::Bool(b)) => {
            assert(s[p] == scalar_wire(sc, it)[0]);
        },
        (Scalar::Float, ItemV::Float(f)) => {
            lemma_uint_of_int_bits(f as nat, 32);
            lemma_small_mod(f as nat, pow2(32));
        },
        (Scalar::Text, ItemV::Text(t)) => {
            let u = utf16_of(t);
            let pre = len_prefix(u.len());
            let body = units_bits(u, 16);
            lemma_agree_split(s, p, pre, body);
            lemma_len_round_trip(u.len(), s, p);
            lemma_units_round_trip(u, 16, s, p + pre.len());
            lemma_text_of_utf16(t);
        },
        (Scalar::Ascii, ItemV::Text(t)) => {
            let u = utf16_of(t);
            let pre = len_prefix(u.len());
            let body = units_bits(u, 8);
            lemma_agree_split(s, p, pre, body);
            lemma_len_round_trip(u.len(), s, p);
            lemma_units_round_trip(u, 8, s, p + pre.len());
            lemma_ascii_utf16(u);
            lemma_utf16_injective(ascii_chars(u), t);
        },
        _ => {},
    }
}

/// A run of elements comes back from its wire bits.
pub proof fn lemma_items_round_trip(sc: Scalar, items: Seq<ItemV>, s: Seq<bool>, p: int)
    requires
        0 <= p,
        scalar_ok(sc),
        forall|i: int| 0 <= i < items.len() ==> #[trigger] item_typed(sc, items[i]),
        items_framable(sc, items),
        p + items_wire(sc, items).len() <= s.len(),
        s.subrange(p, p + items_wire(sc, items).len()) == items_wire(sc, items),
    ensures
        parse_items(sc, s, p, items.len()) == Ok::<(Seq<ItemV>, int), crate::BitPackError>(
            (items, p + items_wire(sc, items).len()),
        ),
    decreases items.len(),
{
    if items.len() > 0 {
        let pre = items_wire(sc, items.drop_last());
        let last = scalar_wire(sc, items.last());
        lemma_agree_split(s, p, pre, last);
        assert forall|i: int| 0 <= i < items.drop_last().len() implies #[trigger] item_typed(
            sc,
            items.drop_last()[i],
        ) && item_framable(sc, items.drop_last()[i]) by {
            assert(items.drop_last()[i] == items[i]);
            assert(item_typed(sc, items[i]));
            assert(item_framable(sc, items[i]));
        }
        lemma_items_round_trip(sc, items.drop_last(), s, p);
        assert(item_typed(sc, items[items.len() - 1]));
        assert(item_framable(sc, items[items.len() - 1]));
        lemma_scalar_round_trip(sc, items.last(), s, p + pre.len());
        assert(items.drop_last().push(items.last()) =~= items);
    } else {
        assert(items =~= Seq::<ItemV>::empty());
    }
}

/// A field comes back from its wire bits, given the value of its length field.
pub proof fn lemma_value_round_trip(fp: FieldPlan, v: ValueV, s: Seq<bool>, p: int, n: int)
    requires
        0 <= p,
        crate::decode::fp_scalar_ok(fp),
        value_typed(fp.shape, v),
        value_framable(fp.shape, v),
        (fp.shape is List && v is Many) ==> v->Many_0.len() == count_of(n),
        p + field_wire(fp, v, p).len() <= s.len(),
        s.subrange(p, p + field_wire(fp, v, p).len()) == field_wire(fp, v, p),
    ensures
        parse_value(fp, s, p, n) == Ok::<(ValueV, int), crate::BitPackError>(
            (v, p + field_wire(fp, v, p).len()),
        ),
{
    let pad = field_pad(fp.aligned, p);
    let body = shape_wire(fp.shape, v);
    lemma_agree_split(s, p, pad, body);
    let q = p + pad.len();
    assert(parse_pad(fp.aligned, s, p) == Ok::<((), int), crate::BitPackError>(((), q)));
    match (fp.shape, v) {
        (Shape::Single(sc), ValueV::One(it)) => {
            lemma_scalar_round_trip(sc, it, s, q);
        },
        (Shape::Fixed { elem, count }, ValueV::Many(items)) => {
            lemma_items_round_trip(elem, items, s, q);
        },
        (Shape::List { elem, .. }, ValueV::Many(items)) => {
            lemma_items_round_trip(elem, items, s, q);
        },
        _ => {},
    }
}

/// A list of fields comes back from its wire bits.
pub proof fn lemma_fields_round_trip(fps: Seq<FieldPlan>, vs: Seq<ValueV>, s: Seq<bool>, p: int)
    requires
        0 <= p,
        fields_plan_ok(fps),
        fields_typed(fps, vs),
        fields_lengths_ok(fps, vs),
        fields_framable(fps, vs),
        p + fields_wire(fps, vs, p).len() <= s.len(),
        s.subrange(p, p + fields_wire(fps, vs, p).len()) == fields_wire(fps, vs, p),
    ensures
        parse_fields(fps, s, p) == Ok::<(Seq<ValueV>, int), crate::BitPackError>(
            (vs, p + fields_wire(fps, vs, p).len()),
        ),
    decreases fps.len(),
{
    if fps.len() > 0 {
        let n = fps.len() - 1;
        let fp0 = fps.drop_last();
        let vs0 = vs.drop_last();
        let pre = fields_wire(fp0, vs0, p);
        let last = field_wire(fps.last(), vs.last(), p + pre.len());
        lemma_agree_split(s, p, pre, last);
        assert forall|i: int| 0 <= i < fp0.len() implies #[trigger] field_plan_ok(
            fp0[i],
            fp0.take(i),
        ) by {
            assert(fp0.take(i) =~= fps.take(i));
            assert(field_plan_ok(fps[i], fps.take(i)));
        }
        assert forall|i: int| 0 <= i < vs0.len() implies #[trigger] value_length_ok(
            fp0[i].shape,
            vs0[i],
            vs0.take(i),
        ) by {
            assert(vs0.take(i) =~= vs.take(i));
            assert(value_length_ok(fps[i].shape, vs[i], vs.take(i)));
        }
        assert forall|i: int| 0 <= i < vs0.len() implies #[trigger] value_typed(fp0[i].shape, vs0[i])
            by {
            assert(value_typed(fps[i].shape, vs[i]));
        }
        assert forall|i: int| 0 <= i < vs0.len() implies #[trigger] value_framable(
            fp0[i].shape,
            vs0[i],
        ) by {
            assert(value_framable(fps[i].shape, vs[i]));
        }
        lemma_fields_round_trip(fp0, vs0, s, p);
        assert(field_plan_ok(fps[n], fps.take(n)));
        assert(value_typed(fps[n].shape, vs[n]));
        assert(value_length_ok(fps[n].shape, vs[n], vs.take(n)));
        assert(value_framable(fps[n].shape, vs[n]));
        assert(vs.take(n) =~= vs0);
        lemma_value_round_trip(
            fps.last(),
            vs.last(),
            s,
            p + pre.len(),
            shape_length(fps.last().shape, vs0),
        );
        assert(vs0.push(vs.last()) =~= vs);
    } else {
        assert(vs =~= Seq::<ValueV>::empty());
    }
}

/// A member comes back from its wire bits, after the members before it.
proof fn lemma_member_round_trip(
    m: MemberPlanV,
    v: MemberV,
    prior: Seq<MemberV>,
    s: Seq<bool>,
    p: int,
    plans: Seq<MemberPlanV>,
)
    requires
        0 <= p,
        member_plan_ok(m, plans),
        plans.len() == prior.len(),
        member_typed(m, v),
        member_lengths_ok(m, v, prior),
        member_variant_ok(m, v, prior),
        member_framable(m, v),
        p + member_wire(m, v, p).len() <= s.len(),
        s.subrange(p, p + member_wire(m, v, p).len()) == member_wire(m, v, p),
    ensures
        parse_member(m, prior, s, p) == Ok::<(MemberV, int), crate::BitPackError>(
            (v, p + member_wire(m, v, p).len()),
        ),
{
    match (m, v) {
        (MemberPlanV::Field(fp), MemberV::Field(fv)) => {
            lemma_value_round_trip(fp, fv, s, p, member_length(fp.shape, prior));
        },
        (MemberPlanV::Union { variant, aligned, variants }, MemberV::Union(k, fs)) => {
            let pad = field_pad(aligned, p);
            let body = fields_wire(variants[k as int], fs, p + pad.len());
            lemma_agree_split(s, p, pad, body);
            assert(fields_plan_ok(variants[k as int]));
            lemma_fields_round_trip(variants[k as int], fs, s, p + pad.len());
        },
        _ => {},
    }
}

/// Decoding what was encoded gives the record back: wherever the bits that
/// encode a record of its plan stand in a stream, decoding there yields that
/// record and ends right after them.
pub proof fn lemma_round_trip(ms: Seq<MemberPlanV>, vs: Seq<MemberV>, s: Seq<bool>, p: int)
    requires
        0 <= p,
        record_plan_ok(ms),
        record_ok(ms, vs),
        p + record_wire(ms, vs, p).len() <= s.len(),
        s.subrange(p, p + record_wire(ms, vs, p).len()) == record_wire(ms, vs, p),
    ensures
        parse_record(ms, s, p) == Ok::<(Seq<MemberV>, int), crate::BitPackError>(
            (vs, p + record_wire(ms, vs, p).len()),
        ),
    decreases ms.len(),
{
    if ms.len() > 0 {
        let n = ms.len() - 1;
        let ms0 = ms.drop_last();
        let vs0 = vs.drop_last();
        let pre = record_wire(ms0, vs0, p);
        let last = member_wire(ms.last(), vs.last(), p + pre.len());
        lemma_agree_split(s, p, pre, last);
        assert forall|i: int| 0 <= i < ms0.len() implies #[trigger] member_plan_ok(
            ms0[i],
            ms0.take(i),
        ) by {
            assert(ms0.take(i) =~= ms.take(i));
            assert(member_plan_ok(ms[i], ms.take(i)));
        }
        assert forall|i: int| 0 <= i < vs0.len() implies #[trigger] member_typed(ms0[i], vs0[i]) by {
            assert(member_typed(ms[i], vs[i]));
        }
        assert forall|i: int| 0 <= i < vs0.len() implies #[trigger] member_lengths_ok(
            ms0[i],
            vs0[i],
            vs0.take(i),
        ) by {
            assert(vs0.take(i) =~= vs.take(i));
            assert(member_lengths_ok(ms[i], vs[i], vs.take(i)));
        }
        assert forall|i: int| 0 <= i < vs0.len() implies #[trigger] member_variant_ok(
            ms0[i],
            vs0[i],
            vs0.take(i),
        ) by {
            assert(vs0.take(i) =~= vs.take(i));
            assert(member_variant_ok(ms[i], vs[i], vs.take(i)));
        }
        assert forall|i: int| 0 <= i < vs0.len() implies #[trigger] member_framable(ms0[i], vs0[i]) by {
            assert(member_framable(ms[i], vs[i]));
        }
        assert(record_lengths_ok(ms0, vs0));
        assert(record_variants_ok(ms0, vs0));
        assert(record_framable(ms0, vs0));
        lemma_round_trip(ms0, vs0, s, p);
        assert(member_plan_ok(ms[n], ms.take(n)));
        assert(member_typed(ms[n], vs[n]));
        assert(member_lengths_ok(ms[n], vs[n], vs.take(n)));
        assert(member_variant_ok(ms[n], vs[n], vs.take(n)));
        assert(member_framable(ms[n], vs[n]));
        assert(vs.take(n) =~= vs0);
        lemma_member_round_trip(ms.last(), vs.last(), vs0, s, p + pre.len(), ms.take(n));
        assert(vs0.push(vs.last()) =~= vs);
    } else {
        assert(vs =~= Seq::<MemberV>::empty());
    }
}

} // verus!
