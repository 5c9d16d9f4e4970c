//! The number of bits a value takes, defined by structure and computed ahead
//! of encoding.
use crate::encode::{
    lemma_fields_wire_prefix, lemma_items_wire_prefix, lemma_record_wire_prefix,
};
use crate::schema::{
    variants_view, fields_bits, fields_wire, items_bits, items_view, items_wire, member_bits,
    member_wire, pad_bits, record_bits, record_wire, scalar_bits, scalar_wire, shape_bits,
    shape_wire, values_view, FieldPlan, Item, ItemV, Member, MemberPlan, MemberPlanV, MemberV,
    Record, RecordPlan, Scalar, Shape, Value, ValueV,
};
use crate::strings::lemma_units_bits_len;
use crate::utf16::encode_utf16;
use vstd::prelude::*;

verus! {

proof fn lemma_scalar_size(sc: Scalar, it: ItemV)
    ensures
        scalar_bits(sc, it) == scalar_wire(sc, it).len(),
{
    match (sc, it) {
        (Scalar::Text, ItemV::Text(t)) => lemma_units_bits_len(crate::utf16::utf16_of(t), 16),
        (Scalar::Ascii, ItemV::Text(t)) => lemma_units_bits_len(crate::utf16::utf16_of(t), 8),
        _ => {},
    }
}

proof fn lemma_items_size(sc: Scalar, items: Seq<ItemV>)
    ensures
        items_bits(sc, items) == items_wire(sc, items).len(),
    decreases items.len(),
{
    if items.len() > 0 {
        lemma_items_size(sc, items.drop_last());
        lemma_scalar_size(sc, items.last());
    }
}

proof fn lemma_shape_size(sh: Shape, v: ValueV)
    ensures
        shape_bits(sh, v) == shape_wire(sh, v).len(),
{
    match (sh, v) {
        (Shape::Single(s), ValueV::One(it)) => lemma_scalar_size(s, it),
        (Shape::Fixed { elem, .. }, ValueV::Many(items)) => lemma_items_size(elem, items),
        (Shape::List { elem, .. }, ValueV::Many(items)) => lemma_items_size(elem, items),
        _ => {},
    }
}

proof fn lemma_fields_size(fps: Seq<FieldPlan>, vs: Seq<ValueV>, pos: int)
    ensures
        fields_bits(fps, vs, pos) == fields_wire(fps, vs, pos).len(),
    decreases fps.len(),
{
    if fps.len() > 0 && vs.len() > 0 {
        lemma_fields_size(fps.drop_last(), vs.drop_last(), pos);
        lemma_shape_size(fps.last().shape, vs.last());
    }
}

proof fn lemma_member_size(m: MemberPlanV, v: MemberV, pos: int)
    ensures
        member_bits(m, v, pos) == member_wire(m, v, pos).len(),
{
    match (m, v) {
        (MemberPlanV::Field(fp), MemberV::Field(fv)) => lemma_shape_size(fp.shape, fv),
        (MemberPlanV::Union { aligned, variants, .. }, MemberV::Union(k, fs)) => {
            if k < variants.len() {
                lemma_fields_size(variants[k as int], fs, pos + pad_bits(aligned, pos));
            }
        },
        _ => {},
    }
}

/// The size of a record, defined as the sum of its members' sizes with
/// alignment padding, is exactly the number of bits its encoding takes from
/// the same start position.
pub proof fn lemma_bit_size_exact(ms: Seq<MemberPlanV>, vs: Seq<MemberV>, pos: int)
    ensures
        record_bits(ms, vs, pos) == record_wire(ms, vs, pos).len(),
    decreases ms.len(),
{
    if ms.len() > 0 && vs.len() > 0 {
        lemma_bit_size_exact(ms.drop_last(), vs.drop_last(), pos);
        lemma_member_size(ms.last(), vs.last(), pos + record_bits(ms.drop_last(), vs.drop_last(), pos));
    }
}

/// The padding that brings `pos` to a byte boundary, where `aligned`.
fn pad_exec(aligned: bool, pos: usize) -> (r: usize)
    ensures
        r == pad_bits(aligned, pos as int),
{
    if aligned && pos % 8 != 0 {
        8 - pos % 8
    } else {
        0
    }
}

/// The number of bits one element takes.
pub fn scalar_size(sc: Scalar, it: &Item) -> (r: usize)
    requires
        scalar_bits(sc, it@) <= usize::MAX,
    ensures
        r == scalar_bits(sc, it@),
{
    match (sc, it) {
        (Scalar::Int { bits, .. }, Item::Int(_)) => bits,
        (Scalar::Bool, Item::Bool(_)) => 1,
        (Scalar::Float, Item::Float(_)) => 32,
        (Scalar::Text, Item::Text(s)) => {
            let n = encode_utf16(s.as_str()).len();
            let lb: usize = if n > 127 {
                15
            } else {
                7
            };
            1 + lb + 16 * n
        },
        (Scalar::Ascii, Item::Text(s)) => {
            let n = encode_utf16(s.as_str()).len();
            let lb: usize = if n > 127 {
                15
            } else {
                7
            };
            1 + lb + 8 * n
        },
        _ => 0,
    }
}

/// The number of bits a run of elements takes.
pub fn items_size(sc: Scalar, items: &Vec<Item>) -> (r: usize)
    requires
        items_bits(sc, items_view(items@)) <= usize::MAX,
    ensures
        r == items_bits(sc, items_view(items@)),
{
    let ghost iv = items_view(items@);
    let mut total: usize = 0;
    let mut i: usize = 0;
    assert(iv.take(0) =~= Seq::<ItemV>::empty());
    while i < items.len()
        invariant
            iv == items_view(items@),
            items_bits(sc, iv) <= usize::MAX,
            i <= iv.len(),
            total == items_bits(sc, iv.take(i as int)),
        decreases iv.len() - i,
    {
        proof {
            assert(iv.take(i + 1).drop_last() =~= iv.take(i as int));
            lemma_items_wire_prefix(sc, iv, i + 1);
            lemma_items_size(sc, iv);
            lemma_items_size(sc, iv.take(i + 1));
            assert(iv[i as int] == items@[i as int]@);
        }
        total = total + scalar_size(sc, &items[i]);
        i = i + 1;
    }
    assert(iv.take(i as int) =~= iv);
    total
}

/// The number of bits a field value takes, padding aside.
pub fn shape_size(sh: Shape, v: &Value) -> (r: usize)
    requires
        shape_bits(sh, v@) <= usize::MAX,
    ensures
        r == shape_bits(sh, v@),
{
    match (sh, v) {
        (Shape::Single(s), Value::One(it)) => scalar_size(s, it),
        (Shape::Fixed { elem, .. }, Value::Many(items)) => items_size(elem, items),
        (Shape::List { elem, .. }, Value::Many(items)) => items_size(elem, items),
        _ => 0,
    }
}

/// The number of bits a list of fields takes from bit position `pos`.
pub fn fields_size(fps: &Vec<FieldPlan>, vs: &Vec<Value>, pos: usize) -> (r: usize)
    requires
        fps@.len() == vs@.len(),
        pos + fields_bits(fps@, values_view(vs@), pos as int) <= usize::MAX,
    ensures
        r == fields_bits(fps@, values_view(vs@), pos as int),
{
    let ghost fv = fps@;
    let ghost vv = values_view(vs@);
    let mut total: usize = 0;
    let mut i: usize = 0;
    assert(fv.take(0) =~= Seq::<FieldPlan>::empty());
    while i < fps.len()
        invariant
            fv == fps@,
            vv == values_view(vs@),
            fv.len() == vv.len(),
            pos + fields_bits(fv, vv, pos as int) <= usize::MAX,
            i <= fv.len(),
            total == fields_bits(fv.take(i as int), vv.take(i as int), pos as int),
        decreases fv.len() - i,
    {
        proof {
            assert(fv.take(i + 1).drop_last() =~= fv.take(i as int));
            assert(vv.take(i + 1).drop_last() =~= vv.take(i as int));
            lemma_fields_wire_prefix(fv, vv, pos as int, i + 1);
            lemma_fields_size(fv, vv, pos as int);
            lemma_fields_size(fv.take(i + 1), vv.take(i + 1), pos as int);
            assert(vv[i as int] == vs@[i as int]@);
        }
        let pad = pad_exec(fps[i].aligned, pos + total);
        total = total + pad + shape_size(fps[i].shape, &vs[i]);
        i = i + 1;
    }
    assert(fv.take(i as int) =~= fv);
    assert(vv.take(i as int) =~= vv);
    total
}

/// The number of bits a member takes from bit position `pos`.
pub fn member_size(m: &MemberPlan, v: &Member, pos: usize) -> (r: usize)
    requires
        pos + member_bits(m@, v@, pos as int) <= usize::MAX,
        member_arity_ok(m@, v@),
    ensures
        r == member_bits(m@, v@, pos as int),
{
    match (m, v) {
        (MemberPlan::Field(fp), Member::Field(fv)) => {
            let pad = pad_exec(fp.aligned, pos);
            pad + shape_size(fp.shape, fv)
        },
        (MemberPlan::Union { aligned, variants, .. }, Member::Union(k, fs)) => {
            let pad = pad_exec(*aligned, pos);
            if *k < variants.len() {
                let ghost vp = variants_view(variants@);
                assert(vp[*k as int] == variants@[*k as int]@);
                pad + fields_size(&variants[*k], fs, pos + pad)
            } else {
                pad
            }
        },
        _ => 0,
    }
}

/// A union member holds as many fields as its variant has.
pub open spec fn member_arity_ok(m: MemberPlanV, v: MemberV) -> bool {
    match (m, v) {
        (MemberPlanV::Union { variants, .. }, MemberV::Union(k, fs)) => k < variants.len()
            ==> fs.len() == variants[k as int].len(),
        _ => true,
    }
}

/// Every union member holds as many fields as its variant has.
pub open spec fn record_arity_ok(ms: Seq<MemberPlanV>, vs: Seq<MemberV>) -> bool {
    &&& ms.len() == vs.len()
    &&& forall|i: int| 0 <= i < ms.len() ==> #[trigger] member_arity_ok(ms[i], vs[i])
}

impl RecordPlan {
    /// The number of bits that encoding `rec` writes when it starts at bit
    /// position `start`: the sum of the members' sizes, alignment padding
    /// included.
    pub fn bit_size(&self, rec: &Record, start: usize) -> (r: usize)
        requires
            record_arity_ok(self@, rec@),
            start + record_bits(self@, rec@, start as int) <= usize::MAX,
        ensures
            r == record_bits(self@, rec@, start as int),
            r == record_wire(self@, rec@, start as int).len(),
    {
        let ghost ms = self@;
        let ghost vv = rec@;
        let mut total: usize = 0;
        let mut i: usize = 0;
        assert(ms.take(0) =~= Seq::<MemberPlanV>::empty());
        while i < self.members.len()
            invariant
                ms == self@,
                vv == rec@,
                ms.len() == self.members@.len(),
                record_arity_ok(ms, vv),
                vv.len() == rec.members@.len(),
                start + record_bits(ms, vv, start as int) <= usize::MAX,
                i <= ms.len(),
                total == record_bits(ms.take(i as int), vv.take(i as int), start as int),
            decreases ms.len() - i,
        {
            proof {
                assert(ms.take(i + 1).drop_last() =~= ms.take(i as int));
                assert(vv.take(i + 1).drop_last() =~= vv.take(i as int));
                lemma_record_wire_prefix(ms, vv, start as int, i + 1);
                lemma_bit_size_exact(ms, vv, start as int);
                lemma_bit_size_exact(ms.take(i + 1), vv.take(i + 1), start as int);
                assert(member_arity_ok(ms[i as int], vv[i as int]));
            }
            total = total + member_size(&self.members[i], &rec.members[i], start + total);
            i = i + 1;
        }
        assert(ms.take(i as int) =~= ms);
        assert(vv.take(i as int) =~= vv);
        proof {
            lemma_bit_size_exact(ms, vv, start as int);
        }
        total
    }
}

} // verus!
