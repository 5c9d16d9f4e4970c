//! Run-time checks of what decoding and encoding ask of their arguments: a
//! well-formed plan, and a record of the plan's type.
use crate::decode::fp_elem;
use crate::schema::{
    variants_view, field_plan_ok, fields_plan_ok, items_typed, fields_typed, in_range, int_fits,
    is_int_member, is_length_member, is_signed, item_typed, items_view, member_plan_ok,
    member_typed, record_plan_ok, record_typed, scalar_ok, value_typed, values_view, width,
    FieldPlan, IntKind, Item, Member, MemberPlan, MemberPlanV, Record, RecordPlan, Scalar,
    Shape, Value,
};
use vstd::arithmetic::power2::{lemma2_to64, lemma2_to64_rest};
use vstd::bits::{lemma_u64_pow2_no_overflow, lemma_u64_shl_is_mul};
use vstd::prelude::*;

verus! {

/// What a well-formed union plan promises of its variants.
proof fn lemma_union_plan(m: MemberPlanV, prior: Seq<MemberPlanV>)
    ensures
        member_plan_ok(m, prior) ==> match m {
            MemberPlanV::Union { variant, variants, .. } => variant < prior.len() && is_int_member(
                prior[variant as int],
            ) && forall|k: int| 0 <= k < variants.len() ==> #[trigger] fields_plan_ok(variants[k]),
            _ => true,
        },
{
}

/// Whether `v` can be written in a field of type `k` packed in `bits` bits.
pub fn int_fits_exec(k: IntKind, bits: usize, v: i128) -> (r: bool)
    requires
        bits <= 64,
    ensures
        r == int_fits(k, bits as nat, v as int),
{
    proof {
        lemma2_to64();
        lemma2_to64_rest();
    }
    let (ok, w): (bool, usize) = match k {
        IntKind::U8 => (0 <= v && v < 0x100, 8),
        IntKind::I8 => (-0x80 <= v && v < 0x80, 8),
        IntKind::U16 => (0 <= v && v < 0x1_0000, 16),
        IntKind::I16 => (-0x8000 <= v && v < 0x8000, 16),
        IntKind::U32 => (0 <= v && v < 0x1_0000_0000, 32),
        IntKind::I32 => (-0x8000_0000 <= v && v < 0x8000_0000, 32),
        IntKind::U64 => (0 <= v && v < 0x1_0000_0000_0000_0000, 64),
        IntKind::I64 => (-0x8000_0000_0000_0000 <= v && v < 0x8000_0000_0000_0000, 64),
    };
    assert(ok == in_range(k, v as int) && w == width(k));
    if !ok {
        return false;
    }
    if bits >= w {
        return true;
    }
    proof {
        lemma_u64_pow2_no_overflow(bits as nat);
        lemma_u64_shl_is_mul(1u64, bits as u64);
    }
    0 <= v && v < (1u64 << (bits as u64)) as i128
}

/// Whether an element has the plan's type.
pub fn item_typed_exec(sc: Scalar, it: &Item) -> (r: bool)
    requires
        scalar_ok(sc),
    ensures
        r == item_typed(sc, it@),
{
    match (sc, it) {
        (Scalar::Int { kind, bits }, Item::Int(v)) => int_fits_exec(kind, bits, *v),
        (Scalar::Bool, Item::Bool(_)) => true,
        (Scalar::Float, Item::Float(_)) => true,
        (Scalar::Text, Item::Text(_)) => true,
        (Scalar::Ascii, Item::Text(_)) => true,
        _ => false,
    }
}

fn items_typed_exec(sc: Scalar, items: &Vec<Item>) -> (r: bool)
    requires
        scalar_ok(sc),
    ensures
        r == items_typed(sc, items_view(items@)),
{
    let ghost iv = items_view(items@);
    let mut i: usize = 0;
    while i < items.len()
        invariant
            scalar_ok(sc),
            iv == items_view(items@),
            i <= iv.len(),
            forall|k: int| 0 <= k < i ==> #[trigger] item_typed(sc, iv[k]),
        decreases iv.len() - i,
    {
        assert(iv[i as int] == items@[i as int]@);
        if !item_typed_exec(sc, &items[i]) {
            return false;
        }
        i = i + 1;
    }
    true
}

/// Whether a field value has the plan's type.
pub fn value_typed_exec(sh: Shape, v: &Value) -> (r: bool)
    requires
        scalar_ok(fp_elem(FieldPlan { shape: sh, aligned: false })),
    ensures
        r == value_typed(sh, v@),
{
    match (sh, v) {
        (Shape::Single(s), Value::One(it)) => item_typed_exec(s, it),
        (Shape::Fixed { elem, count }, Value::Many(items)) => items.len() == count
            && items_typed_exec(elem, items),
        (Shape::List { elem, .. }, Value::Many(items)) => items_typed_exec(elem, items),
        _ => false,
    }
}

/// Whether a list of fields is well formed.
pub fn fields_plan_ok_exec(fps: &Vec<FieldPlan>) -> (r: bool)
    ensures
        r == fields_plan_ok(fps@),
{
    let mut i: usize = 0;
    while i < fps.len()
        invariant
            i <= fps@.len(),
            forall|k: int| 0 <= k < i ==> #[trigger] field_plan_ok(fps@[k], fps@.take(k)),
        decreases fps@.len() - i,
    {
        let ok = match fps[i].shape {
            Shape::Single(s) => scalar_elem_ok(s),
            Shape::Fixed { elem, .. } => scalar_elem_ok(elem),
            Shape::List { elem, length } => scalar_elem_ok(elem) && length < i && match fps[length].shape {
                Shape::Single(Scalar::Int { kind, .. }) => !kind_is_signed(kind),
                _ => false,
            },
        };
        assert(ok == field_plan_ok(fps@[i as int], fps@.take(i as int)));
        if !ok {
            return false;
        }
        i = i + 1;
    }
    true
}

/// Whether an element encoding is well formed: an integer takes 1 to 64 bits.
fn scalar_elem_ok(s: Scalar) -> (r: bool)
    ensures
        r == scalar_ok(s),
{
    match s {
        Scalar::Int { bits, .. } => 1 <= bits && bits <= 64,
        _ => true,
    }
}

fn kind_is_signed(k: IntKind) -> (r: bool)
    ensures
        r == is_signed(k),
{
    match k {
        IntKind::I8 | IntKind::I16 | IntKind::I32 | IntKind::I64 => true,
        _ => false,
    }
}

/// Whether a member is a plain unsigned integer field.
fn is_length_member_exec(m: &MemberPlan) -> (r: bool)
    ensures
        r == is_length_member(m@),
{
    match m {
        MemberPlan::Field(fp) => match fp.shape {
            Shape::Single(Scalar::Int { kind, .. }) => !kind_is_signed(kind),
            _ => false,
        },
        _ => false,
    }
}

/// Whether a member is a plain integer field.
fn is_int_member_exec(m: &MemberPlan) -> (r: bool)
    ensures
        r == is_int_member(m@),
{
    match m {
        MemberPlan::Field(fp) => match fp.shape {
            Shape::Single(Scalar::Int { .. }) => true,
            _ => false,
        },
        _ => false,
    }
}

fn variants_plan_ok_exec(variants: &Vec<Vec<FieldPlan>>) -> (r: bool)
    ensures
        r == forall|k: int|
            0 <= k < variants_view(variants@).len() ==> #[trigger] fields_plan_ok(
                variants_view(variants@)[k],
            ),
{
    let ghost vp = variants_view(variants@);
    let mut i: usize = 0;
    while i < variants.len()
        invariant
            vp == variants_view(variants@),
            i <= variants@.len(),
            forall|k: int| 0 <= k < i ==> #[trigger] fields_plan_ok(vp[k]),
        decreases variants@.len() - i,
    {
        assert(vp[i as int] == variants@[i as int]@);
        if !fields_plan_ok_exec(&variants[i]) {
            return false;
        }
        i = i + 1;
    }
    true
}

impl RecordPlan {
    /// Whether the plan is well formed: integer widths lie in 1 to 64 bits,
    /// each list's length names an earlier plain unsigned integer field, and
    /// each union's discriminant names an earlier plain integer field.
    pub fn is_well_formed(&self) -> (r: bool)
        ensures
            r == record_plan_ok(self@),
    {
        let ghost ms = self@;
        let mut i: usize = 0;
        while i < self.members.len()
            invariant
                ms == self@,
                ms.len() == self.members@.len(),
                i <= ms.len(),
                forall|k: int| 0 <= k < i ==> #[trigger] member_plan_ok(ms[k], ms.take(k)),
            decreases ms.len() - i,
        {
            let m = &self.members[i];
            assert(ms[i as int] == m@);
            let ok = match m {
                MemberPlan::Field(fp) => match fp.shape {
                    Shape::List { elem, length } => {
                        if length < i {
                            assert(ms.take(i as int)[length as int] == self.members@[length as int]@);
                        }
                        scalar_elem_ok(elem) && length < i && is_length_member_exec(
                            &self.members[length],
                        )
                    },
                    Shape::Single(s) => scalar_elem_ok(s),
                    Shape::Fixed { elem, .. } => scalar_elem_ok(elem),
                },
                MemberPlan::Union { variant, variants, .. } => {
                    proof {
                        lemma_union_plan(ms[i as int], ms.take(i as int));
                    }
                    if *variant < i {
                        assert(ms.take(i as int)[*variant as int] == self.members@[*variant as int]@);
                    }
                    *variant < i && is_int_member_exec(&self.members[*variant])
                        && variants_plan_ok_exec(variants)
                },
            };
            assert(ok == member_plan_ok(ms[i as int], ms.take(i as int)));
            if !ok {
                return false;
            }
            i = i + 1;
        }
        true
    }

    /// Whether `rec` has the plan's type: one value per member, each of its
    /// field's type, integers within their type and packed width, and a
    /// union's fields of its variant's types.
    pub fn fits(&self, rec: &Record) -> (r: bool)
        requires
            record_plan_ok(self@),
        ensures
            r == record_typed(self@, rec@),
    {
        let ghost ms = self@;
        let ghost vv = rec@;
        if rec.members.len() != self.members.len() {
            return false;
        }
        let mut i: usize = 0;
        while i < rec.members.len()
            invariant
                ms == self@,
                vv == rec@,
                ms.len() == self.members@.len(),
                vv.len() == rec.members@.len(),
                ms.len() == vv.len(),
                record_plan_ok(ms),
                i <= vv.len(),
                forall|k: int| 0 <= k < i ==> #[trigger] member_typed(ms[k], vv[k]),
            decreases vv.len() - i,
        {
            assert(member_plan_ok(ms[i as int], ms.take(i as int)));
            assert(ms[i as int] == self.members@[i as int]@);
            assert(vv[i as int] == rec.members@[i as int]@);
            let ok = match (&self.members[i], &rec.members[i]) {
                (MemberPlan::Field(fp), Member::Field(v)) => value_typed_exec(fp.shape, v),
                (MemberPlan::Union { variants, .. }, Member::Union(k, fs)) => {
                    if *k < variants.len() {
                        let ghost vp = variants_view(variants@);
                        proof {
                            lemma_union_plan(ms[i as int], ms.take(i as int));
                        }
                        assert(vp.len() == variants@.len());
                        assert(vp[*k as int] == variants@[*k as int]@);
                        assert(fields_plan_ok(vp[*k as int]));
                        fields_typed_exec(&variants[*k], fs)
                    } else {
                        true
                    }
                },
                _ => false,
            };
            assert(ok == member_typed(ms[i as int], vv[i as int]));
            if !ok {
                return false;
            }
            i = i + 1;
        }
        true
    }
}

/// Whether field values have a list of fields' types.
pub fn fields_typed_exec(fps: &Vec<FieldPlan>, vs: &Vec<Value>) -> (r: bool)
    requires
        fields_plan_ok(fps@),
    ensures
        r == fields_typed(fps@, values_view(vs@)),
{
    let ghost vv = values_view(vs@);
    if vs.len() != fps.len() {
        return false;
    }
    let mut i: usize = 0;
    while i < vs.len()
        invariant
            vv == values_view(vs@),
            fields_plan_ok(fps@),
            fps@.len() == vs@.len(),
            i <= vv.len(),
            forall|k: int| 0 <= k < i ==> #[trigger] value_typed(fps@[k].shape, vv[k]),
        decreases vv.len() - i,
    {
        assert(field_plan_ok(fps@[i as int], fps@.take(i as int)));
        assert(vv[i as int] == vs@[i as int]@);
        if !value_typed_exec(fps[i].shape, &vs[i]) {
            return false;
        }
        i = i + 1;
    }
    true
}

} // verus!
