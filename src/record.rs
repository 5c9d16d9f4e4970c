//! Decoding and encoding whole records by their plans, with the checks that
//! encoding makes before it writes anything.
use crate::decode::{int_of, member_int};
use crate::encode::{fields_writable, member_writable, record_writable, value_writable};
use crate::reader::BitPackReader;
use crate::schema::{
    parse_fields, fields_wire,
    variants_view, field_plan_ok, fields_framable, items_framable, fields_lengths_ok,
    fields_plan_ok, fields_typed, item_framable, items_view, member_framable, member_lengths_ok,
    member_plan_ok, member_typed, member_variant_ok, parse_record, record_check,
    record_framable, record_lengths_ok, record_plan_ok, record_typed, record_variants_ok,
    record_wire, value_framable, value_length_ok, value_typed, values_view, FieldPlan, Item,
    Member, MemberPlan, MemberPlanV, MemberV, Record, RecordPlan, Scalar, Shape, Value, ValueV,
};
use crate::strings::all_ascii;
use crate::utf16::encode_utf16;
use crate::writer::BitPackWriter;
use crate::BitPackError;
use vstd::prelude::*;

verus! {

/// Whether a string element can be framed.
pub fn item_framable_exec(sc: Scalar, it: &Item) -> (r: bool)
    ensures
        r == item_framable(sc, it@),
{
    match (sc, it) {
        (Scalar::Text, Item::Text(s)) => encode_utf16(s.as_str()).len() < 0x8000,
        (Scalar::Ascii, Item::Text(s)) => {
            let u = encode_utf16(s.as_str());
            u.len() < 0x8000 && all_ascii(&u)
        },
        _ => true,
    }
}

/// Whether every string in a field value can be framed.
pub fn value_framable_exec(sh: Shape, v: &Value) -> (r: bool)
    ensures
        r == value_framable(sh, v@),
{
    match (sh, v) {
        (Shape::Single(s), Value::One(it)) => item_framable_exec(s, it),
        (Shape::Fixed { elem, .. }, Value::Many(items)) => {
            items_framable_exec(elem, items)
        },
        (Shape::List { elem, .. }, Value::Many(items)) => {
            items_framable_exec(elem, items)
        },
        _ => true,
    }
}

fn items_framable_exec(sc: Scalar, items: &Vec<Item>) -> (r: bool)
    ensures
        r == items_framable(sc, items_view(items@)),
{
    let ghost iv = items_view(items@);
    let mut i: usize = 0;
    while i < items.len()
        invariant
            iv == items_view(items@),
            i <= iv.len(),
            forall|k: int| 0 <= k < i ==> #[trigger] item_framable(sc, iv[k]),
        decreases iv.len() - i,
    {
        assert(iv[i as int] == items@[i as int]@);
        if !item_framable_exec(sc, &items[i]) {
            return false;
        }
        i = i + 1;
    }
    true
}

/// Whether every string in a list of fields can be framed.
pub fn fields_framable_exec(fps: &Vec<FieldPlan>, vs: &Vec<Value>) -> (r: bool)
    requires
        fps@.len() == vs@.len(),
    ensures
        r == fields_framable(fps@, values_view(vs@)),
{
    let ghost vv = values_view(vs@);
    let mut i: usize = 0;
    while i < vs.len()
        invariant
            vv == values_view(vs@),
            fps@.len() == vs@.len(),
            i <= vv.len(),
            forall|k: int| 0 <= k < i ==> #[trigger] value_framable(fps@[k].shape, vv[k]),
        decreases vv.len() - i,
    {
        assert(vv[i as int] == vs@[i as int]@);
        if !value_framable_exec(fps[i].shape, &vs[i]) {
            return false;
        }
        i = i + 1;
    }
    true
}

/// Whether each list among a list of fields matches its length field.
pub fn fields_lengths_exec(fps: &Vec<FieldPlan>, vs: &Vec<Value>) -> (r: bool)
    requires
        fields_plan_ok(fps@),
        fps@.len() == vs@.len(),
    ensures
        r == fields_lengths_ok(fps@, values_view(vs@)),
{
    let ghost vv = values_view(vs@);
    let mut i: usize = 0;
    while i < vs.len()
        invariant
            vv == values_view(vs@),
            fields_plan_ok(fps@),
            fps@.len() == vs@.len(),
            i <= vv.len(),
            forall|k: int| 0 <= k < i ==> #[trigger] value_length_ok(fps@[k].shape, vv[k], vv.take(k)),
        decreases vv.len() - i,
    {
        assert(field_plan_ok(fps@[i as int], fps@.take(i as int)));
        assert(vv[i as int] == vs@[i as int]@);
        let ok = match (fps[i].shape, &vs[i]) {
            (Shape::List { length, .. }, Value::Many(items)) => {
                assert(vv.take(i as int)[length as int] == vs@[length as int]@);
                items.len() as i128 == int_of(&vs[length])
            },
            _ => true,
        };
        assert(ok == value_length_ok(fps@[i as int].shape, vv[i as int], vv.take(i as int)));
        if !ok {
            return false;
        }
        i = i + 1;
    }
    true
}

impl RecordPlan {
    /// Whether each list matches its length field.
    pub fn lengths_ok(&self, rec: &Record) -> (r: bool)
        requires
            record_plan_ok(self@),
            record_typed(self@, rec@),
        ensures
            r == record_lengths_ok(self@, rec@),
    {
        let ghost ms = self@;
        let ghost vv = rec@;
        let mut i: usize = 0;
        while i < rec.members.len()
            invariant
                ms == self@,
                vv == rec@,
                ms.len() == self.members@.len(),
                vv.len() == rec.members@.len(),
                record_plan_ok(ms),
                record_typed(ms, vv),
                i <= vv.len(),
                forall|k: int| 0 <= k < i ==> #[trigger] member_lengths_ok(ms[k], vv[k], vv.take(k)),
            decreases vv.len() - i,
        {
            assert(member_plan_ok(ms[i as int], ms.take(i as int)));
            assert(member_typed(ms[i as int], vv[i as int]));
            let ok = match (&self.members[i], &rec.members[i]) {
                (MemberPlan::Field(fp), Member::Field(Value::Many(items))) => match fp.shape {
                    Shape::List { length, .. } => {
                        assert(vv.take(i as int)[length as int] == rec.members@[length as int]@);
                        items.len() as i128 == member_int(&rec.members[length])
                    },
                    _ => true,
                },
                (MemberPlan::Union { variants, .. }, Member::Union(k, fs)) => {
                    if *k < variants.len() {
                        let ghost vp = variants_view(variants@);
                        assert(vp[*k as int] == variants@[*k as int]@);
                        fields_lengths_exec(&variants[*k], fs)
                    } else {
                        true
                    }
                },
                _ => true,
            };
            assert(ok == member_lengths_ok(ms[i as int], vv[i as int], vv.take(i as int)));
            if !ok {
                return false;
            }
            i = i + 1;
        }
        true
    }

    /// Whether each union's variant index is its discriminant's value and
    /// names a variant.
    pub fn variants_ok(&self, rec: &Record) -> (r: bool)
        requires
            record_plan_ok(self@),
            record_typed(self@, rec@),
        ensures
            r == record_variants_ok(self@, rec@),
    {
        let ghost ms = self@;
        let ghost vv = rec@;
        let mut i: usize = 0;
        while i < rec.members.len()
            invariant
                ms == self@,
                vv == rec@,
                ms.len() == self.members@.len(),
                vv.len() == rec.members@.len(),
                record_plan_ok(ms),
                record_typed(ms, vv),
                i <= vv.len(),
                forall|k: int| 0 <= k < i ==> #[trigger] member_variant_ok(ms[k], vv[k], vv.take(k)),
            decreases vv.len() - i,
        {
            assert(member_plan_ok(ms[i as int], ms.take(i as int)));
            assert(member_typed(ms[i as int], vv[i as int]));
            let ok = match (&self.members[i], &rec.members[i]) {
                (MemberPlan::Union { variant, variants, .. }, Member::Union(k, _)) => {
                    assert(vv.take(i as int)[*variant as int] == rec.members@[*variant as int]@);
                    *k < variants.len() && *k as i128 == member_int(&rec.members[*variant])
                },
                _ => true,
            };
            assert(ok == member_variant_ok(ms[i as int], vv[i as int], vv.take(i as int)));
            if !ok {
                return false;
            }
            i = i + 1;
        }
        true
    }

    /// Whether every string of the record can be framed.
    pub fn framable(&self, rec: &Record) -> (r: bool)
        requires
            record_typed(self@, rec@),
        ensures
            r == record_framable(self@, rec@),
    {
        let ghost ms = self@;
        let ghost vv = rec@;
        let mut i: usize = 0;
        while i < rec.members.len()
            invariant
                ms == self@,
                vv == rec@,
                ms.len() == self.members@.len(),
                vv.len() == rec.members@.len(),
                record_typed(ms, vv),
                i <= vv.len(),
                forall|k: int| 0 <= k < i ==> #[trigger] member_framable(ms[k], vv[k]),
            decreases vv.len() - i,
        {
            assert(member_typed(ms[i as int], vv[i as int]));
            let ok = match (&self.members[i], &rec.members[i]) {
                (MemberPlan::Field(fp), Member::Field(v)) => value_framable_exec(fp.shape, v),
                (MemberPlan::Union { variants, .. }, Member::Union(k, fs)) => {
                    if *k < variants.len() {
                        let ghost vp = variants_view(variants@);
                        assert(vp[*k as int] == variants@[*k as int]@);
                        fields_framable_exec(&variants[*k], fs)
                    } else {
                        true
                    }
                },
                _ => true,
            };
            assert(ok == member_framable(ms[i as int], vv[i as int]));
            if !ok {
                return false;
            }
            i = i + 1;
        }
        true
    }

    /// Decodes a record from `reader`: each member in order, aligning first
    /// where the plan says so, a list as long as its length field says, and a
    /// union in the variant that its discriminant selects.
    pub fn decode(&self, reader: &mut BitPackReader) -> (r: Result<Record, BitPackError>)
        requires
            record_plan_ok(self@),
        ensures
            final(reader).buffer() == old(reader).buffer(),
            match parse_record(self@, old(reader).stream(), old(reader).pos() as int) {
                Ok((vs, q)) => r matches Ok(rec) && rec@ == vs && final(reader).pos() == q,
                Err(e) => r == Err::<Record, BitPackError>(e),
            },
    {
        reader.read_record(self)
    }

    /// Encodes `rec` into `writer`. A list that disagrees with its length
    /// field, a union whose variant does not match its discriminant, and a
    /// string that cannot be framed are reported, in that order, before
    /// anything is written; a record that does not fit is reported as
    /// [`BitPackError::OutOfBounds`].
    pub fn encode(&self, writer: &mut BitPackWriter, rec: &Record) -> (r: Result<(), BitPackError>)
        requires
            old(writer).wf(),
            record_plan_ok(self@),
            record_typed(self@, rec@),
        ensures
            final(writer).wf(),
            final(writer).buffer().len() == old(writer).buffer().len(),
            record_check(self@, rec@) matches Err(e) ==> r == Err::<(), BitPackError>(e)
                && *final(writer) == *old(writer),
            record_check(self@, rec@) is Ok ==> {
                let w = record_wire(self@, rec@, old(writer).pos() as int);
                &&& old(writer).has(w.len()) ==> r is Ok && final(writer).wrote(old(writer), w)
                &&& !old(writer).has(w.len()) ==> r == Err::<(), BitPackError>(
                    BitPackError::OutOfBounds,
                )
            },
    {
        if !self.lengths_ok(rec) {
            return Err(BitPackError::LengthMismatch);
        }
        if !self.variants_ok(rec) {
            return Err(BitPackError::InvalidUnionVariant);
        }
        if !self.framable(rec) {
            return Err(BitPackError::InvalidStringEncoding);
        }
        proof {
            lemma_record_writable(self@, rec@);
        }
        writer.write_record(self, rec)
    }
}

/// The encoding plan of a union on its own: one list of fields per variant,
/// chosen by a 0-based variant index that lives outside the union's bits.
#[derive(Debug, Clone)]
pub struct UnionPlan {
    pub variants: Vec<Vec<FieldPlan>>,
}

impl View for UnionPlan {
    type V = Seq<Seq<FieldPlan>>;

    open spec fn view(&self) -> Seq<Seq<FieldPlan>> {
        variants_view(self.variants@)
    }
}

/// Every variant of a union plan is a well-formed list of fields.
pub open spec fn union_plan_ok(vs: Seq<Seq<FieldPlan>>) -> bool {
    forall|k: int| 0 <= k < vs.len() ==> #[trigger] fields_plan_ok(vs[k])
}

impl UnionPlan {
    /// Decodes the fields of variant `variant`; an index that names no
    /// variant is reported as [`BitPackError::InvalidUnionVariant`].
    pub fn decode(&self, reader: &mut BitPackReader, variant: usize) -> (r: Result<
        Vec<Value>,
        BitPackError,
    >)
        requires
            union_plan_ok(self@),
        ensures
            final(reader).buffer() == old(reader).buffer(),
            variant >= self@.len() ==> r == Err::<Vec<Value>, BitPackError>(
                BitPackError::InvalidUnionVariant,
            ),
            variant < self@.len() ==> match parse_fields(
                self@[variant as int],
                old(reader).stream(),
                old(reader).pos() as int,
            ) {
                Ok((vs, q)) => r matches Ok(v) && values_view(v@) == vs && final(reader).pos() == q,
                Err(e) => r == Err::<Vec<Value>, BitPackError>(e),
            },
    {
        if variant >= self.variants.len() {
            return Err(BitPackError::InvalidUnionVariant);
        }
        assert(self@[variant as int] == self.variants@[variant as int]@);
        reader.read_fields(&self.variants[variant])
    }

    /// Encodes `fields` as variant `variant`. An index that names no variant,
    /// a list that disagrees with its length field, and a string that cannot
    /// be framed are reported, in that order, before anything is written.
    pub fn encode(&self, writer: &mut BitPackWriter, variant: usize, fields: &Vec<Value>) -> (r:
        Result<(), BitPackError>)
        requires
            old(writer).wf(),
            union_plan_ok(self@),
            variant < self@.len() ==> fields_typed(self@[variant as int], values_view(fields@)),
        ensures
            final(writer).wf(),
            final(writer).buffer().len() == old(writer).buffer().len(),
            variant >= self@.len() ==> r == Err::<(), BitPackError>(
                BitPackError::InvalidUnionVariant,
            ) && *final(writer) == *old(writer),
            variant < self@.len() ==> {
                let fps = self@[variant as int];
                let vs = values_view(fields@);
                let w = fields_wire(fps, vs, old(writer).pos() as int);
                &&& !fields_lengths_ok(fps, vs) ==> r == Err::<(), BitPackError>(
                    BitPackError::LengthMismatch,
                ) && *final(writer) == *old(writer)
                &&& fields_lengths_ok(fps, vs) && !fields_framable(fps, vs) ==> r == Err::<
                    (),
                    BitPackError,
                >(BitPackError::InvalidStringEncoding) && *final(writer) == *old(writer)
                &&& fields_lengths_ok(fps, vs) && fields_framable(fps, vs) ==> {
                    &&& old(writer).has(w.len()) ==> r is Ok && final(writer).wrote(old(writer), w)
                    &&& !old(writer).has(w.len()) ==> r == Err::<(), BitPackError>(
                        BitPackError::OutOfBounds,
                    )
                }
            },
    {
        if variant >= self.variants.len() {
            return Err(BitPackError::InvalidUnionVariant);
        }
        assert(self@[variant as int] == self.variants@[variant as int]@);
        let fps = &self.variants[variant];
        if !fields_lengths_exec(fps, fields) {
            return Err(BitPackError::LengthMismatch);
        }
        if !fields_framable_exec(fps, fields) {
            return Err(BitPackError::InvalidStringEncoding);
        }
        proof {
            lemma_fields_writable(fps@, values_view(fields@));
        }
        writer.write_fields(fps, fields)
    }
}

impl Member {
    /// The 0-based variant index of a union member, if it is one.
    pub fn variant(&self) -> (r: Option<usize>)
        ensures
            r == match self@ {
                MemberV::Union(k, _) => Some(k as usize),
                _ => None::<usize>,
            },
    {
        match self {
            Member::Union(k, _) => Some(*k),
            _ => None,
        }
    }
}

/// A value of the plan's type whose strings can be framed is one a writer
/// takes as it is.
proof fn lemma_value_writable(fp: FieldPlan, v: ValueV)
    requires
        crate::decode::fp_scalar_ok(fp),
        value_typed(fp.shape, v),
        value_framable(fp.shape, v),
    ensures
        value_writable(fp.shape, v),
{
}

proof fn lemma_fields_writable(fps: Seq<FieldPlan>, vs: Seq<ValueV>)
    requires
        fields_plan_ok(fps),
        fields_typed(fps, vs),
        fields_framable(fps, vs),
    ensures
        fields_writable(fps, vs),
{
    assert forall|i: int| 0 <= i < fps.len() implies #[trigger] crate::decode::fp_scalar_ok(fps[i])
        && value_writable(fps[i].shape, vs[i]) by {
        assert(field_plan_ok(fps[i], fps.take(i)));
        assert(value_typed(fps[i].shape, vs[i]));
        assert(value_framable(fps[i].shape, vs[i]));
        lemma_value_writable(fps[i], vs[i]);
    }
}

proof fn lemma_record_writable(ms: Seq<MemberPlanV>, vs: Seq<MemberV>)
    requires
        record_plan_ok(ms),
        record_typed(ms, vs),
        record_check(ms, vs) is Ok,
    ensures
        record_writable(ms, vs),
{
    assert forall|i: int| 0 <= i < ms.len() implies #[trigger] member_writable(ms[i], vs[i]) by {
        assert(member_plan_ok(ms[i], ms.take(i)));
        assert(member_typed(ms[i], vs[i]));
        assert(member_variant_ok(ms[i], vs[i], vs.take(i)));
        assert(member_framable(ms[i], vs[i]));
        match (ms[i], vs[i]) {
            (MemberPlanV::Field(fp), MemberV::Field(fv)) => {
                lemma_value_writable(fp, fv);
            },
            (MemberPlanV::Union { variants, .. }, MemberV::Union(k, fs)) => {
                assert(fields_plan_ok(variants[k as int]));
                lemma_fields_writable(variants[k as int], fs);
            },
            _ => {},
        }
    }
}

} // verus!
