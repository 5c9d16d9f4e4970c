//! Decoding records, unions and their fields from a bit reader.
use crate::reader::BitPackReader;
use crate::schema::{
    variants_view, count_of, field_plan_ok, field_value, fields_plan_ok, int_value,
    member_length, member_plan_ok, native, parse_fields, parse_items, parse_member,
    parse_record, parse_scalar, parse_value, record_plan_ok, scalar_ok, shape_length, FieldPlan,
    IntKind, Item, ItemV, Member, MemberPlan, MemberPlanV, MemberV, Record, RecordPlan, Scalar,
    Shape, Value, ValueV, items_view, members_view, values_view,
};
use crate::strings::string_scalar;
use crate::BitPackError;
use vstd::arithmetic::power2::{lemma2_to64, lemma2_to64_rest, pow2};
use vstd::prelude::*;

verus! {

/// What a field of type `kind` holds once `u` was read.
pub fn native_of(kind: IntKind, u: u64) -> (r: i128)
    ensures
        r == native(kind, u as nat),
{
    proof {
        lemma2_to64();
        lemma2_to64_rest();
    }
    match kind {
        IntKind::U8 => (u % 0x100) as i128,
        IntKind::I8 => {
            let t = u % 0x100;
            if t >= 0x80 {
                t as i128 - 0x100
            } else {
                t as i128
            }
        },
        IntKind::U16 => (u % 0x1_0000) as i128,
        IntKind::I16 => {
            let t = u % 0x1_0000;
            if t >= 0x8000 {
                t as i128 - 0x1_0000
            } else {
                t as i128
            }
        },
        IntKind::U32 => (u % 0x1_0000_0000) as i128,
        IntKind::I32 => {
            let t = u % 0x1_0000_0000;
            if t >= 0x8000_0000 {
                t as i128 - 0x1_0000_0000
            } else {
                t as i128
            }
        },
        IntKind::U64 => {
            assert(u as nat % pow2(64) == u as nat);
            u as i128
        },
        IntKind::I64 => {
            assert(u as nat % pow2(64) == u as nat);
            if u >= 0x8000_0000_0000_0000 {
                u as i128 - 0x1_0000_0000_0000_0000
            } else {
                u as i128
            }
        },
    }
}

/// The integer a plain integer field holds, or 0.
pub fn int_of(v: &Value) -> (r: i128)
    ensures
        r == int_value(v@),
{
    match v {
        Value::One(Item::Int(x)) => *x,
        _ => 0,
    }
}

/// Once decoding elements fails, decoding more of them fails the same way.
pub proof fn lemma_parse_items_err(sc: Scalar, s: Seq<bool>, p: int, k: nat, n: nat)
    requires
        k <= n,
        parse_items(sc, s, p, k) is Err,
    ensures
        parse_items(sc, s, p, n) == parse_items(sc, s, p, k),
    decreases n,
{
    if n > k {
        lemma_parse_items_err(sc, s, p, k, (n - 1) as nat);
    }
}

impl<'a> BitPackReader<'a> {
    /// Reads one element.
    pub fn read_scalar(&mut self, sc: Scalar) -> (r: Result<Item, BitPackError>)
        requires
            scalar_ok(sc),
        ensures
            final(self).buffer() == old(self).buffer(),
            match parse_scalar(sc, old(self).stream(), old(self).pos() as int) {
                Ok((it, q)) => r matches Ok(x) && x@ == it && final(self).pos() == q,
                Err(e) => r == Err::<Item, BitPackError>(e),
            },
    {
        match sc {
            Scalar::Int { kind, bits } => match self.read_u64(bits) {
                Ok(u) => Ok(Item::Int(native_of(kind, u))),
                Err(e) => Err(e),
            },
            Scalar::Bool => match self.read_bit() {
                Ok(b) => Ok(Item::Bool(b)),
                Err(e) => Err(e),
            },
            Scalar::Float => match self.read_u64(32) {
                Ok(u) => {
                    proof {
                        lemma2_to64();
                        crate::bits::lemma_uint_of_bound(
                            old(self).stream().subrange(
                                old(self).pos() as int,
                                old(self).pos() + 32int,
                            ),
                        );
                    }
                    Ok(Item::Float(u as u32))
                },
                Err(e) => Err(e),
            },
            Scalar::Text => {
                assert(string_scalar(true) == sc);
                match self.read_string(true) {
                    Ok(s) => Ok(Item::Text(s)),
                    Err(e) => Err(e),
                }
            },
            Scalar::Ascii => {
                assert(string_scalar(false) == sc);
                match self.read_string(false) {
                    Ok(s) => Ok(Item::Text(s)),
                    Err(e) => Err(e),
                }
            },
        }
    }

    /// Reads `n` elements, none if `n` is negative.
    pub fn read_items(&mut self, sc: Scalar, n: i128) -> (r: Result<Vec<Item>, BitPackError>)
        requires
            scalar_ok(sc),
        ensures
            final(self).buffer() == old(self).buffer(),
            match parse_items(sc, old(self).stream(), old(self).pos() as int, count_of(n as int)) {
                Ok((items, q)) => r matches Ok(v) && items_view(v@) == items && final(self).pos()
                    == q,
                Err(e) => r == Err::<Vec<Item>, BitPackError>(e),
            },
    {
        let ghost s0 = self.stream();
        let ghost p0 = self.pos() as int;
        let mut items: Vec<Item> = Vec::new();
        let mut i: i128 = 0;
        assert(items_view(items@) =~= Seq::<ItemV>::empty());
        while i < n
            invariant
                scalar_ok(sc),
                self.buffer() == old(self).buffer(),
                s0 == old(self).stream(),
                p0 == old(self).pos(),
                0 <= i,
                n > 0 ==> i <= n,
                n <= 0 ==> i == 0,
                parse_items(sc, s0, p0, i as nat) == Ok::<(Seq<ItemV>, int), BitPackError>(
                    (items_view(items@), self.pos() as int),
                ),
            decreases n - i,
        {
            let ghost before = self.pos() as int;
            let x = match self.read_scalar(sc) {
                Ok(x) => x,
                Err(e) => {
                    proof {
                        assert(((i + 1) as nat - 1) as nat == i as nat);
                        assert(parse_items(sc, s0, p0, (i + 1) as nat) == Err::<
                            (Seq<ItemV>, int),
                            BitPackError,
                        >(e));
                        lemma_parse_items_err(sc, s0, p0, (i + 1) as nat, count_of(n as int));
                    }
                    return Err(e);
                },
            };
            let ghost xv = x@;
            let ghost prev = items@;
            items.push(x);
            proof {
                assert(items@.drop_last() == prev);
                assert(items_view(items@) =~= items_view(prev).push(xv));
                assert(((i + 1) as nat - 1) as nat == i as nat);
            }
            i = i + 1;
        }
        assert(count_of(n as int) == i as nat);
        Ok(items)
    }

    /// Reads a field whose length field holds `n`: its padding, then its shape.
    pub fn read_value(&mut self, fp: FieldPlan, n: i128) -> (r: Result<Value, BitPackError>)
        requires
            fp_scalar_ok(fp),
        ensures
            final(self).buffer() == old(self).buffer(),
            match parse_value(fp, old(self).stream(), old(self).pos() as int, n as int) {
                Ok((v, q)) => r matches Ok(x) && x@ == v && final(self).pos() == q,
                Err(e) => r == Err::<Value, BitPackError>(e),
            },
    {
        if fp.aligned {
            match self.align() {
                Ok(()) => {},
                Err(e) => {
                    return Err(e);
                },
            }
        }
        match fp.shape {
            Shape::Single(sc) => match self.read_scalar(sc) {
                Ok(x) => Ok(Value::One(x)),
                Err(e) => Err(e),
            },
            Shape::Fixed { elem, count } => match self.read_items(elem, count as i128) {
                Ok(v) => Ok(Value::Many(v)),
                Err(e) => Err(e),
            },
            Shape::List { elem, .. } => match self.read_items(elem, n) {
                Ok(v) => Ok(Value::Many(v)),
                Err(e) => Err(e),
            },
        }
    }
}

/// Once decoding a list of fields fails, decoding the whole list fails the same way.
pub proof fn lemma_parse_fields_err(fps: Seq<FieldPlan>, s: Seq<bool>, p: int, k: int)
    requires
        0 <= k <= fps.len(),
        parse_fields(fps.take(k), s, p) is Err,
    ensures
        parse_fields(fps, s, p) == parse_fields(fps.take(k), s, p),
    decreases fps.len(),
{
    if k < fps.len() {
        assert(fps.drop_last().take(k) =~= fps.take(k));
        lemma_parse_fields_err(fps.drop_last(), s, p, k);
    } else {
        assert(fps.take(k) =~= fps);
    }
}

/// Once decoding a record's first members fails, decoding the record fails the same way.
pub proof fn lemma_parse_record_err(ms: Seq<MemberPlanV>, s: Seq<bool>, p: int, k: int)
    requires
        0 <= k <= ms.len(),
        parse_record(ms.take(k), s, p) is Err,
    ensures
        parse_record(ms, s, p) == parse_record(ms.take(k), s, p),
    decreases ms.len(),
{
    if k < ms.len() {
        assert(ms.drop_last().take(k) =~= ms.take(k));
        lemma_parse_record_err(ms.drop_last(), s, p, k);
    } else {
        assert(ms.take(k) =~= ms);
    }
}

/// The integer a member holds if it is a plain integer field, or 0.
pub fn member_int(m: &Member) -> (r: i128)
    ensures
        r == int_value(field_value(m@)),
{
    match m {
        Member::Field(v) => int_of(v),
        Member::Union(..) => 0,
    }
}

impl<'a> BitPackReader<'a> {
    /// Reads a list of fields in order.
    pub fn read_fields(&mut self, fps: &Vec<FieldPlan>) -> (r: Result<Vec<Value>, BitPackError>)
        requires
            fields_plan_ok(fps@),
        ensures
            final(self).buffer() == old(self).buffer(),
            match parse_fields(fps@, old(self).stream(), old(self).pos() as int) {
                Ok((vs, q)) => r matches Ok(v) && values_view(v@) == vs && final(self).pos() == q,
                Err(e) => r == Err::<Vec<Value>, BitPackError>(e),
            },
    {
        let ghost s0 = self.stream();
        let ghost p0 = self.pos() as int;
        let mut values: Vec<Value> = Vec::new();
        let mut i: usize = 0;
        assert(fps@.take(0) =~= Seq::<FieldPlan>::empty());
        assert(values_view(values@) =~= Seq::<ValueV>::empty());
        while i < fps.len()
            invariant
                fields_plan_ok(fps@),
                self.buffer() == old(self).buffer(),
                s0 == old(self).stream(),
                p0 == old(self).pos(),
                i <= fps@.len(),
                values@.len() == i,
                parse_fields(fps@.take(i as int), s0, p0) == Ok::<(Seq<ValueV>, int), BitPackError>(
                    (values_view(values@), self.pos() as int),
                ),
            decreases fps@.len() - i,
        {
            let fp = fps[i];
            assert(field_plan_ok(fps@[i as int], fps@.take(i as int)));
            let n: i128 = match fp.shape {
                Shape::List { length, .. } => int_of(&values[length]),
                _ => 0,
            };
            assert(n == shape_length(fp.shape, values_view(values@)));
            assert(fps@.take(i + 1).drop_last() =~= fps@.take(i as int));
            let v = match self.read_value(fp, n) {
                Ok(v) => v,
                Err(e) => {
                    proof {
                        lemma_parse_fields_err(fps@, s0, p0, i + 1);
                    }
                    return Err(e);
                },
            };
            let ghost vv = v@;
            let ghost prev = values@;
            values.push(v);
            proof {
                assert(values@.drop_last() == prev);
                assert(values_view(values@) =~= values_view(prev).push(vv));
            }
            i = i + 1;
        }
        assert(fps@.take(i as int) =~= fps@);
        Ok(values)
    }

    /// Reads one member of a record, after the members already read.
    pub fn read_member(&mut self, m: &MemberPlan, members: &Vec<Member>) -> (r: Result<
        Member,
        BitPackError,
    >)
        requires
            member_refs_in(m@, members@.len()),
        ensures
            final(self).buffer() == old(self).buffer(),
            match parse_member(m@, members_view(members@), old(self).stream(), old(self).pos() as int) {
                Ok((v, q)) => r matches Ok(x) && x@ == v && final(self).pos() == q,
                Err(e) => r == Err::<Member, BitPackError>(e),
            },
    {
        let ghost prior = members_view(members@);
        match m {
            MemberPlan::Field(fp) => {
                let n: i128 = match fp.shape {
                    Shape::List { length, .. } => member_int(&members[length]),
                    _ => 0,
                };
                assert(n == member_length(fp.shape, prior));
                match self.read_value(*fp, n) {
                    Ok(v) => Ok(Member::Field(v)),
                    Err(e) => Err(e),
                }
            },
            MemberPlan::Union { variant, aligned, variants } => {
                if *aligned {
                    match self.align() {
                        Ok(()) => {},
                        Err(e) => {
                            return Err(e);
                        },
                    }
                }
                let k = member_int(&members[*variant]);
                if 0 <= k && k < variants.len() as i128 {
                    let ghost vp = variants_view(variants@);
                    assert(vp[k as int] == variants@[k as int]@);
                    match self.read_fields(&variants[k as usize]) {
                        Ok(fs) => Ok(Member::Union(k as usize, fs)),
                        Err(e) => Err(e),
                    }
                } else {
                    Err(BitPackError::InvalidUnionVariant)
                }
            },
        }
    }

    /// Reads a record by its plan: each member in order, aligning first where
    /// the plan says so, a list as long as its length field says, and a union
    /// in the variant that its discriminant selects.
    pub fn read_record(&mut self, plan: &RecordPlan) -> (r: Result<Record, BitPackError>)
        requires
            record_plan_ok(plan@),
        ensures
            final(self).buffer() == old(self).buffer(),
            match parse_record(plan@, old(self).stream(), old(self).pos() as int) {
                Ok((vs, q)) => r matches Ok(rec) && rec@ == vs && final(self).pos() == q,
                Err(e) => r == Err::<Record, BitPackError>(e),
            },
    {
        let ghost s0 = self.stream();
        let ghost p0 = self.pos() as int;
        let ghost ms = plan@;
        let mut members: Vec<Member> = Vec::new();
        let mut i: usize = 0;
        assert(ms.take(0) =~= Seq::<MemberPlanV>::empty());
        assert(members_view(members@) =~= Seq::<MemberV>::empty());
        while i < plan.members.len()
            invariant
                ms == plan@,
                ms.len() == plan.members@.len(),
                record_plan_ok(ms),
                self.buffer() == old(self).buffer(),
                s0 == old(self).stream(),
                p0 == old(self).pos(),
                i <= ms.len(),
                members@.len() == i,
                parse_record(ms.take(i as int), s0, p0) == Ok::<(Seq<MemberV>, int), BitPackError>(
                    (members_view(members@), self.pos() as int),
                ),
            decreases ms.len() - i,
        {
            assert(member_plan_ok(ms[i as int], ms.take(i as int)));
            assert(ms.take(i + 1).drop_last() =~= ms.take(i as int));
            proof {
                lemma_member_refs(ms[i as int], ms.take(i as int));
            }
            let m = match self.read_member(&plan.members[i], &members) {
                Ok(m) => m,
                Err(e) => {
                    proof {
                        lemma_parse_record_err(ms, s0, p0, i + 1);
                    }
                    return Err(e);
                },
            };
            let ghost mv = m@;
            let ghost prev = members@;
            members.push(m);
            proof {
                assert(members@.drop_last() == prev);
                assert(members_view(members@) =~= members_view(prev).push(mv));
            }
            i = i + 1;
        }
        assert(ms.take(i as int) =~= ms);
        Ok(Record { members })
    }
}

/// The earlier members that a member plan names lie among the first `n`,
/// and its element encodings are well formed.
pub open spec fn member_refs_in(m: MemberPlanV, n: nat) -> bool {
    match m {
        MemberPlanV::Field(fp) => match fp.shape {
            Shape::List { elem, length } => scalar_ok(elem) && length < n,
            Shape::Single(s) => scalar_ok(s),
            Shape::Fixed { elem, .. } => scalar_ok(elem),
        },
        MemberPlanV::Union { variant, variants, .. } => variant < n && forall|k: int|
            0 <= k < variants.len() ==> #[trigger] fields_plan_ok(variants[k]),
    }
}

proof fn lemma_member_refs(m: MemberPlanV, prior: Seq<MemberPlanV>)
    requires
        member_plan_ok(m, prior),
    ensures
        member_refs_in(m, prior.len()),
{
}

/// The element encoding of a field.
pub open spec fn fp_elem(fp: FieldPlan) -> Scalar {
    match fp.shape {
        Shape::Single(s) => s,
        Shape::Fixed { elem, .. } => elem,
        Shape::List { elem, .. } => elem,
    }
}

/// The element encoding of a field plan is well formed.
pub open spec fn fp_scalar_ok(fp: FieldPlan) -> bool {
    match fp.shape {
        Shape::Single(s) => scalar_ok(s),
        Shape::Fixed { elem, .. } => scalar_ok(elem),
        Shape::List { elem, .. } => scalar_ok(elem),
    }
}

} // verus!
