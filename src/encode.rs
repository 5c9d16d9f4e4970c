//! Encoding records, unions and their fields into a bit writer.
use crate::bits::{lemma_splice_twice, splice};
use crate::schema::{
    variants_view, field_pad, field_wire, fields_wire, in_range, item_framable, item_typed,
    items_view, items_wire, member_wire, record_wire, scalar_ok, scalar_wire, shape_wire,
    values_view, wire_u64, FieldPlan, IntKind, Item, ItemV, Member, MemberPlan, MemberPlanV,
    MemberV, Record, RecordPlan, Scalar, Shape, Value, ValueV,
};
use crate::decode::fp_scalar_ok;
use crate::strings::string_scalar;
use crate::writer::BitPackWriter;
use crate::BitPackError;
use vstd::arithmetic::div_mod::{lemma_fundamental_div_mod_converse, lemma_small_mod};
use vstd::arithmetic::power2::{lemma2_to64, lemma2_to64_rest, pow2};
use vstd::prelude::*;

verus! {

proof fn lemma_in_range_bound(k: IntKind, v: int)
    requires
        in_range(k, v),
    ensures
        -pow2(64) < v < pow2(64),
{
    lemma2_to64();
    lemma2_to64_rest();
}

/// The 64-bit two's-complement pattern of an integer that fits 64 bits.
pub fn to_wire(v: i128) -> (r: u64)
    requires
        -pow2(64) < v < pow2(64),
    ensures
        r as nat == wire_u64(v as int),
{
    proof {
        lemma2_to64_rest();
    }
    if v < 0 {
        proof {
            lemma_fundamental_div_mod_converse(v as int, pow2(64) as int, -1, v + pow2(64));
        }
        (v + 0x1_0000_0000_0000_0000) as u64
    } else {
        proof {
            lemma_small_mod(v as nat, pow2(64));
        }
        v as u64
    }
}

/// The bits of the first `i` elements are no longer than those of all of them.
pub proof fn lemma_items_wire_prefix(sc: Scalar, items: Seq<ItemV>, i: int)
    requires
        0 <= i <= items.len(),
    ensures
        items_wire(sc, items.take(i)).len() <= items_wire(sc, items).len(),
    decreases items.len(),
{
    if i < items.len() {
        assert(items.drop_last().take(i) =~= items.take(i));
        lemma_items_wire_prefix(sc, items.drop_last(), i);
    } else {
        assert(items.take(i) =~= items);
    }
}

/// The bits of the first `i` fields are no longer than those of all of them.
pub proof fn lemma_fields_wire_prefix(fps: Seq<FieldPlan>, vs: Seq<ValueV>, p: int, i: int)
    requires
        0 <= i <= fps.len(),
        fps.len() == vs.len(),
    ensures
        fields_wire(fps.take(i), vs.take(i), p).len() <= fields_wire(fps, vs, p).len(),
    decreases fps.len(),
{
    if i < fps.len() {
        assert(fps.drop_last().take(i) =~= fps.take(i));
        assert(vs.drop_last().take(i) =~= vs.take(i));
        lemma_fields_wire_prefix(fps.drop_last(), vs.drop_last(), p, i);
    } else {
        assert(fps.take(i) =~= fps);
        assert(vs.take(i) =~= vs);
    }
}

/// The bits of the first `i` members are no longer than those of all of them.
pub proof fn lemma_record_wire_prefix(ms: Seq<MemberPlanV>, vs: Seq<MemberV>, p: int, i: int)
    requires
        0 <= i <= ms.len(),
        ms.len() == vs.len(),
    ensures
        record_wire(ms.take(i), vs.take(i), p).len() <= record_wire(ms, vs, p).len(),
    decreases ms.len(),
{
    if i < ms.len() {
        assert(ms.drop_last().take(i) =~= ms.take(i));
        assert(vs.drop_last().take(i) =~= vs.take(i));
        lemma_record_wire_prefix(ms.drop_last(), vs.drop_last(), p, i);
    } else {
        assert(ms.take(i) =~= ms);
        assert(vs.take(i) =~= vs);
    }
}

proof fn lemma_items_writable(sc: Scalar, items: Seq<Item>)
    requires
        forall|k: int|
            0 <= k < items_view(items).len() ==> #[trigger] item_typed(sc, items_view(items)[k])
                && item_framable(sc, items_view(items)[k]),
    ensures
        forall|k: int| 0 <= k < items.len() ==> #[trigger] item_typed(sc, items[k]@),
        forall|k: int| 0 <= k < items.len() ==> #[trigger] item_framable(sc, items[k]@),
{
    assert forall|k: int| 0 <= k < items.len() implies item_typed(sc, items[k]@) && item_framable(
        sc,
        items[k]@,
    ) by {
        assert(items_view(items)[k] == items[k]@);
        assert(item_typed(sc, items_view(items)[k]));
    }
}

impl BitPackWriter {
    /// Writes one element of the plan's type.
    pub fn write_scalar(&mut self, sc: Scalar, it: &Item) -> (r: Result<(), BitPackError>)
        requires
            old(self).wf(),
            scalar_ok(sc),
            item_typed(sc, it@),
            item_framable(sc, it@),
        ensures
            final(self).wf(),
            final(self).buffer().len() == old(self).buffer().len(),
            old(self).has(scalar_wire(sc, it@).len()) ==> r is Ok && final(self).wrote(
                old(self),
                scalar_wire(sc, it@),
            ),
            !old(self).has(scalar_wire(sc, it@).len()) ==> r == Err::<(), BitPackError>(
                BitPackError::OutOfBounds,
            ),
    {
        match (sc, it) {
            (Scalar::Int { kind, bits }, Item::Int(v)) => {
                proof {
                    lemma_in_range_bound(kind, *v as int);
                }
                self.write_u64(to_wire(*v), bits)
            },
            (Scalar::Bool, Item::Bool(b)) => self.write_bit(*b),
            (Scalar::Float, Item::Float(f)) => self.write_u64(*f as u64, 32),
            (Scalar::Text, Item::Text(s)) => {
                assert(string_scalar(true) == sc);
                self.write_string(s.as_str(), true)
            },
            (Scalar::Ascii, Item::Text(s)) => {
                assert(string_scalar(false) == sc);
                self.write_string(s.as_str(), false)
            },
            _ => {
                assert(false);
                Err(BitPackError::OutOfBounds)
            },
        }
    }

    /// Writes elements of the plan's type, in order.
    pub fn write_items(&mut self, sc: Scalar, items: &Vec<Item>) -> (r: Result<(), BitPackError>)
        requires
            old(self).wf(),
            scalar_ok(sc),
            forall|k: int| 0 <= k < items@.len() ==> #[trigger] item_typed(sc, items@[k]@),
            forall|k: int| 0 <= k < items@.len() ==> #[trigger] item_framable(sc, items@[k]@),
        ensures
            final(self).wf(),
            final(self).buffer().len() == old(self).buffer().len(),
            ({
                let w = items_wire(sc, items_view(items@));
                &&& old(self).has(w.len()) ==> r is Ok && final(self).wrote(old(self), w)
                &&& !old(self).has(w.len()) ==> r == Err::<(), BitPackError>(
                    BitPackError::OutOfBounds,
                )
            }),
    {
        let ghost iv = items_view(items@);
        let ghost whole = items_wire(sc, iv);
        let ghost s0 = self.stream();
        let ghost p0 = self.pos() as int;
        let mut i: usize = 0;
        assert(iv.take(0) =~= Seq::<ItemV>::empty());
        while i < items.len()
            invariant
                scalar_ok(sc),
                forall|k: int| 0 <= k < items@.len() ==> #[trigger] item_typed(sc, items@[k]@),
                forall|k: int| 0 <= k < items@.len() ==> #[trigger] item_framable(sc, items@[k]@),
                iv == items_view(items@),
                whole == items_wire(sc, iv),
                s0 == old(self).stream(),
                p0 == old(self).pos(),
                self.wf(),
                self.buffer().len() == old(self).buffer().len(),
                i <= items@.len(),
                self.pos() == p0 + items_wire(sc, iv.take(i as int)).len(),
                old(self).has(whole.len()) ==> self.stream() == splice(
                    s0,
                    p0,
                    items_wire(sc, iv.take(i as int)),
                ),
            decreases items@.len() - i,
        {
            let ghost pre = items_wire(sc, iv.take(i as int));
            let ghost step = scalar_wire(sc, iv[i as int]);
            proof {
                assert(iv.take(i + 1).drop_last() =~= iv.take(i as int));
                assert(items_wire(sc, iv.take(i + 1)) == pre + step);
                lemma_items_wire_prefix(sc, iv, i + 1);
                assert(self.stream().len() == s0.len());
            }
            match self.write_scalar(sc, &items[i]) {
                Ok(()) => {},
                Err(e) => {
                    return Err(e);
                },
            }
            proof {
                if old(self).has(whole.len()) {
                    lemma_splice_twice(s0, p0, pre, step);
                }
            }
            i = i + 1;
        }
        proof {
            assert(iv.take(i as int) =~= iv);
            self.lemma_pos_in_bounds();
        }
        Ok(())
    }

    /// Writes a field of the plan's type: its padding, then its shape.
    pub fn write_value(&mut self, fp: FieldPlan, v: &Value) -> (r: Result<(), BitPackError>)
        requires
            old(self).wf(),
            fp_scalar_ok(fp),
            value_writable(fp.shape, v@),
        ensures
            final(self).wf(),
            final(self).buffer().len() == old(self).buffer().len(),
            ({
                let w = field_wire(fp, v@, old(self).pos() as int);
                &&& old(self).has(w.len()) ==> r is Ok && final(self).wrote(old(self), w)
                &&& !old(self).has(w.len()) ==> r == Err::<(), BitPackError>(
                    BitPackError::OutOfBounds,
                )
            }),
    {
        let ghost s0 = self.stream();
        let ghost p0 = self.pos() as int;
        let ghost pad = field_pad(fp.aligned, p0);
        let ghost body = shape_wire(fp.shape, v@);
        proof {
            assert(self.stream().len() == s0.len());
        }
        if fp.aligned {
            match self.align() {
                Ok(()) => {},
                Err(e) => {
                    return Err(e);
                },
            }
        } else {
            proof {
                self.lemma_pos_in_bounds();
            }
            assert(splice(s0, p0, pad) =~= s0);
        }
        let res = match (fp.shape, v) {
            (Shape::Single(sc), Value::One(it)) => self.write_scalar(sc, it),
            (Shape::Fixed { elem, .. }, Value::Many(items)) => {
                proof {
                    lemma_items_writable(elem, items@);
                }
                self.write_items(elem, items)
            },
            (Shape::List { elem, .. }, Value::Many(items)) => {
                proof {
                    lemma_items_writable(elem, items@);
                }
                self.write_items(elem, items)
            },
            _ => {
                assert(false);
                Err(BitPackError::OutOfBounds)
            },
        };
        proof {
            if old(self).has((pad + body).len()) && res is Ok {
                lemma_splice_twice(s0, p0, pad, body);
            }
            if !old(self).has((pad + body).len()) && res is Ok {
                self.lemma_pos_in_bounds();
            }
        }
        res
    }

    /// Writes a list of fields in order.
    pub fn write_fields(&mut self, fps: &Vec<FieldPlan>, vs: &Vec<Value>) -> (r: Result<
        (),
        BitPackError,
    >)
        requires
            old(self).wf(),
            fields_writable(fps@, values_view(vs@)),
        ensures
            final(self).wf(),
            final(self).buffer().len() == old(self).buffer().len(),
            ({
                let w = fields_wire(fps@, values_view(vs@), old(self).pos() as int);
                &&& old(self).has(w.len()) ==> r is Ok && final(self).wrote(old(self), w)
                &&& !old(self).has(w.len()) ==> r == Err::<(), BitPackError>(
                    BitPackError::OutOfBounds,
                )
            }),
    {
        let ghost fv = fps@;
        let ghost vv = values_view(vs@);
        let ghost s0 = self.stream();
        let ghost p0 = self.pos() as int;
        let ghost whole = fields_wire(fv, vv, p0);
        let mut i: usize = 0;
        assert(fields_wire(fv.take(0), vv.take(0), p0) =~= Seq::<bool>::empty());
        while i < fps.len()
            invariant
                fv == fps@,
                vv == values_view(vs@),
                fields_writable(fv, vv),
                whole == fields_wire(fv, vv, p0),
                s0 == old(self).stream(),
                p0 == old(self).pos(),
                self.wf(),
                self.buffer().len() == old(self).buffer().len(),
                i <= fv.len(),
                self.pos() == p0 + fields_wire(fv.take(i as int), vv.take(i as int), p0).len(),
                old(self).has(whole.len()) ==> self.stream() == splice(
                    s0,
                    p0,
                    fields_wire(fv.take(i as int), vv.take(i as int), p0),
                ),
            decreases fv.len() - i,
        {
            let ghost pre = fields_wire(fv.take(i as int), vv.take(i as int), p0);
            let ghost step = field_wire(fv[i as int], vv[i as int], p0 + pre.len());
            proof {
                assert(fv.take(i + 1).drop_last() =~= fv.take(i as int));
                assert(vv.take(i + 1).drop_last() =~= vv.take(i as int));
                assert(fields_wire(fv.take(i + 1), vv.take(i + 1), p0) == pre + step);
                lemma_fields_wire_prefix(fv, vv, p0, i + 1);
                assert(self.stream().len() == s0.len());
                assert(fp_scalar_ok(fv[i as int]));
                assert(value_writable(fv[i as int].shape, vv[i as int]));
                assert(vv[i as int] == vs@[i as int]@);
            }
            match self.write_value(fps[i], &vs[i]) {
                Ok(()) => {},
                Err(e) => {
                    return Err(e);
                },
            }
            proof {
                if old(self).has(whole.len()) {
                    lemma_splice_twice(s0, p0, pre, step);
                }
            }
            i = i + 1;
        }
        proof {
            assert(fv.take(i as int) =~= fv);
            assert(vv.take(i as int) =~= vv);
            self.lemma_pos_in_bounds();
        }
        Ok(())
    }

    /// Writes one member of a record.
    pub fn write_member(&mut self, m: &MemberPlan, v: &Member) -> (r: Result<(), BitPackError>)
        requires
            old(self).wf(),
            member_writable(m@, v@),
        ensures
            final(self).wf(),
            final(self).buffer().len() == old(self).buffer().len(),
            ({
                let w = member_wire(m@, v@, old(self).pos() as int);
                &&& old(self).has(w.len()) ==> r is Ok && final(self).wrote(old(self), w)
                &&& !old(self).has(w.len()) ==> r == Err::<(), BitPackError>(
                    BitPackError::OutOfBounds,
                )
            }),
    {
        match (m, v) {
            (MemberPlan::Field(fp), Member::Field(fv)) => self.write_value(*fp, fv),
            (MemberPlan::Union { aligned, variants, .. }, Member::Union(k, fs)) => {
                let ghost s0 = self.stream();
                let ghost p0 = self.pos() as int;
                let ghost pad = field_pad(*aligned, p0);
                let ghost vp = variants_view(variants@);
                assert(vp[*k as int] == variants@[*k as int]@);
                proof {
                    assert(self.stream().len() == s0.len());
                }
                if *aligned {
                    match self.align() {
                        Ok(()) => {},
                        Err(e) => {
                            return Err(e);
                        },
                    }
                } else {
                    proof {
                        self.lemma_pos_in_bounds();
                    }
                    assert(splice(s0, p0, pad) =~= s0);
                }
                let ghost body = fields_wire(vp[*k as int], values_view(fs@), p0 + pad.len());
                let res = self.write_fields(&variants[*k], fs);
                proof {
                    if old(self).has((pad + body).len()) && res is Ok {
                        lemma_splice_twice(s0, p0, pad, body);
                    }
                    if !old(self).has((pad + body).len()) && res is Ok {
                        self.lemma_pos_in_bounds();
                    }
                }
                res
            },
            _ => {
                assert(false);
                Err(BitPackError::OutOfBounds)
            },
        }
    }

    /// Writes a record by its plan, each member in order.
    pub fn write_record(&mut self, plan: &RecordPlan, rec: &Record) -> (r: Result<(), BitPackError>)
        requires
            old(self).wf(),
            record_writable(plan@, rec@),
        ensures
            final(self).wf(),
            final(self).buffer().len() == old(self).buffer().len(),
            ({
                let w = record_wire(plan@, rec@, old(self).pos() as int);
                &&& old(self).has(w.len()) ==> r is Ok && final(self).wrote(old(self), w)
                &&& !old(self).has(w.len()) ==> r == Err::<(), BitPackError>(
                    BitPackError::OutOfBounds,
                )
            }),
    {
        let ghost ms = plan@;
        let ghost vv = rec@;
        let ghost s0 = self.stream();
        let ghost p0 = self.pos() as int;
        let ghost whole = record_wire(ms, vv, p0);
        let mut i: usize = 0;
        assert(record_wire(ms.take(0), vv.take(0), p0) =~= Seq::<bool>::empty());
        while i < plan.members.len()
            invariant
                ms == plan@,
                vv == rec@,
                ms.len() == plan.members@.len(),
                vv.len() == rec.members@.len(),
                record_writable(ms, vv),
                whole == record_wire(ms, vv, p0),
                s0 == old(self).stream(),
                p0 == old(self).pos(),
                self.wf(),
                self.buffer().len() == old(self).buffer().len(),
                i <= ms.len(),
                self.pos() == p0 + record_wire(ms.take(i as int), vv.take(i as int), p0).len(),
                old(self).has(whole.len()) ==> self.stream() == splice(
                    s0,
                    p0,
                    record_wire(ms.take(i as int), vv.take(i as int), p0),
                ),
            decreases ms.len() - i,
        {
            let ghost pre = record_wire(ms.take(i as int), vv.take(i as int), p0);
            let ghost step = member_wire(ms[i as int], vv[i as int], p0 + pre.len());
            proof {
                assert(ms.take(i + 1).drop_last() =~= ms.take(i as int));
                assert(vv.take(i + 1).drop_last() =~= vv.take(i as int));
                assert(record_wire(ms.take(i + 1), vv.take(i + 1), p0) == pre + step);
                lemma_record_wire_prefix(ms, vv, p0, i + 1);
                assert(self.stream().len() == s0.len());
                assert(member_writable(ms[i as int], vv[i as int]));
            }
            match self.write_member(&plan.members[i], &rec.members[i]) {
                Ok(()) => {},
                Err(e) => {
                    return Err(e);
                },
            }
            proof {
                if old(self).has(whole.len()) {
                    lemma_splice_twice(s0, p0, pre, step);
                }
            }
            i = i + 1;
        }
        proof {
            assert(ms.take(i as int) =~= ms);
            assert(vv.take(i as int) =~= vv);
            self.lemma_pos_in_bounds();
        }
        Ok(())
    }
}

/// Fields that a writer takes as they are.
pub open spec fn fields_writable(fps: Seq<FieldPlan>, vs: Seq<ValueV>) -> bool {
    &&& vs.len() == fps.len()
    &&& forall|i: int|
        0 <= i < fps.len() ==> #[trigger] fp_scalar_ok(fps[i]) && value_writable(fps[i].shape, vs[i])
}

/// A member that a writer takes as it is: a union's variant names one of its
/// variants.
pub open spec fn member_writable(m: MemberPlanV, v: MemberV) -> bool {
    match (m, v) {
        (MemberPlanV::Field(fp), MemberV::Field(fv)) => fp_scalar_ok(fp) && value_writable(
            fp.shape,
            fv,
        ),
        (MemberPlanV::Union { variants, .. }, MemberV::Union(k, fs)) => k < variants.len()
            && fields_writable(variants[k as int], fs),
        _ => false,
    }
}

/// Every member of a record is one a writer takes as it is.
pub open spec fn record_writable(ms: Seq<MemberPlanV>, vs: Seq<MemberV>) -> bool {
    &&& vs.len() == ms.len()
    &&& forall|i: int| 0 <= i < ms.len() ==> #[trigger] member_writable(ms[i], vs[i])
}

/// A field value that a writer takes as it is: of the plan's type, and with
/// strings that can be framed.
pub open spec fn value_writable(sh: Shape, v: ValueV) -> bool {
    match (sh, v) {
        (Shape::Single(s), ValueV::One(it)) => item_typed(s, it) && item_framable(s, it),
        (Shape::Fixed { elem, .. }, ValueV::Many(items)) => forall|k: int|
            0 <= k < items.len() ==> #[trigger] item_typed(elem, items[k]) && item_framable(
                elem,
                items[k],
            ),
        (Shape::List { elem, .. }, ValueV::Many(items)) => forall|k: int|
            0 <= k < items.len() ==> #[trigger] item_typed(elem, items[k]) && item_framable(
                elem,
                items[k],
            ),
        _ => false,
    }
}

} // verus!
