//! Encoding plans for records and unions, the values they describe, and the
//! mathematical model of their wire format.
use crate::bits::{int_bits, pad_len, uint_of, zeros};
use crate::utf16::{ascii_chars, is_utf16, text_of, utf16_of};
use crate::BitPackError;
use vstd::arithmetic::power2::pow2;
use vstd::prelude::*;

verus! {

/// The native integer type of a field.
#[derive(Debug, Clone, Copy, PartialEq, Eq, Structural)]
pub enum IntKind {
    U8,
    I8,
    U16,
    I16,
    U32,
    I32,
    U64,
    I64,
}

/// How one element is encoded.
#[derive(Debug, Clone, Copy, PartialEq, Eq, Structural)]
pub enum Scalar {
    /// An integer of native type `kind` in `bits` bits: its natural width for
    /// a plain field, fewer (or more) for a packed one.
    Int { kind: IntKind, bits: usize },
    /// One bit.
    Bool,
    /// A 32-bit float, carried as its IEEE-754 bit pattern.
    Float,
    /// A string of UTF-16 code units behind a length prefix.
    Text,
    /// A string of one byte per character behind a length prefix.
    Ascii,
}

/// How one field is laid out.
#[derive(Debug, Clone, Copy, PartialEq, Eq, Structural)]
pub enum Shape {
    /// A single element.
    Single(Scalar),
    /// A fixed number of elements.
    Fixed { elem: Scalar, count: usize },
    /// As many elements as the earlier integer field at index `length` holds.
    List { elem: Scalar, length: usize },
}

/// The encoding plan of one field.
#[derive(Debug, Clone, Copy, PartialEq, Eq, Structural)]
pub struct FieldPlan {
    pub shape: Shape,
    /// Whether the field starts at the next byte boundary.
    pub aligned: bool,
}

/// The encoding plan of one member of a record.
#[derive(Debug, Clone)]
pub enum MemberPlan {
    /// A plain field.
    Field(FieldPlan),
    /// A union: the earlier integer field at index `variant` selects which
    /// list of fields follows.
    Union { variant: usize, aligned: bool, variants: Vec<Vec<FieldPlan>> },
}

/// The encoding plan of a record: its members, in wire order.
#[derive(Debug, Clone)]
pub struct RecordPlan {
    pub members: Vec<MemberPlan>,
}

/// One element.
#[derive(Debug, Clone, PartialEq, Eq)]
pub enum Item {
    Int(i128),
    Bool(bool),
    /// The IEEE-754 bit pattern of a 32-bit float.
    Float(u32),
    Text(String),
}

/// The value of one field.
#[derive(Debug, Clone, PartialEq, Eq)]
pub enum Value {
    One(Item),
    Many(Vec<Item>),
}

/// The value of one member of a record.
#[derive(Debug, Clone, PartialEq, Eq)]
pub enum Member {
    Field(Value),
    /// A union value: the 0-based index of its variant and that variant's fields.
    Union(usize, Vec<Value>),
}

/// A record: the values of its members, in wire order.
#[derive(Debug, Clone, PartialEq, Eq)]
pub struct Record {
    pub members: Vec<Member>,
}

/// The mathematical form of an [`Item`].
pub enum ItemV {
    Int(int),
    Bool(bool),
    Float(u32),
    Text(Seq<char>),
}

/// The mathematical form of a [`Value`].
pub enum ValueV {
    One(ItemV),
    Many(Seq<ItemV>),
}

/// The mathematical form of a [`Member`].
pub enum MemberV {
    Field(ValueV),
    Union(nat, Seq<ValueV>),
}

/// The mathematical form of a [`MemberPlan`].
pub enum MemberPlanV {
    Field(FieldPlan),
    Union { variant: nat, aligned: bool, variants: Seq<Seq<FieldPlan>> },
}

/// The mathematical form of a list of elements.
pub open spec fn items_view(v: Seq<Item>) -> Seq<ItemV> {
    v.map_values(|i: Item| i@)
}

/// The mathematical form of a list of field values.
pub open spec fn values_view(v: Seq<Value>) -> Seq<ValueV> {
    v.map_values(|x: Value| x@)
}

/// The mathematical form of a list of members.
pub open spec fn members_view(v: Seq<Member>) -> Seq<MemberV> {
    v.map_values(|m: Member| m@)
}

/// The mathematical form of a union's variants.
pub open spec fn variants_view(v: Seq<Vec<FieldPlan>>) -> Seq<Seq<FieldPlan>> {
    v.map_values(|x: Vec<FieldPlan>| x@)
}

impl View for Item {
    type V = ItemV;

    open spec fn view(&self) -> ItemV {
        match self {
            Item::Int(v) => ItemV::Int(*v as int),
            Item::Bool(b) => ItemV::Bool(*b),
            Item::Float(f) => ItemV::Float(*f),
            Item::Text(s) => ItemV::Text(s@),
        }
    }
}

impl View for Value {
    type V = ValueV;

    open spec fn view(&self) -> ValueV {
        match self {
            Value::One(i) => ValueV::One(i@),
            Value::Many(v) => ValueV::Many(items_view(v@)),
        }
    }
}

impl View for Member {
    type V = MemberV;

    open spec fn view(&self) -> MemberV {
        match self {
            Member::Field(v) => MemberV::Field(v@),
            Member::Union(n, fs) => MemberV::Union(*n as nat, values_view(fs@)),
        }
    }
}

impl View for Record {
    type V = Seq<MemberV>;

    open spec fn view(&self) -> Seq<MemberV> {
        members_view(self.members@)
    }
}

impl View for MemberPlan {
    type V = MemberPlanV;

    open spec fn view(&self) -> MemberPlanV {
        match self {
            MemberPlan::Field(f) => MemberPlanV::Field(*f),
            MemberPlan::Union { variant, aligned, variants } => MemberPlanV::Union {
                variant: *variant as nat,
                aligned: *aligned,
                variants: variants_view(variants@),
            },
        }
    }
}

impl View for RecordPlan {
    type V = Seq<MemberPlanV>;

    open spec fn view(&self) -> Seq<MemberPlanV> {
        self.members@.map_values(|m: MemberPlan| m@)
    }
}

// ---------------------------------------------------------------------------
// Integers

/// The natural bit width of an integer type.
pub open spec fn width(k: IntKind) -> nat {
    match k {
        IntKind::U8 | IntKind::I8 => 8,
        IntKind::U16 | IntKind::I16 => 16,
        IntKind::U32 | IntKind::I32 => 32,
        IntKind::U64 | IntKind::I64 => 64,
    }
}

/// Whether an integer type is signed.
pub open spec fn is_signed(k: IntKind) -> bool {
    k is I8 || k is I16 || k is I32 || k is I64
}

/// Whether `v` is a value of the native type.
pub open spec fn in_range(k: IntKind, v: int) -> bool {
    if is_signed(k) {
        -pow2((width(k) - 1) as nat) <= v < pow2((width(k) - 1) as nat)
    } else {
        0 <= v < pow2(width(k))
    }
}

/// What a field of type `k` holds after `u` was read: `u` cut to the type's
/// width and taken as that type, with no sign extension from a narrower
/// packed width.
pub open spec fn native(k: IntKind, u: nat) -> int {
    let t = u % pow2(width(k));
    if is_signed(k) && t >= pow2((width(k) - 1) as nat) {
        t - pow2(width(k))
    } else {
        t as int
    }
}

/// The 64-bit two's-complement pattern of `v`, as it is handed to the cursor.
pub open spec fn wire_u64(v: int) -> nat {
    (v % pow2(64) as int) as nat
}

/// Whether `v` can be written in a field of type `k` packed in `bits` bits:
/// a narrower width takes non-negative values below `2^bits` only.
pub open spec fn int_fits(k: IntKind, bits: nat, v: int) -> bool {
    &&& in_range(k, v)
    &&& bits >= width(k) || (0 <= v < pow2(bits))
}

// ---------------------------------------------------------------------------
// Plans

/// An element encoding is well formed: an integer takes 1 to 64 bits.
pub open spec fn scalar_ok(s: Scalar) -> bool {
    match s {
        Scalar::Int { bits, .. } => 1 <= bits <= 64,
        _ => true,
    }
}

/// Whether a field is a plain integer field.
pub open spec fn is_int_field(fp: FieldPlan) -> bool {
    fp.shape matches Shape::Single(Scalar::Int { .. })
}

/// Whether a field is a plain unsigned integer field.
pub open spec fn is_length_field(fp: FieldPlan) -> bool {
    fp.shape matches Shape::Single(Scalar::Int { kind, .. }) && !is_signed(kind)
}

/// A field plan, among `prior` earlier fields, is well formed: a list's
/// length names an earlier unsigned integer field.
pub open spec fn field_plan_ok(fp: FieldPlan, prior: Seq<FieldPlan>) -> bool {
    match fp.shape {
        Shape::Single(s) => scalar_ok(s),
        Shape::Fixed { elem, .. } => scalar_ok(elem),
        Shape::List { elem, length } => scalar_ok(elem) && length < prior.len()
            && is_length_field(prior[length as int]),
    }
}

/// Every field of a list is well formed among the fields before it.
pub open spec fn fields_plan_ok(fps: Seq<FieldPlan>) -> bool {
    forall|i: int| 0 <= i < fps.len() ==> #[trigger] field_plan_ok(fps[i], fps.take(i))
}

/// Whether a member is a plain unsigned integer field.
pub open spec fn is_length_member(m: MemberPlanV) -> bool {
    match m {
        MemberPlanV::Field(f) => is_length_field(f),
        _ => false,
    }
}

/// Whether a member is a plain integer field.
pub open spec fn is_int_member(m: MemberPlanV) -> bool {
    match m {
        MemberPlanV::Field(f) => is_int_field(f),
        _ => false,
    }
}

/// A member plan, among `prior` earlier members, is well formed: lengths and
/// discriminants name earlier integer fields, and each variant is a
/// well-formed list of fields.
pub open spec fn member_plan_ok(m: MemberPlanV, prior: Seq<MemberPlanV>) -> bool {
    match m {
        MemberPlanV::Field(fp) => match fp.shape {
            Shape::List { elem, length } => scalar_ok(elem) && length < prior.len()
                && is_length_member(prior[length as int]),
            _ => field_plan_ok(fp, Seq::empty()),
        },
        MemberPlanV::Union { variant, variants, .. } => variant < prior.len() && is_int_member(
            prior[variant as int],
        ) && forall|k: int|
            0 <= k < variants.len() ==> #[trigger] fields_plan_ok(variants[k]),
    }
}

/// Every member of a record plan is well formed among the members before it.
pub open spec fn record_plan_ok(ms: Seq<MemberPlanV>) -> bool {
    forall|i: int| 0 <= i < ms.len() ==> #[trigger] member_plan_ok(ms[i], ms.take(i))
}

// ---------------------------------------------------------------------------
// Wire format

/// `u`'s code units, each in `w` bits.
pub open spec fn units_bits(u: Seq<u16>, w: nat) -> Seq<bool>
    decreases u.len(),
{
    if u.len() == 0 {
        Seq::empty()
    } else {
        units_bits(u.drop_last(), w) + int_bits(u.last() as nat, w)
    }
}

/// The width of a string's length field.
pub open spec fn len_bits(n: nat) -> nat {
    if n > 127 {
        15
    } else {
        7
    }
}

/// A string's length prefix: the extended flag, then the length in 7 or 15 bits.
pub open spec fn len_prefix(n: nat) -> Seq<bool> {
    seq![n > 127] + int_bits(n, len_bits(n))
}

/// The bits of one element: an integer's lowest bits, a flag, a float's
/// bit pattern, or a string's length prefix and content.
pub open spec fn scalar_wire(s: Scalar, it: ItemV) -> Seq<bool> {
    match (s, it) {
        (Scalar::Int { bits, .. }, ItemV::Int(v)) => int_bits(wire_u64(v), bits as nat),
        (Scalar::Bool, ItemV::Bool(b)) => seq![b],
        (Scalar::Float, ItemV::Float(f)) => int_bits(f as nat, 32),
        (Scalar::Text, ItemV::Text(t)) => len_prefix(utf16_of(t).len()) + units_bits(
            utf16_of(t),
            16,
        ),
        (Scalar::Ascii, ItemV::Text(t)) => len_prefix(utf16_of(t).len()) + units_bits(
            utf16_of(t),
            8,
        ),
        _ => Seq::empty(),
    }
}

/// The bits of a run of elements, one after the other.
pub open spec fn items_wire(s: Scalar, items: Seq<ItemV>) -> Seq<bool>
    decreases items.len(),
{
    if items.len() == 0 {
        Seq::empty()
    } else {
        items_wire(s, items.drop_last()) + scalar_wire(s, items.last())
    }
}

/// The alignment padding that a field starting at `pos` takes.
pub open spec fn field_pad(aligned: bool, pos: int) -> Seq<bool> {
    if aligned {
        zeros(pad_len(pos))
    } else {
        Seq::empty()
    }
}

/// The bits of a field value, padding aside.
pub open spec fn shape_wire(sh: Shape, v: ValueV) -> Seq<bool> {
    match (sh, v) {
        (Shape::Single(s), ValueV::One(it)) => scalar_wire(s, it),
        (Shape::Fixed { elem, .. }, ValueV::Many(items)) => items_wire(elem, items),
        (Shape::List { elem, .. }, ValueV::Many(items)) => items_wire(elem, items),
        _ => Seq::empty(),
    }
}

/// The bits of a field that starts at `pos`.
pub open spec fn field_wire(fp: FieldPlan, v: ValueV, pos: int) -> Seq<bool> {
    field_pad(fp.aligned, pos) + shape_wire(fp.shape, v)
}

/// The bits of a list of fields that starts at `pos`.
pub open spec fn fields_wire(fps: Seq<FieldPlan>, vs: Seq<ValueV>, pos: int) -> Seq<bool>
    decreases fps.len(),
{
    if fps.len() == 0 || vs.len() == 0 {
        Seq::empty()
    } else {
        let prev = fields_wire(fps.drop_last(), vs.drop_last(), pos);
        prev + field_wire(fps.last(), vs.last(), pos + prev.len())
    }
}

/// The bits of a member that starts at `pos`.
pub open spec fn member_wire(m: MemberPlanV, v: MemberV, pos: int) -> Seq<bool> {
    match (m, v) {
        (MemberPlanV::Field(fp), MemberV::Field(fv)) => field_wire(fp, fv, pos),
        (MemberPlanV::Union { aligned, variants, .. }, MemberV::Union(k, fs)) => {
            let pad = field_pad(aligned, pos);
            if k < variants.len() {
                pad + fields_wire(variants[k as int], fs, pos + pad.len())
            } else {
                pad
            }
        },
        _ => Seq::empty(),
    }
}

/// The bits of a record that starts at `pos`.
pub open spec fn record_wire(ms: Seq<MemberPlanV>, vs: Seq<MemberV>, pos: int) -> Seq<bool>
    decreases ms.len(),
{
    if ms.len() == 0 || vs.len() == 0 {
        Seq::empty()
    } else {
        let prev = record_wire(ms.drop_last(), vs.drop_last(), pos);
        prev + member_wire(ms.last(), vs.last(), pos + prev.len())
    }
}

// ---------------------------------------------------------------------------
// Size, defined by structure

/// The number of bits an element takes.
pub open spec fn scalar_bits(s: Scalar, it: ItemV) -> nat {
    match (s, it) {
        (Scalar::Int { bits, .. }, ItemV::Int(_)) => bits as nat,
        (Scalar::Bool, ItemV::Bool(_)) => 1,
        (Scalar::Float, ItemV::Float(_)) => 32,
        (Scalar::Text, ItemV::Text(t)) => 1 + len_bits(utf16_of(t).len()) + 16 * utf16_of(t).len(),
        (Scalar::Ascii, ItemV::Text(t)) => 1 + len_bits(utf16_of(t).len()) + 8 * utf16_of(t).len(),
        _ => 0,
    }
}

/// The number of bits a run of elements takes.
pub open spec fn items_bits(s: Scalar, items: Seq<ItemV>) -> nat
    decreases items.len(),
{
    if items.len() == 0 {
        0
    } else {
        items_bits(s, items.drop_last()) + scalar_bits(s, items.last())
    }
}

/// The number of bits a field value takes, padding aside.
pub open spec fn shape_bits(sh: Shape, v: ValueV) -> nat {
    match (sh, v) {
        (Shape::Single(s), ValueV::One(it)) => scalar_bits(s, it),
        (Shape::Fixed { elem, .. }, ValueV::Many(items)) => items_bits(elem, items),
        (Shape::List { elem, .. }, ValueV::Many(items)) => items_bits(elem, items),
        _ => 0,
    }
}

/// The padding bits of a field that starts at `pos`.
pub open spec fn pad_bits(aligned: bool, pos: int) -> nat {
    if aligned {
        pad_len(pos)
    } else {
        0
    }
}

/// The number of bits a list of fields takes from `pos`, padding included.
pub open spec fn fields_bits(fps: Seq<FieldPlan>, vs: Seq<ValueV>, pos: int) -> nat
    decreases fps.len(),
{
    if fps.len() == 0 || vs.len() == 0 {
        0
    } else {
        let prev = fields_bits(fps.drop_last(), vs.drop_last(), pos);
        let p = pos + prev;
        prev + pad_bits(fps.last().aligned, p) + shape_bits(fps.last().shape, vs.last())
    }
}

/// The number of bits a member takes from `pos`, padding included.
pub open spec fn member_bits(m: MemberPlanV, v: MemberV, pos: int) -> nat {
    match (m, v) {
        (MemberPlanV::Field(fp), MemberV::Field(fv)) => pad_bits(fp.aligned, pos) + shape_bits(
            fp.shape,
            fv,
        ),
        (MemberPlanV::Union { aligned, variants, .. }, MemberV::Union(k, fs)) => {
            let pad = pad_bits(aligned, pos);
            if k < variants.len() {
                pad + fields_bits(variants[k as int], fs, pos + pad)
            } else {
                pad
            }
        },
        _ => 0,
    }
}

/// The number of bits a record takes when it starts at `pos`: the sum of its
/// members' sizes, alignment padding included.
pub open spec fn record_bits(ms: Seq<MemberPlanV>, vs: Seq<MemberV>, pos: int) -> nat
    decreases ms.len(),
{
    if ms.len() == 0 || vs.len() == 0 {
        0
    } else {
        let prev = record_bits(ms.drop_last(), vs.drop_last(), pos);
        prev + member_bits(ms.last(), vs.last(), pos + prev)
    }
}

// ---------------------------------------------------------------------------
// Which values a plan can encode

/// An element has the plan's type, and an integer fits its width.
pub open spec fn item_typed(s: Scalar, it: ItemV) -> bool {
    match (s, it) {
        (Scalar::Int { kind, bits }, ItemV::Int(v)) => int_fits(kind, bits as nat, v),
        (Scalar::Bool, ItemV::Bool(_)) => true,
        (Scalar::Float, ItemV::Float(_)) => true,
        (Scalar::Text, ItemV::Text(_)) => true,
        (Scalar::Ascii, ItemV::Text(_)) => true,
        _ => false,
    }
}

/// A string element can be framed: its length fits 15 bits, and an ASCII
/// string holds ASCII characters only.
pub open spec fn item_framable(s: Scalar, it: ItemV) -> bool {
    match (s, it) {
        (Scalar::Text, ItemV::Text(t)) => utf16_of(t).len() < 0x8000,
        (Scalar::Ascii, ItemV::Text(t)) => utf16_of(t).len() < 0x8000 && forall|i: int|
            0 <= i < utf16_of(t).len() ==> #[trigger] utf16_of(t)[i] < 0x80,
        _ => true,
    }
}

/// A field value has the plan's type; a fixed array has its length.
pub open spec fn value_typed(sh: Shape, v: ValueV) -> bool {
    match (sh, v) {
        (Shape::Single(s), ValueV::One(it)) => item_typed(s, it),
        (Shape::Fixed { elem, count }, ValueV::Many(items)) => items.len() == count && items_typed(
            elem,
            items,
        ),
        (Shape::List { elem, .. }, ValueV::Many(items)) => items_typed(elem, items),
        _ => false,
    }
}

/// Every element of a run has the plan's type.
pub open spec fn items_typed(s: Scalar, items: Seq<ItemV>) -> bool {
    forall|i: int| 0 <= i < items.len() ==> #[trigger] item_typed(s, items[i])
}

/// Every string in a field value can be framed.
pub open spec fn value_framable(sh: Shape, v: ValueV) -> bool {
    match (sh, v) {
        (Shape::Single(s), ValueV::One(it)) => item_framable(s, it),
        (Shape::Fixed { elem, .. }, ValueV::Many(items)) => items_framable(elem, items),
        (Shape::List { elem, .. }, ValueV::Many(items)) => items_framable(elem, items),
        _ => true,
    }
}

/// Every element of a run can be framed.
pub open spec fn items_framable(s: Scalar, items: Seq<ItemV>) -> bool {
    forall|i: int| 0 <= i < items.len() ==> #[trigger] item_framable(s, items[i])
}

/// The integer a plain integer field holds.
pub open spec fn int_value(v: ValueV) -> int {
    match v {
        ValueV::One(ItemV::Int(n)) => n,
        _ => 0,
    }
}

/// A list's length matches the earlier field it names.
pub open spec fn value_length_ok(sh: Shape, v: ValueV, prior: Seq<ValueV>) -> bool {
    match (sh, v) {
        (Shape::List { length, .. }, ValueV::Many(items)) => items.len() == int_value(
            prior[length as int],
        ),
        _ => true,
    }
}

/// One value per field, each of its field's type.
pub open spec fn fields_typed(fps: Seq<FieldPlan>, vs: Seq<ValueV>) -> bool {
    &&& vs.len() == fps.len()
    &&& forall|i: int| 0 <= i < vs.len() ==> #[trigger] value_typed(fps[i].shape, vs[i])
}

/// Each list among the fields matches its length field.
pub open spec fn fields_lengths_ok(fps: Seq<FieldPlan>, vs: Seq<ValueV>) -> bool {
    forall|i: int| 0 <= i < vs.len() ==> #[trigger] value_length_ok(fps[i].shape, vs[i], vs.take(i))
}

/// Every string among the fields can be framed.
pub open spec fn fields_framable(fps: Seq<FieldPlan>, vs: Seq<ValueV>) -> bool {
    forall|i: int| 0 <= i < vs.len() ==> #[trigger] value_framable(fps[i].shape, vs[i])
}

/// A member has the plan's type. A union's variant index is not checked here.
pub open spec fn member_typed(m: MemberPlanV, v: MemberV) -> bool {
    match (m, v) {
        (MemberPlanV::Field(fp), MemberV::Field(fv)) => value_typed(fp.shape, fv),
        (MemberPlanV::Union { variants, .. }, MemberV::Union(k, fs)) => k < variants.len()
            ==> fields_typed(variants[k as int], fs),
        _ => false,
    }
}

/// Every member of a record has the plan's type.
pub open spec fn record_typed(ms: Seq<MemberPlanV>, vs: Seq<MemberV>) -> bool {
    &&& vs.len() == ms.len()
    &&& forall|i: int| 0 <= i < vs.len() ==> #[trigger] member_typed(ms[i], vs[i])
}

/// The value a plain field member holds.
pub open spec fn field_value(v: MemberV) -> ValueV {
    match v {
        MemberV::Field(fv) => fv,
        _ => ValueV::Many(Seq::empty()),
    }
}

/// Each list matches its length field.
pub open spec fn member_lengths_ok(m: MemberPlanV, v: MemberV, prior: Seq<MemberV>) -> bool {
    match (m, v) {
        (MemberPlanV::Field(fp), MemberV::Field(fv)) => match (fp.shape, fv) {
            (Shape::List { length, .. }, ValueV::Many(items)) => items.len() == int_value(
                field_value(prior[length as int]),
            ),
            _ => true,
        },
        (MemberPlanV::Union { variants, .. }, MemberV::Union(k, fs)) => k < variants.len()
            ==> fields_lengths_ok(variants[k as int], fs),
        _ => true,
    }
}

/// Each union's variant index is its discriminant's value and names a variant.
pub open spec fn member_variant_ok(m: MemberPlanV, v: MemberV, prior: Seq<MemberV>) -> bool {
    match (m, v) {
        (MemberPlanV::Union { variant, variants, .. }, MemberV::Union(k, _)) => k < variants.len()
            && k == int_value(field_value(prior[variant as int])),
        _ => true,
    }
}

/// Every string in a member can be framed.
pub open spec fn member_framable(m: MemberPlanV, v: MemberV) -> bool {
    match (m, v) {
        (MemberPlanV::Field(fp), MemberV::Field(fv)) => value_framable(fp.shape, fv),
        (MemberPlanV::Union { variants, .. }, MemberV::Union(k, fs)) => k < variants.len()
            ==> fields_framable(variants[k as int], fs),
        _ => true,
    }
}

/// Each list of a record, its unions' included, matches its length field.
pub open spec fn record_lengths_ok(ms: Seq<MemberPlanV>, vs: Seq<MemberV>) -> bool {
    forall|i: int| 0 <= i < vs.len() ==> #[trigger] member_lengths_ok(ms[i], vs[i], vs.take(i))
}

/// Each union of a record is in the variant its discriminant names.
pub open spec fn record_variants_ok(ms: Seq<MemberPlanV>, vs: Seq<MemberV>) -> bool {
    forall|i: int| 0 <= i < vs.len() ==> #[trigger] member_variant_ok(ms[i], vs[i], vs.take(i))
}

/// Every string of a record can be framed.
pub open spec fn record_framable(ms: Seq<MemberPlanV>, vs: Seq<MemberV>) -> bool {
    forall|i: int| 0 <= i < vs.len() ==> #[trigger] member_framable(ms[i], vs[i])
}

/// What encoding a typed record reports before it writes anything: a list
/// that disagrees with its length field, then a union whose variant does not
/// match its discriminant, then a string that cannot be framed.
pub open spec fn record_check(ms: Seq<MemberPlanV>, vs: Seq<MemberV>) -> Result<(), BitPackError> {
    if !record_lengths_ok(ms, vs) {
        Err(BitPackError::LengthMismatch)
    } else if !record_variants_ok(ms, vs) {
        Err(BitPackError::InvalidUnionVariant)
    } else if !record_framable(ms, vs) {
        Err(BitPackError::InvalidStringEncoding)
    } else {
        Ok(())
    }
}

/// A record value that its plan can encode.
pub open spec fn record_ok(ms: Seq<MemberPlanV>, vs: Seq<MemberV>) -> bool {
    record_typed(ms, vs) && record_check(ms, vs) is Ok
}

// ---------------------------------------------------------------------------
// Decoding

/// The result of decoding: the value and the position after it.
pub type Parsed<T> = Result<(T, int), BitPackError>;

/// Decodes an unsigned integer of `n` bits at `p`.
pub open spec fn parse_uint(s: Seq<bool>, p: int, n: nat) -> Parsed<nat> {
    if p + n <= s.len() {
        Ok((uint_of(s.subrange(p, p + n)), p + n))
    } else {
        Err(BitPackError::OutOfBounds)
    }
}

/// Decodes `n` code units of `w` bits each at `p`.
pub open spec fn parse_units(s: Seq<bool>, p: int, n: nat, w: nat) -> Parsed<Seq<u16>>
    decreases n,
{
    if n == 0 {
        Ok((Seq::empty(), p))
    } else {
        match parse_units(s, p, (n - 1) as nat, w) {
            Ok((u, q)) => match parse_uint(s, q, w) {
                Ok((x, r)) => Ok((u.push(x as u16), r)),
                Err(e) => Err(e),
            },
            Err(e) => Err(e),
        }
    }
}

/// Decodes a string's length prefix at `p`.
pub open spec fn parse_len(s: Seq<bool>, p: int) -> Parsed<nat> {
    if p + 1 <= s.len() {
        parse_uint(s, p + 1, if s[p] {
            15
        } else {
            7
        })
    } else {
        Err(BitPackError::OutOfBounds)
    }
}

/// Decodes one element at `p`.
pub open spec fn parse_scalar(sc: Scalar, s: Seq<bool>, p: int) -> Parsed<ItemV> {
    match sc {
        Scalar::Int { kind, bits } => match parse_uint(s, p, bits as nat) {
            Ok((u, q)) => Ok((ItemV::Int(native(kind, u)), q)),
            Err(e) => Err(e),
        },
        Scalar::Bool => if p + 1 <= s.len() {
            Ok((ItemV::Bool(s[p]), p + 1))
        } else {
            Err(BitPackError::OutOfBounds)
        },
        Scalar::Float => match parse_uint(s, p, 32) {
            Ok((u, q)) => Ok((ItemV::Float(u as u32), q)),
            Err(e) => Err(e),
        },
        Scalar::Text => match parse_len(s, p) {
            Ok((n, q)) => match parse_units(s, q, n, 16) {
                Ok((u, r)) => if is_utf16(u) {
                    Ok((ItemV::Text(text_of(u)), r))
                } else {
                    Err(BitPackError::InvalidStringEncoding)
                },
                Err(e) => Err(e),
            },
            Err(e) => Err(e),
        },
        Scalar::Ascii => match parse_len(s, p) {
            Ok((n, q)) => match parse_units(s, q, n, 8) {
                Ok((u, r)) => if forall|i: int| 0 <= i < u.len() ==> #[trigger] u[i] < 0x80 {
                    Ok((ItemV::Text(ascii_chars(u)), r))
                } else {
                    Err(BitPackError::InvalidStringEncoding)
                },
                Err(e) => Err(e),
            },
            Err(e) => Err(e),
        },
    }
}

/// Decodes `n` elements at `p`.
pub open spec fn parse_items(sc: Scalar, s: Seq<bool>, p: int, n: nat) -> Parsed<Seq<ItemV>>
    decreases n,
{
    if n == 0 {
        Ok((Seq::empty(), p))
    } else {
        match parse_items(sc, s, p, (n - 1) as nat) {
            Ok((items, q)) => match parse_scalar(sc, s, q) {
                Ok((it, r)) => Ok((items.push(it), r)),
                Err(e) => Err(e),
            },
            Err(e) => Err(e),
        }
    }
}

/// Skips a field's alignment padding at `p`.
pub open spec fn parse_pad(aligned: bool, s: Seq<bool>, p: int) -> Parsed<()> {
    if !aligned {
        Ok(((), p))
    } else if p + pad_len(p) <= s.len() {
        Ok(((), p + pad_len(p)))
    } else {
        Err(BitPackError::OutOfBounds)
    }
}

/// The number of elements a length field's value asks for.
pub open spec fn count_of(n: int) -> nat {
    if n >= 0 {
        n as nat
    } else {
        0
    }
}

/// Decodes a field's shape at `p`; `n` is the value of its length field.
pub open spec fn parse_shape(sh: Shape, s: Seq<bool>, p: int, n: int) -> Parsed<ValueV> {
    match sh {
        Shape::Single(sc) => match parse_scalar(sc, s, p) {
            Ok((it, q)) => Ok((ValueV::One(it), q)),
            Err(e) => Err(e),
        },
        Shape::Fixed { elem, count } => match parse_items(elem, s, p, count as nat) {
            Ok((items, q)) => Ok((ValueV::Many(items), q)),
            Err(e) => Err(e),
        },
        Shape::List { elem, .. } => match parse_items(elem, s, p, count_of(n)) {
            Ok((items, q)) => Ok((ValueV::Many(items), q)),
            Err(e) => Err(e),
        },
    }
}

/// The value of the length field that a shape names among `prior`.
pub open spec fn shape_length(sh: Shape, prior: Seq<ValueV>) -> int {
    match sh {
        Shape::List { length, .. } => int_value(prior[length as int]),
        _ => 0,
    }
}

/// Decodes a field at `p` whose length field holds `n`: its padding, then its shape.
pub open spec fn parse_value(fp: FieldPlan, s: Seq<bool>, p: int, n: int) -> Parsed<ValueV> {
    match parse_pad(fp.aligned, s, p) {
        Ok((_, q)) => parse_shape(fp.shape, s, q, n),
        Err(e) => Err(e),
    }
}

/// Decodes a field at `p`, after `prior` earlier fields.
pub open spec fn parse_field(fp: FieldPlan, prior: Seq<ValueV>, s: Seq<bool>, p: int) -> Parsed<
    ValueV,
> {
    parse_value(fp, s, p, shape_length(fp.shape, prior))
}

/// Decodes a list of fields at `p`.
pub open spec fn parse_fields(fps: Seq<FieldPlan>, s: Seq<bool>, p: int) -> Parsed<Seq<ValueV>>
    decreases fps.len(),
{
    if fps.len() == 0 {
        Ok((Seq::empty(), p))
    } else {
        match parse_fields(fps.drop_last(), s, p) {
            Ok((vs, q)) => match parse_field(fps.last(), vs, s, q) {
                Ok((v, r)) => Ok((vs.push(v), r)),
                Err(e) => Err(e),
            },
            Err(e) => Err(e),
        }
    }
}

/// The value of the length field that a shape names among earlier members.
pub open spec fn member_length(sh: Shape, prior: Seq<MemberV>) -> int {
    match sh {
        Shape::List { length, .. } => int_value(field_value(prior[length as int])),
        _ => 0,
    }
}

/// Decodes a member at `p`, after `prior` earlier members.
pub open spec fn parse_member(m: MemberPlanV, prior: Seq<MemberV>, s: Seq<bool>, p: int) -> Parsed<
    MemberV,
> {
    match m {
        MemberPlanV::Field(fp) => match parse_value(fp, s, p, member_length(fp.shape, prior)) {
            Ok((v, r)) => Ok((MemberV::Field(v), r)),
            Err(e) => Err(e),
        },
        MemberPlanV::Union { variant, aligned, variants } => match parse_pad(aligned, s, p) {
            Ok((_, q)) => {
                let k = int_value(field_value(prior[variant as int]));
                if 0 <= k < variants.len() {
                    match parse_fields(variants[k], s, q) {
                        Ok((fs, r)) => Ok((MemberV::Union(k as nat, fs), r)),
                        Err(e) => Err(e),
                    }
                } else {
                    Err(BitPackError::InvalidUnionVariant)
                }
            },
            Err(e) => Err(e),
        },
    }
}

/// Decodes a record at `p`.
pub open spec fn parse_record(ms: Seq<MemberPlanV>, s: Seq<bool>, p: int) -> Parsed<Seq<MemberV>>
    decreases ms.len(),
{
    if ms.len() == 0 {
        Ok((Seq::empty(), p))
    } else {
        match parse_record(ms.drop_last(), s, p) {
            Ok((vs, q)) => match parse_member(ms.last(), vs, s, q) {
                Ok((v, r)) => Ok((vs.push(v), r)),
                Err(e) => Err(e),
            },
            Err(e) => Err(e),
        }
    }
}

} // verus!
