//! The generalized field value model: one closed variant type for every
//! decoded value, and records unifying singular and repeated storage.

use crate::Span;
use crate::descriptor::MessageDescriptor;
use vstd::prelude::*;

verus! {

/// One decoded value of a field.
///
/// Byte and string payloads are spans into the caller's input buffer, never
/// copies. Floating-point values are carried as their IEEE-754 bit patterns.
/// A message-typed field keeps its undecoded byte span together with the
/// index of its message descriptor, to be decoded lazily on access.
#[derive(Clone, Copy, PartialEq, Eq, Structural, Debug)]
pub enum SingleFieldValue {
    /// A boolean value.
    Bool(bool),
    /// A 32-bit signed integer.
    I32(i32),
    /// A 64-bit signed integer.
    I64(i64),
    /// A 32-bit unsigned integer.
    U32(u32),
    /// A 64-bit unsigned integer.
    U64(u64),
    /// The bit pattern of a 32-bit floating point value.
    F32(u32),
    /// The bit pattern of a 64-bit floating point value.
    F64(u64),
    /// A byte payload, borrowed from the input buffer.
    Bytes(Span),
    /// A string payload, borrowed from the input buffer.
    Str(Span),
    /// An enum value, kept as its raw number until resolution.
    Enum(i32),
    /// An undecoded nested message: descriptor index and borrowed byte span.
    LazyMessage { descriptor: usize, data: Span },
    /// A null value (synthesized for absent optional and message fields).
    Null,
    /// The field's explicit default, borrowed from its descriptor on access.
    BorrowedDefaultValue,
}

/// The values of one repeated field, in wire-encounter order.
pub type RepeatedFieldValue = Vec<SingleFieldValue>;

/// A singular or repeated payload, unified for traversal.
pub enum GeneralizedFieldValue {
    Single(SingleFieldValue),
    Repeated(RepeatedFieldValue),
}

/// One decoded field record: which declared field it belongs to, and its
/// payload.
#[derive(Clone, Copy, Debug)]
pub struct Field<V> {
    /// Index of the field's descriptor within the owning message descriptor.
    pub descriptor: usize,
    /// The payload: one value, or a sequence of values.
    pub value: V,
    /// The wire field number.
    pub tag: u32,
}

/// One decoded message: its singular field records (tag-sorted, one per
/// declared non-repeated field) and its repeated field records (declaration
/// order, one per declared repeated field).
pub struct LazliyParsedMessage {
    pub single_fields: Vec<Field<SingleFieldValue>>,
    pub repeated_fields: Vec<Field<RepeatedFieldValue>>,
}

impl SingleFieldValue {
    /// Every borrowed payload of the value lies inside the byte region
    /// `lo..hi`, and a lazy submessage span is strictly shorter than the
    /// region, so lazy decoding terminates.
    pub open spec fn spans_wf(self, lo: int, hi: int) -> bool {
        match self {
            SingleFieldValue::Bytes(s) => s.len > 0 ==> s.inside(lo, hi),
            SingleFieldValue::Str(s) => s.len > 0 ==> s.inside(lo, hi),
            SingleFieldValue::LazyMessage { descriptor, data } => data.inside(lo, hi)
                && data.len < hi - lo,
            _ => true,
        }
    }
}

/// Abstraction of one repeated field record: descriptor index, tag, and the
/// value sequence.
pub open spec fn repeated_abs(f: Field<RepeatedFieldValue>) -> (usize, u32, Seq<SingleFieldValue>) {
    (f.descriptor, f.tag, f.value@)
}

/// A singular record points at a declared non-repeated field, carries its
/// number as tag, and borrows only from `lo..hi`.
pub open spec fn single_record_wf(
    f: Field<SingleFieldValue>,
    md: MessageDescriptor,
    lo: int,
    hi: int,
) -> bool {
    &&& f.descriptor < md.fields@.len()
    &&& !md.fields@[f.descriptor as int].is_repeated()
    &&& f.tag == md.fields@[f.descriptor as int].number
    &&& f.value.spans_wf(lo, hi)
}

/// A repeated record points at a declared repeated field, carries its number
/// as tag, and all of its values borrow only from `lo..hi`.
pub open spec fn repeated_record_wf(
    f: Field<RepeatedFieldValue>,
    md: MessageDescriptor,
    lo: int,
    hi: int,
) -> bool {
    &&& f.descriptor < md.fields@.len()
    &&& md.fields@[f.descriptor as int].is_repeated()
    &&& f.tag == md.fields@[f.descriptor as int].number
    &&& forall|k: int| #![auto] 0 <= k < f.value@.len() ==> f.value@[k].spans_wf(lo, hi)
}

impl LazliyParsedMessage {
    /// The structural invariant of a decoded message with respect to the
    /// message descriptor it was decoded against and the byte region
    /// `lo..hi` it borrows from.
    pub open spec fn wf(self, md: MessageDescriptor, lo: int, hi: int) -> bool {
        &&& forall|i: int|
            0 <= i < self.single_fields@.len() ==> single_record_wf(
                #[trigger] self.single_fields@[i],
                md,
                lo,
                hi,
            )
        &&& forall|i: int, j: int|
            0 <= i < j < self.single_fields@.len() ==> self.single_fields@[i].tag
                < self.single_fields@[j].tag
        &&& forall|i: int|
            0 <= i < self.repeated_fields@.len() ==> repeated_record_wf(
                #[trigger] self.repeated_fields@[i],
                md,
                lo,
                hi,
            )
    }
}

} // verus!
