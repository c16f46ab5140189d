//! The wire decoder: parsing one message's bytes into field records against
//! a descriptor, with protobuf overwrite, accumulation and default
//! semantics, and the traversal that resolves decoded records into
//! visitor-ready values, decoding nested messages lazily.

use crate::Span;
use crate::arraypool::ArrayPool;
use crate::descriptor::{
    Descriptors, FieldDescriptor, FieldType, MessageDescriptor, find_field, spec_find_field,
};
use crate::error::Error;
use crate::value::{Field, LazliyParsedMessage, SingleFieldValue};
use crate::wire::{
    le_value, low32, read_fixed32, read_fixed64, read_varint, spec_as_i32, spec_as_i64,
    spec_low32, spec_zigzag32, spec_zigzag64, varint_len, varint_value, as_i32, as_i64, zigzag32,
    zigzag64,
};
use vstd::prelude::*;

verus! {

/// The varint at `pos`: value and position after it, or `None` when
/// malformed.
pub open spec fn spec_varint(b: Seq<u8>, pos: int, end: int) -> Option<(int, int)> {
    match varint_len(b, pos, end) {
        Some(n) => Some((varint_value(b, pos, n), pos + n)),
        None => None,
    }
}

/// The length-delimited payload at `pos`: a length varint followed by that
/// many bytes. Returns the payload span and the position after it.
pub open spec fn spec_read_ld(b: Seq<u8>, pos: int, end: int) -> Result<(Span, int), Error> {
    match spec_varint(b, pos, end) {
        None => Err(Error::MalformedInput),
        Some((l, p1)) => if l <= end - p1 {
            Ok((Span { start: p1 as usize, len: l as usize }, p1 + l))
        } else {
            Err(Error::MalformedInput)
        },
    }
}

/// What decoding one wire value for a field of declared type `ft` at `pos`
/// yields: the decoded value and the position after it, or the error that
/// stops the whole decode.
pub open spec fn spec_parse_value(ft: FieldType, b: Seq<u8>, pos: int, end: int) -> Result<
    (SingleFieldValue, int),
    Error,
> {
    match ft {
        FieldType::UnresolvedMessage(_) => Err(Error::UnresolvedType),
        FieldType::UnresolvedEnum(_) => Err(Error::UnresolvedType),
        FieldType::Group => Err(Error::UnsupportedWireConstruct),
        FieldType::Double => match spec_fixed(b, pos, end, 8) {
            Ok((v, p)) => Ok((SingleFieldValue::F64(v as u64), p)),
            Err(e) => Err(e),
        },
        FieldType::Float => match spec_fixed(b, pos, end, 4) {
            Ok((v, p)) => Ok((SingleFieldValue::F32(v as u32), p)),
            Err(e) => Err(e),
        },
        FieldType::Int64 => match spec_varint(b, pos, end) {
            Some((v, p)) => Ok((SingleFieldValue::I64(spec_as_i64(v as u64)), p)),
            None => Err(Error::MalformedInput),
        },
        FieldType::UInt64 => match spec_varint(b, pos, end) {
            Some((v, p)) => Ok((SingleFieldValue::U64(v as u64), p)),
            None => Err(Error::MalformedInput),
        },
        FieldType::Int32 => match spec_varint(b, pos, end) {
            Some((v, p)) => Ok((SingleFieldValue::I32(spec_as_i32(spec_low32(v as u64))), p)),
            None => Err(Error::MalformedInput),
        },
        FieldType::Fixed64 => match spec_fixed(b, pos, end, 8) {
            Ok((v, p)) => Ok((SingleFieldValue::U64(v as u64), p)),
            Err(e) => Err(e),
        },
        FieldType::Fixed32 => match spec_fixed(b, pos, end, 4) {
            Ok((v, p)) => Ok((SingleFieldValue::U32(v as u32), p)),
            Err(e) => Err(e),
        },
        FieldType::Bool => match spec_varint(b, pos, end) {
            Some((v, p)) => Ok((SingleFieldValue::Bool(v != 0), p)),
            None => Err(Error::MalformedInput),
        },
        FieldType::Str => match spec_read_ld(b, pos, end) {
            Ok((s, p)) => Ok((SingleFieldValue::Str(s), p)),
            Err(e) => Err(e),
        },
        FieldType::Bytes => match spec_read_ld(b, pos, end) {
            Ok((s, p)) => Ok((SingleFieldValue::Bytes(s), p)),
            Err(e) => Err(e),
        },
        FieldType::UInt32 => match spec_varint(b, pos, end) {
            Some((v, p)) => Ok((SingleFieldValue::U32(spec_low32(v as u64)), p)),
            None => Err(Error::MalformedInput),
        },
        FieldType::Enum(_) => match spec_varint(b, pos, end) {
            Some((v, p)) => Ok((SingleFieldValue::Enum(spec_as_i32(spec_low32(v as u64))), p)),
            None => Err(Error::MalformedInput),
        },
        FieldType::SFixed32 => match spec_fixed(b, pos, end, 4) {
            Ok((v, p)) => Ok((SingleFieldValue::I32(spec_as_i32(v as u32)), p)),
            Err(e) => Err(e),
        },
        FieldType::SFixed64 => match spec_fixed(b, pos, end, 8) {
            Ok((v, p)) => Ok((SingleFieldValue::I64(spec_as_i64(v as u64)), p)),
            Err(e) => Err(e),
        },
        FieldType::SInt32 => match spec_varint(b, pos, end) {
            Some((v, p)) => Ok((SingleFieldValue::I32(spec_zigzag32(spec_low32(v as u64))), p)),
            None => Err(Error::MalformedInput),
        },
        FieldType::SInt64 => match spec_varint(b, pos, end) {
            Some((v, p)) => Ok((SingleFieldValue::I64(spec_zigzag64(v as u64)), p)),
            None => Err(Error::MalformedInput),
        },
        FieldType::Message(mi) => match spec_read_ld(b, pos, end) {
            Ok((s, p)) => Ok((SingleFieldValue::LazyMessage { descriptor: mi, data: s }, p)),
            Err(e) => Err(e),
        },
    }
}

/// The `n`-byte little-endian word at `pos`, or `MalformedInput` when fewer
/// than `n` bytes remain.
pub open spec fn spec_fixed(b: Seq<u8>, pos: int, end: int, n: nat) -> Result<(int, int), Error> {
    if pos + n <= end {
        Ok((le_value(b, pos, n), pos + n))
    } else {
        Err(Error::MalformedInput)
    }
}

impl SingleFieldValue {
    /// Decodes exactly one wire value at `pos` per the field's declared
    /// type, matching [`spec_parse_value`]. Every span of the returned
    /// value stays inside `pos - 1 .. end` (the tag before `pos` took at
    /// least one byte, so a lazy span is strictly shorter than the
    /// enclosing region).
    pub fn parse_from_reader(
        field_type: &FieldType,
        bytes: &[u8],
        pos: usize,
        end: usize,
    ) -> (r: Result<(SingleFieldValue, usize), Error>)
        requires
            pos <= end,
            end <= bytes@.len(),
        ensures
            match r {
                Ok((v, p)) => {
                    &&& spec_parse_value(*field_type, bytes@, pos as int, end as int) == Ok::<
                        _,
                        Error,
                    >((v, p as int))
                    &&& pos <= p <= end
                    &&& v.spans_wf(pos - 1, end as int)
                },
                Err(e) => spec_parse_value(*field_type, bytes@, pos as int, end as int) == Err::<
                    (SingleFieldValue, int),
                    _,
                >(e),
            },
    {
        match field_type {
            FieldType::UnresolvedMessage(_) => Err(Error::UnresolvedType),
            FieldType::UnresolvedEnum(_) => Err(Error::UnresolvedType),
            FieldType::Group => Err(Error::UnsupportedWireConstruct),
            FieldType::Double => match read_fixed64(bytes, pos, end) {
                Ok((v, p)) => Ok((SingleFieldValue::F64(v), p)),
                Err(e) => Err(e),
            },
            FieldType::Float => match read_fixed32(bytes, pos, end) {
                Ok((v, p)) => Ok((SingleFieldValue::F32(v), p)),
                Err(e) => Err(e),
            },
            FieldType::Int64 => match read_varint(bytes, pos, end) {
                Ok((v, p)) => Ok((SingleFieldValue::I64(as_i64(v)), p)),
                Err(e) => Err(e),
            },
            FieldType::UInt64 => match read_varint(bytes, pos, end) {
                Ok((v, p)) => Ok((SingleFieldValue::U64(v), p)),
                Err(e) => Err(e),
            },
            FieldType::Int32 => match read_varint(bytes, pos, end) {
                Ok((v, p)) => Ok((SingleFieldValue::I32(as_i32(low32(v))), p)),
                Err(e) => Err(e),
            },
            FieldType::Fixed64 => match read_fixed64(bytes, pos, end) {
                Ok((v, p)) => Ok((SingleFieldValue::U64(v), p)),
                Err(e) => Err(e),
            },
            FieldType::Fixed32 => match read_fixed32(bytes, pos, end) {
                Ok((v, p)) => Ok((SingleFieldValue::U32(v), p)),
                Err(e) => Err(e),
            },
            FieldType::Bool => match read_varint(bytes, pos, end) {
                Ok((v, p)) => Ok((SingleFieldValue::Bool(v != 0), p)),
                Err(e) => Err(e),
            },
            FieldType::Str => match read_length_delimited(bytes, pos, end) {
                Ok((s, p)) => Ok((SingleFieldValue::Str(s), p)),
                Err(e) => Err(e),
            },
            FieldType::Bytes => match read_length_delimited(bytes, pos, end) {
                Ok((s, p)) => Ok((SingleFieldValue::Bytes(s), p)),
                Err(e) => Err(e),
            },
            FieldType::UInt32 => match read_varint(bytes, pos, end) {
                Ok((v, p)) => Ok((SingleFieldValue::U32(low32(v)), p)),
                Err(e) => Err(e),
            },
            FieldType::Enum(_) => match read_varint(bytes, pos, end) {
                Ok((v, p)) => Ok((SingleFieldValue::Enum(as_i32(low32(v))), p)),
                Err(e) => Err(e),
            },
            FieldType::SFixed32 => match read_fixed32(bytes, pos, end) {
                Ok((v, p)) => Ok((SingleFieldValue::I32(as_i32(v)), p)),
                Err(e) => Err(e),
            },
            FieldType::SFixed64 => match read_fixed64(bytes, pos, end) {
                Ok((v, p)) => Ok((SingleFieldValue::I64(as_i64(v)), p)),
                Err(e) => Err(e),
            },
            FieldType::SInt32 => match read_varint(bytes, pos, end) {
                Ok((v, p)) => Ok((SingleFieldValue::I32(zigzag32(low32(v))), p)),
                Err(e) => Err(e),
            },
            FieldType::SInt64 => match read_varint(bytes, pos, end) {
                Ok((v, p)) => Ok((SingleFieldValue::I64(zigzag64(v)), p)),
                Err(e) => Err(e),
            },
            FieldType::Message(mi) => match read_length_delimited(bytes, pos, end) {
                Ok((s, p)) => Ok((SingleFieldValue::LazyMessage { descriptor: *mi, data: s }, p)),
                Err(e) => Err(e),
            },
        }
    }
}

/// Reads a length-delimited payload at `pos`, matching [`spec_read_ld`].
pub fn read_length_delimited(bytes: &[u8], pos: usize, end: usize) -> (r: Result<
    (Span, usize),
    Error,
>)
    requires
        pos <= end,
        end <= bytes@.len(),
    ensures
        match r {
            Ok((s, p)) => {
                &&& spec_read_ld(bytes@, pos as int, end as int) == Ok::<_, Error>((s, p as int))
                &&& pos < s.start
                &&& s.start + s.len == p
                &&& p <= end
            },
            Err(e) => spec_read_ld(bytes@, pos as int, end as int) == Err::<(Span, int), _>(e),
        },
{
    match read_varint(bytes, pos, end) {
        Err(e) => Err(e),
        Ok((l, p1)) => {
            if l <= (end - p1) as u64 {
                let li = l as usize;
                Ok((Span { start: p1, len: li }, p1 + li))
            } else {
                Err(Error::MalformedInput)
            }
        },
    }
}

/// Where skipping one unknown field's payload ends, given the wire type in
/// the low three bits of `tag`: varint, eight bytes, length-delimited, or
/// four bytes. Group wire types are unsupported; the remaining wire types
/// are invalid.
pub open spec fn spec_skip_unknown(b: Seq<u8>, pos: int, end: int, tag: u32) -> Result<int, Error> {
    let wt = tag % 8;
    if wt == 0 {
        match spec_varint(b, pos, end) {
            Some((v, p)) => Ok(p),
            None => Err(Error::MalformedInput),
        }
    } else if wt == 1 {
        if pos + 8 <= end {
            Ok(pos + 8)
        } else {
            Err(Error::MalformedInput)
        }
    } else if wt == 2 {
        match spec_read_ld(b, pos, end) {
            Ok((s, p)) => Ok(p),
            Err(e) => Err(e),
        }
    } else if wt == 5 {
        if pos + 4 <= end {
            Ok(pos + 4)
        } else {
            Err(Error::MalformedInput)
        }
    } else if wt == 3 || wt == 4 {
        Err(Error::UnsupportedWireConstruct)
    } else {
        Err(Error::MalformedInput)
    }
}

/// Consumes and discards one unknown field's payload, matching
/// [`spec_skip_unknown`].
pub fn skip_unknown(bytes: &[u8], pos: usize, end: usize, tag: u32) -> (r: Result<usize, Error>)
    requires
        pos <= end,
        end <= bytes@.len(),
    ensures
        match r {
            Ok(p) => spec_skip_unknown(bytes@, pos as int, end as int, tag) == Ok::<_, Error>(
                p as int,
            ) && pos <= p <= end,
            Err(e) => spec_skip_unknown(bytes@, pos as int, end as int, tag) == Err::<int, _>(e),
        },
{
    let wt = tag % 8;
    if wt == 0 {
        match read_varint(bytes, pos, end) {
            Ok((_, p)) => Ok(p),
            Err(e) => Err(e),
        }
    } else if wt == 1 {
        if end - pos >= 8 {
            Ok(pos + 8)
        } else {
            Err(Error::MalformedInput)
        }
    } else if wt == 2 {
        match read_length_delimited(bytes, pos, end) {
            Ok((_, p)) => Ok(p),
            Err(e) => Err(e),
        }
    } else if wt == 5 {
        if end - pos >= 4 {
            Ok(pos + 4)
        } else {
            Err(Error::MalformedInput)
        }
    } else if wt == 3 || wt == 4 {
        Err(Error::UnsupportedWireConstruct)
    } else {
        Err(Error::MalformedInput)
    }
}

/// The default value synthesized for a non-repeated field that is absent
/// from the wire: the descriptor's explicit default if present, else `Null`
/// for an optional field, else the declared type's zero value. A field of
/// unresolved or group type with no other default fails the decode.
pub open spec fn spec_default(fd: FieldDescriptor) -> Result<SingleFieldValue, Error> {
    if fd.default_value is Some {
        Ok(SingleFieldValue::BorrowedDefaultValue)
    } else if fd.label is Optional {
        Ok(SingleFieldValue::Null)
    } else {
        match fd.field_type {
            FieldType::UnresolvedMessage(_) => Err(Error::UnresolvedType),
            FieldType::UnresolvedEnum(_) => Err(Error::UnresolvedType),
            FieldType::Group => Err(Error::UnsupportedWireConstruct),
            FieldType::Double => Ok(SingleFieldValue::F64(0)),
            FieldType::Float => Ok(SingleFieldValue::F32(0)),
            FieldType::Int64 => Ok(SingleFieldValue::I64(0)),
            FieldType::UInt64 => Ok(SingleFieldValue::U64(0)),
            FieldType::Int32 => Ok(SingleFieldValue::I32(0)),
            FieldType::Fixed64 => Ok(SingleFieldValue::U64(0)),
            FieldType::Fixed32 => Ok(SingleFieldValue::U32(0)),
            FieldType::Bool => Ok(SingleFieldValue::Bool(false)),
            FieldType::Str => Ok(SingleFieldValue::Str(Span { start: 0, len: 0 })),
            FieldType::Bytes => Ok(SingleFieldValue::Bytes(Span { start: 0, len: 0 })),
            FieldType::UInt32 => Ok(SingleFieldValue::U32(0)),
            FieldType::Enum(_) => Ok(SingleFieldValue::Enum(0)),
            FieldType::SFixed32 => Ok(SingleFieldValue::I32(0)),
            FieldType::SFixed64 => Ok(SingleFieldValue::I64(0)),
            FieldType::SInt32 => Ok(SingleFieldValue::I32(0)),
            FieldType::SInt64 => Ok(SingleFieldValue::I64(0)),
            FieldType::Message(_) => Ok(SingleFieldValue::Null),
        }
    }
}

/// Synthesizes the default record value for a non-repeated field, matching
/// [`spec_default`].
pub fn compute_default_value_for_field(fd: &FieldDescriptor) -> (r: Result<SingleFieldValue, Error>)
    ensures
        r == spec_default(*fd),
{
    if fd.default_value.is_some() {
        Ok(SingleFieldValue::BorrowedDefaultValue)
    } else if fd.label == crate::descriptor::FieldLabel::Optional {
        Ok(SingleFieldValue::Null)
    } else {
        match &fd.field_type {
            FieldType::UnresolvedMessage(_) => Err(Error::UnresolvedType),
            FieldType::UnresolvedEnum(_) => Err(Error::UnresolvedType),
            FieldType::Group => Err(Error::UnsupportedWireConstruct),
            FieldType::Double => Ok(SingleFieldValue::F64(0)),
            FieldType::Float => Ok(SingleFieldValue::F32(0)),
            FieldType::Int64 => Ok(SingleFieldValue::I64(0)),
            FieldType::UInt64 => Ok(SingleFieldValue::U64(0)),
            FieldType::Int32 => Ok(SingleFieldValue::I32(0)),
            FieldType::Fixed64 => Ok(SingleFieldValue::U64(0)),
            FieldType::Fixed32 => Ok(SingleFieldValue::U32(0)),
            FieldType::Bool => Ok(SingleFieldValue::Bool(false)),
            FieldType::Str => Ok(SingleFieldValue::Str(Span::empty())),
            FieldType::Bytes => Ok(SingleFieldValue::Bytes(Span::empty())),
            FieldType::UInt32 => Ok(SingleFieldValue::U32(0)),
            FieldType::Enum(_) => Ok(SingleFieldValue::Enum(0)),
            FieldType::SFixed32 => Ok(SingleFieldValue::I32(0)),
            FieldType::SFixed64 => Ok(SingleFieldValue::I64(0)),
            FieldType::SInt32 => Ok(SingleFieldValue::I32(0)),
            FieldType::SInt64 => Ok(SingleFieldValue::I64(0)),
            FieldType::Message(_) => Ok(SingleFieldValue::Null),
        }
    }
}

/// The first error among the defaults of the declared non-repeated fields
/// at or after position `i`, if any: decoding fails fast on it before any
/// wire byte is read.
pub open spec fn spec_seed_error_from(fields: Seq<FieldDescriptor>, i: int) -> Option<Error>
    decreases fields.len() - i,
{
    if i < 0 || i >= fields.len() {
        None
    } else if fields[i].is_repeated() {
        spec_seed_error_from(fields, i + 1)
    } else {
        match spec_default(fields[i]) {
            Err(e) => Some(e),
            Ok(_) => spec_seed_error_from(fields, i + 1),
        }
    }
}

/// The sequence of recognized wire occurrences in `pos..end`: one pair
/// (declared field index, decoded value) per wire field whose number is
/// declared, in wire-encounter order; unknown field numbers are skipped.
/// An error anywhere stops the scan.
pub open spec fn spec_scan(md: MessageDescriptor, b: Seq<u8>, pos: int, end: int) -> Result<
    Seq<(usize, SingleFieldValue)>,
    Error,
>
    decreases end - pos,
{
    if pos >= end {
        Ok(Seq::empty())
    } else {
        match spec_varint(b, pos, end) {
            None => Err(Error::MalformedInput),
            Some((tagv, p1)) => {
                let tag = spec_low32(tagv as u64);
                let num = tag / 8;
                match spec_find_field(md, num) {
                    Some(fi) => match spec_parse_value(md.fields@[fi].field_type, b, p1, end) {
                        Err(e) => Err(e),
                        Ok((v, p2)) => if pos < p2 <= end {
                            match spec_scan(md, b, p2, end) {
                                Err(e) => Err(e),
                                Ok(rest) => Ok(seq![(fi as usize, v)] + rest),
                            }
                        } else {
                            Err(Error::MalformedInput)
                        },
                    },
                    None => match spec_skip_unknown(b, p1, end, tag) {
                        Err(e) => Err(e),
                        Ok(p2) => if pos < p2 <= end {
                            spec_scan(md, b, p2, end)
                        } else {
                            Err(Error::MalformedInput)
                        },
                    },
                }
            },
        }
    }
}

/// The values the scan recorded for declared field `fi`, in wire order.
pub open spec fn occurrences(scan: Seq<(usize, SingleFieldValue)>, fi: int) -> Seq<
    SingleFieldValue,
>
    decreases scan.len(),
{
    if scan.len() == 0 {
        Seq::empty()
    } else {
        let rest = occurrences(scan.drop_last(), fi);
        if scan.last().0 == fi {
            rest.push(scan.last().1)
        } else {
            rest
        }
    }
}

/// The value the decoded message ends up holding for non-repeated field
/// `fi`: the last wire occurrence if there is one, else the synthesized
/// default.
pub open spec fn final_single_value(
    md: MessageDescriptor,
    scan: Seq<(usize, SingleFieldValue)>,
    fi: int,
) -> SingleFieldValue {
    let occ = occurrences(scan, fi);
    if occ.len() > 0 {
        occ.last()
    } else {
        match spec_default(md.fields@[fi]) {
            Ok(v) => v,
            Err(_) => SingleFieldValue::Null,
        }
    }
}

/// The smallest field number above `bound` among the declared non-repeated
/// fields at or after position `i`.
pub open spec fn min_single_tag_above(fields: Seq<FieldDescriptor>, bound: int, i: int) -> Option<
    u32,
>
    decreases fields.len() - i,
{
    if i < 0 || i >= fields.len() {
        None
    } else {
        let rest = min_single_tag_above(fields, bound, i + 1);
        if !fields[i].is_repeated() && fields[i].number > bound {
            match rest {
                None => Some(fields[i].number),
                Some(t) => if fields[i].number <= t {
                    Some(fields[i].number)
                } else {
                    Some(t)
                },
            }
        } else {
            rest
        }
    }
}

/// The index of the first non-repeated field at or after position `i`
/// whose number is `num`.
pub open spec fn find_single_field_from(
    fields: Seq<FieldDescriptor>,
    num: u32,
    i: int,
) -> Option<int>
    decreases fields.len() - i,
{
    if i < 0 || i >= fields.len() {
        None
    } else if !fields[i].is_repeated() && fields[i].number == num {
        Some(i)
    } else {
        find_single_field_from(fields, num, i + 1)
    }
}

/// The final singular records with tags above `bound`, in ascending tag
/// order: one record per declared non-repeated field, holding
/// [`final_single_value`].
pub open spec fn spec_singles_from(
    md: MessageDescriptor,
    scan: Seq<(usize, SingleFieldValue)>,
    bound: int,
) -> Seq<Field<SingleFieldValue>>
    decreases 0x100000000 - bound when -1 <= bound <= 0xffffffff
{
    match min_single_tag_above(md.fields@, bound, 0) {
        None => Seq::empty(),
        Some(t) => if bound < t {
            match find_single_field_from(md.fields@, t, 0) {
                Some(fi) => seq![
                    Field {
                        descriptor: fi as usize,
                        tag: t,
                        value: final_single_value(md, scan, fi),
                    },
                ] + spec_singles_from(md, scan, t as int),
                None => Seq::empty(),
            }
        } else {
            Seq::empty()
        },
    }
}

/// The declaration-order indices of the repeated fields at or after
/// position `i`.
pub open spec fn repeated_indices_from(fields: Seq<FieldDescriptor>, i: int) -> Seq<int>
    decreases fields.len() - i,
{
    if i < 0 || i >= fields.len() {
        Seq::empty()
    } else if fields[i].is_repeated() {
        seq![i] + repeated_indices_from(fields, i + 1)
    } else {
        repeated_indices_from(fields, i + 1)
    }
}

/// A stored pool count after `k` successive acquisitions.
pub open spec fn pool_drain(c: nat, k: nat) -> nat {
    if c >= k {
        (c - k) as nat
    } else {
        0
    }
}

/// What a successful field lookup says: the found index is in range and
/// carries the looked-up number; a failed lookup says no field does.
pub proof fn lemma_find_field_props(fields: Seq<FieldDescriptor>, num: u32, i: int)
    requires
        0 <= i,
    ensures
        match crate::descriptor::find_field_from(fields, num, i) {
            Some(fi) => i <= fi < fields.len() && fields[fi].number == num,
            None => forall|j: int| i <= j < fields.len() ==> (#[trigger] fields[j]).number != num,
        },
    decreases fields.len() - i,
{
    if i < 0 || i >= fields.len() {
    } else if fields[i].number == num {
    } else {
        lemma_find_field_props(fields, num, i + 1);
    }
}

/// What a successful singular-field lookup says: the found index is in
/// range, non-repeated, and carries the looked-up number.
pub proof fn lemma_find_single_props(fields: Seq<FieldDescriptor>, num: u32, i: int)
    requires
        0 <= i,
    ensures
        match find_single_field_from(fields, num, i) {
            Some(fi) => i <= fi < fields.len() && !fields[fi].is_repeated() && fields[fi].number
                == num,
            None => forall|j: int|
                i <= j < fields.len() ==> ((#[trigger] fields[j]).is_repeated() || fields[j].number
                    != num),
        },
    decreases fields.len() - i,
{
    if i >= fields.len() {
    } else if !fields[i].is_repeated() && fields[i].number == num {
    } else {
        lemma_find_single_props(fields, num, i + 1);
    }
}

/// The declaration-order index list of repeated fields holds exactly the
/// repeated field indices at or after `i`.
pub proof fn lemma_repeated_indices(fields: Seq<FieldDescriptor>, i: int)
    requires
        0 <= i,
    ensures
        forall|k: int|
            0 <= k < repeated_indices_from(fields, i).len() ==> i <= #[trigger] repeated_indices_from(
                fields,
                i,
            )[k] < fields.len() && fields[repeated_indices_from(fields, i)[k]].is_repeated(),
        forall|fi: int|
            i <= fi < fields.len() && (#[trigger] fields[fi]).is_repeated()
                ==> repeated_indices_from(fields, i).contains(fi),
        forall|k1: int, k2: int|
            0 <= k1 < k2 < repeated_indices_from(fields, i).len()
                ==> #[trigger] repeated_indices_from(fields, i)[k1]
                < #[trigger] repeated_indices_from(fields, i)[k2],
    decreases fields.len() - i,
{
    if i < 0 || i >= fields.len() {
    } else {
        lemma_repeated_indices(fields, i + 1);
        let rest = repeated_indices_from(fields, i + 1);
        if fields[i].is_repeated() {
            let whole = repeated_indices_from(fields, i);
            assert(whole == seq![i] + rest);
            assert(whole[0] == i);
            assert forall|fi: int|
                i <= fi < fields.len() && (#[trigger] fields[fi]).is_repeated() implies whole.contains(
                fi,
            ) by {
                if fi == i {
                    assert(whole[0] == fi);
                } else {
                    let k = choose|k: int| 0 <= k < rest.len() && rest[k] == fi;
                    assert(whole[k + 1] == fi);
                }
            }
        } else {
            assert forall|fi: int|
                i <= fi < fields.len() && (#[trigger] fields[fi]).is_repeated() implies repeated_indices_from(
                fields,
                i,
            ).contains(fi) by {
                let k = choose|k: int| 0 <= k < rest.len() && rest[k] == fi;
                assert(repeated_indices_from(fields, i)[k] == fi);
            }
        }
    }
}

/// Pushing one scan entry appends its value to that field's occurrences
/// and leaves every other field's occurrences unchanged.
pub proof fn lemma_occurrences_push(
    scan: Seq<(usize, SingleFieldValue)>,
    fi: usize,
    v: SingleFieldValue,
)
    ensures
        forall|fj: int|
            #![trigger occurrences(scan.push((fi, v)), fj)]
            occurrences(scan.push((fi, v)), fj) == if fj == fi as int {
                occurrences(scan, fj).push(v)
            } else {
                occurrences(scan, fj)
            },
{
    assert(scan.push((fi, v)).drop_last() =~= scan);
}

/// The error one decode call reports, if any: the first failing default of
/// a declared non-repeated field, else the first error of the wire scan.
pub open spec fn spec_decode_err(md: MessageDescriptor, b: Seq<u8>, lo: int, hi: int) -> Option<
    Error,
> {
    match spec_seed_error_from(md.fields@, 0) {
        Some(e) => Some(e),
        None => match spec_scan(md, b, lo, hi) {
            Err(e) => Some(e),
            Ok(_) => None,
        },
    }
}

/// The invariant of one singular record while decoding: it belongs to a
/// declared non-repeated field, carries that field's number, and holds the
/// final value with respect to the wire occurrences seen so far.
pub open spec fn single_record_inv(
    f: Field<SingleFieldValue>,
    md: MessageDescriptor,
    scan: Seq<(usize, SingleFieldValue)>,
    lo: int,
    hi: int,
) -> bool {
    &&& f.descriptor < md.fields@.len()
    &&& !md.fields@[f.descriptor as int].is_repeated()
    &&& f.tag == md.fields@[f.descriptor as int].number
    &&& f.value == final_single_value(md, scan, f.descriptor as int)
    &&& f.value.spans_wf(lo, hi)
}

/// The invariant of one repeated record while decoding: it belongs to
/// declared repeated field `fi`, carries that field's number, and holds
/// exactly the wire occurrences seen so far, in order.
pub open spec fn rep_record_inv(
    f: Field<crate::value::RepeatedFieldValue>,
    md: MessageDescriptor,
    fi: int,
    scan: Seq<(usize, SingleFieldValue)>,
    lo: int,
    hi: int,
) -> bool {
    &&& f.descriptor as int == fi
    &&& 0 <= fi < md.fields@.len()
    &&& md.fields@[fi].is_repeated()
    &&& f.tag == md.fields@[fi].number
    &&& f.value@ == occurrences(scan, fi)
    &&& forall|x: int| 0 <= x < f.value@.len() ==> (#[trigger] f.value@[x]).spans_wf(lo, hi)
}

/// Finds the first singular record carrying wire number `num`.
fn find_by_tag_single(v: &Vec<Field<SingleFieldValue>>, num: u32) -> (r: Option<usize>)
    ensures
        match r {
            Some(k) => k < v@.len() && v@[k as int].tag == num,
            None => forall|x: int| 0 <= x < v@.len() ==> (#[trigger] v@[x]).tag != num,
        },
{
    let mut k: usize = 0;
    while k < v.len()
        invariant
            k <= v@.len(),
            forall|x: int| 0 <= x < k ==> (#[trigger] v@[x]).tag != num,
        decreases v@.len() - k,
    {
        if v[k].tag == num {
            return Some(k);
        }
        k = k + 1;
    }
    None
}

/// Finds the first repeated record carrying wire number `num`.
fn find_by_tag_rep(v: &Vec<Field<crate::value::RepeatedFieldValue>>, num: u32) -> (r: Option<
    usize,
>)
    ensures
        match r {
            Some(k) => k < v@.len() && v@[k as int].tag == num,
            None => forall|x: int| 0 <= x < v@.len() ==> (#[trigger] v@[x]).tag != num,
        },
{
    let mut k: usize = 0;
    while k < v.len()
        invariant
            k <= v@.len(),
            forall|x: int| 0 <= x < k ==> (#[trigger] v@[x]).tag != num,
        decreases v@.len() - k,
    {
        if v[k].tag == num {
            return Some(k);
        }
        k = k + 1;
    }
    None
}

/// Finds the declared non-repeated field with the smallest number above
/// `bound`, and the index of the first such field, matching
/// [`min_single_tag_above`] and [`find_single_field_from`].
fn find_best_single(md: &MessageDescriptor, bound: i64) -> (r: Option<(usize, u32)>)
    ensures
        match r {
            Some((fi, t)) => {
                &&& min_single_tag_above(md.fields@, bound as int, 0) == Some(t)
                &&& find_single_field_from(md.fields@, t, 0) == Some(fi as int)
                &&& t > bound
            },
            None => min_single_tag_above(md.fields@, bound as int, 0) is None,
        },
{
    let mut k = md.fields.len();
    let mut best: Option<(usize, u32)> = None;
    while k > 0
        invariant
            k <= md.fields@.len(),
            match best {
                Some((fi, t)) => {
                    &&& min_single_tag_above(md.fields@, bound as int, k as int) == Some(t)
                    &&& find_single_field_from(md.fields@, t, k as int) == Some(fi as int)
                    &&& t > bound
                },
                None => min_single_tag_above(md.fields@, bound as int, k as int) is None,
            },
        decreases k,
    {
        k = k - 1;
        let fd = &md.fields[k];
        if !fd.is_repeated() && (fd.number as i64) > bound {
            match best {
                None => {
                    best = Some((k, fd.number));
                },
                Some((_, bt)) => {
                    if fd.number <= bt {
                        best = Some((k, fd.number));
                    }
                },
            }
        }
    }
    best
}


/// Seeds one default-valued record per declared non-repeated field, in
/// declaration order, failing fast on the first field whose default
/// cannot be synthesized.
#[verifier::loop_isolation(false)]
fn seed_single_records(md: &MessageDescriptor, singles: &mut Vec<Field<SingleFieldValue>>) -> (r:
    Result<(), Error>)
    requires
        old(singles)@.len() == 0,
    ensures
        match r {
            Ok(_) => {
                &&& spec_seed_error_from(md.fields@, 0) is None
                &&& forall|k: int|
                    0 <= k < final(singles)@.len() ==> {
                        let f = #[trigger] final(singles)@[k];
                        &&& f.descriptor < md.fields@.len()
                        &&& !md.fields@[f.descriptor as int].is_repeated()
                        &&& f.tag == md.fields@[f.descriptor as int].number
                        &&& spec_default(md.fields@[f.descriptor as int]) == Ok::<_, Error>(
                            f.value,
                        )
                    }
                &&& forall|k1: int, k2: int|
                    0 <= k1 < k2 < final(singles)@.len() ==> final(singles)@[k1].descriptor
                        < final(singles)@[k2].descriptor
                &&& forall|fi: int|
                    0 <= fi < md.fields@.len() && !(#[trigger] md.fields@[fi]).is_repeated()
                        ==> exists|k: int|
                        0 <= k < final(singles)@.len() && final(singles)@[k].descriptor == fi
            },
            Err(e) => spec_seed_error_from(md.fields@, 0) == Some(e),
        },
{
    let nfields = md.fields.len();
    let mut i: usize = 0;
    while i < nfields
        invariant
            i <= nfields,
            nfields == md.fields@.len(),
            spec_seed_error_from(md.fields@, 0) == spec_seed_error_from(md.fields@, i as int),
            forall|k: int|
                0 <= k < singles@.len() ==> {
                    let f = #[trigger] singles@[k];
                    &&& f.descriptor < i
                    &&& !md.fields@[f.descriptor as int].is_repeated()
                    &&& f.tag == md.fields@[f.descriptor as int].number
                    &&& spec_default(md.fields@[f.descriptor as int]) == Ok::<_, Error>(f.value)
                },
            forall|k1: int, k2: int|
                0 <= k1 < k2 < singles@.len() ==> singles@[k1].descriptor
                    < singles@[k2].descriptor,
            forall|fi: int|
                0 <= fi < i && !(#[trigger] md.fields@[fi]).is_repeated() ==> exists|k: int|
                    0 <= k < singles@.len() && singles@[k].descriptor == fi,
        decreases nfields - i,
    {
        let fd = &md.fields[i];
        if !fd.is_repeated() {
            match compute_default_value_for_field(fd) {
                Ok(v) => {
                    let ghost spre = singles@;
                    singles.push(Field { descriptor: i, tag: fd.number, value: v });
                    proof {
                        assert forall|fi: int|
                            0 <= fi < i + 1 && !(#[trigger] md.fields@[fi]).is_repeated()
                                implies exists|k: int|
                                0 <= k < singles@.len() && singles@[k].descriptor == fi by {
                            if fi == i {
                                assert(singles@[singles@.len() - 1].descriptor == fi);
                            } else {
                                let k = choose|k: int|
                                    0 <= k < spre.len() && spre[k].descriptor == fi;
                                assert(singles@[k].descriptor == fi);
                            }
                        }
                    }
                },
                Err(e) => {
                    return Err(e);
                },
            }
        }
        i = i + 1;
    }
    Ok(())
}

/// One freshly seeded repeated record: it belongs to declared repeated
/// field `fi`, carries that field's number, and is still empty.
pub open spec fn rep_seed_inv(
    f: Field<crate::value::RepeatedFieldValue>,
    md: MessageDescriptor,
    fi: int,
) -> bool {
    &&& f.descriptor as int == fi
    &&& 0 <= fi < md.fields@.len()
    &&& md.fields@[fi].is_repeated()
    &&& f.tag == md.fields@[fi].number
    &&& f.value@.len() == 0
}

/// Seeds one empty record per declared repeated field, in declaration
/// order, each with a value buffer acquired from the pool.
#[verifier::loop_isolation(false)]
fn seed_repeated_records(
    md: &MessageDescriptor,
    pool: &mut ArrayPool,
    repeateds: &mut Vec<Field<crate::value::RepeatedFieldValue>>,
)
    requires
        old(repeateds)@.len() == 0,
    ensures
        final(repeateds)@.len() == repeated_indices_from(md.fields@, 0).len(),
        forall|k: int|
            0 <= k < final(repeateds)@.len() ==> rep_seed_inv(
                #[trigger] final(repeateds)@[k],
                *md,
                repeated_indices_from(md.fields@, 0)[k],
            ),
        final(pool).single_count() == pool_drain(
            old(pool).single_count(),
            repeated_indices_from(md.fields@, 0).len(),
        ),
        final(pool).field_count() == old(pool).field_count(),
        final(pool).repeated_count() == old(pool).repeated_count(),
{
    let nfields = md.fields.len();
    let ghost mut reps_built: Seq<int> = Seq::empty();
    let mut j: usize = 0;
    while j < nfields
        invariant
            j <= nfields,
            nfields == md.fields@.len(),
            repeated_indices_from(md.fields@, 0) == reps_built + repeated_indices_from(
                md.fields@,
                j as int,
            ),
            reps_built.len() == repeateds@.len(),
            forall|k: int|
                0 <= k < repeateds@.len() ==> rep_seed_inv(
                    #[trigger] repeateds@[k],
                    *md,
                    reps_built[k],
                ),
            pool.single_count() == pool_drain(old(pool).single_count(), reps_built.len()),
            pool.field_count() == old(pool).field_count(),
            pool.repeated_count() == old(pool).repeated_count(),
        decreases nfields - j,
    {
        let fd = &md.fields[j];
        if fd.is_repeated() {
            let v = pool.get_single_field_val_vec();
            proof {
                assert(v@ =~= Seq::<SingleFieldValue>::empty());
            }
            repeateds.push(Field { descriptor: j, tag: fd.number, value: v });
            proof {
                assert(repeated_indices_from(md.fields@, j as int) == seq![j as int]
                    + repeated_indices_from(md.fields@, j as int + 1));
                assert(reps_built + (seq![j as int] + repeated_indices_from(
                    md.fields@,
                    j as int + 1,
                )) =~= (reps_built.push(j as int)) + repeated_indices_from(
                    md.fields@,
                    j as int + 1,
                ));
                reps_built = reps_built.push(j as int);
            }
        }
        j = j + 1;
    }
    proof {
        assert(reps_built + repeated_indices_from(md.fields@, nfields as int) =~= reps_built);
    }
}

/// Emits the final singular records in ascending tag order: for each
/// declared non-repeated field, the unique record carrying its number.
#[verifier::loop_isolation(false)]
#[verifier::rlimit(100)]
fn merge_sorted_singles(
    descs: &Descriptors,
    msg_index: usize,
    singles: &Vec<Field<SingleFieldValue>>,
    out: &mut Vec<Field<SingleFieldValue>>,
    Ghost(scan): Ghost<Seq<(usize, SingleFieldValue)>>,
    Ghost(lo): Ghost<int>,
    Ghost(hi): Ghost<int>,
)
    requires
        descs.wf(),
        msg_index < descs.messages@.len(),
        old(out)@.len() == 0,
        forall|k: int|
            0 <= k < singles@.len() ==> single_record_inv(
                #[trigger] singles@[k],
                descs.messages@[msg_index as int],
                scan,
                lo,
                hi,
            ),
        forall|k1: int, k2: int|
            0 <= k1 < k2 < singles@.len() ==> singles@[k1].descriptor < singles@[k2].descriptor,
        forall|fi: int|
            0 <= fi < descs.messages@[msg_index as int].fields@.len() && !(
            #[trigger] descs.messages@[msg_index as int].fields@[fi]).is_repeated()
                ==> exists|k: int|
                0 <= k < singles@.len() && singles@[k].descriptor == fi,
    ensures
        final(out)@ == spec_singles_from(descs.messages@[msg_index as int], scan, -1),
        forall|k: int|
            0 <= k < final(out)@.len() ==> single_record_inv(
                #[trigger] final(out)@[k],
                descs.messages@[msg_index as int],
                scan,
                lo,
                hi,
            ),
        forall|k1: int, k2: int|
            0 <= k1 < k2 < final(out)@.len() ==> final(out)@[k1].tag < final(out)@[k2].tag,
{
    let md = &descs.messages[msg_index];
    let ghost mdg = descs.messages@[msg_index as int];
    let nfields = md.fields.len();
    proof {
        assert(mdg.wf(*descs));
    }
    let mut bound: i64 = -1;
    let mut best = find_best_single(md, bound);
    proof {
        assert(out@ + spec_singles_from(mdg, scan, -1) =~= spec_singles_from(mdg, scan, -1));
    }
    while best.is_some()
        invariant
            *md == mdg,
            nfields == mdg.fields@.len(),
            -1 <= bound <= 0xffffffff,
            out@ + spec_singles_from(mdg, scan, bound as int) == spec_singles_from(mdg, scan, -1),
            match best {
                Some((fi, t)) => {
                    &&& min_single_tag_above(mdg.fields@, bound as int, 0) == Some(t)
                    &&& find_single_field_from(mdg.fields@, t, 0) == Some(fi as int)
                    &&& t > bound
                },
                None => min_single_tag_above(mdg.fields@, bound as int, 0) is None,
            },
            forall|k: int|
                0 <= k < out@.len() ==> single_record_inv(#[trigger] out@[k], mdg, scan, lo, hi),
            forall|k1: int, k2: int| 0 <= k1 < k2 < out@.len() ==> out@[k1].tag < out@[k2].tag,
            forall|k: int| 0 <= k < out@.len() ==> (#[trigger] out@[k]).tag <= bound,
        decreases 0x100000000 - bound,
    {
        match best {
            Some(p) => {
                let (fi, t) = p;
                proof {
                    lemma_find_single_props(mdg.fields@, t, 0);
                }
                match find_by_tag_single(singles, t) {
                    Some(jj) => {
                        let rec = singles[jj];
                        proof {
                            let dj = singles@[jj as int].descriptor as int;
                            assert(dj == fi) by {
                                if dj < fi {
                                    assert(mdg.fields@[dj].number
                                        != mdg.fields@[fi as int].number);
                                } else if fi < dj {
                                    assert(mdg.fields@[fi as int].number
                                        != mdg.fields@[dj].number);
                                }
                            }
                            let rest = spec_singles_from(mdg, scan, t as int);
                            assert(spec_singles_from(mdg, scan, bound as int) == seq![rec]
                                + rest);
                            assert(out@ + (seq![rec] + rest) =~= (out@.push(rec)) + rest);
                        }
                        out.push(rec);
                        bound = t as i64;
                        best = find_best_single(md, bound);
                    },
                    None => {
                        proof {
                            let kk = choose|kk: int|
                                0 <= kk < singles@.len() && singles@[kk].descriptor == fi;
                            assert(singles@[kk].tag == t);
                            assert(false);
                        }
                    },
                }
            },
            None => {
                proof {
                    assert(false);
                }
            },
        }
    }
    proof {
        assert(out@ + spec_singles_from(mdg, scan, bound as int) =~= out@);
        assert(out@ == spec_singles_from(mdg, scan, -1));
    }
}

/// The result of one scan, when it succeeds.
pub open spec fn spec_scan_ok(md: MessageDescriptor, b: Seq<u8>, lo: int, hi: int) -> Seq<
    (usize, SingleFieldValue),
> {
    match spec_scan(md, b, lo, hi) {
        Ok(s) => s,
        Err(_) => Seq::empty(),
    }
}

/// What a successful decode of `b[lo..hi]` against message `msg_index`
/// returns: the singular records are exactly the tag-sorted final records
/// (last wire occurrence wins, defaults synthesized for absent fields),
/// the repeated records hold each declared repeated field's occurrences in
/// wire order, and every borrowed span stays inside `lo..hi`.
pub open spec fn decode_ok(
    descs: Descriptors,
    msg_index: int,
    b: Seq<u8>,
    lo: int,
    hi: int,
    m: LazliyParsedMessage,
) -> bool {
    let md = descs.messages@[msg_index];
    let scan = spec_scan_ok(md, b, lo, hi);
    let reps = repeated_indices_from(md.fields@, 0);
    &&& spec_decode_err(md, b, lo, hi) is None
    &&& m.single_fields@ == spec_singles_from(md, scan, -1)
    &&& m.repeated_fields@.len() == reps.len()
    &&& forall|k: int|
        0 <= k < reps.len() ==> rep_record_inv(#[trigger] m.repeated_fields@[k], md, reps[k], scan, lo, hi)
    &&& m.wf(md, lo, hi)
}

impl LazliyParsedMessage {
    /// Decodes the wire bytes `bytes[start..end]` as one message of the
    /// type at `msg_index`, borrowing record buffers from `pool`.
    ///
    /// On success the result is exactly the decoded message model of
    /// [`decode_ok`], a function of the descriptors and bytes alone: the
    /// pool never influences the decoded records. On failure the reported
    /// error is exactly [`spec_decode_err`], and no pool count grows.
    #[verifier::loop_isolation(false)]
    #[verifier::rlimit(100)]
    #[verifier::spinoff_prover]
    pub fn parse_from_reader(
        descs: &Descriptors,
        msg_index: usize,
        bytes: &[u8],
        start: usize,
        end: usize,
        pool: &mut ArrayPool,
    ) -> (r: Result<LazliyParsedMessage, Error>)
        requires
            descs.wf(),
            msg_index < descs.messages@.len(),
            start <= end,
            end <= bytes@.len(),
        ensures
            ({
                let md = descs.messages@[msg_index as int];
                let reps_n = repeated_indices_from(md.fields@, 0).len();
                match r {
                    Ok(m) => {
                        &&& decode_ok(
                            *descs,
                            msg_index as int,
                            bytes@,
                            start as int,
                            end as int,
                            m,
                        )
                        &&& final(pool).single_count() == pool_drain(
                            old(pool).single_count(),
                            reps_n,
                        )
                        &&& final(pool).field_count() == pool_drain(old(pool).field_count(), 2)
                            + 1
                        &&& final(pool).repeated_count() == pool_drain(
                            old(pool).repeated_count(),
                            1,
                        )
                    },
                    Err(e) => {
                        &&& spec_decode_err(md, bytes@, start as int, end as int) == Some(e)
                        &&& final(pool).single_count() <= old(pool).single_count()
                        &&& final(pool).field_count() <= old(pool).field_count()
                        &&& final(pool).repeated_count() <= old(pool).repeated_count()
                    },
                }
            }),
    {
        let md = &descs.messages[msg_index];
        let ghost mdg = descs.messages@[msg_index as int];
        let ghost b = bytes@;
        let nfields = md.fields.len();
        proof {
            assert(mdg.wf(*descs));
        }

        let mut singles = pool.get_field_vec();
        let mut repeateds = pool.get_repeated_field_vec();

        // Seed the singular defaults (failing fast), then the repeated
        // records with pooled value buffers.
        match seed_single_records(md, &mut singles) {
            Ok(_) => {},
            Err(e) => {
                return Err(e);
            },
        }
        seed_repeated_records(md, pool, &mut repeateds);
        let ghost reps_built = repeated_indices_from(mdg.fields@, 0);
        proof {
            assert forall|k: int| 0 <= k < repeateds@.len() implies rep_record_inv(
                #[trigger] repeateds@[k],
                mdg,
                reps_built[k],
                Seq::<(usize, SingleFieldValue)>::empty(),
                start as int,
                end as int,
            ) by {
                assert(occurrences(Seq::<(usize, SingleFieldValue)>::empty(), reps_built[k])
                    == Seq::<SingleFieldValue>::empty());
                assert(repeateds@[k].value@ =~= Seq::<SingleFieldValue>::empty());
            }
        }

        // The wire scan: read tags, decode declared fields per their
        // declared type (last singular occurrence wins in place, repeated
        // occurrences accumulate), skip unknown field numbers.
        let mut pos = start;
        let ghost mut processed: Seq<(usize, SingleFieldValue)> = Seq::empty();
        proof {
            assert forall|k: int| 0 <= k < singles@.len() implies single_record_inv(
                #[trigger] singles@[k],
                mdg,
                processed,
                start as int,
                end as int,
            ) by {
                assert(occurrences(processed, singles@[k].descriptor as int).len() == 0);
            }
        }
        while pos < end
            invariant
                *md == mdg,
                nfields == mdg.fields@.len(),
                descs.wf(),
                msg_index < descs.messages@.len(),
                mdg == descs.messages@[msg_index as int],
                b == bytes@,
                start <= pos <= end,
                end <= b.len(),
                match spec_scan(mdg, b, pos as int, end as int) {
                    Ok(rest) => spec_scan(mdg, b, start as int, end as int) == Ok::<_, Error>(
                        processed + rest,
                    ),
                    Err(e) => spec_scan(mdg, b, start as int, end as int) == Err::<
                        Seq<(usize, SingleFieldValue)>,
                        _,
                    >(e),
                },
                forall|k: int|
                    0 <= k < singles@.len() ==> single_record_inv(
                        #[trigger] singles@[k],
                        mdg,
                        processed,
                        start as int,
                        end as int,
                    ),
                forall|k1: int, k2: int|
                    0 <= k1 < k2 < singles@.len() ==> singles@[k1].descriptor
                        < singles@[k2].descriptor,
                forall|fi: int|
                    0 <= fi < nfields && !(#[trigger] mdg.fields@[fi]).is_repeated()
                        ==> exists|k: int|
                        0 <= k < singles@.len() && singles@[k].descriptor == fi,
                reps_built.len() == repeateds@.len(),
                repeated_indices_from(mdg.fields@, 0) == reps_built,
                forall|k: int|
                    0 <= k < repeateds@.len() ==> rep_record_inv(
                        #[trigger] repeateds@[k],
                        mdg,
                        reps_built[k],
                        processed,
                        start as int,
                        end as int,
                    ),
                pool.single_count() == pool_drain(old(pool).single_count(), reps_built.len()),
                pool.field_count() == pool_drain(old(pool).field_count(), 1),
                pool.repeated_count() == pool_drain(old(pool).repeated_count(), 1),
            decreases end - pos,
        {
            let tagv = match read_varint(bytes, pos, end) {
                Ok((tagv, p1)) => (tagv, p1),
                Err(e) => {
                    return Err(e);
                },
            };
            let (tv, p1) = tagv;
            let tag = low32(tv);
            let num = tag / 8;
            match find_field(md, num) {
                Some(fi) => {
                    let value_pos = p1;
                    let parsed = match SingleFieldValue::parse_from_reader(
                        &md.fields[fi].field_type,
                        bytes,
                        value_pos,
                        end,
                    ) {
                        Ok(vp) => vp,
                        Err(e) => {
                            return Err(e);
                        },
                    };
                    let (v, p2) = parsed;
                    proof {
                        lemma_find_field_props(mdg.fields@, num, 0);
                        lemma_occurrences_push(processed, fi, v);
                    }
                    if md.fields[fi].is_repeated() {
                        match find_by_tag_rep(&repeateds, num) {
                            Some(k) => {
                                let ghost before = repeateds@;
                                let mut rec = repeateds.remove(k);
                                rec.value.push(v);
                                repeateds.insert(k, rec);
                                proof {
                                    lemma_repeated_indices(mdg.fields@, 0);
                                    assert(repeateds@ =~= before.update(k as int, rec));
                                    let dk = before[k as int].descriptor as int;
                                    assert(dk == fi) by {
                                        if dk < fi {
                                            assert(mdg.fields@[dk].number
                                                != mdg.fields@[fi as int].number);
                                        } else if fi < dk {
                                            assert(mdg.fields@[fi as int].number
                                                != mdg.fields@[dk].number);
                                        }
                                    }
                                    assert(v.spans_wf(start as int, end as int));
                                }
                            },
                            None => {
                                proof {
                                    lemma_repeated_indices(mdg.fields@, 0);
                                    let kk = choose|kk: int|
                                        0 <= kk < reps_built.len() && reps_built[kk] == fi;
                                    assert(repeateds@[kk].tag == num);
                                    assert(false);
                                }
                                return Err(Error::MalformedInput);
                            },
                        }
                    } else {
                        match find_by_tag_single(&singles, num) {
                            Some(jj) => {
                                let ghost dj = singles@[jj as int].descriptor as int;
                                proof {
                                    assert(dj == fi) by {
                                        if dj < fi {
                                            assert(mdg.fields@[dj].number
                                                != mdg.fields@[fi as int].number);
                                        } else if fi < dj {
                                            assert(mdg.fields@[fi as int].number
                                                != mdg.fields@[dj].number);
                                        }
                                    }
                                    assert(v.spans_wf(start as int, end as int));
                                }
                                let ghost spre = singles@;
                                let mut rec = singles[jj];
                                rec.value = v;
                                singles[jj] = rec;
                                proof {
                                    assert forall|fi2: int|
                                        0 <= fi2 < nfields && !(#[trigger] mdg.fields@[fi2]).is_repeated()
                                            implies exists|k: int|
                                            0 <= k < singles@.len() && singles@[k].descriptor
                                                == fi2 by {
                                        let k = choose|k: int|
                                            0 <= k < spre.len() && spre[k].descriptor == fi2;
                                        assert(singles@[k].descriptor == fi2);
                                    }
                                }
                            },
                            None => {
                                proof {
                                    let kk = choose|kk: int|
                                        0 <= kk < singles@.len() && singles@[kk].descriptor
                                            == fi;
                                    assert(singles@[kk].tag == num);
                                    assert(false);
                                }
                                return Err(Error::MalformedInput);
                            },
                        }
                    }
                    proof {
                        let rest_r = spec_scan(mdg, b, p2 as int, end as int);
                        assert(spec_varint(b, pos as int, end as int) == Some(
                            (tv as int, p1 as int),
                        ));
                        assert(spec_scan(mdg, b, pos as int, end as int) == (match rest_r {
                            Ok(rest) => Ok::<Seq<(usize, SingleFieldValue)>, Error>(
                                seq![(fi, v)] + rest,
                            ),
                            Err(e) => Err::<Seq<(usize, SingleFieldValue)>, Error>(e),
                        }));
                        match rest_r {
                            Ok(rest) => {
                                assert(processed + (seq![(fi, v)] + rest) =~= processed.push(
                                    (fi, v),
                                ) + rest);
                            },
                            Err(_) => {},
                        }
                        processed = processed.push((fi, v));
                    }
                    pos = p2;
                },
                None => {
                    let p2 = match skip_unknown(bytes, p1, end, tag) {
                        Ok(p2) => p2,
                        Err(e) => {
                            return Err(e);
                        },
                    };
                    proof {
                        assert(spec_varint(b, pos as int, end as int) == Some(
                            (tv as int, p1 as int),
                        ));
                        assert(spec_scan(mdg, b, pos as int, end as int) == spec_scan(
                            mdg,
                            b,
                            p2 as int,
                            end as int,
                        ));
                    }
                    pos = p2;
                },
            }
        }

        // Merge: emit the final singular records in ascending tag order.
        proof {
            assert(processed + Seq::<(usize, SingleFieldValue)>::empty() =~= processed);
        }
        let mut out = pool.get_field_vec();
        merge_sorted_singles(
            descs,
            msg_index,
            &singles,
            &mut out,
            Ghost(processed),
            Ghost(start as int),
            Ghost(end as int),
        );
        pool.return_field_vec(singles);
        let m = LazliyParsedMessage { single_fields: out, repeated_fields: repeateds };
        Ok(m)
    }
}

} // verus!
