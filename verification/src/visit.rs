//! The visitor bridge: resolves decoded field records into visitor-ready
//! values and drives a map-shaped traversal over one decoded message.
//!
//! Nested messages stay lazy: a message-typed field resolves to its
//! descriptor index and undecoded byte span, and is only decoded when the
//! consumer calls back into the decoder with that span.

use crate::Span;
use crate::arraypool::ArrayPool;
use crate::de::{
    occurrences, pool_drain, repeated_indices_from, spec_decode_err, spec_scan_ok,
    spec_singles_from,
};
use crate::descriptor::{
    Descriptors, FieldLabel, FieldType, MessageDescriptor, enum_value_by_number,
    spec_enum_value_by_number,
};
use crate::error::Error;
use crate::value::{Field, LazliyParsedMessage, RepeatedFieldValue, SingleFieldValue};
use vstd::prelude::*;

verus! {

/// One resolved scalar value, ready for a visitor call.
///
/// Byte and string payloads remain spans into the input buffer; an enum
/// surfaces as the indices of its symbol inside the descriptor registry
/// (the symbolic name, never the raw number); a message surfaces as its
/// undecoded span, to be decoded lazily; an explicit byte or string
/// default surfaces as a reference to the owning field's descriptor.
#[derive(Clone, Copy, PartialEq, Eq, Structural, Debug)]
pub enum ResolvedValue {
    Bool(bool),
    I32(i32),
    I64(i64),
    U32(u32),
    U64(u64),
    /// IEEE-754 bits of a 32-bit float.
    F32(u32),
    /// IEEE-754 bits of a 64-bit float.
    F64(u64),
    Bytes(Span),
    Str(Span),
    /// The symbol `descs.enums[enum_index].values[value_index]`.
    EnumSymbol { enum_index: usize, value_index: usize },
    /// An undecoded nested message: decode `data` against `descriptor` on
    /// access.
    Message { descriptor: usize, data: Span },
    /// The explicit bytes default of field `field` of the owning message.
    DefaultBytes { field: usize },
    /// The explicit string default of field `field` of the owning message.
    DefaultStr { field: usize },
    /// No value (an absent message field).
    Null,
}

/// How one field surfaces in the traversal: a plain singular value, an
/// optional field present or absent, or a repeated sequence in stored
/// order.
#[derive(PartialEq, Debug)]
pub enum FieldOutput {
    Single(ResolvedValue),
    Present(ResolvedValue),
    Absent,
    Repeated(Vec<ResolvedValue>),
}

/// One key/value pair of the traversal: the declared field (its index in
/// the message descriptor names the key) and its resolved output.
#[derive(PartialEq, Debug)]
pub struct MapEntry {
    pub field: usize,
    pub output: FieldOutput,
}

impl ResolvedValue {
    /// Every borrowed payload of the resolved value lies inside the byte
    /// region `lo..hi`, and a lazy submessage span is strictly shorter
    /// than the region.
    pub open spec fn spans_wf(self, lo: int, hi: int) -> bool {
        match self {
            ResolvedValue::Bytes(s) => s.len > 0 ==> s.inside(lo, hi),
            ResolvedValue::Str(s) => s.len > 0 ==> s.inside(lo, hi),
            ResolvedValue::Message { descriptor, data } => data.inside(lo, hi) && data.len < hi
                - lo,
            _ => true,
        }
    }
}

impl FieldOutput {
    /// Every borrowed payload surfaced by this output lies inside the
    /// byte region `lo..hi`.
    pub open spec fn spans_wf(self, lo: int, hi: int) -> bool {
        match self {
            FieldOutput::Single(v) => v.spans_wf(lo, hi),
            FieldOutput::Present(v) => v.spans_wf(lo, hi),
            FieldOutput::Absent => true,
            FieldOutput::Repeated(vs) => forall|i: int|
                0 <= i < vs@.len() ==> (#[trigger] vs@[i]).spans_wf(lo, hi),
        }
    }
}

/// How an enum number resolves against the field's declared enum type:
/// the matching symbol's indices, `UnknownEnumValue` when no symbol
/// matches, `TypeWireMismatch` when the field is not enum-typed.
pub open spec fn spec_resolve_enum(descs: Descriptors, ft: FieldType, n: i32) -> Result<
    ResolvedValue,
    Error,
> {
    match ft {
        FieldType::Enum(ei) => if ei < descs.enums@.len() {
            match spec_enum_value_by_number(descs.enums@[ei as int], n) {
                Some(vi) => Ok(ResolvedValue::EnumSymbol { enum_index: ei, value_index: vi as usize }),
                None => Err(Error::UnknownEnumValue { value: n }),
            }
        } else {
            Err(Error::TypeWireMismatch)
        },
        _ => Err(Error::TypeWireMismatch),
    }
}

/// How one stored value of field `fi` resolves: scalars, bytes and strings
/// pass through untouched, enums surface as symbols, messages stay lazy,
/// and a borrowed default resolves from the field's descriptor.
pub open spec fn spec_resolve(
    descs: Descriptors,
    md: MessageDescriptor,
    fi: int,
    v: SingleFieldValue,
) -> Result<ResolvedValue, Error> {
    match v {
        SingleFieldValue::Bool(x) => Ok(ResolvedValue::Bool(x)),
        SingleFieldValue::I32(x) => Ok(ResolvedValue::I32(x)),
        SingleFieldValue::I64(x) => Ok(ResolvedValue::I64(x)),
        SingleFieldValue::U32(x) => Ok(ResolvedValue::U32(x)),
        SingleFieldValue::U64(x) => Ok(ResolvedValue::U64(x)),
        SingleFieldValue::F32(x) => Ok(ResolvedValue::F32(x)),
        SingleFieldValue::F64(x) => Ok(ResolvedValue::F64(x)),
        SingleFieldValue::Bytes(s) => Ok(ResolvedValue::Bytes(s)),
        SingleFieldValue::Str(s) => Ok(ResolvedValue::Str(s)),
        SingleFieldValue::Enum(n) => spec_resolve_enum(descs, md.fields@[fi].field_type, n),
        SingleFieldValue::LazyMessage { descriptor, data } => Ok(
            ResolvedValue::Message { descriptor, data },
        ),
        SingleFieldValue::Null => Ok(ResolvedValue::Null),
        SingleFieldValue::BorrowedDefaultValue => match md.fields@[fi].default_value {
            None => Err(Error::TypeWireMismatch),
            Some(dv) => match dv {
                crate::descriptor::DefaultValue::Bool(x) => Ok(ResolvedValue::Bool(x)),
                crate::descriptor::DefaultValue::I32(x) => Ok(ResolvedValue::I32(x)),
                crate::descriptor::DefaultValue::I64(x) => Ok(ResolvedValue::I64(x)),
                crate::descriptor::DefaultValue::U32(x) => Ok(ResolvedValue::U32(x)),
                crate::descriptor::DefaultValue::U64(x) => Ok(ResolvedValue::U64(x)),
                crate::descriptor::DefaultValue::F32(x) => Ok(ResolvedValue::F32(x)),
                crate::descriptor::DefaultValue::F64(x) => Ok(ResolvedValue::F64(x)),
                crate::descriptor::DefaultValue::Bytes(_) => Ok(
                    ResolvedValue::DefaultBytes { field: fi as usize },
                ),
                crate::descriptor::DefaultValue::Str(_) => Ok(
                    ResolvedValue::DefaultStr { field: fi as usize },
                ),
                crate::descriptor::DefaultValue::Enum(n) => spec_resolve_enum(
                    descs,
                    md.fields@[fi].field_type,
                    n,
                ),
            },
        },
    }
}

/// Resolves an enum number to its symbol, matching [`spec_resolve_enum`]:
/// a matching number surfaces its symbol, an unmatched number fails with
/// `UnknownEnumValue`, and a non-enum field fails with `TypeWireMismatch`.
pub fn visit_enum_value(descs: &Descriptors, ft: &FieldType, n: i32) -> (r: Result<
    ResolvedValue,
    Error,
>)
    ensures
        r == spec_resolve_enum(*descs, *ft, n),
{
    match ft {
        FieldType::Enum(ei) => {
            if *ei < descs.enums.len() {
                match enum_value_by_number(&descs.enums[*ei], n) {
                    Some(vi) => Ok(
                        ResolvedValue::EnumSymbol { enum_index: *ei, value_index: vi },
                    ),
                    None => Err(Error::UnknownEnumValue { value: n }),
                }
            } else {
                Err(Error::TypeWireMismatch)
            }
        },
        _ => Err(Error::TypeWireMismatch),
    }
}

/// Resolves one stored value of field `fi`, matching [`spec_resolve`].
pub fn visit_value(
    descs: &Descriptors,
    md: &MessageDescriptor,
    fi: usize,
    v: &SingleFieldValue,
) -> (r: Result<ResolvedValue, Error>)
    requires
        fi < md.fields@.len(),
    ensures
        r == spec_resolve(*descs, *md, fi as int, *v),
{
    match v {
        SingleFieldValue::Bool(x) => Ok(ResolvedValue::Bool(*x)),
        SingleFieldValue::I32(x) => Ok(ResolvedValue::I32(*x)),
        SingleFieldValue::I64(x) => Ok(ResolvedValue::I64(*x)),
        SingleFieldValue::U32(x) => Ok(ResolvedValue::U32(*x)),
        SingleFieldValue::U64(x) => Ok(ResolvedValue::U64(*x)),
        SingleFieldValue::F32(x) => Ok(ResolvedValue::F32(*x)),
        SingleFieldValue::F64(x) => Ok(ResolvedValue::F64(*x)),
        SingleFieldValue::Bytes(s) => Ok(ResolvedValue::Bytes(*s)),
        SingleFieldValue::Str(s) => Ok(ResolvedValue::Str(*s)),
        SingleFieldValue::Enum(n) => visit_enum_value(descs, &md.fields[fi].field_type, *n),
        SingleFieldValue::LazyMessage { descriptor, data } => Ok(
            ResolvedValue::Message { descriptor: *descriptor, data: *data },
        ),
        SingleFieldValue::Null => Ok(ResolvedValue::Null),
        SingleFieldValue::BorrowedDefaultValue => match &md.fields[fi].default_value {
            None => Err(Error::TypeWireMismatch),
            Some(dv) => match dv {
                crate::descriptor::DefaultValue::Bool(x) => Ok(ResolvedValue::Bool(*x)),
                crate::descriptor::DefaultValue::I32(x) => Ok(ResolvedValue::I32(*x)),
                crate::descriptor::DefaultValue::I64(x) => Ok(ResolvedValue::I64(*x)),
                crate::descriptor::DefaultValue::U32(x) => Ok(ResolvedValue::U32(*x)),
                crate::descriptor::DefaultValue::U64(x) => Ok(ResolvedValue::U64(*x)),
                crate::descriptor::DefaultValue::F32(x) => Ok(ResolvedValue::F32(*x)),
                crate::descriptor::DefaultValue::F64(x) => Ok(ResolvedValue::F64(*x)),
                crate::descriptor::DefaultValue::Bytes(_) => Ok(
                    ResolvedValue::DefaultBytes { field: fi },
                ),
                crate::descriptor::DefaultValue::Str(_) => Ok(
                    ResolvedValue::DefaultStr { field: fi },
                ),
                crate::descriptor::DefaultValue::Enum(n) => visit_enum_value(
                    descs,
                    &md.fields[fi].field_type,
                    *n,
                ),
            },
        },
    }
}

/// How one singular record surfaces: an optional field presents
/// present/absent (`Null` means absent, anything else, synthesized
/// defaults included, means present); a non-optional field resolves
/// directly.
pub open spec fn spec_output_single(
    descs: Descriptors,
    md: MessageDescriptor,
    fi: int,
    v: SingleFieldValue,
) -> Result<FieldOutput, Error> {
    if md.fields@[fi].label is Optional {
        if v is Null {
            Ok(FieldOutput::Absent)
        } else {
            match spec_resolve(descs, md, fi, v) {
                Ok(r) => Ok(FieldOutput::Present(r)),
                Err(e) => Err(e),
            }
        }
    } else {
        match spec_resolve(descs, md, fi, v) {
            Ok(r) => Ok(FieldOutput::Single(r)),
            Err(e) => Err(e),
        }
    }
}

/// Surfaces one singular record, matching [`spec_output_single`].
pub fn output_single(
    descs: &Descriptors,
    md: &MessageDescriptor,
    fi: usize,
    v: &SingleFieldValue,
) -> (r: Result<FieldOutput, Error>)
    requires
        fi < md.fields@.len(),
    ensures
        r == spec_output_single(*descs, *md, fi as int, *v),
{
    if md.fields[fi].label == FieldLabel::Optional {
        if let SingleFieldValue::Null = v {
            Ok(FieldOutput::Absent)
        } else {
            match visit_value(descs, md, fi, v) {
                Ok(r) => Ok(FieldOutput::Present(r)),
                Err(e) => Err(e),
            }
        }
    } else {
        match visit_value(descs, md, fi, v) {
            Ok(r) => Ok(FieldOutput::Single(r)),
            Err(e) => Err(e),
        }
    }
}

/// The resolutions of a repeated field's stored values, in order; the
/// first failing value's error wins.
pub open spec fn spec_resolve_seq(
    descs: Descriptors,
    md: MessageDescriptor,
    fi: int,
    vs: Seq<SingleFieldValue>,
) -> Result<Seq<ResolvedValue>, Error>
    decreases vs.len(),
{
    if vs.len() == 0 {
        Ok(Seq::empty())
    } else {
        match spec_resolve_seq(descs, md, fi, vs.drop_last()) {
            Err(e) => Err(e),
            Ok(rs) => match spec_resolve(descs, md, fi, vs.last()) {
                Ok(r) => Ok(rs.push(r)),
                Err(e) => Err(e),
            },
        }
    }
}

/// A failing value makes the whole sequence resolution fail with the
/// first such error.
pub proof fn lemma_resolve_seq_err(
    descs: Descriptors,
    md: MessageDescriptor,
    fi: int,
    vs: Seq<SingleFieldValue>,
    i: int,
    e: Error,
)
    requires
        0 <= i < vs.len(),
        spec_resolve_seq(descs, md, fi, vs.take(i)) is Ok,
        spec_resolve(descs, md, fi, vs[i]) == Err::<ResolvedValue, Error>(e),
    ensures
        spec_resolve_seq(descs, md, fi, vs) == Err::<Seq<ResolvedValue>, Error>(e),
    decreases vs.len(),
{
    if i == vs.len() - 1 {
        assert(vs.take(i) =~= vs.drop_last());
    } else {
        assert(vs.drop_last().take(i) =~= vs.take(i));
        lemma_resolve_seq_err(descs, md, fi, vs.drop_last(), i, e);
    }
}

/// The first resolution error among the singular records at or after `k`.
pub open spec fn first_single_err(
    descs: Descriptors,
    md: MessageDescriptor,
    sf: Seq<Field<SingleFieldValue>>,
    k: int,
) -> Option<Error>
    decreases sf.len() - k,
{
    if k < 0 || k >= sf.len() {
        None
    } else {
        match spec_output_single(descs, md, sf[k].descriptor as int, sf[k].value) {
            Err(e) => Some(e),
            Ok(_) => first_single_err(descs, md, sf, k + 1),
        }
    }
}

/// The first resolution error among the repeated fields at or after `k`.
pub open spec fn first_rep_err(
    descs: Descriptors,
    md: MessageDescriptor,
    scan: Seq<(usize, SingleFieldValue)>,
    rif: Seq<int>,
    k: int,
) -> Option<Error>
    decreases rif.len() - k,
{
    if k < 0 || k >= rif.len() {
        None
    } else {
        match spec_resolve_seq(descs, md, rif[k], occurrences(scan, rif[k])) {
            Err(e) => Some(e),
            Ok(_) => first_rep_err(descs, md, scan, rif, k + 1),
        }
    }
}

/// The error one full traversal reports, if any: the decode error first,
/// else the first singular resolution error in key order, else the first
/// repeated resolution error in key order.
pub open spec fn spec_traverse_err(
    descs: Descriptors,
    mi: int,
    b: Seq<u8>,
    lo: int,
    hi: int,
) -> Option<Error> {
    let md = descs.messages@[mi];
    match spec_decode_err(md, b, lo, hi) {
        Some(e) => Some(e),
        None => {
            let scan = spec_scan_ok(md, b, lo, hi);
            let sf = spec_singles_from(md, scan, -1);
            match first_single_err(descs, md, sf, 0) {
                Some(e) => Some(e),
                None => first_rep_err(descs, md, scan, repeated_indices_from(md.fields@, 0), 0),
            }
        },
    }
}

/// What a successful traversal of `b[lo..hi]` surfaces: one entry per
/// declared field, singular fields first in final tag-sorted order, then
/// repeated fields in declaration order, each resolved per
/// [`spec_output_single`] and [`spec_resolve_seq`].
pub open spec fn entries_ok(
    descs: Descriptors,
    mi: int,
    b: Seq<u8>,
    lo: int,
    hi: int,
    entries: Seq<MapEntry>,
) -> bool {
    let md = descs.messages@[mi];
    let scan = spec_scan_ok(md, b, lo, hi);
    let sf = spec_singles_from(md, scan, -1);
    let rif = repeated_indices_from(md.fields@, 0);
    &&& entries.len() == sf.len() + rif.len()
    &&& forall|k: int|
        0 <= k < sf.len() ==> {
            let e = #[trigger] entries[k];
            &&& e.field == sf[k].descriptor
            &&& Ok::<FieldOutput, Error>(e.output) == spec_output_single(
                descs,
                md,
                sf[k].descriptor as int,
                sf[k].value,
            )
        }
    &&& forall|k: int|
        0 <= k < rif.len() ==> {
            let e = #[trigger] entries[sf.len() + k];
            &&& e.field == rif[k]
            &&& match e.output {
                FieldOutput::Repeated(vs) => Ok::<Seq<ResolvedValue>, Error>(vs@)
                    == spec_resolve_seq(descs, md, rif[k], occurrences(scan, rif[k])),
                _ => false,
            }
        }
}

/// Releases all buffers of one decoded message back to the pool: the
/// singular-record buffer, every repeated value buffer, and the
/// repeated-record buffer.
#[verifier::loop_isolation(false)]
fn release_decoded(
    pool: &mut ArrayPool,
    sf: Vec<Field<SingleFieldValue>>,
    rf: Vec<Field<RepeatedFieldValue>>,
)
    ensures
        final(pool).single_count() == old(pool).single_count() + rf@.len(),
        final(pool).field_count() == old(pool).field_count() + 1,
        final(pool).repeated_count() == old(pool).repeated_count() + 1,
{
    pool.return_field_vec(sf);
    let mut rf = rf;
    let ghost n = rf@.len();
    while rf.len() > 0
        invariant
            rf@.len() <= n,
            pool.single_count() == old(pool).single_count() + n - rf@.len(),
            pool.field_count() == old(pool).field_count() + 1,
            pool.repeated_count() == old(pool).repeated_count(),
        decreases rf@.len(),
    {
        match rf.pop() {
            Some(rec) => {
                pool.return_single_field_val_vec(rec.value);
            },
            None => {},
        }
    }
    pool.return_repeated_field_vec(rf);
}

/// Decodes one message and drives the full map traversal over it:
/// singular fields first (final tag-sorted order), then repeated fields
/// (declaration order), resolving every stored value.
///
/// Each repeated field's value buffer returns to the pool as soon as its
/// values are consumed, and both record buffers return on every exit path
/// after a successful decode, so traversing the same message shape over
/// and over never grows the pool past its steady state.
#[verifier::loop_isolation(false)]
#[verifier::rlimit(100)]
pub fn deserialize_message(
    descs: &Descriptors,
    msg_index: usize,
    bytes: &[u8],
    start: usize,
    end: usize,
    pool: &mut ArrayPool,
) -> (r: Result<Vec<MapEntry>, Error>)
    requires
        descs.wf(),
        msg_index < descs.messages@.len(),
        start <= end,
        end <= bytes@.len(),
    ensures
        ({
            let md = descs.messages@[msg_index as int];
            let reps_n = repeated_indices_from(md.fields@, 0).len();
            &&& match r {
                Ok(entries) => spec_traverse_err(
                    *descs,
                    msg_index as int,
                    bytes@,
                    start as int,
                    end as int,
                ) is None && entries_ok(
                    *descs,
                    msg_index as int,
                    bytes@,
                    start as int,
                    end as int,
                    entries@,
                ),
                Err(e) => spec_traverse_err(
                    *descs,
                    msg_index as int,
                    bytes@,
                    start as int,
                    end as int,
                ) == Some(e),
            }
            &&& if spec_decode_err(md, bytes@, start as int, end as int) is Some {
                &&& final(pool).single_count() <= old(pool).single_count()
                &&& final(pool).field_count() <= old(pool).field_count()
                &&& final(pool).repeated_count() <= old(pool).repeated_count()
            } else {
                &&& final(pool).single_count() == pool_drain(old(pool).single_count(), reps_n)
                    + reps_n
                &&& final(pool).field_count() == pool_drain(old(pool).field_count(), 2) + 2
                &&& final(pool).repeated_count() == pool_drain(old(pool).repeated_count(), 1) + 1
            }
        }),
{
    let ghost mdg = descs.messages@[msg_index as int];
    let ghost b = bytes@;
    let msg = match LazliyParsedMessage::parse_from_reader(
        descs,
        msg_index,
        bytes,
        start,
        end,
        pool,
    ) {
        Ok(m) => m,
        Err(e) => {
            return Err(e);
        },
    };
    let ghost scan = spec_scan_ok(mdg, b, start as int, end as int);
    let ghost rif = repeated_indices_from(mdg.fields@, 0);
    let ghost reps_n = rif.len();
    let LazliyParsedMessage { single_fields: sf, repeated_fields: mut rf } = msg;
    let ghost sfg = sf@;
    let md = &descs.messages[msg_index];
    let mut entries: Vec<MapEntry> = Vec::new();

    let ghost rfg = rf@;
    let mut k: usize = 0;
    while k < sf.len()
        invariant
            k <= sfg.len(),
            sf@ == sfg,
            rf@ == rfg,
            entries@.len() == k,
            pool.single_count() == pool_drain(old(pool).single_count(), reps_n),
            pool.field_count() == pool_drain(old(pool).field_count(), 2) + 1,
            pool.repeated_count() == pool_drain(old(pool).repeated_count(), 1),
            forall|x: int|
                0 <= x < k ==> {
                    let e = #[trigger] entries@[x];
                    &&& e.field == sfg[x].descriptor
                    &&& Ok::<FieldOutput, Error>(e.output) == spec_output_single(
                        *descs,
                        mdg,
                        sfg[x].descriptor as int,
                        sfg[x].value,
                    )
                },
            first_single_err(*descs, mdg, sfg, 0) == first_single_err(*descs, mdg, sfg, k as int),
        decreases sfg.len() - k,
    {
        let f = sf[k];
        match output_single(descs, md, f.descriptor, &f.value) {
            Ok(o) => {
                entries.push(MapEntry { field: f.descriptor, output: o });
            },
            Err(e) => {
                release_decoded(pool, sf, rf);
                return Err(e);
            },
        }
        k = k + 1;
    }

    let ghost rf0 = rf@;
    let total = rf.len();
    let mut c: usize = 0;
    while rf.len() > 0
        invariant
            total == rf0.len(),
            c <= total,
            c + rf@.len() == rf0.len(),
            rf@ == rf0.skip(c as int),
            entries@.len() == sfg.len() + c,
            forall|x: int|
                0 <= x < sfg.len() ==> {
                    let e = #[trigger] entries@[x];
                    &&& e.field == sfg[x].descriptor
                    &&& Ok::<FieldOutput, Error>(e.output) == spec_output_single(
                        *descs,
                        mdg,
                        sfg[x].descriptor as int,
                        sfg[x].value,
                    )
                },
            forall|x: int|
                0 <= x < c ==> {
                    let e = #[trigger] entries@[sfg.len() + x];
                    &&& e.field == rif[x]
                    &&& match e.output {
                        FieldOutput::Repeated(vs) => Ok::<Seq<ResolvedValue>, Error>(vs@)
                            == spec_resolve_seq(*descs, mdg, rif[x], occurrences(scan, rif[x])),
                        _ => false,
                    }
                },
            first_rep_err(*descs, mdg, scan, rif, 0) == first_rep_err(
                *descs,
                mdg,
                scan,
                rif,
                c as int,
            ),
            pool.single_count() == pool_drain(old(pool).single_count(), reps_n) + c,
            pool.field_count() == pool_drain(old(pool).field_count(), 2) + 1,
            pool.repeated_count() == pool_drain(old(pool).repeated_count(), 1),
        decreases rf@.len(),
    {
        let ghost rfpre = rf@;
        let rec = rf.remove(0);
        proof {
            assert(rfpre.remove(0) =~= rf0.skip(c as int + 1));
        }
        let fi = rec.descriptor;
        let mut vals: Vec<ResolvedValue> = Vec::new();
        let mut i: usize = 0;
        let ghost vs = rec.value@;
        proof {
            assert(vs.take(0) =~= Seq::<SingleFieldValue>::empty());
        }
        while i < rec.value.len()
            invariant
                i <= vs.len(),
                rec.value@ == vs,
                vals@.len() == i,
                fi == rec.descriptor,
                fi < mdg.fields@.len(),
                spec_resolve_seq(*descs, mdg, fi as int, vs.take(i as int)) == Ok::<
                    Seq<ResolvedValue>,
                    Error,
                >(vals@),
                sf@ == sfg,
                total == rf0.len(),
                c < total,
                c + 1 + rf@.len() == rf0.len(),
                rf@ == rf0.skip(c as int + 1),
                entries@.len() == sfg.len() + c,
                forall|x: int|
                    0 <= x < sfg.len() ==> {
                        let e = #[trigger] entries@[x];
                        &&& e.field == sfg[x].descriptor
                        &&& Ok::<FieldOutput, Error>(e.output) == spec_output_single(
                            *descs,
                            mdg,
                            sfg[x].descriptor as int,
                            sfg[x].value,
                        )
                    },
                forall|x: int|
                    0 <= x < c ==> {
                        let e = #[trigger] entries@[sfg.len() + x];
                        &&& e.field == rif[x]
                        &&& match e.output {
                            FieldOutput::Repeated(vs2) => Ok::<Seq<ResolvedValue>, Error>(vs2@)
                                == spec_resolve_seq(
                                *descs,
                                mdg,
                                rif[x],
                                occurrences(scan, rif[x]),
                            ),
                            _ => false,
                        }
                    },
                first_rep_err(*descs, mdg, scan, rif, 0) == first_rep_err(
                    *descs,
                    mdg,
                    scan,
                    rif,
                    c as int,
                ),
                pool.single_count() == pool_drain(old(pool).single_count(), reps_n) + c,
                pool.field_count() == pool_drain(old(pool).field_count(), 2) + 1,
                pool.repeated_count() == pool_drain(old(pool).repeated_count(), 1),
            decreases vs.len() - i,
        {
            let v = rec.value[i];
            match visit_value(descs, md, fi, &v) {
                Ok(rv) => {
                    proof {
                        assert(vs.take(i as int + 1).drop_last() =~= vs.take(i as int));
                        assert(vs.take(i as int + 1).last() == vs[i as int]);
                    }
                    vals.push(rv);
                },
                Err(e) => {
                    proof {
                        lemma_resolve_seq_err(*descs, mdg, fi as int, vs, i as int, e);
                    }
                    pool.return_single_field_val_vec(rec.value);
                    release_decoded(pool, sf, rf);
                    return Err(e);
                },
            }
            i = i + 1;
        }
        proof {
            assert(vs.take(vs.len() as int) =~= vs);
        }
        entries.push(MapEntry { field: fi, output: FieldOutput::Repeated(vals) });
        pool.return_single_field_val_vec(rec.value);
        c = c + 1;
    }
    proof {
        assert(rf0.skip(c as int) =~= rf@);
    }
    pool.return_field_vec(sf);
    pool.return_repeated_field_vec(rf);
    Ok(entries)
}

/// A reusable deserializer for one message type: the descriptor index to
/// decode against, and the buffer pool shared by all of its decodes.
pub struct DeserializerBuilder {
    pub pool: ArrayPool,
    pub message: usize,
}

impl DeserializerBuilder {
    /// A deserializer for the message type at `message_index`, with a
    /// fresh, empty pool.
    pub fn new(message_index: usize) -> (r: DeserializerBuilder)
        ensures
            r.message == message_index,
            r.pool.single_count() == 0,
            r.pool.field_count() == 0,
            r.pool.repeated_count() == 0,
    {
        DeserializerBuilder { pool: ArrayPool::new(), message: message_index }
    }

    /// A deserializer for the named message type; fails with
    /// `UnresolvedType` when the registry holds no message of that name.
    pub fn for_named_message(descs: &Descriptors, message_name: &String) -> (r: Result<
        DeserializerBuilder,
        Error,
    >)
        ensures
            match r {
                Ok(d) => {
                    &&& d.message < descs.messages@.len()
                    &&& descs.messages@[d.message as int].name@ == message_name@
                    &&& d.pool.single_count() == 0
                    &&& d.pool.field_count() == 0
                    &&& d.pool.repeated_count() == 0
                },
                Err(e) => e == Error::UnresolvedType && (forall|j: int|
                    #![auto]
                    0 <= j < descs.messages@.len() ==> descs.messages@[j].name@ != message_name@),
            },
    {
        match descs.message_by_name(message_name) {
            Some(m) => Ok(DeserializerBuilder::new(m)),
            None => Err(Error::UnresolvedType),
        }
    }

    /// Decodes one wire-encoded input buffer and surfaces its full map
    /// traversal, reusing this deserializer's pool.
    pub fn for_input(&mut self, descs: &Descriptors, input: &[u8]) -> (r: Result<
        Vec<MapEntry>,
        Error,
    >)
        requires
            descs.wf(),
            old(self).message < descs.messages@.len(),
        ensures
            final(self).message == old(self).message,
            match r {
                Ok(entries) => spec_traverse_err(
                    *descs,
                    old(self).message as int,
                    input@,
                    0,
                    input@.len() as int,
                ) is None && entries_ok(
                    *descs,
                    old(self).message as int,
                    input@,
                    0,
                    input@.len() as int,
                    entries@,
                ),
                Err(e) => spec_traverse_err(
                    *descs,
                    old(self).message as int,
                    input@,
                    0,
                    input@.len() as int,
                ) == Some(e),
            },
    {
        let msg_index = self.message;
        let end = input.len();
        deserialize_message(descs, msg_index, input, 0, end, &mut self.pool)
    }
}

} // verus!
