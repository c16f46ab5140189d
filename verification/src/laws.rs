//! The laws of the decoder, stated and proved once over the decode model:
//! determinism of decoding, last-occurrence-wins for singular fields,
//! accumulation in wire order for repeated fields, default synthesis for
//! absent fields, absence of undeclared fields, and the pool's steady
//! state.

use crate::de::{
    decode_ok, final_single_value, find_single_field_from, min_single_tag_above, occurrences,
    pool_drain, repeated_indices_from, spec_default, spec_scan_ok, spec_singles_from,
};
use crate::descriptor::{Descriptors, FieldDescriptor, MessageDescriptor};
use crate::error::Error;
use crate::value::{LazliyParsedMessage, SingleFieldValue, repeated_abs};
use vstd::prelude::*;

verus! {

/// Decoding is a function of the descriptors and bytes alone: two decoded
/// messages for the same input agree record for record, whatever pools
/// they were decoded with. Decoding the same bytes twice therefore yields
/// the same traversal.
pub proof fn lemma_decode_deterministic(
    descs: Descriptors,
    mi: int,
    b: Seq<u8>,
    lo: int,
    hi: int,
    m1: LazliyParsedMessage,
    m2: LazliyParsedMessage,
)
    requires
        decode_ok(descs, mi, b, lo, hi, m1),
        decode_ok(descs, mi, b, lo, hi, m2),
    ensures
        m1.single_fields@ == m2.single_fields@,
        m1.repeated_fields@.len() == m2.repeated_fields@.len(),
        forall|k: int|
            0 <= k < m1.repeated_fields@.len() ==> repeated_abs(#[trigger] m1.repeated_fields@[k])
                == repeated_abs(m2.repeated_fields@[k]),
{
    let md = descs.messages@[mi];
    let scan = spec_scan_ok(md, b, lo, hi);
    let reps = repeated_indices_from(md.fields@, 0);
    assert forall|k: int| 0 <= k < m1.repeated_fields@.len() implies repeated_abs(
        #[trigger] m1.repeated_fields@[k],
    ) == repeated_abs(m2.repeated_fields@[k]) by {
        assert(m1.repeated_fields@[k].value@ == occurrences(scan, reps[k]));
        assert(m2.repeated_fields@[k].value@ == occurrences(scan, reps[k]));
    }
}

/// The final singular records above `bound` include a record for wire
/// number `num`: its descriptor is the first declared non-repeated field
/// with that number, and it holds that field's final value.
pub open spec fn singles_has_entry_for_number(
    md: MessageDescriptor,
    scan: Seq<(usize, SingleFieldValue)>,
    bound: int,
    num: u32,
) -> bool {
    exists|k: int|
        0 <= k < spec_singles_from(md, scan, bound).len() && Some(
            (#[trigger] spec_singles_from(md, scan, bound)[k]).descriptor as int,
        ) == find_single_field_from(md.fields@, num, 0) && spec_singles_from(md, scan, bound)[k].tag
            == num && spec_singles_from(md, scan, bound)[k].value == final_single_value(
            md,
            scan,
            spec_singles_from(md, scan, bound)[k].descriptor as int,
        )
}

/// The final singular records include the record of declared field `fi`,
/// holding its final value.
pub open spec fn singles_has_entry(
    md: MessageDescriptor,
    scan: Seq<(usize, SingleFieldValue)>,
    fi: int,
) -> bool {
    exists|k: int|
        0 <= k < spec_singles_from(md, scan, -1).len() && (#[trigger] spec_singles_from(
            md,
            scan,
            -1,
        )[k]).descriptor as int == fi && spec_singles_from(md, scan, -1)[k].tag
            == md.fields@[fi].number && spec_singles_from(md, scan, -1)[k].value
            == final_single_value(md, scan, fi)
}

/// Traversal is a function of the descriptors and bytes alone: two entry
/// lists surfaced for the same input agree key for key and value for
/// value, whatever pools produced them.
pub proof fn lemma_traversal_deterministic(
    descs: Descriptors,
    mi: int,
    b: Seq<u8>,
    lo: int,
    hi: int,
    e1: Seq<crate::visit::MapEntry>,
    e2: Seq<crate::visit::MapEntry>,
)
    requires
        crate::visit::entries_ok(descs, mi, b, lo, hi, e1),
        crate::visit::entries_ok(descs, mi, b, lo, hi, e2),
    ensures
        e1.len() == e2.len(),
        forall|k: int| 0 <= k < e1.len() ==> (#[trigger] e1[k]).field == e2[k].field,
        forall|k: int|
            0 <= k < e1.len() ==> match ((#[trigger] e1[k]).output, e2[k].output) {
                (crate::visit::FieldOutput::Repeated(v1), crate::visit::FieldOutput::Repeated(
                    v2,
                )) => v1@ == v2@,
                (o1, o2) => o1 == o2,
            },
{
    let md = descs.messages@[mi];
    let scan = spec_scan_ok(md, b, lo, hi);
    let sf = spec_singles_from(md, scan, -1);
    let rif = repeated_indices_from(md.fields@, 0);
    assert forall|k: int| 0 <= k < e1.len() implies (#[trigger] e1[k]).field == e2[k].field
        && match (e1[k].output, e2[k].output) {
        (crate::visit::FieldOutput::Repeated(v1), crate::visit::FieldOutput::Repeated(v2)) => v1@
            == v2@,
        (o1, o2) => o1 == o2,
    } by {
        if k < sf.len() {
            assert(Ok::<crate::visit::FieldOutput, Error>(e1[k].output)
                == crate::visit::spec_output_single(descs, md, sf[k].descriptor as int, sf[k].value));
            assert(Ok::<crate::visit::FieldOutput, Error>(e2[k].output)
                == crate::visit::spec_output_single(descs, md, sf[k].descriptor as int, sf[k].value));
        } else {
            let j = k - sf.len();
            assert(0 <= j < rif.len());
            assert(e1[sf.len() + j].field == rif[j]);
            assert(e2[sf.len() + j].field == rif[j]);
        }
    }
}

/// What the minimum-tag search says: a found tag lies above the bound and
/// below every other candidate; a failed search says no candidate exists.
pub proof fn lemma_min_tag_above_props(fields: Seq<FieldDescriptor>, bound: int, i: int)
    requires
        0 <= i,
    ensures
        match min_single_tag_above(fields, bound, i) {
            Some(t) => t > bound && exists|j: int|
                i <= j < fields.len() && !(#[trigger] fields[j]).is_repeated() && fields[j].number
                    == t,
            None => forall|j: int|
                i <= j < fields.len() ==> ((#[trigger] fields[j]).is_repeated() || fields[j].number
                    <= bound),
        },
        forall|j: int|
            i <= j < fields.len() && !(#[trigger] fields[j]).is_repeated() && fields[j].number
                > bound ==> min_single_tag_above(fields, bound, i) is Some
                && min_single_tag_above(fields, bound, i).unwrap() <= fields[j].number,
    decreases fields.len() - i,
{
    if i >= fields.len() {
    } else {
        lemma_min_tag_above_props(fields, bound, i + 1);
    }
}

/// Every declared non-repeated field with number above `bound` has exactly
/// its record in the final singular records above `bound`, holding its
/// final value.
pub proof fn lemma_singles_coverage(
    md: MessageDescriptor,
    scan: Seq<(usize, SingleFieldValue)>,
    bound: int,
    fi: int,
)
    requires
        -1 <= bound <= 0xffffffff,
        0 <= fi < md.fields@.len(),
        !md.fields@[fi].is_repeated(),
        md.fields@[fi].number > bound,
    ensures
        singles_has_entry_for_number(md, scan, bound, md.fields@[fi].number),
    decreases 0x100000000 - bound,
{
    let fields = md.fields@;
    let num = fields[fi].number;
    let sf = spec_singles_from(md, scan, bound);
    broadcast use vstd::std_specs::vec::axiom_spec_len;

    lemma_min_tag_above_props(fields, bound, 0);
    let t = min_single_tag_above(fields, bound, 0).unwrap();
    assert(t <= num);
    crate::de::lemma_find_single_props(fields, t, 0);
    assert(find_single_field_from(fields, t, 0) is Some) by {
        if find_single_field_from(fields, t, 0) is None {
            let j = choose|j: int|
                0 <= j < fields.len() && !(#[trigger] fields[j]).is_repeated() && fields[j].number
                    == t;
            assert(fields[j].is_repeated() || fields[j].number != t);
        }
    }
    let hd = find_single_field_from(fields, t, 0).unwrap();
    assert(find_single_field_from(fields, t, 0) == Some(hd));
    assert(bound < t);
    vstd::std_specs::vec::axiom_spec_len(&md.fields);
    assert(0 <= hd < fields.len());
    assert(fields.len() <= usize::MAX);
    let hd_rec = crate::value::Field {
        descriptor: hd as usize,
        tag: t,
        value: final_single_value(md, scan, hd),
    };
    assert(sf == seq![hd_rec] + spec_singles_from(md, scan, t as int));
    assert(sf[0] == hd_rec);
    if num == t {
        assert(sf[0].descriptor == hd);
        assert(sf[0].tag == t);
        assert(sf[0].value == final_single_value(md, scan, hd));
    } else {
        lemma_singles_coverage(md, scan, t as int, fi);
        let tail = spec_singles_from(md, scan, t as int);
        let k = choose|k: int|
            0 <= k < tail.len() && Some((#[trigger] tail[k]).descriptor as int)
                == find_single_field_from(md.fields@, num, 0) && tail[k].tag == num
                && tail[k].value == final_single_value(md, scan, tail[k].descriptor as int);
        assert(sf[k + 1] == tail[k]);
    }
}

/// Last occurrence wins: when the wire carried a singular field at least
/// once, its final record holds the last wire occurrence — in particular,
/// a field written twice with `v1` then `v2` resolves to `v2`.
pub proof fn lemma_last_wins(
    d: Descriptors,
    md: MessageDescriptor,
    scan: Seq<(usize, SingleFieldValue)>,
    fi: int,
)
    requires
        md.wf(d),
        0 <= fi < md.fields@.len(),
        !md.fields@[fi].is_repeated(),
        occurrences(scan, fi).len() > 0,
    ensures
        singles_has_entry(md, scan, fi),
        final_single_value(md, scan, fi) == occurrences(scan, fi).last(),
{
    lemma_singles_entry_for_field(d, md, scan, fi);
}

/// Default synthesis: when the wire never carried a singular field, its
/// final record holds the synthesized default — the descriptor's explicit
/// default if present, else `Null` for an optional field, else the
/// declared type's zero value.
pub proof fn lemma_default_synthesis(
    d: Descriptors,
    md: MessageDescriptor,
    scan: Seq<(usize, SingleFieldValue)>,
    fi: int,
)
    requires
        md.wf(d),
        0 <= fi < md.fields@.len(),
        !md.fields@[fi].is_repeated(),
        occurrences(scan, fi).len() == 0,
        spec_default(md.fields@[fi]) is Ok,
    ensures
        singles_has_entry(md, scan, fi),
        Ok::<SingleFieldValue, Error>(final_single_value(md, scan, fi)) == spec_default(
            md.fields@[fi],
        ),
{
    lemma_singles_entry_for_field(d, md, scan, fi);
}

/// Every declared non-repeated field of a well-formed message has exactly
/// its record among the final singular records, holding its final value.
pub proof fn lemma_singles_entry_for_field(
    d: Descriptors,
    md: MessageDescriptor,
    scan: Seq<(usize, SingleFieldValue)>,
    fi: int,
)
    requires
        md.wf(d),
        0 <= fi < md.fields@.len(),
        !md.fields@[fi].is_repeated(),
    ensures
        singles_has_entry(md, scan, fi),
{
    let fields = md.fields@;
    let num = fields[fi].number;
    lemma_singles_coverage(md, scan, -1, fi);
    let sf = spec_singles_from(md, scan, -1);
    let k = choose|k: int|
        0 <= k < sf.len() && Some((#[trigger] sf[k]).descriptor as int) == find_single_field_from(
            md.fields@,
            num,
            0,
        ) && sf[k].tag == num && sf[k].value == final_single_value(
            md,
            scan,
            sf[k].descriptor as int,
        );
    crate::de::lemma_find_single_props(fields, num, 0);
    let dj = sf[k].descriptor as int;
    assert(dj == fi) by {
        if dj < fi {
            assert(fields[dj].number != fields[fi].number);
        } else if fi < dj {
            assert(fields[fi].number != fields[dj].number);
        }
    }
}

/// Accumulation: the occurrences of a field in a scan made of two parts
/// are the occurrences in the first part followed by those in the second,
/// in order — so repeated values accumulate in wire-encounter order.
pub proof fn lemma_occurrences_concat(
    s1: Seq<(usize, SingleFieldValue)>,
    s2: Seq<(usize, SingleFieldValue)>,
    fi: int,
)
    ensures
        occurrences(s1 + s2, fi) == occurrences(s1, fi) + occurrences(s2, fi),
    decreases s2.len(),
{
    if s2.len() == 0 {
        assert(s1 + s2 =~= s1);
        assert(occurrences(s1, fi) + occurrences(s2, fi) =~= occurrences(s1, fi));
    } else {
        lemma_occurrences_concat(s1, s2.drop_last(), fi);
        assert((s1 + s2).drop_last() =~= s1 + s2.drop_last());
        assert((s1 + s2).last() == s2.last());
        if s2.last().0 == fi {
            assert(occurrences(s1, fi) + occurrences(s2.drop_last(), fi).push(s2.last().1)
                =~= (occurrences(s1, fi) + occurrences(s2.drop_last(), fi)).push(s2.last().1));
        }
    }
}

/// Unknown-field robustness, structurally: every record of a decoded
/// message belongs to a declared field of its message descriptor; a wire
/// field number absent from the descriptor never appears.
pub proof fn lemma_only_declared_fields(
    descs: Descriptors,
    mi: int,
    b: Seq<u8>,
    lo: int,
    hi: int,
    m: LazliyParsedMessage,
)
    requires
        decode_ok(descs, mi, b, lo, hi, m),
    ensures
        forall|k: int|
            0 <= k < m.single_fields@.len() ==> (#[trigger] m.single_fields@[k]).descriptor
                < descs.messages@[mi].fields@.len(),
        forall|k: int|
            0 <= k < m.repeated_fields@.len() ==> (#[trigger] m.repeated_fields@[k]).descriptor
                < descs.messages@[mi].fields@.len(),
{
}

/// No copying: every borrowed span of a decoded message lies inside the
/// decoded region of the caller's buffer.
pub proof fn lemma_no_copying(
    descs: Descriptors,
    mi: int,
    b: Seq<u8>,
    lo: int,
    hi: int,
    m: LazliyParsedMessage,
)
    requires
        decode_ok(descs, mi, b, lo, hi, m),
    ensures
        forall|k: int|
            0 <= k < m.single_fields@.len() ==> (#[trigger] m.single_fields@[k]).value.spans_wf(
                lo,
                hi,
            ),
        forall|k: int, x: int|
            0 <= k < m.repeated_fields@.len() && 0 <= x < m.repeated_fields@[k].value@.len()
                ==> (#[trigger] m.repeated_fields@[k].value@[x]).spans_wf(lo, hi),
{
    assert forall|k: int, x: int|
        0 <= k < m.repeated_fields@.len() && 0 <= x
            < m.repeated_fields@[k].value@.len() implies (#[trigger] m.repeated_fields@[k].value@[x]).spans_wf(
        lo,
        hi,
    ) by {
        assert(crate::value::repeated_record_wf(
            m.repeated_fields@[k],
            descs.messages@[mi],
            lo,
            hi,
        ));
    }
}

/// A well-formed varint occupies at least one byte and ends within the
/// region.
pub proof fn lemma_varint_bounds(b: Seq<u8>, pos: int, end: int, max: nat)
    ensures
        match crate::wire::varint_len_from(b, pos, end, max) {
            Some(n) => 1 <= n && pos + n <= end,
            None => true,
        },
    decreases max,
{
    if max == 0 || pos < 0 || pos >= end || end > b.len() {
    } else if b[pos] < 0x80 {
    } else {
        lemma_varint_bounds(b, pos + 1, end, (max - 1) as nat);
    }
}

/// A varint value is never negative.
pub proof fn lemma_varint_value_nonneg(b: Seq<u8>, pos: int, n: nat)
    ensures
        crate::wire::varint_value(b, pos, n) >= 0,
    decreases n,
{
    if n > 0 {
        lemma_varint_value_nonneg(b, pos, (n - 1) as nat);
        vstd::arithmetic::mul::lemma_mul_nonnegative(
            crate::wire::low7(b[pos + n - 1]) as int,
            vstd::arithmetic::power2::pow2((7 * (n - 1)) as nat) as int,
        );
    }
}

/// Every span of one parsed wire value stays inside `pos - 1 .. end`.
pub proof fn lemma_parse_value_spans(ft: crate::descriptor::FieldType, b: Seq<u8>, pos: int, end: int)
    requires
        0 <= pos,
        end <= usize::MAX,
    ensures
        match crate::de::spec_parse_value(ft, b, pos, end) {
            Ok((v, p)) => v.spans_wf(pos - 1, end),
            Err(_) => true,
        },
{
    lemma_varint_bounds(b, pos, end, 10);
    match crate::de::spec_varint(b, pos, end) {
        None => {},
        Some((l, p1)) => {
            lemma_varint_value_nonneg(b, pos, (p1 - pos) as nat);
        },
    }
    match crate::de::spec_read_ld(b, pos, end) {
        Err(_) => {},
        Ok((s, p)) => {
            assert(s.start > pos);
            assert(s.start + s.len <= end);
        },
    }
}

/// Every span the wire scan records stays inside the scanned region.
pub proof fn lemma_scan_spans(md: MessageDescriptor, b: Seq<u8>, pos: int, end: int)
    requires
        0 <= pos <= end,
        end <= usize::MAX,
    ensures
        match crate::de::spec_scan(md, b, pos, end) {
            Ok(s) => forall|i: int|
                0 <= i < s.len() ==> (#[trigger] s[i]).1.spans_wf(pos, end),
            Err(_) => true,
        },
    decreases end - pos,
{
    if pos >= end {
    } else {
        lemma_varint_bounds(b, pos, end, 10);
        match crate::de::spec_varint(b, pos, end) {
            None => {},
            Some((tagv, p1)) => {
                let tag = crate::wire::spec_low32(tagv as u64);
                let num = tag / 8;
                match crate::descriptor::spec_find_field(md, num) {
                    Some(fi) => {
                        lemma_parse_value_spans(md.fields@[fi].field_type, b, p1, end);
                        match crate::de::spec_parse_value(md.fields@[fi].field_type, b, p1, end) {
                            Err(_) => {},
                            Ok((v, p2)) => {
                                if pos < p2 <= end {
                                    lemma_scan_spans(md, b, p2, end);
                                    match crate::de::spec_scan(md, b, p2, end) {
                                        Err(_) => {},
                                        Ok(rest) => {
                                            let s = seq![(fi as usize, v)] + rest;
                                            assert forall|i: int|
                                                0 <= i < s.len() implies (#[trigger] s[i]).1.spans_wf(
                                                pos,
                                                end,
                                            ) by {
                                                if i == 0 {
                                                    assert(s[0].1 == v);
                                                } else {
                                                    assert(s[i] == rest[i - 1]);
                                                }
                                            }
                                        },
                                    }
                                }
                            },
                        }
                    },
                    None => {
                        match crate::de::spec_skip_unknown(b, p1, end, tag) {
                            Err(_) => {},
                            Ok(p2) => {
                                if pos < p2 <= end {
                                    lemma_scan_spans(md, b, p2, end);
                                }
                            },
                        }
                    },
                }
            },
        }
    }
}

/// A field's recorded occurrences borrow only what the scan borrowed.
pub proof fn lemma_occurrences_spans(
    s: Seq<(usize, SingleFieldValue)>,
    fi: int,
    lo: int,
    hi: int,
)
    requires
        forall|i: int| 0 <= i < s.len() ==> (#[trigger] s[i]).1.spans_wf(lo, hi),
    ensures
        forall|i: int|
            0 <= i < occurrences(s, fi).len() ==> (#[trigger] occurrences(s, fi)[i]).spans_wf(
                lo,
                hi,
            ),
    decreases s.len(),
{
    if s.len() > 0 {
        assert forall|i: int| 0 <= i < s.drop_last().len() implies (#[trigger] s.drop_last()[i]).1.spans_wf(
            lo,
            hi,
        ) by {
            assert(s.drop_last()[i] == s[i]);
        }
        lemma_occurrences_spans(s.drop_last(), fi, lo, hi);
        let occ = occurrences(s, fi);
        let occp = occurrences(s.drop_last(), fi);
        assert forall|i: int| 0 <= i < occ.len() implies (#[trigger] occ[i]).spans_wf(lo, hi) by {
            if s.last().0 == fi && i == occp.len() {
                assert(occ[i] == s.last().1);
                assert(s[s.len() - 1].1.spans_wf(lo, hi));
            } else {
                assert(occ[i] == occp[i]);
            }
        }
    }
}

/// Every final singular value borrows only what the scan borrowed: it is
/// either a recorded occurrence or a synthesized default, which borrows
/// nothing.
pub proof fn lemma_singles_values_spans(
    md: MessageDescriptor,
    scan: Seq<(usize, SingleFieldValue)>,
    bound: int,
    lo: int,
    hi: int,
)
    requires
        -1 <= bound <= 0xffffffff,
        forall|i: int| 0 <= i < scan.len() ==> (#[trigger] scan[i]).1.spans_wf(lo, hi),
    ensures
        forall|k: int|
            0 <= k < spec_singles_from(md, scan, bound).len() ==> (#[trigger] spec_singles_from(
                md,
                scan,
                bound,
            )[k]).value.spans_wf(lo, hi),
    decreases 0x100000000 - bound,
{
    let sf = spec_singles_from(md, scan, bound);
    match min_single_tag_above(md.fields@, bound, 0) {
        None => {},
        Some(t) => {
            if bound < t {
                match find_single_field_from(md.fields@, t, 0) {
                    None => {},
                    Some(hd) => {
                        lemma_occurrences_spans(scan, hd, lo, hi);
                        lemma_singles_values_spans(md, scan, t as int, lo, hi);
                        let tail = spec_singles_from(md, scan, t as int);
                        assert forall|k: int| 0 <= k < sf.len() implies (#[trigger] sf[k]).value.spans_wf(
                            lo,
                            hi,
                        ) by {
                            if k == 0 {
                                let occ = occurrences(scan, hd);
                                if occ.len() > 0 {
                                    assert(occ[occ.len() - 1].spans_wf(lo, hi));
                                }
                            } else {
                                assert(sf[k] == tail[k - 1]);
                            }
                        }
                    },
                }
            }
        },
    }
}

/// A successfully resolved sequence resolves its values one for one, in
/// order.
pub proof fn lemma_resolve_seq_ok(
    descs: Descriptors,
    md: MessageDescriptor,
    fi: int,
    vs: Seq<SingleFieldValue>,
)
    ensures
        match crate::visit::spec_resolve_seq(descs, md, fi, vs) {
            Ok(rs) => rs.len() == vs.len() && forall|i: int|
                0 <= i < vs.len() ==> crate::visit::spec_resolve(descs, md, fi, vs[i]) == Ok::<
                    crate::visit::ResolvedValue,
                    Error,
                >(#[trigger] rs[i]),
            Err(_) => true,
        },
    decreases vs.len(),
{
    if vs.len() > 0 {
        lemma_resolve_seq_ok(descs, md, fi, vs.drop_last());
    }
}

/// Resolution never invents a borrow: a resolved value borrows only what
/// the stored value borrowed.
pub proof fn lemma_resolve_preserves_spans(
    descs: Descriptors,
    md: MessageDescriptor,
    fi: int,
    v: SingleFieldValue,
    lo: int,
    hi: int,
)
    requires
        v.spans_wf(lo, hi),
    ensures
        match crate::visit::spec_resolve(descs, md, fi, v) {
            Ok(r) => r.spans_wf(lo, hi),
            Err(_) => true,
        },
{
}

/// No copying, at the traversal: every byte, string or submessage span a
/// traversal surfaces lies inside the decoded region of the caller's
/// buffer.
pub proof fn lemma_no_copying_traversal(
    descs: Descriptors,
    mi: int,
    b: Seq<u8>,
    lo: int,
    hi: int,
    entries: Seq<crate::visit::MapEntry>,
)
    requires
        0 <= mi < descs.messages@.len(),
        0 <= lo <= hi <= usize::MAX,
        crate::visit::entries_ok(descs, mi, b, lo, hi, entries),
    ensures
        forall|k: int|
            0 <= k < entries.len() ==> (#[trigger] entries[k]).output.spans_wf(lo, hi),
{
    let md = descs.messages@[mi];
    let scan = spec_scan_ok(md, b, lo, hi);
    let sf = spec_singles_from(md, scan, -1);
    let rif = repeated_indices_from(md.fields@, 0);
    lemma_scan_spans(md, b, lo, hi);
    assert forall|i: int| 0 <= i < scan.len() implies (#[trigger] scan[i]).1.spans_wf(lo, hi) by {
        if crate::de::spec_scan(md, b, lo, hi) is Ok {
        } else {
            assert(scan =~= Seq::<(usize, SingleFieldValue)>::empty());
        }
    }
    lemma_singles_values_spans(md, scan, -1, lo, hi);
    assert forall|k: int| 0 <= k < entries.len() implies (#[trigger] entries[k]).output.spans_wf(
        lo,
        hi,
    ) by {
        if k < sf.len() {
            lemma_resolve_preserves_spans(descs, md, sf[k].descriptor as int, sf[k].value, lo, hi);
        } else {
            let j = k - sf.len();
            assert(0 <= j < rif.len());
            assert(entries[sf.len() + j].field == rif[j]);
            lemma_occurrences_spans(scan, rif[j], lo, hi);
            lemma_resolve_seq_ok(descs, md, rif[j], occurrences(scan, rif[j]));
            match entries[k].output {
                crate::visit::FieldOutput::Repeated(vs) => {
                    let occ = occurrences(scan, rif[j]);
                    assert forall|x: int| 0 <= x < vs@.len() implies (#[trigger] vs@[x]).spans_wf(
                        lo,
                        hi,
                    ) by {
                        lemma_resolve_preserves_spans(descs, md, rif[j], occ[x], lo, hi);
                    }
                },
                _ => {},
            }
        }
    }
}

/// Pool reuse: the pool counts a full decode-and-traverse pass leaves
/// behind are a fixed point — running the same message shape again leaves
/// them unchanged, so the stored buffer count never grows with the number
/// of decodes.
pub proof fn lemma_pool_steady_state(c: nat, k: nat)
    ensures
        pool_drain(pool_drain(c, k) + k, k) + k == pool_drain(c, k) + k,
        pool_drain(c, k) + k == if c >= k {
            c
        } else {
            k
        },
{
}

} // verus!
