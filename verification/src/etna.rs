use vstd::prelude::*;

use crate::byte_record::{
    ByteRecord, bytes_eq, ends_wf, fields_of, is_ascii_whitespace, is_ascii_ws,
    lemma_fields_flatten, lemma_trim_ascii_window, trim_ascii, trim_fields,
};
use crate::core_reader::{
    CoreReader, CoreState, ReadRecordResult, default_config, lemma_run_bounded_unfilled, run,
    scan_start,
};
use crate::grammar::lemma_run_record;
use crate::grammar::{encodes, join_fields, lemma_join_push, plain_byte, sane};
use crate::reader::{ReaderBuilder, Trim, lemma_read_encoded_record};
use crate::round_trip::{compatible, lemma_write_then_read};
use crate::writer::{WriterBuilder, spec_write_record};
use crate::deserializer::{DeserializeError, RowField, deserialize_row, fold_headers, header_field, spec_deserialize_row};
use crate::report::to_err;
use vstd::std_specs::cmp::PartialEqSpec;
use vstd::utf8::{
    decode_utf8, encode_utf8, encode_utf8_decode_utf8, encode_utf8_valid_utf8, is_ascii_chars,
    is_ascii_chars_encode_utf8, valid_utf8,
};

verus! {

/// Outcome of checking one property on one input.
pub enum PropertyResult {
    /// The property held.
    Pass,
    /// The property was violated; the text says how.
    Fail(String),
    /// The input is outside the property's domain.
    Discard,
}

/// Bytes that survive input normalization: ASCII letters and digits, space,
/// `_`, `-`, `.` and `@`.
pub open spec fn is_kept_byte(b: u8) -> bool {
    ||| (0x30 <= b <= 0x39)
    ||| (0x41 <= b <= 0x5a)
    ||| (0x61 <= b <= 0x7a)
    ||| b == 0x20
    ||| b == 0x5f
    ||| b == 0x2d
    ||| b == 0x2e
    ||| b == 0x40
}

/// Longest length a normalized field keeps.
pub const NORMALIZED_MAX: usize = 24;

/// At most the first `NORMALIZED_MAX` elements.
pub open spec fn cap_len(s: Seq<u8>) -> Seq<u8> {
    if s.len() <= NORMALIZED_MAX {
        s
    } else {
        s.take(NORMALIZED_MAX as int)
    }
}

/// `is_kept_byte` as a predicate value.
pub open spec fn kept() -> spec_fn(u8) -> bool {
    |b: u8| is_kept_byte(b)
}

/// The kept bytes of `src`, in order, cut to `NORMALIZED_MAX` bytes.
pub open spec fn normalized(src: Seq<u8>) -> Seq<u8> {
    cap_len(src.filter(kept()))
}

fn keep_byte(b: u8) -> (r: bool)
    ensures
        r == is_kept_byte(b),
{
    (b >= 0x30 && b <= 0x39) || (b >= 0x41 && b <= 0x5a) || (b >= 0x61 && b <= 0x7a) || b == 0x20
        || b == 0x5f || b == 0x2d || b == 0x2e || b == 0x40
}

/// Keeps only the bytes that `is_kept_byte` accepts, and at most the first
/// `NORMALIZED_MAX` of them.
pub fn normalize_field(src: &[u8]) -> (r: Vec<u8>)
    ensures
        r@ == normalized(src@),
{
    
    let mut out: Vec<u8> = Vec::new();
    let mut i: usize = 0;
    assert(src@.take(0).filter(kept()) =~= Seq::<u8>::empty()) by {
        reveal(Seq::filter);
    }
    while i < src.len()
        invariant
            i <= src@.len(),
            out@ == cap_len(src@.take(i as int).filter(kept())),
        decreases src@.len() - i,
    {
        let b = src[i];
        proof {
            assert(src@.take(i + 1) =~= src@.take(i as int).push(b));
            src@.take(i as int).lemma_filter_push(b, kept());
            assert(kept()(b) == is_kept_byte(b));
        }
        if keep_byte(b) && out.len() < NORMALIZED_MAX {
            out.push(b);
        }
        i = i + 1;
        proof {
            let f = src@.take(i as int).filter(kept());
            if is_kept_byte(b) {
                let g = src@.take(i - 1).filter(kept());
                assert(f == g.push(b));
                if g.len() < NORMALIZED_MAX {
                    assert(out@ =~= cap_len(f));
                } else {
                    assert(g.push(b).take(NORMALIZED_MAX as int) =~= g.take(NORMALIZED_MAX as int));
                }
            }
        }
    }
    assert(src@.take(i as int) =~= src@);
    out
}


/// How many split values are used: at most the first four.
pub open spec fn split_limit(splits: Seq<u8>) -> int {
    if splits.len() < 4 {
        splits.len() as int
    } else {
        4
    }
}

/// `p` is an interior cut of a buffer of length `n`, named by one of the
/// first `m` split values taken modulo `n + 1`.
pub open spec fn is_cut_upto(splits: Seq<u8>, n: int, m: int, p: int) -> bool {
    &&& 0 < p < n
    &&& exists|j: int| 0 <= j < m && #[trigger] ((splits[j] as int) % (n + 1)) == p
}

/// Strictly increasing positions.
pub open spec fn strictly_increasing(s: Seq<usize>) -> bool {
    forall|i: int, j: int| 0 <= i < j < s.len() ==> s[i] < s[j]
}

/// `cuts` lists, in increasing order, exactly the interior cuts that the
/// first `m` split values name.
pub open spec fn is_cut_list_upto(cuts: Seq<usize>, splits: Seq<u8>, n: int, m: int) -> bool {
    &&& strictly_increasing(cuts)
    &&& forall|k: int| 0 <= k < cuts.len() ==> is_cut_upto(splits, n, m, #[trigger] cuts[k] as int)
    &&& forall|p: int|
        #![trigger is_cut_upto(splits, n, m, p)]
        is_cut_upto(splits, n, m, p) ==> exists|k: int| 0 <= k < cuts.len() && cuts[k] == p
}

/// `cuts` lists, in increasing order, the cut positions that `splits` names.
pub open spec fn is_cut_list(cuts: Seq<usize>, splits: Seq<u8>, n: int) -> bool {
    is_cut_list_upto(cuts, splits, n, split_limit(splits))
}

/// The pieces of `bytes` between consecutive cuts.
pub open spec fn pieces(bytes: Seq<u8>, cuts: Seq<usize>) -> Seq<Seq<u8>> {
    fields_of(bytes, cuts.push(bytes.len() as usize))
}

/// Cuts `bytes` at the positions that the first four values of `splits`
/// name modulo `bytes.len() + 1`, leaving out positions at either end.
/// An empty input gives a single empty piece.
pub fn split_bytes(bytes: &[u8], splits: &[u8]) -> (r: Vec<Vec<u8>>)
    ensures
        bytes@.len() == 0 ==> r.deep_view() == seq![Seq::<u8>::empty()],
        bytes@.len() > 0 ==> exists|cuts: Seq<usize>|
            is_cut_list(cuts, splits@, bytes@.len() as int) && r.deep_view() == #[trigger] pieces(
                bytes@,
                cuts,
            ),
        r.deep_view().flatten() == bytes@,
{
    let n = bytes.len();
    if n == 0 {
        let mut r: Vec<Vec<u8>> = Vec::new();
        r.push(Vec::new());
        proof {
            assert(r[0].deep_view() =~= Seq::<u8>::empty());
            assert(r.deep_view() =~= seq![Seq::<u8>::empty()]);
            assert(r.deep_view().drop_first() =~= Seq::<Seq<u8>>::empty());
            r.deep_view().lemma_flatten_singleton();
            assert(r.deep_view().flatten() =~= bytes@);
        }
        return r;
    }
    let limit: usize = if splits.len() < 4 {
        splits.len()
    } else {
        4
    };
    let mut positions: Vec<usize> = Vec::new();
    let mut j: usize = 0;
    while j < limit
        invariant
            n == bytes@.len(),
            n > 0,
            limit == split_limit(splits@),
            j <= limit,
            is_cut_list_upto(positions@, splits@, n as int, j as int),
        decreases limit - j,
    {
        let s = splits[j] as usize;
        let p: usize = if n >= 255 {
            s
        } else {
            s % (n + 1)
        };
        proof {
            if n >= 255 {
                assert((s as int) % (n as int + 1) == s) by (nonlinear_arith)
                    requires
                        0 <= s <= 255,
                        255 <= n,
                ;
            }
            assert(p as int == (splits@[j as int] as int) % (n as int + 1));
        }
        let ghost before = positions@;
        let ghost mut ins_at: int = -1;
        let ghost mut p_at: int = -1;
        if p > 0 && p < n {
            let mut k: usize = 0;
            while k < positions.len() && positions[k] < p
                invariant
                    k <= positions@.len(),
                    forall|i: int| 0 <= i < k ==> positions@[i] < p,
                decreases positions@.len() - k,
            {
                k = k + 1;
            }
            proof {
                p_at = k as int;
            }
            if k == positions.len() || positions[k] != p {
                positions.insert(k, p);
                proof {
                    ins_at = k as int;
                    assert(k < before.len() ==> before[k as int] > p);
                    assert forall|a: int, b: int| 0 <= a < b < positions@.len() implies positions@[a]
                        < positions@[b] by {
                        if b < k {
                        } else if a < k && b == k {
                        } else if a < k {
                            assert(positions@[b] == before[b - 1]);
                        } else if a == k {
                            assert(positions@[b] == before[b - 1]);
                            if b - 1 > k {
                                assert(before[k as int] < before[b - 1]);
                            }
                        } else {
                            assert(positions@[a] == before[a - 1]);
                            assert(positions@[b] == before[b - 1]);
                        }
                    }
                }
            }
        }
        proof {
            assert(ins_at >= 0 ==> positions@ == before.insert(ins_at, p) && 0 < p < n);
            assert(ins_at < 0 ==> positions@ == before);
            assert(0 < p < n ==> 0 <= p_at < positions@.len() && positions@[p_at] == p);
            let m = j as int + 1;
            assert forall|k: int| 0 <= k < positions@.len() implies is_cut_upto(
                splits@,
                n as int,
                m,
                #[trigger] positions@[k] as int,
            ) by {
                let q = positions@[k] as int;
                if q == p {
                    assert(((splits@[j as int] as int) % (n as int + 1)) == q);
                } else {
                    let kk = choose|kk: int| 0 <= kk < before.len() && before[kk] == q;
                    assert(is_cut_upto(splits@, n as int, j as int, before[kk] as int));
                }
            }
            assert forall|q: int| #[trigger] is_cut_upto(splits@, n as int, m, q) implies exists|
                k: int,
            | 0 <= k < positions@.len() && positions@[k] == q by {
                let jj = choose|jj: int|
                    0 <= jj < m && #[trigger] ((splits@[jj] as int) % (n as int + 1)) == q;
                if jj < j {
                    assert(is_cut_upto(splits@, n as int, j as int, q));
                    let k0 = choose|k0: int| 0 <= k0 < before.len() && before[k0] == q;
                    if ins_at >= 0 {
                        let kins = ins_at;
                        if k0 < kins {
                            assert(positions@[k0] == q);
                        } else {
                            assert(positions@[k0 + 1] == q);
                        }
                    } else {
                        assert(positions@[k0] == q);
                    }
                } else {
                    assert(q == p);
                    assert(positions@[p_at] == q);
                }
            }
        }
        j = j + 1;
    }
    let ghost cuts = positions@;
    let ghost ends = cuts.push(n);
    proof {
        assert forall|a: int, b: int| 0 <= a <= b < ends.len() implies ends[a] <= ends[b] by {
            if b == ends.len() - 1 {
                if a < b {
                    assert(is_cut_upto(splits@, n as int, limit as int, cuts[a] as int));
                }
            } else if a < b {
            }
        }
        assert(ends_wf(bytes@, ends));
    }
    let mut out: Vec<Vec<u8>> = Vec::new();
    let mut prev: usize = 0;
    let mut k: usize = 0;
    while k < positions.len()
        invariant
            positions@ == cuts,
            ends == cuts.push(n),
            n == bytes@.len(),
            ends_wf(bytes@, ends),
            k <= cuts.len(),
            prev == crate::byte_record::field_start(ends, k as int),
            out.deep_view() == fields_of(bytes@, ends).take(k as int),
        decreases cuts.len() - k,
    {
        let p = positions[k];
        proof {
            if k > 0 {
                assert(ends[k - 1] <= ends[k as int]);
            }
            assert(ends[k as int] <= ends.last());
        }
        let piece = vstd::slice::slice_to_vec(vstd::slice::slice_subrange(bytes, prev, p));
        let ghost old_out = out.deep_view();
        out.push(piece);
        proof {
            assert(piece.deep_view() =~= piece@);
            assert(out.deep_view() =~= old_out.push(piece@));
            assert(fields_of(bytes@, ends).take(k + 1) =~= fields_of(bytes@, ends).take(
                k as int,
            ).push(fields_of(bytes@, ends)[k as int]));
        }
        prev = p;
        k = k + 1;
    }
    proof {
        if k > 0 {
            assert(ends[k - 1] <= ends[k as int]);
        }
    }
    let last = vstd::slice::slice_to_vec(vstd::slice::slice_subrange(bytes, prev, n));
    let ghost old_out = out.deep_view();
    out.push(last);
    proof {
        assert(last.deep_view() =~= last@);
        assert(out.deep_view() =~= old_out.push(last@));
        assert(fields_of(bytes@, ends).take(k + 1) =~= fields_of(bytes@, ends).take(k as int).push(
            fields_of(bytes@, ends)[k as int],
        ));
        assert(fields_of(bytes@, ends).take(k + 1) =~= fields_of(bytes@, ends));
        assert(out.deep_view() == pieces(bytes@, cuts));
        lemma_fields_flatten(bytes@, ends);
    }
    out
}


/// Text for a failed check.
fn fail(msg: &str) -> (r: PropertyResult)
    ensures
        (r matches PropertyResult::Fail(m) && m@ == msg@),
{
    PropertyResult::Fail(String::from_str(msg))
}

/// Record equality agrees with equality of the field lists.
///
/// `left` splits `base` at the cuts named by `splits_a`; `right` splits
/// `base` with its last `trunc_b % (len + 1)` bytes removed at the cuts named
/// by `splits_b`. Records built from the two lists compare equal exactly when
/// the lists do. Inputs longer than 16 bytes are discarded.
pub fn property_byte_record_eq_matches_fields(
    base: Vec<u8>,
    splits_a: Vec<u8>,
    splits_b: Vec<u8>,
    trunc_b: u8,
) -> (r: PropertyResult)
    ensures
        base@.len() > 16 ==> r is Discard,
        base@.len() <= 16 ==> r is Pass,
{
    if base.len() > 16 {
        return PropertyResult::Discard;
    }
    let n = base.len();
    let trunc = (trunc_b as usize) % (n + 1);
    let base_a = base.as_slice();
    let base_b = vstd::slice::slice_subrange(base.as_slice(), 0, n - trunc);
    let left = split_bytes(base_a, splits_a.as_slice());
    let right = split_bytes(base_b, splits_b.as_slice());
    let r1 = ByteRecord::from_fields(&left);
    let r2 = ByteRecord::from_fields(&right);
    let expected = left == right;
    let actual = r1 == r2;
    proof {
        assert(actual == (left.deep_view() == right.deep_view()));
        assert(expected == (left.deep_view() == right.deep_view())) by {
            if left.deep_view() == right.deep_view() {
                assert forall|i: int| 0 <= i < left.len() implies left[i].eq_spec(&right[i]) by {
                    assert(left.deep_view()[i] == right.deep_view()[i]);
                    assert(left[i].deep_view() =~= left[i]@);
                    assert(right[i].deep_view() =~= right[i]@);
                }
            }
            if expected {
                assert forall|i: int| 0 <= i < left.len() implies left.deep_view()[i]
                    == right.deep_view()[i] by {
                    assert(left[i].eq_spec(&right[i]));
                    assert(left[i]@ =~= right[i]@);
                    assert(left[i].deep_view() =~= left[i]@);
                    assert(right[i].deep_view() =~= right[i]@);
                }
                assert(left.deep_view() =~= right.deep_view());
            }
        }
    }
    if expected != actual {
        return fail("record equality disagrees with field-list equality");
    }
    PropertyResult::Pass
}


/// Every byte of a normalized field is a kept byte.
pub proof fn lemma_normalized_kept(src: Seq<u8>)
    ensures
        forall|i: int| 0 <= i < normalized(src).len() ==> is_kept_byte(#[trigger] normalized(src)[i]),
{
    let f = src.filter(kept());
    assert forall|i: int| 0 <= i < normalized(src).len() implies is_kept_byte(#[trigger] normalized(src)[i]) by {
        src.lemma_filter_pred(kept(), i);
        assert(normalized(src)[i] == f[i]);
    }
}

/// A field padded with a space before and a tab after.
pub open spec fn padded(f: Seq<u8>) -> Seq<u8> {
    seq![0x20u8] + f + seq![0x09u8]
}

/// A field the trim check cannot use: empty, or with whitespace at either end.
pub open spec fn bad_trim_field(f: Seq<u8>) -> bool {
    f.len() == 0 || is_ascii_ws(f[0]) || is_ascii_ws(f.last())
}

/// Inputs outside the trim check's domain: no fields, more than six, or a
/// field whose normalized form cannot be used.
pub open spec fn trim_case_discarded(fields: Seq<Seq<u8>>) -> bool {
    ||| fields.len() == 0
    ||| fields.len() > 6
    ||| exists|i: int| 0 <= i < fields.len() && bad_trim_field(normalized(#[trigger] fields[i]))
}

/// Trimming a padded field gives the field back when it has no whitespace at
/// either end.
pub proof fn lemma_trim_padded(f: Seq<u8>)
    requires
        !bad_trim_field(f),
    ensures
        trim_ascii(padded(f)) == f,
{
    let p = padded(f);
    let hi = 1 + f.len();
    assert(p[0] == 0x20u8);
    assert(p[hi as int] == 0x09u8);
    assert(p[1] == f[0]);
    assert(p[hi - 1] == f.last());
    assert forall|k: int| hi <= k < p.len() implies is_ascii_ws(#[trigger] p[k]) by {
        assert(k == hi);
    }
    lemma_trim_ascii_window(p, 1, hi as int);
    assert(p.subrange(1, hi as int) =~= f);
}

/// Appends a field padded with a space before and a tab after.
fn push_padded(data: &mut Vec<u8>, f: &[u8])
    ensures
        final(data)@ == old(data)@ + padded(f@),
{
    data.push(0x20u8);
    let mut k: usize = 0;
    while k < f.len()
        invariant
            k <= f@.len(),
            data@ == old(data)@ + seq![0x20u8] + f@.take(k as int),
        decreases f@.len() - k,
    {
        data.push(f[k]);
        k = k + 1;
        assert(f@.take(k as int) =~= f@.take(k - 1).push(f@[k - 1]));
    }
    data.push(0x09u8);
    assert(f@.take(k as int) =~= f@);
    assert(data@ =~= old(data)@ + padded(f@));
}

/// `Trim::All` trims every field even without a header record.
///
/// Each input field is normalized, padded with a space before and a tab
/// after, and the padded fields form one record. Reading it back with no
/// header record and `Trim::All` must give the normalized fields. Inputs
/// with no fields, more than six, or a normalized field that is empty or has
/// whitespace at either end are discarded.
pub fn property_trim_all_applies_without_headers(fields: Vec<Vec<u8>>) -> (r: PropertyResult)
    ensures
        trim_case_discarded(fields.deep_view()) ==> r is Discard,
        !trim_case_discarded(fields.deep_view()) ==> r is Pass,
{
    if fields.len() == 0 || fields.len() > 6 {
        return PropertyResult::Discard;
    }
    let n = fields.len();
    let ghost fv = fields.deep_view();
    let mut cleaned: Vec<Vec<u8>> = Vec::new();
    let mut i: usize = 0;
    while i < n
        invariant
            n == fields.len(),
            fv == fields.deep_view(),
            i <= n,
            cleaned.len() == i,
            forall|j: int| 0 <= j < i ==> #[trigger] cleaned[j]@ == normalized(fv[j]),
        decreases n - i,
    {
        let c = normalize_field(fields[i].as_slice());
        proof {
            assert(fields[i as int].deep_view() =~= fields[i as int]@);
        }
        cleaned.push(c);
        i = i + 1;
    }
    let mut i: usize = 0;
    while i < n
        invariant
            n == cleaned.len(),
            fv == fields.deep_view(),
            n == fv.len(),
            forall|j: int| 0 <= j < n ==> #[trigger] cleaned[j]@ == normalized(fv[j]),
            i <= n,
            forall|j: int| 0 <= j < i ==> !bad_trim_field(#[trigger] cleaned[j]@),
        decreases n - i,
    {
        let f = &cleaned[i];
        if f.len() == 0 || is_ascii_whitespace(f[0]) || is_ascii_whitespace(f[f.len() - 1]) {
            proof {
                assert(bad_trim_field(cleaned[i as int]@));
                assert(bad_trim_field(normalized(fv[i as int])));
            }
            return PropertyResult::Discard;
        }
        i = i + 1;
    }
    let ghost cv = Seq::new(n as nat, |j: int| cleaned[j]@);
    let ghost es = cv.map_values(|f: Seq<u8>| padded(f));
    proof {
        assert forall|j: int| 0 <= j < n implies !bad_trim_field(normalized(#[trigger] fv[j])) by {
            assert(!bad_trim_field(cleaned[j]@));
        }
        assert(!trim_case_discarded(fv));
    }
    let mut data: Vec<u8> = Vec::new();
    let mut i: usize = 0;
    proof {
        assert(es.take(0) =~= Seq::<Seq<u8>>::empty());
    }
    while i < n
        invariant
            n == cleaned.len(),
            n >= 1,
            i <= n,
            cv == Seq::new(n as nat, |j: int| cleaned[j]@),
            es == cv.map_values(|f: Seq<u8>| padded(f)),
            data@ == join_fields(es.take(i as int), 0x2cu8),
        decreases n - i,
    {
        let ghost before = data@;
        if i > 0 {
            data.push(0x2cu8);
        }
        push_padded(&mut data, cleaned[i].as_slice());
        proof {
            assert(es.take(i + 1) =~= es.take(i as int).push(es[i as int]));
            lemma_join_push(es.take(i as int), es[i as int], 0x2cu8);
            if i > 0 {
                assert(data@ =~= before + seq![0x2cu8] + padded(cleaned[i as int]@));
            } else {
                assert(before =~= Seq::<u8>::empty());
                assert(data@ =~= padded(cleaned[i as int]@));
            }
        }
        i = i + 1;
    }
    data.push(0x0au8);
    let rdr0 = ReaderBuilder::new().has_headers(false).trim(Trim::All);
    let mut rdr = rdr0.from_reader(data.as_slice());
    let ghost v = rdr.view();
    proof {
        assert(es.take(n as int) =~= es);
        let cfg = default_config();
        assert forall|j: int| 0 <= j < es.len() implies encodes(cfg, #[trigger] es[j], es[j]) by {
            let f = cleaned[j]@;
            lemma_normalized_kept(fv[j]);
            assert(f == normalized(fv[j]));
            assert forall|k: int| 0 <= k < es[j].len() implies plain_byte(cfg, #[trigger] es[j][k]) by {
                if 0 < k < es[j].len() - 1 {
                    assert(es[j][k] == f[k - 1]);
                    assert(is_kept_byte(f[k - 1]));
                }
            }
        }
        assert(sane(cfg));
        assert(v.input.skip(0) =~= join_fields(es, 0x2cu8) + seq![0x0au8] + Seq::<u8>::empty());
        assert(join_fields(es, 0x2cu8)[0] == 0x20u8) by {
            lemma_join_first(es, 0x2cu8);
        }
        assert((join_fields(es, 0x2cu8) + seq![0x0au8])[0] == 0x20u8);
        assert(data@.len() == data.len());
        lemma_read_encoded_record(v, es, es, 0x0au8, Seq::<u8>::empty());
        assert forall|j: int| 0 <= j < n implies #[trigger] trim_fields(es)[j] == cv[j] by {
            assert(!bad_trim_field(cleaned[j]@));
            lemma_trim_padded(cleaned[j]@);
        }
        assert(trim_fields(es) =~= cv);
    }
    let mut rec = ByteRecord::new();
    let ok = match rdr.read_byte_record(&mut rec) {
        Ok(b) => b,
        Err(_) => {
            return fail("read error");
        },
    };
    if !ok {
        return fail("no record read");
    }
    if rec.len() != cleaned.len() {
        return fail("wrong number of fields");
    }
    let mut i: usize = 0;
    while i < n
        invariant
            n == cleaned.len(),
            i <= n,
            rec@ == cv,
            cv == Seq::new(n as nat, |j: int| cleaned[j]@),
        decreases n - i,
    {
        match rec.get(i) {
            Some(g) => {
                if !bytes_eq(g, cleaned[i].as_slice()) {
                    return fail("field not trimmed");
                }
            },
            None => {
                return fail("field missing");
            },
        }
        i = i + 1;
    }
    PropertyResult::Pass
}

/// `Reader::reset` brings the field offset back to zero.
///
/// A core parser first reads a whole record and then a partial one, which
/// leaves it in the middle of a field, and is then reset. Reading
/// `<field>,z` and a newline, with `<field>` the normalized input, must then
/// report the first field ending at offset `<field>.len()`. Inputs whose
/// normalized form is empty are discarded.
pub fn property_reset_clears_output_position(payload: Vec<u8>) -> (r: PropertyResult)
    ensures
        normalized(payload@).len() == 0 ==> r is Discard,
        normalized(payload@).len() > 0 ==> r is Pass,
{
    let field = normalize_field(payload.as_slice());
    if field.len() == 0 {
        return PropertyResult::Discard;
    }
    let mut csv: Vec<u8> = Vec::new();
    append_all(&mut csv, field.as_slice());
    csv.push(0x2cu8);
    csv.push(0x7au8);
    csv.push(0x0au8);
    let mut r = CoreReader::new();
    let mut trash_out: Vec<u8> = vec![0u8; 256];
    let mut trash_ends: Vec<usize> = vec![0usize; 16];
    let first: Vec<u8> = vec![0x66u8, 0x6fu8, 0x6fu8, 0x2cu8, 0x62u8, 0x61u8, 0x72u8, 0x0au8];
    let _ = r.read_record(first.as_slice(), trash_out.as_mut_slice(), trash_ends.as_mut_slice());
    let partial: Vec<u8> = vec![0x62u8, 0x61u8, 0x7au8];
    let _ = r.read_record(partial.as_slice(), trash_out.as_mut_slice(), trash_ends.as_mut_slice());
    r.reset();
    let mut out: Vec<u8> = vec![0u8; 512];
    let mut ends: Vec<usize> = vec![0usize; 16];
    proof {
        let cfg = default_config();
        let es = seq![field@, seq![0x7au8]];
        lemma_normalized_kept(payload@);
        assert forall|j: int| 0 <= j < es.len() implies encodes(cfg, #[trigger] es[j], es[j]) by {
            assert forall|k: int| 0 <= k < es[j].len() implies plain_byte(cfg, #[trigger] es[j][k]) by {
                if j == 0 {
                    assert(is_kept_byte(field@[k]));
                }
            }
        }
        assert(es.drop_first() =~= seq![seq![0x7au8]]);
        assert(join_fields(seq![seq![0x7au8]], 0x2cu8) == seq![0x7au8]);
        assert(join_fields(es, 0x2cu8) =~= field@ + seq![0x2cu8] + seq![0x7au8]);
        assert(csv@ =~= join_fields(es, 0x2cu8) + seq![0x0au8] + Seq::<u8>::empty());
        assert((join_fields(es, 0x2cu8) + seq![0x0au8])[0] == field@[0]);
        assert(is_kept_byte(field@[0]));
        let st = scan_start(CoreState::StartRecord);
        lemma_run_record(cfg, st, es, es, 0x0au8, Seq::<u8>::empty());
        let sc = run(cfg, st, csv@);
        crate::grammar::lemma_flatten_split(es, 0);
        crate::grammar::lemma_flatten_split(es, 1);
        assert(es.take(0) =~= Seq::<Seq<u8>>::empty());
        assert(es.take(2) =~= es);
        assert(es.take(1).flatten() =~= field@);
        assert(es.flatten().len() == field@.len() + 1);
        assert(sc.ends[0] == field@.len());
        lemma_run_bounded_unfilled(cfg, st, csv@, 512, 16);
    }
    let ghost rv = r;
    let (res, _nin, _nout, nend) = r.read_record(csv.as_slice(), out.as_mut_slice(), ends.as_mut_slice());
    proof {
        let cfg = default_config();
        let o = crate::core_reader::read_outcome(cfg, CoreState::StartRecord, 0, csv@, 512, 16);
        assert(rv.out_pos() == 0);
        assert(rv.dfa_state() == CoreState::StartRecord);
        assert(o.ends[0] == field@.len());
        assert(nend == o.nend);
        assert(o.nend >= 1);
        assert(ends@[0] == o.ends[0]);
    }
    if res != ReadRecordResult::Record {
        return PropertyResult::Discard;
    }
    if nend < 1 {
        return fail("no field end reported");
    }
    if ends[0] != field.len() {
        return fail("stale field offset after reset");
    }
    PropertyResult::Pass
}

/// Appends all of `src`.
fn append_all(dst: &mut Vec<u8>, src: &[u8])
    ensures
        final(dst)@ == old(dst)@ + src@,
{
    let mut k: usize = 0;
    while k < src.len()
        invariant
            k <= src@.len(),
            dst@ == old(dst)@ + src@.take(k as int),
        decreases src@.len() - k,
    {
        dst.push(src[k]);
        k = k + 1;
        assert(src@.take(k as int) =~= src@.take(k - 1).push(src@[k - 1]));
    }
    assert(src@.take(k as int) =~= src@);
}

/// The comment byte is special only at the start of a record.
///
/// The record `first,#<tail>` followed by a newline, with `<tail>` the
/// normalized input, is read with `#` as the comment byte. Its second field
/// starts with `#` but is not at the start of the record, so the record must
/// come back as the two fields `first` and `#<tail>`.
pub fn property_comment_only_at_record_start(tail: Vec<u8>) -> (r: PropertyResult)
    ensures
        r is Pass,
{
    let comment: u8 = 0x23u8;
    let ntail = normalize_field(tail.as_slice());
    let mut second: Vec<u8> = Vec::new();
    second.push(comment);
    append_all(&mut second, ntail.as_slice());
    let first: Vec<u8> = vec![0x66u8, 0x69u8, 0x72u8, 0x73u8, 0x74u8];
    let mut data: Vec<u8> = Vec::new();
    append_all(&mut data, first.as_slice());
    data.push(0x2cu8);
    append_all(&mut data, second.as_slice());
    data.push(0x0au8);
    let mut rdr = ReaderBuilder::new().has_headers(false).comment(Some(comment)).from_reader(
        data.as_slice(),
    );
    let ghost v = rdr.view();
    let ghost es = seq![first@, second@];
    proof {
        let cfg = v.cfg;
        assert(cfg == crate::core_reader::CoreConfig { comment: Some(0x23u8), ..default_config() });
        lemma_normalized_kept(tail@);
        assert forall|j: int| 0 <= j < es.len() implies encodes(cfg, #[trigger] es[j], es[j]) by {
            assert forall|k: int| 0 <= k < es[j].len() implies plain_byte(cfg, #[trigger] es[j][k]) by {
                if j == 1 && k > 0 {
                    assert(es[j][k] == ntail@[k - 1]);
                }
            }
        }
        assert(es.drop_first() =~= seq![second@]);
        assert(join_fields(seq![second@], 0x2cu8) == second@);
        assert(join_fields(es, 0x2cu8) =~= first@ + seq![0x2cu8] + second@);
        assert(v.input.skip(0) =~= join_fields(es, 0x2cu8) + seq![0x0au8] + Seq::<u8>::empty());
        assert((join_fields(es, 0x2cu8) + seq![0x0au8])[0] == 0x66u8);
        assert(data@.len() == data.len());
        lemma_read_encoded_record(v, es, es, 0x0au8, Seq::<u8>::empty());
    }
    let mut rec = ByteRecord::new();
    let ok = match rdr.read_byte_record(&mut rec) {
        Ok(b) => b,
        Err(_) => {
            return fail("read error");
        },
    };
    if !ok {
        return fail("no record read");
    }
    if rec.len() != 2 {
        return fail("expected two fields");
    }
    match rec.get(0) {
        Some(g) => {
            if !bytes_eq(g, first.as_slice()) {
                return fail("first field changed");
            }
        },
        None => {
            return fail("first field missing");
        },
    }
    match rec.get(1) {
        Some(g) => {
            if !bytes_eq(g, second.as_slice()) {
                return fail("second field lost to the comment byte");
            }
        },
        None => {
            return fail("second field missing");
        },
    }
    PropertyResult::Pass
}

/// A field that starts with the comment byte survives a round trip.
///
/// A writer with `#` as its comment byte writes the record `#<tail>`,
/// `after`, with `<tail>` the normalized input. The field holding `#` must
/// be put in quotes, so that a reader with the same comment byte and no
/// header record reads the record back with its first field unchanged.
pub fn property_writer_comment_char_auto_quote(tail: Vec<u8>) -> (r: PropertyResult)
    ensures
        r is Pass,
{
    let comment: u8 = 0x23u8;
    let ntail = normalize_field(tail.as_slice());
    let mut field: Vec<u8> = Vec::new();
    field.push(comment);
    append_all(&mut field, ntail.as_slice());
    let after: Vec<u8> = vec![0x61u8, 0x66u8, 0x74u8, 0x65u8, 0x72u8];
    let mut record: Vec<Vec<u8>> = Vec::new();
    record.push(field);
    record.push(after);
    let mut wtr = WriterBuilder::new().comment(Some(comment)).from_writer(Vec::new());
    let ghost wv = wtr.view();
    let ghost fs = record.deep_view();
    proof {
        assert(wv.out =~= Seq::<u8>::empty());
        crate::writer::lemma_write_fields_count(wv, fs);
    }
    match wtr.write_record(&record) {
        Ok(()) => {},
        Err(_) => {
            return fail("write error");
        },
    }
    let buf = wtr.into_inner();
    let rdr0 = ReaderBuilder::new().has_headers(false).comment(Some(comment));
    let mut rdr = rdr0.from_reader(buf.as_slice());
    let ghost rv = rdr.view();
    proof {
        assert(buf@.len() == buf.len());
        assert(compatible(wv.cfg, rv.cfg));
        assert(rv.input.skip(0) =~= spec_write_record(wv, fs).0.out.skip(0) + Seq::<u8>::empty());
        lemma_write_then_read(wv, fs, rv, Seq::<u8>::empty());
        assert(fs.len() == 2);
    }
    let mut rec = ByteRecord::new();
    let ok = match rdr.read_byte_record(&mut rec) {
        Ok(b) => b,
        Err(_) => {
            return fail("read error");
        },
    };
    if !ok {
        return fail("no record read back: the field was not quoted");
    }
    if rec.len() != 2 {
        return fail("expected two fields");
    }
    match rec.get(0) {
        Some(g) => {
            proof {
                assert(record[0].deep_view() =~= record[0]@);
            }
            if !bytes_eq(g, record[0].as_slice()) {
                return fail("first field changed in the round trip");
            }
        },
        None => {
            return fail("first field missing");
        },
    }
    PropertyResult::Pass
}

/// Three fields, in order.
pub open spec fn seq3(a: Seq<u8>, b: Seq<u8>, c: Seq<u8>) -> Seq<Seq<u8>> {
    seq![a, b, c]
}

/// Three fields joined without separators are their bytes one after another.
pub proof fn lemma_flatten_three(a: Seq<u8>, b: Seq<u8>, c: Seq<u8>)
    ensures
        seq3(a, b, c).flatten() == a + b + c,
{
    let s = seq3(a, b, c);
    assert(s.drop_first() =~= seq![b, c]);
    assert(seq![b, c].drop_first() =~= seq![c]);
    assert(seq![c].drop_first() =~= Seq::<Seq<u8>>::empty());
    seq![c].lemma_flatten_singleton();
    assert(seq![b, c].flatten() =~= b + c);
    assert(s.flatten() =~= a + (b + c));
    assert(a + (b + c) =~= a + b + c);
}

/// The UTF-8 encoding of ASCII text is its bytes, one per character, and
/// decodes back to the text.
pub proof fn lemma_ascii_text(chars: Seq<char>, bytes: Seq<u8>)
    requires
        is_ascii_chars(chars),
        bytes.len() == chars.len(),
        forall|i: int| 0 <= i < chars.len() ==> #[trigger] bytes[i] == chars[i] as u8,
    ensures
        valid_utf8(bytes),
        decode_utf8(bytes) == chars,
{
    is_ascii_chars_encode_utf8(chars);
    assert(encode_utf8(chars) =~= bytes);
    encode_utf8_valid_utf8(chars);
    encode_utf8_decode_utf8(chars);
}

/// A byte field is taken as it is, even when it is not UTF-8.
///
/// The record `baz`, `<bytes>`, `quux` is read by the headers `h1`, `h2`,
/// `h3` into a row whose `h2` holds raw bytes; the row must hold `baz`,
/// the input bytes unchanged and `quux`, whatever the input bytes are.
pub fn property_deserialize_byte_buf_accepts_non_utf8(h2_bytes: Vec<u8>) -> (r: PropertyResult)
    requires
        h2_bytes@.len() <= isize::MAX,
    ensures
        r is Pass,
{
    let mut hv: Vec<Vec<u8>> = Vec::new();
    hv.push(vec![0x68u8, 0x31u8]);
    hv.push(vec![0x68u8, 0x32u8]);
    hv.push(vec![0x68u8, 0x33u8]);
    let baz: Vec<u8> = vec![0x62u8, 0x61u8, 0x7au8];
    let quux: Vec<u8> = vec![0x71u8, 0x75u8, 0x75u8, 0x78u8];
    let mut rv: Vec<Vec<u8>> = Vec::new();
    rv.push(baz);
    rv.push(vstd::slice::slice_to_vec(h2_bytes.as_slice()));
    rv.push(quux);
    let ghost hs = seq3(seq![0x68u8, 0x31u8], seq![0x68u8, 0x32u8], seq![0x68u8, 0x33u8]);
    let ghost fs = seq3(seq![0x62u8, 0x61u8, 0x7au8], h2_bytes@, seq![0x71u8, 0x75u8, 0x75u8, 0x78u8]);
    proof {
        assert(hv[0].deep_view() =~= hv[0]@);
        assert(hv[1].deep_view() =~= hv[1]@);
        assert(hv[2].deep_view() =~= hv[2]@);
        assert(rv[0].deep_view() =~= rv[0]@);
        assert(rv[1].deep_view() =~= rv[1]@);
        assert(rv[2].deep_view() =~= rv[2]@);
        assert(hv.deep_view() =~= hs);
        assert(rv.deep_view() =~= fs);
        lemma_flatten_three(hs[0], hs[1], hs[2]);
        lemma_flatten_three(fs[0], fs[1], fs[2]);
    }
    let headers = ByteRecord::from_fields(&hv);
    let record = ByteRecord::from_fields(&rv);
    let expected_h1 = String::from_str("baz");
    let expected_h3 = String::from_str("quux");
    proof {
        reveal_strlit("baz");
        reveal_strlit("quux");
        lemma_ascii_text("baz"@, fs[0]);
        lemma_ascii_text("quux"@, fs[2]);
        assert(header_field(hs[0]) == Some(RowField::H1));
        assert(header_field(hs[1]) == Some(RowField::H2));
        assert(header_field(hs[2]) == Some(RowField::H3));
        reveal_with_fuel(fold_headers, 4);
        assert(spec_deserialize_row(fs, Some(hs)) == Ok::<(Seq<u8>, Seq<u8>, Seq<u8>), DeserializeError>((fs[0], fs[1], fs[2])));
    }
    match deserialize_row(&record, Some(&headers)) {
        Ok(row) => {
            if row.h1 == expected_h1 && bytes_eq(row.h2.as_slice(), h2_bytes.as_slice())
                && row.h3 == expected_h3 {
                PropertyResult::Pass
            } else {
                fail("row differs from the record")
            }
        },
        Err(_) => fail("the byte field was refused"),
    }
}

/// Whether two texts are the same, compared through their UTF-8 bytes.
pub fn str_eq(a: &str, b: &str) -> (r: bool)
    ensures
        r == (a@ == b@),
{
    let r = bytes_eq(a.as_bytes(), b.as_bytes());
    proof {
        if r {
            encode_utf8_decode_utf8(a@);
            encode_utf8_decode_utf8(b@);
        }
    }
    r
}

/// The names of the six properties.
pub open spec fn witness_property(p: Seq<char>) -> bool {
    ||| p == "ResetClearsOutputPosition"@
    ||| p == "TrimAllAppliesWithoutHeaders"@
    ||| p == "WriterCommentCharAutoQuote"@
    ||| p == "ByteRecordEqMatchesFields"@
    ||| p == "CommentOnlyAtRecordStart"@
    ||| p == "DeserializeByteBufAcceptsNonUtf8"@
}

/// Runs the named property on its frozen witness inputs (both of them for
/// record equality) and gives the verdict as `Ok` or the failure's
/// message; `None` when no property has that name.
pub fn replay_witnesses(property: &str) -> (r: Option<Result<(), String>>)
    ensures
        witness_property(property@) ==> r == Some(Ok::<(), String>(())),
        !witness_property(property@) ==> r is None,
{
    if str_eq(property, "ResetClearsOutputPosition") {
        let hello: Vec<u8> = vec![0x68u8, 0x65u8, 0x6cu8, 0x6cu8, 0x6fu8];
        Some(to_err(property_reset_clears_output_position(hello)))
    } else if str_eq(property, "TrimAllAppliesWithoutHeaders") {
        let mut fields: Vec<Vec<u8>> = Vec::new();
        fields.push(vec![0x61u8, 0x31u8]);
        fields.push(vec![0x62u8, 0x31u8]);
        fields.push(vec![0x63u8, 0x31u8]);
        Some(to_err(property_trim_all_applies_without_headers(fields)))
    } else if str_eq(property, "WriterCommentCharAutoQuote") {
        let tail: Vec<u8> = vec![0x20u8, 0x63u8, 0x6fu8, 0x6du8, 0x6du8, 0x65u8, 0x6eu8, 0x74u8];
        Some(to_err(property_writer_comment_char_auto_quote(tail)))
    } else if str_eq(property, "ByteRecordEqMatchesFields") {
        let boundary = to_err(property_byte_record_eq_matches_fields(
            vec![0x31u8, 0x32u8, 0x33u8, 0x34u8],
            vec![2u8],
            vec![3u8],
            0u8,
        ));
        if boundary.is_err() {
            return Some(boundary);
        }
        Some(to_err(property_byte_record_eq_matches_fields(
            vec![0x31u8, 0x32u8, 0x33u8, 0x34u8, 0x35u8, 0x36u8],
            vec![2u8, 4u8],
            vec![2u8, 4u8],
            2u8,
        )))
    } else if str_eq(property, "CommentOnlyAtRecordStart") {
        let tail: Vec<u8> = vec![0x62u8, 0x61u8, 0x72u8];
        Some(to_err(property_comment_only_at_record_start(tail)))
    } else if str_eq(property, "DeserializeByteBufAcceptsNonUtf8") {
        let bytes: Vec<u8> = vec![0x66u8, 0x6fu8, 0x6fu8, 0xffu8, 0x62u8, 0x61u8, 0x72u8];
        Some(to_err(property_deserialize_byte_buf_accepts_non_utf8(bytes)))
    } else {
        None
    }
}

/// The first byte of joined field texts is the first byte of the first
/// text, when that text is not empty.
pub proof fn lemma_join_first(es: Seq<Seq<u8>>, d: u8)
    requires
        es.len() >= 1,
        es[0].len() >= 1,
    ensures
        join_fields(es, d)[0] == es[0][0],
{
    if es.len() > 1 {
        assert((es[0] + seq![d] + join_fields(es.drop_first(), d))[0] == es[0][0]);
    }
}

} // verus!
