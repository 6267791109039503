//! Turning a record into a `Row`, by header names or by position.
//!
//! Text fields must be valid UTF-8; the byte field is taken as it is.
use vstd::prelude::*;

use crate::byte_record::ByteRecord;
use vstd::utf8::{decode_utf8, valid_utf8};

verus! {

/// The fields of a `Row`.
#[derive(Clone, Copy, Debug, PartialEq, Eq, Structural)]
pub enum RowField {
    /// The text field named `h1`.
    H1,
    /// The byte field named `h2`.
    H2,
    /// The text field named `h3`.
    H3,
}

/// Why a record could not be turned into a `Row`.
#[derive(Clone, Copy, Debug, PartialEq, Eq, Structural)]
pub enum DeserializeError {
    /// A value was asked for past the record's last field.
    UnexpectedEndOfRow,
    /// The field at this index had to be text but is not valid UTF-8.
    InvalidUtf8 { field: u64 },
    /// Read by position, the record had only this many fields.
    InvalidLength { len: u64 },
    /// No header named this field.
    MissingField(RowField),
    /// More than one header named this field.
    DuplicateField(RowField),
}

/// A row of two text fields around one field of raw bytes.
pub struct Row {
    pub h1: String,
    pub h2: Vec<u8>,
    pub h3: String,
}

/// The field that a header names: `h1`, `h2` or `h3`; any other header
/// names none, and its value is skipped.
pub open spec fn header_field(h: Seq<u8>) -> Option<RowField> {
    if h == seq![0x68u8, 0x31u8] {
        Some(RowField::H1)
    } else if h == seq![0x68u8, 0x32u8] {
        Some(RowField::H2)
    } else if h == seq![0x68u8, 0x33u8] {
        Some(RowField::H3)
    } else {
        None
    }
}

/// Whether a field holds text; `h2` holds raw bytes.
pub open spec fn is_text(k: RowField) -> bool {
    k != RowField::H2
}

/// The raw values found so far for the three fields.
pub ghost struct Slots {
    pub h1: Option<Seq<u8>>,
    pub h2: Option<Seq<u8>>,
    pub h3: Option<Seq<u8>>,
}

/// No value found yet.
pub open spec fn no_slots() -> Slots {
    Slots { h1: None, h2: None, h3: None }
}

/// The value found for `k`, if any.
pub open spec fn slot(s: Slots, k: RowField) -> Option<Seq<u8>> {
    match k {
        RowField::H1 => s.h1,
        RowField::H2 => s.h2,
        RowField::H3 => s.h3,
    }
}

/// `s` with `v` as the value of `k`.
pub open spec fn with_slot(s: Slots, k: RowField, v: Seq<u8>) -> Slots {
    match k {
        RowField::H1 => Slots { h1: Some(v), ..s },
        RowField::H2 => Slots { h2: Some(v), ..s },
        RowField::H3 => Slots { h3: Some(v), ..s },
    }
}

/// Handling header `h` at index `i`: a header naming a field already found
/// is refused; otherwise the value is the record's field at the same index,
/// which must exist, and must be UTF-8 for a text field. The value of a
/// header that names no field is skipped but must exist all the same.
pub open spec fn header_step(s: Slots, h: Seq<u8>, fs: Seq<Seq<u8>>, i: int) -> Result<
    Slots,
    DeserializeError,
> {
    match header_field(h) {
        None => if i < fs.len() {
            Ok(s)
        } else {
            Err(DeserializeError::UnexpectedEndOfRow)
        },
        Some(k) => if slot(s, k) is Some {
            Err(DeserializeError::DuplicateField(k))
        } else if i >= fs.len() {
            Err(DeserializeError::UnexpectedEndOfRow)
        } else if is_text(k) && !valid_utf8(fs[i]) {
            Err(DeserializeError::InvalidUtf8 { field: i as u64 })
        } else {
            Ok(with_slot(s, k, fs[i]))
        },
    }
}

/// Handling the first `n` headers in order; the first error stops.
pub open spec fn fold_headers(hs: Seq<Seq<u8>>, fs: Seq<Seq<u8>>, n: nat) -> Result<
    Slots,
    DeserializeError,
>
    decreases n,
{
    if n == 0 {
        Ok(no_slots())
    } else {
        match fold_headers(hs, fs, (n - 1) as nat) {
            Err(e) => Err(e),
            Ok(s) => header_step(s, hs[n - 1], fs, n - 1),
        }
    }
}

/// Once handling the headers has failed, handling more of them fails with
/// the same error.
pub proof fn lemma_fold_error_stays(hs: Seq<Seq<u8>>, fs: Seq<Seq<u8>>, n: nat, m: nat)
    requires
        n <= m,
        fold_headers(hs, fs, n) is Err,
    ensures
        fold_headers(hs, fs, m) == fold_headers(hs, fs, n),
    decreases m - n,
{
    if n < m {
        lemma_fold_error_stays(hs, fs, n, (m - 1) as nat);
    }
}

/// Handling the first `n` headers goes the same way on `fs` and on `fs` with
/// the value at `i`, whose header names `h2`, replaced by `x`: the same
/// error, or the same text values, with `h2` holding the value at `i` once
/// that index has been handled.
pub open spec fn folds_agree(hs: Seq<Seq<u8>>, fs: Seq<Seq<u8>>, i: int, x: Seq<u8>, n: nat) -> bool {
    match (fold_headers(hs, fs, n), fold_headers(hs, fs.update(i, x), n)) {
        (Err(e), Err(f)) => e == f,
        (Ok(s), Ok(t)) => {
            &&& s.h1 == t.h1
            &&& s.h3 == t.h3
            &&& if n > i {
                s.h2 == Some(fs[i]) && t.h2 == Some(x)
            } else {
                s.h2 == t.h2
            }
        },
        _ => false,
    }
}

proof fn lemma_folds_agree(hs: Seq<Seq<u8>>, fs: Seq<Seq<u8>>, i: int, x: Seq<u8>, n: nat)
    requires
        0 <= i < fs.len(),
        0 <= i < hs.len(),
        n <= hs.len(),
        header_field(hs[i]) == Some(RowField::H2),
    ensures
        folds_agree(hs, fs, i, x, n),
    decreases n,
{
    let gs = fs.update(i, x);
    if n > 0 {
        let k = n - 1;
        lemma_folds_agree(hs, fs, i, x, k as nat);
        if k != i {
            assert(k < fs.len() ==> gs[k] == fs[k]);
        }
    }
}

/// The value under the header `h2` is taken as raw bytes and never checked:
/// replacing it with any bytes gives the same outcome, the same error or a
/// row with the same text, holding the new bytes.
pub proof fn lemma_byte_field_any_bytes(fs: Seq<Seq<u8>>, hs: Seq<Seq<u8>>, i: int, x: Seq<u8>)
    requires
        0 <= i < fs.len(),
        0 <= i < hs.len(),
        header_field(hs[i]) == Some(RowField::H2),
    ensures
        same_but_bytes(spec_deserialize_row(fs, Some(hs)), spec_deserialize_row(fs.update(i, x), Some(hs)), fs[i], x),
{
    lemma_folds_agree(hs, fs, i, x, hs.len());
}

/// Two outcomes of reading a row that differ at most in the bytes of `h2`,
/// which are `a` in the first and `b` in the second.
pub open spec fn same_but_bytes(
    r: Result<(Seq<u8>, Seq<u8>, Seq<u8>), DeserializeError>,
    q: Result<(Seq<u8>, Seq<u8>, Seq<u8>), DeserializeError>,
    a: Seq<u8>,
    b: Seq<u8>,
) -> bool {
    match (r, q) {
        (Err(e), Err(f)) => e == f,
        (Ok(t), Ok(u)) => t.0 == u.0 && t.1 == a && u.1 == b && t.2 == u.2,
        _ => false,
    }
}

/// Header `i` is the only one, among the first `n`, that names `k`.
pub open spec fn named_once_upto(hs: Seq<Seq<u8>>, n: int, i: int, k: RowField) -> bool {
    &&& 0 <= i < n
    &&& header_field(hs[i]) == Some(k)
    &&& forall|j: int| 0 <= j < n && j != i ==> header_field(#[trigger] hs[j]) != Some(k)
}

/// No header among the first `n` names `k`.
pub open spec fn unnamed_upto(hs: Seq<Seq<u8>>, n: int, k: RowField) -> bool {
    forall|j: int| 0 <= j < n ==> header_field(#[trigger] hs[j]) != Some(k)
}

/// What a slot holds after the first `n` headers: nothing when no header
/// names its field; otherwise the field under the one header that does,
/// present in the record and UTF-8 when the field is text.
pub open spec fn slot_found(hs: Seq<Seq<u8>>, fs: Seq<Seq<u8>>, n: int, k: RowField, v: Option<Seq<u8>>) -> bool {
    match v {
        None => unnamed_upto(hs, n, k),
        Some(b) => exists|i: int|
            #![trigger hs[i]]
            named_once_upto(hs, n, i, k) && i < fs.len() && fs[i] == b && (is_text(k) ==> valid_utf8(b)),
    }
}

proof fn lemma_fold_slots(hs: Seq<Seq<u8>>, fs: Seq<Seq<u8>>, n: nat)
    requires
        n <= hs.len(),
    ensures
        fold_headers(hs, fs, n) matches Ok(s) ==> {
            &&& slot_found(hs, fs, n as int, RowField::H1, s.h1)
            &&& slot_found(hs, fs, n as int, RowField::H2, s.h2)
            &&& slot_found(hs, fs, n as int, RowField::H3, s.h3)
        },
    decreases n,
{
    if n > 0 {
        let m = (n - 1) as nat;
        lemma_fold_slots(hs, fs, m);
        if let Ok(s) = fold_headers(hs, fs, m) {
            if let Ok(t) = fold_headers(hs, fs, n) {
                let h = header_field(hs[m as int]);
                assert forall|k: RowField| #![trigger slot(t, k)] slot_found(hs, fs, n as int, k, slot(t, k)) by {
                    assert(slot_found(hs, fs, m as int, k, slot(s, k))) by {
                        if k == RowField::H1 {} else if k == RowField::H2 {} else {}
                    }
                    if h == Some(k) {
                        assert(slot(s, k) is None);
                        assert(slot(t, k) == Some(fs[m as int]));
                        assert(named_once_upto(hs, n as int, m as int, k));
                    } else {
                        assert(slot(t, k) == slot(s, k));
                        match slot(s, k) {
                            None => {},
                            Some(b) => {
                                let i = choose|i: int|
                                    #![trigger hs[i]]
                                    named_once_upto(hs, m as int, i, k) && i < fs.len() && fs[i] == b && (is_text(k) ==> valid_utf8(b));
                                assert(named_once_upto(hs, n as int, i, k));
                            },
                        }
                    }
                }
                assert(slot_found(hs, fs, n as int, RowField::H1, slot(t, RowField::H1)));
                assert(slot_found(hs, fs, n as int, RowField::H2, slot(t, RowField::H2)));
                assert(slot_found(hs, fs, n as int, RowField::H3, slot(t, RowField::H3)));
            }
        }
    }
}

/// A row read by headers holds, for each field, the record's value under
/// the one header that names that field; that value exists, and is UTF-8
/// for the text fields `h1` and `h3`. So a text field that is not UTF-8, or
/// a field that no header or two headers name, never yields a row.
pub proof fn lemma_row_by_headers(fs: Seq<Seq<u8>>, hs: Seq<Seq<u8>>)
    ensures
        spec_deserialize_row(fs, Some(hs)) matches Ok(t) ==> exists|a: int, b: int, c: int|
            #![trigger hs[a], hs[b], hs[c]]
            named_once_upto(hs, hs.len() as int, a, RowField::H1)
            && named_once_upto(hs, hs.len() as int, b, RowField::H2)
            && named_once_upto(hs, hs.len() as int, c, RowField::H3)
            && a < fs.len() && b < fs.len() && c < fs.len()
            && t == (fs[a], fs[b], fs[c])
            && valid_utf8(fs[a]) && valid_utf8(fs[c]),
{
    lemma_fold_slots(hs, fs, hs.len());
    if let Ok(t) = spec_deserialize_row(fs, Some(hs)) {
        let s = fold_headers(hs, fs, hs.len())->Ok_0;
        assert(slot(s, RowField::H1) == s.h1);
        assert(slot(s, RowField::H2) == s.h2);
        assert(slot(s, RowField::H3) == s.h3);
        let n = hs.len() as int;
        let a = choose|i: int| #![trigger hs[i]] named_once_upto(hs, n, i, RowField::H1) && i < fs.len() && fs[i] == s.h1.unwrap() && valid_utf8(s.h1.unwrap());
        let b = choose|i: int| #![trigger hs[i]] named_once_upto(hs, n, i, RowField::H2) && i < fs.len() && fs[i] == s.h2.unwrap();
        let c = choose|i: int| #![trigger hs[i]] named_once_upto(hs, n, i, RowField::H3) && i < fs.len() && fs[i] == s.h3.unwrap() && valid_utf8(s.h3.unwrap());
        assert(t == (fs[a], fs[b], fs[c]));
    }
}

/// Every field named exactly once among all headers.
pub open spec fn each_named_once(hs: Seq<Seq<u8>>, fs: Seq<Seq<u8>>) -> bool {
    exists|a: int, b: int, c: int|
        #![trigger hs[a], hs[b], hs[c]]
        named_once_upto(hs, hs.len() as int, a, RowField::H1)
        && named_once_upto(hs, hs.len() as int, b, RowField::H2)
        && named_once_upto(hs, hs.len() as int, c, RowField::H3)
        && valid_utf8(fs[a]) && valid_utf8(fs[c])
}

proof fn lemma_fold_ok(hs: Seq<Seq<u8>>, fs: Seq<Seq<u8>>, n: nat)
    requires
        n <= hs.len() <= fs.len(),
        each_named_once(hs, fs),
    ensures
        fold_headers(hs, fs, n) is Ok,
    decreases n,
{
    if n > 0 {
        let m = (n - 1) as nat;
        lemma_fold_ok(hs, fs, m);
        lemma_fold_slots(hs, fs, m);
        let s = fold_headers(hs, fs, m)->Ok_0;
        let (a, b, c) = choose|a: int, b: int, c: int|
            #![trigger hs[a], hs[b], hs[c]]
            named_once_upto(hs, hs.len() as int, a, RowField::H1)
            && named_once_upto(hs, hs.len() as int, b, RowField::H2)
            && named_once_upto(hs, hs.len() as int, c, RowField::H3)
            && valid_utf8(fs[a]) && valid_utf8(fs[c]);
        match header_field(hs[m as int]) {
            None => {},
            Some(k) => {
                assert(slot(s, RowField::H1) == s.h1);
                assert(slot(s, RowField::H2) == s.h2);
                assert(slot(s, RowField::H3) == s.h3);
                if let Some(v) = slot(s, k) {
                    assert(slot_found(hs, fs, m as int, k, slot(s, k)));
                    let i = choose|i: int|
                        #![trigger hs[i]]
                        named_once_upto(hs, m as int, i, k) && i < fs.len() && fs[i] == v && (is_text(k) ==> valid_utf8(v));
                    if k == RowField::H1 {
                        assert(hs[a] == hs[a]);
                        assert(i == a && m == a);
                    } else if k == RowField::H2 {
                        assert(hs[b] == hs[b]);
                        assert(i == b && m == b);
                    } else {
                        assert(hs[c] == hs[c]);
                        assert(i == c && m == c);
                    }
                }
                if k == RowField::H1 {
                    assert(hs[a] == hs[a]);
                    assert(m == a);
                } else if k == RowField::H3 {
                    assert(hs[c] == hs[c]);
                    assert(m == c);
                }
            },
        }
    }
}

/// A row is owed when each field is named by exactly one header, the
/// record has a value under every header, and the values under `h1` and
/// `h3` are UTF-8.
pub proof fn lemma_row_by_headers_owed(fs: Seq<Seq<u8>>, hs: Seq<Seq<u8>>)
    requires
        hs.len() <= fs.len(),
        each_named_once(hs, fs),
    ensures
        spec_deserialize_row(fs, Some(hs)) is Ok,
{
    lemma_fold_ok(hs, fs, hs.len());
    lemma_fold_slots(hs, fs, hs.len());
    let s = fold_headers(hs, fs, hs.len())->Ok_0;
    let (a, b, c) = choose|a: int, b: int, c: int|
        #![trigger hs[a], hs[b], hs[c]]
        named_once_upto(hs, hs.len() as int, a, RowField::H1)
        && named_once_upto(hs, hs.len() as int, b, RowField::H2)
        && named_once_upto(hs, hs.len() as int, c, RowField::H3)
        && valid_utf8(fs[a]) && valid_utf8(fs[c]);
    assert(slot(s, RowField::H1) == s.h1);
    assert(slot(s, RowField::H2) == s.h2);
    assert(slot(s, RowField::H3) == s.h3);
    assert(hs[a] == hs[a] && hs[b] == hs[b] && hs[c] == hs[c]);
}

/// The three values, once every header has been handled; the first field
/// without a value, in the order `h1`, `h2`, `h3`, is reported missing.
pub open spec fn complete(s: Slots) -> Result<(Seq<u8>, Seq<u8>, Seq<u8>), DeserializeError> {
    if s.h1 is None {
        Err(DeserializeError::MissingField(RowField::H1))
    } else if s.h2 is None {
        Err(DeserializeError::MissingField(RowField::H2))
    } else if s.h3 is None {
        Err(DeserializeError::MissingField(RowField::H3))
    } else {
        Ok((s.h1.unwrap(), s.h2.unwrap(), s.h3.unwrap()))
    }
}

/// Without headers the first three fields are taken in order, each checked
/// as it is taken; further fields are ignored.
pub open spec fn by_position(fs: Seq<Seq<u8>>) -> Result<(Seq<u8>, Seq<u8>, Seq<u8>), DeserializeError> {
    if fs.len() < 1 {
        Err(DeserializeError::InvalidLength { len: 0 })
    } else if !valid_utf8(fs[0]) {
        Err(DeserializeError::InvalidUtf8 { field: 0 })
    } else if fs.len() < 2 {
        Err(DeserializeError::InvalidLength { len: 1 })
    } else if fs.len() < 3 {
        Err(DeserializeError::InvalidLength { len: 2 })
    } else if !valid_utf8(fs[2]) {
        Err(DeserializeError::InvalidUtf8 { field: 2 })
    } else {
        Ok((fs[0], fs[1], fs[2]))
    }
}

/// The raw values of a row read from fields `fs`, by the header names `hs`
/// when there are headers and by position otherwise.
pub open spec fn spec_deserialize_row(fs: Seq<Seq<u8>>, hs: Option<Seq<Seq<u8>>>) -> Result<
    (Seq<u8>, Seq<u8>, Seq<u8>),
    DeserializeError,
> {
    match hs {
        None => by_position(fs),
        Some(h) => match fold_headers(h, fs, h.len()) {
            Err(e) => Err(e),
            Ok(s) => complete(s),
        },
    }
}

/// The fields of an optional header record.
pub open spec fn headers_view(h: Option<&ByteRecord>) -> Option<Seq<Seq<u8>>> {
    match h {
        None => None,
        Some(r) => Some(r@),
    }
}

/// `row` holds the text decoded from `t.0` and `t.2` and the bytes `t.1`.
pub open spec fn row_holds(row: Row, t: (Seq<u8>, Seq<u8>, Seq<u8>)) -> bool {
    &&& row.h1@ == decode_utf8(t.0)
    &&& row.h2@ == t.1
    &&& row.h3@ == decode_utf8(t.2)
}

/// The outcome `r` is the one that `expected` describes: the same error, or
/// a row holding the described values.
pub open spec fn outcome_holds(
    r: Result<Row, DeserializeError>,
    expected: Result<(Seq<u8>, Seq<u8>, Seq<u8>), DeserializeError>,
) -> bool {
    match (r, expected) {
        (Ok(row), Ok(t)) => row_holds(row, t),
        (Err(e), Err(f)) => e == f,
        _ => false,
    }
}

/// A text slot and the decoded text held for it agree.
pub open spec fn text_slot_holds(s: Option<Seq<u8>>, v: Option<String>) -> bool {
    match (s, v) {
        (None, None) => true,
        (Some(b), Some(t)) => valid_utf8(b) && t@ == decode_utf8(b),
        _ => false,
    }
}

/// A byte slot and the bytes held for it agree.
pub open spec fn byte_slot_holds(s: Option<Seq<u8>>, v: Option<Vec<u8>>) -> bool {
    match (s, v) {
        (None, None) => true,
        (Some(b), Some(t)) => t@ == b,
        _ => false,
    }
}

/// Text from bytes, when they are valid UTF-8.
///
/// Calls `String::from_utf8`, which succeeds exactly on valid UTF-8 and
/// keeps the bytes as they are, so that the text is their decoding.
#[verifier::external_body]
fn string_from_utf8(bytes: Vec<u8>) -> (r: Option<String>)
    ensures
        r is Some <==> valid_utf8(bytes@),
        r matches Some(s) ==> s@ == decode_utf8(bytes@),
{
    match String::from_utf8(bytes) {
        Ok(s) => Some(s),
        Err(_) => None,
    }
}

/// The field a header names.
fn header_field_of(h: &[u8]) -> (r: Option<RowField>)
    ensures
        r == header_field(h@),
{
    if h.len() == 2 && h[0] == 0x68u8 {
        if h[1] == 0x31u8 {
            assert(h@ =~= seq![0x68u8, 0x31u8]);
            return Some(RowField::H1);
        } else if h[1] == 0x32u8 {
            assert(h@ =~= seq![0x68u8, 0x32u8]);
            return Some(RowField::H2);
        } else if h[1] == 0x33u8 {
            assert(h@ =~= seq![0x68u8, 0x33u8]);
            return Some(RowField::H3);
        }
    }
    assert(h@ != seq![0x68u8, 0x31u8] && h@ != seq![0x68u8, 0x32u8] && h@ != seq![0x68u8, 0x33u8]) by {
        if h@.len() == 2 && h@[0] == 0x68u8 {
            assert(h@ =~= seq![0x68u8, h@[1]]);
        }
    }
    None
}

/// The text of field `i`, which must be valid UTF-8.
fn text_field(record: &ByteRecord, i: usize) -> (r: Result<String, DeserializeError>)
    requires
        i < record@.len(),
    ensures
        valid_utf8(record@[i as int]) ==> (r matches Ok(s) && s@ == decode_utf8(record@[i as int])),
        !valid_utf8(record@[i as int]) ==> r == Err::<String, DeserializeError>(
            DeserializeError::InvalidUtf8 { field: i as u64 },
        ),
{
    match record.get(i) {
        Some(f) => match string_from_utf8(vstd::slice::slice_to_vec(f)) {
            Some(s) => Ok(s),
            None => Err(DeserializeError::InvalidUtf8 { field: i as u64 }),
        },
        None => {
            assert(false);
            Err(DeserializeError::UnexpectedEndOfRow)
        },
    }
}

/// The bytes of field `i`.
fn byte_field(record: &ByteRecord, i: usize) -> (r: Vec<u8>)
    requires
        i < record@.len(),
    ensures
        r@ == record@[i as int],
{
    match record.get(i) {
        Some(f) => vstd::slice::slice_to_vec(f),
        None => {
            assert(false);
            Vec::new()
        },
    }
}

/// Reads `record` by position.
fn deserialize_by_position(record: &ByteRecord) -> (r: Result<Row, DeserializeError>)
    ensures
        outcome_holds(r, by_position(record@)),
{
    let n = record.len();
    if n < 1 {
        return Err(DeserializeError::InvalidLength { len: 0 });
    }
    let h1 = match text_field(record, 0) {
        Ok(s) => s,
        Err(e) => {
            return Err(e);
        },
    };
    if n < 2 {
        return Err(DeserializeError::InvalidLength { len: 1 });
    }
    let h2 = byte_field(record, 1);
    if n < 3 {
        return Err(DeserializeError::InvalidLength { len: 2 });
    }
    let h3 = match text_field(record, 2) {
        Ok(s) => s,
        Err(e) => {
            return Err(e);
        },
    };
    Ok(Row { h1, h2, h3 })
}

/// Reads `record` by the names in `headers`.
fn deserialize_by_headers(record: &ByteRecord, headers: &ByteRecord) -> (r: Result<Row, DeserializeError>)
    ensures
        outcome_holds(r, spec_deserialize_row(record@, Some(headers@))),
{
    let ghost hs = headers@;
    let ghost fs = record@;
    let nh = headers.len();
    let nf = record.len();
    let mut h1: Option<String> = None;
    let mut h2: Option<Vec<u8>> = None;
    let mut h3: Option<String> = None;
    let mut i: usize = 0;
    while i < nh
        invariant
            nh == hs.len(),
            nf == fs.len(),
            hs == headers@,
            fs == record@,
            i <= nh,
            fold_headers(hs, fs, i as nat) is Ok,
            text_slot_holds(fold_headers(hs, fs, i as nat)->Ok_0.h1, h1),
            byte_slot_holds(fold_headers(hs, fs, i as nat)->Ok_0.h2, h2),
            text_slot_holds(fold_headers(hs, fs, i as nat)->Ok_0.h3, h3),
        decreases nh - i,
    {
        let ghost s = fold_headers(hs, fs, i as nat)->Ok_0;
        assert(fold_headers(hs, fs, (i + 1) as nat) == header_step(s, hs[i as int], fs, i as int));
        proof {
            if header_step(s, hs[i as int], fs, i as int) is Err {
                lemma_fold_error_stays(hs, fs, (i + 1) as nat, hs.len());
            }
        }
        let key = match headers.get(i) {
            Some(h) => header_field_of(h),
            None => {
                assert(false);
                None
            },
        };
        match key {
            None => {
                if i >= nf {
                    return Err(DeserializeError::UnexpectedEndOfRow);
                }
            },
            Some(RowField::H1) => {
                if h1.is_some() {
                    return Err(DeserializeError::DuplicateField(RowField::H1));
                }
                if i >= nf {
                    return Err(DeserializeError::UnexpectedEndOfRow);
                }
                match text_field(record, i) {
                    Ok(t) => {
                        h1 = Some(t);
                    },
                    Err(e) => {
                        return Err(e);
                    },
                }
            },
            Some(RowField::H2) => {
                if h2.is_some() {
                    return Err(DeserializeError::DuplicateField(RowField::H2));
                }
                if i >= nf {
                    return Err(DeserializeError::UnexpectedEndOfRow);
                }
                h2 = Some(byte_field(record, i));
            },
            Some(RowField::H3) => {
                if h3.is_some() {
                    return Err(DeserializeError::DuplicateField(RowField::H3));
                }
                if i >= nf {
                    return Err(DeserializeError::UnexpectedEndOfRow);
                }
                match text_field(record, i) {
                    Ok(t) => {
                        h3 = Some(t);
                    },
                    Err(e) => {
                        return Err(e);
                    },
                }
            },
        }
        i = i + 1;
    }
    assert(i == hs.len());
    match h1 {
        None => Err(DeserializeError::MissingField(RowField::H1)),
        Some(a) => match h2 {
            None => Err(DeserializeError::MissingField(RowField::H2)),
            Some(b) => match h3 {
                None => Err(DeserializeError::MissingField(RowField::H3)),
                Some(c) => Ok(Row { h1: a, h2: b, h3: c }),
            },
        },
    }
}

/// Reads `record` into a `Row`: by the names in `headers` when there are
/// headers, by position otherwise. Text fields must be valid UTF-8; the
/// byte field `h2` is taken as it is, whatever its bytes.
pub fn deserialize_row(record: &ByteRecord, headers: Option<&ByteRecord>) -> (r: Result<
    Row,
    DeserializeError,
>)
    ensures
        outcome_holds(r, spec_deserialize_row(record@, headers_view(headers))),
{
    match headers {
        None => deserialize_by_position(record),
        Some(h) => deserialize_by_headers(record, h),
    }
}

} // verus!
