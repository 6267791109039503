use vstd::prelude::*;

verus! {

/// Offset at which field `i` starts, given the end offsets of all fields.
pub open spec fn field_start(ends: Seq<usize>, i: int) -> int {
    if i <= 0 {
        0
    } else {
        ends[i - 1] as int
    }
}

/// The fields described by a flat byte buffer and the end offset of each field.
pub open spec fn fields_of(bytes: Seq<u8>, ends: Seq<usize>) -> Seq<Seq<u8>> {
    Seq::new(ends.len(), |i: int| bytes.subrange(field_start(ends, i), ends[i] as int))
}

/// End offsets that are nondecreasing and whose last entry is the buffer's length.
pub open spec fn ends_wf(bytes: Seq<u8>, ends: Seq<usize>) -> bool {
    &&& forall|i: int, j: int| 0 <= i <= j < ends.len() ==> ends[i] <= ends[j]
    &&& ends.len() == 0 ==> bytes.len() == 0
    &&& ends.len() > 0 ==> ends.last() == bytes.len()
}

/// ASCII whitespace as `u8::is_ascii_whitespace` defines it.
pub open spec fn is_ascii_ws(b: u8) -> bool {
    b == 0x20 || b == 0x09 || b == 0x0a || b == 0x0c || b == 0x0d
}

/// Drops leading ASCII whitespace.
pub open spec fn trim_start(s: Seq<u8>) -> Seq<u8>
    decreases s.len(),
{
    if s.len() > 0 && is_ascii_ws(s[0]) {
        trim_start(s.drop_first())
    } else {
        s
    }
}

/// Drops trailing ASCII whitespace.
pub open spec fn trim_end(s: Seq<u8>) -> Seq<u8>
    decreases s.len(),
{
    if s.len() > 0 && is_ascii_ws(s.last()) {
        trim_end(s.drop_last())
    } else {
        s
    }
}

/// Drops leading and trailing ASCII whitespace.
pub open spec fn trim_ascii(s: Seq<u8>) -> Seq<u8> {
    trim_end(trim_start(s))
}

/// Every field of a record with its surrounding ASCII whitespace removed.
pub open spec fn trim_fields(r: Seq<Seq<u8>>) -> Seq<Seq<u8>> {
    r.map_values(|f: Seq<u8>| trim_ascii(f))
}

/// A single CSV record stored as raw bytes.
///
/// All fields live in one contiguous buffer; `ends[i]` is the offset just past
/// field `i`.
pub struct ByteRecord {
    fields: Vec<u8>,
    ends: Vec<usize>,
}

impl View for ByteRecord {
    type V = Seq<Seq<u8>>;

    closed spec fn view(&self) -> Seq<Seq<u8>> {
        fields_of(self.fields@, self.ends@)
    }
}

/// Removing the whitespace before the first and after the last non-whitespace byte.
pub proof fn lemma_trim_ascii_window(s: Seq<u8>, lo: int, hi: int)
    requires
        0 <= lo <= hi <= s.len(),
        forall|k: int| 0 <= k < lo ==> is_ascii_ws(#[trigger] s[k]),
        forall|k: int| hi <= k < s.len() ==> is_ascii_ws(#[trigger] s[k]),
        lo < hi ==> !is_ascii_ws(s[lo]) && !is_ascii_ws(s[hi - 1]),
    ensures
        trim_ascii(s) == (if lo < hi { s.subrange(lo, hi) } else { Seq::<u8>::empty() }),
{
    lemma_trim_start_eq(s, lo, hi);
    let a = trim_start(s);
    if lo < hi {
        assert(a =~= s.skip(lo));
        lemma_trim_end_eq(a, hi - lo);
        assert(a.take(hi - lo) =~= s.subrange(lo, hi));
    } else {
        assert(a.len() == 0);
        assert(a =~= Seq::<u8>::empty());
    }
}

proof fn lemma_trim_start_eq(s: Seq<u8>, lo: int, hi: int)
    requires
        0 <= lo <= hi <= s.len(),
        forall|k: int| 0 <= k < lo ==> is_ascii_ws(#[trigger] s[k]),
        forall|k: int| hi <= k < s.len() ==> is_ascii_ws(#[trigger] s[k]),
        lo < hi ==> !is_ascii_ws(s[lo]),
    ensures
        lo < hi ==> trim_start(s) == s.skip(lo),
        lo == hi ==> trim_start(s).len() == 0,
    decreases lo,
{
    if lo == hi {
        lemma_trim_start_eq_all_ws(s);
    } else if lo > 0 {
        assert(is_ascii_ws(s[0]));
        let t = s.drop_first();
        assert forall|k: int| 0 <= k < lo - 1 implies is_ascii_ws(#[trigger] t[k]) by {
            assert(t[k] == s[k + 1]);
        }
        assert forall|k: int| hi - 1 <= k < t.len() implies is_ascii_ws(#[trigger] t[k]) by {
            assert(t[k] == s[k + 1]);
        }
        lemma_trim_start_eq(t, lo - 1, hi - 1);
        assert(t.skip(lo - 1) =~= s.skip(lo));
    } else {
        assert(s.skip(0) =~= s);
    }
}

proof fn lemma_trim_start_eq_all_ws(s: Seq<u8>)
    requires
        forall|k: int| 0 <= k < s.len() ==> is_ascii_ws(#[trigger] s[k]),
    ensures
        trim_start(s).len() == 0,
    decreases s.len(),
{
    if s.len() > 0 {
        let t = s.drop_first();
        assert forall|k: int| 0 <= k < t.len() implies is_ascii_ws(#[trigger] t[k]) by {
            assert(t[k] == s[k + 1]);
        }
        lemma_trim_start_eq_all_ws(t);
    }
}

proof fn lemma_trim_end_eq(s: Seq<u8>, hi: int)
    requires
        0 <= hi <= s.len(),
        forall|k: int| hi <= k < s.len() ==> is_ascii_ws(#[trigger] s[k]),
        hi > 0 ==> !is_ascii_ws(s[hi - 1]),
    ensures
        trim_end(s) == s.take(hi),
    decreases s.len() - hi,
{
    if s.len() > hi {
        let t = s.drop_last();
        assert(is_ascii_ws(s.last()));
        assert forall|k: int| hi <= k < t.len() implies is_ascii_ws(#[trigger] t[k]) by {
            assert(t[k] == s[k]);
        }
        lemma_trim_end_eq(t, hi);
        assert(t.take(hi) =~= s.take(hi));
    } else {
        assert(s.take(hi) =~= s);
        if hi > 0 {
            assert(s.last() == s[hi - 1]);
        }
    }
}

/// Under valid end offsets, the record's fields concatenate to the buffer.
pub proof fn lemma_fields_flatten(bytes: Seq<u8>, ends: Seq<usize>)
    requires
        ends_wf(bytes, ends),
    ensures
        fields_of(bytes, ends).flatten() == bytes,
    decreases ends.len(),
{
    if ends.len() == 0 {
        assert(fields_of(bytes, ends) =~= Seq::<Seq<u8>>::empty());
        assert(bytes =~= Seq::<u8>::empty());
    } else {
        let n = ends.len() - 1;
        let e2 = ends.drop_last();
        let p = field_start(ends, n);
        let b2 = bytes.take(p);
        if n > 0 {
            assert(ends[n - 1] <= ends[n]);
        }
        assert(ends_wf(b2, e2)) by {
            if e2.len() > 0 {
                assert(e2.last() == ends[n - 1]);
            }
        }
        lemma_fields_flatten(b2, e2);
        assert forall|i: int| 0 <= i < n implies #[trigger] fields_of(bytes, ends)[i]
            == fields_of(b2, e2)[i] by {
            if i > 0 {
                assert(ends[i - 1] <= ends[i]);
            }
            assert(ends[i] <= ends[n - 1]);
            assert(bytes.subrange(field_start(ends, i), ends[i] as int) =~= b2.subrange(
                field_start(e2, i),
                e2[i] as int,
            ));
        }
        assert(fields_of(bytes, ends) =~= fields_of(b2, e2).push(bytes.subrange(p, bytes.len() as int)));
        fields_of(b2, e2).lemma_flatten_push(bytes.subrange(p, bytes.len() as int));
        assert(b2 + bytes.subrange(p, bytes.len() as int) =~= bytes);
    }
}

/// Appending a field to a valid buffer.
proof fn lemma_fields_push(bytes: Seq<u8>, ends: Seq<usize>, f: Seq<u8>)
    requires
        ends_wf(bytes, ends),
        bytes.len() + f.len() <= usize::MAX,
    ensures
        ends_wf(bytes + f, ends.push((bytes.len() + f.len()) as usize)),
        fields_of(bytes + f, ends.push((bytes.len() + f.len()) as usize)) == fields_of(
            bytes,
            ends,
        ).push(f),
{
    let nb = bytes + f;
    let ne = ends.push((bytes.len() + f.len()) as usize);
    assert forall|i: int, j: int| 0 <= i <= j < ne.len() implies ne[i] <= ne[j] by {
        if j == ne.len() - 1 && i < j {
            assert(ends[i] <= ends.last());
        }
    }
    assert forall|i: int| 0 <= i < ends.len() implies #[trigger] fields_of(nb, ne)[i] == fields_of(
        bytes,
        ends,
    )[i] by {
        if i > 0 {
            assert(ends[i - 1] <= ends[i]);
        }
        assert(ends[i] <= ends.last());
        assert(nb.subrange(field_start(ne, i), ne[i] as int) =~= bytes.subrange(
            field_start(ends, i),
            ends[i] as int,
        ));
    }
    assert(nb.subrange(bytes.len() as int, nb.len() as int) =~= f);
    assert(fields_of(nb, ne) =~= fields_of(bytes, ends).push(f));
}

impl ByteRecord {
    #[verifier::type_invariant]
    spec fn inv(&self) -> bool {
        ends_wf(self.fields@, self.ends@)
    }

    /// Total number of bytes across all fields.
    pub open spec fn byte_len(&self) -> nat {
        self@.flatten().len()
    }

    /// Creates an empty record.
    pub fn new() -> (r: ByteRecord)
        ensures
            r@ == Seq::<Seq<u8>>::empty(),
    {
        let r = ByteRecord { fields: Vec::new(), ends: Vec::new() };
        assert(r@ =~= Seq::<Seq<u8>>::empty());
        r
    }

    /// Builds a record from a flat buffer and the end offset of each field.
    pub(crate) fn from_parts(fields: Vec<u8>, ends: Vec<usize>) -> (r: ByteRecord)
        requires
            ends_wf(fields@, ends@),
        ensures
            r@ == fields_of(fields@, ends@),
    {
        ByteRecord { fields, ends }
    }

    /// Number of fields.
    pub fn len(&self) -> (n: usize)
        ensures
            n == self@.len(),
    {
        self.ends.len()
    }

    /// Whether the record has no fields.
    pub fn is_empty(&self) -> (b: bool)
        ensures
            b == (self@.len() == 0),
    {
        self.ends.len() == 0
    }

    /// All fields concatenated, without separators.
    pub fn as_slice(&self) -> (s: &[u8])
        ensures
            s@ == self@.flatten(),
    {
        proof {
            use_type_invariant(self);
            lemma_fields_flatten(self.fields@, self.ends@);
        }
        self.fields.as_slice()
    }

    /// Field `i`, if there is one.
    pub fn get(&self, i: usize) -> (r: Option<&[u8]>)
        ensures
            i < self@.len() ==> (r matches Some(f) && f@ == self@[i as int]),
            i >= self@.len() ==> r is None,
    {
        proof {
            use_type_invariant(self);
        }
        if i >= self.ends.len() {
            return None;
        }
        let start = if i == 0 {
            0
        } else {
            self.ends[i - 1]
        };
        let end = self.ends[i];
        proof {
            if i > 0 {
                assert(self.ends@[i - 1] <= self.ends@[i as int]);
            }
            assert(self.ends@[i as int] <= self.ends@.last());
        }
        Some(vstd::slice::slice_subrange(self.fields.as_slice(), start, end))
    }

    /// Removes all fields.
    pub fn clear(&mut self)
        ensures
            final(self)@ == Seq::<Seq<u8>>::empty(),
    {
        *self = ByteRecord::new();
    }

    /// Appends a field.
    pub fn push_field(&mut self, field: &[u8])
        requires
            old(self).byte_len() + field@.len() <= usize::MAX,
        ensures
            final(self)@ == old(self)@.push(field@),
    {
        proof {
            use_type_invariant(&*self);
            lemma_fields_flatten(self.fields@, self.ends@);
        }
        let mut tmp = ByteRecord::new();
        std::mem::swap(&mut tmp, self);
        proof {
            use_type_invariant(&tmp);
        }
        let ByteRecord { mut fields, mut ends } = tmp;
        let ghost old_fields = fields@;
        let mut k: usize = 0;
        while k < field.len()
            invariant
                k <= field@.len(),
                fields@ == old_fields + field@.take(k as int),
                old_fields.len() + field@.len() <= usize::MAX,
            decreases field@.len() - k,
        {
            fields.push(field[k]);
            k = k + 1;
            assert(field@.take(k as int) =~= field@.take(k - 1).push(field@[k - 1]));
        }
        assert(field@.take(k as int) =~= field@);
        proof {
            lemma_fields_push(old_fields, ends@, field@);
        }
        ends.push(fields.len());
        *self = ByteRecord { fields, ends };
    }

    /// Builds a record from a list of fields.
    pub fn from_fields(v: &Vec<Vec<u8>>) -> (r: ByteRecord)
        requires
            v.deep_view().flatten().len() <= usize::MAX,
        ensures
            r@ == v.deep_view(),
    {
        let mut r = ByteRecord::new();
        let mut i: usize = 0;
        while i < v.len()
            invariant
                i <= v.len(),
                r@ == v.deep_view().take(i as int),
                v.deep_view().flatten().len() <= usize::MAX,
            decreases v.len() - i,
        {
            proof {
                assert(v[i as int].deep_view() =~= v[i as int]@);
                lemma_flatten_take_len(v.deep_view(), i as int + 1);
                v.deep_view().take(i as int).lemma_flatten_push(v.deep_view()[i as int]);
                assert(v.deep_view().take(i + 1) =~= v.deep_view().take(i as int).push(
                    v.deep_view()[i as int],
                ));
            }
            r.push_field(v[i].as_slice());
            i = i + 1;
        }
        assert(v.deep_view().take(i as int) =~= v.deep_view());
        r
    }

    /// A copy of this record.
    pub fn clone_record(&self) -> (r: ByteRecord)
        ensures
            r@ == self@,
    {
        proof {
            use_type_invariant(self);
        }
        let mut fields: Vec<u8> = Vec::new();
        let mut k: usize = 0;
        while k < self.fields.len()
            invariant
                k <= self.fields@.len(),
                fields@ == self.fields@.take(k as int),
            decreases self.fields@.len() - k,
        {
            fields.push(self.fields[k]);
            k = k + 1;
            assert(self.fields@.take(k as int) =~= self.fields@.take(k - 1).push(self.fields@[k - 1]));
        }
        let mut ends: Vec<usize> = Vec::new();
        let mut j: usize = 0;
        while j < self.ends.len()
            invariant
                j <= self.ends@.len(),
                ends@ == self.ends@.take(j as int),
            decreases self.ends@.len() - j,
        {
            ends.push(self.ends[j]);
            j = j + 1;
            assert(self.ends@.take(j as int) =~= self.ends@.take(j - 1).push(self.ends@[j - 1]));
        }
        assert(fields@ =~= self.fields@);
        assert(ends@ =~= self.ends@);
        ByteRecord { fields, ends }
    }

    /// Field-by-field equality: same number of fields and equal bytes in each.
    pub fn eq_fields(&self, other: &ByteRecord) -> (b: bool)
        ensures
            b == (self@ == other@),
    {
        if self.len() != other.len() {
            return false;
        }
        let n = self.len();
        let mut i: usize = 0;
        while i < n
            invariant
                n == self@.len(),
                n == other@.len(),
                i <= n,
                forall|j: int| 0 <= j < i ==> self@[j] == other@[j],
            decreases n - i,
        {
            let a = self.get(i).unwrap();
            let b = other.get(i).unwrap();
            if !bytes_eq(a, b) {
                return false;
            }
            i = i + 1;
        }
        assert(self@ =~= other@);
        true
    }

    /// Removes leading and trailing ASCII whitespace from every field.
    pub fn trim(&mut self)
        ensures
            final(self)@ == trim_fields(old(self)@),
    {
        proof {
            use_type_invariant(&*self);
            lemma_fields_flatten(self.fields@, self.ends@);
        }
        let n = self.len();
        let mut out = ByteRecord::new();
        let mut i: usize = 0;
        while i < n
            invariant
                n == self@.len(),
                i <= n,
                out@ == trim_fields(self@).take(i as int),
                out.byte_len() <= self.take_bytes(i as int),
                self.byte_len() <= usize::MAX,
            decreases n - i,
        {
            let f = self.get(i).unwrap();
            let t = trim_slice(f);
            let ghost old_out = out@;
            proof {
                self.lemma_take_bytes_step(i as int);
                lemma_flatten_take_len(self@, i as int + 1);
            }
            out.push_field(t);
            proof {
                assert(trim_fields(self@).take(i + 1) =~= trim_fields(self@).take(i as int).push(
                    trim_ascii(self@[i as int]),
                ));
                old_out.lemma_flatten_push(t@);
            }
            i = i + 1;
        }
        assert(trim_fields(self@).take(n as int) =~= trim_fields(self@));
        *self = out;
    }

    /// Bytes in the first `i` fields.
    pub open spec fn take_bytes(&self, i: int) -> nat {
        self@.take(i).flatten().len()
    }

    proof fn lemma_take_bytes_step(&self, i: int)
        requires
            0 <= i < self@.len(),
        ensures
            self.take_bytes(i + 1) == self.take_bytes(i) + self@[i].len(),
    {
        assert(self@.take(i + 1) =~= self@.take(i).push(self@[i]));
        self@.take(i).lemma_flatten_push(self@[i]);
    }
}

impl PartialEq for ByteRecord {
    fn eq(&self, other: &ByteRecord) -> (b: bool) {
        self.eq_fields(other)
    }
}

impl vstd::std_specs::cmp::PartialEqSpecImpl for ByteRecord {
    open spec fn obeys_eq_spec() -> bool {
        true
    }

    open spec fn eq_spec(&self, other: &ByteRecord) -> bool {
        self@ == other@
    }
}

/// The flattened length of a prefix never exceeds the whole.
pub proof fn lemma_flatten_take_len(s: Seq<Seq<u8>>, i: int)
    requires
        0 <= i <= s.len(),
    ensures
        s.take(i).flatten().len() <= s.flatten().len(),
    decreases s.len() - i,
{
    if i < s.len() {
        lemma_flatten_take_len(s, i + 1);
        assert(s.take(i + 1) =~= s.take(i).push(s[i]));
        s.take(i).lemma_flatten_push(s[i]);
    } else {
        assert(s.take(i) =~= s);
    }
}

/// Byte-slice equality.
pub fn bytes_eq(a: &[u8], b: &[u8]) -> (r: bool)
    ensures
        r == (a@ == b@),
{
    if a.len() != b.len() {
        return false;
    }
    let mut i: usize = 0;
    while i < a.len()
        invariant
            a@.len() == b@.len(),
            i <= a@.len(),
            forall|j: int| 0 <= j < i ==> a@[j] == b@[j],
        decreases a@.len() - i,
    {
        if a[i] != b[i] {
            return false;
        }
        i = i + 1;
    }
    assert(a@ =~= b@);
    true
}

/// Whether a byte is ASCII whitespace.
pub fn is_ascii_whitespace(b: u8) -> (r: bool)
    ensures
        r == is_ascii_ws(b),
{
    b == 0x20 || b == 0x09 || b == 0x0a || b == 0x0c || b == 0x0d
}

/// The slice with leading and trailing ASCII whitespace removed.
pub fn trim_slice(s: &[u8]) -> (r: &[u8])
    ensures
        r@ == trim_ascii(s@),
        r@.len() <= s@.len(),
{
    let mut lo: usize = 0;
    while lo < s.len() && is_ascii_whitespace(s[lo])
        invariant
            lo <= s@.len(),
            forall|k: int| 0 <= k < lo ==> is_ascii_ws(#[trigger] s@[k]),
        decreases s@.len() - lo,
    {
        lo = lo + 1;
    }
    let mut hi: usize = s.len();
    while hi > lo && is_ascii_whitespace(s[hi - 1])
        invariant
            lo <= hi <= s@.len(),
            forall|k: int| hi <= k < s@.len() ==> is_ascii_ws(#[trigger] s@[k]),
        decreases hi,
    {
        hi = hi - 1;
    }
    proof {
        lemma_trim_ascii_window(s@, lo as int, hi as int);
    }
    vstd::slice::slice_subrange(s, lo, hi)
}

} // verus!
