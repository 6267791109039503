//! Reading whole records out of CSV text held in memory.
use vstd::prelude::*;

use crate::byte_record::{ByteRecord, ends_wf, fields_of, trim_fields};
use crate::core_reader::{at_record_start, lemma_empty_line_skipped, term_equals};
use crate::error::Error;
use crate::grammar::{
    cumulative_ends, encodes, join_fields, lemma_cumulative_fields, lemma_run_record, sane,
    starts_field,
};
use crate::core_reader::{
    CoreConfig, CoreReader, CoreState, ReadRecordResult, Terminator, final_state, run,
    run_bounded, scan_append, scan_start, scan_wf, read_outcome, lemma_run_append,
    lemma_run_bounded_prefix, lemma_run_concat, lemma_run_grows, lemma_run_wf,
    lemma_run_bounded_progress, lemma_run_bounded_limits,
};

verus! {

/// Which records have their fields' surrounding whitespace removed.
#[derive(Clone, Copy, PartialEq, Eq, Structural)]
pub enum Trim {
    /// Nothing is trimmed.
    Off,
    /// Only the header record is trimmed.
    Headers,
    /// Only records other than the header are trimmed.
    Fields,
    /// Every record is trimmed.
    All,
}

/// Whether `t` trims ordinary records.
pub open spec fn trims_fields(t: Trim) -> bool {
    t == Trim::Fields || t == Trim::All
}

/// Whether `t` trims the header record.
pub open spec fn trims_headers(t: Trim) -> bool {
    t == Trim::Headers || t == Trim::All
}

fn should_trim_fields(t: Trim) -> (r: bool)
    ensures
        r == trims_fields(t),
{
    match t {
        Trim::Fields | Trim::All => true,
        _ => false,
    }
}

fn should_trim_headers(t: Trim) -> (r: bool)
    ensures
        r == trims_headers(t),
{
    match t {
        Trim::Headers | Trim::All => true,
        _ => false,
    }
}

/// Fields of a record from its content bytes and content end offsets.
pub open spec fn scan_fields(out: Seq<u8>, ends: Seq<int>) -> Seq<Seq<u8>> {
    fields_of(out, ends.map_values(|e: int| e as usize))
}

/// The next raw record in `rest`, parsed from state `state`: its fields, if
/// there is one, how many bytes it takes, and the parser's state afterwards.
/// Input that ends inside a record completes that record.
pub open spec fn next_raw(cfg: CoreConfig, state: CoreState, rest: Seq<u8>) -> (
    Option<Seq<Seq<u8>>>,
    nat,
    CoreState,
) {
    let sc = run(cfg, scan_start(state), rest);
    if sc.done {
        (Some(scan_fields(sc.out, sc.ends)), sc.nin, sc.state)
    } else if final_state(sc.state) == CoreState::EndRecord {
        (
            Some(scan_fields(sc.out, sc.ends.push(sc.out.len() as int))),
            rest.len(),
            CoreState::EndRecord,
        )
    } else {
        (None, rest.len(), final_state(sc.state))
    }
}

/// Abstract state of a reader.
pub ghost struct ReaderView {
    pub cfg: CoreConfig,
    pub has_headers: bool,
    pub flexible: bool,
    pub trim: Trim,
    pub state: CoreState,
    pub input: Seq<u8>,
    pub pos: nat,
    pub eof: bool,
    pub headers: Option<Seq<Seq<u8>>>,
    pub first_field_count: Option<u64>,
}

/// Reading the next raw record: the reader afterwards, the record's fields
/// (empty when there is none), and whether a record was read.
pub open spec fn spec_read_raw(v: ReaderView) -> (ReaderView, Seq<Seq<u8>>, Result<bool, Error>) {
    if v.eof {
        (v, Seq::empty(), Ok(false))
    } else {
        let (r, n, s) = next_raw(v.cfg, v.state, v.input.skip(v.pos as int));
        let v1 = ReaderView { pos: v.pos + n, state: s, ..v };
        match r {
            None => (ReaderView { eof: true, ..v1 }, Seq::empty(), Ok(false)),
            Some(f) => if v.flexible {
                (v1, f, Ok(true))
            } else {
                match v.first_field_count {
                    None => (ReaderView { first_field_count: Some(f.len() as u64), ..v1 }, f, Ok(true)),
                    Some(e) => if f.len() as u64 != e {
                        (v1, f, Err(Error::UnequalLengths { expected_len: e, len: f.len() as u64 }))
                    } else {
                        (v1, f, Ok(true))
                    },
                }
            },
        }
    }
}

/// Fields trimmed when `yes` holds.
pub open spec fn trim_if(yes: bool, f: Seq<Seq<u8>>) -> Seq<Seq<u8>> {
    if yes {
        trim_fields(f)
    } else {
        f
    }
}

/// Reading the next record: the first record read becomes the header
/// record; with `has_headers` it is not returned and the record after it is.
/// Trimming applies to the header record under `Trim::Headers`/`Trim::All`
/// and to returned records under `Trim::Fields`/`Trim::All`.
pub open spec fn spec_read_byte_record(v: ReaderView) -> (ReaderView, Seq<Seq<u8>>, Result<bool, Error>) {
    let (v1, rec1, res1) = spec_read_raw(v);
    match res1 {
        Err(e) => (v1, rec1, Err(e)),
        Ok(ok) => if v.headers is None {
            let v2 = ReaderView { headers: Some(trim_if(trims_headers(v.trim), rec1)), ..v1 };
            if v.has_headers {
                let (v3, rec3, res3) = spec_read_raw(v2);
                (v3, trim_if(trims_fields(v.trim), rec3), res3)
            } else {
                (v2, trim_if(trims_fields(v.trim), rec1), Ok(ok))
            }
        } else {
            (v1, trim_if(trims_fields(v.trim), rec1), Ok(ok))
        },
    }
}

/// An empty line between records yields no record: parsing from the start
/// of a record, a terminator byte in front of the input leaves the next
/// record and the state after it as they were, and only adds one to the
/// bytes consumed.
pub proof fn lemma_empty_line_yields_no_record(cfg: CoreConfig, s: CoreState, t: u8, rest: Seq<u8>)
    requires
        at_record_start(s),
        term_equals(cfg.term, t),
    ensures
        next_raw(cfg, s, seq![t] + rest).0 == next_raw(cfg, CoreState::StartRecord, rest).0,
        next_raw(cfg, s, seq![t] + rest).1 == next_raw(cfg, CoreState::StartRecord, rest).1 + 1,
        next_raw(cfg, s, seq![t] + rest).2 == next_raw(cfg, CoreState::StartRecord, rest).2,
{
    lemma_empty_line_skipped(cfg, s, t, rest);
}

/// The parser's next record, when there is one and the reader has not
/// reached the end of its input.
pub open spec fn parsed_next(v: ReaderView) -> Option<Seq<Seq<u8>>> {
    if v.eof {
        None
    } else {
        next_raw(v.cfg, v.state, v.input.skip(v.pos as int)).0
    }
}

/// The parser's record after the next one.
pub open spec fn parsed_second(v: ReaderView) -> Option<Seq<Seq<u8>>> {
    let (_, n, s) = next_raw(v.cfg, v.state, v.input.skip(v.pos as int));
    next_raw(v.cfg, s, v.input.skip((v.pos + n) as int)).0
}

/// Whether the next read first takes the header record and does not return it.
pub open spec fn header_pending(v: ReaderView) -> bool {
    v.headers is None && v.has_headers && parsed_next(v) is Some
}

/// The record of the input that the next read returns, before trimming:
/// the parser's next record, or the one after it when that is the header
/// record still to be read.
pub open spec fn record_returned(v: ReaderView) -> Option<Seq<Seq<u8>>> {
    if header_pending(v) {
        parsed_second(v)
    } else {
        parsed_next(v)
    }
}

/// The field count that the record returned must have: none for a flexible
/// reader; otherwise the count of the first record read, and that is the
/// header record when it is read now.
pub open spec fn count_required(v: ReaderView) -> Option<u64> {
    if v.flexible {
        None
    } else if v.first_field_count is Some {
        v.first_field_count
    } else if header_pending(v) {
        Some(parsed_next(v).unwrap().len() as u64)
    } else {
        None
    }
}

/// What one read returns, in terms of the records the parser finds: no
/// record at the end of the input; otherwise the record (after the header
/// record, when that is still to be read), refused with `UnequalLengths`
/// exactly when its field count differs from the count required, and, when
/// accepted, trimmed exactly when the reader trims records (`Trim::Fields`
/// or `Trim::All`), with or without a header record. A reader that has not
/// read its header record has no field count yet.
pub proof fn lemma_read_returns_parsed_record(v: ReaderView)
    requires
        v.headers is None ==> v.first_field_count is None,
    ensures
        record_returned(v) is None ==> spec_read_byte_record(v).2 == Ok::<bool, Error>(false),
        record_returned(v) matches Some(f) ==> spec_read_byte_record(v).2 == (if count_required(v) is Some
            && count_required(v).unwrap() != f.len() as u64 {
            Err::<bool, Error>(
                Error::UnequalLengths { expected_len: count_required(v).unwrap(), len: f.len() as u64 },
            )
        } else {
            Ok::<bool, Error>(true)
        }),
        record_returned(v) matches Some(f) ==> (spec_read_byte_record(v).2 is Ok
            ==> spec_read_byte_record(v).1 == trim_if(trims_fields(v.trim), f)),
{
}

/// Trimming reaches every returned record, whether or not the reader has a
/// header record: the first record read by a reader without one comes back
/// trimmed when the reader trims records.
pub proof fn lemma_trim_without_headers(v: ReaderView)
    requires
        v.headers is None,
        !v.has_headers,
        spec_read_raw(v).2 is Ok,
    ensures
        spec_read_byte_record(v).1 == trim_if(trims_fields(v.trim), spec_read_raw(v).1),
        spec_read_byte_record(v).2 == spec_read_raw(v).2,
{
}

/// Reading back text made of encoded fields: a fresh reader without a
/// header record, whose remaining input starts with the fields' texts joined
/// by the delimiter and closed by a terminator byte, returns exactly those
/// fields' contents (trimmed if the reader trims records).
pub proof fn lemma_read_encoded_record(
    v: ReaderView,
    es: Seq<Seq<u8>>,
    fs: Seq<Seq<u8>>,
    t: u8,
    rest: Seq<u8>,
)
    requires
        !v.eof,
        v.headers is None,
        !v.has_headers,
        v.first_field_count is None,
        v.pos <= v.input.len() <= usize::MAX,
        sane(v.cfg),
        es.len() == fs.len(),
        es.len() >= 1,
        forall|i: int| 0 <= i < es.len() ==> encodes(v.cfg, #[trigger] es[i], fs[i]),
        term_equals(v.cfg.term, t),
        starts_field(v.cfg, v.state, (join_fields(es, v.cfg.delimiter) + seq![t])[0]),
        v.input.skip(v.pos as int) == join_fields(es, v.cfg.delimiter) + seq![t] + rest,
    ensures
        spec_read_byte_record(v).1 == trim_if(trims_fields(v.trim), fs),
        spec_read_byte_record(v).2 == Ok::<bool, Error>(true),
{
    let cfg = v.cfg;
    let input = v.input.skip(v.pos as int);
    let st = scan_start(v.state);
    lemma_run_record(cfg, st, es, fs, t, rest);
    lemma_run_wf(cfg, st, input);
    let sc = run(cfg, st, input);
    assert(sc.out =~= fs.flatten());
    assert(sc.ends =~= cumulative_ends(fs, 0));
    lemma_cumulative_fields(fs);
    assert(scan_fields(sc.out, sc.ends) == fs);
}

/// Settings for a reader.
pub struct ReaderBuilder {
    core: CoreConfig,
    has_headers: bool,
    flexible: bool,
    trim: Trim,
}

/// Content bytes passed to the parser at a time.
pub const OUT_CHUNK: usize = 1024;

/// Field ends passed to the parser at a time.
pub const ENDS_CHUNK: usize = 64;

/// A reader of CSV records from bytes held in memory.
pub struct Reader {
    core: CoreReader,
    input: Vec<u8>,
    pos: usize,
    has_headers: bool,
    flexible: bool,
    trim: Trim,
    eof: bool,
    headers: Option<ByteRecord>,
    first_field_count: Option<u64>,
}

impl ReaderBuilder {
    /// The settings of the builder.
    pub closed spec fn settings(&self) -> (CoreConfig, bool, bool, Trim) {
        (self.core, self.has_headers, self.flexible, self.trim)
    }

    /// Default settings: the core parser's defaults, a header record,
    /// a fixed number of fields per record, and no trimming.
    pub fn new() -> (b: ReaderBuilder)
        ensures
            b.settings() == (crate::core_reader::default_config(), true, false, Trim::Off),
    {
        ReaderBuilder { core: CoreConfig::new(), has_headers: true, flexible: false, trim: Trim::Off }
    }

    /// Whether the first record is a header record.
    pub fn has_headers(self, yes: bool) -> (b: ReaderBuilder)
        ensures
            b.settings() == (self.settings().0, yes, self.settings().2, self.settings().3),
    {
        ReaderBuilder { has_headers: yes, ..self }
    }

    /// Whether records may have different numbers of fields.
    pub fn flexible(self, yes: bool) -> (b: ReaderBuilder)
        ensures
            b.settings() == (self.settings().0, self.settings().1, yes, self.settings().3),
    {
        ReaderBuilder { flexible: yes, ..self }
    }

    /// Which records are trimmed.
    pub fn trim(self, trim: Trim) -> (b: ReaderBuilder)
        ensures
            b.settings() == (self.settings().0, self.settings().1, self.settings().2, trim),
    {
        ReaderBuilder { trim, ..self }
    }

    /// The byte between fields.
    pub fn delimiter(self, d: u8) -> (b: ReaderBuilder)
        ensures
            b.settings() == (CoreConfig { delimiter: d, ..self.settings().0 }, self.settings().1, self.settings().2, self.settings().3),
    {
        ReaderBuilder { core: CoreConfig { delimiter: d, ..self.core }, ..self }
    }

    /// The quote byte.
    pub fn quote(self, q: u8) -> (b: ReaderBuilder)
        ensures
            b.settings() == (CoreConfig { quote: q, ..self.settings().0 }, self.settings().1, self.settings().2, self.settings().3),
    {
        ReaderBuilder { core: CoreConfig { quote: q, ..self.core }, ..self }
    }

    /// The escape byte inside quoted fields, if any.
    pub fn escape(self, e: Option<u8>) -> (b: ReaderBuilder)
        ensures
            b.settings() == (CoreConfig { escape: e, ..self.settings().0 }, self.settings().1, self.settings().2, self.settings().3),
    {
        ReaderBuilder { core: CoreConfig { escape: e, ..self.core }, ..self }
    }

    /// Whether doubled quotes inside quoted fields stand for one quote.
    pub fn double_quote(self, yes: bool) -> (b: ReaderBuilder)
        ensures
            b.settings() == (CoreConfig { double_quote: yes, ..self.settings().0 }, self.settings().1, self.settings().2, self.settings().3),
    {
        ReaderBuilder { core: CoreConfig { double_quote: yes, ..self.core }, ..self }
    }

    /// Whether quote bytes are special.
    pub fn quoting(self, yes: bool) -> (b: ReaderBuilder)
        ensures
            b.settings() == (CoreConfig { quoting: yes, ..self.settings().0 }, self.settings().1, self.settings().2, self.settings().3),
    {
        ReaderBuilder { core: CoreConfig { quoting: yes, ..self.core }, ..self }
    }

    /// How records end.
    pub fn terminator(self, t: Terminator) -> (b: ReaderBuilder)
        ensures
            b.settings() == (CoreConfig { term: t, ..self.settings().0 }, self.settings().1, self.settings().2, self.settings().3),
    {
        ReaderBuilder { core: CoreConfig { term: t, ..self.core }, ..self }
    }

    /// The comment byte, if any.
    pub fn comment(self, c: Option<u8>) -> (b: ReaderBuilder)
        ensures
            b.settings() == (CoreConfig { comment: c, ..self.settings().0 }, self.settings().1, self.settings().2, self.settings().3),
    {
        ReaderBuilder { core: CoreConfig { comment: c, ..self.core }, ..self }
    }

    /// A reader over a copy of `data` with these settings.
    pub fn from_reader(&self, data: &[u8]) -> (r: Reader)
        ensures
            r.wf(),
            r.view() == (ReaderView {
                cfg: self.settings().0,
                has_headers: self.settings().1,
                flexible: self.settings().2,
                trim: self.settings().3,
                state: CoreState::StartRecord,
                input: data@,
                pos: 0,
                eof: false,
                headers: None,
                first_field_count: None,
            }),
    {
        Reader {
            core: CoreReader::with_config(self.core),
            input: vstd::slice::slice_to_vec(data),
            pos: 0,
            has_headers: self.has_headers,
            flexible: self.flexible,
            trim: self.trim,
            eof: false,
            headers: None,
            first_field_count: None,
        }
    }
}

/// `dst` with the first `n` bytes of `src` appended.
fn extend_bytes(dst: &mut Vec<u8>, src: &[u8], n: usize)
    requires
        n <= src@.len(),
    ensures
        final(dst)@ == old(dst)@ + src@.take(n as int),
{
    let mut k: usize = 0;
    while k < n
        invariant
            n <= src@.len(),
            k <= n,
            dst@ == old(dst)@ + src@.take(k as int),
        decreases n - k,
    {
        dst.push(src[k]);
        k = k + 1;
        assert(src@.take(k as int) =~= src@.take(k - 1).push(src@[k - 1]));
    }
}

/// `dst` with the first `n` offsets of `src` appended.
fn extend_offsets(dst: &mut Vec<usize>, src: &[usize], n: usize)
    requires
        n <= src@.len(),
    ensures
        final(dst)@ == old(dst)@ + src@.take(n as int),
{
    let mut k: usize = 0;
    while k < n
        invariant
            n <= src@.len(),
            k <= n,
            dst@ == old(dst)@ + src@.take(k as int),
        decreases n - k,
    {
        dst.push(src[k]);
        k = k + 1;
        assert(src@.take(k as int) =~= src@.take(k - 1).push(src@[k - 1]));
    }
}

impl Reader {
    /// Abstract state.
    pub closed spec fn view(&self) -> ReaderView {
        ReaderView {
            cfg: self.core.config(),
            has_headers: self.has_headers,
            flexible: self.flexible,
            trim: self.trim,
            state: self.core.dfa_state(),
            input: self.input@,
            pos: self.pos as nat,
            eof: self.eof,
            headers: match self.headers {
                Some(h) => Some(h@),
                None => None,
            },
            first_field_count: self.first_field_count,
        }
    }

    fn add_record(&mut self, n: usize) -> (r: Result<(), Error>)
        ensures
            final(self).core == old(self).core,
            final(self).input == old(self).input,
            final(self).pos == old(self).pos,
            final(self).eof == old(self).eof,
            final(self).headers == old(self).headers,
            final(self).has_headers == old(self).has_headers,
            final(self).flexible == old(self).flexible,
            final(self).trim == old(self).trim,
            old(self).flexible ==> (r is Ok && final(self).first_field_count == old(self).first_field_count),
            !old(self).flexible ==> match old(self).first_field_count {
                None => r is Ok && final(self).first_field_count == Some(n as u64),
                Some(e) => final(self).first_field_count == old(self).first_field_count && if n as u64 != e {
                    r == Err::<(), Error>(Error::UnequalLengths { expected_len: e, len: n as u64 })
                } else {
                    r is Ok
                },
            },
    {
        if !self.flexible {
            match self.first_field_count {
                None => {
                    self.first_field_count = Some(n as u64);
                },
                Some(e) => {
                    if n as u64 != e {
                        return Err(Error::UnequalLengths { expected_len: e, len: n as u64 });
                    }
                },
            }
        }
        Ok(())
    }

    /// Reads the next record as it stands in the input.
    fn read_raw(&mut self, record: &mut ByteRecord) -> (r: Result<bool, Error>)
        requires
            old(self).wf(),
        ensures
            final(self).wf(),
            spec_read_raw(old(self).view()) == (final(self).view(), final(record)@, r),
    {
        record.clear();
        if self.eof {
            return Ok(false);
        }
        let ghost v0 = self.view();
        let ghost pos0 = self.pos as int;
        let ghost s0 = self.core.dfa_state();
        let ghost cfg = self.core.config();
        let mut fields: Vec<u8> = Vec::new();
        let mut ends: Vec<usize> = Vec::new();
        let ghost mut acc = scan_start(s0);
        let mut done = false;
        proof {
            assert(self.input@.subrange(pos0, pos0) =~= Seq::<u8>::empty());
            assert(acc.ends.map_values(|e: int| e as usize) =~= Seq::<usize>::empty());
        }
        while !done && self.pos < self.input.len()
            invariant
                self.core.config() == cfg,
                self.input@ == v0.input,
                self.has_headers == v0.has_headers,
                self.flexible == v0.flexible,
                self.trim == v0.trim,
                !self.eof,
                self.headers == old(self).headers,
                self.first_field_count == v0.first_field_count,
                0 <= pos0 <= self.pos <= self.input@.len(),
                acc == run(cfg, scan_start(s0), self.input@.subrange(pos0, self.pos as int)),
                acc.nin == self.pos - pos0,
                scan_wf(acc),
                done == acc.done,
                !done ==> self.core.dfa_state() == acc.state,
                !done ==> self.core.out_pos() == acc.out.len(),
                done ==> self.core.out_pos() == 0,
                done ==> self.core.dfa_state() == acc.state,
                fields@ == acc.out,
                ends@ == acc.ends.map_values(|e: int| e as usize),
            decreases self.input@.len() - self.pos,
        {
            let flen = fields.len();
            let ilen = self.input.len();
            assert(flen < usize::MAX) by {
                assert(acc.out.len() <= acc.nin);
                assert(flen == acc.out.len());
                assert(self.pos < ilen);
                assert(acc.nin <= self.pos);
            }
            let chunk: usize = if flen <= usize::MAX - OUT_CHUNK {
                OUT_CHUNK
            } else {
                usize::MAX - flen
            };
            let mut out: Vec<u8> = vec![0u8; chunk];
            let mut ebuf: Vec<usize> = vec![0usize; ENDS_CHUNK];
            let rest = vstd::slice::slice_subrange(self.input.as_slice(), self.pos, self.input.len());
            let ghost olen = chunk as nat;
            let ghost elen = ENDS_CHUNK as nat;
            let ghost sc = run_bounded(cfg, scan_start(acc.state), rest@, olen, elen);
            proof {
                lemma_run_bounded_progress(cfg, acc.state, rest@, olen, elen);
                lemma_run_bounded_limits(cfg, scan_start(acc.state), rest@, olen, elen);
                lemma_run_bounded_prefix(cfg, scan_start(acc.state), rest@, olen, elen);
            }
            let (res, nin, nout, nend) = self.core.read_record(
                rest,
                out.as_mut_slice(),
                ebuf.as_mut_slice(),
            );
            let ghost o = read_outcome(cfg, acc.state, acc.out.len(), rest@, olen, elen);
            extend_bytes(&mut fields, out.as_slice(), nout);
            extend_offsets(&mut ends, ebuf.as_slice(), nend);
            let ghost old_pos = self.pos as int;
            self.pos = self.pos + nin;
            done = res == ReadRecordResult::Record;
            proof {
                let taken = rest@.take(sc.nin as int);
                assert(o.nin == sc.nin);
                assert(nin == sc.nin);
                assert(rest@ == self.input@.subrange(old_pos, self.input@.len() as int));
                assert(sc == run(cfg, scan_start(acc.state), taken));
                assert(self.input@.subrange(pos0, self.pos as int) =~= self.input@.subrange(
                    pos0,
                    old_pos,
                ) + taken);
                lemma_run_concat(cfg, scan_start(s0), self.input@.subrange(pos0, old_pos), taken);
                lemma_run_append(cfg, acc, taken);
                lemma_run_wf(cfg, scan_start(s0), self.input@.subrange(pos0, self.pos as int));
                let acc2 = scan_append(acc, sc);
                assert(fields@ =~= acc2.out);
                assert(ends@ =~= acc2.ends.map_values(|e: int| e as usize)) by {
                    assert forall|k: int| 0 <= k < ends@.len() implies #[trigger] ends@[k]
                        == acc2.ends.map_values(|e: int| e as usize)[k] by {
                        if k >= acc.ends.len() {
                            let j = k - acc.ends.len();
                            assert(ebuf@.take(nend as int)[j] == ebuf@[j]);
                        }
                    }
                }
                acc = acc2;
            }
        }
        if done {
            proof {
                assert(self.input@.skip(pos0) =~= self.input@.subrange(pos0, self.pos as int)
                    + self.input@.skip(self.pos as int));
                lemma_run_concat(
                    cfg,
                    scan_start(s0),
                    self.input@.subrange(pos0, self.pos as int),
                    self.input@.skip(self.pos as int),
                );
                lemma_run_grows(cfg, acc, self.input@.skip(self.pos as int));
                assert(ends_wf(fields@, ends@));
            }
            let n = ends.len();
            *record = ByteRecord::from_parts(fields, ends);
            let added = self.add_record(n);
            match added {
                Ok(()) => Ok(true),
                Err(e) => Err(e),
            }
        } else {
            proof {
                assert(self.input@.subrange(pos0, self.pos as int) =~= self.input@.skip(pos0));
            }
            let empty = vstd::slice::slice_subrange(
                self.input.as_slice(),
                self.input.len(),
                self.input.len(),
            );
            let mut out: Vec<u8> = Vec::new();
            let mut ebuf: Vec<usize> = vec![0usize; 1];
            assert(empty@ =~= Seq::<u8>::empty());
            let (res, _nin, _nout, _nend) = self.core.read_record(
                empty,
                out.as_mut_slice(),
                ebuf.as_mut_slice(),
            );
            let ghost o2 = read_outcome(cfg, acc.state, acc.out.len(), empty@, 0, 1);
            if res == ReadRecordResult::Record {
                let last = ebuf[0];
                proof {
                    assert(o2.res == ReadRecordResult::Record);
                    assert(final_state(acc.state) == CoreState::EndRecord);
                    assert(o2.ends[0] == acc.out.len());
                    assert(ebuf@[0] == o2.ends[0]);
                }
                ends.push(last);
                proof {
                    assert(ends@ =~= acc.ends.push(acc.out.len() as int).map_values(|e: int| e as usize));
                    assert(ends_wf(fields@, ends@));
                }
                let n = ends.len();
                *record = ByteRecord::from_parts(fields, ends);
                let added = self.add_record(n);
                match added {
                    Ok(()) => Ok(true),
                    Err(e) => Err(e),
                }
            } else {
                self.eof = true;
                Ok(false)
            }
        }
    }

    /// Reads the next record into `record`. Returns `Ok(false)` when there
    /// are no more records.
    pub fn read_byte_record(&mut self, record: &mut ByteRecord) -> (r: Result<bool, Error>)
        requires
            old(self).wf(),
        ensures
            final(self).wf(),
            spec_read_byte_record(old(self).view()) == (final(self).view(), final(record)@, r),
    {
        let ok = match self.read_raw(record) {
            Ok(b) => b,
            Err(e) => {
                return Err(e);
            },
        };
        if self.headers.is_none() {
            let mut h = record.clone_record();
            if should_trim_headers(self.trim) {
                h.trim();
            }
            self.headers = Some(h);
            if self.has_headers {
                let result = self.read_raw(record);
                if should_trim_fields(self.trim) {
                    record.trim();
                }
                return result;
            }
        }
        if should_trim_fields(self.trim) {
            record.trim();
        }
        Ok(ok)
    }

    /// Internal consistency.
    pub closed spec fn wf(&self) -> bool {
        &&& self.pos <= self.input@.len()
        &&& !self.eof ==> self.core.out_pos() == 0
    }
}

} // verus!
