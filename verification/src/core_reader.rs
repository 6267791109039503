use vstd::prelude::*;

verus! {

/// How records end.
#[derive(Clone, Copy, PartialEq, Eq, Structural)]
pub enum Terminator {
    /// Any of `\r`, `\n` or `\r\n` ends a record.
    CRLF,
    /// The given byte ends a record.
    Any(u8),
}

/// Parser settings.
#[derive(Clone, Copy)]
pub struct CoreConfig {
    /// Byte between fields.
    pub delimiter: u8,
    /// Byte that opens and closes a quoted field.
    pub quote: u8,
    /// Byte that escapes the next byte inside a quoted field, if any.
    pub escape: Option<u8>,
    /// Whether two quote bytes inside a quoted field stand for one.
    pub double_quote: bool,
    /// Whether quote bytes are special at all.
    pub quoting: bool,
    /// How records end.
    pub term: Terminator,
    /// Byte that, at the start of a record, makes the line a comment.
    pub comment: Option<u8>,
}

/// Default settings: `,` between fields, `"` for quotes, doubled quotes,
/// no escape byte, any of `\r`, `\n`, `\r\n` ending a record, no comments.
pub open spec fn default_config() -> CoreConfig {
    CoreConfig {
        delimiter: 0x2c,
        quote: 0x22,
        escape: None,
        double_quote: true,
        quoting: true,
        term: Terminator::CRLF,
        comment: None,
    }
}

impl CoreConfig {
    /// The default settings.
    pub fn new() -> (c: CoreConfig)
        ensures
            c == default_config(),
    {
        CoreConfig {
            delimiter: 0x2cu8,
            quote: 0x22u8,
            escape: None,
            double_quote: true,
            quoting: true,
            term: Terminator::CRLF,
            comment: None,
        }
    }
}

/// Parser states.
#[derive(Clone, Copy, PartialEq, Eq, Structural)]
pub enum CoreState {
    StartRecord,
    StartField,
    InField,
    InQuotedField,
    InEscapedQuote,
    InDoubleEscapedQuote,
    InComment,
    EndFieldDelim,
    EndRecord,
    CRLF,
}

/// What a call of `read_record` reports.
#[derive(Clone, Copy, PartialEq, Eq, Structural, Debug)]
pub enum ReadRecordResult {
    /// All input was consumed without completing a record.
    InputEmpty,
    /// The output buffer filled up.
    OutputFull,
    /// The field-end buffer filled up.
    OutputEndsFull,
    /// A record was completed.
    Record,
    /// There are no more records.
    End,
}

/// Whether `c` ends a record under `term`.
pub open spec fn term_equals(term: Terminator, c: u8) -> bool {
    match term {
        Terminator::CRLF => c == 0x0d || c == 0x0a,
        Terminator::Any(t) => c == t,
    }
}

/// Transition out of the record-terminator position.
pub open spec fn record_term_step(cfg: CoreConfig, c: u8) -> (CoreState, bool) {
    if cfg.term == Terminator::CRLF && c == 0x0d {
        (CoreState::CRLF, false)
    } else {
        (CoreState::EndRecord, false)
    }
}

/// Transition on the first byte of a field.
pub open spec fn field_start_step(cfg: CoreConfig, c: u8) -> (CoreState, bool) {
    if cfg.quoting && c == cfg.quote {
        (CoreState::InQuotedField, false)
    } else if c == cfg.delimiter {
        (CoreState::EndFieldDelim, false)
    } else if term_equals(cfg.term, c) {
        record_term_step(cfg, c)
    } else {
        (CoreState::InField, true)
    }
}

/// Transition on the first byte of a record.
pub open spec fn record_start_step(cfg: CoreConfig, c: u8) -> (CoreState, bool) {
    if term_equals(cfg.term, c) {
        (CoreState::StartRecord, false)
    } else if cfg.comment == Some(c) {
        (CoreState::InComment, false)
    } else {
        field_start_step(cfg, c)
    }
}

/// Transition on a byte after the end of a field's unquoted content.
pub open spec fn after_content_step(cfg: CoreConfig, c: u8) -> (CoreState, bool) {
    if c == cfg.delimiter {
        (CoreState::EndFieldDelim, false)
    } else if term_equals(cfg.term, c) {
        record_term_step(cfg, c)
    } else {
        (CoreState::InField, true)
    }
}

/// One transition of the parser: the next state, and whether the byte is
/// part of a field's content.
pub open spec fn dfa_step(cfg: CoreConfig, s: CoreState, c: u8) -> (CoreState, bool) {
    match s {
        CoreState::StartRecord => record_start_step(cfg, c),
        CoreState::EndRecord => record_start_step(cfg, c),
        CoreState::CRLF => if c == 0x0a {
            (CoreState::StartRecord, false)
        } else {
            record_start_step(cfg, c)
        },
        CoreState::StartField => field_start_step(cfg, c),
        CoreState::EndFieldDelim => field_start_step(cfg, c),
        CoreState::InField => after_content_step(cfg, c),
        CoreState::InQuotedField => if cfg.quoting && c == cfg.quote {
            (CoreState::InDoubleEscapedQuote, false)
        } else if cfg.quoting && cfg.escape == Some(c) {
            (CoreState::InEscapedQuote, false)
        } else {
            (CoreState::InQuotedField, true)
        },
        CoreState::InEscapedQuote => (CoreState::InQuotedField, true),
        CoreState::InDoubleEscapedQuote => if cfg.quoting && cfg.double_quote && c == cfg.quote {
            (CoreState::InQuotedField, true)
        } else {
            after_content_step(cfg, c)
        },
        CoreState::InComment => if c == 0x0a {
            (CoreState::StartRecord, false)
        } else {
            (CoreState::InComment, false)
        },
    }
}

/// A state reached right after a field ended.
pub open spec fn ends_field(s: CoreState) -> bool {
    s == CoreState::EndFieldDelim || s == CoreState::EndRecord || s == CoreState::CRLF
}

/// A state reached right after a record ended.
pub open spec fn ends_record(s: CoreState) -> bool {
    s == CoreState::EndRecord || s == CoreState::CRLF
}

/// The state the parser moves to when the input ends: a pending record is
/// completed; otherwise the parser rests at the start of a record.
pub open spec fn final_state(s: CoreState) -> CoreState {
    if s == CoreState::StartRecord || s == CoreState::EndRecord || s == CoreState::CRLF || s
        == CoreState::InComment {
        CoreState::StartRecord
    } else {
        CoreState::EndRecord
    }
}

/// Progress through the input of one record: the state, the content bytes
/// copied so far, the content offset at which each finished field ends,
/// whether the record ended, and how many input bytes were consumed.
pub ghost struct Scan {
    pub state: CoreState,
    pub out: Seq<u8>,
    pub ends: Seq<int>,
    pub done: bool,
    pub nin: nat,
}

/// Nothing consumed yet, starting in state `s`.
pub open spec fn scan_start(s: CoreState) -> Scan {
    Scan { state: s, out: Seq::empty(), ends: Seq::empty(), done: false, nin: 0 }
}

/// Consumes one byte.
pub open spec fn scan_byte(cfg: CoreConfig, st: Scan, c: u8) -> Scan {
    let (s2, copy) = dfa_step(cfg, st.state, c);
    let out2 = if copy {
        st.out.push(c)
    } else {
        st.out
    };
    let ends2 = if ends_field(s2) {
        st.ends.push(out2.len() as int)
    } else {
        st.ends
    };
    Scan { state: s2, out: out2, ends: ends2, done: ends_record(s2), nin: st.nin + 1 }
}

/// Consumes bytes until the input runs out or a record ends.
pub open spec fn run(cfg: CoreConfig, st: Scan, rest: Seq<u8>) -> Scan
    decreases rest.len(),
{
    if rest.len() == 0 || st.done {
        st
    } else {
        run(cfg, scan_byte(cfg, st, rest[0]), rest.drop_first())
    }
}

/// A state inside a record: between the first byte of a record and the
/// byte that ends it.
pub open spec fn inside_record(s: CoreState) -> bool {
    ||| s == CoreState::StartField
    ||| s == CoreState::InField
    ||| s == CoreState::InQuotedField
    ||| s == CoreState::InEscapedQuote
    ||| s == CoreState::InDoubleEscapedQuote
    ||| s == CoreState::EndFieldDelim
}

/// The comment byte is special only at the start of a record: once a record
/// has started, the rest of it is parsed the same way whether or not a
/// comment byte is configured, and whatever that byte is.
pub proof fn lemma_comment_only_at_record_start(cfg: CoreConfig, st: Scan, rest: Seq<u8>, comment: Option<u8>)
    requires
        !st.done,
        inside_record(st.state),
    ensures
        run(cfg, st, rest) == run(CoreConfig { comment: comment, ..cfg }, st, rest),
    decreases rest.len(),
{
    let other = CoreConfig { comment: comment, ..cfg };
    if rest.len() > 0 {
        let c = rest[0];
        assert(dfa_step(cfg, st.state, c) == dfa_step(other, st.state, c));
        let next = scan_byte(cfg, st, c);
        assert(next == scan_byte(other, st, c));
        assert(next.done || inside_record(next.state));
        assert(run(cfg, st, rest) == run(cfg, next, rest.drop_first()));
        assert(run(other, st, rest) == run(other, next, rest.drop_first()));
        if !next.done {
            lemma_comment_only_at_record_start(cfg, next, rest.drop_first(), comment);
        } else {
            assert(run(cfg, next, rest.drop_first()) == next);
            assert(run(other, next, rest.drop_first()) == next);
        }
    }
}

/// A state at the start of a record: before any record, right after one,
/// or after a `\r` that ended one.
pub open spec fn at_record_start(s: CoreState) -> bool {
    s == CoreState::StartRecord || s == CoreState::EndRecord || s == CoreState::CRLF
}

/// `st` with `k` more input bytes counted as consumed.
pub open spec fn shift_nin(st: Scan, k: nat) -> Scan {
    Scan { nin: st.nin + k, ..st }
}

/// The bytes counted as consumed before a run only add to the count after it.
pub proof fn lemma_run_shift_nin(cfg: CoreConfig, st: Scan, rest: Seq<u8>, k: nat)
    ensures
        run(cfg, shift_nin(st, k), rest) == shift_nin(run(cfg, st, rest), k),
    decreases rest.len(),
{
    if rest.len() > 0 && !st.done {
        assert(scan_byte(cfg, shift_nin(st, k), rest[0]) == shift_nin(scan_byte(cfg, st, rest[0]), k));
        lemma_run_shift_nin(cfg, scan_byte(cfg, st, rest[0]), rest.drop_first(), k);
    }
}

/// A terminator byte at the start of a record is skipped: it ends no field
/// and no record, so an empty line in front of the input changes nothing
/// but the count of bytes consumed.
pub proof fn lemma_empty_line_skipped(cfg: CoreConfig, s: CoreState, t: u8, rest: Seq<u8>)
    requires
        at_record_start(s),
        term_equals(cfg.term, t),
    ensures
        run(cfg, scan_start(s), seq![t] + rest) == shift_nin(run(cfg, scan_start(CoreState::StartRecord), rest), 1),
{
    let input = seq![t] + rest;
    assert(input[0] == t);
    assert(input.drop_first() =~= rest);
    let first = scan_byte(cfg, scan_start(s), t);
    assert(first == shift_nin(scan_start(CoreState::StartRecord), 1));
    assert(run(cfg, scan_start(s), input) == run(cfg, first, rest));
    lemma_run_shift_nin(cfg, scan_start(CoreState::StartRecord), rest, 1);
}

/// Like `run`, but also stops once `olen` content bytes or `elen` field ends
/// have been produced.
pub open spec fn run_bounded(cfg: CoreConfig, st: Scan, rest: Seq<u8>, olen: nat, elen: nat) -> Scan
    decreases rest.len(),
{
    if rest.len() == 0 || st.done || st.out.len() >= olen || st.ends.len() >= elen {
        st
    } else {
        run_bounded(cfg, scan_byte(cfg, st, rest[0]), rest.drop_first(), olen, elen)
    }
}

/// Everything one call of `read_record` does.
pub ghost struct ReadOutcome {
    pub res: ReadRecordResult,
    pub nin: nat,
    pub nout: nat,
    pub nend: nat,
    pub state: CoreState,
    pub out_pos: nat,
    pub out: Seq<u8>,
    pub ends: Seq<int>,
}

/// The outcome of `read_record` from state `state`, with `pos` content bytes
/// of the current record already produced by earlier calls, on `input`, with
/// room for `olen` content bytes and `elen` field ends.
pub open spec fn read_outcome(
    cfg: CoreConfig,
    state: CoreState,
    pos: nat,
    input: Seq<u8>,
    olen: nat,
    elen: nat,
) -> ReadOutcome {
    if input.len() == 0 {
        let s = final_state(state);
        if s == CoreState::EndRecord {
            if elen == 0 {
                ReadOutcome {
                    res: ReadRecordResult::OutputEndsFull,
                    nin: 0,
                    nout: 0,
                    nend: 0,
                    state: state,
                    out_pos: pos,
                    out: Seq::empty(),
                    ends: Seq::empty(),
                }
            } else {
                ReadOutcome {
                    res: ReadRecordResult::Record,
                    nin: 0,
                    nout: 0,
                    nend: 1,
                    state: s,
                    out_pos: 0,
                    out: Seq::empty(),
                    ends: seq![pos as int],
                }
            }
        } else {
            ReadOutcome {
                res: ReadRecordResult::End,
                nin: 0,
                nout: 0,
                nend: 0,
                state: s,
                out_pos: pos,
                out: Seq::empty(),
                ends: Seq::empty(),
            }
        }
    } else if olen == 0 || elen == 0 {
        ReadOutcome {
            res: if olen == 0 {
                ReadRecordResult::OutputFull
            } else {
                ReadRecordResult::OutputEndsFull
            },
            nin: 0,
            nout: 0,
            nend: 0,
            state: state,
            out_pos: pos,
            out: Seq::empty(),
            ends: Seq::empty(),
        }
    } else {
        let sc = run_bounded(cfg, scan_start(state), input, olen, elen);
        ReadOutcome {
            res: if sc.done {
                ReadRecordResult::Record
            } else if sc.nin < input.len() && sc.out.len() >= olen {
                ReadRecordResult::OutputFull
            } else if sc.nin < input.len() && sc.ends.len() >= elen {
                ReadRecordResult::OutputEndsFull
            } else {
                ReadRecordResult::InputEmpty
            },
            nin: sc.nin,
            nout: sc.out.len(),
            nend: sc.ends.len(),
            state: sc.state,
            out_pos: if sc.done {
                0
            } else {
                pos + sc.out.len()
            },
            out: sc.out,
            ends: sc.ends.map_values(|e: int| pos + e),
        }
    }
}

/// Progress `sc`, made from a fresh start, appended to earlier progress `st`.
pub open spec fn scan_append(st: Scan, sc: Scan) -> Scan {
    Scan {
        state: sc.state,
        out: st.out + sc.out,
        ends: st.ends + sc.ends.map_values(|e: int| st.out.len() + e),
        done: sc.done,
        nin: st.nin + sc.nin,
    }
}

/// Running over two pieces of input is running over their concatenation.
pub proof fn lemma_run_concat(cfg: CoreConfig, st: Scan, a: Seq<u8>, b: Seq<u8>)
    ensures
        run(cfg, st, a + b) == run(cfg, run(cfg, st, a), b),
    decreases a.len(),
{
    if a.len() == 0 {
        assert(a + b =~= b);
    } else if st.done {
        assert(run(cfg, st, a) == st);
        if b.len() > 0 {
            assert(run(cfg, st, b) == st);
        }
    } else {
        assert((a + b).drop_first() =~= a.drop_first() + b);
        assert((a + b)[0] == a[0]);
        lemma_run_concat(cfg, scan_byte(cfg, st, a[0]), a.drop_first(), b);
    }
}

/// Earlier progress only adds a prefix to what a fresh run produces.
pub proof fn lemma_run_append(cfg: CoreConfig, st: Scan, rest: Seq<u8>)
    requires
        !st.done,
    ensures
        run(cfg, st, rest) == scan_append(st, run(cfg, scan_start(st.state), rest)),
    decreases rest.len(),
{
    let z = scan_start(st.state);
    if rest.len() == 0 {
        assert(st.out + z.out =~= st.out);
        assert(st.ends + z.ends.map_values(|e: int| st.out.len() + e) =~= st.ends);
    } else {
        let c = rest[0];
        let st1 = scan_byte(cfg, st, c);
        let z1 = scan_byte(cfg, z, c);
        assert(st1 == scan_append(st, z1)) by {
            assert(st.out + z1.out =~= st1.out);
            assert(st.ends + z1.ends.map_values(|e: int| st.out.len() + e) =~= st1.ends);
        }
        if st1.done {
            assert(run(cfg, st, rest) == st1) by {
                if rest.drop_first().len() > 0 {
                }
            }
            assert(run(cfg, z, rest) == z1);
        } else {
            lemma_run_append(cfg, st1, rest.drop_first());
            lemma_run_append(cfg, z1, rest.drop_first());
            let w = run(cfg, scan_start(z1.state), rest.drop_first());
            assert(scan_append(st1, w) == scan_append(st, scan_append(z1, w))) by {
                assert(st1.out + w.out =~= st.out + (z1.out + w.out));
                assert(st1.ends + w.ends.map_values(|e: int| st1.out.len() + e) =~= st.ends + (z1.ends
                    + w.ends.map_values(|e: int| z1.out.len() + e)).map_values(
                    |e: int| st.out.len() + e,
                ));
            }
        }
    }
}

/// Output and field ends only grow along a run, one byte of input at a time.
pub proof fn lemma_run_grows(cfg: CoreConfig, st: Scan, rest: Seq<u8>)
    ensures
        run(cfg, st, rest).out.len() >= st.out.len(),
        run(cfg, st, rest).ends.len() >= st.ends.len(),
        run(cfg, st, rest).nin >= st.nin,
        run(cfg, st, rest).nin <= st.nin + rest.len(),
        run(cfg, st, rest).out.len() <= st.out.len() + (run(cfg, st, rest).nin - st.nin),
        st.done ==> run(cfg, st, rest) == st,
    decreases rest.len(),
{
    if rest.len() > 0 && !st.done {
        lemma_run_grows(cfg, scan_byte(cfg, st, rest[0]), rest.drop_first());
    }
}

/// The bounded run is the plain run over the input it consumed.
pub proof fn lemma_run_bounded_prefix(
    cfg: CoreConfig,
    st: Scan,
    rest: Seq<u8>,
    olen: nat,
    elen: nat,
)
    ensures
        ({
            let b = run_bounded(cfg, st, rest, olen, elen);
            &&& st.nin <= b.nin <= st.nin + rest.len()
            &&& b == run(cfg, st, rest.take(b.nin - st.nin))
        }),
    decreases rest.len(),
{
    let b = run_bounded(cfg, st, rest, olen, elen);
    if rest.len() == 0 || st.done || st.out.len() >= olen || st.ends.len() >= elen {
        assert(rest.take(0).len() == 0);
    } else {
        let st1 = scan_byte(cfg, st, rest[0]);
        lemma_run_bounded_prefix(cfg, st1, rest.drop_first(), olen, elen);
        let k = b.nin - st.nin;
        assert(rest.take(k)[0] == rest[0]);
        assert(rest.take(k).drop_first() =~= rest.drop_first().take(b.nin - st1.nin));
    }
}

/// When the buffers are never filled, the bounded run is the plain run.
pub proof fn lemma_run_bounded_unfilled(
    cfg: CoreConfig,
    st: Scan,
    rest: Seq<u8>,
    olen: nat,
    elen: nat,
)
    requires
        run(cfg, st, rest).out.len() < olen,
        run(cfg, st, rest).ends.len() < elen,
    ensures
        run_bounded(cfg, st, rest, olen, elen) == run(cfg, st, rest),
    decreases rest.len(),
{
    lemma_run_grows(cfg, st, rest);
    if rest.len() > 0 && !st.done {
        lemma_run_bounded_unfilled(cfg, scan_byte(cfg, st, rest[0]), rest.drop_first(), olen, elen);
    }
}

/// Consistency of progress: field ends are nondecreasing offsets into the
/// content produced, a finished record's last field ends at the end of the
/// content, and no more content than input has been produced.
pub open spec fn scan_wf(st: Scan) -> bool {
    &&& forall|i: int, j: int| 0 <= i <= j < st.ends.len() ==> st.ends[i] <= st.ends[j]
    &&& forall|i: int| 0 <= i < st.ends.len() ==> 0 <= #[trigger] st.ends[i] <= st.out.len()
    &&& st.done ==> st.ends.len() > 0 && st.ends.last() == st.out.len()
    &&& st.out.len() <= st.nin
}

/// Runs keep progress consistent.
pub proof fn lemma_run_wf(cfg: CoreConfig, st: Scan, rest: Seq<u8>)
    requires
        scan_wf(st),
    ensures
        scan_wf(run(cfg, st, rest)),
    decreases rest.len(),
{
    if rest.len() > 0 && !st.done {
        let st1 = scan_byte(cfg, st, rest[0]);
        assert(scan_wf(st1));
        lemma_run_wf(cfg, st1, rest.drop_first());
    }
}

/// A bounded run from a fresh start consumes at least one byte when it has
/// input and room.
pub proof fn lemma_run_bounded_progress(
    cfg: CoreConfig,
    s: CoreState,
    rest: Seq<u8>,
    olen: nat,
    elen: nat,
)
    requires
        rest.len() > 0,
        olen > 0,
        elen > 0,
    ensures
        run_bounded(cfg, scan_start(s), rest, olen, elen).nin >= 1,
{
    lemma_run_bounded_prefix(cfg, scan_byte(cfg, scan_start(s), rest[0]), rest.drop_first(), olen, elen);
}

/// A bounded run never produces more than the room it was given.
pub proof fn lemma_run_bounded_limits(
    cfg: CoreConfig,
    st: Scan,
    rest: Seq<u8>,
    olen: nat,
    elen: nat,
)
    requires
        st.out.len() <= olen,
        st.ends.len() <= elen,
    ensures
        run_bounded(cfg, st, rest, olen, elen).out.len() <= olen,
        run_bounded(cfg, st, rest, olen, elen).ends.len() <= elen,
    decreases rest.len(),
{
    if !(rest.len() == 0 || st.done || st.out.len() >= olen || st.ends.len() >= elen) {
        lemma_run_bounded_limits(cfg, scan_byte(cfg, st, rest[0]), rest.drop_first(), olen, elen);
    }
}

fn is_term(term: Terminator, c: u8) -> (r: bool)
    ensures
        r == term_equals(term, c),
{
    match term {
        Terminator::CRLF => c == 0x0du8 || c == 0x0au8,
        Terminator::Any(t) => c == t,
    }
}

fn record_term(cfg: &CoreConfig, c: u8) -> (r: (CoreState, bool))
    ensures
        r == record_term_step(*cfg, c),
{
    match cfg.term {
        Terminator::CRLF => if c == 0x0du8 {
            (CoreState::CRLF, false)
        } else {
            (CoreState::EndRecord, false)
        },
        Terminator::Any(_) => (CoreState::EndRecord, false),
    }
}

fn field_start(cfg: &CoreConfig, c: u8) -> (r: (CoreState, bool))
    ensures
        r == field_start_step(*cfg, c),
{
    if cfg.quoting && c == cfg.quote {
        (CoreState::InQuotedField, false)
    } else if c == cfg.delimiter {
        (CoreState::EndFieldDelim, false)
    } else if is_term(cfg.term, c) {
        record_term(cfg, c)
    } else {
        (CoreState::InField, true)
    }
}

fn is_comment(comment: Option<u8>, c: u8) -> (r: bool)
    ensures
        r == (comment == Some(c)),
{
    match comment {
        Some(x) => x == c,
        None => false,
    }
}

fn record_start(cfg: &CoreConfig, c: u8) -> (r: (CoreState, bool))
    ensures
        r == record_start_step(*cfg, c),
{
    if is_term(cfg.term, c) {
        (CoreState::StartRecord, false)
    } else if is_comment(cfg.comment, c) {
        (CoreState::InComment, false)
    } else {
        field_start(cfg, c)
    }
}

fn after_content(cfg: &CoreConfig, c: u8) -> (r: (CoreState, bool))
    ensures
        r == after_content_step(*cfg, c),
{
    if c == cfg.delimiter {
        (CoreState::EndFieldDelim, false)
    } else if is_term(cfg.term, c) {
        record_term(cfg, c)
    } else {
        (CoreState::InField, true)
    }
}

/// One parser transition.
pub fn step(cfg: &CoreConfig, s: CoreState, c: u8) -> (r: (CoreState, bool))
    ensures
        r == dfa_step(*cfg, s, c),
{
    match s {
        CoreState::StartRecord => record_start(cfg, c),
        CoreState::EndRecord => record_start(cfg, c),
        CoreState::CRLF => if c == 0x0au8 {
            (CoreState::StartRecord, false)
        } else {
            record_start(cfg, c)
        },
        CoreState::StartField => field_start(cfg, c),
        CoreState::EndFieldDelim => field_start(cfg, c),
        CoreState::InField => after_content(cfg, c),
        CoreState::InQuotedField => if cfg.quoting && c == cfg.quote {
            (CoreState::InDoubleEscapedQuote, false)
        } else if cfg.quoting && is_comment(cfg.escape, c) {
            (CoreState::InEscapedQuote, false)
        } else {
            (CoreState::InQuotedField, true)
        },
        CoreState::InEscapedQuote => (CoreState::InQuotedField, true),
        CoreState::InDoubleEscapedQuote => if cfg.quoting && cfg.double_quote && c == cfg.quote {
            (CoreState::InQuotedField, true)
        } else {
            after_content(cfg, c)
        },
        CoreState::InComment => if c == 0x0au8 {
            (CoreState::StartRecord, false)
        } else {
            (CoreState::InComment, false)
        },
    }
}

fn final_transition(s: CoreState) -> (r: CoreState)
    ensures
        r == final_state(s),
{
    match s {
        CoreState::StartRecord | CoreState::EndRecord | CoreState::CRLF | CoreState::InComment => {
            CoreState::StartRecord
        },
        _ => CoreState::EndRecord,
    }
}

/// A streaming CSV parser that copies field contents into a caller's buffer
/// and reports where each field ends.
pub struct CoreReader {
    cfg: CoreConfig,
    state: CoreState,
    output_pos: usize,
}

impl CoreReader {
    /// The parser's settings.
    pub closed spec fn config(&self) -> CoreConfig {
        self.cfg
    }

    /// The parser's current state.
    pub closed spec fn dfa_state(&self) -> CoreState {
        self.state
    }

    /// Content bytes of the current record produced by earlier calls.
    pub closed spec fn out_pos(&self) -> nat {
        self.output_pos as nat
    }

    /// A parser with the given settings, at the start of a record.
    pub fn with_config(cfg: CoreConfig) -> (r: CoreReader)
        ensures
            r.config() == cfg,
            r.dfa_state() == CoreState::StartRecord,
            r.out_pos() == 0,
    {
        CoreReader { cfg, state: CoreState::StartRecord, output_pos: 0 }
    }

    /// A parser with the default settings.
    pub fn new() -> (r: CoreReader)
        ensures
            r.config() == default_config(),
            r.dfa_state() == CoreState::StartRecord,
            r.out_pos() == 0,
    {
        CoreReader::with_config(CoreConfig::new())
    }

    /// Returns the parser to the state of a fresh parser with the same
    /// settings.
    pub fn reset(&mut self)
        ensures
            final(self).config() == old(self).config(),
            final(self).dfa_state() == CoreState::StartRecord,
            final(self).out_pos() == 0,
    {
        self.state = CoreState::StartRecord;
        self.output_pos = 0;
    }

    /// Parses as much of `input` as fits, copying field contents to `output`
    /// and field end offsets to `ends`. Returns what happened and how many
    /// bytes of `input`, `output` and `ends` were used. An empty `input`
    /// means the input is exhausted.
    pub fn read_record(&mut self, input: &[u8], output: &mut [u8], ends: &mut [usize]) -> (r: (
        ReadRecordResult,
        usize,
        usize,
        usize,
    ))
        requires
            old(self).out_pos() + old(output)@.len() <= usize::MAX,
        ensures
            ({
                let o = read_outcome(
                    old(self).config(),
                    old(self).dfa_state(),
                    old(self).out_pos(),
                    input@,
                    old(output)@.len(),
                    old(ends)@.len(),
                );
                &&& r.0 == o.res
                &&& r.1 == o.nin
                &&& r.2 == o.nout
                &&& r.3 == o.nend
                &&& final(self).config() == old(self).config()
                &&& final(self).dfa_state() == o.state
                &&& final(self).out_pos() == o.out_pos
                &&& final(output)@.len() == old(output)@.len()
                &&& final(output)@.take(o.nout as int) == o.out
                &&& final(output)@.skip(o.nout as int) == old(output)@.skip(o.nout as int)
                &&& final(ends)@.len() == old(ends)@.len()
                &&& o.ends.len() == o.nend
                &&& forall|k: int| 0 <= k < o.nend ==> final(ends)@[k] == o.ends[k]
                &&& final(ends)@.skip(o.nend as int) == old(ends)@.skip(o.nend as int)
                &&& o.out_pos <= old(self).out_pos() + old(output)@.len()
            }),
    {
        let ghost cfg = self.cfg;
        let ghost s0 = self.state;
        let ghost pos0 = self.output_pos as nat;
        if input.len() == 0 {
            let s = final_transition(self.state);
            if s == CoreState::EndRecord {
                if ends.len() == 0 {
                    return (ReadRecordResult::OutputEndsFull, 0, 0, 0);
                }
                self.state = s;
                ends[0] = self.output_pos;
                self.output_pos = 0;
                proof {
                    assert(output@.take(0) =~= Seq::<u8>::empty());
                    assert(output@.skip(0) =~= output@);
                }
                return (ReadRecordResult::Record, 0, 0, 1);
            } else {
                self.state = s;
                proof {
                    assert(output@.take(0) =~= Seq::<u8>::empty());
                    assert(output@.skip(0) =~= output@);
                    assert(ends@.skip(0) =~= ends@);
                }
                return (ReadRecordResult::End, 0, 0, 0);
            }
        }
        if output.len() == 0 {
            proof {
                assert(output@.take(0) =~= Seq::<u8>::empty());
                assert(output@.skip(0) =~= output@);
                assert(ends@.skip(0) =~= ends@);
            }
            return (ReadRecordResult::OutputFull, 0, 0, 0);
        }
        if ends.len() == 0 {
            proof {
                assert(output@.take(0) =~= Seq::<u8>::empty());
                assert(output@.skip(0) =~= output@);
                assert(ends@.skip(0) =~= ends@);
            }
            return (ReadRecordResult::OutputEndsFull, 0, 0, 0);
        }
        let ghost olen = output@.len();
        let ghost elen = ends@.len();
        let ghost old_output = output@;
        let ghost old_ends = ends@;
        let mut nin: usize = 0;
        let mut nout: usize = 0;
        let mut nend: usize = 0;
        let mut state = self.state;
        let mut done = false;
        let ghost mut sc = scan_start(s0);
        proof {
            assert(input@.skip(0) =~= input@);
        }
        while !done && nin < input.len() && nout < output.len() && nend < ends.len()
            invariant
                self.cfg == cfg,
                self.output_pos == pos0,
                pos0 + olen <= usize::MAX,
                output@.len() == olen,
                ends@.len() == elen,
                old_output.len() == olen,
                old_ends.len() == elen,
                olen > 0,
                elen > 0,
                input@.len() > 0,
                sc.state == state,
                sc.done == done,
                sc.nin == nin,
                sc.out.len() == nout,
                sc.ends.len() == nend,
                nin <= input@.len(),
                nout <= olen,
                nend <= elen,
                output@.take(nout as int) == sc.out,
                output@.skip(nout as int) == old_output.skip(nout as int),
                forall|k: int| 0 <= k < nend ==> ends@[k] == pos0 + sc.ends[k],
                forall|k: int| 0 <= k < nend ==> sc.ends[k] <= nout,
                ends@.skip(nend as int) == old_ends.skip(nend as int),
                nin == 0 ==> sc == scan_start(s0),
                run_bounded(cfg, scan_start(s0), input@, olen, elen) == run_bounded(
                    cfg,
                    sc,
                    input@.skip(nin as int),
                    olen,
                    elen,
                ),
            decreases input@.len() - nin,
        {
            let c = input[nin];
            let (s, has_out) = step(&self.cfg, state, c);
            let ghost prev = sc;
            proof {
                assert(input@.skip(nin as int)[0] == c);
                assert(input@.skip(nin as int).drop_first() =~= input@.skip(nin + 1));
                sc = scan_byte(cfg, sc, c);
            }
            state = s;
            if has_out {
                let ghost ob = output@;
                output[nout] = c;
                nout = nout + 1;
                proof {
                    assert(output@ == ob.update(nout - 1, c));
                    assert(output@.take(nout as int) =~= prev.out.push(c));
                    assert forall|k: int| 0 <= k < output@.len() - nout implies #[trigger] output@.skip(
                        nout as int,
                    )[k] == old_output.skip(nout as int)[k] by {
                        assert(ob.skip(nout - 1)[k + 1] == old_output.skip(nout - 1)[k + 1]);
                    }
                    assert(output@.skip(nout as int) =~= old_output.skip(nout as int));
                }
            }
            nin = nin + 1;
            if s == CoreState::EndFieldDelim || s == CoreState::EndRecord || s == CoreState::CRLF {
                let ghost eb = ends@;
                ends[nend] = self.output_pos + nout;
                nend = nend + 1;
                proof {
                    assert(ends@ == eb.update(nend - 1, (pos0 + nout) as usize));
                    assert forall|k: int| 0 <= k < ends@.len() - nend implies #[trigger] ends@.skip(
                        nend as int,
                    )[k] == old_ends.skip(nend as int)[k] by {
                        assert(eb.skip(nend - 1)[k + 1] == old_ends.skip(nend - 1)[k + 1]);
                    }
                    assert(ends@.skip(nend as int) =~= old_ends.skip(nend as int));
                }
                if s == CoreState::EndRecord || s == CoreState::CRLF {
                    done = true;
                }
            }
        }
        proof {
            assert(run_bounded(cfg, sc, input@.skip(nin as int), olen, elen) == sc);
            lemma_run_bounded_limits(cfg, scan_start(s0), input@, olen, elen);
        }
        self.state = state;
        let res = if done {
            ReadRecordResult::Record
        } else if nin < input.len() && nout >= output.len() {
            ReadRecordResult::OutputFull
        } else if nin < input.len() && nend >= ends.len() {
            ReadRecordResult::OutputEndsFull
        } else {
            ReadRecordResult::InputEmpty
        };
        if done {
            self.output_pos = 0;
        } else {
            self.output_pos = self.output_pos + nout;
        }
        proof {
            let o = read_outcome(cfg, s0, pos0, input@, olen, elen);
            assert(o.ends =~= sc.ends.map_values(|e: int| pos0 + e));
        }
        (res, nin, nout, nend)
    }
}

} // verus!
