//! Writing records as CSV text into memory.
use vstd::prelude::*;

use crate::core_reader::Terminator;
use crate::error::Error;

verus! {

/// When fields are put in quotes.
#[derive(Clone, Copy, PartialEq, Eq, Structural)]
pub enum QuoteStyle {
    /// Every field is quoted.
    Always,
    /// A field is quoted only when it holds a byte that needs quoting.
    Necessary,
    /// No field is quoted.
    Never,
}

/// Writer settings.
#[derive(Clone, Copy)]
pub struct WriterConfig {
    /// Byte between fields.
    pub delimiter: u8,
    /// Byte around quoted fields.
    pub quote: u8,
    /// Byte put before a quote inside a quoted field when quotes are not doubled.
    pub escape: u8,
    /// Whether a quote inside a quoted field is written twice.
    pub double_quote: bool,
    /// When fields are quoted.
    pub style: QuoteStyle,
    /// What ends a record.
    pub term: Terminator,
    /// The comment byte of the readers the output is meant for, if any.
    pub comment: Option<u8>,
    /// Whether records may have different numbers of fields.
    pub flexible: bool,
}

/// Default settings: `,` between fields, `"` for quotes, doubled quotes,
/// `\` as escape, quoting only where needed, `\n` after each record, no
/// comment byte, a fixed number of fields per record.
pub open spec fn default_writer_config() -> WriterConfig {
    WriterConfig {
        delimiter: 0x2c,
        quote: 0x22,
        escape: 0x5c,
        double_quote: true,
        style: QuoteStyle::Necessary,
        term: Terminator::Any(0x0a),
        comment: None,
        flexible: false,
    }
}

/// Bytes that force a field into quotes: the delimiter, the quote, the escape
/// when quotes are not doubled, the record terminator (with `\r` and `\n`
/// whenever the terminator is one of them), and the comment byte.
pub open spec fn requires_quotes(cfg: WriterConfig, b: u8) -> bool {
    ||| b == cfg.delimiter
    ||| b == cfg.quote
    ||| (!cfg.double_quote && b == cfg.escape)
    ||| match cfg.term {
        Terminator::CRLF => b == 0x0d || b == 0x0a,
        Terminator::Any(t) => if t == 0x0a || t == 0x0d {
            b == 0x0d || b == 0x0a
        } else {
            b == t
        },
    }
    ||| cfg.comment == Some(b)
}

/// Whether field `f` is written in quotes.
pub open spec fn should_quote(cfg: WriterConfig, f: Seq<u8>) -> bool {
    match cfg.style {
        QuoteStyle::Always => true,
        QuoteStyle::Never => false,
        QuoteStyle::Necessary => exists|i: int| 0 <= i < f.len() && requires_quotes(cfg, #[trigger] f[i]),
    }
}

/// The content of a quoted field: each quote is doubled, or preceded by the
/// escape byte when quotes are not doubled.
pub open spec fn escape_quotes(cfg: WriterConfig, f: Seq<u8>) -> Seq<u8>
    decreases f.len(),
{
    if f.len() == 0 {
        Seq::empty()
    } else {
        (if f[0] == cfg.quote {
            if cfg.double_quote {
                seq![cfg.quote, cfg.quote]
            } else {
                seq![cfg.escape, cfg.quote]
            }
        } else {
            seq![f[0]]
        }) + escape_quotes(cfg, f.drop_first())
    }
}

/// The text of field `f`.
pub open spec fn encode_field(cfg: WriterConfig, f: Seq<u8>) -> Seq<u8> {
    if should_quote(cfg, f) {
        seq![cfg.quote] + escape_quotes(cfg, f) + seq![cfg.quote]
    } else {
        f
    }
}

/// The bytes that end a record.
pub open spec fn term_bytes(t: Terminator) -> Seq<u8> {
    match t {
        Terminator::CRLF => seq![0x0du8, 0x0au8],
        Terminator::Any(b) => seq![b],
    }
}

/// Abstract state of a writer: its settings, the text written so far, the
/// fields written in the current record, whether the current record has no
/// text yet, and the field count of the first record.
pub ghost struct WriterView {
    pub cfg: WriterConfig,
    pub out: Seq<u8>,
    pub fields_written: nat,
    pub record_empty: bool,
    pub first_field_count: Option<u64>,
}

/// Writing one field: a delimiter first unless it is the record's first
/// field, then the field's text.
pub open spec fn spec_write_field(v: WriterView, f: Seq<u8>) -> WriterView {
    let delim: Seq<u8> = if v.fields_written > 0 {
        seq![v.cfg.delimiter]
    } else {
        Seq::empty()
    };
    let enc = encode_field(v.cfg, f);
    WriterView {
        out: v.out + delim + enc,
        fields_written: v.fields_written + 1,
        record_empty: v.record_empty && delim.len() == 0 && enc.len() == 0,
        ..v
    }
}

/// Writing fields one after another.
pub open spec fn spec_write_fields(v: WriterView, fs: Seq<Seq<u8>>) -> WriterView
    decreases fs.len(),
{
    if fs.len() == 0 {
        v
    } else {
        spec_write_field(spec_write_fields(v, fs.drop_last()), fs.last())
    }
}

/// Ending the current record. A record with no text at all is written as
/// two quotes so that it can be read back. A writer that is not flexible
/// refuses a record whose field count differs from the first record's.
pub open spec fn spec_write_terminator(v: WriterView) -> (WriterView, Result<(), Error>) {
    if !v.cfg.flexible && v.first_field_count is Some && v.first_field_count.unwrap()
        != v.fields_written {
        (
            v,
            Err(
                Error::UnequalLengths {
                    expected_len: v.first_field_count.unwrap(),
                    len: v.fields_written as u64,
                },
            ),
        )
    } else {
        let empty_mark: Seq<u8> = if v.record_empty {
            seq![v.cfg.quote, v.cfg.quote]
        } else {
            Seq::empty()
        };
        (
            WriterView {
                out: v.out + empty_mark + term_bytes(v.cfg.term),
                fields_written: 0,
                record_empty: true,
                first_field_count: if !v.cfg.flexible && v.first_field_count is None {
                    Some(v.fields_written as u64)
                } else {
                    v.first_field_count
                },
                ..v
            },
            Ok(()),
        )
    }
}

/// Writing a whole record.
pub open spec fn spec_write_record(v: WriterView, fs: Seq<Seq<u8>>) -> (WriterView, Result<(), Error>) {
    spec_write_terminator(spec_write_fields(v, fs))
}

/// Settings for a writer.
pub struct WriterBuilder {
    cfg: WriterConfig,
}

/// A writer of CSV records into an in-memory buffer.
pub struct Writer {
    cfg: WriterConfig,
    out: Vec<u8>,
    fields_written: u64,
    record_empty: bool,
    first_field_count: Option<u64>,
}

impl WriterBuilder {
    /// The settings.
    pub closed spec fn config(&self) -> WriterConfig {
        self.cfg
    }

    /// Default settings.
    pub fn new() -> (b: WriterBuilder)
        ensures
            b.config() == default_writer_config(),
    {
        WriterBuilder {
            cfg: WriterConfig {
                delimiter: 0x2cu8,
                quote: 0x22u8,
                escape: 0x5cu8,
                double_quote: true,
                style: QuoteStyle::Necessary,
                term: Terminator::Any(0x0au8),
                comment: None,
                flexible: false,
            },
        }
    }

    /// The byte between fields.
    pub fn delimiter(self, d: u8) -> (b: WriterBuilder)
        ensures
            b.config() == (WriterConfig { delimiter: d, ..self.config() }),
    {
        WriterBuilder { cfg: WriterConfig { delimiter: d, ..self.cfg } }
    }

    /// The quote byte.
    pub fn quote(self, q: u8) -> (b: WriterBuilder)
        ensures
            b.config() == (WriterConfig { quote: q, ..self.config() }),
    {
        WriterBuilder { cfg: WriterConfig { quote: q, ..self.cfg } }
    }

    /// The escape byte.
    pub fn escape(self, e: u8) -> (b: WriterBuilder)
        ensures
            b.config() == (WriterConfig { escape: e, ..self.config() }),
    {
        WriterBuilder { cfg: WriterConfig { escape: e, ..self.cfg } }
    }

    /// Whether quotes inside quoted fields are doubled.
    pub fn double_quote(self, yes: bool) -> (b: WriterBuilder)
        ensures
            b.config() == (WriterConfig { double_quote: yes, ..self.config() }),
    {
        WriterBuilder { cfg: WriterConfig { double_quote: yes, ..self.cfg } }
    }

    /// When fields are quoted.
    pub fn quote_style(self, style: QuoteStyle) -> (b: WriterBuilder)
        ensures
            b.config() == (WriterConfig { style: style, ..self.config() }),
    {
        WriterBuilder { cfg: WriterConfig { style, ..self.cfg } }
    }

    /// What ends a record.
    pub fn terminator(self, t: Terminator) -> (b: WriterBuilder)
        ensures
            b.config() == (WriterConfig { term: t, ..self.config() }),
    {
        WriterBuilder { cfg: WriterConfig { term: t, ..self.cfg } }
    }

    /// The comment byte of the intended readers; fields holding it are quoted.
    pub fn comment(self, c: Option<u8>) -> (b: WriterBuilder)
        ensures
            b.config() == (WriterConfig { comment: c, ..self.config() }),
    {
        WriterBuilder { cfg: WriterConfig { comment: c, ..self.cfg } }
    }

    /// Whether records may have different numbers of fields.
    pub fn flexible(self, yes: bool) -> (b: WriterBuilder)
        ensures
            b.config() == (WriterConfig { flexible: yes, ..self.config() }),
    {
        WriterBuilder { cfg: WriterConfig { flexible: yes, ..self.cfg } }
    }

    /// A writer with these settings whose output starts as `buf`.
    pub fn from_writer(&self, buf: Vec<u8>) -> (w: Writer)
        ensures
            w.view() == (WriterView {
                cfg: self.config(),
                out: buf@,
                fields_written: 0,
                record_empty: true,
                first_field_count: None,
            }),
    {
        Writer { cfg: self.cfg, out: buf, fields_written: 0, record_empty: true, first_field_count: None }
    }
}

fn byte_requires_quotes(cfg: &WriterConfig, b: u8) -> (r: bool)
    ensures
        r == requires_quotes(*cfg, b),
{
    if b == cfg.delimiter || b == cfg.quote {
        return true;
    }
    if !cfg.double_quote && b == cfg.escape {
        return true;
    }
    let term_hit = match cfg.term {
        Terminator::CRLF => b == 0x0du8 || b == 0x0au8,
        Terminator::Any(t) => if t == 0x0au8 || t == 0x0du8 {
            b == 0x0du8 || b == 0x0au8
        } else {
            b == t
        },
    };
    if term_hit {
        return true;
    }
    match cfg.comment {
        Some(c) => b == c,
        None => false,
    }
}

fn field_needs_quotes(cfg: &WriterConfig, f: &[u8]) -> (r: bool)
    ensures
        r == should_quote(*cfg, f@),
{
    match cfg.style {
        QuoteStyle::Always => true,
        QuoteStyle::Never => false,
        QuoteStyle::Necessary => {
            let mut i: usize = 0;
            while i < f.len()
                invariant
                    i <= f@.len(),
                    cfg.style == QuoteStyle::Necessary,
                    forall|j: int| 0 <= j < i ==> !requires_quotes(*cfg, #[trigger] f@[j]),
                decreases f@.len() - i,
            {
                if byte_requires_quotes(cfg, f[i]) {
                    assert(requires_quotes(*cfg, f@[i as int]));
                    return true;
                }
                i = i + 1;
            }
            false
        },
    }
}

impl Writer {
    /// Abstract state.
    pub closed spec fn view(&self) -> WriterView {
        WriterView {
            cfg: self.cfg,
            out: self.out@,
            fields_written: self.fields_written as nat,
            record_empty: self.record_empty,
            first_field_count: self.first_field_count,
        }
    }

    /// Writes one field of the current record.
    pub fn write_field(&mut self, f: &[u8])
        requires
            old(self).view().fields_written < u64::MAX,
        ensures
            final(self).view() == spec_write_field(old(self).view(), f@),
    {
        let ghost v0 = self.view();
        let ghost delim: Seq<u8> = if v0.fields_written > 0 {
            seq![v0.cfg.delimiter]
        } else {
            Seq::empty()
        };
        if self.fields_written > 0 {
            self.out.push(self.cfg.delimiter);
            self.record_empty = false;
        }
        assert(self.out@ == v0.out + delim);
        let ghost base = self.out@;
        if field_needs_quotes(&self.cfg, f) {
            let q = self.cfg.quote;
            self.out.push(q);
            let mut i: usize = 0;
            while i < f.len()
                invariant
                    i <= f@.len(),
                    self.cfg == v0.cfg,
                    self.fields_written == v0.fields_written,
                    self.first_field_count == v0.first_field_count,
                    !self.record_empty || (v0.record_empty && delim.len() == 0),
                    q == v0.cfg.quote,
                    self.out@ == base + seq![q] + escape_quotes(v0.cfg, f@.take(i as int)),
                decreases f@.len() - i,
            {
                let b = f[i];
                if b == q {
                    if self.cfg.double_quote {
                        self.out.push(q);
                        self.out.push(q);
                    } else {
                        self.out.push(self.cfg.escape);
                        self.out.push(q);
                    }
                } else {
                    self.out.push(b);
                }
                proof {
                    lemma_escape_push(v0.cfg, f@.take(i as int), b);
                    assert(f@.take(i + 1) =~= f@.take(i as int).push(b));
                }
                i = i + 1;
            }
            self.out.push(q);
            self.record_empty = false;
            proof {
                assert(f@.take(i as int) =~= f@);
                assert(self.out@ =~= v0.out + delim + encode_field(v0.cfg, f@));
            }
        } else {
            let mut i: usize = 0;
            while i < f.len()
                invariant
                    i <= f@.len(),
                    self.cfg == v0.cfg,
                    self.fields_written == v0.fields_written,
                    self.first_field_count == v0.first_field_count,
                    self.record_empty == (v0.record_empty && delim.len() == 0),
                    self.out@ == base + f@.take(i as int),
                decreases f@.len() - i,
            {
                self.out.push(f[i]);
                i = i + 1;
                assert(f@.take(i as int) =~= f@.take(i - 1).push(f@[i - 1]));
            }
            if f.len() > 0 {
                self.record_empty = false;
            }
            proof {
                assert(f@.take(i as int) =~= f@);
            }
        }
        self.fields_written = self.fields_written + 1;
    }

    /// Ends the current record.
    pub fn write_terminator(&mut self) -> (r: Result<(), Error>)
        ensures
            (final(self).view(), r) == spec_write_terminator(old(self).view()),
    {
        let ghost v0 = self.view();
        if !self.cfg.flexible {
            match self.first_field_count {
                None => {
                    self.first_field_count = Some(self.fields_written);
                },
                Some(e) => {
                    if e != self.fields_written {
                        return Err(Error::UnequalLengths { expected_len: e, len: self.fields_written });
                    }
                },
            }
        }
        if self.record_empty {
            self.out.push(self.cfg.quote);
            self.out.push(self.cfg.quote);
        }
        match self.cfg.term {
            Terminator::CRLF => {
                self.out.push(0x0du8);
                self.out.push(0x0au8);
            },
            Terminator::Any(b) => {
                self.out.push(b);
            },
        }
        self.fields_written = 0;
        self.record_empty = true;
        proof {
            let empty_mark: Seq<u8> = if v0.record_empty {
                seq![v0.cfg.quote, v0.cfg.quote]
            } else {
                Seq::empty()
            };
            assert(self.out@ =~= v0.out + empty_mark + term_bytes(v0.cfg.term));
        }
        Ok(())
    }

    /// Writes a whole record.
    pub fn write_record(&mut self, record: &Vec<Vec<u8>>) -> (r: Result<(), Error>)
        requires
            old(self).view().fields_written + record@.len() <= u64::MAX,
        ensures
            (final(self).view(), r) == spec_write_record(old(self).view(), record.deep_view()),
    {
        let ghost v0 = self.view();
        let ghost fs = record.deep_view();
        let mut i: usize = 0;
        proof {
            assert(fs.take(0) =~= Seq::<Seq<u8>>::empty());
        }
        while i < record.len()
            invariant
                i <= record@.len(),
                fs == record.deep_view(),
                v0.fields_written + record@.len() <= u64::MAX,
                self.view() == spec_write_fields(v0, fs.take(i as int)),
                self.view().fields_written == v0.fields_written + i,
            decreases record@.len() - i,
        {
            proof {
                lemma_write_fields_count(v0, fs.take(i as int));
                assert(record[i as int].deep_view() =~= record[i as int]@);
                assert(fs.take(i + 1).drop_last() =~= fs.take(i as int));
            }
            self.write_field(record[i].as_slice());
            i = i + 1;
        }
        proof {
            assert(fs.take(i as int) =~= fs);
        }
        self.write_terminator()
    }

    /// The text written so far.
    pub fn into_inner(self) -> (b: Vec<u8>)
        ensures
            b@ == self.view().out,
    {
        self.out
    }
}

/// Writing `k` fields adds `k` to the field count.
pub proof fn lemma_write_fields_count(v: WriterView, fs: Seq<Seq<u8>>)
    ensures
        spec_write_fields(v, fs).fields_written == v.fields_written + fs.len(),
        spec_write_fields(v, fs).cfg == v.cfg,
        spec_write_fields(v, fs).first_field_count == v.first_field_count,
    decreases fs.len(),
{
    if fs.len() > 0 {
        lemma_write_fields_count(v, fs.drop_last());
    }
}

/// Escaping one more byte.
pub proof fn lemma_escape_push(cfg: WriterConfig, f: Seq<u8>, b: u8)
    ensures
        escape_quotes(cfg, f.push(b)) == escape_quotes(cfg, f) + (if b == cfg.quote {
            if cfg.double_quote {
                seq![cfg.quote, cfg.quote]
            } else {
                seq![cfg.escape, cfg.quote]
            }
        } else {
            seq![b]
        }),
    decreases f.len(),
{
    if f.len() == 0 {
        assert(f.push(b).drop_first() =~= Seq::<u8>::empty());
        assert(escape_quotes(cfg, Seq::<u8>::empty()) == Seq::<u8>::empty());
    } else {
        assert(f.push(b).drop_first() =~= f.drop_first().push(b));
        lemma_escape_push(cfg, f.drop_first(), b);
        assert(f.push(b)[0] == f[0]);
    }
    let tail: Seq<u8> = if b == cfg.quote {
        if cfg.double_quote {
            seq![cfg.quote, cfg.quote]
        } else {
            seq![cfg.escape, cfg.quote]
        }
    } else {
        seq![b]
    };
    if f.len() > 0 {
        let h: Seq<u8> = if f[0] == cfg.quote {
            if cfg.double_quote {
                seq![cfg.quote, cfg.quote]
            } else {
                seq![cfg.escape, cfg.quote]
            }
        } else {
            seq![f[0]]
        };
        assert(h + (escape_quotes(cfg, f.drop_first()) + tail) =~= h + escape_quotes(cfg, f.drop_first()) + tail);
    } else {
        assert(escape_quotes(cfg, f) + tail =~= tail);
        assert(tail + Seq::<u8>::empty() =~= tail);
    }
}

} // verus!
