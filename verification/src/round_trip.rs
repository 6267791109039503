//! What a reader gives back of what a writer wrote.
use vstd::prelude::*;

use crate::core_reader::{CoreConfig, CoreState, Terminator};
use crate::error::Error;
use crate::grammar::{
    double_quotes, encodes, join_fields, lemma_join_push, plain_byte, quoted, sane, starts_field,
};
use crate::reader::{ReaderView, lemma_read_encoded_record, spec_read_byte_record, trim_if, trims_fields};
use crate::writer::{
    QuoteStyle, WriterConfig, WriterView, encode_field, escape_quotes, requires_quotes,
    should_quote, spec_write_fields, spec_write_record, term_bytes,
};

verus! {

/// Writer and reader settings that agree on the text format: same delimiter
/// and quote, quotes doubled on both sides, the writer quoting wherever needed
/// and ending records with `\n` or `\r\n`, the reader taking any of `\r`,
/// `\n`, `\r\n` as a terminator and using no escape byte, both using the same
/// comment byte; delimiter, quote and comment distinct and neither delimiter
/// nor quote a line break.
pub open spec fn compatible(w: WriterConfig, r: CoreConfig) -> bool {
    &&& w.delimiter == r.delimiter
    &&& w.quote == r.quote
    &&& w.double_quote
    &&& w.style != QuoteStyle::Never
    &&& (w.term == Terminator::CRLF || w.term == Terminator::Any(0x0a))
    &&& r.quoting
    &&& r.double_quote
    &&& r.escape is None
    &&& r.term == Terminator::CRLF
    &&& r.comment == w.comment
    &&& r.delimiter != r.quote
    &&& r.delimiter != 0x0a && r.delimiter != 0x0d
    &&& r.quote != 0x0a && r.quote != 0x0d
    &&& (r.comment matches Some(c) ==> c != r.delimiter && c != r.quote)
}

/// The texts of the fields as the writer lays them out.
pub open spec fn encoded_fields(w: WriterConfig, fs: Seq<Seq<u8>>) -> Seq<Seq<u8>> {
    fs.map_values(|f: Seq<u8>| encode_field(w, f))
}

/// Writing fields from the start of a record lays their texts out joined by
/// the delimiter.
pub proof fn lemma_write_fields_join(v: WriterView, fs: Seq<Seq<u8>>)
    requires
        v.fields_written == 0,
        v.record_empty,
    ensures
        spec_write_fields(v, fs).out == v.out + join_fields(encoded_fields(v.cfg, fs), v.cfg.delimiter),
        spec_write_fields(v, fs).fields_written == fs.len(),
        spec_write_fields(v, fs).record_empty == (join_fields(encoded_fields(v.cfg, fs), v.cfg.delimiter).len() == 0),
        spec_write_fields(v, fs).cfg == v.cfg,
        spec_write_fields(v, fs).first_field_count == v.first_field_count,
    decreases fs.len(),
{
    let es = encoded_fields(v.cfg, fs);
    if fs.len() == 0 {
        assert(v.out + join_fields(es, v.cfg.delimiter) =~= v.out);
    } else {
        let init = fs.drop_last();
        lemma_write_fields_join(v, init);
        let ei = encoded_fields(v.cfg, init);
        assert(es =~= ei.push(encode_field(v.cfg, fs.last())));
        lemma_join_push(ei, encode_field(v.cfg, fs.last()), v.cfg.delimiter);
        let w = spec_write_fields(v, init);
        if init.len() == 0 {
            assert(ei =~= Seq::<Seq<u8>>::empty());
            assert(w.out + Seq::<u8>::empty() + encode_field(v.cfg, fs.last()) =~= v.out + join_fields(es, v.cfg.delimiter));
        } else {
            assert(w.out + seq![v.cfg.delimiter] + encode_field(v.cfg, fs.last()) =~= v.out + join_fields(es, v.cfg.delimiter));
        }
    }
}

/// With doubled quotes, escaping is doubling.
pub proof fn lemma_escape_is_doubling(w: WriterConfig, f: Seq<u8>)
    requires
        w.double_quote,
    ensures
        escape_quotes(w, f) == double_quotes(f, w.quote),
    decreases f.len(),
{
    if f.len() > 0 {
        lemma_escape_is_doubling(w, f.drop_first());
    }
}

/// Each field's text is read back as the field.
pub proof fn lemma_field_text_encodes(w: WriterConfig, r: CoreConfig, f: Seq<u8>)
    requires
        compatible(w, r),
    ensures
        encodes(r, encode_field(w, f), f),
        !should_quote(w, f) ==> forall|i: int| 0 <= i < f.len() ==> !requires_quotes(w, #[trigger] f[i]),
{
    if should_quote(w, f) {
        lemma_escape_is_doubling(w, f);
        assert(encode_field(w, f) == quoted(f, r.quote));
    } else {
        assert(w.style == QuoteStyle::Necessary);
        assert forall|i: int| 0 <= i < f.len() implies plain_byte(r, #[trigger] f[i]) by {
            assert(!requires_quotes(w, f[i]));
        }
    }
}

/// The first byte the writer produces for a record starts a field for the
/// reader, even with a comment byte configured.
proof fn lemma_first_byte_starts_field(w: WriterConfig, r: CoreConfig, es: Seq<Seq<u8>>, fs: Seq<Seq<u8>>, t: u8)
    requires
        compatible(w, r),
        fs.len() >= 1,
        es == encoded_fields(w, fs),
        join_fields(es, w.delimiter).len() > 0,
    ensures
        starts_field(r, CoreState::StartRecord, (join_fields(es, w.delimiter) + seq![t])[0]),
{
    let d = w.delimiter;
    let j = join_fields(es, d);
    lemma_field_text_encodes(w, r, fs[0]);
    if es[0].len() > 0 {
        crate::etna::lemma_join_first(es, d);
        if should_quote(w, fs[0]) {
            assert(es[0][0] == w.quote);
        } else {
            assert(es[0] == fs[0]);
            assert(!requires_quotes(w, fs[0][0]));
        }
    } else {
        assert(es.len() > 1);
        assert(j =~= es[0] + seq![d] + join_fields(es.drop_first(), d));
        assert(j[0] == d);
    }
    assert((j + seq![t])[0] == j[0]);
}

/// A record written by a writer and read by a reader with compatible
/// settings comes back field for field. The writer must be at the start of
/// a record and accept the record's field count; the reader must be fresh,
/// without a header record, with the written text next in its input.
pub proof fn lemma_write_then_read(wv: WriterView, fs: Seq<Seq<u8>>, rv: ReaderView, rest: Seq<u8>)
    requires
        compatible(wv.cfg, rv.cfg),
        wv.fields_written == 0,
        wv.record_empty,
        fs.len() >= 1,
        !wv.cfg.flexible ==> (wv.first_field_count is None || wv.first_field_count == Some(fs.len() as u64)),
        fs.len() <= u64::MAX,
        !rv.eof,
        rv.headers is None,
        !rv.has_headers,
        rv.first_field_count is None,
        rv.state == CoreState::StartRecord,
        rv.pos <= rv.input.len() <= usize::MAX,
        rv.input.skip(rv.pos as int) == spec_write_record(wv, fs).0.out.skip(wv.out.len() as int) + rest,
    ensures
        spec_write_record(wv, fs).1 is Ok,
        spec_read_byte_record(rv).1 == trim_if(trims_fields(rv.trim), fs),
        spec_read_byte_record(rv).2 == Ok::<bool, Error>(true),
{
    let w = wv.cfg;
    let r = rv.cfg;
    let d = w.delimiter;
    let q = w.quote;
    let es = encoded_fields(w, fs);
    lemma_write_fields_join(wv, fs);
    let v1 = spec_write_fields(wv, fs);
    let j = join_fields(es, d);
    let written = spec_write_record(wv, fs).0.out;
    let empty_mark: Seq<u8> = if v1.record_empty { seq![q, q] } else { Seq::empty() };
    assert(written == wv.out + j + empty_mark + term_bytes(w.term));
    let es2 = if j.len() == 0 { seq![seq![q, q]] } else { es };
    let fs2 = if j.len() == 0 { seq![Seq::<u8>::empty()] } else { fs };
    assert forall|i: int| 0 <= i < es.len() implies encodes(r, #[trigger] es[i], fs[i]) by {
        lemma_field_text_encodes(w, r, fs[i]);
    }
    if j.len() == 0 {
        assert(fs.len() == 1) by {
            if fs.len() > 1 {
                assert(j =~= es[0] + seq![d] + join_fields(es.drop_first(), d));
            }
        }
        assert(es[0].len() == 0);
        assert(fs[0].len() == 0) by {
            lemma_field_text_encodes(w, r, fs[0]);
            if should_quote(w, fs[0]) {
                assert(es[0].len() >= 2);
            }
        }
        assert(fs[0] =~= Seq::<u8>::empty());
        assert(fs =~= fs2);
        assert(double_quotes(Seq::<u8>::empty(), q) =~= Seq::<u8>::empty());
        assert(encodes(r, seq![q, q], Seq::<u8>::empty())) by {
            assert(quoted(Seq::<u8>::empty(), q) =~= seq![q, q]);
        }
        assert(join_fields(es2, d) == seq![q, q]);
    } else {
        lemma_first_byte_starts_field(w, r, es, fs, 0x0d);
        lemma_first_byte_starts_field(w, r, es, fs, 0x0a);
    }
    let j2 = join_fields(es2, d);
    let (t, tail): (u8, Seq<u8>) = if w.term == Terminator::CRLF { (0x0du8, seq![0x0au8]) } else { (0x0au8, Seq::<u8>::empty()) };
    assert(written.skip(wv.out.len() as int) =~= j2 + seq![t] + tail) by {
        if j.len() == 0 {
            assert(j2 =~= seq![q, q]);
        }
    }
    assert(rv.input.skip(rv.pos as int) =~= j2 + seq![t] + (tail + rest));
    assert(starts_field(r, rv.state, (j2 + seq![t])[0])) by {
        if j.len() == 0 {
            assert((j2 + seq![t])[0] == q);
        }
    }
    assert(sane(r));
    lemma_read_encoded_record(rv, es2, fs2, t, tail + rest);
}

} // verus!
