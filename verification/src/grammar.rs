//! What the core parser makes of well-formed record text.
use vstd::prelude::*;

use crate::core_reader::{
    CoreConfig, CoreState, Scan, dfa_step, field_start_step, record_term_step, run, scan_byte,
    term_equals,
};

verus! {

/// A byte with no special meaning inside an unquoted field.
pub open spec fn plain_byte(cfg: CoreConfig, b: u8) -> bool {
    &&& b != cfg.delimiter
    &&& !(cfg.quoting && b == cfg.quote)
    &&& !term_equals(cfg.term, b)
}

/// Bytes that can stand in an unquoted field as they are.
pub open spec fn plain(cfg: CoreConfig, f: Seq<u8>) -> bool {
    forall|i: int| 0 <= i < f.len() ==> plain_byte(cfg, #[trigger] f[i])
}

/// Settings under which delimiter, quote and terminator bytes are distinct.
pub open spec fn sane(cfg: CoreConfig) -> bool {
    &&& !term_equals(cfg.term, cfg.delimiter)
    &&& !(cfg.quoting && cfg.quote == cfg.delimiter)
    &&& !(cfg.quoting && term_equals(cfg.term, cfg.quote))
}

/// In state `s`, the byte `c` is read as the first byte of a field.
pub open spec fn starts_field(cfg: CoreConfig, s: CoreState, c: u8) -> bool {
    ||| s == CoreState::StartField
    ||| s == CoreState::EndFieldDelim
    ||| {
        &&& (s == CoreState::StartRecord || s == CoreState::EndRecord || (s == CoreState::CRLF && c
            != 0x0a))
        &&& !term_equals(cfg.term, c)
        &&& cfg.comment != Some(c)
    }
}

/// `f` with every quote byte doubled.
pub open spec fn double_quotes(f: Seq<u8>, q: u8) -> Seq<u8>
    decreases f.len(),
{
    if f.len() == 0 {
        Seq::empty()
    } else {
        (if f[0] == q {
            seq![q, q]
        } else {
            seq![f[0]]
        }) + double_quotes(f.drop_first(), q)
    }
}

/// `f` in quotes, with inner quotes doubled.
pub open spec fn quoted(f: Seq<u8>, q: u8) -> Seq<u8> {
    seq![q] + double_quotes(f, q) + seq![q]
}

/// `e` is text that the parser reads as a field with content `f`: either `f`
/// itself, free of special bytes, or `f` quoted with inner quotes doubled.
pub open spec fn encodes(cfg: CoreConfig, e: Seq<u8>, f: Seq<u8>) -> bool {
    ||| (plain(cfg, e) && e == f)
    ||| (cfg.quoting && cfg.double_quote && cfg.escape is None && e == quoted(f, cfg.quote))
}

/// Field texts joined by the delimiter.
pub open spec fn join_fields(es: Seq<Seq<u8>>, d: u8) -> Seq<u8>
    decreases es.len(),
{
    if es.len() == 0 {
        Seq::empty()
    } else if es.len() == 1 {
        es[0]
    } else {
        es[0] + seq![d] + join_fields(es.drop_first(), d)
    }
}

/// Joining one more field text.
pub proof fn lemma_join_push(es: Seq<Seq<u8>>, e: Seq<u8>, d: u8)
    ensures
        join_fields(es.push(e), d) == if es.len() == 0 {
            e
        } else {
            join_fields(es, d) + seq![d] + e
        },
    decreases es.len(),
{
    if es.len() == 0 {
        assert(es.push(e).len() == 1);
    } else if es.len() == 1 {
        assert(es.push(e).drop_first() =~= seq![e]);
        assert(join_fields(seq![e], d) == e);
    } else {
        assert(es.push(e).drop_first() =~= es.drop_first().push(e));
        lemma_join_push(es.drop_first(), e, d);
        assert(es[0] + seq![d] + (join_fields(es.drop_first(), d) + seq![d] + e) =~= es[0] + seq![d]
            + join_fields(es.drop_first(), d) + seq![d] + e);
    }
}

/// Offsets, counted from `base`, at which each of the fields `fs` ends when
/// their contents are laid end to end.
pub open spec fn cumulative_ends(fs: Seq<Seq<u8>>, base: int) -> Seq<int> {
    Seq::new(fs.len(), |i: int| base + fs.take(i + 1).flatten().len())
}

/// The progress after a field's content `f` and the byte `x` that closes it.
pub open spec fn after_field(cfg: CoreConfig, st: Scan, elen: nat, f: Seq<u8>, x: u8) -> Scan {
    Scan {
        state: if x == cfg.delimiter {
            CoreState::EndFieldDelim
        } else {
            record_term_step(cfg, x).0
        },
        out: st.out + f,
        ends: st.ends.push((st.out.len() + f.len()) as int),
        done: x != cfg.delimiter,
        nin: st.nin + elen + 1,
    }
}

proof fn lemma_starts_field_step(cfg: CoreConfig, s: CoreState, c: u8)
    requires
        starts_field(cfg, s, c),
    ensures
        dfa_step(cfg, s, c) == field_start_step(cfg, c),
{
}

/// Plain bytes inside an unquoted field are copied one by one.
proof fn lemma_run_plain(cfg: CoreConfig, st: Scan, g: Seq<u8>, rest: Seq<u8>)
    requires
        st.state == CoreState::InField,
        !st.done,
        plain(cfg, g),
    ensures
        run(cfg, st, g + rest) == run(
            cfg,
            Scan { state: CoreState::InField, out: st.out + g, ends: st.ends, done: false, nin: st.nin + g.len() },
            rest,
        ),
    decreases g.len(),
{
    if g.len() == 0 {
        assert(g + rest =~= rest);
        assert(st.out + g =~= st.out);
    } else {
        assert(plain_byte(cfg, g[0]));
        let st1 = scan_byte(cfg, st, g[0]);
        assert(st1 == Scan { state: CoreState::InField, out: st.out.push(g[0]), ends: st.ends, done: false, nin: st.nin + 1 });
        assert((g + rest)[0] == g[0]);
        assert((g + rest).drop_first() =~= g.drop_first() + rest);
        assert(plain(cfg, g.drop_first())) by {
            assert forall|i: int| 0 <= i < g.drop_first().len() implies plain_byte(cfg, #[trigger] g.drop_first()[i]) by {
                assert(g.drop_first()[i] == g[i + 1]);
            }
        }
        lemma_run_plain(cfg, st1, g.drop_first(), rest);
        assert(st.out.push(g[0]) + g.drop_first() =~= st.out + g);
    }
}

/// Inside a quoted field, doubled quotes are read back as single quotes and
/// other bytes are copied.
proof fn lemma_run_quoted(cfg: CoreConfig, st: Scan, f: Seq<u8>, rest: Seq<u8>)
    requires
        st.state == CoreState::InQuotedField,
        !st.done,
        cfg.quoting,
        cfg.double_quote,
        cfg.escape is None,
    ensures
        run(cfg, st, double_quotes(f, cfg.quote) + rest) == run(
            cfg,
            Scan {
                state: CoreState::InQuotedField,
                out: st.out + f,
                ends: st.ends,
                done: false,
                nin: st.nin + double_quotes(f, cfg.quote).len(),
            },
            rest,
        ),
    decreases f.len(),
{
    let q = cfg.quote;
    if f.len() == 0 {
        assert(double_quotes(f, q) + rest =~= rest);
        assert(st.out + f =~= st.out);
    } else {
        let tail = double_quotes(f.drop_first(), q);
        let st2 = Scan {
            state: CoreState::InQuotedField,
            out: st.out.push(f[0]),
            ends: st.ends,
            done: false,
            nin: st.nin + (if f[0] == q { 2nat } else { 1nat }),
        };
        if f[0] == q {
            let input = seq![q, q] + tail + rest;
            assert(double_quotes(f, q) + rest =~= input);
            let st1 = scan_byte(cfg, st, q);
            assert(st1.state == CoreState::InDoubleEscapedQuote);
            assert(scan_byte(cfg, st1, q) == st2);
            assert(input[0] == q);
            assert(input.drop_first()[0] == q);
            assert(input.drop_first().drop_first() =~= tail + rest);
            assert(run(cfg, st, input) == run(cfg, st1, input.drop_first()));
            assert(run(cfg, st1, input.drop_first()) == run(cfg, st2, tail + rest));
        } else {
            let input = seq![f[0]] + tail + rest;
            assert(double_quotes(f, q) + rest =~= input);
            assert(scan_byte(cfg, st, f[0]) == st2);
            assert(input[0] == f[0]);
            assert(input.drop_first() =~= tail + rest);
            assert(run(cfg, st, input) == run(cfg, st2, tail + rest));
        }
        lemma_run_quoted(cfg, st2, f.drop_first(), rest);
        assert(st.out.push(f[0]) + f.drop_first() =~= st.out + f);
        assert(double_quotes(f, q).len() == (if f[0] == q { 2int } else { 1int }) + tail.len());
    }
}

/// A run is unaffected by which field-starting state it begins in.
proof fn lemma_run_from_field_start(cfg: CoreConfig, st: Scan, input: Seq<u8>)
    requires
        !st.done,
        input.len() > 0,
        starts_field(cfg, st.state, input[0]),
    ensures
        run(cfg, st, input) == run(cfg, Scan { state: CoreState::StartField, ..st }, input),
{
    lemma_starts_field_step(cfg, st.state, input[0]);
    assert(scan_byte(cfg, st, input[0]) == scan_byte(
        cfg,
        Scan { state: CoreState::StartField, ..st },
        input[0],
    ));
}

/// One field's text followed by a delimiter or terminator byte.
pub proof fn lemma_run_field(
    cfg: CoreConfig,
    st: Scan,
    e: Seq<u8>,
    f: Seq<u8>,
    x: u8,
    rest: Seq<u8>,
)
    requires
        sane(cfg),
        encodes(cfg, e, f),
        !st.done,
        starts_field(cfg, st.state, (e + seq![x])[0]),
        x == cfg.delimiter || term_equals(cfg.term, x),
    ensures
        run(cfg, st, e + seq![x] + rest) == run(cfg, after_field(cfg, st, e.len(), f, x), rest),
{
    let input = e + seq![x] + rest;
    assert(input[0] == (e + seq![x])[0]);
    lemma_run_from_field_start(cfg, st, input);
    let s0 = Scan { state: CoreState::StartField, ..st };
    let fin = after_field(cfg, st, e.len(), f, x);
    if plain(cfg, e) && e == f {
        if e.len() == 0 {
            assert(input[0] == x);
            assert(scan_byte(cfg, s0, x) == fin) by {
                assert(st.out + f =~= st.out);
            }
            assert(input.drop_first() =~= rest);
            assert(run(cfg, s0, input) == run(cfg, fin, rest));
        } else {
            assert(plain_byte(cfg, e[0]));
            assert(input[0] == e[0]);
            let s1 = scan_byte(cfg, s0, e[0]);
            assert(s1 == Scan { state: CoreState::InField, out: st.out.push(e[0]), ends: st.ends, done: false, nin: st.nin + 1 });
            assert(input.drop_first() =~= e.drop_first() + (seq![x] + rest));
            assert(plain(cfg, e.drop_first())) by {
                assert forall|i: int| 0 <= i < e.drop_first().len() implies plain_byte(cfg, #[trigger] e.drop_first()[i]) by {
                    assert(e.drop_first()[i] == e[i + 1]);
                }
            }
            lemma_run_plain(cfg, s1, e.drop_first(), seq![x] + rest);
            let s2 = Scan { state: CoreState::InField, out: st.out.push(e[0]) + e.drop_first(), ends: st.ends, done: false, nin: st.nin + 1 + e.drop_first().len() };
            assert(st.out.push(e[0]) + e.drop_first() =~= st.out + f);
            assert(scan_byte(cfg, s2, x) == fin);
            assert((seq![x] + rest)[0] == x);
            assert((seq![x] + rest).drop_first() =~= rest);
            assert(run(cfg, s0, input) == run(cfg, s1, e.drop_first() + (seq![x] + rest)));
            assert(run(cfg, s2, seq![x] + rest) == run(cfg, fin, rest));
        }
    } else {
        let q = cfg.quote;
        assert(e == quoted(f, q));
        let dq = double_quotes(f, q);
        assert(input =~= seq![q] + (dq + (seq![q, x] + rest)));
        assert(input[0] == q);
        let s1 = scan_byte(cfg, s0, q);
        assert(s1 == Scan { state: CoreState::InQuotedField, out: st.out, ends: st.ends, done: false, nin: st.nin + 1 });
        assert(input.drop_first() =~= dq + (seq![q, x] + rest));
        lemma_run_quoted(cfg, s1, f, seq![q, x] + rest);
        let s2 = Scan { state: CoreState::InQuotedField, out: st.out + f, ends: st.ends, done: false, nin: st.nin + 1 + dq.len() };
        let s3 = scan_byte(cfg, s2, q);
        assert(s3 == Scan { state: CoreState::InDoubleEscapedQuote, out: st.out + f, ends: st.ends, done: false, nin: st.nin + 2 + dq.len() });
        assert(e.len() == dq.len() + 2);
        assert(scan_byte(cfg, s3, x) == fin);
        let r2 = seq![q, x] + rest;
        assert(r2[0] == q);
        assert(r2.drop_first()[0] == x);
        assert(r2.drop_first().drop_first() =~= rest);
        assert(run(cfg, s0, input) == run(cfg, s1, dq + r2));
        assert(run(cfg, s2, r2) == run(cfg, s3, r2.drop_first()));
        assert(run(cfg, s3, r2.drop_first()) == run(cfg, fin, rest));
    }
}

/// A whole record: field texts joined by the delimiter, then a terminator
/// byte. The parser produces exactly the encoded contents and stops after the
/// terminator.
pub proof fn lemma_run_record(
    cfg: CoreConfig,
    st: Scan,
    es: Seq<Seq<u8>>,
    fs: Seq<Seq<u8>>,
    t: u8,
    rest: Seq<u8>,
)
    requires
        sane(cfg),
        es.len() == fs.len(),
        es.len() >= 1,
        forall|i: int| 0 <= i < es.len() ==> encodes(cfg, #[trigger] es[i], fs[i]),
        term_equals(cfg.term, t),
        !st.done,
        starts_field(cfg, st.state, (join_fields(es, cfg.delimiter) + seq![t])[0]),
    ensures
        run(cfg, st, join_fields(es, cfg.delimiter) + seq![t] + rest) == (Scan {
            state: record_term_step(cfg, t).0,
            out: st.out + fs.flatten(),
            ends: st.ends + cumulative_ends(fs, st.out.len() as int),
            done: true,
            nin: st.nin + join_fields(es, cfg.delimiter).len() + 1,
        }),
    decreases es.len(),
{
    let d = cfg.delimiter;
    if es.len() == 1 {
        assert(join_fields(es, d) == es[0]);
        lemma_run_field(cfg, st, es[0], fs[0], t, rest);
        let fin = after_field(cfg, st, es[0].len(), fs[0], t);
        assert(fs.drop_first() =~= Seq::<Seq<u8>>::empty());
        assert(fs.flatten() =~= fs[0]);
        assert(st.ends + cumulative_ends(fs, st.out.len() as int) =~= fin.ends) by {
            assert(fs.take(1) =~= fs);
        }
    } else {
        let tail_es = es.drop_first();
        let tail_fs = fs.drop_first();
        let jt = join_fields(tail_es, d);
        assert(join_fields(es, d) + seq![t] + rest =~= es[0] + seq![d] + (jt + seq![t] + rest));
        assert((join_fields(es, d) + seq![t])[0] == (es[0] + seq![d])[0]);
        lemma_run_field(cfg, st, es[0], fs[0], d, jt + seq![t] + rest);
        let st1 = after_field(cfg, st, es[0].len(), fs[0], d);
        assert forall|i: int| 0 <= i < tail_es.len() implies encodes(cfg, #[trigger] tail_es[i], tail_fs[i]) by {
            assert(tail_es[i] == es[i + 1]);
            assert(tail_fs[i] == fs[i + 1]);
        }
        lemma_run_record(cfg, st1, tail_es, tail_fs, t, rest);
        assert(st1.out + tail_fs.flatten() =~= st.out + fs.flatten());
        let b = st.out.len() as int;
        assert(st1.ends + cumulative_ends(tail_fs, st1.out.len() as int) =~= st.ends + cumulative_ends(fs, b)) by {
            assert forall|i: int| 0 <= i < fs.len() implies #[trigger] cumulative_ends(fs, b)[i] == (if i == 0 { b + fs[0].len() } else { (st1.out.len() + tail_fs.take(i).flatten().len()) as int }) by {
                if i == 0 {
                    lemma_flatten_split(fs, 0);
                    assert(fs.take(0) =~= Seq::<Seq<u8>>::empty());
                    assert(fs.take(1).flatten() =~= fs[0]);
                } else {
                    assert(fs.take(i + 1).drop_first() =~= tail_fs.take(i));
                    assert(fs.take(i + 1)[0] == fs[0]);
                }
            }
        }
        assert(jt.len() + es[0].len() + 1 == join_fields(es, d).len());
    }
}

/// The contents of the first `i` fields and the rest, laid end to end.
pub proof fn lemma_flatten_split(fs: Seq<Seq<u8>>, i: int)
    requires
        0 <= i <= fs.len(),
    ensures
        fs.flatten() == fs.take(i).flatten() + fs.skip(i).flatten(),
        i < fs.len() ==> fs.take(i + 1).flatten() == fs.take(i).flatten() + fs[i],
{
    assert(fs =~= fs.take(i) + fs.skip(i));
    vstd::seq_lib::lemma_flatten_concat(fs.take(i), fs.skip(i));
    if i < fs.len() {
        assert(fs.take(i + 1) =~= fs.take(i).push(fs[i]));
        fs.take(i).lemma_flatten_push(fs[i]);
    }
}

/// Laying the fields end to end and cutting at the cumulative offsets gives
/// the fields back.
pub proof fn lemma_cumulative_fields(fs: Seq<Seq<u8>>)
    requires
        fs.flatten().len() <= usize::MAX,
    ensures
        crate::byte_record::ends_wf(fs.flatten(), cumulative_ends(fs, 0).map_values(|e: int| e as usize)),
        crate::byte_record::fields_of(
            fs.flatten(),
            cumulative_ends(fs, 0).map_values(|e: int| e as usize),
        ) == fs,
{
    let flat = fs.flatten();
    let ce = cumulative_ends(fs, 0).map_values(|e: int| e as usize);
    assert forall|i: int| 0 <= i <= fs.len() implies #[trigger] fs.take(i).flatten().len() <= flat.len() by {
        lemma_flatten_split(fs, i);
    }
    assert forall|i: int| 0 <= i < fs.len() implies #[trigger] ce[i] == fs.take(i + 1).flatten().len() by {
        assert(fs.take(i + 1).flatten().len() <= flat.len());
    }
    assert forall|i: int, j: int| 0 <= i <= j < ce.len() implies ce[i] <= ce[j] by {
        lemma_flatten_split(fs.take(j + 1), i + 1);
        assert(fs.take(j + 1).take(i + 1) =~= fs.take(i + 1));
    }
    if fs.len() > 0 {
        assert(fs.take(fs.len() as int) =~= fs);
    } else {
        assert(flat.len() == 0);
    }
    assert forall|i: int| 0 <= i < fs.len() implies #[trigger] crate::byte_record::fields_of(flat, ce)[i] == fs[i] by {
        lemma_flatten_split(fs, i);
        lemma_flatten_split(fs, i + 1);
        let a = fs.take(i).flatten();
        assert(crate::byte_record::field_start(ce, i) == a.len()) by {
            if i > 0 {
                assert(ce[i - 1] == fs.take(i).flatten().len());
            } else {
                assert(fs.take(0) =~= Seq::<Seq<u8>>::empty());
            }
        }
        assert(flat == a + fs[i] + fs.skip(i + 1).flatten());
        assert(flat.subrange(a.len() as int, (a.len() + fs[i].len()) as int) =~= fs[i]);
    }
    assert(crate::byte_record::fields_of(flat, ce) =~= fs);
}

} // verus!
