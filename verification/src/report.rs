//! What a property run reports: the work it did, its verdict, and the JSON
//! line that describes it.
use vstd::prelude::*;

use crate::etna::PropertyResult;
use vstd::std_specs::iter::IteratorSpec;

verus! {

broadcast use vstd::string::next_postcondition;

/// Work done by a property run: inputs tried and microseconds spent.
#[derive(Clone, Copy)]
pub struct Metrics {
    pub inputs: u64,
    pub elapsed_us: u128,
}

impl Metrics {
    /// The work of both runs together.
    pub fn combine(self, other: Metrics) -> (r: Metrics)
        requires
            self.inputs + other.inputs <= u64::MAX,
            self.elapsed_us + other.elapsed_us <= u128::MAX,
        ensures
            r.inputs == self.inputs + other.inputs,
            r.elapsed_us == self.elapsed_us + other.elapsed_us,
    {
        Metrics { inputs: self.inputs + other.inputs, elapsed_us: self.elapsed_us + other.elapsed_us }
    }
}

/// The verdict as a runner that only tells failures apart sees it: a pass
/// or a discard is `Ok`, a failure gives its message.
pub fn to_err(r: PropertyResult) -> (o: Result<(), String>)
    ensures
        r matches PropertyResult::Fail(m) ==> o == Err::<(), String>(m),
        !(r is Fail) ==> o == Ok::<(), String>(()),
{
    match r {
        PropertyResult::Pass | PropertyResult::Discard => Ok(()),
        PropertyResult::Fail(m) => Err(m),
    }
}

/// The verdict as `Some(true)` for a pass, `Some(false)` for a failure and
/// `None` for a discard.
pub fn to_opt(r: PropertyResult) -> (o: Option<bool>)
    ensures
        r is Pass ==> o == Some(true),
        r is Fail ==> o == Some(false),
        r is Discard ==> o is None,
{
    match r {
        PropertyResult::Pass => Some(true),
        PropertyResult::Fail(_) => Some(false),
        PropertyResult::Discard => None,
    }
}

/// Lowercase hexadecimal digits.
pub open spec fn hex_digits() -> Seq<char> {
    seq!['0', '1', '2', '3', '4', '5', '6', '7', '8', '9', 'a', 'b', 'c', 'd', 'e', 'f']
}

/// How one character is written inside a JSON string: `"` and `\` and the
/// line breaks and tab get a backslash escape, other control characters a
/// `\u00XX` escape, everything else stands for itself.
pub open spec fn json_escape_char(c: char) -> Seq<char> {
    if c == '"' {
        seq!['\\', '"']
    } else if c == '\\' {
        seq!['\\', '\\']
    } else if c == '\n' {
        seq!['\\', 'n']
    } else if c == '\r' {
        seq!['\\', 'r']
    } else if c == '\t' {
        seq!['\\', 't']
    } else if (c as u32) < 0x20 {
        seq!['\\', 'u', '0', '0', hex_digits()[((c as u32) / 16) as int], hex_digits()[((c as u32) % 16) as int]]
    } else {
        seq![c]
    }
}

/// The characters of `s`, each written as inside a JSON string.
pub open spec fn json_escape(s: Seq<char>) -> Seq<char>
    decreases s.len(),
{
    if s.len() == 0 {
        Seq::empty()
    } else {
        json_escape(s.drop_last()) + json_escape_char(s.last())
    }
}

/// `s` as a JSON string, quotes included.
pub open spec fn json_quote(s: Seq<char>) -> Seq<char> {
    seq!['"'] + json_escape(s) + seq!['"']
}

/// The value of a hexadecimal digit of either case.
pub open spec fn hex_value(c: char) -> Option<int> {
    if '0' <= c && c <= '9' {
        Some(c as int - '0' as int)
    } else if 'a' <= c && c <= 'f' {
        Some(c as int - 'a' as int + 10)
    } else if 'A' <= c && c <= 'F' {
        Some(c as int - 'A' as int + 10)
    } else {
        None
    }
}

/// `x` in front of the decoded rest, when the rest decodes.
pub open spec fn prepend(x: char, rest: Option<Seq<char>>) -> Option<Seq<char>> {
    match rest {
        Some(r) => Some(seq![x] + r),
        None => None,
    }
}

/// The character that a `\uXXXX` escape names, from the four digits after
/// `\u` at the start of `t`; surrogate values name none.
pub open spec fn unicode_escape(t: Seq<char>) -> Option<char> {
    match (hex_value(t[0]), hex_value(t[1]), hex_value(t[2]), hex_value(t[3])) {
        (Some(a), Some(b), Some(c), Some(d)) => {
            let v = a * 4096 + b * 256 + c * 16 + d;
            if 0xD800 <= v && v <= 0xDFFF {
                None
            } else {
                Some((v as u32) as char)
            }
        },
        _ => None,
    }
}

/// Decodes the text between the quotes of a JSON string: a backslash
/// starts one of the escapes `\"`, `\\`, `\/`, `\b`, `\f`, `\n`, `\r`, `\t`
/// or `\uXXXX`; any other character stands for itself, except an unescaped
/// quote or control character, which makes the text invalid (`None`).
/// Surrogate pairs are not decoded.
pub open spec fn json_unescape(t: Seq<char>) -> Option<Seq<char>>
    decreases t.len(),
{
    if t.len() == 0 {
        Some(Seq::empty())
    } else if t[0] == '\\' {
        if t.len() < 2 {
            None
        } else if t[1] == '"' || t[1] == '\\' || t[1] == '/' {
            prepend(t[1], json_unescape(t.skip(2)))
        } else if t[1] == 'b' {
            prepend('\u{8}', json_unescape(t.skip(2)))
        } else if t[1] == 'f' {
            prepend('\u{c}', json_unescape(t.skip(2)))
        } else if t[1] == 'n' {
            prepend('\n', json_unescape(t.skip(2)))
        } else if t[1] == 'r' {
            prepend('\r', json_unescape(t.skip(2)))
        } else if t[1] == 't' {
            prepend('\t', json_unescape(t.skip(2)))
        } else if t[1] == 'u' && t.len() >= 6 {
            match unicode_escape(t.subrange(2, 6)) {
                Some(x) => prepend(x, json_unescape(t.skip(6))),
                None => None,
            }
        } else {
            None
        }
    } else if t[0] == '"' || (t[0] as u32) < 0x20 {
        None
    } else {
        prepend(t[0], json_unescape(t.skip(1)))
    }
}

/// Reads a JSON string literal: a quote, escaped text, a quote.
pub open spec fn json_decode_string(t: Seq<char>) -> Option<Seq<char>> {
    if t.len() >= 2 && t[0] == '"' && t.last() == '"' {
        json_unescape(t.subrange(1, t.len() - 1))
    } else {
        None
    }
}

/// A lowercase hexadecimal digit has the value of its position.
pub proof fn lemma_hex_digit_value(d: int)
    requires
        0 <= d < 16,
    ensures
        hex_value(hex_digits()[d]) == Some(d),
        (hex_digits()[d] as u32) >= 0x20,
{
    let h = hex_digits();
    if d == 0 { assert(h[0] == '0'); }
    else if d == 1 { assert(h[1] == '1'); }
    else if d == 2 { assert(h[2] == '2'); }
    else if d == 3 { assert(h[3] == '3'); }
    else if d == 4 { assert(h[4] == '4'); }
    else if d == 5 { assert(h[5] == '5'); }
    else if d == 6 { assert(h[6] == '6'); }
    else if d == 7 { assert(h[7] == '7'); }
    else if d == 8 { assert(h[8] == '8'); }
    else if d == 9 { assert(h[9] == '9'); }
    else if d == 10 { assert(h[10] == 'a'); }
    else if d == 11 { assert(h[11] == 'b'); }
    else if d == 12 { assert(h[12] == 'c'); }
    else if d == 13 { assert(h[13] == 'd'); }
    else if d == 14 { assert(h[14] == 'e'); }
    else { assert(h[15] == 'f'); }
}

/// Escaping text with one more character in front.
pub proof fn lemma_escape_prepend(c: char, s: Seq<char>)
    ensures
        json_escape(seq![c] + s) == json_escape_char(c) + json_escape(s),
    decreases s.len(),
{
    let t = seq![c] + s;
    assert(json_escape(t) == json_escape(t.drop_last()) + json_escape_char(t.last()));
    if s.len() == 0 {
        assert(t.drop_last() =~= Seq::<char>::empty());
        assert(t.last() == c);
        assert(json_escape(s) =~= Seq::<char>::empty());
        assert(json_escape(Seq::<char>::empty()) =~= Seq::<char>::empty());
        assert(json_escape_char(c) + Seq::<char>::empty() =~= json_escape_char(c));
        assert(Seq::<char>::empty() + json_escape_char(c) =~= json_escape_char(c));
    } else {
        assert(t.drop_last() =~= seq![c] + s.drop_last());
        assert(t.last() == s.last());
        assert(json_escape(s) == json_escape(s.drop_last()) + json_escape_char(s.last()));
        lemma_escape_prepend(c, s.drop_last());
        assert(json_escape_char(c) + json_escape(s.drop_last()) + json_escape_char(s.last())
            =~= json_escape_char(c) + (json_escape(s.drop_last()) + json_escape_char(s.last())));
    }
}

/// One escaped character in front of escaped text decodes to that
/// character in front of the text's decoding.
proof fn lemma_unescape_char(c: char, e: Seq<char>)
    ensures
        json_unescape(json_escape_char(c) + e) == prepend(c, json_unescape(e)),
{
    let t = json_escape_char(c) + e;
    if c == '"' || c == '\\' || c == '\n' || c == '\r' || c == '\t' {
        assert(t.skip(2) =~= e);
    } else if (c as u32) < 0x20 {
        let n = c as u32;
        lemma_hex_digit_value((n / 16) as int);
        lemma_hex_digit_value((n % 16) as int);
        assert(t.skip(6) =~= e);
        let u = t.subrange(2, 6);
        assert(u[0] == '0' && u[1] == '0');
        assert(hex_value('0') == Some(0int));
        assert(u[2] == hex_digits()[(n / 16) as int]);
        assert(u[3] == hex_digits()[(n % 16) as int]);
        let v = 0int * 4096 + 0 * 256 + (n / 16) as int * 16 + (n % 16) as int;
        assert(v == n as int);
        assert(unicode_escape(u) == Some((v as u32) as char));
        assert((v as u32) == n);
        vstd::utf8::char_u32_cast(c, n);
        assert(unicode_escape(u) == Some(c));
    } else {
        assert(t.skip(1) =~= e);
    }
}

/// Decoding undoes escaping.
pub proof fn lemma_json_unescape_escape(s: Seq<char>)
    ensures
        json_unescape(json_escape(s)) == Some(s),
    decreases s.len(),
{
    if s.len() == 0 {
        assert(json_escape(s) =~= Seq::<char>::empty());
    } else {
        let rest = s.drop_first();
        assert(s =~= seq![s[0]] + rest);
        lemma_escape_prepend(s[0], rest);
        lemma_json_unescape_escape(rest);
        lemma_unescape_char(s[0], json_escape(rest));
        assert(seq![s[0]] + rest =~= s);
    }
}

/// Escaped text holds no control character.
pub proof fn lemma_escape_no_control(s: Seq<char>)
    ensures
        forall|i: int| 0 <= i < json_escape(s).len() ==> (#[trigger] json_escape(s)[i] as u32) >= 0x20,
    decreases s.len(),
{
    if s.len() > 0 {
        lemma_escape_no_control(s.drop_last());
        let c = s.last();
        let a = json_escape(s.drop_last());
        let b = json_escape_char(c);
        if (c as u32) < 0x20 && c != '\n' && c != '\r' && c != '\t' {
            let n = c as u32;
            lemma_hex_digit_value((n / 16) as int);
            lemma_hex_digit_value((n % 16) as int);
        }
        assert forall|k: int| 0 <= k < b.len() implies (#[trigger] b[k] as u32) >= 0x20 by {}
        assert forall|i: int| 0 <= i < json_escape(s).len() implies (#[trigger] json_escape(s)[i] as u32) >= 0x20 by {
            if i < a.len() {
                assert(json_escape(s)[i] == a[i]);
            } else {
                assert(json_escape(s)[i] == b[i - a.len()]);
            }
        }
    }
}

/// A text written as a JSON string reads back as that text, and the
/// string holds no control character.
pub proof fn lemma_json_str_round_trip(s: Seq<char>)
    ensures
        json_decode_string(json_quote(s)) == Some(s),
        forall|i: int| 0 <= i < json_quote(s).len() ==> (#[trigger] json_quote(s)[i] as u32) >= 0x20,
{
    let q = json_quote(s);
    let e = json_escape(s);
    assert(q.subrange(1, q.len() - 1) =~= e);
    lemma_json_unescape_escape(s);
    lemma_escape_no_control(s);
    assert forall|i: int| 0 <= i < q.len() implies (#[trigger] q[i] as u32) >= 0x20 by {
        if 0 < i < q.len() - 1 {
            assert(q[i] == e[i - 1]);
        }
    }
}

/// A JSON value of the kinds that a report line holds.
pub ghost enum JsonValue {
    Str(Seq<char>),
    Num(nat),
    Null,
}

/// One escape sequence at the start of `t` (which starts with a
/// backslash): the character it stands for and its length.
pub open spec fn escape_at(t: Seq<char>) -> Option<(char, nat)> {
    if t.len() < 2 || t[0] != '\\' {
        None
    } else if t[1] == '"' || t[1] == '\\' || t[1] == '/' {
        Some((t[1], 2))
    } else if t[1] == 'b' {
        Some(('\u{8}', 2))
    } else if t[1] == 'f' {
        Some(('\u{c}', 2))
    } else if t[1] == 'n' {
        Some(('\n', 2))
    } else if t[1] == 'r' {
        Some(('\r', 2))
    } else if t[1] == 't' {
        Some(('\t', 2))
    } else if t[1] == 'u' && t.len() >= 6 {
        match unicode_escape(t.subrange(2, 6)) {
            Some(x) => Some((x, 6)),
            None => None,
        }
    } else {
        None
    }
}

/// The text of a JSON string after its opening quote, read up to and
/// including the closing quote: the decoded text and the characters read.
pub open spec fn string_rest(t: Seq<char>) -> Option<(Seq<char>, nat)>
    decreases t.len(),
{
    if t.len() == 0 {
        None
    } else if t[0] == '"' {
        Some((Seq::empty(), 1))
    } else if t[0] == '\\' {
        match escape_at(t) {
            Some((x, k)) => if 0 < k <= t.len() {
                match string_rest(t.skip(k as int)) {
                    Some((r, n)) => Some((seq![x] + r, n + k)),
                    None => None,
                }
            } else {
                None
            },
            None => None,
        }
    } else if (t[0] as u32) < 0x20 {
        None
    } else {
        match string_rest(t.skip(1)) {
            Some((r, n)) => Some((seq![t[0]] + r, n + 1)),
            None => None,
        }
    }
}

/// A JSON string at the start of `t`: its text and its length, quotes
/// included.
#[verifier::opaque]
pub open spec fn string_token(t: Seq<char>) -> Option<(Seq<char>, nat)> {
    if t.len() > 0 && t[0] == '"' {
        match string_rest(t.skip(1)) {
            Some((r, n)) => Some((r, n + 1)),
            None => None,
        }
    } else {
        None
    }
}

/// Whether `c` is an ASCII digit.
pub open spec fn is_digit(c: char) -> bool {
    '0' <= c && c <= '9'
}

/// How many ASCII digits `t` starts with.
pub open spec fn digits_len(t: Seq<char>) -> nat
    decreases t.len(),
{
    if t.len() > 0 && is_digit(t[0]) {
        1 + digits_len(t.skip(1))
    } else {
        0
    }
}

/// The number that the digits `d` write in decimal.
pub open spec fn digits_value(d: Seq<char>) -> nat
    decreases d.len(),
{
    if d.len() == 0 {
        0
    } else {
        digits_value(d.drop_last()) * 10 + (d.last() as int - '0' as int) as nat
    }
}

/// A JSON value at the start of `t`: a string, `null`, or a number written
/// as decimal digits; with the characters it takes.
#[verifier::opaque]
pub open spec fn value_token(t: Seq<char>) -> Option<(JsonValue, nat)> {
    if t.len() > 0 && t[0] == '"' {
        match string_token(t) {
            Some((s, n)) => Some((JsonValue::Str(s), n)),
            None => None,
        }
    } else if t.len() >= 4 && t.take(4) == seq!['n', 'u', 'l', 'l'] {
        Some((JsonValue::Null, 4))
    } else if digits_len(t) > 0 {
        Some((JsonValue::Num(digits_value(t.take(digits_len(t) as int))), digits_len(t)))
    } else {
        None
    }
}

/// The members of a JSON object after its opening brace, up to and
/// including the closing brace that ends the text: each a string key, a
/// colon and a value, separated by commas.
#[verifier::opaque]
pub open spec fn object_members(t: Seq<char>) -> Option<Seq<(Seq<char>, JsonValue)>>
    decreases t.len(),
{
    match string_token(t) {
        None => None,
        Some((key, n)) => if n < t.len() && t[n as int] == ':' {
            match value_token(t.skip((n + 1) as int)) {
                None => None,
                Some((v, m)) => if n + 1 + m < t.len() {
                    let after = t.skip((n + 1 + m) as int);
                    if after == seq!['}'] {
                        Some(seq![(key, v)])
                    } else if after[0] == ',' {
                        match object_members(after.skip(1)) {
                            Some(ms) => Some(seq![(key, v)] + ms),
                            None => None,
                        }
                    } else {
                        None
                    }
                } else {
                    None
                },
            }
        } else {
            None
        },
    }
}

/// Reads `t` as a JSON object: its members in order.
pub open spec fn parse_object(t: Seq<char>) -> Option<Seq<(Seq<char>, JsonValue)>> {
    if t.len() > 0 && t[0] == '{' {
        object_members(t.skip(1))
    } else {
        None
    }
}

/// An optional text as a JSON value: a string, or null.
pub open spec fn opt_value(s: Option<Seq<char>>) -> JsonValue {
    match s {
        None => JsonValue::Null,
        Some(t) => JsonValue::Str(t),
    }
}

/// `x` in front of a decoded string rest, `k` more characters read.
pub open spec fn rest_prepend(x: char, k: nat, r: Option<(Seq<char>, nat)>) -> Option<(Seq<char>, nat)> {
    match r {
        Some((t, n)) => Some((seq![x] + t, n + k)),
        None => None,
    }
}

proof fn lemma_string_rest_char(c: char, e: Seq<char>)
    ensures
        string_rest(json_escape_char(c) + e) == rest_prepend(c, json_escape_char(c).len(), string_rest(e)),
{
    let t = json_escape_char(c) + e;
    if c == '"' || c == '\\' || c == '\n' || c == '\r' || c == '\t' {
        assert(t.skip(2) =~= e);
        assert(escape_at(t) == Some((c, 2nat)));
    } else if (c as u32) < 0x20 {
        let n = c as u32;
        lemma_hex_digit_value((n / 16) as int);
        lemma_hex_digit_value((n % 16) as int);
        assert(t.skip(6) =~= e);
        let u = t.subrange(2, 6);
        assert(u[0] == '0' && u[1] == '0');
        assert(hex_value('0') == Some(0int));
        assert(u[2] == hex_digits()[(n / 16) as int]);
        assert(u[3] == hex_digits()[(n % 16) as int]);
        let v = 0int * 4096 + 0 * 256 + (n / 16) as int * 16 + (n % 16) as int;
        assert(v == n as int);
        assert((v as u32) == n);
        vstd::utf8::char_u32_cast(c, n);
        assert(unicode_escape(u) == Some(c));
        assert(escape_at(t) == Some((c, 6nat)));
    } else {
        assert(t.skip(1) =~= e);
    }
}

/// The escaped text of `s` and a closing quote read back as `s`.
proof fn lemma_string_rest_escape(s: Seq<char>, rest: Seq<char>)
    ensures
        string_rest(json_escape(s) + seq!['"'] + rest) == Some((s, json_escape(s).len() + 1)),
    decreases s.len(),
{
    if s.len() == 0 {
        assert(json_escape(s) =~= Seq::<char>::empty());
        assert((json_escape(s) + seq!['"'] + rest)[0] == '"');
    } else {
        let c = s[0];
        let tail = s.drop_first();
        assert(s =~= seq![c] + tail);
        lemma_escape_prepend(c, tail);
        lemma_string_rest_escape(tail, rest);
        let e = json_escape(tail) + seq!['"'] + rest;
        lemma_string_rest_char(c, e);
        assert(json_escape(s) + seq!['"'] + rest =~= json_escape_char(c) + e);
        assert(seq![c] + tail =~= s);
    }
}

/// A JSON string that `json_quote` wrote reads back as its text, whatever
/// follows it.
pub proof fn lemma_string_token_quote(s: Seq<char>, rest: Seq<char>)
    ensures
        string_token(json_quote(s) + rest) == Some((s, json_quote(s).len())),
{
    reveal(string_token);
    let t = json_quote(s) + rest;
    assert(t.skip(1) =~= json_escape(s) + seq!['"'] + rest);
    lemma_string_rest_escape(s, rest);
}

/// A decimal digit has the value of its position.
proof fn lemma_decimal_digit(d: int)
    requires
        0 <= d < 10,
    ensures
        is_digit(decimal_digits()[d]),
        decimal_digits()[d] as int - '0' as int == d,
{
    let h = decimal_digits();
    if d == 0 { assert(h[0] == '0'); }
    else if d == 1 { assert(h[1] == '1'); }
    else if d == 2 { assert(h[2] == '2'); }
    else if d == 3 { assert(h[3] == '3'); }
    else if d == 4 { assert(h[4] == '4'); }
    else if d == 5 { assert(h[5] == '5'); }
    else if d == 6 { assert(h[6] == '6'); }
    else if d == 7 { assert(h[7] == '7'); }
    else if d == 8 { assert(h[8] == '8'); }
    else { assert(h[9] == '9'); }
}

/// `n` written in decimal is a nonempty run of digits whose value is `n`.
pub proof fn lemma_decimal_reads_back(n: nat)
    ensures
        decimal(n).len() > 0,
        forall|i: int| 0 <= i < decimal(n).len() ==> is_digit(#[trigger] decimal(n)[i]),
        digits_value(decimal(n)) == n,
    decreases n,
{
    if n < 10 {
        lemma_decimal_digit(n as int);
        assert(decimal(n) == seq![decimal_digits()[n as int]]);
        assert(decimal(n).last() == decimal_digits()[n as int]);
        assert(decimal(n).drop_last() =~= Seq::<char>::empty());
        assert(digits_value(decimal(n).drop_last()) == 0);
    } else {
        lemma_decimal_reads_back(n / 10);
        lemma_decimal_digit((n % 10) as int);
        let d = decimal(n);
        assert(d.drop_last() =~= decimal(n / 10));
        assert forall|i: int| 0 <= i < d.len() implies is_digit(#[trigger] d[i]) by {
            if i < d.len() - 1 {
                assert(d[i] == decimal(n / 10)[i]);
            }
        }
        assert(d.last() == decimal_digits()[(n % 10) as int]);
        assert(digits_value(d) == (n / 10) * 10 + n % 10);
    }
}

/// A run of digits followed by something that is not a digit is read as
/// exactly that run.
proof fn lemma_digits_len(d: Seq<char>, rest: Seq<char>)
    requires
        forall|i: int| 0 <= i < d.len() ==> is_digit(#[trigger] d[i]),
        rest.len() > 0 ==> !is_digit(rest[0]),
    ensures
        digits_len(d + rest) == d.len(),
    decreases d.len(),
{
    if d.len() > 0 {
        assert((d + rest)[0] == d[0]);
        assert((d + rest).skip(1) =~= d.drop_first() + rest);
        lemma_digits_len(d.drop_first(), rest);
    } else {
        assert(d + rest =~= rest);
    }
}

/// A number that `decimal` wrote reads back as that number, when a
/// character other than a digit follows it.
proof fn lemma_number_token(n: nat, rest: Seq<char>)
    requires
        rest.len() > 0,
        !is_digit(rest[0]),
    ensures
        value_token(decimal(n) + rest) == Some((JsonValue::Num(n), decimal(n).len())),
{
    reveal(value_token);
    lemma_decimal_reads_back(n);
    lemma_digits_len(decimal(n), rest);
    let t = decimal(n) + rest;
    assert(t[0] == decimal(n)[0]);
    assert(t.take(decimal(n).len() as int) =~= decimal(n));
    if t.len() >= 4 && t.take(4) == seq!['n', 'u', 'l', 'l'] {
        assert(t.take(4)[0] == 'n');
    }
}

/// A string value reads back as its text.
proof fn lemma_string_value(s: Seq<char>, rest: Seq<char>)
    ensures
        value_token(json_quote(s) + rest) == Some((JsonValue::Str(s), json_quote(s).len())),
{
    reveal(value_token);
    lemma_string_token_quote(s, rest);
    assert((json_quote(s) + rest)[0] == '"');
}

/// An optional text as `json_opt` writes it reads back as a string or null.
proof fn lemma_opt_value(s: Option<Seq<char>>, rest: Seq<char>)
    ensures
        value_token(json_opt(s) + rest) == Some((opt_value(s), json_opt(s).len())),
{
    reveal(value_token);
    match s {
        Some(t) => lemma_string_value(t, rest),
        None => {
            reveal_strlit("null");
            let u = json_opt(s) + rest;
            assert(u.take(4) =~= seq!['n', 'u', 'l', 'l']);
        },
    }
}

/// One member, `"key":value`, in front of the rest of an object.
proof fn lemma_member(key: Seq<char>, v: JsonValue, vt: Seq<char>, tail: Seq<char>)
    requires
        value_token(vt + tail) == Some((v, vt.len())),
        tail == seq!['}'] || (tail.len() > 1 && tail[0] == ',' && object_members(tail.skip(1)) is Some),
    ensures
        object_members(json_quote(key) + seq![':'] + vt + tail) == if tail == seq!['}'] {
            Some(seq![(key, v)])
        } else {
            Some(seq![(key, v)] + object_members(tail.skip(1)).unwrap())
        },
{
    reveal(object_members);
    let t = json_quote(key) + seq![':'] + vt + tail;
    let n = json_quote(key).len();
    lemma_string_token_quote(key, seq![':'] + vt + tail);
    assert(json_quote(key) + (seq![':'] + vt + tail) =~= t);
    assert(t[n as int] == ':');
    assert(t.skip((n + 1) as int) =~= vt + tail);
    assert(t.skip((n + 1 + vt.len()) as int) =~= tail);
}

/// One member, `"key":value`, then a comma and the members after it.
pub open spec fn member_then(key: Seq<char>, vt: Seq<char>, rest: Seq<char>) -> Seq<char> {
    json_quote(key) + seq![':'] + vt + seq![','] + rest
}

/// The last member, `"key":value`, then the closing brace.
pub open spec fn member_last(key: Seq<char>, vt: Seq<char>) -> Seq<char> {
    json_quote(key) + seq![':'] + vt + seq!['}']
}

/// The members of a report line after its opening brace, one by one.
#[verifier::opaque]
pub open spec fn report_members(
    tool: Seq<char>,
    property: Seq<char>,
    status: Seq<char>,
    m: Metrics,
    counterexample: Option<Seq<char>>,
    error: Option<Seq<char>>,
) -> Seq<char> {
    member_then("status"@, json_quote(status),
    member_then("tests"@, decimal(m.inputs as nat),
    member_then("discards"@, decimal(0),
    member_then("time"@, json_quote(decimal(m.elapsed_us as nat) + "us"@),
    member_then("counterexample"@, json_opt(counterexample),
    member_then("error"@, json_opt(error),
    member_then("tool"@, json_quote(tool),
    member_last("property"@, json_quote(property)))))))))
}

/// The keys of a report line are plain words, written between quotes.
proof fn lemma_report_keys()
    ensures
        json_quote("status"@) == seq!['"'] + "status"@ + seq!['"'],
        json_quote("tests"@) == seq!['"'] + "tests"@ + seq!['"'],
        json_quote("discards"@) == seq!['"'] + "discards"@ + seq!['"'],
        json_quote("time"@) == seq!['"'] + "time"@ + seq!['"'],
        json_quote("counterexample"@) == seq!['"'] + "counterexample"@ + seq!['"'],
        json_quote("error"@) == seq!['"'] + "error"@ + seq!['"'],
        json_quote("tool"@) == seq!['"'] + "tool"@ + seq!['"'],
        json_quote("property"@) == seq!['"'] + "property"@ + seq!['"'],
{
    reveal_strlit("status");
    reveal_strlit("tests");
    reveal_strlit("discards");
    reveal_strlit("time");
    reveal_strlit("counterexample");
    reveal_strlit("error");
    reveal_strlit("tool");
    reveal_strlit("property");
    lemma_escape_plain("status"@);
    lemma_escape_plain("tests"@);
    lemma_escape_plain("discards"@);
    lemma_escape_plain("time"@);
    lemma_escape_plain("counterexample"@);
    lemma_escape_plain("error"@);
    lemma_escape_plain("tool"@);
    lemma_escape_plain("property"@);
}

/// A report line is an opening brace and its members.
#[verifier::rlimit(50)]
proof fn lemma_report_layout(
    tool: Seq<char>,
    property: Seq<char>,
    status: Seq<char>,
    m: Metrics,
    counterexample: Option<Seq<char>>,
    error: Option<Seq<char>>,
)
    ensures
        report_line(tool, property, status, m, counterexample, error) == seq!['{'] + report_members(
            tool,
            property,
            status,
            m,
            counterexample,
            error,
        ),
{
    reveal(report_members);
    lemma_report_keys();
    lemma_decimal_digit(0);
    assert(decimal(0) =~= seq!['0']);
    reveal_strlit("{\"status\":");
    reveal_strlit(",\"tests\":");
    reveal_strlit(",\"discards\":0,\"time\":");
    reveal_strlit(",\"counterexample\":");
    reveal_strlit(",\"error\":");
    reveal_strlit(",\"tool\":");
    reveal_strlit(",\"property\":");
    reveal_strlit("}");
    reveal_strlit("status");
    reveal_strlit("tests");
    reveal_strlit("discards");
    reveal_strlit("time");
    reveal_strlit("counterexample");
    reveal_strlit("error");
    reveal_strlit("tool");
    reveal_strlit("property");
    assert(report_line(tool, property, status, m, counterexample, error) =~= seq!['{'] + report_members(
        tool,
        property,
        status,
        m,
        counterexample,
        error,
    ));
}

/// The members from the `i`-th on, each key with its value text, joined by
/// commas and closed by a brace.
#[verifier::opaque]
pub open spec fn members_text(ks: Seq<Seq<char>>, vts: Seq<Seq<char>>, i: int) -> Seq<char>
    decreases ks.len() - i,
{
    if i + 1 >= ks.len() {
        member_last(ks[i], vts[i])
    } else {
        member_then(ks[i], vts[i], members_text(ks, vts, i + 1))
    }
}

/// A value text reads back as `v` whenever a comma or a brace follows it.
pub open spec fn reads_as(vt: Seq<char>, v: JsonValue) -> bool {
    forall|tail: Seq<char>|
        tail.len() > 0 && (tail[0] == ',' || tail[0] == '}') ==> #[trigger] value_token(vt + tail) == Some(
            (v, vt.len()),
        )
}

/// Members whose value texts read back read back as the keys with their values.
proof fn lemma_members_text(ks: Seq<Seq<char>>, vts: Seq<Seq<char>>, vs: Seq<JsonValue>, i: int)
    requires
        0 <= i < ks.len(),
        vts.len() == ks.len(),
        vs.len() == ks.len(),
        forall|j: int| 0 <= j < ks.len() ==> reads_as(#[trigger] vts[j], vs[j]),
    ensures
        object_members(members_text(ks, vts, i)) == Some(
            Seq::new((ks.len() - i) as nat, |j: int| (ks[i + j], vs[i + j])),
        ),
    decreases ks.len() - i,
{
    reveal(members_text);
    assert(reads_as(vts[i], vs[i]));
    if i + 1 >= ks.len() {
        let tail = seq!['}'];
        assert(value_token(vts[i] + tail) == Some((vs[i], vts[i].len())));
        lemma_member(ks[i], vs[i], vts[i], tail);
        assert(Seq::new((ks.len() - i) as nat, |j: int| (ks[i + j], vs[i + j])) =~= seq![(ks[i], vs[i])]);
    } else {
        lemma_members_text(ks, vts, vs, i + 1);
        let tail = seq![','] + members_text(ks, vts, i + 1);
        assert(tail.skip(1) =~= members_text(ks, vts, i + 1));
        assert(value_token(vts[i] + tail) == Some((vs[i], vts[i].len())));
        lemma_member(ks[i], vs[i], vts[i], tail);
        assert(json_quote(ks[i]) + seq![':'] + vts[i] + tail =~= members_text(ks, vts, i));
        assert(Seq::new((ks.len() - i) as nat, |j: int| (ks[i + j], vs[i + j])) =~= seq![(ks[i], vs[i])]
            + Seq::new((ks.len() - (i + 1)) as nat, |j: int| (ks[i + 1 + j], vs[i + 1 + j])));
    }
}

/// A string value text reads back as its text.
proof fn lemma_reads_as_string(s: Seq<char>)
    ensures
        reads_as(json_quote(s), JsonValue::Str(s)),
{
    assert forall|tail: Seq<char>| tail.len() > 0 && (tail[0] == ',' || tail[0] == '}') implies #[trigger] value_token(
        json_quote(s) + tail,
    ) == Some((JsonValue::Str(s), json_quote(s).len())) by {
        lemma_string_value(s, tail);
    }
}

/// An optional text reads back as a string or null.
proof fn lemma_reads_as_opt(s: Option<Seq<char>>)
    ensures
        reads_as(json_opt(s), opt_value(s)),
{
    assert forall|tail: Seq<char>| tail.len() > 0 && (tail[0] == ',' || tail[0] == '}') implies #[trigger] value_token(
        json_opt(s) + tail,
    ) == Some((opt_value(s), json_opt(s).len())) by {
        lemma_opt_value(s, tail);
    }
}

/// A number written in decimal reads back as that number.
proof fn lemma_reads_as_number(n: nat)
    ensures
        reads_as(decimal(n), JsonValue::Num(n)),
{
    assert forall|tail: Seq<char>| tail.len() > 0 && (tail[0] == ',' || tail[0] == '}') implies #[trigger] value_token(
        decimal(n) + tail,
    ) == Some((JsonValue::Num(n), decimal(n).len())) by {
        lemma_number_token(n, tail);
    }
}

/// The keys of a report line.
pub open spec fn report_keys() -> Seq<Seq<char>> {
    seq!["status"@, "tests"@, "discards"@, "time"@, "counterexample"@, "error"@, "tool"@, "property"@]
}

/// The value texts of a report line.
pub open spec fn report_value_texts(
    tool: Seq<char>,
    property: Seq<char>,
    status: Seq<char>,
    m: Metrics,
    counterexample: Option<Seq<char>>,
    error: Option<Seq<char>>,
) -> Seq<Seq<char>> {
    seq![
        json_quote(status),
        decimal(m.inputs as nat),
        decimal(0),
        json_quote(decimal(m.elapsed_us as nat) + "us"@),
        json_opt(counterexample),
        json_opt(error),
        json_quote(tool),
        json_quote(property),
    ]
}

/// The values of a report line.
pub open spec fn report_values(
    tool: Seq<char>,
    property: Seq<char>,
    status: Seq<char>,
    m: Metrics,
    counterexample: Option<Seq<char>>,
    error: Option<Seq<char>>,
) -> Seq<JsonValue> {
    seq![
        JsonValue::Str(status),
        JsonValue::Num(m.inputs as nat),
        JsonValue::Num(0),
        JsonValue::Str(decimal(m.elapsed_us as nat) + "us"@),
        opt_value(counterexample),
        opt_value(error),
        JsonValue::Str(tool),
        JsonValue::Str(property),
    ]
}

/// The members of a report line, laid out as a member list.
#[verifier::rlimit(50)]
proof fn lemma_report_members_layout(
    tool: Seq<char>,
    property: Seq<char>,
    status: Seq<char>,
    m: Metrics,
    counterexample: Option<Seq<char>>,
    error: Option<Seq<char>>,
)
    ensures
        report_members(tool, property, status, m, counterexample, error) == members_text(
            report_keys(),
            report_value_texts(tool, property, status, m, counterexample, error),
            0,
        ),
{
    reveal(report_members);
    reveal(members_text);
    let ks = report_keys();
    let vts = report_value_texts(tool, property, status, m, counterexample, error);
    assert(members_text(ks, vts, 7) == member_last("property"@, json_quote(property)));
    assert(members_text(ks, vts, 6) == member_then("tool"@, json_quote(tool), members_text(ks, vts, 7)));
    assert(members_text(ks, vts, 5) == member_then("error"@, json_opt(error), members_text(ks, vts, 6)));
    assert(members_text(ks, vts, 4) == member_then("counterexample"@, json_opt(counterexample), members_text(ks, vts, 5)));
    assert(members_text(ks, vts, 3) == member_then("time"@, json_quote(decimal(m.elapsed_us as nat) + "us"@), members_text(ks, vts, 4)));
    assert(members_text(ks, vts, 2) == member_then("discards"@, decimal(0), members_text(ks, vts, 3)));
    assert(members_text(ks, vts, 1) == member_then("tests"@, decimal(m.inputs as nat), members_text(ks, vts, 2)));
    assert(members_text(ks, vts, 0) == member_then("status"@, json_quote(status), members_text(ks, vts, 1)));
}

/// The members of a report line read back one by one.
proof fn lemma_report_members(
    tool: Seq<char>,
    property: Seq<char>,
    status: Seq<char>,
    m: Metrics,
    counterexample: Option<Seq<char>>,
    error: Option<Seq<char>>,
)
    ensures
        object_members(report_members(tool, property, status, m, counterexample, error)) == Some(
            seq![
                ("status"@, JsonValue::Str(status)),
                ("tests"@, JsonValue::Num(m.inputs as nat)),
                ("discards"@, JsonValue::Num(0)),
                ("time"@, JsonValue::Str(decimal(m.elapsed_us as nat) + "us"@)),
                ("counterexample"@, opt_value(counterexample)),
                ("error"@, opt_value(error)),
                ("tool"@, JsonValue::Str(tool)),
                ("property"@, JsonValue::Str(property)),
            ],
        ),
{
    let ks = report_keys();
    let vts = report_value_texts(tool, property, status, m, counterexample, error);
    let vs = report_values(tool, property, status, m, counterexample, error);
    lemma_reads_as_string(status);
    lemma_reads_as_number(m.inputs as nat);
    lemma_reads_as_number(0);
    lemma_reads_as_string(decimal(m.elapsed_us as nat) + "us"@);
    lemma_reads_as_opt(counterexample);
    lemma_reads_as_opt(error);
    lemma_reads_as_string(tool);
    lemma_reads_as_string(property);
    assert forall|j: int| 0 <= j < ks.len() implies reads_as(#[trigger] vts[j], vs[j]) by {
        if j == 0 {} else if j == 1 {} else if j == 2 {} else if j == 3 {}
        else if j == 4 {} else if j == 5 {} else if j == 6 {} else {}
    }
    lemma_members_text(ks, vts, vs, 0);
    lemma_report_members_layout(tool, property, status, m, counterexample, error);
    assert(Seq::new(8nat, |j: int| (ks[0 + j], vs[0 + j])) =~= seq![
        ("status"@, JsonValue::Str(status)),
        ("tests"@, JsonValue::Num(m.inputs as nat)),
        ("discards"@, JsonValue::Num(0)),
        ("time"@, JsonValue::Str(decimal(m.elapsed_us as nat) + "us"@)),
        ("counterexample"@, opt_value(counterexample)),
        ("error"@, opt_value(error)),
        ("tool"@, JsonValue::Str(tool)),
        ("property"@, JsonValue::Str(property)),
    ]);
}

/// The JSON object that reports a run, read back: it has exactly the
/// members `status`, `tests`, `discards`, `time`, `counterexample`,
/// `error`, `tool` and `property`, in that order, holding the status, the
/// inputs tried, zero, the time in microseconds as text, the
/// counterexample and the error (each null exactly when absent), the tool
/// and the property.
pub proof fn lemma_report_line_reads_back(
    tool: Seq<char>,
    property: Seq<char>,
    status: Seq<char>,
    m: Metrics,
    counterexample: Option<Seq<char>>,
    error: Option<Seq<char>>,
)
    ensures
        parse_object(report_line(tool, property, status, m, counterexample, error)) == Some(
            seq![
                ("status"@, JsonValue::Str(status)),
                ("tests"@, JsonValue::Num(m.inputs as nat)),
                ("discards"@, JsonValue::Num(0)),
                ("time"@, JsonValue::Str(decimal(m.elapsed_us as nat) + "us"@)),
                ("counterexample"@, opt_value(counterexample)),
                ("error"@, opt_value(error)),
                ("tool"@, JsonValue::Str(tool)),
                ("property"@, JsonValue::Str(property)),
            ],
        ),
{
    lemma_report_layout(tool, property, status, m, counterexample, error);
    lemma_report_members(tool, property, status, m, counterexample, error);
    let line = report_line(tool, property, status, m, counterexample, error);
    assert(line.skip(1) =~= report_members(tool, property, status, m, counterexample, error));
}

/// Text of plain characters is its own escape.
proof fn lemma_escape_plain(s: Seq<char>)
    requires
        forall|i: int| 0 <= i < s.len() ==> 'a' <= #[trigger] s[i] && s[i] <= 'z',
    ensures
        json_escape(s) == s,
    decreases s.len(),
{
    if s.len() > 0 {
        lemma_escape_plain(s.drop_last());
        assert(s.drop_last() + seq![s.last()] =~= s);
    }
}

/// Decimal digits.
pub open spec fn decimal_digits() -> Seq<char> {
    seq!['0', '1', '2', '3', '4', '5', '6', '7', '8', '9']
}

/// `n` written in decimal, without leading zeros.
pub open spec fn decimal(n: nat) -> Seq<char>
    decreases n,
{
    if n < 10 {
        seq![decimal_digits()[n as int]]
    } else {
        decimal(n / 10) + seq![decimal_digits()[(n % 10) as int]]
    }
}

/// An optional text as JSON: a string, or `null`.
pub open spec fn json_opt(s: Option<Seq<char>>) -> Seq<char> {
    match s {
        None => "null"@,
        Some(t) => json_quote(t),
    }
}

/// The characters of an optional text.
pub open spec fn opt_chars(s: Option<&str>) -> Option<Seq<char>> {
    match s {
        None => None,
        Some(t) => Some(t@),
    }
}

/// The JSON object that reports a run: its status, the inputs tried, no
/// discards, the time in microseconds as text, the counterexample and the
/// error (or `null`), the tool and the property.
pub open spec fn report_line(
    tool: Seq<char>,
    property: Seq<char>,
    status: Seq<char>,
    m: Metrics,
    counterexample: Option<Seq<char>>,
    error: Option<Seq<char>>,
) -> Seq<char> {
    "{\"status\":"@ + json_quote(status) + ",\"tests\":"@ + decimal(m.inputs as nat)
        + ",\"discards\":0,\"time\":"@ + json_quote(decimal(m.elapsed_us as nat) + "us"@)
        + ",\"counterexample\":"@ + json_opt(counterexample) + ",\"error\":"@ + json_opt(error)
        + ",\"tool\":"@ + json_quote(tool) + ",\"property\":"@ + json_quote(property) + "}"@
}

/// Appends one character.
///
/// Calls `String::push`, which appends the character at the end.
#[verifier::external_body]
fn push_char(s: &mut String, c: char)
    ensures
        final(s)@ == old(s)@.push(c),
{
    s.push(c);
}

/// Appends text.
fn push_str(s: &mut String, t: &str)
    ensures
        final(s)@ == old(s)@ + t@,
{
    s.append(t);
}

/// Appends the escape of one character.
fn push_escaped(out: &mut String, c: char)
    ensures
        final(out)@ == old(out)@ + json_escape_char(c),
{
    let hex: [char; 16] = ['0', '1', '2', '3', '4', '5', '6', '7', '8', '9', 'a', 'b', 'c', 'd', 'e', 'f'];
    assert(hex@ =~= hex_digits());
    if c == '"' {
        push_char(out, '\\');
        push_char(out, '"');
    } else if c == '\\' {
        push_char(out, '\\');
        push_char(out, '\\');
    } else if c == '\n' {
        push_char(out, '\\');
        push_char(out, 'n');
    } else if c == '\r' {
        push_char(out, '\\');
        push_char(out, 'r');
    } else if c == '\t' {
        push_char(out, '\\');
        push_char(out, 't');
    } else if (c as u32) < 0x20 {
        let v = c as u32;
        push_char(out, '\\');
        push_char(out, 'u');
        push_char(out, '0');
        push_char(out, '0');
        push_char(out, hex[(v / 16) as usize]);
        push_char(out, hex[(v % 16) as usize]);
    } else {
        push_char(out, c);
    }
    assert(final(out)@ =~= old(out)@ + json_escape_char(c));
}

/// Appends `s` as a JSON string, quotes included.
fn push_quoted(out: &mut String, s: &str)
    ensures
        final(out)@ == old(out)@ + json_quote(s@),
{
    let ghost start = out@;
    push_char(out, '"');
    let mut it = s.chars();
    let ghost mut done: Seq<char> = Seq::empty();
    proof {
        vstd::string::axiom_spec_iter(s);
        assert(done + it.remaining() =~= s@);
        assert(json_escape(done) =~= Seq::<char>::empty());
    }
    loop
        invariant
            done + it.remaining() == s@,
            out@ == start + seq!['"'] + json_escape(done),
            it.decrease() is Some,
        ensures
            done == s@,
            out@ == start + seq!['"'] + json_escape(done),
        decreases it.decrease()->0,
    {
        let ghost before = it.remaining();
        match it.next() {
            Some(c) => {
                proof {
                    assert(c == before[0]);
                    assert(done.push(c).drop_last() =~= done);
                    assert(done.push(c) + it.remaining() =~= done + before);
                    done = done.push(c);
                }
                push_escaped(out, c);
            },
            None => {
                assert(done =~= s@);
                break;
            },
        }
    }
    push_char(out, '"');
    assert(out@ =~= start + json_quote(s@));
}

/// Appends `n` in decimal.
fn push_decimal(out: &mut String, n: u128)
    ensures
        final(out)@ == old(out)@ + decimal(n as nat),
    decreases n,
{
    let digits: [char; 10] = ['0', '1', '2', '3', '4', '5', '6', '7', '8', '9'];
    assert(digits@ =~= decimal_digits());
    if n >= 10 {
        push_decimal(out, n / 10);
    }
    push_char(out, digits[(n % 10) as usize]);
    assert(final(out)@ =~= old(out)@ + decimal(n as nat));
}

/// Appends an optional text as JSON.
fn push_opt(out: &mut String, s: Option<&str>)
    ensures
        final(out)@ == old(out)@ + json_opt(opt_chars(s)),
{
    match s {
        None => push_str(out, "null"),
        Some(t) => push_quoted(out, t),
    }
}

/// `s` as a JSON string, quotes included.
pub fn json_str(s: &str) -> (r: String)
    ensures
        r@ == json_quote(s@),
        json_decode_string(r@) == Some(s@),
        forall|i: int| 0 <= i < r@.len() ==> (#[trigger] r@[i] as u32) >= 0x20,
{
    let mut out = String::new();
    push_quoted(&mut out, s);
    assert(out@ =~= json_quote(s@));
    proof {
        lemma_json_str_round_trip(s@);
    }
    out
}

/// The JSON line that reports a run of `property` with `tool`.
pub fn json_line(
    tool: &str,
    property: &str,
    status: &str,
    metrics: Metrics,
    counterexample: Option<&str>,
    error: Option<&str>,
) -> (r: String)
    ensures
        r@ == report_line(tool@, property@, status@, metrics, opt_chars(counterexample), opt_chars(error)),
        parse_object(r@) == Some(
            seq![
                ("status"@, JsonValue::Str(status@)),
                ("tests"@, JsonValue::Num(metrics.inputs as nat)),
                ("discards"@, JsonValue::Num(0)),
                ("time"@, JsonValue::Str(decimal(metrics.elapsed_us as nat) + "us"@)),
                ("counterexample"@, opt_value(opt_chars(counterexample))),
                ("error"@, opt_value(opt_chars(error))),
                ("tool"@, JsonValue::Str(tool@)),
                ("property"@, JsonValue::Str(property@)),
            ],
        ),
{
    let mut out = String::new();
    push_str(&mut out, "{\"status\":");
    push_quoted(&mut out, status);
    push_str(&mut out, ",\"tests\":");
    push_decimal(&mut out, metrics.inputs as u128);
    push_str(&mut out, ",\"discards\":0,\"time\":");
    let mut time = String::new();
    push_decimal(&mut time, metrics.elapsed_us);
    push_str(&mut time, "us");
    push_quoted(&mut out, time.as_str());
    push_str(&mut out, ",\"counterexample\":");
    push_opt(&mut out, counterexample);
    push_str(&mut out, ",\"error\":");
    push_opt(&mut out, error);
    push_str(&mut out, ",\"tool\":");
    push_quoted(&mut out, tool);
    push_str(&mut out, ",\"property\":");
    push_quoted(&mut out, property);
    push_str(&mut out, "}");
    assert(out@ =~= report_line(
        tool@,
        property@,
        status@,
        metrics,
        opt_chars(counterexample),
        opt_chars(error),
    ));
    proof {
        lemma_report_line_reads_back(tool@, property@, status@, metrics, opt_chars(counterexample), opt_chars(error));
    }
    out
}

} // verus!
