//! Byte-level encoding of log records and protocol payloads.
//!
//! Records and payloads are JSON objects written back-to-back; each object is
//! self-delimiting, so a stream of them can be parsed record by record with
//! exact byte offsets. The encoder always produces one canonical form, and
//! the parser accepts exactly that form, which makes encoding and parsing
//! inverse to each other.

use vstd::prelude::*;

use crate::command::Command;

verus! {

pub const QUOTE: u8 = 0x22;
pub const BACKSLASH: u8 = 0x5C;

/// Lowercase hexadecimal digit for a value below 16.
pub open spec fn hex_digit(n: u8) -> u8 {
    if n < 10 {
        (0x30 + n) as u8
    } else {
        (0x61 + (n - 10)) as u8
    }
}

pub open spec fn is_hex_digit(b: u8) -> bool {
    (0x30 <= b && b <= 0x39) || (0x61 <= b && b <= 0x66)
}

/// Value of a lowercase hexadecimal digit byte.
pub open spec fn hex_val(b: u8) -> u8 {
    if 0x30 <= b && b <= 0x39 {
        (b - 0x30) as u8
    } else {
        (b - 0x61 + 10) as u8
    }
}

/// How one content byte appears inside a JSON string: quote and backslash
/// are escaped, control bytes become `\u00XX`, everything else is itself.
pub open spec fn esc_byte(b: u8) -> Seq<u8> {
    if b == QUOTE {
        seq![BACKSLASH, QUOTE]
    } else if b == BACKSLASH {
        seq![BACKSLASH, BACKSLASH]
    } else if b < 0x20 {
        seq![BACKSLASH, 0x75u8, 0x30u8, 0x30u8, hex_digit(b / 16), hex_digit(b % 16)]
    } else {
        seq![b]
    }
}

/// The escaped form of a whole byte sequence.
pub open spec fn escape_bytes(s: Seq<u8>) -> Seq<u8>
    decreases s.len(),
{
    if s.len() == 0 {
        Seq::empty()
    } else {
        esc_byte(s[0]) + escape_bytes(s.skip(1))
    }
}

/// A complete JSON string: the escaped content between two quotes.
pub open spec fn json_string(s: Seq<u8>) -> Seq<u8> {
    seq![QUOTE] + escape_bytes(s) + seq![QUOTE]
}

/// Parse the body of a JSON string (the bytes after the opening quote).
/// Returns the unescaped content and the number of bytes consumed,
/// including the closing quote. Accepts exactly the escapes the encoder
/// emits.
pub open spec fn parse_string_body(d: Seq<u8>) -> Option<(Seq<u8>, int)>
    decreases d.len(),
{
    if d.len() == 0 {
        None
    } else if d[0] == QUOTE {
        Some((Seq::empty(), 1))
    } else if d[0] == BACKSLASH {
        if d.len() >= 2 && (d[1] == QUOTE || d[1] == BACKSLASH) {
            match parse_string_body(d.skip(2)) {
                Some((rest, n)) => Some((seq![d[1]] + rest, 2 + n)),
                None => None,
            }
        } else if d.len() >= 6 && d[1] == 0x75 && d[2] == 0x30 && d[3] == 0x30 && is_hex_digit(d[4])
            && is_hex_digit(d[5]) && hex_val(d[4]) * 16 + hex_val(d[5]) < 0x20 {
            match parse_string_body(d.skip(6)) {
                Some((rest, n)) => Some(
                    (seq![(hex_val(d[4]) * 16 + hex_val(d[5])) as u8] + rest, 6 + n),
                ),
                None => None,
            }
        } else {
            None
        }
    } else if d[0] < 0x20 {
        None
    } else {
        match parse_string_body(d.skip(1)) {
            Some((rest, n)) => Some((seq![d[0]] + rest, 1 + n)),
            None => None,
        }
    }
}

/// Parse a complete JSON string starting at the opening quote.
pub open spec fn parse_jstring(d: Seq<u8>) -> Option<(Seq<u8>, int)> {
    if d.len() >= 1 && d[0] == QUOTE {
        match parse_string_body(d.skip(1)) {
            Some((content, n)) => Some((content, 1 + n)),
            None => None,
        }
    } else {
        None
    }
}

/// Unfolding helper: the escaped form of a sequence extended by one byte.
pub proof fn lemma_escape_bytes_snoc(s: Seq<u8>, i: int)
    requires
        0 <= i < s.len(),
    ensures
        escape_bytes(s.take(i + 1)) == escape_bytes(s.take(i)) + esc_byte(s[i]),
    decreases i,
{
    let t1 = s.take(i + 1);
    let t0 = s.take(i);
    if i == 0 {
        assert(t1 =~= seq![s[0]]);
        assert(t1.skip(1) =~= Seq::<u8>::empty());
        assert(t0 =~= Seq::<u8>::empty());
        assert(escape_bytes(t1.skip(1)) =~= Seq::<u8>::empty());
        assert(escape_bytes(t1) == esc_byte(t1[0]) + escape_bytes(t1.skip(1)));
        assert(escape_bytes(t0) + esc_byte(s[0]) =~= esc_byte(s[0]));
        assert(escape_bytes(t1) =~= escape_bytes(t0) + esc_byte(s[i]));
    } else {
        lemma_escape_bytes_snoc(s.skip(1), i - 1);
        assert(t1.skip(1) =~= s.skip(1).take(i));
        assert(t0.skip(1) =~= s.skip(1).take(i - 1));
        assert(t1[0] == s[0] && t0[0] == s[0]);
        assert(escape_bytes(t1) == esc_byte(s[0]) + escape_bytes(s.skip(1).take(i)));
        assert(escape_bytes(t0) == esc_byte(s[0]) + escape_bytes(s.skip(1).take(i - 1)));
        assert(s.skip(1)[i - 1] == s[i]);
        assert(escape_bytes(s.skip(1).take(i)) == escape_bytes(s.skip(1).take(i - 1)) + esc_byte(
            s[i],
        ));
        assert(escape_bytes(t1) =~= escape_bytes(t0) + esc_byte(s[i]));
    }
}

/// The parser undoes the escaper: the body parse of `escape_bytes(s)`
/// followed by a closing quote and anything at all yields exactly `s` and
/// stops at the quote.
pub proof fn lemma_parse_escape(s: Seq<u8>, rest: Seq<u8>)
    ensures
        parse_string_body(escape_bytes(s) + seq![QUOTE] + rest) == Some(
            (s, escape_bytes(s).len() as int + 1),
        ),
    decreases s.len(),
{
    let d = escape_bytes(s) + seq![QUOTE] + rest;
    if s.len() == 0 {
        assert(escape_bytes(s) =~= Seq::<u8>::empty());
        assert(d[0] == QUOTE);
        assert(parse_string_body(d) == Some((Seq::<u8>::empty(), 1int)));
        assert(s =~= Seq::<u8>::empty());
    } else {
        let b = s[0];
        let e = esc_byte(b);
        let s1 = s.skip(1);
        lemma_parse_escape(s1, rest);
        let d1 = escape_bytes(s1) + seq![QUOTE] + rest;
        assert(escape_bytes(s) == e + escape_bytes(s1));
        assert(d =~= e + d1);
        if b == QUOTE || b == BACKSLASH {
            assert(e.len() == 2 && d[0] == BACKSLASH && d[1] == b);
            assert(d.skip(2) =~= d1);
            assert(parse_string_body(d) == Some((seq![b] + s1, 2 + escape_bytes(s1).len() as int + 1)));
            assert(seq![b] + s1 =~= s);
        } else if b < 0x20 {
            assert(e.len() == 6);
            assert(d[0] == BACKSLASH && d[1] == 0x75 && d[2] == 0x30 && d[3] == 0x30);
            assert(d[4] == hex_digit(b / 16) && d[5] == hex_digit(b % 16));
            assert(is_hex_digit(hex_digit(b / 16)) && is_hex_digit(hex_digit(b % 16)));
            assert(hex_val(hex_digit(b / 16)) == b / 16 && hex_val(hex_digit(b % 16)) == b % 16);
            assert((b / 16) * 16 + b % 16 == b) by {
                assert(b == 16 * (b / 16) + b % 16) by (nonlinear_arith);
            };
            assert(hex_val(d[4]) * 16 + hex_val(d[5]) < 0x20);
            assert(d.skip(6) =~= d1);
            assert(parse_string_body(d) == Some((seq![b] + s1, 6 + escape_bytes(s1).len() as int + 1)));
            assert(seq![b] + s1 =~= s);
        } else {
            assert(e.len() == 1 && d[0] == b);
            assert(d.skip(1) =~= d1);
            assert(parse_string_body(d) == Some((seq![b] + s1, 1 + escape_bytes(s1).len() as int + 1)));
            assert(seq![b] + s1 =~= s);
        }
    }
}

/// The body parser reads only the bytes it consumes: any sequence that
/// agrees on that prefix parses the same way.
pub proof fn lemma_parse_string_body_stable(d: Seq<u8>, d2: Seq<u8>)
    requires
        parse_string_body(d) is Some,
        d2.len() >= parse_string_body(d)->Some_0.1,
        d2.take(parse_string_body(d)->Some_0.1) == d.take(parse_string_body(d)->Some_0.1),
    ensures
        parse_string_body(d2) == parse_string_body(d),
    decreases d.len(),
{
    let (c, n) = parse_string_body(d)->Some_0;
    lemma_parse_string_body_len(d);
    assert(d2[0] == d[0]) by {
        assert(d2.take(n)[0] == d.take(n)[0]);
    }
    if d[0] == QUOTE {
    } else if d[0] == BACKSLASH {
        if d.len() >= 2 && (d[1] == QUOTE || d[1] == BACKSLASH) {
            let (c1, n1) = parse_string_body(d.skip(2))->Some_0;
            lemma_parse_string_body_len(d.skip(2));
            assert(d2[1] == d[1]) by {
                assert(d2.take(n)[1] == d.take(n)[1]);
            }
            assert(d2.skip(2).take(n1) =~= d2.take(n).skip(2));
            assert(d.skip(2).take(n1) =~= d.take(n).skip(2));
            lemma_parse_string_body_stable(d.skip(2), d2.skip(2));
        } else {
            let (c1, n1) = parse_string_body(d.skip(6))->Some_0;
            lemma_parse_string_body_len(d.skip(6));
            assert(d2[1] == d[1] && d2[2] == d[2] && d2[3] == d[3] && d2[4] == d[4] && d2[5]
                == d[5]) by {
                assert(d2.take(n)[1] == d.take(n)[1]);
                assert(d2.take(n)[2] == d.take(n)[2]);
                assert(d2.take(n)[3] == d.take(n)[3]);
                assert(d2.take(n)[4] == d.take(n)[4]);
                assert(d2.take(n)[5] == d.take(n)[5]);
            }
            assert(d2.skip(6).take(n1) =~= d2.take(n).skip(6));
            assert(d.skip(6).take(n1) =~= d.take(n).skip(6));
            lemma_parse_string_body_stable(d.skip(6), d2.skip(6));
        }
    } else {
        let (c1, n1) = parse_string_body(d.skip(1))->Some_0;
        lemma_parse_string_body_len(d.skip(1));
        assert(d2.skip(1).take(n1) =~= d2.take(n).skip(1));
        assert(d.skip(1).take(n1) =~= d.take(n).skip(1));
        lemma_parse_string_body_stable(d.skip(1), d2.skip(1));
    }
}

/// `d` begins with the bytes of `p`.
pub open spec fn starts_with(d: Seq<u8>, p: Seq<u8>) -> bool {
    p.len() <= d.len() && d.take(p.len() as int) == p
}

/// One JSON object with a single string field:
/// `pre`, the string, `post`.
pub open spec fn enc_field1(pre: Seq<u8>, s: Seq<u8>, post: Seq<u8>) -> Seq<u8> {
    pre + json_string(s) + post
}

/// Two string fields: `pre`, first string, `mid`, second string, `post`.
pub open spec fn enc_field2(
    pre: Seq<u8>,
    s1: Seq<u8>,
    mid: Seq<u8>,
    s2: Seq<u8>,
    post: Seq<u8>,
) -> Seq<u8> {
    pre + json_string(s1) + mid + json_string(s2) + post
}

/// Parse a one-string-field object; returns the content and bytes consumed.
pub open spec fn parse_field1(d: Seq<u8>, pre: Seq<u8>, post: Seq<u8>) -> Option<(Seq<u8>, int)> {
    if starts_with(d, pre) {
        match parse_jstring(d.skip(pre.len() as int)) {
            Some((content, n)) => {
                let j = pre.len() + n;
                if starts_with(d.skip(j as int), post) {
                    Some((content, j + post.len()))
                } else {
                    None
                }
            },
            None => None,
        }
    } else {
        None
    }
}

/// Parse a two-string-field object.
pub open spec fn parse_field2(d: Seq<u8>, pre: Seq<u8>, mid: Seq<u8>, post: Seq<u8>) -> Option<
    ((Seq<u8>, Seq<u8>), int),
> {
    if starts_with(d, pre) {
        match parse_jstring(d.skip(pre.len() as int)) {
            Some((c1, n1)) => {
                let j1 = pre.len() + n1;
                if starts_with(d.skip(j1 as int), mid) {
                    match parse_jstring(d.skip(j1 + mid.len())) {
                        Some((c2, n2)) => {
                            let j2 = j1 + mid.len() + n2;
                            if starts_with(d.skip(j2 as int), post) {
                                Some(((c1, c2), j2 + post.len()))
                            } else {
                                None
                            }
                        },
                        None => None,
                    }
                } else {
                    None
                }
            },
            None => None,
        }
    } else {
        None
    }
}

/// A successful body parse consumes at least one byte and at most the
/// whole input.
pub proof fn lemma_parse_string_body_len(d: Seq<u8>)
    requires
        parse_string_body(d) is Some,
    ensures
        1 <= parse_string_body(d)->Some_0.1 <= d.len(),
    decreases d.len(),
{
    if d[0] == QUOTE {
    } else if d[0] == BACKSLASH {
        if d.len() >= 2 && (d[1] == QUOTE || d[1] == BACKSLASH) {
            lemma_parse_string_body_len(d.skip(2));
        } else {
            lemma_parse_string_body_len(d.skip(6));
        }
    } else {
        lemma_parse_string_body_len(d.skip(1));
    }
}

/// Parsing the canonical JSON string followed by anything yields the
/// original content and stops at the closing quote.
pub proof fn lemma_parse_jstring_enc(s: Seq<u8>, rest: Seq<u8>)
    ensures
        parse_jstring(json_string(s) + rest) == Some((s, json_string(s).len() as int)),
{
    let d = json_string(s) + rest;
    assert(d[0] == QUOTE);
    assert(d.skip(1) =~= escape_bytes(s) + seq![QUOTE] + rest);
    lemma_parse_escape(s, rest);
}

/// A successful JSON-string parse consumes from two bytes up to the whole
/// input.
pub proof fn lemma_parse_jstring_len(d: Seq<u8>)
    requires
        parse_jstring(d) is Some,
    ensures
        2 <= parse_jstring(d)->Some_0.1 <= d.len(),
{
    lemma_parse_string_body_len(d.skip(1));
}

/// The JSON-string parser reads only the bytes it consumes.
pub proof fn lemma_parse_jstring_stable(d: Seq<u8>, d2: Seq<u8>)
    requires
        parse_jstring(d) is Some,
        d2.len() >= parse_jstring(d)->Some_0.1,
        d2.take(parse_jstring(d)->Some_0.1) == d.take(parse_jstring(d)->Some_0.1),
    ensures
        parse_jstring(d2) == parse_jstring(d),
{
    let n = parse_jstring(d)->Some_0.1;
    lemma_parse_jstring_len(d);
    assert(d2[0] == d[0]) by {
        assert(d2.take(n)[0] == d.take(n)[0]);
    }
    let nb = parse_string_body(d.skip(1))->Some_0.1;
    lemma_parse_string_body_len(d.skip(1));
    assert(d2.skip(1).take(nb) =~= d2.take(n).skip(1));
    assert(d.skip(1).take(nb) =~= d.take(n).skip(1));
    lemma_parse_string_body_stable(d.skip(1), d2.skip(1));
}

/// Round trip for a one-field object followed by anything.
pub proof fn lemma_parse_field1_enc(pre: Seq<u8>, s: Seq<u8>, post: Seq<u8>, rest: Seq<u8>)
    ensures
        parse_field1(enc_field1(pre, s, post) + rest, pre, post) == Some(
            (s, enc_field1(pre, s, post).len() as int),
        ),
{
    let d = enc_field1(pre, s, post) + rest;
    let js = json_string(s);
    assert(d.take(pre.len() as int) =~= pre);
    assert(d.skip(pre.len() as int) =~= js + (post + rest));
    lemma_parse_jstring_enc(s, post + rest);
    let j: int = pre.len() as int + js.len() as int;
    assert(d.skip(j as int) =~= post + rest);
    assert(d.skip(j as int).take(post.len() as int) =~= post);
}

/// Round trip for a two-field object followed by anything.
pub proof fn lemma_parse_field2_enc(
    pre: Seq<u8>,
    s1: Seq<u8>,
    mid: Seq<u8>,
    s2: Seq<u8>,
    post: Seq<u8>,
    rest: Seq<u8>,
)
    ensures
        parse_field2(enc_field2(pre, s1, mid, s2, post) + rest, pre, mid, post) == Some(
            ((s1, s2), enc_field2(pre, s1, mid, s2, post).len() as int),
        ),
{
    let d = enc_field2(pre, s1, mid, s2, post) + rest;
    let js1 = json_string(s1);
    let js2 = json_string(s2);
    assert(d.take(pre.len() as int) =~= pre);
    assert(d.skip(pre.len() as int) =~= js1 + (mid + js2 + post + rest));
    lemma_parse_jstring_enc(s1, mid + js2 + post + rest);
    let j1: int = pre.len() as int + js1.len() as int;
    assert(d.skip(j1 as int) =~= mid + (js2 + post + rest));
    assert(d.skip(j1 as int).take(mid.len() as int) =~= mid);
    assert(d.skip(j1 + mid.len()) =~= js2 + (post + rest));
    lemma_parse_jstring_enc(s2, post + rest);
    let j2: int = j1 + mid.len() + js2.len();
    assert(d.skip(j2 as int) =~= post + rest);
    assert(d.skip(j2 as int).take(post.len() as int) =~= post);
}

/// Consumed-length bounds for a one-field object parse.
pub proof fn lemma_parse_field1_len(d: Seq<u8>, pre: Seq<u8>, post: Seq<u8>)
    requires
        parse_field1(d, pre, post) is Some,
    ensures
        pre.len() + 2 + post.len() <= parse_field1(d, pre, post)->Some_0.1 <= d.len(),
{
    lemma_parse_jstring_len(d.skip(pre.len() as int));
}

/// Consumed-length bounds for a two-field object parse.
pub proof fn lemma_parse_field2_len(d: Seq<u8>, pre: Seq<u8>, mid: Seq<u8>, post: Seq<u8>)
    requires
        parse_field2(d, pre, mid, post) is Some,
    ensures
        pre.len() + mid.len() + post.len() + 4 <= parse_field2(d, pre, mid, post)->Some_0.1
            <= d.len(),
{
    lemma_parse_jstring_len(d.skip(pre.len() as int));
    let n1 = parse_jstring(d.skip(pre.len() as int))->Some_0.1;
    let j1 = pre.len() + n1;
    lemma_parse_jstring_len(d.skip(j1 + mid.len()));
}

/// The one-field parser reads only the bytes it consumes.
pub proof fn lemma_parse_field1_stable(d: Seq<u8>, d2: Seq<u8>, pre: Seq<u8>, post: Seq<u8>)
    requires
        parse_field1(d, pre, post) is Some,
        d2.len() >= parse_field1(d, pre, post)->Some_0.1,
        d2.take(parse_field1(d, pre, post)->Some_0.1) == d.take(
            parse_field1(d, pre, post)->Some_0.1,
        ),
    ensures
        parse_field1(d2, pre, post) == parse_field1(d, pre, post),
{
    let n = parse_field1(d, pre, post)->Some_0.1;
    lemma_parse_field1_len(d, pre, post);
    let p = pre.len() as int;
    assert(d2.take(p) =~= d.take(p)) by {
        assert(forall|i: int| 0 <= i < p ==> d2.take(n)[i] == d.take(n)[i]);
    }
    let nj = parse_jstring(d.skip(p))->Some_0.1;
    lemma_parse_jstring_len(d.skip(p));
    assert(d2.skip(p).take(nj) =~= d2.take(n).skip(p).take(nj));
    assert(d.skip(p).take(nj) =~= d.take(n).skip(p).take(nj));
    lemma_parse_jstring_stable(d.skip(p), d2.skip(p));
    let j = p + nj;
    assert(d2.skip(j).take(post.len() as int) =~= d2.take(n).skip(j));
    assert(d.skip(j).take(post.len() as int) =~= d.take(n).skip(j));
    assert(starts_with(d2.skip(j), post) == starts_with(d.skip(j), post));
}

/// The two-field parser reads only the bytes it consumes.
pub proof fn lemma_parse_field2_stable(
    d: Seq<u8>,
    d2: Seq<u8>,
    pre: Seq<u8>,
    mid: Seq<u8>,
    post: Seq<u8>,
)
    requires
        parse_field2(d, pre, mid, post) is Some,
        d2.len() >= parse_field2(d, pre, mid, post)->Some_0.1,
        d2.take(parse_field2(d, pre, mid, post)->Some_0.1) == d.take(
            parse_field2(d, pre, mid, post)->Some_0.1,
        ),
    ensures
        parse_field2(d2, pre, mid, post) == parse_field2(d, pre, mid, post),
{
    let n = parse_field2(d, pre, mid, post)->Some_0.1;
    lemma_parse_field2_len(d, pre, mid, post);
    let p = pre.len() as int;
    assert(d2.take(p) =~= d.take(p)) by {
        assert(forall|i: int| 0 <= i < p ==> d2.take(n)[i] == d.take(n)[i]);
    }
    let nj1 = parse_jstring(d.skip(p))->Some_0.1;
    lemma_parse_jstring_len(d.skip(p));
    let m = mid.len() as int;
    let nj2 = parse_jstring(d.skip(p + nj1 + m))->Some_0.1;
    lemma_parse_jstring_len(d.skip(p + nj1 + m));
    assert(n == p + nj1 + m + nj2 + post.len());
    assert(d2.skip(p).take(nj1) =~= d2.take(n).skip(p).take(nj1));
    assert(d.skip(p).take(nj1) =~= d.take(n).skip(p).take(nj1));
    lemma_parse_jstring_stable(d.skip(p), d2.skip(p));
    let j1 = p + nj1;
    assert(d2.skip(j1).take(m) =~= d2.take(n).skip(j1).take(m));
    assert(d.skip(j1).take(m) =~= d.take(n).skip(j1).take(m));
    assert(starts_with(d2.skip(j1), mid) == starts_with(d.skip(j1), mid));
    assert(d2.skip(j1 + m).take(nj2) =~= d2.take(n).skip(j1 + m).take(nj2));
    assert(d.skip(j1 + m).take(nj2) =~= d.take(n).skip(j1 + m).take(nj2));
    lemma_parse_jstring_stable(d.skip(j1 + m), d2.skip(j1 + m));
    let j2 = j1 + m + nj2;
    assert(d2.skip(j2).take(post.len() as int) =~= d2.take(n).skip(j2));
    assert(d.skip(j2).take(post.len() as int) =~= d.take(n).skip(j2));
    assert(starts_with(d2.skip(j2), post) == starts_with(d.skip(j2), post));
}

// The byte spellings of the fixed parts of each record shape.
/// `{"Set":{"key":`
pub open spec fn lit_set_pre() -> Seq<u8> {
    seq![
        0x7Bu8,
        0x22u8,
        0x53u8,
        0x65u8,
        0x74u8,
        0x22u8,
        0x3Au8,
        0x7Bu8,
        0x22u8,
        0x6Bu8,
        0x65u8,
        0x79u8,
        0x22u8,
        0x3Au8,
    ]
}

/// `{"Rm":{"key":`
pub open spec fn lit_rm_pre() -> Seq<u8> {
    seq![
        0x7Bu8,
        0x22u8,
        0x52u8,
        0x6Du8,
        0x22u8,
        0x3Au8,
        0x7Bu8,
        0x22u8,
        0x6Bu8,
        0x65u8,
        0x79u8,
        0x22u8,
        0x3Au8,
    ]
}

/// `,"value":`
pub open spec fn lit_val_mid() -> Seq<u8> {
    seq![0x2Cu8, 0x22u8, 0x76u8, 0x61u8, 0x6Cu8, 0x75u8, 0x65u8, 0x22u8, 0x3Au8]
}

/// `}}`
pub open spec fn lit_objs_end() -> Seq<u8> {
    seq![0x7Du8, 0x7Du8]
}

/// The canonical bytes of one persisted command record.
pub open spec fn cmd_json(c: crate::command::CommandV) -> Seq<u8> {
    match c {
        crate::command::CommandV::Put { key, value } => enc_field2(
            lit_set_pre(),
            vstd::utf8::encode_utf8(key),
            lit_val_mid(),
            vstd::utf8::encode_utf8(value),
            lit_objs_end(),
        ),
        crate::command::CommandV::Rm { key } => enc_field1(
            lit_rm_pre(),
            vstd::utf8::encode_utf8(key),
            lit_objs_end(),
        ),
    }
}

/// Parse one command record from the front of `d`; returns the command and
/// the number of bytes it occupies.
pub open spec fn parse_cmd(d: Seq<u8>) -> Option<(crate::command::CommandV, int)> {
    if starts_with(d, lit_set_pre()) {
        match parse_field2(d, lit_set_pre(), lit_val_mid(), lit_objs_end()) {
            Some(((kb, vb), n)) => if vstd::utf8::valid_utf8(kb) && vstd::utf8::valid_utf8(vb) {
                Some(
                    (
                        crate::command::CommandV::Put {
                            key: vstd::utf8::decode_utf8(kb),
                            value: vstd::utf8::decode_utf8(vb),
                        },
                        n,
                    ),
                )
            } else {
                None
            },
            None => None,
        }
    } else if starts_with(d, lit_rm_pre()) {
        match parse_field1(d, lit_rm_pre(), lit_objs_end()) {
            Some((kb, n)) => if vstd::utf8::valid_utf8(kb) {
                Some(
                    (crate::command::CommandV::Rm { key: vstd::utf8::decode_utf8(kb) }, n),
                )
            } else {
                None
            },
            None => None,
        }
    } else {
        None
    }
}

/// Round trip: a canonical record followed by anything parses back to the
/// command it encodes and to its exact length.
pub proof fn lemma_parse_cmd_enc(c: crate::command::CommandV, rest: Seq<u8>)
    ensures
        parse_cmd(cmd_json(c) + rest) == Some((c, cmd_json(c).len() as int)),
{
    broadcast use vstd::utf8::encode_utf8_valid_utf8, vstd::utf8::encode_utf8_decode_utf8;

    let d = cmd_json(c) + rest;
    match c {
        crate::command::CommandV::Put { key, value } => {
            lemma_parse_field2_enc(
                lit_set_pre(),
                vstd::utf8::encode_utf8(key),
                lit_val_mid(),
                vstd::utf8::encode_utf8(value),
                lit_objs_end(),
                rest,
            );
            assert(d.take(14) =~= lit_set_pre());
        },
        crate::command::CommandV::Rm { key } => {
            lemma_parse_field1_enc(
                lit_rm_pre(),
                vstd::utf8::encode_utf8(key),
                lit_objs_end(),
                rest,
            );
            assert(d.take(13) =~= lit_rm_pre());
            assert(!starts_with(d, lit_set_pre())) by {
                assert(d[2] == 0x52);
                if starts_with(d, lit_set_pre()) {
                    assert(d.take(14)[2] == lit_set_pre()[2]);
                }
            }
        },
    }
}

/// A command record occupies at least one byte and at most the input.
pub proof fn lemma_parse_cmd_len(d: Seq<u8>)
    requires
        parse_cmd(d) is Some,
    ensures
        1 <= parse_cmd(d)->Some_0.1 <= d.len(),
{
    if starts_with(d, lit_set_pre()) {
        lemma_parse_field2_len(d, lit_set_pre(), lit_val_mid(), lit_objs_end());
    } else {
        lemma_parse_field1_len(d, lit_rm_pre(), lit_objs_end());
    }
}

/// The command parser reads only the bytes it consumes.
pub proof fn lemma_parse_cmd_stable(d: Seq<u8>, d2: Seq<u8>)
    requires
        parse_cmd(d) is Some,
        d2.len() >= parse_cmd(d)->Some_0.1,
        d2.take(parse_cmd(d)->Some_0.1) == d.take(parse_cmd(d)->Some_0.1),
    ensures
        parse_cmd(d2) == parse_cmd(d),
{
    let n = parse_cmd(d)->Some_0.1;
    if starts_with(d, lit_set_pre()) {
        lemma_parse_field2_len(d, lit_set_pre(), lit_val_mid(), lit_objs_end());
        assert(d2.take(14) =~= d.take(14)) by {
            assert(forall|i: int| 0 <= i < 14 ==> d2.take(n)[i] == d.take(n)[i]);
        }
        lemma_parse_field2_stable(d, d2, lit_set_pre(), lit_val_mid(), lit_objs_end());
    } else {
        lemma_parse_field1_len(d, lit_rm_pre(), lit_objs_end());
        assert(d2.take(13) =~= d.take(13)) by {
            assert(forall|i: int| 0 <= i < 13 ==> d2.take(n)[i] == d.take(n)[i]);
        }
        assert(starts_with(d2, lit_rm_pre()) == starts_with(d, lit_rm_pre()));
        assert(!starts_with(d2, lit_set_pre())) by {
            if starts_with(d2, lit_set_pre()) {
                assert(d2.take(14)[2] == lit_set_pre()[2]);
                assert(d2[2] == d[2]) by {
                    assert(d2.take(n)[2] == d.take(n)[2]);
                }
                assert(d.take(13)[2] == lit_rm_pre()[2]);
            }
        }
        lemma_parse_field1_stable(d, d2, lit_rm_pre(), lit_objs_end());
    }
}

/// Relies on String::from_utf8: it succeeds exactly on valid UTF-8 and
/// returns the string those bytes encode.
#[verifier::external_body]
pub(crate) fn bytes_to_string(bytes: Vec<u8>) -> (r: Option<String>)
    ensures
        r is Some <==> vstd::utf8::valid_utf8(bytes@),
        r matches Some(s) ==> s@ == vstd::utf8::decode_utf8(bytes@),
{
    String::from_utf8(bytes).ok()
}

fn hex_digit_exec(n: u8) -> (r: u8)
    requires
        n < 16,
    ensures
        r == hex_digit(n),
{
    if n < 10 {
        0x30 + n
    } else {
        0x61 + (n - 10)
    }
}

fn hex_val_exec(b: u8) -> (r: u8)
    requires
        is_hex_digit(b),
    ensures
        r == hex_val(b),
{
    if b <= 0x39 {
        b - 0x30
    } else {
        b - 0x61 + 10
    }
}

/// Append every byte of `lit` to `out`.
pub fn push_bytes(out: &mut Vec<u8>, lit: &[u8])
    ensures
        final(out)@ == old(out)@ + lit@,
{
    let mut i: usize = 0;
    while i < lit.len()
        invariant
            i <= lit@.len(),
            out@ == old(out)@ + lit@.take(i as int),
        decreases lit@.len() - i,
    {
        out.push(lit[i]);
        proof {
            assert(lit@.take(i as int) + seq![lit@[i as int]] =~= lit@.take(i as int + 1));
            assert(out@ =~= old(out)@ + lit@.take(i as int + 1));
        }
        i += 1;
    }
    proof {
        assert(lit@.take(lit@.len() as int) =~= lit@);
    }
}

/// Append the canonical JSON string for `bytes` to `out`.
pub fn push_json_string(out: &mut Vec<u8>, bytes: &[u8])
    ensures
        final(out)@ == old(out)@ + json_string(bytes@),
{
    out.push(QUOTE);
    let mut i: usize = 0;
    while i < bytes.len()
        invariant
            i <= bytes@.len(),
            out@ == old(out)@ + seq![QUOTE] + escape_bytes(bytes@.take(i as int)),
        decreases bytes@.len() - i,
    {
        proof {
            lemma_escape_bytes_snoc(bytes@, i as int);
        }
        let b = bytes[i];
        if b == QUOTE {
            out.push(BACKSLASH);
            out.push(QUOTE);
        } else if b == BACKSLASH {
            out.push(BACKSLASH);
            out.push(BACKSLASH);
        } else if b < 0x20 {
            out.push(BACKSLASH);
            out.push(0x75);
            out.push(0x30);
            out.push(0x30);
            out.push(hex_digit_exec(b / 16));
            out.push(hex_digit_exec(b % 16));
        } else {
            out.push(b);
        }
        proof {
            assert(out@ =~= old(out)@ + seq![QUOTE] + escape_bytes(bytes@.take(i as int + 1)));
        }
        i += 1;
    }
    out.push(QUOTE);
    proof {
        assert(bytes@.take(bytes@.len() as int) =~= bytes@);
        assert(out@ =~= old(out)@ + json_string(bytes@));
    }
}

/// Whether `d`, read from `pos`, begins with the bytes of `lit`.
pub fn match_lit(d: &[u8], pos: usize, lit: &[u8]) -> (r: bool)
    requires
        pos <= d@.len(),
    ensures
        r == starts_with(d@.skip(pos as int), lit@),
{
    if d.len() - pos < lit.len() {
        return false;
    }
    let mut i: usize = 0;
    while i < lit.len()
        invariant
            i <= lit@.len(),
            pos + lit@.len() <= d@.len(),
            d@.len() <= usize::MAX,
            forall|j: int| 0 <= j < i ==> d@[pos + j] == lit@[j],
        decreases lit@.len() - i,
    {
        if d[pos + i] != lit[i] {
            proof {
                assert(d@.skip(pos as int).take(lit@.len() as int)[i as int] == d@[pos + i]);
            }
            return false;
        }
        i += 1;
    }
    proof {
        assert(d@.skip(pos as int).take(lit@.len() as int) =~= lit@);
    }
    true
}

/// Prefix composition for partial string-body parses.
pub open spec fn psb_prepend(pre: Seq<u8>, off: int, r: Option<(Seq<u8>, int)>) -> Option<
    (Seq<u8>, int),
> {
    match r {
        Some((c, n)) => Some((pre + c, off + n)),
        None => None,
    }
}

proof fn lemma_psb_assoc(p1: Seq<u8>, o1: int, p2: Seq<u8>, o2: int, r: Option<(Seq<u8>, int)>)
    ensures
        psb_prepend(p1, o1, psb_prepend(p2, o2, r)) == psb_prepend(p1 + p2, o1 + o2, r),
{
    match r {
        Some((c, n)) => {
            assert(p1 + (p2 + c) =~= (p1 + p2) + c);
        },
        None => {},
    }
}

/// Parse a JSON string whose opening quote sits at `d[pos]`; returns the
/// unescaped content and the index just past the closing quote.
pub fn parse_jstring_at(d: &[u8], pos: usize) -> (r: Option<(Vec<u8>, usize)>)
    requires
        pos <= d@.len(),
    ensures
        match parse_jstring(d@.skip(pos as int)) {
            Some((c, n)) => r matches Some(p) && p.0@ == c && p.1 == pos + n && p.1 <= d@.len(),
            None => r is None,
        },
{
    proof {
        if parse_jstring(d@.skip(pos as int)) is Some {
            lemma_parse_jstring_len(d@.skip(pos as int));
        }
    }
    if pos >= d.len() || d[pos] != QUOTE {
        return None;
    }
    let ghost base = d@.skip(pos as int + 1);
    proof {
        assert(d@.skip(pos as int).skip(1) =~= base);
    }
    let mut content: Vec<u8> = Vec::new();
    let mut i: usize = pos + 1;
    loop
        invariant
            pos + 1 <= i <= d@.len(),
            d@.skip(pos as int)[0] == QUOTE,
            base == d@.skip(pos as int + 1),
            d@.skip(pos as int).skip(1) == base,
            parse_string_body(base) == psb_prepend(
                content@,
                i - (pos + 1),
                parse_string_body(d@.skip(i as int)),
            ),
        decreases d@.len() - i,
    {
        let ghost cur = d@.skip(i as int);
        if i == d.len() {
            proof {
                assert(cur.len() == 0);
            }
            return None;
        }
        let b = d[i];
        proof {
            assert(cur[0] == b);
        }
        if b == QUOTE {
            proof {
                assert(parse_string_body(cur) == Some((Seq::<u8>::empty(), 1int)));
                assert(content@ + Seq::<u8>::empty() =~= content@);
                assert(parse_string_body(base) == Some((content@, i + 1 - (pos + 1))));
                lemma_parse_string_body_len(base);
            }
            return Some((content, i + 1));
        } else if b == BACKSLASH {
            if d.len() - i > 1 && (d[i + 1] == QUOTE || d[i + 1] == BACKSLASH) {
                proof {
                    assert(cur[1] == d@[i + 1]);
                    assert(cur.skip(2) =~= d@.skip(i as int + 2));
                    lemma_psb_assoc(
                        content@,
                        i - (pos + 1),
                        seq![cur[1]],
                        2,
                        parse_string_body(d@.skip(i as int + 2)),
                    );
                    assert(content@ + seq![cur[1]] =~= content@.push(d@[i + 1]));
                }
                content.push(d[i + 1]);
                i += 2;
            } else if d.len() - i > 5 && d[i + 1] == 0x75 && d[i + 2] == 0x30 && d[i + 3] == 0x30
                && (0x30 <= d[i + 4] && d[i + 4] <= 0x39 || 0x61 <= d[i + 4] && d[i + 4] <= 0x66)
                && (0x30 <= d[i + 5] && d[i + 5] <= 0x39 || 0x61 <= d[i + 5] && d[i + 5] <= 0x66)
                && hex_val_exec(d[i + 4]) * 16 + hex_val_exec(d[i + 5]) < 0x20 {
                let v = hex_val_exec(d[i + 4]) * 16 + hex_val_exec(d[i + 5]);
                proof {
                    assert(cur[1] == d@[i + 1] && cur[2] == d@[i + 2] && cur[3] == d@[i + 3]
                        && cur[4] == d@[i + 4] && cur[5] == d@[i + 5]);
                    assert(cur.skip(6) =~= d@.skip(i as int + 6));
                    lemma_psb_assoc(
                        content@,
                        i - (pos + 1),
                        seq![v],
                        6,
                        parse_string_body(d@.skip(i as int + 6)),
                    );
                    assert(content@ + seq![v] =~= content@.push(v));
                }
                content.push(v);
                i += 6;
            } else {
                proof {
                    assert(cur.len() >= 2 ==> cur[1] == d@[i + 1]);
                    assert(cur.len() >= 6 ==> cur[1] == d@[i + 1] && cur[4] == d@[i + 4] && cur[5]
                        == d@[i + 5]);
                    assert(parse_string_body(cur) is None);
                }
                return None;
            }
        } else if b < 0x20 {
            proof {
                assert(parse_string_body(cur) is None);
            }
            return None;
        } else {
            proof {
                assert(cur.skip(1) =~= d@.skip(i as int + 1));
                lemma_psb_assoc(
                    content@,
                    i - (pos + 1),
                    seq![b],
                    1,
                    parse_string_body(d@.skip(i as int + 1)),
                );
                assert(content@ + seq![b] =~= content@.push(b));
            }
            content.push(b);
            i += 1;
        }
    }
}

/// Encode one command into its canonical record bytes.
pub fn encode_command(cmd: &Command) -> (out: Vec<u8>)
    ensures
        out@ == cmd_json(cmd@),
{
    let mut out: Vec<u8> = Vec::new();
    let end: [u8; 2] = [0x7D, 0x7D];
    proof {
        assert(end@ =~= lit_objs_end());
    }
    match cmd {
        Command::Put { key, value } => {
            let pre: [u8; 14] = [
                0x7B,
                0x22,
                0x53,
                0x65,
                0x74,
                0x22,
                0x3A,
                0x7B,
                0x22,
                0x6B,
                0x65,
                0x79,
                0x22,
                0x3A,
            ];
            let mid: [u8; 9] = [0x2C, 0x22, 0x76, 0x61, 0x6C, 0x75, 0x65, 0x22, 0x3A];
            proof {
                assert(pre@ =~= lit_set_pre());
                assert(mid@ =~= lit_val_mid());
            }
            push_bytes(&mut out, pre.as_slice());
            push_json_string(&mut out, key.as_str().as_bytes());
            push_bytes(&mut out, mid.as_slice());
            push_json_string(&mut out, value.as_str().as_bytes());
            push_bytes(&mut out, end.as_slice());
            proof {
                assert(out@ =~= cmd_json(cmd@));
            }
        },
        Command::Rm { key } => {
            let pre: [u8; 13] = [
                0x7B,
                0x22,
                0x52,
                0x6D,
                0x22,
                0x3A,
                0x7B,
                0x22,
                0x6B,
                0x65,
                0x79,
                0x22,
                0x3A,
            ];
            proof {
                assert(pre@ =~= lit_rm_pre());
            }
            push_bytes(&mut out, pre.as_slice());
            push_json_string(&mut out, key.as_str().as_bytes());
            push_bytes(&mut out, end.as_slice());
            proof {
                assert(out@ =~= cmd_json(cmd@));
            }
        },
    }
    out
}

/// Parse one command record from the front of `d`.
pub fn parse_command(d: &[u8]) -> (r: Option<(Command, usize)>)
    ensures
        match parse_cmd(d@) {
            Some((c, n)) => r matches Some(p) && p.0@ == c && p.1 == n,
            None => r is None,
        },
{
    let set_pre: [u8; 14] = [
        0x7B,
        0x22,
        0x53,
        0x65,
        0x74,
        0x22,
        0x3A,
        0x7B,
        0x22,
        0x6B,
        0x65,
        0x79,
        0x22,
        0x3A,
    ];
    let rm_pre: [u8; 13] = [
        0x7B,
        0x22,
        0x52,
        0x6D,
        0x22,
        0x3A,
        0x7B,
        0x22,
        0x6B,
        0x65,
        0x79,
        0x22,
        0x3A,
    ];
    let mid: [u8; 9] = [0x2C, 0x22, 0x76, 0x61, 0x6C, 0x75, 0x65, 0x22, 0x3A];
    let end: [u8; 2] = [0x7D, 0x7D];
    let dlen = d.len();
    proof {
        assert(dlen == d@.len());
        assert(set_pre@ =~= lit_set_pre());
        assert(rm_pre@ =~= lit_rm_pre());
        assert(mid@ =~= lit_val_mid());
        assert(end@ =~= lit_objs_end());
        assert(d@.skip(0) =~= d@);
    }
    if match_lit(d, 0, set_pre.as_slice()) {
        let r1 = match parse_jstring_at(d, 14) {
            Some(p) => p,
            None => {
                return None;
            },
        };
        let (kb, e1) = r1;
        let ghost kbs = kb@;
        if !match_lit(d, e1, mid.as_slice()) {
            return None;
        }
        let r2 = match parse_jstring_at(d, e1 + 9) {
            Some(p) => p,
            None => {
                return None;
            },
        };
        let (vb, e2) = r2;
        let ghost vbs = vb@;
        if !match_lit(d, e2, end.as_slice()) {
            return None;
        }
        proof {
            assert(parse_field2(d@, lit_set_pre(), lit_val_mid(), lit_objs_end()) == Some(
                ((kbs, vbs), e2 + 2),
            ));
        }
        let key = match bytes_to_string(kb) {
            Some(s) => s,
            None => {
                return None;
            },
        };
        let value = match bytes_to_string(vb) {
            Some(s) => s,
            None => {
                return None;
            },
        };
        Some((Command::Put { key, value }, e2 + 2))
    } else if match_lit(d, 0, rm_pre.as_slice()) {
        let r1 = match parse_jstring_at(d, 13) {
            Some(p) => p,
            None => {
                return None;
            },
        };
        let (kb, e1) = r1;
        let ghost kbs = kb@;
        if !match_lit(d, e1, end.as_slice()) {
            return None;
        }
        proof {
            assert(parse_field1(d@, lit_rm_pre(), lit_objs_end()) == Some((kbs, e1 + 2)));
        }
        let key = match bytes_to_string(kb) {
            Some(s) => s,
            None => {
                return None;
            },
        };
        Some((Command::Rm { key }, e1 + 2))
    } else {
        None
    }
}

} // verus!
