use crate::grammar::{
    decimal_of, digits_value, integer_at, is_digit, items_at, lemma_value_bounds, number_line, text_line,
    unsigned_part, value_at, Fault, Model,
};
use vstd::prelude::*;
use vstd::utf8::{encode_utf8, encode_utf8_decode_utf8, encode_utf8_valid_utf8};

verus! {

/// The decimal digits of `n`, most significant first, with no leading zero.
pub open spec fn decimal_text(n: nat) -> Seq<u8>
    decreases n,
{
    if n < 10 {
        seq![(n + 48) as u8]
    } else {
        decimal_text(n / 10) + seq![(n % 10 + 48) as u8]
    }
}

/// `v` written in base 10, with a `-` when it is negative.
pub open spec fn integer_text(v: int) -> Seq<u8> {
    if v < 0 {
        seq![45u8] + decimal_text((-v) as nat)
    } else {
        decimal_text(v as nat)
    }
}

pub open spec fn crlf() -> Seq<u8> {
    seq![13u8, 10u8]
}

/// Bytes that may stand inside a line: no `\r` and no `\n`.
pub open spec fn line_safe(b: Seq<u8>) -> bool {
    forall|i: int| 0 <= i < b.len() ==> #[trigger] b[i] != 13u8 && b[i] != 10u8
}

/// The wire bytes of a value.
pub open spec fn encoding(m: Model) -> Seq<u8>
    decreases m,
{
    match m {
        Model::Text(t) => seq![43u8] + encode_utf8(t) + crlf(),
        Model::ErrorText(t) => seq![45u8] + encode_utf8(t) + crlf(),
        Model::Integer(v) => seq![58u8] + integer_text(v) + crlf(),
        Model::Bulk(b) => seq![36u8] + integer_text(b.len() as int) + crlf() + b + crlf(),
        Model::Array(xs) => seq![42u8] + integer_text(xs.len() as int) + crlf() + items_encoding(
            xs,
        ),
    }
}

/// The encodings of `xs`, one after another.
pub open spec fn items_encoding(xs: Seq<Model>) -> Seq<u8>
    decreases xs,
{
    if xs.len() == 0 {
        Seq::empty()
    } else {
        encoding(xs[0]) + items_encoding(xs.drop_first())
    }
}

/// A value that has an encoding: texts hold no `\r` or `\n`, and every
/// integer, length and count fits in an `i64`.
pub open spec fn encodable(m: Model) -> bool
    decreases m,
{
    match m {
        Model::Text(t) => line_safe(encode_utf8(t)),
        Model::ErrorText(t) => line_safe(encode_utf8(t)),
        Model::Integer(v) => i64::MIN <= v <= i64::MAX,
        Model::Bulk(b) => b.len() <= i64::MAX,
        Model::Array(xs) => xs.len() <= i64::MAX && forall|i: int|
            0 <= i < xs.len() ==> encodable(#[trigger] xs[i]),
    }
}


pub proof fn lemma_decimal_text(n: nat)
    ensures
        decimal_text(n).len() >= 1,
        forall|i: int| 0 <= i < decimal_text(n).len() ==> is_digit(#[trigger] decimal_text(n)[i]),
        digits_value(decimal_text(n)) == n,
    decreases n,
{
    let t = decimal_text(n);
    if n >= 10 {
        lemma_decimal_text(n / 10);
        assert(t.drop_last() =~= decimal_text(n / 10));
        assert(n == (n / 10) * 10 + n % 10) by (nonlinear_arith);
        assert(t.last() as int == n % 10 + 48);
        assert(digits_value(t) == digits_value(t.drop_last()) * 10 + (t.last() - 48));
    } else {
        assert(t.drop_last() =~= Seq::<u8>::empty());
        assert(t.last() as int == n + 48);
        assert(digits_value(t.drop_last()) == 0);
        assert(digits_value(t) == digits_value(t.drop_last()) * 10 + (t.last() - 48));
    }
}

pub proof fn lemma_integer_text(v: int)
    requires
        i64::MIN <= v <= i64::MAX,
    ensures
        decimal_of(integer_text(v)) == Some(v),
        integer_text(v).len() >= 1,
        line_safe(integer_text(v)),
{
    let t = integer_text(v);
    if v < 0 {
        lemma_decimal_text((-v) as nat);
        assert(unsigned_part(t) =~= decimal_text((-v) as nat));
    } else {
        lemma_decimal_text(v as nat);
        assert(unsigned_part(t) =~= decimal_text(v as nat));
    }
}

/// A line whose bytes from `p` hold no `\r` before `c`, where `\r\n` stands.
pub proof fn lemma_number_line_at(s: Seq<u8>, p: int, c: int)
    requires
        0 <= p <= c,
        c + 1 < s.len(),
        s[c] == 13u8,
        s[c + 1] == 10u8,
        forall|i: int| p <= i < c ==> #[trigger] s[i] != 13u8,
    ensures
        number_line(s, p) == Ok::<_, crate::grammar::Fault>(c),
    decreases c - p,
{
    if p < c {
        lemma_number_line_at(s, p + 1, c);
    }
}

/// A line whose bytes from `p` hold no `\r` or `\n` before `c`, where `\r\n` stands.
pub proof fn lemma_text_line_at(s: Seq<u8>, p: int, c: int)
    requires
        0 <= p <= c,
        c + 1 < s.len(),
        s[c] == 13u8,
        s[c + 1] == 10u8,
        forall|i: int| p <= i < c ==> #[trigger] s[i] != 13u8 && s[i] != 10u8,
    ensures
        text_line(s, p) == Ok::<_, crate::grammar::Fault>(c),
    decreases c - p,
{
    if p < c {
        lemma_text_line_at(s, p + 1, c);
    }
}

/// An integer line that starts at `p` and holds the text of `v` reads `v`.
pub proof fn lemma_integer_line(s: Seq<u8>, p: int, v: int)
    requires
        i64::MIN <= v <= i64::MAX,
        0 <= p,
        p + integer_text(v).len() + 2 <= s.len(),
        s.subrange(p, p + integer_text(v).len() + 2) == integer_text(v) + crlf(),
    ensures
        integer_at(s, p) == Ok::<_, crate::grammar::Fault>((v, p + integer_text(v).len() + 2)),
{
    let t = integer_text(v);
    let c = p + t.len();
    lemma_integer_text(v);
    let w = t + crlf();
    assert forall|i: int| p <= i < c implies #[trigger] s[i] != 13u8 by {
        assert(s[i] == s.subrange(p, c + 2)[i - p]);
        assert(w[i - p] == t[i - p]);
    }
    assert(s[c] == s.subrange(p, c + 2)[c - p]);
    assert(s[c + 1] == s.subrange(p, c + 2)[c + 1 - p]);
    lemma_number_line_at(s, p, c);
    assert(s.subrange(p, c) =~= t) by {
        assert forall|i: int| 0 <= i < t.len() implies s.subrange(p, c)[i] == t[i] by {
            assert(s.subrange(p, c + 2)[i] == w[i]);
        }
    }
}


/// `e` stands in `s` from `p` on.
proof fn lemma_window(s: Seq<u8>, p: int, e: Seq<u8>)
    requires
        0 <= p,
        p + e.len() <= s.len(),
        s.subrange(p, p + e.len()) == e,
    ensures
        forall|j: int| p <= j < p + e.len() ==> #[trigger] s[j] == e[j - p],
        forall|a: int, b: int|
            p <= a <= b <= p + e.len() ==> #[trigger] s.subrange(a, b) == e.subrange(a - p, b - p),
{
    assert forall|j: int| p <= j < p + e.len() implies #[trigger] s[j] == e[j - p] by {
        assert(s.subrange(p, p + e.len())[j - p] == s[j]);
    }
    assert forall|a: int, b: int| p <= a <= b <= p + e.len() implies #[trigger] s.subrange(a, b)
        == e.subrange(a - p, b - p) by {
        assert(s.subrange(a, b) =~= e.subrange(a - p, b - p));
    }
}

/// A simple string or error with text `t` decodes from its encoding.
proof fn lemma_text_decodes(s: Seq<u8>, p: int, m: Model, tag: u8, t: Seq<char>)
    requires
        m == Model::Text(t) || m == Model::ErrorText(t),
        tag == if m is Text {
            43u8
        } else {
            45u8
        },
        encodable(m),
        0 <= p,
        p + encoding(m).len() <= s.len(),
        s.subrange(p, p + encoding(m).len()) == encoding(m),
    ensures
        value_at(s, p) == Ok::<_, Fault>((m, p + encoding(m).len())),
{
    let e = encoding(m);
    let u = encode_utf8(t);
    let c = p + 1 + u.len();
    lemma_window(s, p, e);
    assert(e == seq![tag] + u + crlf());
    assert(s[p] == e[0]);
    assert(s[c] == e[c - p]);
    assert(s[c + 1] == e[c + 1 - p]);
    assert forall|i: int| p + 1 <= i < c implies #[trigger] s[i] != 13u8 && s[i] != 10u8 by {
        assert(s[i] == e[i - p]);
        assert(e[i - p] == u[i - p - 1]);
    }
    lemma_text_line_at(s, p + 1, c);
    assert(s.subrange(p + 1, c) == e.subrange(1, c - p));
    assert(e.subrange(1, c - p) =~= u);
    encode_utf8_valid_utf8(t);
    encode_utf8_decode_utf8(t);
}

/// A bulk string decodes from its encoding.
#[verifier::rlimit(30)]
proof fn lemma_bulk_decodes(s: Seq<u8>, p: int, b: Seq<u8>)
    requires
        encodable(Model::Bulk(b)),
        0 <= p,
        p + encoding(Model::Bulk(b)).len() <= s.len(),
        s.subrange(p, p + encoding(Model::Bulk(b)).len()) == encoding(Model::Bulk(b)),
    ensures
        value_at(s, p) == Ok::<_, Fault>((Model::Bulk(b), p + encoding(Model::Bulk(b)).len())),
{
    let e = encoding(Model::Bulk(b));
    let n = b.len() as int;
    let w = integer_text(n);
    let q = p + 1 + w.len() + 2;
    let h = seq![36u8] + w + crlf();
    assert(e == h + b + crlf());
    assert(h.len() == q - p);
    lemma_window(s, p, e);
    assert(s[p] == e[0]);
    assert(s.subrange(p + 1, q) == e.subrange(1, q - p));
    assert(e.subrange(1, q - p) =~= w + crlf());
    lemma_integer_line(s, p + 1, n);
    assert(e[q + n - p] == 13u8);
    assert(e[q + n + 1 - p] == 10u8);
    assert(s[q + n] == e[q + n - p]);
    assert(s[q + n + 1] == e[q + n + 1 - p]);
    assert(s.subrange(q, q + n) == e.subrange(q - p, q + n - p));
    assert(e.subrange(q - p, q + n - p) =~= b);
}

/// The encoding of an encodable value, wherever it stands in `s`, decodes
/// to that value and ends right after it.
pub proof fn lemma_encoding_decodes(s: Seq<u8>, p: int, m: Model)
    requires
        encodable(m),
        0 <= p,
        p + encoding(m).len() <= s.len(),
        s.subrange(p, p + encoding(m).len()) == encoding(m),
    ensures
        value_at(s, p) == Ok::<_, Fault>((m, p + encoding(m).len())),
    decreases m, 1int, 0int,
{
    let e = encoding(m);
    match m {
        Model::Text(t) => {
            lemma_text_decodes(s, p, m, 43u8, t);
        },
        Model::ErrorText(t) => {
            lemma_text_decodes(s, p, m, 45u8, t);
        },
        Model::Integer(v) => {
            lemma_window(s, p, e);
            assert(s[p] == e[0]);
            assert(s.subrange(p + 1, p + e.len()) == e.subrange(1, e.len() as int));
            assert(e.subrange(1, e.len() as int) =~= integer_text(v) + crlf());
            lemma_integer_line(s, p + 1, v);
        },
        Model::Bulk(b) => {
            lemma_bulk_decodes(s, p, b);
        },
        Model::Array(xs) => {
            let n = xs.len() as int;
            let w = integer_text(n);
            let q = p + 1 + w.len() + 2;
            let f = items_encoding(xs);
            lemma_window(s, p, e);
            assert(e == seq![42u8] + w + crlf() + f);
            assert(s[p] == e[0]);
            assert(s.subrange(p + 1, q) == e.subrange(1, q - p));
            assert(e.subrange(1, q - p) =~= w + crlf());
            lemma_integer_line(s, p + 1, n);
            assert(s.subrange(q, q + f.len()) == e.subrange(q - p, q - p + f.len()));
            assert(e.subrange(q - p, q - p + f.len()) =~= f);
            assert(xs.subrange(0, n) =~= xs);
            lemma_items_decode(s, q, m, xs, 0);
        },
    }
}

/// The encodings of `xs[k..]`, one after another from `p`, decode to those
/// values.
proof fn lemma_items_decode(s: Seq<u8>, p: int, m: Model, xs: Seq<Model>, k: int)
    requires
        m == Model::Array(xs),
        encodable(m),
        0 <= k <= xs.len(),
        0 <= p,
        p + items_encoding(xs.subrange(k, xs.len() as int)).len() <= s.len(),
        s.subrange(p, p + items_encoding(xs.subrange(k, xs.len() as int)).len()) == items_encoding(
            xs.subrange(k, xs.len() as int),
        ),
    ensures
        items_at(s, p, xs.len() - k) == Ok::<_, Fault>(
            (
                xs.subrange(k, xs.len() as int),
                p + items_encoding(xs.subrange(k, xs.len() as int)).len(),
            ),
        ),
    decreases m, 0int, xs.len() - k,
{
    let n = xs.len() as int;
    let rest = xs.subrange(k, n);
    let fk = items_encoding(rest);
    if k < n {
        let x = xs[k];
        let ex = encoding(x);
        let fk1 = items_encoding(xs.subrange(k + 1, n));
        assert(rest.drop_first() =~= xs.subrange(k + 1, n));
        assert(rest[0] == x);
        assert(fk == ex + fk1);
        lemma_window(s, p, fk);
        assert(s.subrange(p, p + ex.len()) == fk.subrange(0, ex.len() as int));
        assert(fk.subrange(0, ex.len() as int) =~= ex);
        assert(s.subrange(p + ex.len(), p + ex.len() + fk1.len()) == fk.subrange(
            ex.len() as int,
            fk.len() as int,
        ));
        assert(fk.subrange(ex.len() as int, fk.len() as int) =~= fk1);
        assert(encodable(x));
        lemma_encoding_decodes(s, p, x);
        lemma_value_bounds(s, p);
        lemma_items_decode(s, p + ex.len(), m, xs, k + 1);
        assert(seq![x] + xs.subrange(k + 1, n) =~= rest);
    } else {
        assert(rest =~= Seq::<Model>::empty());
    }
}

} // verus!
