use crate::grammar::{
    bulk_at, decode, integer_at, lemma_number_line_bounds, text_at, text_line, value_at, Fault,
    Model,
};
use crate::encoding::{
    crlf, encodable, encoding, integer_text, lemma_encoding_decodes, lemma_integer_line,
};
use vstd::prelude::*;

verus! {

/// Round trip: the encoding of any encodable value, followed by any bytes,
/// decodes to that value, and the value ends where its encoding ends.
pub proof fn encoding_round_trips(m: Model, rest: Seq<u8>)
    requires
        encodable(m),
    ensures
        value_at(encoding(m) + rest, 0) == Ok::<_, Fault>((m, encoding(m).len() as int)),
        decode(encoding(m) + rest) == Ok::<_, Fault>(m),
{
    let s = encoding(m) + rest;
    assert(s.subrange(0, encoding(m).len() as int) =~= encoding(m));
    lemma_encoding_decodes(s, 0, m);
}

/// `$<N>\r\n`, then any `N` bytes (`\r` and `\n` included), then `\r\n`
/// decodes to a bulk string of exactly those bytes, and nothing after it is read.
pub proof fn bulk_payload_is_exact(payload: Seq<u8>, rest: Seq<u8>)
    requires
        payload.len() <= i64::MAX,
    ensures
        value_at(
            seq![36u8] + integer_text(payload.len() as int) + crlf() + payload + crlf() + rest,
            0,
        ) == Ok::<_, Fault>(
            (
                Model::Bulk(payload),
                (1 + integer_text(payload.len() as int).len() + 2 + payload.len() + 2) as int,
            ),
        ),
{
    let m = Model::Bulk(payload);
    encoding_round_trips(m, rest);
    assert(encoding(m) + rest =~= seq![36u8] + integer_text(payload.len() as int) + crlf()
        + payload + crlf() + rest);
}

/// After the `$` tag, a length line for `N`, then any `N` bytes, then
/// `\r\n` read as exactly those bytes, and nothing after them is read.
pub proof fn bulk_body_is_exact(payload: Seq<u8>, rest: Seq<u8>)
    requires
        payload.len() <= i64::MAX,
    ensures
        bulk_at(integer_text(payload.len() as int) + crlf() + payload + crlf() + rest, 0)
            == Ok::<_, Fault>(
            (payload, (integer_text(payload.len() as int).len() + 2 + payload.len() + 2) as int),
        ),
{
    let n = payload.len() as int;
    let w = integer_text(n);
    let s = w + crlf() + payload + crlf() + rest;
    let q = w.len() + 2;
    assert(s.subrange(0, q as int) =~= w + crlf());
    lemma_integer_line(s, 0, n);
    assert(s[q + n] == 13u8);
    assert(s[q + n + 1] == 10u8);
    assert(s.subrange(q as int, q + n) =~= payload);
}

/// A bulk string whose length line reads `n` is exactly the `n` bytes that
/// follow that line, whatever they are (`\r` and `\n` included), provided
/// `\r\n` comes right after them; the value ends there.
pub proof fn bulk_reads_declared_length(s: Seq<u8>, n: int, q: int)
    requires
        s.len() > 0,
        s[0] == 36u8,
        integer_at(s, 1) == Ok::<_, Fault>((n, q)),
        n >= 0,
        q + n + 2 <= s.len(),
        s[q + n] == 13u8,
        s[q + n + 1] == 10u8,
    ensures
        value_at(s, 0) == Ok::<_, Fault>((Model::Bulk(s.subrange(q, q + n)), q + n + 2)),
        decode(s) == Ok::<_, Fault>(Model::Bulk(s.subrange(q, q + n))),
        s.subrange(q, q + n).len() == n,
{
    lemma_number_line_bounds(s, 1);
}

/// In the line of a simple string or error, a `\n` that comes before any
/// `\r` makes the line invalid, and reading stops right after that `\n`.
pub proof fn bare_newline_is_invalid(s: Seq<u8>, p: int, k: int)
    requires
        0 <= p <= k < s.len(),
        s[k] == 10u8,
        forall|i: int| p <= i < k ==> #[trigger] s[i] != 13u8 && s[i] != 10u8,
    ensures
        text_line(s, p) == Err::<int, Fault>(Fault::Invalid(k + 1)),
        text_at(s, p) == Err::<(Seq<char>, int), Fault>(Fault::Invalid(k + 1)),
    decreases k - p,
{
    if p < k {
        bare_newline_is_invalid(s, p + 1, k);
    }
}

/// A simple string or error whose text holds a `\n` before any `\r` does
/// not decode: it is invalid, and nothing after that `\n` is read.
pub proof fn bare_newline_in_text_is_invalid(s: Seq<u8>, k: int)
    requires
        0 < k < s.len(),
        s[0] == 43u8 || s[0] == 45u8,
        s[k] == 10u8,
        forall|i: int| 1 <= i < k ==> #[trigger] s[i] != 13u8 && s[i] != 10u8,
    ensures
        decode(s) == Err::<Model, Fault>(Fault::Invalid(k + 1)),
{
    bare_newline_is_invalid(s, 1, k);
}

/// A stream whose first byte is none of `+`, `-`, `:`, `$`, `*` is invalid,
/// and only that byte is read.
pub proof fn unknown_tag_is_invalid(s: Seq<u8>)
    requires
        s.len() > 0,
        s[0] != 43u8 && s[0] != 45u8 && s[0] != 58u8 && s[0] != 36u8 && s[0] != 42u8,
    ensures
        decode(s) == Err::<Model, Fault>(Fault::Invalid(1)),
{
}

/// An empty stream ends before a value: decoding it fails with end of stream.
pub proof fn empty_input_ends_stream(s: Seq<u8>)
    requires
        s.len() == 0,
    ensures
        decode(s) == Err::<Model, Fault>(Fault::EndOfStream),
{
}

} // verus!
