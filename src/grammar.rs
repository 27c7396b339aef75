use vstd::prelude::*;
use vstd::utf8::{decode_utf8, valid_utf8};

verus! {

/// What a decoded value is, in mathematical terms.
pub enum Model {
    Text(Seq<char>),
    ErrorText(Seq<char>),
    Integer(int),
    Bulk(Seq<u8>),
    Array(Seq<Model>),
}

/// Why a decode fails, as far as the wire bytes decide it. An invalid input
/// carries the position just past the last byte read; the end of the stream
/// is reached with every byte read.
pub enum Fault {
    EndOfStream,
    Invalid(int),
}

pub open spec fn is_digit(b: u8) -> bool {
    48 <= b <= 57
}

/// The number written by a run of decimal digits.
pub open spec fn digits_value(d: Seq<u8>) -> int
    decreases d.len(),
{
    if d.len() == 0 {
        0
    } else {
        digits_value(d.drop_last()) * 10 + (d.last() - 48)
    }
}

/// The digits of a decimal literal: what follows its sign, if it has one.
pub open spec fn unsigned_part(b: Seq<u8>) -> Seq<u8> {
    if b.len() > 0 && (b[0] == 45u8 || b[0] == 43u8) {
        b.drop_first()
    } else {
        b
    }
}

/// A signed decimal literal as base-10 `i64` text reads it: an optional `+`
/// or `-`, then one or more digits, with a value that fits in an `i64`.
pub open spec fn decimal_of(b: Seq<u8>) -> Option<int> {
    let d = unsigned_part(b);
    let v = if b.len() > 0 && b[0] == 45u8 {
        -digits_value(d)
    } else {
        digits_value(d)
    };
    if d.len() > 0 && (forall|i: int| 0 <= i < d.len() ==> is_digit(#[trigger] d[i])) && i64::MIN <= v
        <= i64::MAX {
        Some(v)
    } else {
        None
    }
}

/// Where the line of a simple string or error that starts at `p` has its
/// `\r`: a `\n` before any `\r` is invalid, and the `\r` must be followed by
/// `\n`.
pub open spec fn text_line(s: Seq<u8>, p: int) -> Result<int, Fault>
    decreases s.len() - p,
{
    if p < 0 || p >= s.len() {
        Err(Fault::EndOfStream)
    } else if s[p] == 13u8 {
        if p + 1 >= s.len() {
            Err(Fault::EndOfStream)
        } else if s[p + 1] == 10u8 {
            Ok(p)
        } else {
            Err(Fault::Invalid(p + 2))
        }
    } else if s[p] == 10u8 {
        Err(Fault::Invalid(p + 1))
    } else {
        text_line(s, p + 1)
    }
}

/// Where the line of a decimal literal that starts at `p` has its `\r`,
/// which must be followed by `\n`.
pub open spec fn number_line(s: Seq<u8>, p: int) -> Result<int, Fault>
    decreases s.len() - p,
{
    if p < 0 || p >= s.len() {
        Err(Fault::EndOfStream)
    } else if s[p] == 13u8 {
        if p + 1 >= s.len() {
            Err(Fault::EndOfStream)
        } else if s[p + 1] == 10u8 {
            Ok(p)
        } else {
            Err(Fault::Invalid(p + 2))
        }
    } else {
        number_line(s, p + 1)
    }
}

/// The simple string whose line starts at `p`, and where it ends.
pub open spec fn text_at(s: Seq<u8>, p: int) -> Result<(Seq<char>, int), Fault> {
    match text_line(s, p) {
        Err(f) => Err(f),
        Ok(c) => if valid_utf8(s.subrange(p, c)) {
            Ok((decode_utf8(s.subrange(p, c)), c + 2))
        } else {
            Err(Fault::Invalid(c + 2))
        },
    }
}

/// The integer whose line starts at `p`, and where it ends.
pub open spec fn integer_at(s: Seq<u8>, p: int) -> Result<(int, int), Fault> {
    match number_line(s, p) {
        Err(f) => Err(f),
        Ok(c) => match decimal_of(s.subrange(p, c)) {
            Some(v) => Ok((v, c + 2)),
            None => Err(Fault::Invalid(c + 2)),
        },
    }
}

/// The payload of the bulk string whose length line starts at `p`, and
/// where it ends. A negative length reads no payload.
pub open spec fn bulk_at(s: Seq<u8>, p: int) -> Result<(Seq<u8>, int), Fault> {
    match integer_at(s, p) {
        Err(f) => Err(f),
        Ok((n, q)) => {
            let len = if n > 0 { n } else { 0 };
            let e = q + len;
            if e >= s.len() {
                Err(Fault::EndOfStream)
            } else if s[e] != 13u8 {
                Err(Fault::Invalid(e + 1))
            } else if e + 1 >= s.len() {
                Err(Fault::EndOfStream)
            } else if s[e + 1] != 10u8 {
                Err(Fault::Invalid(e + 2))
            } else {
                Ok((s.subrange(q, e), e + 2))
            }
        },
    }
}

/// The value that starts at `p`, and where it ends.
pub open spec fn value_at(s: Seq<u8>, p: int) -> Result<(Model, int), Fault>
    decreases s.len() - p, 0int,
{
    if p < 0 || p >= s.len() {
        Err(Fault::EndOfStream)
    } else if s[p] == 43u8 {
        match text_at(s, p + 1) {
            Err(f) => Err(f),
            Ok((t, e)) => Ok((Model::Text(t), e)),
        }
    } else if s[p] == 45u8 {
        match text_at(s, p + 1) {
            Err(f) => Err(f),
            Ok((t, e)) => Ok((Model::ErrorText(t), e)),
        }
    } else if s[p] == 58u8 {
        match integer_at(s, p + 1) {
            Err(f) => Err(f),
            Ok((v, e)) => Ok((Model::Integer(v), e)),
        }
    } else if s[p] == 36u8 {
        match bulk_at(s, p + 1) {
            Err(f) => Err(f),
            Ok((b, e)) => Ok((Model::Bulk(b), e)),
        }
    } else if s[p] == 42u8 {
        match array_at(s, p + 1) {
            Err(f) => Err(f),
            Ok((xs, e)) => Ok((Model::Array(xs), e)),
        }
    } else {
        Err(Fault::Invalid(p + 1))
    }
}

/// The elements of the array whose count line starts at `p`, and where the
/// last one ends. A negative count reads no element.
///
/// Here and in `items_at` a read that did not move forward is refused; that
/// never happens (`lemma_value_bounds`), and it keeps the recursion well founded.
pub open spec fn array_at(s: Seq<u8>, p: int) -> Result<(Seq<Model>, int), Fault>
    decreases s.len() - p, 0int,
{
    match integer_at(s, p) {
        Err(f) => Err(f),
        Ok((n, q)) => if p < q <= s.len() {
            items_at(s, q, n)
        } else {
            Err(Fault::Invalid(p))
        },
    }
}

/// What the bytes `s` decode to, read as one value from their start.
pub open spec fn decode(s: Seq<u8>) -> Result<Model, Fault> {
    match value_at(s, 0) {
        Ok((m, _)) => Ok(m),
        Err(f) => Err(f),
    }
}

/// The `n` values that follow one another from `p`, and where the last ends.
pub open spec fn items_at(s: Seq<u8>, p: int, n: int) -> Result<(Seq<Model>, int), Fault>
    decreases s.len() - p, if n > 0 { n } else { 0 },
{
    if n <= 0 {
        Ok((Seq::empty(), p))
    } else {
        match value_at(s, p) {
            Err(f) => Err(f),
            Ok((m, q)) => if p < q <= s.len() {
                match items_at(s, q, n - 1) {
                    Err(f) => Err(f),
                    Ok((ms, e)) => Ok((seq![m] + ms, e)),
                }
            } else {
                Err(Fault::Invalid(p))
            },
        }
    }
}


pub proof fn lemma_text_line_bounds(s: Seq<u8>, p: int)
    ensures
        text_line(s, p) matches Ok(c) ==> 0 <= p <= c && c + 2 <= s.len() && s[c] == 13u8,
    decreases s.len() - p,
{
    if 0 <= p < s.len() && s[p] != 13u8 && s[p] != 10u8 {
        lemma_text_line_bounds(s, p + 1);
    }
}

pub proof fn lemma_number_line_bounds(s: Seq<u8>, p: int)
    ensures
        number_line(s, p) matches Ok(c) ==> 0 <= p <= c && c + 2 <= s.len() && s[c] == 13u8,
    decreases s.len() - p,
{
    if 0 <= p < s.len() && s[p] != 13u8 {
        lemma_number_line_bounds(s, p + 1);
    }
}

pub proof fn lemma_items_bounds(s: Seq<u8>, p: int, n: int)
    requires
        0 <= p <= s.len(),
    ensures
        items_at(s, p, n) matches Ok((ms, e)) ==> p <= e <= s.len() && ms.len() == if n > 0 {
            n
        } else {
            0
        },
    decreases s.len() - p, if n > 0 { n } else { 0 },
{
    if n > 0 {
        if let Ok((m, q)) = value_at(s, p) {
            if p < q <= s.len() {
                lemma_items_bounds(s, q, n - 1);
            }
        }
    }
}

/// A value that decodes ends after the byte where it starts, and within the input.
pub proof fn lemma_value_bounds(s: Seq<u8>, p: int)
    ensures
        value_at(s, p) matches Ok((m, q)) ==> 0 <= p < q <= s.len(),
{
    lemma_text_line_bounds(s, p + 1);
    lemma_number_line_bounds(s, p + 1);
    if 0 <= p < s.len() && s[p] == 42u8 {
        if let Ok((n, q)) = integer_at(s, p + 1) {
            if p + 1 < q <= s.len() {
                lemma_items_bounds(s, q, n);
            }
        }
    }
}

} // verus!
