use crate::grammar::{
    array_at, bulk_at, decimal_of, decode, unsigned_part, digits_value, integer_at, is_digit, items_at,
    lemma_number_line_bounds, lemma_text_line_bounds, lemma_value_bounds, number_line, text_at,
    text_line, value_at, Fault, Model,
};
use crate::encoding::decimal_text;
use crate::source::{ByteReader, ByteSource};
use vstd::prelude::*;
use vstd::string::{StringExecFns, StringSliceAdditionalSpecFns};
use vstd::utf8::{decode_utf8, valid_utf8};

verus! {

/// Why a decode failed.
#[derive(Debug)]
pub enum Error {
    IoError(std::io::Error),
    InvalidValue(String),
    EndOfStream,
}

/// One decoded value.
#[derive(Debug, PartialEq, Eq)]
pub enum Value {
    String(String),
    Error(String),
    Integer(i64),
    BulkString(Vec<u8>),
    Array(Vec<Value>),
}

impl View for Value {
    type V = Model;

    open spec fn view(&self) -> Model
        decreases self,
    {
        match self {
            Value::String(s) => Model::Text(s@),
            Value::Error(s) => Model::ErrorText(s@),
            Value::Integer(n) => Model::Integer(*n as int),
            Value::BulkString(b) => Model::Bulk(b@),
            Value::Array(items) => Model::Array(
                Seq::new(
                    items.len() as nat,
                    |i: int|
                        if 0 <= i < items.len() {
                            items[i]@
                        } else {
                            Model::Integer(0)
                        },
                ),
            ),
        }
    }
}

impl Clone for Value {
    fn clone(&self) -> (r: Value)
        ensures
            r@ == self@,
        decreases self,
    {
        match self {
            Value::String(s) => Value::String(s.clone()),
            Value::Error(s) => Value::Error(s.clone()),
            Value::Integer(n) => Value::Integer(*n),
            Value::BulkString(b) => Value::BulkString(b.clone()),
            Value::Array(items) => {
                let mut out: Vec<Value> = Vec::new();
                let mut i: usize = 0;
                while i < items.len()
                    invariant
                        *self == Value::Array(*items),
                        i <= items.len(),
                        out@.len() == i,
                        forall|j: int| 0 <= j < i ==> #[trigger] out@[j]@ == items@[j]@,
                    decreases items.len() - i,
                {
                    proof {
                        assert(decreases_to!(*self => (*self)->Array_0));
                        assert(decreases_to!(*items => items[i as int])) by {
                            broadcast use vstd::std_specs::vec::axiom_vec_index_decreases;

                        }
                        assert(decreases_to!(*self => items[i as int]));
                    }
                    out.push(items[i].clone());
                    i = i + 1;
                }
                proof {
                    let xs = match Value::Array(out)@ {
                        Model::Array(xs) => xs,
                        _ => Seq::empty(),
                    };
                    let ys = match self@ {
                        Model::Array(ys) => ys,
                        _ => Seq::empty(),
                    };
                    assert(xs.len() == ys.len());
                    assert forall|j: int| 0 <= j < xs.len() implies xs[j] == ys[j] by {
                        assert(xs[j] == out@[j]@);
                        assert(ys[j] == items@[j]@);
                    }
                    assert(xs =~= ys);
                }
                Value::Array(out)
            },
        }
    }
}

/// The models of a sequence of values, in order.
pub open spec fn models(vs: Seq<Value>) -> Seq<Model> {
    vs.map_values(|v: Value| v@)
}

/// An error, raised with the source at `stop` of an input of `len` bytes,
/// stands for the grammar's outcome `g` when both fail the same way at the
/// same place. A failure of the source itself stands for any outcome.
pub open spec fn error_matches<A>(e: Error, g: Result<A, Fault>, stop: int, len: nat) -> bool {
    match e {
        Error::EndOfStream => g == Err::<A, Fault>(Fault::EndOfStream) && stop == len,
        Error::InvalidValue(_) => g == Err::<A, Fault>(Fault::Invalid(stop)),
        Error::IoError(_) => true,
    }
}

/// An error stands for the grammar's outcome `g` when both fail the same way.
/// A failure of the source itself stands for any outcome.
pub open spec fn fails_as<A>(e: Error, g: Result<A, Fault>) -> bool {
    match e {
        Error::EndOfStream => g == Err::<A, Fault>(Fault::EndOfStream),
        Error::InvalidValue(_) => g is Err && g->Err_0 is Invalid,
        Error::IoError(_) => true,
    }
}

/// `r` with the models `pre` put before its elements.
pub open spec fn prefixed(pre: Seq<Model>, r: Result<(Seq<Model>, int), Fault>) -> Result<
    (Seq<Model>, int),
    Fault,
> {
    match r {
        Ok((ms, e)) => Ok((pre + ms, e)),
        Err(f) => Err(f),
    }
}

/// Relies on `String::from_utf8`: it accepts exactly the byte sequences that
/// are well-formed UTF-8, and the string holds the characters they encode.
#[verifier::external_body]
fn utf8_text(bytes: Vec<u8>) -> (r: Option<String>)
    ensures
        r is Some <==> valid_utf8(bytes@),
        r matches Some(t) ==> t@ == decode_utf8(bytes@),
{
    String::from_utf8(bytes).ok()
}

/// Whether `b` is one of the five type tags `+`, `-`, `:`, `$`, `*`.
pub open spec fn is_tag(b: u8) -> bool {
    b == 43u8 || b == 45u8 || b == 58u8 || b == 36u8 || b == 42u8
}

/// The message that names an unknown type tag `b`, in decimal.
pub open spec fn tag_message(b: u8) -> Seq<char> {
    "Invalid character "@ + decimal_text(b as nat).map_values(|d: u8| d as char)
}

/// `r` is the error that names the unknown type tag `b`, unless the source
/// failed first.
pub open spec fn names_tag<T>(r: Result<T, Error>, b: u8) -> bool {
    match r {
        Err(Error::InvalidValue(msg)) => msg@ == tag_message(b),
        Err(Error::IoError(_)) => true,
        _ => false,
    }
}

/// The one-character text of the digit `d`.
fn digit_str(d: u8) -> (r: &'static str)
    requires
        d < 10,
    ensures
        r@ == seq![((d + 48) as u8) as char],
{
    proof {
        reveal_strlit("0");
        reveal_strlit("1");
        reveal_strlit("2");
        reveal_strlit("3");
        reveal_strlit("4");
        reveal_strlit("5");
        reveal_strlit("6");
        reveal_strlit("7");
        reveal_strlit("8");
        reveal_strlit("9");
    }
    if d == 0 {
        "0"
    } else if d == 1 {
        "1"
    } else if d == 2 {
        "2"
    } else if d == 3 {
        "3"
    } else if d == 4 {
        "4"
    } else if d == 5 {
        "5"
    } else if d == 6 {
        "6"
    } else if d == 7 {
        "7"
    } else if d == 8 {
        "8"
    } else {
        "9"
    }
}

/// The error message for the unknown type tag `b`.
fn tag_error_text(b: u8) -> (r: String)
    ensures
        r@ == tag_message(b),
{
    let mut r = "Invalid character ".to_owned();
    let ghost head = r@;
    if b >= 100 {
        r.append(digit_str(b / 100));
    }
    if b >= 10 {
        r.append(digit_str((b / 10) % 10));
    }
    r.append(digit_str(b % 10));
    proof {
        let n = b as nat;
        let ds = decimal_text(n);
        if b >= 100 {
            assert(n / 10 / 10 == b / 100);
            assert(decimal_text(n / 10 / 10) =~= seq![((b / 100 + 48) as u8)]);
            assert(decimal_text(n / 10) =~= decimal_text(n / 10 / 10) + seq![
                (((n / 10) % 10 + 48) as u8),
            ]);
            assert(ds =~= seq![((b / 100 + 48) as u8), (((b / 10) % 10 + 48) as u8), ((b % 10
                + 48) as u8)]);
        } else if b >= 10 {
            assert(decimal_text(n / 10) =~= seq![(((b / 10) % 10 + 48) as u8)]);
            assert(ds =~= seq![(((b / 10) % 10 + 48) as u8), ((b % 10 + 48) as u8)]);
        } else {
            assert(ds =~= seq![((b % 10 + 48) as u8)]);
        }
        assert(r@ =~= head + ds.map_values(|d: u8| d as char));
    }
    r
}

/// Decodes one value at a time from a byte source.
pub struct Deserialer<R: ByteSource> {
    stream: R,
    origin: Ghost<Seq<u8>>,
}

impl<R: ByteSource> Deserialer<R> {
    /// Everything the source held when decoding began.
    pub closed spec fn input(&self) -> Seq<u8> {
        self.origin@
    }

    /// How many bytes of `input()` have been consumed.
    pub closed spec fn pos(&self) -> int {
        self.origin@.len() - self.stream.pending().len()
    }

    /// Whether every read from the source succeeds.
    pub closed spec fn faultless(&self) -> bool {
        self.stream.faultless()
    }

    /// The source holds what is left of `input()`.
    pub closed spec fn wf(&self) -> bool {
        &&& self.stream.pending().len() <= self.origin@.len()
        &&& self.stream.pending() == self.origin@.subrange(self.pos(), self.origin@.len() as int)
    }

    pub fn new(stream: R) -> (r: Deserialer<R>)
        ensures
            r.wf(),
            r.input() == stream.pending(),
            r.pos() == 0,
            r.faultless() == stream.faultless(),
    {
        let ghost origin = stream.pending();
        let r = Deserialer { stream, origin: Ghost(origin) };
        assert(origin.subrange(0, origin.len() as int) =~= origin);
        r
    }

    /// A well-formed decoder stands within its input.
    pub proof fn lemma_position_bounds(&self)
        requires
            self.wf(),
        ensures
            0 <= self.pos() <= self.input().len(),
    {
    }

    /// Gives the source back, holding exactly the bytes not read yet.
    pub fn into_inner(self) -> (r: R)
        requires
            self.wf(),
        ensures
            r.pending() == self.input().subrange(self.pos(), self.input().len() as int),
            r.faultless() == self.faultless(),
    {
        self.stream
    }

    fn peek_byte(&mut self) -> (r: Result<u8, Error>)
        requires
            old(self).wf(),
        ensures
            final(self).input() == old(self).input(),
            old(self).faultless() ==> final(self).faultless(),
            r matches Err(Error::IoError(_)) ==> !old(self).faultless(),
            !(r matches Err(Error::IoError(_))) ==> final(self).wf(),
            match r {
                Ok(b) => {
                    &&& final(self).wf()
                    &&& old(self).pos() < old(self).input().len()
                    &&& b == old(self).input()[old(self).pos()]
                    &&& final(self).pos() == old(self).pos() + 1
                },
                Err(Error::EndOfStream) => old(self).pos() >= old(self).input().len()
                    && final(self).pos() == old(self).pos(),
                Err(Error::InvalidValue(_)) => false,
                Err(Error::IoError(_)) => true,
            },
    {
        match self.stream.read_byte() {
            Ok(Some(b)) => {
                assert(self.stream.pending() =~= self.origin@.subrange(
                    self.pos(),
                    self.origin@.len() as int,
                ));
                Ok(b)
            },
            Ok(None) => Err(Error::EndOfStream),
            Err(e) => Err(Error::IoError(e)),
        }
    }

    /// Reads the `\n` that must follow a `\r`.
    fn check_ending(&mut self) -> (r: Result<(), Error>)
        requires
            old(self).wf(),
        ensures
            final(self).input() == old(self).input(),
            old(self).faultless() ==> final(self).faultless(),
            r matches Err(Error::IoError(_)) ==> !old(self).faultless(),
            !(r matches Err(Error::IoError(_))) ==> final(self).wf(),
            match r {
                Ok(()) => {
                    &&& final(self).wf()
                    &&& old(self).pos() < old(self).input().len()
                    &&& old(self).input()[old(self).pos()] == 10u8
                    &&& final(self).pos() == old(self).pos() + 1
                },
                Err(Error::EndOfStream) => old(self).pos() >= old(self).input().len()
                    && final(self).pos() == old(self).pos(),
                Err(Error::InvalidValue(_)) => {
                    &&& old(self).pos() < old(self).input().len()
                    &&& old(self).input()[old(self).pos()] != 10u8
                    &&& final(self).pos() == old(self).pos() + 1
                },
                Err(Error::IoError(_)) => true,
            },
    {
        match self.peek_byte() {
            Ok(b) => if b == 10u8 {
                Ok(())
            } else {
                Err(Error::InvalidValue("line does not end with \\r\\n".to_owned()))
            },
            Err(e) => Err(e),
        }
    }

    /// Reads a simple string up to and including its `\r\n`.
    pub fn parse_string(&mut self) -> (r: Result<String, Error>)
        requires
            old(self).wf(),
        ensures
            final(self).input() == old(self).input(),
            old(self).faultless() ==> final(self).faultless(),
            r matches Err(Error::IoError(_)) ==> !old(self).faultless(),
            !(r matches Err(Error::IoError(_))) ==> final(self).wf(),
            match r {
                Ok(t) => final(self).wf() && text_at(old(self).input(), old(self).pos()) == Ok::<_, Fault>(
                    (t@, final(self).pos()),
                ),
                Err(e) => error_matches(e, text_at(old(self).input(), old(self).pos()), final(self).pos(), old(self).input().len()),
            },
    {
        let ghost s = self.input();
        let ghost begin = self.pos();
        let mut result: Vec<u8> = Vec::new();
        loop
            invariant
                self.wf(),
                self.input() == s,
                s == old(self).input(),
                begin == old(self).pos(),
                0 <= begin <= self.pos() <= s.len(),
                old(self).faultless() ==> self.faultless(),
                result@ == s.subrange(begin, self.pos()),
                text_line(s, begin) == text_line(s, self.pos()),
            decreases s.len() - self.pos(),
        {
            let c = match self.peek_byte() {
                Ok(c) => c,
                Err(e) => {
                    return Err(e);
                },
            };
            if c == 13u8 {
                match self.check_ending() {
                    Ok(()) => {},
                    Err(e) => {
                        return Err(e);
                    },
                }
                proof {
                    lemma_text_line_bounds(s, begin);
                }
                match utf8_text(result) {
                    Some(t) => {
                        return Ok(t);
                    },
                    None => {
                        return Err(Error::InvalidValue("text is not UTF-8".to_owned()));
                    },
                }
            } else if c == 10u8 {
                return Err(Error::InvalidValue("text holds a \\n".to_owned()));
            } else {
                result.push(c);
                assert(result@ =~= s.subrange(begin, self.pos()));
            }
        }
    }

    /// Reads a simple error: a line read as a simple string is.
    pub fn parse_error(&mut self) -> (r: Result<String, Error>)
        requires
            old(self).wf(),
        ensures
            final(self).input() == old(self).input(),
            old(self).faultless() ==> final(self).faultless(),
            r matches Err(Error::IoError(_)) ==> !old(self).faultless(),
            !(r matches Err(Error::IoError(_))) ==> final(self).wf(),
            match r {
                Ok(t) => final(self).wf() && text_at(old(self).input(), old(self).pos()) == Ok::<_, Fault>(
                    (t@, final(self).pos()),
                ),
                Err(e) => error_matches(e, text_at(old(self).input(), old(self).pos()), final(self).pos(), old(self).input().len()),
            },
    {
        self.parse_string()
    }

    /// Reads a signed decimal integer up to and including its `\r\n`.
    pub fn parse_integer(&mut self) -> (r: Result<i64, Error>)
        requires
            old(self).wf(),
        ensures
            final(self).input() == old(self).input(),
            old(self).faultless() ==> final(self).faultless(),
            r matches Err(Error::IoError(_)) ==> !old(self).faultless(),
            !(r matches Err(Error::IoError(_))) ==> final(self).wf(),
            match r {
                Ok(v) => final(self).wf() && integer_at(old(self).input(), old(self).pos()) == Ok::<_, Fault>(
                    (v as int, final(self).pos()),
                ),
                Err(e) => error_matches(e, integer_at(old(self).input(), old(self).pos()), final(self).pos(), old(self).input().len()),
            },
    {
        let ghost s = self.input();
        let ghost begin = self.pos();
        let mut result: Vec<u8> = Vec::new();
        loop
            invariant
                self.wf(),
                self.input() == s,
                s == old(self).input(),
                begin == old(self).pos(),
                0 <= begin <= self.pos() <= s.len(),
                old(self).faultless() ==> self.faultless(),
                result@ == s.subrange(begin, self.pos()),
                number_line(s, begin) == number_line(s, self.pos()),
            decreases s.len() - self.pos(),
        {
            let c = match self.peek_byte() {
                Ok(c) => c,
                Err(e) => {
                    return Err(e);
                },
            };
            if c == 13u8 {
                match self.check_ending() {
                    Ok(()) => {},
                    Err(e) => {
                        return Err(e);
                    },
                }
                proof {
                    lemma_number_line_bounds(s, begin);
                }
                match parse_decimal(&result) {
                    Some(v) => {
                        return Ok(v);
                    },
                    None => {
                        return Err(Error::InvalidValue("not a base-10 i64".to_owned()));
                    },
                }
            } else {
                result.push(c);
                assert(result@ =~= s.subrange(begin, self.pos()));
            }
        }
    }

    /// Reads a bulk string: its length line, exactly that many raw bytes,
    /// then `\r\n`. A negative length reads no byte.
    pub fn parse_bulk(&mut self) -> (r: Result<Vec<u8>, Error>)
        requires
            old(self).wf(),
        ensures
            final(self).input() == old(self).input(),
            old(self).faultless() ==> final(self).faultless(),
            r matches Err(Error::IoError(_)) ==> !old(self).faultless(),
            !(r matches Err(Error::IoError(_))) ==> final(self).wf(),
            match r {
                Ok(b) => final(self).wf() && bulk_at(old(self).input(), old(self).pos()) == Ok::<_, Fault>(
                    (b@, final(self).pos()),
                ),
                Err(e) => error_matches(e, bulk_at(old(self).input(), old(self).pos()), final(self).pos(), old(self).input().len()),
            },
    {
        let ghost s = self.input();
        let ghost begin = self.pos();
        let length = match self.parse_integer() {
            Ok(n) => n,
            Err(e) => {
                return Err(e);
            },
        };
        let ghost q = self.pos();
        let mut result: Vec<u8> = Vec::new();
        let mut i: i64 = 0;
        while i < length
            invariant
                self.wf(),
                self.input() == s,
                s == old(self).input(),
                begin == old(self).pos(),
                integer_at(s, begin) == Ok::<_, Fault>((length as int, q)),
                0 <= i,
                length >= 0 ==> i <= length,
                length < 0 ==> i == 0,
                0 <= q <= self.pos() <= s.len(),
                self.pos() == q + i,
                old(self).faultless() ==> self.faultless(),
                result@ == s.subrange(q, self.pos()),
            decreases length - i,
        {
            let c = match self.peek_byte() {
                Ok(c) => c,
                Err(e) => {
                    return Err(e);
                },
            };
            result.push(c);
            assert(result@ =~= s.subrange(q, self.pos()));
            i = i + 1;
        }
        let c = match self.peek_byte() {
            Ok(c) => c,
            Err(e) => {
                return Err(e);
            },
        };
        if c != 13u8 {
            return Err(Error::InvalidValue("payload is not followed by \\r\\n".to_owned()));
        }
        match self.check_ending() {
            Ok(()) => {},
            Err(e) => {
                return Err(e);
            },
        }
        Ok(result)
    }

    /// Reads an array: its count line, then that many values in turn.
    /// A negative count reads no value.
    fn parse_array(&mut self) -> (r: Result<Vec<Value>, Error>)
        requires
            old(self).wf(),
        ensures
            final(self).input() == old(self).input(),
            old(self).faultless() ==> final(self).faultless(),
            r matches Err(Error::IoError(_)) ==> !old(self).faultless(),
            !(r matches Err(Error::IoError(_))) ==> final(self).wf(),
            match r {
                Ok(vs) => final(self).wf() && array_at(old(self).input(), old(self).pos()) == Ok::<_, Fault>(
                    (models(vs@), final(self).pos()),
                ),
                Err(e) => error_matches(e, array_at(old(self).input(), old(self).pos()), final(self).pos(), old(self).input().len()),
            },
        decreases old(self).input().len() - old(self).pos(), 0int,
    {
        let ghost s = self.input();
        let ghost begin = self.pos();
        let length = match self.parse_integer() {
            Ok(n) => n,
            Err(e) => {
                return Err(e);
            },
        };
        let ghost q = self.pos();
        proof {
            lemma_number_line_bounds(s, begin);
        }
        let mut result: Vec<Value> = Vec::new();
        let mut i: i64 = 0;
        while i < length
            invariant
                self.wf(),
                self.input() == s,
                s == old(self).input(),
                begin == old(self).pos(),
                integer_at(s, begin) == Ok::<_, Fault>((length as int, q)),
                0 <= begin < q <= self.pos() <= s.len(),
                0 <= i,
                length >= 0 ==> i <= length,
                length < 0 ==> i == 0,
                old(self).faultless() ==> self.faultless(),
                items_at(s, q, length as int) == prefixed(
                    models(result@),
                    items_at(s, self.pos(), length - i),
                ),
            decreases length - i,
        {
            let ghost before = self.pos();
            let v = match self.parse() {
                Ok(v) => v,
                Err(e) => {
                    return Err(e);
                },
            };
            proof {
                lemma_value_bounds(s, before);
            }
            let ghost done = models(result@);
            result.push(v);
            assert(models(result@) =~= done + seq![v@]);
            assert forall|ms: Seq<Model>| #[trigger] (done + (seq![v@] + ms)) =~= (done + seq![v@]) + ms by {}
            i = i + 1;
        }
        assert(models(result@) + Seq::<Model>::empty() =~= models(result@));
        Ok(result)
    }

    /// Reads one value: a type tag, then what the tag calls for.
    pub fn parse(&mut self) -> (r: Result<Value, Error>)
        requires
            old(self).wf(),
        ensures
            final(self).input() == old(self).input(),
            old(self).faultless() ==> final(self).faultless(),
            r matches Err(Error::IoError(_)) ==> !old(self).faultless(),
            !(r matches Err(Error::IoError(_))) ==> final(self).wf(),
            match r {
                Ok(v) => final(self).wf() && value_at(old(self).input(), old(self).pos()) == Ok::<_, Fault>(
                    (v@, final(self).pos()),
                ),
                Err(e) => error_matches(e, value_at(old(self).input(), old(self).pos()), final(self).pos(), old(self).input().len()),
            },
            old(self).pos() < old(self).input().len() && !is_tag(old(self).input()[old(self).pos()])
                ==> names_tag(r, old(self).input()[old(self).pos()]),
        decreases old(self).input().len() - old(self).pos(), 1int,
    {
        let tag = match self.peek_byte() {
            Ok(c) => c,
            Err(e) => {
                return Err(e);
            },
        };
        if tag == 43u8 {
            match self.parse_string() {
                Ok(t) => Ok(Value::String(t)),
                Err(e) => Err(e),
            }
        } else if tag == 45u8 {
            match self.parse_error() {
                Ok(t) => Ok(Value::Error(t)),
                Err(e) => Err(e),
            }
        } else if tag == 58u8 {
            match self.parse_integer() {
                Ok(n) => Ok(Value::Integer(n)),
                Err(e) => Err(e),
            }
        } else if tag == 36u8 {
            match self.parse_bulk() {
                Ok(b) => Ok(Value::BulkString(b)),
                Err(e) => Err(e),
            }
        } else if tag == 42u8 {
            match self.parse_array() {
                Ok(vs) => {
                    let r = Value::Array(vs);
                    proof {
                        let xs = match r@ {
                            Model::Array(xs) => xs,
                            _ => Seq::empty(),
                        };
                        assert(xs =~= models(vs@));
                    }
                    Ok(r)
                },
                Err(e) => Err(e),
            }
        } else {
            Err(Error::InvalidValue(tag_error_text(tag)))
        }
    }
}

/// Decodes one value from the start of a byte source. Bytes after the
/// value are left unread.
pub fn from_stream<R: ByteSource>(stream: R) -> (r: Result<Value, Error>)
    ensures
        r matches Err(Error::IoError(_)) ==> !stream.faultless(),
        match r {
            Ok(v) => decode(stream.pending()) == Ok::<_, Fault>(v@),
            Err(e) => fails_as(e, decode(stream.pending())),
        },
        stream.pending().len() > 0 && !is_tag(stream.pending()[0]) ==> names_tag(
            r,
            stream.pending()[0],
        ),
{
    let mut d = Deserialer::new(stream);
    d.parse()
}

/// Decodes one value from the start of `data`.
pub fn from_bytes(data: &[u8]) -> (r: Result<Value, Error>)
    ensures
        !(r matches Err(Error::IoError(_))),
        match r {
            Ok(v) => decode(data@) == Ok::<_, Fault>(v@),
            Err(e) => fails_as(e, decode(data@)),
        },
        data@.len() > 0 && !is_tag(data@[0]) ==> names_tag(r, data@[0]),
{
    from_stream(ByteReader::new(data))
}

/// Decodes one value from the start of the UTF-8 bytes of `data`.
pub fn from_string(data: &str) -> (r: Result<Value, Error>)
    ensures
        !(r matches Err(Error::IoError(_))),
        match r {
            Ok(v) => decode(data.spec_bytes()) == Ok::<_, Fault>(v@),
            Err(e) => fails_as(e, decode(data.spec_bytes())),
        },
        data.spec_bytes().len() > 0 && !is_tag(data.spec_bytes()[0]) ==> names_tag(
            r,
            data.spec_bytes()[0],
        ),
{
    from_bytes(data.as_bytes())
}

proof fn lemma_digits_step(b: Seq<u8>, start: int, i: int)
    requires
        0 <= start <= i < b.len(),
    ensures
        digits_value(b.subrange(start, i + 1)) == digits_value(b.subrange(start, i)) * 10 + (b[i]
            - 48),
{
    assert(b.subrange(start, i + 1).drop_last() =~= b.subrange(start, i));
}

proof fn lemma_digits_nonneg(d: Seq<u8>)
    requires
        forall|i: int| 0 <= i < d.len() ==> is_digit(#[trigger] d[i]),
    ensures
        digits_value(d) >= 0,
    decreases d.len(),
{
    if d.len() > 0 {
        lemma_digits_nonneg(d.drop_last());
    }
}

/// A run of digits is worth at least any of its prefixes.
proof fn lemma_digits_grow(d: Seq<u8>, k: int)
    requires
        0 <= k <= d.len(),
        forall|i: int| 0 <= i < d.len() ==> is_digit(#[trigger] d[i]),
    ensures
        digits_value(d) >= digits_value(d.subrange(0, k)),
    decreases d.len(),
{
    if k == d.len() {
        assert(d.subrange(0, k) =~= d);
    } else {
        let e = d.drop_last();
        lemma_digits_grow(e, k);
        lemma_digits_nonneg(e);
        assert(e.subrange(0, k) =~= d.subrange(0, k));
    }
}

/// Reads `b` as a signed decimal `i64`.
fn parse_decimal(b: &Vec<u8>) -> (r: Option<i64>)
    ensures
        match r {
            Some(v) => decimal_of(b@) == Some(v as int),
            None => decimal_of(b@) is None,
        },
{
    let n = b.len();
    if n == 0 {
        return None;
    }
    let neg = b[0] == 45u8;
    let signed = neg || b[0] == 43u8;
    let start: usize = if signed {
        1
    } else {
        0
    };
    let ghost d = unsigned_part(b@);
    assert(d =~= b@.subrange(start as int, n as int));
    if start >= n {
        return None;
    }
    let limit: u64 = if neg {
        9223372036854775808
    } else {
        9223372036854775807
    };
    let mut acc: u64 = 0;
    let mut i: usize = start;
    while i < n
        invariant
            b@.len() == n,
            start <= i <= n,
            d =~= b@.subrange(start as int, n as int),
            d == unsigned_part(b@),
            n > 0,
            neg == (b@[0] == 45u8),
            limit == if neg {
                9223372036854775808u64
            } else {
                9223372036854775807u64
            },
            acc as int == digits_value(b@.subrange(start as int, i as int)),
            acc <= limit,
            limit >= 9223372036854775807,
            forall|k: int| start <= k < i ==> is_digit(#[trigger] b@[k]),
        decreases n - i,
    {
        let c = b[i];
        if c < 48u8 || c > 57u8 {
            proof {
                assert(d[i - start] == b@[i as int]);
                assert(!is_digit(d[i - start]));
                assert(decimal_of(b@) is None);
            }
            return None;
        }
        let digit: u64 = (c - 48u8) as u64;
        proof {
            lemma_digits_step(b@, start as int, i as int);
        }
        if acc > (limit - digit) / 10 {
            proof {
                assert(acc * 10 + digit > limit) by (nonlinear_arith)
                    requires
                        acc > (limit - digit) / 10,
                        digit <= limit,
                ;
                if forall|k: int| 0 <= k < d.len() ==> is_digit(#[trigger] d[k]) {
                    lemma_digits_grow(d, i + 1 - start);
                    assert(d.subrange(0, i + 1 - start) =~= b@.subrange(start as int, i + 1));
                    assert(digits_value(d) > limit);
                }
                assert(decimal_of(b@) is None);
            }
            return None;
        }
        assert(acc * 10 + digit <= limit) by (nonlinear_arith)
            requires
                acc <= (limit - digit) / 10,
                digit <= limit,
        ;
        acc = acc * 10 + digit;
        i = i + 1;
    }
    assert(d =~= b@.subrange(start as int, i as int));
    assert forall|k: int| 0 <= k < d.len() implies is_digit(#[trigger] d[k]) by {
        assert(d[k] == b@[k + start]);
    }
    if neg {
        if acc == 9223372036854775808u64 {
            Some(i64::MIN)
        } else {
            Some(-(acc as i64))
        }
    } else {
        Some(acc as i64)
    }
}

} // verus!
