use vstd::prelude::*;

verus! {

/// std's `std::io::Error`, which a failing source reports; it is carried
/// through unread.
#[verifier::external_type_specification]
#[verifier::external_body]
pub struct ExIoError(std::io::Error);

/// A source of bytes that are read one at a time, in order.
pub trait ByteSource {
    /// The bytes that the source has yet to give.
    spec fn pending(&self) -> Seq<u8>;

    /// Whether every read from this source succeeds.
    spec fn faultless(&self) -> bool;

    /// Reads the next byte: `None` once the source is exhausted, an error
    /// where the source itself fails.
    fn read_byte(&mut self) -> (r: Result<Option<u8>, std::io::Error>)
        ensures
            match r {
                Ok(Some(b)) => {
                    &&& old(self).pending().len() > 0
                    &&& b == old(self).pending()[0]
                    &&& final(self).pending() == old(self).pending().drop_first()
                },
                Ok(None) => old(self).pending().len() == 0 && final(self).pending() == old(self).pending(),
                Err(_) => !old(self).faultless(),
            },
            old(self).faultless() ==> final(self).faultless(),
    ;
}

/// A byte source over a slice held in memory; it never fails.
pub struct ByteReader<'a> {
    data: &'a [u8],
    pos: usize,
}

impl<'a> ByteReader<'a> {
    #[verifier::type_invariant]
    closed spec fn inv(&self) -> bool {
        self.pos <= self.data@.len()
    }

    pub fn new(data: &'a [u8]) -> (r: ByteReader<'a>)
        ensures
            r.pending() == data@,
    {
        let r = ByteReader { data, pos: 0 };
        assert(r.data@.subrange(0, r.data@.len() as int) =~= data@);
        r
    }

    /// The bytes not read yet.
    pub fn remaining(&self) -> (r: &'a [u8])
        ensures
            r@ == self.pending(),
    {
        proof {
            use_type_invariant(self);
        }
        vstd::slice::slice_subrange(self.data, self.pos, self.data.len())
    }
}

impl<'a> ByteSource for ByteReader<'a> {
    closed spec fn pending(&self) -> Seq<u8> {
        self.data@.subrange(self.pos as int, self.data@.len() as int)
    }

    open spec fn faultless(&self) -> bool {
        true
    }

    fn read_byte(&mut self) -> (r: Result<Option<u8>, std::io::Error>) {
        proof {
            use_type_invariant(&*self);
        }
        if self.pos < self.data.len() {
            let b = self.data[self.pos];
            self.pos = self.pos + 1;
            assert((*self).pending() =~= (*old(self)).pending().drop_first());
            Ok(Some(b))
        } else {
            Ok(None)
        }
    }
}


/// A source borrowed mutably is read through: what the borrower does not
/// read stays in it.
impl<'b, S: ByteSource> ByteSource for &'b mut S {
    open spec fn pending(&self) -> Seq<u8> {
        (**self).pending()
    }

    open spec fn faultless(&self) -> bool {
        (**self).faultless()
    }

    fn read_byte(&mut self) -> (r: Result<Option<u8>, std::io::Error>) {
        (**self).read_byte()
    }
}

} // verus!
