//! A decoder over a fully buffered byte source: plain byte reads, varint
//! reads, and the length-prefixed string field built from both.

use vstd::prelude::*;

use crate::mc::decode_varint;
use crate::mc::spec_decode_string;
use crate::mc::spec_decode_varint;
use crate::mc::u32_of_i32;
use crate::mc::DecodeError;

verus! {

/// Reading plain bytes off a buffered source.
pub trait ByteRead {
    /// Whether the source is in a usable state.
    spec fn wf(&self) -> bool;

    /// The bytes not yet consumed.
    spec fn readable(&self) -> Seq<u8>;

    /// Reads exactly `size` bytes, or fails without consuming anything.
    fn read_bytes(&mut self, size: usize) -> (r: Result<Vec<u8>, DecodeError>)
        requires
            old(self).wf(),
        ensures
            final(self).wf(),
            match r {
                Ok(b) => old(self).readable().len() >= size && b@ == old(self).readable().take(
                    size as int,
                ) && final(self).readable() == old(self).readable().skip(size as int),
                Err(e) => e == DecodeError::TruncatedInput && old(self).readable().len() < size
                    && final(self).readable() == old(self).readable(),
            },
    ;

    /// Reads one byte, or fails on an exhausted source.
    fn read_byte(&mut self) -> (r: Result<u8, DecodeError>)
        requires
            old(self).wf(),
        ensures
            final(self).wf(),
            match r {
                Ok(b) => old(self).readable().len() >= 1 && b == old(self).readable()[0]
                    && final(self).readable() == old(self).readable().skip(1),
                Err(e) => e == DecodeError::TruncatedInput && old(self).readable().len() == 0
                    && final(self).readable() == old(self).readable(),
            },
    ;
}

/// Reading the wire format's length-prefixed string field.
pub trait McRead: ByteRead {
    /// Reads a varint byte length, then exactly that many raw bytes.
    /// On any failure nothing is consumed.
    fn read_mc_string(&mut self) -> (r: Result<Vec<u8>, DecodeError>)
        requires
            old(self).wf(),
        ensures
            final(self).wf(),
            match r {
                Ok(b) => spec_decode_string(old(self).readable()) matches Ok(p) && b@ == p.0
                    && final(self).readable() == old(self).readable().skip(p.1),
                Err(e) => spec_decode_string(old(self).readable()) == Err::<
                    (Seq<u8>, int),
                    DecodeError,
                >(e) && final(self).readable() == old(self).readable(),
            },
    ;
}

/// A decoder cursor over a fully buffered byte source, consuming from the
/// front.
pub struct ByteCursor {
    data: Vec<u8>,
    pos: usize,
}

impl ByteCursor {
    /// Wraps a buffer; all of it is readable.
    pub fn new(data: Vec<u8>) -> (r: ByteCursor)
        ensures
            r.wf(),
            r.readable() == data@,
    {
        let ghost view = data@;
        let r = ByteCursor { data, pos: 0 };
        proof {
            assert(r.readable() =~= view);
        }
        r
    }

    /// Reads one varint off the front, consuming its bytes on success and
    /// nothing on failure.
    pub fn read_var_int(&mut self) -> (r: Result<i32, DecodeError>)
        requires
            old(self).wf(),
        ensures
            final(self).wf(),
            match r {
                Ok(v) => spec_decode_varint(old(self).readable()) matches Ok(p) && p.0
                    == u32_of_i32(v) && final(self).readable() == old(self).readable().skip(p.1),
                Err(e) => spec_decode_varint(old(self).readable()) == Err::<
                    (nat, int),
                    DecodeError,
                >(e) && final(self).readable() == old(self).readable(),
            },
    {
        let head = vstd::slice::slice_subrange(self.data.as_slice(), self.pos, self.data.len());
        proof {
            assert(head@ =~= self.readable());
        }
        match decode_varint(head) {
            Ok((v, n)) => {
                proof {
                    assert(old(self).readable().skip(n as int) =~= old(self).data@.skip(
                        self.pos + n as int,
                    ));
                }
                self.pos = self.pos + n;
                Ok(v)
            },
            Err(e) => Err(e),
        }
    }
}

impl ByteRead for ByteCursor {
    closed spec fn wf(&self) -> bool {
        self.pos <= self.data@.len()
    }

    closed spec fn readable(&self) -> Seq<u8> {
        self.data@.skip(self.pos as int)
    }

    fn read_bytes(&mut self, size: usize) -> (r: Result<Vec<u8>, DecodeError>) {
        if size <= self.data.len() - self.pos {
            let out = vstd::slice::slice_to_vec(
                vstd::slice::slice_subrange(self.data.as_slice(), self.pos, self.pos + size),
            );
            proof {
                assert(out@ =~= old(self).readable().take(size as int));
                assert(old(self).data@.skip(self.pos + size as int)
                    =~= old(self).readable().skip(size as int));
            }
            self.pos = self.pos + size;
            Ok(out)
        } else {
            Err(DecodeError::TruncatedInput)
        }
    }

    fn read_byte(&mut self) -> (r: Result<u8, DecodeError>) {
        if self.pos < self.data.len() {
            let b = self.data[self.pos];
            proof {
                assert(old(self).data@.skip(self.pos + 1int) =~= old(self).readable().skip(1));
            }
            self.pos = self.pos + 1;
            Ok(b)
        } else {
            Err(DecodeError::TruncatedInput)
        }
    }
}

impl McRead for ByteCursor {
    fn read_mc_string(&mut self) -> (r: Result<Vec<u8>, DecodeError>) {
        let head = vstd::slice::slice_subrange(self.data.as_slice(), self.pos, self.data.len());
        proof {
            assert(head@ =~= self.readable());
        }
        match decode_varint(head) {
            Err(e) => Err(e),
            Ok((v, n)) => {
                if v < 0 {
                    return Err(DecodeError::MalformedLength);
                }
                let body_len = v as usize;
                if body_len > (self.data.len() - self.pos) - n {
                    return Err(DecodeError::TruncatedInput);
                }
                let out = vstd::slice::slice_to_vec(
                    vstd::slice::slice_subrange(
                        self.data.as_slice(),
                        self.pos + n,
                        self.pos + n + body_len,
                    ),
                );
                proof {
                    assert(out@ =~= old(self).readable().subrange(
                        n as int,
                        n as int + body_len as int,
                    ));
                    assert(old(self).data@.skip(self.pos + n + body_len as int)
                        =~= old(self).readable().skip(n as int + body_len as int));
                }
                self.pos = self.pos + n + body_len;
                Ok(out)
            },
        }
    }
}

} // verus!
