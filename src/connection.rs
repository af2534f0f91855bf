//! The receive side of one connection: bytes arrive in pieces, and whole
//! messages are taken off the front as soon as they are complete.
use vstd::prelude::*;
use crate::codec::{decode, parse_at, DecodeError, Value};
use crate::text::push_bytes;

verus! {

/// The bytes a connection has received and not yet decoded.
pub struct Connection {
    buffer: Vec<u8>,
}

impl View for Connection {
    type V = Seq<u8>;

    closed spec fn view(&self) -> Seq<u8> {
        self.buffer@
    }
}

impl Connection {
    /// A connection that has received nothing.
    pub fn new() -> (c: Self)
        ensures
            c@ == Seq::<u8>::empty(),
    {
        Connection { buffer: Vec::new() }
    }

    /// Adds bytes read from the transport after those already held.
    pub fn receive(&mut self, bytes: &[u8])
        ensures
            final(self)@ == old(self)@ + bytes@,
    {
        push_bytes(&mut self.buffer, bytes);
    }

    /// Takes the first message off the front of what was received. While
    /// the message is not complete this gives nothing and keeps every byte.
    /// Once the bytes held show the message to be malformed (an unknown type
    /// byte, a header that cannot be a number, a payload not followed by the
    /// terminator, text that is not UTF-8) this is an error, and the bytes
    /// are kept too.
    pub fn next_message(&mut self) -> (r: Result<Option<Value>, DecodeError>)
        ensures
            match parse_at(old(self)@, 0) {
                Ok((m, used)) => r matches Ok(Some(v)) && v@ == m && final(self)@ == old(self)@.subrange(
                    used as int,
                    old(self)@.len() as int,
                ),
                Err(DecodeError::Incomplete) => r matches Ok(None) && final(self)@ == old(self)@,
                Err(DecodeError::Malformed) => r == Err::<Option<Value>, DecodeError>(
                    DecodeError::Malformed,
                ) && final(self)@ == old(self)@,
            },
    {
        match decode(self.buffer.as_slice()) {
            Ok((v, used)) => {
                let mut rest: Vec<u8> = Vec::new();
                push_bytes(&mut rest, &self.buffer.as_slice()[used..self.buffer.len()]);
                self.buffer = rest;
                Ok(Some(v))
            },
            Err(DecodeError::Incomplete) => Ok(None),
            Err(DecodeError::Malformed) => Err(DecodeError::Malformed),
        }
    }
}

} // verus!
