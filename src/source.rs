//! Byte sources that the parser reads from.

use vstd::prelude::*;
use crate::error::ParseError;

verus! {

/// A forward-only byte stream that knows its position.
///
/// `content` is every byte the stream yields from its start, and `pos` the
/// offset of the next one. Reads and skips never move backwards.
pub trait ParserSource: Sized {
    /// Every byte that the stream holds, from its start.
    spec fn content(&self) -> Seq<u8>;

    /// The offset of the byte that would be read next.
    spec fn pos(&self) -> nat;

    /// Whether reads fail only at the end of the content, never with `Io`.
    spec fn infallible(&self) -> bool;

    /// Returns the offset of the byte that would be read next.
    fn position(&self) -> (r: u64)
        ensures
            r as nat == self.pos(),
    ;

    /// Reads exactly `n` bytes.
    ///
    /// Fails with `UnexpectedEof` when the stream holds fewer; an
    /// implementation may also fail with `Io`.
    fn read_bytes(&mut self, n: usize) -> (r: Result<Vec<u8>, ParseError>)
        ensures
            final(self).infallible() == old(self).infallible(),
            old(self).infallible() && r is Err ==> !(r->Err_0 is Io),
            final(self).content() == old(self).content(),
            match r {
                Ok(v) => {
                    &&& old(self).pos() + n <= old(self).content().len()
                    &&& v@ == old(self).content().subrange(
                        old(self).pos() as int,
                        old(self).pos() + n,
                    )
                    &&& final(self).pos() == old(self).pos() + n
                },
                Err(e) => {
                    &&& e is Io || e is UnexpectedEof
                    &&& (e is UnexpectedEof ==> old(self).pos() + n > old(self).content().len())
                    &&& final(self).pos() >= old(self).pos()
                },
            },
            old(self).pos() + n > old(self).content().len() ==> r is Err,
    ;

    /// Skips `distance` bytes.
    fn skip_distance(&mut self, distance: u64) -> (r: Result<(), ParseError>)
        ensures
            final(self).infallible() == old(self).infallible(),
            old(self).infallible() && r is Err ==> !(r->Err_0 is Io),
            final(self).content() == old(self).content(),
            match r {
                Ok(_) => {
                    &&& old(self).pos() + distance <= old(self).content().len()
                    &&& final(self).pos() == old(self).pos() + distance
                },
                Err(e) => {
                    &&& e is Io || e is UnexpectedEof
                    &&& (e is UnexpectedEof ==> old(self).pos() + distance > old(self).content().len())
                    &&& final(self).pos() >= old(self).pos()
                },
            },
            old(self).pos() + distance > old(self).content().len() ==> r is Err,
    ;

    /// Skips forward to offset `pos`.
    fn skip_to(&mut self, pos: u64) -> (r: Result<(), ParseError>)
        requires
            pos >= old(self).pos(),
        ensures
            final(self).infallible() == old(self).infallible(),
            old(self).infallible() && r is Err ==> !(r->Err_0 is Io),
            final(self).content() == old(self).content(),
            match r {
                Ok(_) => {
                    &&& pos <= old(self).content().len()
                    &&& final(self).pos() == pos
                },
                Err(e) => {
                    &&& e is Io || e is UnexpectedEof
                    &&& (e is UnexpectedEof ==> pos > old(self).content().len())
                    &&& final(self).pos() >= old(self).pos()
                },
            },
            pos > old(self).content().len() ==> r is Err,
    {
        let here = self.position();
        self.skip_distance(pos - here)
    }
}

/// A source over bytes held in memory.
#[derive(Debug, Clone)]
pub struct PlainSource {
    bytes: Vec<u8>,
    offset: usize,
}

impl PlainSource {
    /// Creates a source that yields `bytes` from offset zero.
    pub fn new(bytes: Vec<u8>) -> (r: PlainSource)
        ensures
            r.content() == bytes@,
            r.pos() == 0,
            r.infallible(),
    {
        PlainSource { bytes, offset: 0 }
    }
}

impl ParserSource for PlainSource {
    closed spec fn content(&self) -> Seq<u8> {
        self.bytes@
    }

    closed spec fn pos(&self) -> nat {
        self.offset as nat
    }

    open spec fn infallible(&self) -> bool {
        true
    }

    fn position(&self) -> (r: u64) {
        self.offset as u64
    }

    fn read_bytes(&mut self, n: usize) -> (r: Result<Vec<u8>, ParseError>) {
        let len = self.bytes.len();
        if self.offset > len || n > len - self.offset {
            return Err(ParseError::UnexpectedEof);
        }
        let start = self.offset;
        let mut out: Vec<u8> = Vec::with_capacity(n);
        let mut i: usize = 0;
        while i < n
            invariant
                len == self.bytes@.len(),
                start + n <= len,
                i <= n,
                out@ == self.bytes@.subrange(start as int, start + i),
            decreases n - i,
        {
            out.push(self.bytes[start + i]);
            i = i + 1;
            proof {
                assert(out@ =~= self.bytes@.subrange(start as int, start + i));
            }
        }
        self.offset = start + n;
        Ok(out)
    }

    fn skip_distance(&mut self, distance: u64) -> (r: Result<(), ParseError>) {
        let len = self.bytes.len();
        if self.offset > len || distance > (len - self.offset) as u64 {
            return Err(ParseError::UnexpectedEof);
        }
        self.offset = self.offset + distance as usize;
        Ok(())
    }
}

} // verus!
