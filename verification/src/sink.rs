//! The output sink.  Rendering emits literal HTML fragments through the `Buf`
//! trait; a plain byte vector is the stock sink.

use crate::cursor::{InnerBuffer, InnerByte};
use vstd::prelude::*;
use vstd::string::StringSliceAdditionalSpecFns;

verus! {

/// Destination of the serializer's output.  `contents` is the byte sequence
/// written so far; every operation appends and touches nothing else.
pub trait Buf {
    spec fn contents(&self) -> Seq<u8>;

    /// Append a raw byte sequence.
    fn push_vec(&mut self, s: &InnerBuffer)
        ensures
            final(self).contents() == old(self).contents() + s@,
    ;

    /// Append a literal text fragment.
    fn push_str(&mut self, s: &str)
        ensures
            final(self).contents() == old(self).contents() + s.spec_bytes(),
    ;

    /// Append one character as a single byte: a byte sink keeps the low
    /// byte of the code point.
    fn push_char(&mut self, ch: char)
        ensures
            final(self).contents() == old(self).contents() + seq![(ch as u32) as u8],
    ;

    /// Append a single literal byte.
    fn push(&mut self, ch: InnerByte)
        ensures
            final(self).contents() == old(self).contents() + seq![ch],
    ;
}

impl Buf for Vec<u8> {
    open spec fn contents(&self) -> Seq<u8> {
        self@
    }

    fn push_vec(&mut self, s: &InnerBuffer) {
        let ghost start = self@;
        let mut i: usize = 0;
        while i < s.len()
            invariant
                0 <= i <= s@.len(),
                self@ == start + s@.take(i as int),
            decreases s@.len() - i,
        {
            self.push(s[i]);
            assert(start + s@.take(i as int) + seq![s@[i as int]] =~= start + s@.take(i + 1));
            i = i + 1;
        }
        assert(start + s@.take(s@.len() as int) =~= start + s@);
    }

    fn push_str(&mut self, s: &str) {
        let b = s.as_bytes();
        let ghost start = self@;
        let mut i: usize = 0;
        while i < b.len()
            invariant
                0 <= i <= b@.len(),
                b@ == s.spec_bytes(),
                self@ == start + b@.take(i as int),
            decreases b@.len() - i,
        {
            self.push(b[i]);
            assert(start + b@.take(i as int) + seq![b@[i as int]] =~= start + b@.take(i + 1));
            i = i + 1;
        }
        assert(start + b@.take(b@.len() as int) =~= start + b@);
    }

    fn push_char(&mut self, ch: char) {
        let c = ch as u32;
        Vec::push(self, c as u8);
    }

    fn push(&mut self, ch: InnerByte) {
        Vec::push(self, ch);
    }
}

} // verus!
