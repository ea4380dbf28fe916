//! A writer that formats integers and text straight into a byte buffer,
//! which is handed out whole when flushed.
use vstd::prelude::*;
use vstd::string::StringSliceAdditionalSpecFns;
use crate::text::{decimal, lemma_decimal_digits};

verus! {

/// Fast writer that formats integers directly to a byte buffer.
///
/// Its view is the bytes written since the last flush, in order.
pub struct FastWriter {
    buffer: Vec<u8>,
    temp_buf: [u8; 20],
}

impl View for FastWriter {
    type V = Seq<u8>;

    closed spec fn view(&self) -> Seq<u8> {
        self.buffer@
    }
}

impl FastWriter {
    /// A writer with nothing written yet.
    pub fn new() -> (res: Self)
        ensures
            res@ == Seq::<u8>::empty(),
    {
        FastWriter { buffer: Vec::new(), temp_buf: [0u8; 20] }
    }

    /// Appends the UTF-8 bytes of `s`.
    pub fn write_str(&mut self, s: &str)
        ensures
            final(self)@ == old(self)@ + s.spec_bytes(),
    {
        let bytes = s.as_bytes();
        self.write_bytes(bytes);
    }

    /// Appends `bytes` in order.
    fn write_bytes(&mut self, bytes: &[u8])
        ensures
            final(self)@ == old(self)@ + bytes@,
    {
        let mut i: usize = 0;
        while i < bytes.len()
            invariant
                i <= bytes@.len(),
                self.buffer@ == old(self).buffer@ + bytes@.take(i as int),
            decreases bytes@.len() - i,
        {
            self.buffer.push(bytes[i]);
            i += 1;
            assert(bytes@.take(i as int) =~= bytes@.take(i - 1).push(bytes@[i - 1]));
        }
        assert(bytes@.take(i as int) =~= bytes@);
    }

    /// Appends the shortest decimal spelling of `val` ("0" for zero).
    pub fn write_u32(&mut self, val: u32)
        ensures
            final(self)@ == old(self)@ + decimal(val as nat),
    {
        if val == 0 {
            self.buffer.push(48);
            assert(decimal(0) =~= seq![48u8]);
            return;
        }
        let ghost v0 = val as nat;
        proof {
            lemma_decimal_digits(v0);
        }
        let mut val: u32 = val;
        let mut byte_cursor: usize = 20;
        while val > 0
            invariant
                byte_cursor <= 20,
                self.temp_buf@.len() == 20,
                self.buffer@ == old(self).buffer@,
                val > 0 ==> decimal(v0) =~= decimal(val as nat) + self.temp_buf@.subrange(
                    byte_cursor as int,
                    20,
                ),
                val == 0 ==> decimal(v0) =~= self.temp_buf@.subrange(byte_cursor as int, 20),
                decimal(v0).len() <= 10,
            decreases val,
        {
            proof {
                lemma_decimal_digits(val as nat);
            }
            let ghost tail = self.temp_buf@.subrange(byte_cursor as int, 20);
            let ghost d: u8 = (48 + val % 10) as u8;
            byte_cursor -= 1;
            self.temp_buf[byte_cursor] = 48 + (val % 10) as u8;
            assert(self.temp_buf@.subrange(byte_cursor as int, 20) =~= seq![d] + tail);
            if val >= 10 {
                assert(decimal(val as nat) == decimal((val / 10) as nat).push(d));
            } else {
                assert(decimal(val as nat) == seq![d]);
            }
            val /= 10;
        }
        let mut i: usize = byte_cursor;
        while i < 20
            invariant
                byte_cursor <= i <= 20,
                self.temp_buf@.len() == 20,
                decimal(v0) =~= self.temp_buf@.subrange(byte_cursor as int, 20),
                self.buffer@ == old(self).buffer@ + self.temp_buf@.subrange(
                    byte_cursor as int,
                    i as int,
                ),
            decreases 20 - i,
        {
            let b: u8 = self.temp_buf[i];
            self.buffer.push(b);
            i += 1;
            assert(self.temp_buf@.subrange(byte_cursor as int, i as int) =~= self.temp_buf@.subrange(
                byte_cursor as int,
                i - 1,
            ).push(b));
        }
    }

    /// Appends a single space.
    pub fn write_space(&mut self)
        ensures
            final(self)@ == old(self)@.push(32),
    {
        self.buffer.push(32);
    }

    /// Appends a single newline.
    pub fn write_newline(&mut self)
        ensures
            final(self)@ == old(self)@.push(10),
    {
        self.buffer.push(10);
    }

    /// Hands out every byte written since the last flush, in order, and
    /// leaves the writer empty.
    pub fn flush(&mut self) -> (res: Vec<u8>)
        ensures
            res@ == old(self)@,
            final(self)@ == Seq::<u8>::empty(),
    {
        let mut out: Vec<u8> = Vec::new();
        std::mem::swap(&mut out, &mut self.buffer);
        out
    }
}

} // verus!
