//! A scanner that reads whitespace-separated unsigned integers straight
//! from a byte buffer.
use vstd::prelude::*;
use crate::text::{
    is_space,
    digits_value,
    all_at_least_zero_digit,
    lemma_digits_value_prefix,
    lemma_digits_value_push,
    decimal,
    lemma_decimal_digits,
    lemma_decimal_value,
};

verus! {

/// The first position at or after `from` that does not hold whitespace, or
/// the end of the buffer.
pub open spec fn skip_spaces(buf: Seq<u8>, from: nat) -> nat
    decreases buf.len() - from,
{
    if from < buf.len() && is_space(buf[from as int]) {
        skip_spaces(buf, from + 1)
    } else {
        from
    }
}

/// The first position at or after `from` that holds whitespace, or the end
/// of the buffer.
pub open spec fn token_end(buf: Seq<u8>, from: nat) -> nat
    decreases buf.len() - from,
{
    if from < buf.len() && !is_space(buf[from as int]) {
        token_end(buf, from + 1)
    } else {
        from
    }
}

/// The bytes of the next token after position `from`.
pub open spec fn next_token(buf: Seq<u8>, from: nat) -> Seq<u8> {
    let start: nat = skip_spaces(buf, from);
    buf.subrange(start as int, token_end(buf, start) as int)
}

/// The next token after `from`, if there is one, reads as a u32 without
/// overflow: none of its bytes is below `'0'` and its value fits.
pub open spec fn next_token_fits(buf: Seq<u8>, from: nat) -> bool {
    skip_spaces(buf, from) < buf.len() ==> {
        &&& all_at_least_zero_digit(next_token(buf, from))
        &&& digits_value(next_token(buf, from)) <= u32::MAX
    }
}

/// A token runs from `from` to a position no further than the end of the
/// buffer, and holds no whitespace.
pub proof fn lemma_token_end_bounds(buf: Seq<u8>, from: nat)
    requires
        from <= buf.len(),
    ensures
        from <= token_end(buf, from) <= buf.len(),
        forall|i: int| from <= i < token_end(buf, from) ==> !is_space(#[trigger] buf[i]),
        from < buf.len() && !is_space(buf[from as int]) ==> from < token_end(buf, from),
    decreases buf.len() - from,
{
    if from < buf.len() && !is_space(buf[from as int]) {
        lemma_token_end_bounds(buf, from + 1);
    }
}

/// Skipping whitespace from `from` passes only whitespace and stops at a
/// non-whitespace byte or at the end of the buffer.
pub proof fn lemma_skip_spaces_props(buf: Seq<u8>, from: nat)
    ensures
        from <= skip_spaces(buf, from),
        from <= buf.len() ==> skip_spaces(buf, from) <= buf.len(),
        skip_spaces(buf, from) < buf.len() ==> !is_space(buf[skip_spaces(buf, from) as int]),
        forall|i: int| from <= i < skip_spaces(buf, from) ==> is_space(#[trigger] buf[i]),
    decreases buf.len() - from,
{
    if from < buf.len() && is_space(buf[from as int]) {
        lemma_skip_spaces_props(buf, from + 1);
    }
}

/// The tokens that repeated calls of `next_u32` read from position `from`
/// on: each is the run of non-whitespace bytes after the next whitespace.
pub open spec fn tokens_from(buf: Seq<u8>, from: nat) -> Seq<Seq<u8>>
    decreases buf.len() - from,
{
    let start = skip_spaces(buf, from);
    if start >= buf.len() {
        Seq::empty()
    } else {
        let end = token_end(buf, start);
        proof {
            lemma_skip_spaces_props(buf, from);
            lemma_token_end_bounds(buf, start);
        }
        seq![buf.subrange(start as int, end as int)] + tokens_from(buf, end)
    }
}

/// Skipping whitespace in the second part of a concatenation is skipping
/// it in that part alone.
proof fn lemma_skip_spaces_shift(x: Seq<u8>, y: Seq<u8>, q: nat)
    requires
        q <= y.len(),
    ensures
        skip_spaces(x + y, x.len() + q) == x.len() + skip_spaces(y, q),
    decreases y.len() - q,
{
    if q < y.len() {
        assert((x + y)[(x.len() + q) as int] == y[q as int]);
        lemma_skip_spaces_shift(x, y, q + 1);
    }
}

/// A token in the second part of a concatenation ends where it ends in
/// that part alone.
proof fn lemma_token_end_shift(x: Seq<u8>, y: Seq<u8>, q: nat)
    requires
        q <= y.len(),
    ensures
        token_end(x + y, x.len() + q) == x.len() + token_end(y, q),
    decreases y.len() - q,
{
    if q < y.len() {
        assert((x + y)[(x.len() + q) as int] == y[q as int]);
        lemma_token_end_shift(x, y, q + 1);
    }
}

/// The tokens read from the second part of a concatenation are the tokens
/// of that part alone.
pub proof fn lemma_tokens_shift(x: Seq<u8>, y: Seq<u8>, q: nat)
    requires
        q <= y.len(),
    ensures
        tokens_from(x + y, x.len() + q) == tokens_from(y, q),
    decreases y.len() - q,
{
    let buf = x + y;
    lemma_skip_spaces_shift(x, y, q);
    lemma_skip_spaces_props(y, q);
    let s = skip_spaces(y, q);
    if s < y.len() {
        lemma_token_end_shift(x, y, s);
        lemma_token_end_bounds(y, s);
        let e = token_end(y, s);
        lemma_tokens_shift(x, y, e);
        assert(buf.subrange((x.len() + s) as int, (x.len() + e) as int) =~= y.subrange(s as int, e as int));
    }
}

/// A whitespace byte in front of a buffer adds no token.
pub proof fn lemma_tokens_space_front(b: u8, y: Seq<u8>)
    requires
        is_space(b),
    ensures
        tokens_from(seq![b] + y, 0) == tokens_from(y, 0),
{
    let buf = seq![b] + y;
    assert(buf[0] == b);
    assert(skip_spaces(buf, 0) == skip_spaces(buf, 1));
    assert(tokens_from(buf, 0) == tokens_from(buf, 1));
    lemma_tokens_shift(seq![b], y, 0);
}

/// A run of non-whitespace bytes followed by whitespace (or nothing) is
/// read as one token, before the tokens of what follows.
pub proof fn lemma_tokens_token_front(d: Seq<u8>, rest: Seq<u8>)
    requires
        d.len() >= 1,
        forall|i: int| 0 <= i < d.len() ==> !is_space(#[trigger] d[i]),
        rest.len() == 0 || is_space(rest[0]),
    ensures
        tokens_from(d + rest, 0) == seq![d] + tokens_from(rest, 0),
{
    let buf = d + rest;
    assert(buf[0] == d[0]);
    assert(skip_spaces(buf, 0) == 0);
    assert forall|i: int| 0 <= i < d.len() implies !is_space(#[trigger] buf[i]) by {
        assert(buf[i] == d[i]);
    }
    if rest.len() > 0 {
        assert(buf[d.len() as int] == rest[0]);
    }
    lemma_token_end_run(buf, 0, d.len());
    assert(buf.subrange(0, d.len() as int) =~= d);
    lemma_tokens_shift(d, rest, 0);
}

/// Once only whitespace is left, the scanner has nothing more to read: a
/// call of `next_u32` at the end of the buffer is allowed and returns
/// `None` again.
pub proof fn lemma_exhausted_stays_exhausted(buf: Seq<u8>)
    ensures
        skip_spaces(buf, buf.len()) == buf.len(),
        next_token_fits(buf, buf.len()),
{
}

/// Skipping from inside a run of whitespace stops where the run ends.
proof fn lemma_skip_spaces_run(buf: Seq<u8>, from: nat, end: nat)
    requires
        from <= end < buf.len(),
        forall|i: int| from <= i < end ==> is_space(#[trigger] buf[i]),
        !is_space(buf[end as int]),
    ensures
        skip_spaces(buf, from) == end,
    decreases end - from,
{
    if from < end {
        lemma_skip_spaces_run(buf, from + 1, end);
    }
}

/// A token that starts at `from` runs up to the first whitespace byte or
/// the end of the buffer.
proof fn lemma_token_end_run(buf: Seq<u8>, from: nat, end: nat)
    requires
        from <= end <= buf.len(),
        forall|i: int| from <= i < end ==> !is_space(#[trigger] buf[i]),
        end == buf.len() || is_space(buf[end as int]),
    ensures
        token_end(buf, from) == end,
    decreases end - from,
{
    if from < end {
        lemma_token_end_run(buf, from + 1, end);
    }
}

/// What the writer spells for a u32, read back by the scanner, is that
/// u32: in a buffer of whitespace, then the decimal spelling of `v`, then
/// nothing or whitespace, the next token read from the start fits and has
/// the value `v`.
pub proof fn lemma_decimal_scans_back(before: Seq<u8>, v: u32, after: Seq<u8>)
    requires
        forall|i: int| 0 <= i < before.len() ==> is_space(#[trigger] before[i]),
        after.len() == 0 || is_space(after[0]),
    ensures
        ({
            let buf = before + decimal(v as nat) + after;
            &&& skip_spaces(buf, 0) == before.len()
            &&& skip_spaces(buf, 0) < buf.len()
            &&& next_token(buf, 0) == decimal(v as nat)
            &&& next_token_fits(buf, 0)
            &&& digits_value(next_token(buf, 0)) == v
        }),
{
    let d = decimal(v as nat);
    let buf = before + d + after;
    let start: nat = before.len();
    let end: nat = start + d.len();
    lemma_decimal_digits(v as nat);
    lemma_decimal_value(v as nat);
    assert(buf[start as int] == d[0]);
    lemma_skip_spaces_run(buf, 0, start);
    assert forall|i: int| start <= i < end implies !is_space(#[trigger] buf[i]) by {
        assert(buf[i] == d[i - start]);
    }
    if end < buf.len() {
        assert(buf[end as int] == after[0]);
    }
    lemma_token_end_run(buf, start, end);
    assert(buf.subrange(start as int, end as int) =~= d);
}

/// Fast scanner for parsing integers directly from a raw byte buffer.
pub struct FastScanner<'a> {
    raw_buffer: &'a [u8],
    byte_cursor: usize,
}

impl<'a> FastScanner<'a> {
    /// The bytes being scanned.
    pub closed spec fn buffer(&self) -> Seq<u8> {
        self.raw_buffer@
    }

    /// The position of the next byte to read.
    pub closed spec fn cursor(&self) -> nat {
        self.byte_cursor as nat
    }

    #[verifier::type_invariant]
    spec fn cursor_in_buffer(&self) -> bool {
        self.byte_cursor <= self.raw_buffer@.len()
    }

    /// A scanner positioned at the start of `raw_buffer`.
    pub fn new(raw_buffer: &'a [u8]) -> (res: Self)
        ensures
            res.buffer() == raw_buffer@,
            res.cursor() == 0,
    {
        FastScanner { raw_buffer, byte_cursor: 0 }
    }

    /// Whether the next call of `next_u32` reads its token without
    /// overflow.
    pub fn next_fits_u32(&self) -> (res: bool)
        ensures
            res == next_token_fits(self.buffer(), self.cursor()),
    {
        proof {
            use_type_invariant(self);
        }
        let buf = self.raw_buffer;
        let len: usize = buf.len();
        let start: usize = self.skip_whitespace();
        if start >= len {
            return true;
        }
        let ghost e: nat = token_end(buf@, start as nat);
        proof {
            lemma_token_end_bounds(buf@, start as nat);
        }
        let ghost tok = buf@.subrange(start as int, e as int);
        let mut cursor: usize = start;
        let mut val: u64 = 0;
        while cursor < len && buf[cursor] > 32
            invariant
                len == buf@.len(),
                buf@ == self.buffer(),
                start == skip_spaces(buf@, self.cursor()),
                start <= cursor <= e <= len,
                e == token_end(buf@, start as nat),
                token_end(buf@, cursor as nat) == e,
                tok == buf@.subrange(start as int, e as int),
                all_at_least_zero_digit(buf@.subrange(start as int, cursor as int)),
                val == digits_value(buf@.subrange(start as int, cursor as int)),
                val <= u32::MAX,
            decreases len - cursor,
        {
            let byte: u8 = buf[cursor];
            proof {
                lemma_token_end_bounds(buf@, (cursor + 1) as nat);
            }
            let ghost pre = buf@.subrange(start as int, cursor as int);
            let ghost next = buf@.subrange(start as int, cursor + 1);
            assert(next =~= pre.push(byte));
            assert(tok.take(cursor + 1 - start) =~= next);
            if byte < 48 {
                assert(!all_at_least_zero_digit(tok)) by {
                    assert(tok[cursor - start] == byte);
                }
                return false;
            }
            proof {
                lemma_digits_value_push(pre, byte);
            }
            let digit: u64 = (byte - 48) as u64;
            val = val * 10 + digit;
            cursor = cursor + 1;
            if val > 0xffff_ffff {
                proof {
                    assert(all_at_least_zero_digit(next));
                    if all_at_least_zero_digit(tok) {
                        lemma_digits_value_prefix(tok, cursor - start);
                    }
                }
                return false;
            }
        }
        assert(cursor == e);
        true
    }

    /// The first position at or after the cursor that does not hold
    /// whitespace, or the end of the buffer; the scanner is not moved.
    fn skip_whitespace(&self) -> (res: usize)
        ensures
            res == skip_spaces(self.buffer(), self.cursor()),
            self.cursor() <= res <= self.buffer().len(),
    {
        proof {
            use_type_invariant(self);
        }
        let buf = self.raw_buffer;
        let mut cursor: usize = self.byte_cursor;
        while cursor < buf.len() && buf[cursor] <= 32
            invariant
                self.byte_cursor <= cursor <= buf@.len(),
                buf@ == self.buffer(),
                skip_spaces(buf@, cursor as nat) == skip_spaces(buf@, self.cursor()),
            decreases buf.len() - cursor,
        {
            cursor = cursor + 1;
        }
        cursor
    }

    /// Parses the next u32 integer from the byte stream: skips whitespace
    /// (bytes up to ASCII space), then reads the bytes up to the next
    /// whitespace as decimal digits. Returns `None` when only whitespace
    /// is left.
    pub fn next_u32(&mut self) -> (res: Option<u32>)
        requires
            next_token_fits(old(self).buffer(), old(self).cursor()),
        ensures
            final(self).buffer() == old(self).buffer(),
            ({
                let buf = old(self).buffer();
                let start: nat = skip_spaces(buf, old(self).cursor());
                if start >= buf.len() {
                    &&& res is None
                    &&& final(self).cursor() == buf.len()
                } else {
                    &&& res == Some(digits_value(next_token(buf, old(self).cursor())) as u32)
                    &&& final(self).cursor() == token_end(buf, start)
                }
            }),
    {
        proof {
            use_type_invariant(&*self);
        }
        let buf = self.raw_buffer;
        let len: usize = buf.len();
        let start: usize = self.skip_whitespace();
        if start >= len {
            self.byte_cursor = len;
            return None;
        }
        let ghost e: nat = token_end(buf@, start as nat);
        proof {
            lemma_token_end_bounds(buf@, start as nat);
        }
        let ghost tok = buf@.subrange(start as int, e as int);
        let mut cursor: usize = start;
        let mut val_lookup: u32 = 0;
        while cursor < len && buf[cursor] > 32
            invariant
                len == buf@.len(),
                start <= cursor <= e <= len,
                e == token_end(buf@, start as nat),
                token_end(buf@, cursor as nat) == e,
                tok == buf@.subrange(start as int, e as int),
                all_at_least_zero_digit(tok),
                digits_value(tok) <= u32::MAX,
                val_lookup == digits_value(buf@.subrange(start as int, cursor as int)),
            decreases len - cursor,
        {
            let byte: u8 = buf[cursor];
            proof {
                lemma_token_end_bounds(buf@, (cursor + 1) as nat);
            }
            let ghost pre = buf@.subrange(start as int, cursor as int);
            let ghost next = buf@.subrange(start as int, cursor + 1);
            assert(next =~= pre.push(byte));
            assert(tok.take(cursor + 1 - start) =~= next);
            assert(byte >= 48) by {
                assert(tok[cursor - start] == byte);
            }
            proof {
                lemma_digits_value_push(pre, byte);
                lemma_digits_value_prefix(tok, cursor + 1 - start);
            }
            val_lookup = val_lookup * 10 + (byte - 48) as u32;
            cursor = cursor + 1;
        }
        assert(cursor == e);
        self.byte_cursor = cursor;
        Some(val_lookup)
    }
}

} // verus!
