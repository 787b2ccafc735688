//! Incremental frame parser.
//!
//! `LspMessageParser` buffers an append-only byte stream and extracts
//! complete messages as soon as they are fully buffered. Its behaviour is
//! pinned to the model in [`crate::frame`]: one call of
//! [`LspMessageParser::try_parse_message`] performs exactly one
//! [`crate::frame::parse_step`] on the buffered bytes.

use vstd::prelude::*;
use crate::frame::{
    all_digits, content_length_from, content_length_of, digit_val, digits_value, first_nl_from,
    first_sep_from, has_length_prefix, header_end_of, is_digit_byte, is_ws_byte,
    lemma_digits_value_prefix_le, lemma_digits_value_take_succ, lemma_first_nl_from_bounds,
    lemma_first_sep_from_bounds, lemma_trim_back_range, lemma_trim_front_range,
    length_header_name, line_decision, parse_len_spec, parse_step, sep_at, step_body, trim_front,
    trim_ws,
};
use crate::text::{lossy_decode, lossy_utf8_of};

verus! {

/// A machine-width optional index, seen as its mathematical value.
pub open spec fn as_opt_nat(r: Option<usize>) -> Option<nat> {
    match r {
        Some(i) => Some(i as nat),
        None => None,
    }
}

/// Whether `b` is ASCII whitespace.
fn ws_byte(b: u8) -> (r: bool)
    ensures
        r == is_ws_byte(b),
{
    b == 9 || b == 10 || b == 11 || b == 12 || b == 13 || b == 32
}

/// Parses the decimal length declaration in `buf[from..to]`: surrounding
/// ASCII whitespace trimmed, one leading `+` allowed, then at least one
/// digit; fails on any other byte or when the value does not fit.
#[verifier::loop_isolation(false)]
fn parse_len_bytes(buf: &Vec<u8>, from: usize, to: usize) -> (r: Option<usize>)
    requires
        from <= to <= buf@.len(),
    ensures
        as_opt_nat(r) == parse_len_spec(buf@.subrange(from as int, to as int)),
{
    let ghost raw = buf@.subrange(from as int, to as int);
    let mut lo: usize = from;
    while lo < to && ws_byte(buf[lo])
        invariant
            from <= lo <= to <= buf@.len(),
            raw == buf@.subrange(from as int, to as int),
            forall|i: int| from <= i < lo ==> is_ws_byte(#[trigger] buf@[i]),
        decreases to - lo,
    {
        lo = lo + 1;
    }
    let mut hi: usize = to;
    while hi > lo && ws_byte(buf[hi - 1])
        invariant
            from <= lo <= hi <= to <= buf@.len(),
            raw == buf@.subrange(from as int, to as int),
            forall|i: int| hi <= i < to ==> is_ws_byte(#[trigger] buf@[i]),
        decreases hi,
    {
        hi = hi - 1;
    }
    proof {
        assert forall|i: int| 0 <= i < lo - from implies is_ws_byte(#[trigger] raw[i]) by {
            assert(raw[i] == buf@[from + i]);
        }
        lemma_trim_front_range(raw, (lo - from) as nat);
        assert(trim_front(raw) =~= buf@.subrange(lo as int, to as int));
        let front = buf@.subrange(lo as int, to as int);
        assert forall|i: int| hi - lo <= i < front.len() implies is_ws_byte(
            #[trigger] front[i],
        ) by {
            assert(front[i] == buf@[lo + i]);
        }
        lemma_trim_back_range(front, (hi - lo) as nat);
        assert(trim_ws(raw) =~= buf@.subrange(lo as int, hi as int));
    }
    let ghost t = trim_ws(raw);
    let mut p: usize = lo;
    if p < hi && buf[p] == 43 {
        p = p + 1;
    }
    let ghost d = if t.len() > 0 && t[0] == 43 {
        t.drop_first()
    } else {
        t
    };
    proof {
        assert(d =~= buf@.subrange(p as int, hi as int));
    }
    if p == hi {
        return None;
    }
    let mut acc: usize = 0;
    let mut k: usize = p;
    while k < hi
        invariant
            p <= k <= hi <= buf@.len(),
            d =~= buf@.subrange(p as int, hi as int),
            all_digits(d.take(k - p)),
            acc == digits_value(d.take(k - p)),
        decreases hi - k,
    {
        let b = buf[k];
        proof {
            assert(d[k - p] == buf@[k as int]);
        }
        if b < 48 || b > 57 {
            proof {
                assert(!is_digit_byte(d[k - p]));
                assert(!all_digits(d));
            }
            return None;
        }
        let dig = (b - 48) as usize;
        proof {
            lemma_digits_value_take_succ(d, (k - p) as nat);
            assert(digit_val(d[k - p]) == dig);
            vstd::arithmetic::div_mod::lemma_fundamental_div_mod(
                usize::MAX - dig as int,
                10,
            );
        }
        if acc > (usize::MAX - dig) / 10 {
            proof {
                assert(digits_value(d.take(k - p + 1)) == acc * 10 + dig);
                assert(acc * 10 + dig > usize::MAX);
                lemma_digits_value_prefix_le(d, (k - p + 1) as nat);
                assert(digits_value(d) > usize::MAX);
            }
            return None;
        }
        acc = acc * 10 + dig;
        k = k + 1;
        proof {
            assert(acc == digits_value(d.take(k - p)));
        }
    }
    proof {
        assert(d.take(k - p) =~= d);
    }
    Some(acc)
}

/// Reconstructs complete wire messages from an arbitrarily fragmented
/// byte stream. Bytes are only appended, and only the exact bytes of a
/// parsed message are ever removed, from the front.
pub struct LspMessageParser {
    buffer: Vec<u8>,
}

impl View for LspMessageParser {
    type V = Seq<u8>;

    closed spec fn view(&self) -> Seq<u8> {
        self.buffer@
    }
}

impl LspMessageParser {
    /// A parser with an empty buffer.
    pub fn new() -> (p: Self)
        ensures
            p@ == Seq::<u8>::empty(),
    {
        LspMessageParser { buffer: Vec::new() }
    }

    /// How many bytes are buffered but not yet resolved into a message.
    pub fn buffered_len(&self) -> (r: usize)
        ensures
            r == self@.len(),
    {
        self.buffer.len()
    }

    /// Appends a chunk to the buffer. Never fails, never consumes.
    pub fn add_data(&mut self, data: &[u8])
        ensures
            final(self)@ == old(self)@ + data@,
    {
        self.buffer.extend_from_slice(data);
    }

    /// Index of the first `\r\n\r\n` in the buffer, if one is present.
    pub fn find_header_end(&self) -> (r: Option<usize>)
        ensures
            as_opt_nat(r) == header_end_of(self@),
    {
        let n = self.buffer.len();
        let ghost s = self@;
        if n < 4 {
            return None;
        }
        let mut i: usize = 0;
        while i <= n - 4
            invariant
                4 <= n == self@.len(),
                i <= n,
                s == self@,
                first_sep_from(s, 0) == first_sep_from(s, i as nat),
            decreases n - i,
        {
            if self.buffer[i] == 13 && self.buffer[i + 1] == 10 && self.buffer[i + 2] == 13
                && self.buffer[i + 3] == 10 {
                proof {
                    assert(sep_at(s, i as int));
                }
                return Some(i);
            }
            proof {
                assert(!sep_at(s, i as int));
                assert(first_sep_from(s, i as nat) == first_sep_from(s, (i + 1) as nat));
            }
            i = i + 1;
        }
        None
    }

    /// Scans the header block `buffer[..header_end]` line by line for the
    /// first `Content-Length:` line and parses its value.
    pub fn parse_content_length(&self, header_end: usize) -> (r: Option<usize>)
        requires
            header_end <= self@.len(),
        ensures
            as_opt_nat(r) == content_length_of(self@.take(header_end as int)),
    {
        let ghost h = self@.take(header_end as int);
        let mut start: usize = 0;
        loop
            invariant
                start <= header_end <= self@.len(),
                h == self@.take(header_end as int),
                content_length_from(h, 0) == content_length_from(h, start as nat),
            decreases header_end - start,
        {
            let mut j: usize = start;
            while j < header_end && self.buffer[j] != 10
                invariant
                    start <= j <= header_end <= self@.len(),
                    h == self@.take(header_end as int),
                    forall|k: int| start <= k < j ==> h[k] != 10,
                decreases header_end - j,
            {
                j = j + 1;
            }
            proof {
                lemma_first_nl_from_bounds(h, start as nat);
                if j < header_end {
                    assert(h[j as int] == 10);
                    assert(first_nl_from(h, start as nat) == Some(j as nat));
                } else {
                    assert(first_nl_from(h, start as nat) is None);
                }
            }
            proof {
                assert(h.len() == header_end as int);
                assert(h.subrange(start as int, j as int) =~= self@.subrange(
                    start as int,
                    j as int,
                ));
            }
            let has_name = self.has_length_name_at(start, j);
            if has_name {
                let r = parse_len_bytes(&self.buffer, start + 15, j);
                proof {
                    let line = h.subrange(start as int, j as int);
                    assert(has_length_prefix(line));
                    assert(line.skip(15) =~= self.buffer@.subrange(start + 15, j as int));
                    assert(content_length_from(h, start as nat) == line_decision(line));
                    assert(line_decision(line) == parse_len_spec(
                        self.buffer@.subrange(start + 15, j as int),
                    ));
                }
                return r;
            }
            if j == header_end {
                return None;
            }
            start = j + 1;
        }
    }

    /// Whether `buffer[start..end]` begins with the header name
    /// `Content-Length:`.
    fn has_length_name_at(&self, start: usize, end: usize) -> (r: bool)
        requires
            start <= end <= self@.len(),
        ensures
            r == has_length_prefix(self@.subrange(start as int, end as int)),
    {
        let ghost line = self@.subrange(start as int, end as int);
        if end - start < 15 {
            return false;
        }
        let name: [u8; 15] = [67, 111, 110, 116, 101, 110, 116, 45, 76, 101, 110, 103, 116, 104, 58];
        let mut i: usize = 0;
        while i < 15
            invariant
                i <= 15,
                start + 15 <= end <= self@.len(),
                line == self@.subrange(start as int, end as int),
                name@ == length_header_name(),
                forall|k: int| 0 <= k < i ==> line[k] == length_header_name()[k],
            decreases 15 - i,
        {
            if self.buffer[start + i] != name[i] {
                proof {
                    assert(line[i as int] != length_header_name()[i as int]);
                    assert(line.subrange(0, 15) != length_header_name());
                }
                return false;
            }
            i = i + 1;
        }
        proof {
            assert(line.subrange(0, 15) =~= length_header_name());
        }
        true
    }

    /// Attempts to extract one complete message from the front of the
    /// buffer. Returns the raw bytes of the message (header block,
    /// separator and body, exactly as buffered) together with the body
    /// decoded as text, or `None` while the buffer holds no complete
    /// message. Exactly the returned bytes are removed from the buffer.
    pub fn try_parse_message(&mut self) -> (r: Option<(Vec<u8>, String)>)
        ensures
            match parse_step(old(self)@) {
                None => r is None && final(self)@ == old(self)@,
                Some(hn) => {
                    &&& r is Some
                    &&& final(self)@ == old(self)@.skip(hn.0 + 4 + hn.1 as int)
                    &&& r->Some_0.0@ == old(self)@.take(hn.0 + 4 + hn.1 as int)
                    &&& r->Some_0.1@ == lossy_utf8_of(step_body(old(self)@, hn.0, hn.1))
                },
            },
    {
        let ghost s = self@;
        let h = match self.find_header_end() {
            Some(h) => h,
            None => {
                return None;
            },
        };
        proof {
            lemma_first_sep_from_bounds(s, 0);
        }
        let n = match self.parse_content_length(h) {
            Some(n) => n,
            None => {
                return None;
            },
        };
        let len = self.buffer.len();
        if n > len - (h + 4) {
            return None;
        }
        let total = h + 4 + n;
        let rest = self.buffer.split_off(total);
        let mut tail = rest;
        core::mem::swap(&mut self.buffer, &mut tail);
        let raw = tail;
        let body_slice = vstd::slice::slice_subrange(raw.as_slice(), h + 4, total);
        proof {
            assert(body_slice@ =~= step_body(s, h as nat, n as nat));
        }
        let text = lossy_decode(body_slice);
        Some((raw, text))
    }
}

} // verus!
