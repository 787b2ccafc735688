//! Mathematical model of the wire framing.
//!
//! A message on the wire is a header block, the four-byte separator
//! `\r\n\r\n`, and a body of exactly the declared length. The header block
//! is a sequence of lines; the first line starting with `Content-Length:`
//! declares the body length as a decimal integer, surrounding ASCII
//! whitespace allowed. This module defines what one extraction step yields
//! from a buffered byte sequence (`parse_step`), and what repeatedly
//! extracting until the buffer stalls yields (`parse_all`).

use vstd::prelude::*;

verus! {

/// ASCII whitespace: tab, line feed, vertical tab, form feed, carriage
/// return, space. These are the characters trimmed around the declared
/// length.
pub open spec fn is_ws_byte(b: u8) -> bool {
    b == 9 || b == 10 || b == 11 || b == 12 || b == 13 || b == 32
}

/// ASCII decimal digit.
pub open spec fn is_digit_byte(b: u8) -> bool {
    48 <= b <= 57
}

/// Numeric value of one digit byte (0 outside the digit range).
pub open spec fn digit_val(b: u8) -> nat {
    if 48 <= b <= 57 {
        (b - 48) as nat
    } else {
        0
    }
}

/// The four-byte separator `\r\n\r\n` sits at index `i` of `s`.
pub open spec fn sep_at(s: Seq<u8>, i: int) -> bool {
    &&& 0 <= i
    &&& i + 4 <= s.len()
    &&& s[i] == 13
    &&& s[i + 1] == 10
    &&& s[i + 2] == 13
    &&& s[i + 3] == 10
}

/// Index of the first separator at or after `i`, if any.
pub open spec fn first_sep_from(s: Seq<u8>, i: nat) -> Option<nat>
    decreases s.len() - i,
{
    if i + 4 > s.len() {
        None
    } else if sep_at(s, i as int) {
        Some(i)
    } else {
        first_sep_from(s, i + 1)
    }
}

/// Index of the first separator in `s`: the end of the header block.
pub open spec fn header_end_of(s: Seq<u8>) -> Option<nat> {
    first_sep_from(s, 0)
}

/// Index of the first line feed at or after `i`, if any.
pub open spec fn first_nl_from(s: Seq<u8>, i: nat) -> Option<nat>
    decreases s.len() - i,
{
    if i >= s.len() {
        None
    } else if s[i as int] == 10 {
        Some(i)
    } else {
        first_nl_from(s, i + 1)
    }
}

/// The bytes of the header name `Content-Length:`.
pub open spec fn length_header_name() -> Seq<u8> {
    seq![67u8, 111u8, 110u8, 116u8, 101u8, 110u8, 116u8, 45u8, 76u8, 101u8, 110u8, 103u8, 116u8, 104u8, 58u8]
}

/// The line starts with `Content-Length:`.
pub open spec fn has_length_prefix(line: Seq<u8>) -> bool {
    line.len() >= 15 && line.subrange(0, 15) == length_header_name()
}

/// Leading ASCII whitespace removed.
pub open spec fn trim_front(s: Seq<u8>) -> Seq<u8>
    decreases s.len(),
{
    if s.len() > 0 && is_ws_byte(s[0]) {
        trim_front(s.drop_first())
    } else {
        s
    }
}

/// Trailing ASCII whitespace removed.
pub open spec fn trim_back(s: Seq<u8>) -> Seq<u8>
    decreases s.len(),
{
    if s.len() > 0 && is_ws_byte(s.last()) {
        trim_back(s.drop_last())
    } else {
        s
    }
}

/// Surrounding ASCII whitespace removed.
pub open spec fn trim_ws(s: Seq<u8>) -> Seq<u8> {
    trim_back(trim_front(s))
}

/// Every byte is an ASCII digit.
pub open spec fn all_digits(s: Seq<u8>) -> bool {
    forall|i: int| 0 <= i < s.len() ==> is_digit_byte(#[trigger] s[i])
}

/// The number the digit string denotes, most significant digit first.
pub open spec fn digits_value(s: Seq<u8>) -> nat
    decreases s.len(),
{
    if s.len() == 0 {
        0
    } else {
        digits_value(s.drop_last()) * 10 + digit_val(s.last())
    }
}

/// The value a decimal length declaration denotes, if it is well formed:
/// surrounding ASCII whitespace is trimmed, one leading `+` is allowed,
/// then at least one digit must follow, and the value must fit the
/// machine's size type.
pub open spec fn parse_len_spec(raw: Seq<u8>) -> Option<nat> {
    let t = trim_ws(raw);
    let d = if t.len() > 0 && t[0] == 43 {
        t.drop_first()
    } else {
        t
    };
    if d.len() > 0 && all_digits(d) && digits_value(d) <= usize::MAX {
        Some(digits_value(d))
    } else {
        None
    }
}

/// What a single header line decides: the declared length if the line
/// carries the `Content-Length:` name and a well-formed value, `None`
/// otherwise.
pub open spec fn line_decision(line: Seq<u8>) -> Option<nat> {
    if has_length_prefix(line) {
        parse_len_spec(line.skip(15))
    } else {
        None
    }
}

/// The declared length found in the header block `s`, scanning forward
/// line by line from index `start`. The first line carrying the header
/// name decides, whether or not its value is well formed.
pub open spec fn content_length_from(s: Seq<u8>, start: nat) -> Option<nat>
    decreases s.len() - start,
    via content_length_from_decreases
{
    if start > s.len() {
        None
    } else {
        match first_nl_from(s, start) {
            None => line_decision(s.subrange(start as int, s.len() as int)),
            Some(j) => {
                let line = s.subrange(start as int, j as int);
                if has_length_prefix(line) {
                    line_decision(line)
                } else {
                    content_length_from(s, j + 1)
                }
            },
        }
    }
}

#[via_fn]
proof fn content_length_from_decreases(s: Seq<u8>, start: nat) {
    lemma_first_nl_from_bounds(s, start);
}

/// The declared length found in the header block `s`.
pub open spec fn content_length_of(s: Seq<u8>) -> Option<nat> {
    content_length_from(s, 0)
}

/// One extraction step on the buffered bytes `s`: the header end and the
/// declared length, provided the separator is present, the length header
/// resolves, and the whole body is buffered. `None` means the buffer is
/// incomplete and the parser must wait for more bytes.
pub open spec fn parse_step(s: Seq<u8>) -> Option<(nat, nat)> {
    match header_end_of(s) {
        None => None,
        Some(h) => match content_length_of(s.take(h as int)) {
            None => None,
            Some(n) => if h + 4 + n <= s.len() {
                Some((h, n))
            } else {
                None
            },
        },
    }
}

/// The body bytes of the message that `parse_step` found.
pub open spec fn step_body(s: Seq<u8>, h: nat, n: nat) -> Seq<u8> {
    s.subrange(h as int + 4, h + 4 + n as int)
}

/// Extract messages until the buffer stalls: the bodies in order, and the
/// unconsumed remainder.
pub open spec fn parse_all(s: Seq<u8>) -> (Seq<Seq<u8>>, Seq<u8>)
    decreases s.len(),
{
    match parse_step(s) {
        None => (Seq::empty(), s),
        Some((h, n)) => {
            let rec = parse_all(s.skip(h + 4 + n as int));
            (seq![step_body(s, h, n)] + rec.0, rec.1)
        },
    }
}

/// Feeding a list of chunks one by one, draining every complete message
/// after each feed: the bodies extracted over the whole run, and the bytes
/// left in the buffer at the end. `buf` is what the buffer holds before
/// the first chunk arrives.
pub open spec fn run_feeds_from(buf: Seq<u8>, chunks: Seq<Seq<u8>>) -> (Seq<Seq<u8>>, Seq<u8>)
    decreases chunks.len(),
{
    if chunks.len() == 0 {
        (Seq::empty(), buf)
    } else {
        let step = parse_all(buf + chunks[0]);
        let rec = run_feeds_from(step.1, chunks.drop_first());
        (step.0 + rec.0, rec.1)
    }
}

/// Where `first_nl_from` points: at the first line feed at or after the
/// start index, with none before it.
pub proof fn lemma_first_nl_from_bounds(s: Seq<u8>, i: nat)
    ensures
        match first_nl_from(s, i) {
            Some(j) => i <= j < s.len() && s[j as int] == 10 && (forall|k: int|
                i <= k < j ==> s[k] != 10),
            None => forall|k: int| i <= k < s.len() ==> s[k] != 10,
        },
    decreases s.len() - i,
{
    if i >= s.len() {
    } else if s[i as int] == 10 {
    } else {
        lemma_first_nl_from_bounds(s, i + 1);
    }
}

/// Where `first_sep_from` points: at the first separator at or after the
/// start index, with none before it.
pub proof fn lemma_first_sep_from_bounds(s: Seq<u8>, i: nat)
    ensures
        match first_sep_from(s, i) {
            Some(j) => i <= j && j + 4 <= s.len() && sep_at(s, j as int) && (forall|k: int|
                i <= k < j ==> !sep_at(s, k)),
            None => forall|k: int| i <= k ==> !sep_at(s, k),
        },
    decreases s.len() - i,
{
    if i + 4 > s.len() {
    } else if sep_at(s, i as int) {
    } else {
        lemma_first_sep_from_bounds(s, i + 1);
    }
}

/// `trim_front` removes exactly the leading whitespace run: if the first
/// `k` bytes are whitespace and the byte after them (if any) is not, the
/// rest is kept as it stands.
pub proof fn lemma_trim_front_range(s: Seq<u8>, k: nat)
    requires
        k <= s.len(),
        forall|i: int| 0 <= i < k ==> is_ws_byte(#[trigger] s[i]),
        k == s.len() || !is_ws_byte(s[k as int]),
    ensures
        trim_front(s) == s.skip(k as int),
    decreases k,
{
    if k == 0 {
        assert(s.skip(0) =~= s);
    } else {
        lemma_trim_front_range(s.drop_first(), (k - 1) as nat);
        assert(s.drop_first().skip(k as int - 1) =~= s.skip(k as int));
    }
}

/// `trim_back` removes exactly the trailing whitespace run: if the bytes
/// from `k` on are whitespace and the byte before them (if any) is not,
/// the front is kept as it stands.
pub proof fn lemma_trim_back_range(s: Seq<u8>, k: nat)
    requires
        k <= s.len(),
        forall|i: int| k <= i < s.len() ==> is_ws_byte(#[trigger] s[i]),
        k == 0 || !is_ws_byte(s[k - 1]),
    ensures
        trim_back(s) == s.take(k as int),
    decreases s.len(),
{
    if k == s.len() {
        assert(s.take(k as int) =~= s);
    } else {
        lemma_trim_back_range(s.drop_last(), k);
        assert(s.drop_last().take(k as int) =~= s.take(k as int));
    }
}

/// Reading one more digit multiplies the value so far by ten and adds
/// that digit.
pub proof fn lemma_digits_value_take_succ(s: Seq<u8>, k: nat)
    requires
        k < s.len(),
    ensures
        digits_value(s.take(k as int + 1)) == digits_value(s.take(k as int)) * 10 + digit_val(
            s[k as int],
        ),
{
    assert(s.take(k as int + 1).drop_last() =~= s.take(k as int));
    assert(s.take(k as int + 1).last() == s[k as int]);
}

/// The value of a digit string is at least the value of any of its
/// prefixes.
pub proof fn lemma_digits_value_prefix_le(s: Seq<u8>, k: nat)
    requires
        k <= s.len(),
    ensures
        digits_value(s.take(k as int)) <= digits_value(s),
    decreases s.len(),
{
    if k == s.len() {
        assert(s.take(k as int) =~= s);
    } else {
        lemma_digits_value_prefix_le(s.drop_last(), k);
        assert(s.drop_last().take(k as int) =~= s.take(k as int));
    }
}

/// Appending bytes to a buffer in which a separator was already found
/// does not move the first separator.
proof fn lemma_first_sep_from_extend(s: Seq<u8>, t: Seq<u8>, i: nat)
    requires
        first_sep_from(s, i) is Some,
    ensures
        first_sep_from(s + t, i) == first_sep_from(s, i),
    decreases s.len() - i,
{
    if sep_at(s, i as int) {
        assert(sep_at(s + t, i as int));
    } else {
        assert(!sep_at(s + t, i as int));
        lemma_first_sep_from_extend(s, t, i + 1);
    }
}

/// Appending bytes to a buffer that already holds one complete message
/// changes neither the header end nor the declared length found there.
pub proof fn lemma_parse_step_extend(s: Seq<u8>, t: Seq<u8>)
    requires
        parse_step(s) is Some,
    ensures
        parse_step(s + t) == parse_step(s),
{
    lemma_first_sep_from_bounds(s, 0);
    lemma_first_sep_from_extend(s, t, 0);
    let h = header_end_of(s)->Some_0;
    assert((s + t).take(h as int) =~= s.take(h as int));
}

/// Draining a buffer leaves it stalled: no further message can be
/// extracted until more bytes arrive.
pub proof fn lemma_parse_all_rest_stalled(s: Seq<u8>)
    ensures
        parse_step(parse_all(s).1) is None,
    decreases s.len(),
{
    if parse_step(s) is Some {
        let hn = parse_step(s)->Some_0;
        lemma_parse_all_rest_stalled(s.skip(hn.0 + 4 + hn.1 as int));
    }
}

/// Draining the concatenation `s + t` yields first what draining `s`
/// yields, then what draining the stalled remainder of `s` extended by
/// `t` yields.
pub proof fn lemma_parse_all_append(s: Seq<u8>, t: Seq<u8>)
    ensures
        parse_all(s + t).0 == parse_all(s).0 + parse_all(parse_all(s).1 + t).0,
        parse_all(s + t).1 == parse_all(parse_all(s).1 + t).1,
    decreases s.len(),
{
    if parse_step(s) is None {
        assert(parse_all(s).0 + parse_all(s + t).0 =~= parse_all(s + t).0);
    } else {
        let hn = parse_step(s)->Some_0;
        let h = hn.0;
        let n = hn.1;
        let total = h + 4 + n as int;
        lemma_parse_step_extend(s, t);
        assert((s + t).skip(total) =~= s.skip(total) + t);
        assert(step_body(s + t, h, n) =~= step_body(s, h, n));
        lemma_parse_all_append(s.skip(total), t);
        let mid = parse_all(s.skip(total));
        assert(parse_all(s + t).0 =~= seq![step_body(s, h, n)] + parse_all(s.skip(total) + t).0);
        assert((seq![step_body(s, h, n)] + mid.0) + parse_all(mid.1 + t).0 =~= seq![
            step_body(s, h, n),
        ] + (mid.0 + parse_all(mid.1 + t).0));
    }
}

/// Feeding chunks one by one into a stalled buffer extracts the same
/// bodies, in the same order, as feeding their concatenation at once.
proof fn lemma_run_feeds_from(buf: Seq<u8>, chunks: Seq<Seq<u8>>)
    requires
        parse_step(buf) is None,
    ensures
        run_feeds_from(buf, chunks).0 == parse_all(buf + chunks.flatten()).0,
        run_feeds_from(buf, chunks).1 == parse_all(buf + chunks.flatten()).1,
    decreases chunks.len(),
{
    if chunks.len() == 0 {
        assert(chunks.flatten() =~= Seq::<u8>::empty());
        assert(buf + chunks.flatten() =~= buf);
        assert(run_feeds_from(buf, chunks).0 =~= parse_all(buf).0);
    } else {
        let c0 = chunks[0];
        let rest = chunks.drop_first();
        assert(chunks.flatten() == c0 + rest.flatten());
        let step = parse_all(buf + c0);
        lemma_parse_all_rest_stalled(buf + c0);
        lemma_run_feeds_from(step.1, rest);
        lemma_parse_all_append(buf + c0, rest.flatten());
        assert(buf + chunks.flatten() =~= (buf + c0) + rest.flatten());
    }
}

/// One more chunk at the end of a run: its messages are drained from the
/// remainder the run left, extended by the chunk.
pub proof fn lemma_run_feeds_from_snoc(buf: Seq<u8>, chunks: Seq<Seq<u8>>, c: Seq<u8>)
    ensures
        run_feeds_from(buf, chunks.push(c)).0 == run_feeds_from(buf, chunks).0 + parse_all(
            run_feeds_from(buf, chunks).1 + c,
        ).0,
        run_feeds_from(buf, chunks.push(c)).1 == parse_all(run_feeds_from(buf, chunks).1 + c).1,
    decreases chunks.len(),
{
    if chunks.len() == 0 {
        assert(chunks.push(c)[0] == c);
        assert(chunks.push(c).drop_first() =~= Seq::<Seq<u8>>::empty());
        assert(run_feeds_from(buf, chunks).1 == buf);
        assert(run_feeds_from(parse_all(buf + c).1, chunks.push(c).drop_first()).1 == parse_all(
            buf + c,
        ).1);
        assert(Seq::<Seq<u8>>::empty() + parse_all(buf + c).0 =~= parse_all(buf + c).0);
        assert(parse_all(buf + c).0 + Seq::<Seq<u8>>::empty() =~= parse_all(buf + c).0);
    } else {
        let step = parse_all(buf + chunks[0]);
        lemma_run_feeds_from_snoc(step.1, chunks.drop_first(), c);
        assert(chunks.push(c)[0] == chunks[0]);
        assert(chunks.push(c).drop_first() =~= chunks.drop_first().push(c));
        let rec = run_feeds_from(step.1, chunks.drop_first());
        assert(step.0 + (rec.0 + parse_all(rec.1 + c).0) =~= (step.0 + rec.0) + parse_all(
            rec.1 + c,
        ).0);
    }
}

/// Knowing where the first separator is pins `first_sep_from` down: a
/// separator at `h` with none before it is the one found.
proof fn lemma_first_sep_from_exact_from(s: Seq<u8>, h: nat, i: nat)
    requires
        i <= h,
        sep_at(s, h as int),
        forall|j: int| i <= j < h ==> !sep_at(s, j),
    ensures
        first_sep_from(s, i) == Some(h),
    decreases h - i,
{
    if i < h {
        lemma_first_sep_from_exact_from(s, h, i + 1);
    }
}

/// A separator at `h` with none before it is the first separator.
pub proof fn lemma_first_sep_from_exact(s: Seq<u8>, h: nat)
    requires
        sep_at(s, h as int),
        forall|j: int| 0 <= j < h ==> !sep_at(s, j),
    ensures
        header_end_of(s) == Some(h),
{
    lemma_first_sep_from_exact_from(s, h, 0);
}

/// Truncating the buffer anywhere past the separator keeps the first
/// separator where it was.
proof fn lemma_first_sep_from_take(s: Seq<u8>, k: int, i: nat)
    requires
        first_sep_from(s, i) is Some,
        first_sep_from(s, i)->Some_0 + 4 <= k <= s.len(),
    ensures
        first_sep_from(s.take(k), i) == first_sep_from(s, i),
    decreases s.len() - i,
{
    let h = first_sep_from(s, i)->Some_0;
    lemma_first_sep_from_bounds(s, i);
    if sep_at(s, i as int) {
        assert(sep_at(s.take(k), i as int));
    } else {
        assert(i + 4 <= k) by {
            assert(i <= h);
        }
        assert(!sep_at(s.take(k), i as int));
        lemma_first_sep_from_take(s, k, i + 1);
    }
}

/// Law: extraction is never early. While any byte of a message — of its
/// header block, its separator, or its declared body — is still missing,
/// the parser yields nothing; the message appears exactly when its final
/// byte does.
pub proof fn lemma_no_early_extraction(s: Seq<u8>, k: int)
    requires
        parse_step(s) is Some,
        ({
            let hn = parse_step(s)->Some_0;
            0 <= k < hn.0 + 4 + hn.1
        }),
    ensures
        parse_step(s.take(k)) is None,
{
    let hn = parse_step(s)->Some_0;
    let h = hn.0;
    let n = hn.1;
    lemma_first_sep_from_bounds(s, 0);
    if k < h + 4 {
        lemma_first_sep_from_bounds(s.take(k), 0);
        if first_sep_from(s.take(k), 0) is Some {
            let j = first_sep_from(s.take(k), 0)->Some_0;
            assert(sep_at(s.take(k), j as int));
            assert(sep_at(s, j as int));
            assert(false);
        }
    } else {
        lemma_first_sep_from_take(s, k, 0);
        assert(s.take(k).take(h as int) =~= s.take(h as int));
    }
}

/// Law: frame extraction is invariant under fragmentation. However a byte
/// stream is split into chunks, feeding the chunks one by one and
/// draining every complete message after each feed yields exactly the
/// bodies that feeding the whole stream at once yields, in the same
/// order, and leaves the same bytes unconsumed.
pub proof fn lemma_fragmentation_invariance(chunks: Seq<Seq<u8>>)
    ensures
        run_feeds_from(Seq::empty(), chunks).0 == parse_all(chunks.flatten()).0,
        run_feeds_from(Seq::empty(), chunks).1 == parse_all(chunks.flatten()).1,
{
    assert(parse_step(Seq::<u8>::empty()) is None);
    lemma_run_feeds_from(Seq::empty(), chunks);
    assert(Seq::<u8>::empty() + chunks.flatten() =~= chunks.flatten());
}

/// Law: extraction is exact. When the buffer first holds one complete
/// message, the extracted body has exactly the declared length, and
/// extraction consumes exactly the header block, the four separator
/// bytes, and the body: no byte more.
pub proof fn lemma_extraction_exact(s: Seq<u8>)
    requires
        parse_step(s) is Some,
    ensures
        ({
            let hn = parse_step(s)->Some_0;
            &&& content_length_of(s.take(hn.0 as int)) == Some(hn.1)
            &&& step_body(s, hn.0, hn.1).len() == hn.1
            &&& s.skip(hn.0 + 4 + hn.1 as int).len() == s.len() - (hn.0 + 4 + hn.1)
        }),
{
    lemma_first_sep_from_bounds(s, 0);
}

} // verus!
