//! Builds the wire form of an outgoing message: the length header, the
//! separator, and the body.

use vstd::prelude::*;
use vstd::string::StringExecFns;
use vstd::string::StringSliceAdditionalSpecFns;
use vstd::utf8::{encode_scalar, encode_utf8, is_ascii_chars, is_ascii_chars_encode_utf8};
use crate::frame::{
    all_digits, content_length_from, digit_val, digits_value, first_nl_from, has_length_prefix,
    is_ws_byte, lemma_first_nl_from_bounds, lemma_first_sep_from_exact, lemma_trim_back_range,
    lemma_trim_front_range, length_header_name, parse_all, parse_step, sep_at, step_body,
    trim_front, trim_ws,
};

verus! {

/// The character for one decimal digit.
pub open spec fn digit_char(d: nat) -> char {
    if d == 0 {
        '0'
    } else if d == 1 {
        '1'
    } else if d == 2 {
        '2'
    } else if d == 3 {
        '3'
    } else if d == 4 {
        '4'
    } else if d == 5 {
        '5'
    } else if d == 6 {
        '6'
    } else if d == 7 {
        '7'
    } else if d == 8 {
        '8'
    } else {
        '9'
    }
}

/// The decimal digits of `n`, most significant first, no leading zeros
/// (a single `0` for zero itself).
pub open spec fn dec_chars(n: nat) -> Seq<char>
    decreases n,
{
    if n < 10 {
        seq![digit_char(n)]
    } else {
        dec_chars(n / 10) + seq![digit_char(n % 10)]
    }
}

/// The characters of `Content-Length: `, the header name and the space
/// that precedes the value.
pub open spec fn header_name_chars() -> Seq<char> {
    seq!['C', 'o', 'n', 't', 'e', 'n', 't', '-', 'L', 'e', 'n', 'g', 't', 'h', ':', ' ']
}

/// The complete wire form of a message with the given body text and
/// declared byte length.
pub open spec fn framed_message(body: Seq<char>, body_len: nat) -> Seq<char> {
    header_name_chars() + dec_chars(body_len) + seq!['\r', '\n', '\r', '\n'] + body
}

/// Appends the decimal digits of `n` to `s`.
fn append_decimal(s: &mut String, n: usize)
    ensures
        final(s)@ == old(s)@ + dec_chars(n as nat),
    decreases n,
{
    if n >= 10 {
        append_decimal(s, n / 10);
    }
    let d = n % 10;
    let ds: &str = match d {
        0 => "0",
        1 => "1",
        2 => "2",
        3 => "3",
        4 => "4",
        5 => "5",
        6 => "6",
        7 => "7",
        8 => "8",
        _ => "9",
    };
    proof {
        reveal_strlit("0");
        reveal_strlit("1");
        reveal_strlit("2");
        reveal_strlit("3");
        reveal_strlit("4");
        reveal_strlit("5");
        reveal_strlit("6");
        reveal_strlit("7");
        reveal_strlit("8");
        reveal_strlit("9");
        assert(ds@ =~= seq![digit_char((n % 10) as nat)]);
    }
    s.append(ds);
    proof {
        assert(s@ =~= old(s)@ + dec_chars(n as nat));
    }
}

/// UTF-8 encoding distributes over concatenation.
proof fn lemma_encode_utf8_concat(a: Seq<char>, b: Seq<char>)
    ensures
        encode_utf8(a + b) == encode_utf8(a) + encode_utf8(b),
    decreases a.len(),
{
    if a.len() == 0 {
        assert(a + b =~= b);
        assert(encode_utf8(a) + encode_utf8(b) =~= encode_utf8(b));
    } else {
        assert((a + b).drop_first() =~= a.drop_first() + b);
        assert((a + b)[0] == a[0]);
        lemma_encode_utf8_concat(a.drop_first(), b);
        assert(encode_scalar(a[0] as u32) + (encode_utf8(a.drop_first()) + encode_utf8(b)) =~= (
        encode_scalar(a[0] as u32) + encode_utf8(a.drop_first())) + encode_utf8(b));
    }
}

/// The decimal rendering is never empty and holds digit characters only.
proof fn lemma_dec_chars_digits(n: nat)
    ensures
        dec_chars(n).len() >= 1,
        forall|i: int| 0 <= i < dec_chars(n).len() ==> '0' <= #[trigger] dec_chars(n)[i] <= '9',
    decreases n,
{
    if n >= 10 {
        lemma_dec_chars_digits(n / 10);
        assert forall|i: int| 0 <= i < dec_chars(n).len() implies '0' <= #[trigger] dec_chars(n)[i]
            <= '9' by {
            if i < dec_chars(n / 10).len() {
                assert(dec_chars(n)[i] == dec_chars(n / 10)[i]);
            } else {
                assert(dec_chars(n)[i] == digit_char(n % 10));
            }
        }
    }
}

/// The byte encoding of the decimal rendering of `n` is a digit string
/// denoting `n` itself.
proof fn lemma_dec_chars_value(n: nat, d: Seq<u8>)
    requires
        d.len() == dec_chars(n).len(),
        forall|i: int| 0 <= i < d.len() ==> #[trigger] d[i] == dec_chars(n)[i] as u8,
    ensures
        all_digits(d),
        digits_value(d) == n,
    decreases n,
{
    if n < 10 {
        assert(d[0] == digit_char(n) as u8);
        assert(d.drop_last() =~= Seq::<u8>::empty());
        assert(digits_value(Seq::<u8>::empty()) == 0);
        assert(digits_value(d) == digits_value(d.drop_last()) * 10 + digit_val(d.last()));
        assert(digit_val(d[0]) == n);
    } else {
        let dp = d.drop_last();
        assert(dp.len() == dec_chars(n / 10).len());
        assert forall|i: int| 0 <= i < dp.len() implies #[trigger] dp[i] == dec_chars(n / 10)[i]
            as u8 by {
            assert(dp[i] == d[i]);
            assert(dec_chars(n)[i] == dec_chars(n / 10)[i]);
        }
        lemma_dec_chars_value(n / 10, dp);
        assert(d.last() == dec_chars(n)[d.len() - 1] as u8);
        assert(dec_chars(n)[d.len() - 1] == digit_char(n % 10));
        assert(digit_val(d.last()) == n % 10);
        vstd::arithmetic::div_mod::lemma_fundamental_div_mod(n as int, 10);
        assert(digits_value(d) == digits_value(dp) * 10 + digit_val(d.last()));
        assert forall|i: int| 0 <= i < d.len() implies crate::frame::is_digit_byte(
            #[trigger] d[i],
        ) by {
            if i < dp.len() {
                assert(d[i] == dp[i]);
                assert(crate::frame::is_digit_byte(dp[i]));
            }
        }
    }
}

/// Law: formatting round-trips through the parser. The byte encoding of
/// a formatted message is exactly one frame: parsing it extracts a
/// single message whose body bytes are the body's own encoding, and
/// leaves nothing buffered.
pub proof fn lemma_format_then_parse(body: Seq<char>)
    requires
        encode_utf8(body).len() <= usize::MAX,
    ensures
        ({
            let wire = encode_utf8(framed_message(body, encode_utf8(body).len()));
            &&& parse_all(wire).0 == seq![encode_utf8(body)]
            &&& parse_all(wire).1 == Seq::<u8>::empty()
        }),
{
    let len = encode_utf8(body).len();
    let head = header_name_chars() + dec_chars(len);
    let sep: Seq<char> = seq!['\r', '\n', '\r', '\n'];
    let prefix = head + sep;
    let framed = framed_message(body, len);
    assert(framed =~= prefix + body);
    lemma_encode_utf8_concat(prefix, body);
    let wire = encode_utf8(framed);
    assert(wire == encode_utf8(prefix) + encode_utf8(body));
    lemma_dec_chars_digits(len);
    let dlen = dec_chars(len).len();
    assert(prefix.len() == 20 + dlen);

    // The header and separator characters are ASCII, so their encoding
    // is byte-for-byte.
    assert forall|i: int| 0 <= i < prefix.len() implies '\0' <= #[trigger] prefix[i]
        <= '\u{7f}' by {
        if i < 16 {
            assert(prefix[i] == header_name_chars()[i]);
        } else if i < 16 + dlen {
            assert(prefix[i] == dec_chars(len)[i - 16]);
        } else {
            assert(prefix[i] == sep[i - 16 - dlen]);
        }
    }
    assert(is_ascii_chars(prefix));
    is_ascii_chars_encode_utf8(prefix);
    let pb = encode_utf8(prefix);
    assert(pb.len() == 20 + dlen);
    let h: nat = (16 + dlen) as nat;
    assert(wire.len() == h + 4 + len);

    // The bytes of the header block: the header name, one space, the
    // decimal digits; then the separator.
    assert forall|j: int| 0 <= j < 15 implies wire[j] == length_header_name()[j] by {
        assert(wire[j] == pb[j]);
        assert(prefix[j] == header_name_chars()[j]);
    }
    assert(wire[15] == 32) by {
        assert(prefix[15] == header_name_chars()[15]);
    }
    let dbytes = pb.subrange(16, 16 + dlen as int);
    assert forall|k: int| 0 <= k < dlen implies #[trigger] dbytes[k] == dec_chars(len)[k]
        as u8 by {
        assert(dbytes[k] == pb[16 + k]);
        assert(prefix[16 + k] == dec_chars(len)[k]);
    }
    lemma_dec_chars_value(len, dbytes);
    assert(sep_at(wire, h as int)) by {
        assert(prefix[h as int] == sep[0]);
        assert(prefix[h as int + 1] == sep[1]);
        assert(prefix[h as int + 2] == sep[2]);
        assert(prefix[h as int + 3] == sep[3]);
        assert(wire[h as int] == pb[h as int]);
        assert(wire[h as int + 1] == pb[h as int + 1]);
        assert(wire[h as int + 2] == pb[h as int + 2]);
        assert(wire[h as int + 3] == pb[h as int + 3]);
    }

    // No byte of the header block is a carriage return or a line feed,
    // so the separator at `h` is the first, and the block is one line.
    assert forall|j: int| 0 <= j < h implies wire[j] != 13 && wire[j] != 10 by {
        if j < 16 {
            assert(wire[j] == pb[j]);
            assert(prefix[j] == header_name_chars()[j]);
        } else {
            assert(wire[j] == dbytes[j - 16]);
            assert(crate::frame::is_digit_byte(dbytes[j - 16]));
        }
    }
    assert forall|j: int| 0 <= j < h implies !sep_at(wire, j) by {
        assert(wire[j] != 13);
    }
    lemma_first_sep_from_exact(wire, h);

    // The header block resolves to the declared length.
    let hb = wire.take(h as int);
    assert(hb.len() == h);
    lemma_first_nl_from_bounds(hb, 0);
    if first_nl_from(hb, 0) is Some {
        let j = first_nl_from(hb, 0)->Some_0;
        assert(hb[j as int] == 10);
        assert(wire[j as int] == 10);
        assert(false);
    }
    assert(hb.subrange(0, 15) =~= length_header_name());
    assert(has_length_prefix(hb));
    let v = hb.skip(15);
    assert(v.len() == 1 + dlen);
    assert(v[0] == 32);
    assert forall|k: int| 0 <= k < dlen implies #[trigger] v[1 + k] == dbytes[k] by {
        assert(v[1 + k] == wire[16 + k]);
        assert(dbytes[k] == pb[16 + k]);
    }
    assert(is_ws_byte(v[0]));
    assert(!is_ws_byte(v[1])) by {
        assert(crate::frame::is_digit_byte(dbytes[0]));
    }
    lemma_trim_front_range(v, 1);
    let f = v.skip(1);
    assert(f =~= dbytes);
    assert(!is_ws_byte(f[f.len() - 1])) by {
        assert(crate::frame::is_digit_byte(dbytes[dlen - 1]));
    }
    lemma_trim_back_range(f, f.len() as nat);
    assert(f.take(f.len() as int) =~= f);
    assert(trim_ws(v) == dbytes);
    assert(dbytes[0] != 43) by {
        assert(crate::frame::is_digit_byte(dbytes[0]));
    }
    assert(crate::frame::parse_len_spec(v) == Some(len));
    assert(hb.subrange(0, hb.len() as int) =~= hb);
    assert(content_length_from(hb, 0) == Some(len));

    // One step consumes the whole wire; nothing is left to parse.
    assert(parse_step(wire) == Some((h, len)));
    assert(step_body(wire, h, len) =~= encode_utf8(body));
    assert(wire.skip(h + 4 + len as int) =~= Seq::<u8>::empty());
    assert(parse_step(Seq::<u8>::empty()) is None);
    assert(parse_all(Seq::<u8>::empty()).0 =~= Seq::<Seq<u8>>::empty());
    assert(parse_all(wire).0 =~= seq![encode_utf8(body)]);
}

/// Formats a message body as a wire message: `Content-Length: `, the
/// body's byte length in decimal, the `\r\n\r\n` separator, then the body
/// itself, unchanged.
pub fn format_lsp_message(json: &str) -> (r: String)
    ensures
        r@ == framed_message(json@, json.spec_bytes().len()),
{
    let mut out = String::from_str("Content-Length: ");
    proof {
        reveal_strlit("Content-Length: ");
        assert(out@ =~= header_name_chars());
    }
    let n = json.as_bytes().len();
    proof {
        assert(n as nat == json.spec_bytes().len());
    }
    append_decimal(&mut out, n);
    out.append("\r\n\r\n");
    proof {
        reveal_strlit("\r\n\r\n");
        assert("\r\n\r\n"@ =~= seq!['\r', '\n', '\r', '\n']);
    }
    out.append(json);
    proof {
        assert(out@ =~= framed_message(json@, json.spec_bytes().len()));
    }
    out
}

} // verus!
