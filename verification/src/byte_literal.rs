//! Escaped byte literals: parsing user-typed text with `\xHH` and the usual
//! single-character escapes into raw bytes, and rendering raw bytes back as a
//! readable, round-trippable escaped literal.
use vstd::prelude::*;

verus! {

use crate::text::push_char;
use crate::text::utf8_str;
use vstd::string::*;
use vstd::utf8::decode_utf8;
use vstd::utf8::encode_utf8;
use vstd::utf8::is_ascii_chars;
use vstd::utf8::valid_utf8;

/// Error for an escaped byte literal whose `\xHH` escape is cut short or
/// holds a character that is not a hex digit.
#[derive(Clone, Copy, Debug, PartialEq, Eq)]
pub struct MalformedEscape;

/// Numeric value of an ASCII hex digit; `None` for any other character.
pub open spec fn hex_val_spec(c: char) -> Option<u8> {
    let u = c as u32;
    if 48 <= u && u <= 57 {
        // '0' ..= '9'
        Some((u - 48) as u8)
    } else if 97 <= u && u <= 102 {
        // 'a' ..= 'f'
        Some((u - 87) as u8)
    } else if 65 <= u && u <= 70 {
        // 'A' ..= 'F'
        Some((u - 55) as u8)
    } else {
        None
    }
}

/// Parses one hex digit; fails exactly on characters that are not hex digits.
pub fn hex_val(c: char) -> (r: Result<u8, MalformedEscape>)
    ensures
        r == match hex_val_spec(c) {
            Some(v) => Ok::<u8, MalformedEscape>(v),
            None => Err::<u8, MalformedEscape>(MalformedEscape),
        },
{
    let u = c as u32;
    if 48 <= u && u <= 57 {
        Ok((u - 48) as u8)
    } else if 97 <= u && u <= 102 {
        Ok((u - 87) as u8)
    } else if 65 <= u && u <= 70 {
        Ok((u - 55) as u8)
    } else {
        Err(MalformedEscape)
    }
}

/// The byte denoted by two hex digits.
pub open spec fn hex_pair_val(hi: u8, lo: u8) -> u8
    recommends
        hi < 16,
        lo < 16,
{
    (hi * 16 + lo) as u8
}

/// Prefixes one decoded byte onto the decoding of the rest, propagating
/// failure.
pub open spec fn lit_cons(b: u8, rest: Option<Seq<u8>>) -> Option<Seq<u8>> {
    match rest {
        Some(v) => Some(seq![b] + v),
        None => None,
    }
}

/// Byte-literal decoding over the UTF-8 bytes of the input text.
///
/// `\xHH` consumes two hex digits and yields that byte; `\n`, `\r`, `\t`,
/// `\\` and `\"` yield their escaped byte; any other escaped byte passes
/// through unescaped, as does every byte outside an escape. Fails exactly on
/// a `\x` with fewer than two bytes after it or with a non-hex digit.
pub open spec fn decode_lit(bs: Seq<u8>) -> Option<Seq<u8>>
    decreases bs.len(),
{
    if bs.len() == 0 {
        Some(Seq::empty())
    } else if bs[0] == 92 && bs.len() >= 2 {
        // '\\' starting an escape
        let n = bs[1];
        if n == 120 || n == 88 {
            // 'x' | 'X': two hex digits follow
            if bs.len() < 4 {
                None
            } else {
                match (hex_val_spec(bs[2] as char), hex_val_spec(bs[3] as char)) {
                    (Some(hi), Some(lo)) => lit_cons(hex_pair_val(hi, lo), decode_lit(bs.skip(4))),
                    _ => None,
                }
            }
        } else if n == 110 {
            // 'n'
            lit_cons(10, decode_lit(bs.skip(2)))
        } else if n == 114 {
            // 'r'
            lit_cons(13, decode_lit(bs.skip(2)))
        } else if n == 116 {
            // 't'
            lit_cons(9, decode_lit(bs.skip(2)))
        } else {
            // '\\', '"' and anything else pass through unescaped
            lit_cons(n, decode_lit(bs.skip(2)))
        }
    } else {
        lit_cons(bs[0], decode_lit(bs.skip(1)))
    }
}

/// Decodes an escaped byte literal into raw bytes; fails exactly when the
/// text holds a malformed `\xHH` escape.
pub fn parse_bytes_literal(s: &str) -> (r: Result<Vec<u8>, MalformedEscape>)
    ensures
        r matches Ok(v) ==> decode_lit(s.spec_bytes()) == Some(v@),
        r is Err <==> decode_lit(s.spec_bytes()) is None,
{
    let bytes = s.as_bytes();
    let mut out: Vec<u8> = Vec::new();
    let mut i: usize = 0;
    proof {
        assert(bytes@.skip(0) =~= bytes@);
        match decode_lit(s.spec_bytes()) {
            Some(v) => {
                assert(Seq::<u8>::empty() + v =~= v);
            },
            None => {
            },
        }
    }
    while i < bytes.len()
        invariant
            i <= bytes.len(),
            bytes@ == s.spec_bytes(),
            decode_lit(s.spec_bytes()) == lit_append(out@, decode_lit(bytes@.skip(i as int))),
        decreases bytes.len() - i,
    {
        let ghost suffix = bytes@.skip(i as int);
        let c = bytes[i];
        if c == 92 && i + 1 < bytes.len() {
            let n = bytes[i + 1];
            if n == 120 || n == 88 {
                if bytes.len() - i < 4 {
                    return Err(MalformedEscape);
                }
                let hi = match hex_val(bytes[i + 2] as char) {
                    Ok(v) => v,
                    Err(e) => {
                        return Err(e);
                    },
                };
                let lo = match hex_val(bytes[i + 3] as char) {
                    Ok(v) => v,
                    Err(e) => {
                        return Err(e);
                    },
                };
                let v: u8 = hi * 16 + lo;
                proof {
                    lemma_lit_append_push(out@, v, decode_lit(suffix.skip(4)));
                    assert(suffix.skip(4) =~= bytes@.skip(i + 4));
                }
                out.push(v);
                i = i + 4;
            } else if n == 110 {
                proof {
                    lemma_lit_append_push(out@, 10, decode_lit(suffix.skip(2)));
                    assert(suffix.skip(2) =~= bytes@.skip(i + 2));
                }
                out.push(10);
                i = i + 2;
            } else if n == 114 {
                proof {
                    lemma_lit_append_push(out@, 13, decode_lit(suffix.skip(2)));
                    assert(suffix.skip(2) =~= bytes@.skip(i + 2));
                }
                out.push(13);
                i = i + 2;
            } else if n == 116 {
                proof {
                    lemma_lit_append_push(out@, 9, decode_lit(suffix.skip(2)));
                    assert(suffix.skip(2) =~= bytes@.skip(i + 2));
                }
                out.push(9);
                i = i + 2;
            } else {
                proof {
                    lemma_lit_append_push(out@, n, decode_lit(suffix.skip(2)));
                    assert(suffix.skip(2) =~= bytes@.skip(i + 2));
                }
                out.push(n);
                i = i + 2;
            }
        } else {
            proof {
                lemma_lit_append_push(out@, c, decode_lit(suffix.skip(1)));
                assert(suffix.skip(1) =~= bytes@.skip(i + 1));
            }
            out.push(c);
            i = i + 1;
        }
    }
    proof {
        assert(bytes@.skip(i as int) =~= Seq::<u8>::empty());
        assert(out@ + Seq::<u8>::empty() =~= out@);
    }
    Ok(out)
}

/// Prefixes already-decoded bytes onto a decoding result.
pub open spec fn lit_append(pre: Seq<u8>, rest: Option<Seq<u8>>) -> Option<Seq<u8>> {
    match rest {
        Some(v) => Some(pre + v),
        None => None,
    }
}

proof fn lemma_lit_append_push(pre: Seq<u8>, b: u8, rest: Option<Seq<u8>>)
    ensures
        lit_append(pre, lit_cons(b, rest)) == lit_append(pre.push(b), rest),
{
    match rest {
        Some(v) => {
            assert(pre + (seq![b] + v) =~= pre.push(b) + v);
        },
        None => {
        },
    }
}

/// A byte rendered as itself inside a byte literal: ASCII alphanumeric,
/// `-` or `_`.
pub open spec fn passthrough_byte(b: u8) -> bool {
    (48 <= b && b <= 57) || (65 <= b && b <= 90) || (97 <= b && b <= 122) || b == 45 || b == 95
}

/// The lowercase hex digit for a value below 16.
pub open spec fn hex_digit_char(n: u8) -> char
    recommends
        n < 16,
{
    if n < 10 {
        ((48 + n) as u8) as char
    } else {
        ((87 + n) as u8) as char
    }
}

fn hex_digit(n: u8) -> (c: char)
    requires
        n < 16,
    ensures
        c == hex_digit_char(n),
{
    if n < 10 {
        ((48 + n) as u8) as char
    } else {
        ((87 + n) as u8) as char
    }
}

/// The characters that render one byte inside a byte literal: a doubled
/// backslash for `\`, the character itself where it may pass through, and a
/// lowercase `\xHH` escape otherwise.
pub open spec fn escape_byte_chars(b: u8) -> Seq<char> {
    if b == 92 {
        seq!['\\', '\\']
    } else if passthrough_byte(b) {
        seq![b as char]
    } else {
        seq!['\\', 'x', hex_digit_char(b / 16), hex_digit_char(b % 16)]
    }
}

/// The characters that render a whole byte string inside a byte literal.
pub open spec fn escape_bytes_chars(bs: Seq<u8>) -> Seq<char>
    decreases bs.len(),
{
    if bs.len() == 0 {
        Seq::empty()
    } else {
        escape_byte_chars(bs[0]) + escape_bytes_chars(bs.drop_first())
    }
}

/// A rendered byte literal: `b"..."` around the escaped bytes, truncated
/// with an ellipsis after 64 source bytes.
pub open spec fn format_bytes_spec(bs: Seq<u8>) -> Seq<char> {
    if bs.len() <= 64 {
        seq!['b', '"'] + escape_bytes_chars(bs) + seq!['"']
    } else {
        seq!['b', '"'] + escape_bytes_chars(bs.take(64)) + seq!['\u{2026}', '"']
    }
}

pub broadcast proof fn lemma_escape_concat(a: Seq<u8>, b: Seq<u8>)
    ensures
        #[trigger] escape_bytes_chars(a + b) == escape_bytes_chars(a) + escape_bytes_chars(b),
    decreases a.len(),
{
    if a.len() == 0 {
        assert(a + b =~= b);
        assert(escape_bytes_chars(a) + escape_bytes_chars(b) =~= escape_bytes_chars(b));
    } else {
        assert((a + b).drop_first() =~= a.drop_first() + b);
        lemma_escape_concat(a.drop_first(), b);
        assert(escape_byte_chars(a[0]) + (escape_bytes_chars(a.drop_first()) + escape_bytes_chars(
            b,
        )) =~= (escape_byte_chars(a[0]) + escape_bytes_chars(a.drop_first()))
            + escape_bytes_chars(b));
    }
}

/// Renders raw bytes as a readable escaped byte literal, showing at most the
/// first 64 bytes.
pub fn format_bytes(b: &[u8]) -> (r: String)
    ensures
        r@ == format_bytes_spec(b@),
{
    let limit: usize = if b.len() > 64 {
        64
    } else {
        b.len()
    };
    let mut out = String::from_str("b\"");
    proof {
        reveal_strlit("b\"");
        assert(out@ =~= seq!['b', '"']);
        assert(b@.take(0) =~= Seq::<u8>::empty());
        assert(out@ + escape_bytes_chars(b@.take(0)) =~= out@);
    }
    let mut i: usize = 0;
    while i < limit
        invariant
            i <= limit,
            limit == if b@.len() > 64 {
                64int
            } else {
                b@.len() as int
            },
            out@ == seq!['b', '"'] + escape_bytes_chars(b@.take(i as int)),
        decreases limit - i,
    {
        let ghost prev = out@;
        let byte = b[i];
        if byte == 92 {
            push_char(&mut out, '\\');
            push_char(&mut out, '\\');
            proof {
                assert(prev.push('\\').push('\\') =~= prev + escape_byte_chars(byte));
            }
        } else if (48 <= byte && byte <= 57) || (65 <= byte && byte <= 90) || (97 <= byte && byte
            <= 122) || byte == 45 || byte == 95 {
            push_char(&mut out, byte as char);
            proof {
                assert(prev.push(byte as char) =~= prev + escape_byte_chars(byte));
            }
        } else {
            push_char(&mut out, '\\');
            push_char(&mut out, 'x');
            push_char(&mut out, hex_digit(byte / 16));
            push_char(&mut out, hex_digit(byte % 16));
            proof {
                assert(prev.push('\\').push('x').push(hex_digit_char(byte / 16)).push(
                    hex_digit_char(byte % 16),
                ) =~= prev + escape_byte_chars(byte));
            }
        }
        proof {
            lemma_escape_concat(b@.take(i as int), seq![b@[i as int]]);
            assert(b@.take(i + 1) =~= b@.take(i as int) + seq![b@[i as int]]);
            assert(seq![b@[i as int]].drop_first() =~= Seq::<u8>::empty());
            assert(escape_bytes_chars(Seq::<u8>::empty()) =~= Seq::<char>::empty());
            assert(escape_bytes_chars(seq![b@[i as int]]) =~= escape_byte_chars(b@[i as int])
                + escape_bytes_chars(Seq::<u8>::empty()));
            assert(escape_bytes_chars(seq![b@[i as int]]) =~= escape_byte_chars(b@[i as int]));
            assert((seq!['b', '"'] + escape_bytes_chars(b@.take(i as int))) + escape_byte_chars(
                b@[i as int],
            ) =~= seq!['b', '"'] + escape_bytes_chars(b@.take(i + 1)));
        }
        i = i + 1;
    }
    if b.len() > 64 {
        push_char(&mut out, '\u{2026}');
        push_char(&mut out, '"');
        proof {
            assert(out@ =~= format_bytes_spec(b@));
        }
    } else {
        push_char(&mut out, '"');
        proof {
            assert(b@.take(b@.len() as int) =~= b@);
            assert(out@ =~= format_bytes_spec(b@));
        }
    }
    out
}

/// A character the text rendering keeps as-is: anything that is not a
/// control character, besides the common whitespace controls.
pub open spec fn renderable_char(c: char) -> bool {
    c == '\n' || c == '\r' || c == '\t' || !((c as u32) < 32 || (127 <= c as u32 && c as u32
        <= 159))
}

pub open spec fn renderable_text(cs: Seq<char>) -> bool {
    forall|i: int| 0 <= i < cs.len() ==> renderable_char(#[trigger] cs[i])
}

/// Bytes rendered as quoted text when they are valid UTF-8 free of control
/// characters (other than `\n`, `\r`, `\t`), and as a byte literal otherwise.
pub open spec fn try_utf8_or_bytes_spec(bs: Seq<u8>) -> Seq<char> {
    if valid_utf8(bs) && renderable_text(decode_utf8(bs)) {
        seq!['"'] + decode_utf8(bs) + seq!['"']
    } else {
        format_bytes_spec(bs)
    }
}

fn all_renderable(s: &str) -> (r: bool)
    ensures
        r == renderable_text(s@),
{
    let n = s.unicode_len();
    let mut i: usize = 0;
    while i < n
        invariant
            i <= n,
            n == s@.len(),
            forall|j: int| 0 <= j < i ==> renderable_char(#[trigger] s@[j]),
        decreases n - i,
    {
        let c = s.get_char(i);
        let u = c as u32;
        let ok = c == '\n' || c == '\r' || c == '\t' || !(u < 32 || (127 <= u && u <= 159));
        if !ok {
            return false;
        }
        i = i + 1;
    }
    true
}

/// Renders bytes as a quoted text literal when they are valid UTF-8 with no
/// control characters other than `\n`, `\r` and `\t`, and as an escaped byte
/// literal otherwise.
pub fn try_utf8_or_bytes(b: &[u8]) -> (r: String)
    ensures
        r@ == try_utf8_or_bytes_spec(b@),
{
    let text = utf8_str(b);
    match text {
        Some(s) => {
            proof {
                vstd::utf8::encode_utf8_decode_utf8(s@);
                assert(decode_utf8(b@) == s@);
            }
            if all_renderable(s) {
                let mut out = String::from_str("\"");
                out.append(s);
                out.append("\"");
                proof {
                    reveal_strlit("\"");
                    assert(out@ =~= seq!['"'] + decode_utf8(b@) + seq!['"']);
                }
                out
            } else {
                format_bytes(b)
            }
        },
        None => format_bytes(b),
    }
}

/// Law: rendering raw bytes as an escaped literal and decoding the text
/// between the quotes yields the bytes back, for the UTF-8 bytes of any
/// escaped byte string.
pub proof fn lemma_escape_round_trip(bs: Seq<u8>)
    ensures
        is_ascii_chars(escape_bytes_chars(bs)),
        decode_lit(encode_utf8(escape_bytes_chars(bs))) == Some(bs),
    decreases bs.len(),
{
    broadcast use vstd::utf8::is_ascii_chars_encode_utf8;

    if bs.len() == 0 {
        assert(escape_bytes_chars(bs) =~= Seq::<char>::empty());
        assert(encode_utf8(escape_bytes_chars(bs)) =~= Seq::<u8>::empty());
    } else {
        let b = bs[0];
        let rest = bs.drop_first();
        lemma_escape_round_trip(rest);
        lemma_escape_byte_ascii(b);
        let head = escape_byte_chars(b);
        let tail = escape_bytes_chars(rest);
        assert(escape_bytes_chars(bs) == head + tail);
        assert(is_ascii_chars(head + tail)) by {
            assert(forall|i: int|
                0 <= i < (head + tail).len() ==> '\0' <= #[trigger] (head + tail)[i]
                    <= '\u{7f}');
        }
        let all = encode_utf8(head + tail);
        let hb = encode_utf8(head);
        let tb = encode_utf8(tail);
        assert(is_ascii_chars(head));
        assert(all =~= hb + tb) by {
            assert(all.len() == head.len() + tail.len());
            assert(hb.len() == head.len());
            assert(tb.len() == tail.len());
            assert(forall|i: int|
                0 <= i < all.len() ==> all[i] == (head + tail)[i] as u8);
            assert(forall|i: int| 0 <= i < hb.len() ==> hb[i] == head[i] as u8);
            assert(forall|i: int| 0 <= i < tb.len() ==> tb[i] == tail[i] as u8);
        }
        if b == 92 {
            assert(hb =~= seq![92u8, 92u8]);
            lemma_decode_step(bs, hb, tb);
        } else if passthrough_byte(b) {
            assert(hb =~= seq![b]) by {
                assert(head[0] == b as char);
                assert((b as char) as u8 == b);
            }
            lemma_decode_step(bs, hb, tb);
        } else {
            let hi = b / 16;
            let lo = b % 16;
            assert(hb =~= seq![92u8, 120u8, hex_digit_char(hi) as u8, hex_digit_char(lo) as u8]);
            lemma_decode_step(bs, hb, tb);
        }
    }
}

/// Every character that escapes a byte is ASCII, and hex digits invert.
proof fn lemma_escape_byte_ascii(b: u8)
    ensures
        is_ascii_chars(escape_byte_chars(b)),
        !passthrough_byte(b) && b != 92 ==> {
            &&& hex_val_spec((hex_digit_char(b / 16) as u8) as char) == Some(b / 16)
            &&& hex_val_spec((hex_digit_char(b % 16) as u8) as char) == Some(b % 16)
            &&& hex_pair_val(b / 16, b % 16) == b
        },
{
    assert(b / 16 < 16 && b % 16 < 16);
    assert(b / 16 * 16 + b % 16 == b);
    assert(forall|i: int|
        0 <= i < escape_byte_chars(b).len() ==> '\0' <= #[trigger] escape_byte_chars(b)[i]
            <= '\u{7f}');
}

/// One step of the round trip: the escape of the first byte decodes to that
/// byte and hands the rest of the text on.
proof fn lemma_decode_step(bs: Seq<u8>, hb: Seq<u8>, tb: Seq<u8>)
    requires
        bs.len() > 0,
        decode_lit(tb) == Some(bs.drop_first()),
        hb == encode_utf8(escape_byte_chars(bs[0])),
        ({
            let b = bs[0];
            if b == 92 {
                hb =~= seq![92u8, 92u8]
            } else if passthrough_byte(b) {
                hb =~= seq![b]
            } else {
                hb =~= seq![
                    92u8,
                    120u8,
                    hex_digit_char(b / 16) as u8,
                    hex_digit_char(b % 16) as u8,
                ]
            }
        }),
    ensures
        decode_lit(hb + tb) == Some(bs),
{
    let b = bs[0];
    let all = hb + tb;
    lemma_escape_byte_ascii(b);
    if b == 92 {
        assert(all.len() >= 2 && all[0] == 92 && all[1] == 92);
        assert(all.skip(2) =~= tb);
        assert(seq![92u8] + bs.drop_first() =~= bs);
    } else if passthrough_byte(b) {
        assert(all[0] == b && b != 92);
        assert(all.skip(1) =~= tb);
        assert(seq![b] + bs.drop_first() =~= bs);
    } else {
        assert(all.len() >= 4 && all[0] == 92 && all[1] == 120);
        assert(all[2] == hex_digit_char(b / 16) as u8);
        assert(all[3] == hex_digit_char(b % 16) as u8);
        assert((all[2] as char) == (hex_digit_char(b / 16) as u8) as char);
        assert(hex_val_spec(all[2] as char) == Some(b / 16));
        assert(hex_val_spec(all[3] as char) == Some(b % 16));
        assert(all.skip(4) =~= tb);
        assert(seq![hex_pair_val(b / 16, b % 16)] + bs.drop_first() =~= bs);
    }
}

} // verus!
