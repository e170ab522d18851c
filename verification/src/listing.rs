//! Rendering of listed key-value rows: keys decoded inside a directory's
//! byte prefix, values decoded or shown as text, and the numbered row lines.
use vstd::prelude::*;

verus! {

use crate::byte_literal::format_bytes;
use crate::byte_literal::format_bytes_spec;
use crate::byte_literal::try_utf8_or_bytes;
use crate::byte_literal::try_utf8_or_bytes_spec;
use crate::element::decode_element;
use crate::element::decode_root_spec;
use crate::range_scan::has_prefix;
use crate::render::dec_nat_chars;
use crate::render::format_element;
use crate::render::lemma_decode_root_wf;
use crate::render::render_spec;
use crate::text::push_char;
use vstd::slice::slice_subrange;
use vstd::string::*;

/// How a key is shown: raw mode and keys outside the directory's subspace
/// (or with undecodable remainders) as byte literals, anything else as its
/// decoded element.
pub open spec fn format_key_spec(key: Seq<u8>, dir_prefix: Seq<u8>, raw: bool) -> Seq<char> {
    if raw {
        format_bytes_spec(key)
    } else if has_prefix(key, dir_prefix) && decode_root_spec(key.skip(dir_prefix.len() as int))
        is Some {
        render_spec(decode_root_spec(key.skip(dir_prefix.len() as int))->Some_0)
    } else {
        format_bytes_spec(key)
    }
}

/// How a value is shown: its decoded element when the bytes are a
/// well-formed encoding, otherwise as text or a byte literal.
pub open spec fn format_value_spec(val: Seq<u8>) -> Seq<char> {
    if decode_root_spec(val) is Some {
        render_spec(decode_root_spec(val)->Some_0)
    } else {
        try_utf8_or_bytes_spec(val)
    }
}

fn slice_has_prefix(s: &[u8], p: &[u8]) -> (r: bool)
    ensures
        r == has_prefix(s@, p@),
{
    if p.len() > s.len() {
        return false;
    }
    let mut i: usize = 0;
    while i < p.len()
        invariant
            i <= p@.len() <= s@.len(),
            forall|j: int| 0 <= j < i ==> s@[j] == p@[j],
        decreases p@.len() - i,
    {
        if s[i] != p[i] {
            proof {
                if has_prefix(s@, p@) {
                    assert(s@.take(p@.len() as int)[i as int] == s@[i as int]);
                }
            }
            return false;
        }
        i = i + 1;
    }
    proof {
        assert(s@.take(p@.len() as int) =~= p@);
    }
    true
}

/// Renders a listed key.
pub fn format_key(key: &[u8], dir_prefix: &[u8], raw: bool) -> (r: String)
    ensures
        r@ == format_key_spec(key@, dir_prefix@, raw),
{
    if raw {
        return format_bytes(key);
    }
    if slice_has_prefix(key, dir_prefix) {
        let rest = slice_subrange(key, dir_prefix.len(), key.len());
        proof {
            assert(rest@ =~= key@.skip(dir_prefix@.len() as int));
        }
        match decode_element(rest) {
            Ok(el) => {
                proof {
                    lemma_decode_root_wf(rest@);
                }
                format_element(&el)
            },
            Err(_) => format_bytes(key),
        }
    } else {
        format_bytes(key)
    }
}

/// Renders a listed value.
pub fn format_value(val: &[u8]) -> (r: String)
    ensures
        r@ == format_value_spec(val@),
{
    match decode_element(val) {
        Ok(el) => {
            proof {
                lemma_decode_root_wf(val@);
            }
            format_element(&el)
        },
        Err(_) => try_utf8_or_bytes(val),
    }
}

/// A run of spaces.
pub open spec fn spaces(n: nat) -> Seq<char> {
    Seq::new(n, |i: int| ' ')
}

/// A row index right-aligned to four characters.
pub open spec fn align4(digits: Seq<char>) -> Seq<char> {
    if digits.len() >= 4 {
        digits
    } else {
        spaces((4 - digits.len()) as nat) + digits
    }
}

/// One numbered listing row: the aligned 1-based index, a dot, the key, an
/// arrow, the value.
pub open spec fn row_spec(index: nat, key: Seq<char>, value: Seq<char>) -> Seq<char> {
    align4(dec_nat_chars(index)) + seq!['.', ' '] + key + seq![' ', '=', '>', ' '] + value
}

/// Renders one numbered key-value row.
pub fn format_row(index: usize, key: &[u8], value: &[u8], dir_prefix: &[u8], raw: bool) -> (r:
    String)
    ensures
        r@ == row_spec(
            index as nat,
            format_key_spec(key@, dir_prefix@, raw),
            format_value_spec(value@),
        ),
{
    let mut digits = String::new();
    crate::render::push_dec_u64(&mut digits, index as u64);
    proof {
        assert(Seq::<char>::empty() + dec_nat_chars(index as nat) =~= dec_nat_chars(index as nat));
    }
    let mut out = String::new();
    let dlen = digits.unicode_len();
    let mut pad: usize = 0;
    let padn: usize = if dlen >= 4 {
        0
    } else {
        4 - dlen
    };
    proof {
        assert(out@ =~= spaces(0));
    }
    while pad < padn
        invariant
            pad <= padn,
            padn == if dec_nat_chars(index as nat).len() >= 4 {
                0int
            } else {
                4 - dec_nat_chars(index as nat).len()
            },
            out@ == spaces(pad as nat),
        decreases padn - pad,
    {
        push_char(&mut out, ' ');
        proof {
            assert(out@ =~= spaces((pad + 1) as nat));
        }
        pad = pad + 1;
    }
    out.append(digits.as_str());
    proof {
        assert(out@ =~= align4(dec_nat_chars(index as nat)));
    }
    out.append(". ");
    let k = format_key(key, dir_prefix, raw);
    out.append(k.as_str());
    out.append(" => ");
    let v = format_value(value);
    out.append(v.as_str());
    proof {
        reveal_strlit(". ");
        reveal_strlit(" => ");
        assert((". ")@ =~= seq!['.', ' ']);
        assert((" => ")@ =~= seq![' ', '=', '>', ' ']);
        assert(out@ =~= row_spec(
            index as nat,
            format_key_spec(key@, dir_prefix@, raw),
            format_value_spec(value@),
        ));
    }
    out
}

/// The rows a scan shows: the first `limit` pairs, numbered from one.
pub fn render_scan_rows(
    rows: &Vec<(Vec<u8>, Vec<u8>)>,
    limit: usize,
    dir_prefix: &[u8],
    raw: bool,
) -> (r: Vec<String>)
    ensures
        r@.len() == if rows@.len() <= limit {
            rows@.len() as int
        } else {
            limit as int
        },
        forall|i: int|
            0 <= i < r@.len() ==> #[trigger] r@[i]@ == row_spec(
                (i + 1) as nat,
                format_key_spec(rows@[i].0@, dir_prefix@, raw),
                format_value_spec(rows@[i].1@),
            ),
{
    let n: usize = if rows.len() <= limit {
        rows.len()
    } else {
        limit
    };
    let mut out: Vec<String> = Vec::new();
    let mut i: usize = 0;
    while i < n
        invariant
            i <= n <= rows@.len(),
            out@.len() == i,
            forall|j: int|
                0 <= j < i ==> #[trigger] out@[j]@ == row_spec(
                    (j + 1) as nat,
                    format_key_spec(rows@[j].0@, dir_prefix@, raw),
                    format_value_spec(rows@[j].1@),
                ),
        decreases n - i,
    {
        let row = format_row(i + 1, rows[i].0.as_slice(), rows[i].1.as_slice(), dir_prefix, raw);
        out.push(row);
        i = i + 1;
    }
    out
}

/// How many keys a directory listing samples before it is cut short.
pub const LS_SAMPLE: usize = 50;

/// The key rows a directory listing shows: up to the sample size, numbered
/// from one, with a flag telling that more keys exist beyond the sample.
pub fn render_ls_keys(rows: &Vec<(Vec<u8>, Vec<u8>)>, dir_prefix: &[u8]) -> (r: (
    Vec<String>,
    bool,
))
    ensures
        r.0@.len() == if rows@.len() <= LS_SAMPLE {
            rows@.len() as int
        } else {
            LS_SAMPLE as int
        },
        forall|i: int|
            0 <= i < r.0@.len() ==> #[trigger] r.0@[i]@ == row_spec(
                (i + 1) as nat,
                format_key_spec(rows@[i].0@, dir_prefix@, false),
                format_value_spec(rows@[i].1@),
            ),
        r.1 == (rows@.len() > LS_SAMPLE),
{
    let shown = render_scan_rows(rows, LS_SAMPLE, dir_prefix, false);
    let more = rows.len() > LS_SAMPLE;
    (shown, more)
}

} // verus!
