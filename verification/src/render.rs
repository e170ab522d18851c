//! Human-readable rendering of decoded elements: `nil`, quoted text, byte
//! literals, decimal integers, floats, `uuid:` and `versionstamp:` forms,
//! and parenthesised tuples.
use vstd::prelude::*;

verus! {

use crate::byte_literal::format_bytes;
use crate::byte_literal::format_bytes_spec;
use crate::byte_literal::hex_digit_char;
use crate::element::ElemModel;
use crate::element::Element;
use crate::element::clamp_used;
use crate::element::decode_elem;
use crate::element::decode_items;
use crate::element::decode_root_items;
use crate::element::decode_root_spec;
use crate::element::elems_model;
use crate::element::lemma_elems_model;
use crate::text::push_char;
use vstd::slice::slice_subrange;
use vstd::string::*;

/// The decimal digit for a value below ten.
pub open spec fn dec_digit_char(d: nat) -> char
    recommends
        d < 10,
{
    ((48 + d) as u8) as char
}

/// The decimal digits of a natural number, most significant first.
pub open spec fn dec_nat_chars(n: nat) -> Seq<char>
    decreases n,
{
    if n < 10 {
        seq![dec_digit_char(n)]
    } else {
        dec_nat_chars(n / 10) + seq![dec_digit_char(n % 10)]
    }
}

/// The decimal rendering of an integer, with a leading minus sign when it
/// is negative.
pub open spec fn dec_int_chars(v: int) -> Seq<char> {
    if v < 0 {
        seq!['-'] + dec_nat_chars((-v) as nat)
    } else {
        dec_nat_chars(v as nat)
    }
}

/// Two lowercase hex digits for each byte, in order.
pub open spec fn hex_seq(bs: Seq<u8>) -> Seq<char>
    decreases bs.len(),
{
    if bs.len() == 0 {
        Seq::empty()
    } else {
        seq![hex_digit_char(bs[0] / 16), hex_digit_char(bs[0] % 16)] + hex_seq(bs.drop_first())
    }
}

/// The hyphen-grouped form of a 16-byte UUID, after a `uuid:` marker.
pub open spec fn uuid_chars(u: Seq<u8>) -> Seq<char>
    recommends
        u.len() == 16,
{
    seq!['u', 'u', 'i', 'd', ':'] + hex_seq(u.subrange(0, 4)) + seq!['-'] + hex_seq(
        u.subrange(4, 6),
    ) + seq!['-'] + hex_seq(u.subrange(6, 8)) + seq!['-'] + hex_seq(u.subrange(8, 10)) + seq!['-']
        + hex_seq(u.subrange(10, 16))
}

/// The wire form of a 4-byte float element with the given IEEE bits: the
/// type tag, then the bits with the sign bit flipped for a non-negative
/// float and every bit flipped for a negative one, big-endian.
pub open spec fn float32_wire(bits: u32) -> Seq<u8> {
    let u = if bits < 0x80000000 {
        (bits + 0x80000000) as nat
    } else {
        (0xFFFFFFFF - bits) as nat
    };
    seq![
        0x20u8,
        (u / 0x1000000 % 0x100) as u8,
        (u / 0x10000 % 0x100) as u8,
        (u / 0x100 % 0x100) as u8,
        (u % 0x100) as u8,
    ]
}

/// The wire form of an 8-byte float element with the given IEEE bits.
pub open spec fn float64_wire(bits: u64) -> Seq<u8> {
    let u = if bits < 0x8000000000000000 {
        (bits + 0x8000000000000000) as nat
    } else {
        (0xFFFFFFFFFFFFFFFF - bits) as nat
    };
    seq![
        0x21u8,
        (u / 0x100000000000000 % 0x100) as u8,
        (u / 0x1000000000000 % 0x100) as u8,
        (u / 0x10000000000 % 0x100) as u8,
        (u / 0x100000000 % 0x100) as u8,
        (u / 0x1000000 % 0x100) as u8,
        (u / 0x10000 % 0x100) as u8,
        (u / 0x100 % 0x100) as u8,
        (u % 0x100) as u8,
    ]
}

/// The text that a one-float buffer in wire form prints as: the float's
/// decimal form followed by its width. It is a function of the bytes alone.
pub uninterp spec fn float_repr(enc: Seq<u8>) -> Seq<char>;

/// Relies on `foundationdb_tuple::Element::unpack_root`: a buffer holding
/// exactly one float element decodes to that float, which std's formatter
/// then renders; the result depends on the bytes alone.
#[verifier::external_body]
fn float_repr_bytes(enc: &[u8]) -> (r: String)
    ensures
        r@ == float_repr(enc@),
{
    match <foundationdb_tuple::Element as foundationdb_tuple::TupleUnpack>::unpack_root(enc) {
        Ok(foundationdb_tuple::Element::Float(f)) => format!("{f}f32"),
        Ok(foundationdb_tuple::Element::Double(d)) => format!("{d}f64"),
        _ => String::new(),
    }
}

/// Relies on `hex::encode`: two lowercase hex digits for each byte, in
/// order.
#[verifier::external_body]
fn hex_encode(b: &[u8]) -> (r: String)
    ensures
        r@ == hex_seq(b@),
{
    hex::encode(b)
}

/// Structural validity of an element: a UUID holds 16 bytes, a versionstamp
/// its 10-byte transaction version, and a tuple holds valid items.
pub open spec fn elem_wf(e: ElemModel) -> bool
    decreases e, 0nat,
{
    match e {
        ElemModel::Uuid(u) => u.len() == 16,
        ElemModel::Versionstamp(v) => v.len() == 10,
        ElemModel::Tuple(items) => elems_wf(items),
        _ => true,
    }
}

/// Structural validity of every element of a sequence.
pub open spec fn elems_wf(items: Seq<ElemModel>) -> bool
    decreases items, 1nat,
{
    items.len() == 0 || (elem_wf(items[0]) && elems_wf(items.drop_first()))
}

/// A valid sequence has valid members.
pub broadcast proof fn lemma_elems_wf_index(items: Seq<ElemModel>, i: int)
    requires
        elems_wf(items),
        0 <= i < items.len(),
    ensures
        elem_wf(#[trigger] items[i]),
    decreases items.len(),
{
    if i > 0 {
        assert(items.drop_first()[i - 1] == items[i]);
        lemma_elems_wf_index(items.drop_first(), i - 1);
    }
}

/// The rendering of an element: `nil`, a byte literal, quoted text, a
/// decimal integer, a float with its width suffix, `true`/`false`,
/// `uuid:` and `versionstamp:` forms, and a parenthesised, comma-separated
/// tuple.
pub open spec fn render_spec(e: ElemModel) -> Seq<char>
    decreases e, 0nat,
{
    match e {
        ElemModel::Nil => seq!['n', 'i', 'l'],
        ElemModel::Bytes(b) => format_bytes_spec(b),
        ElemModel::Text(s) => seq!['"'] + s + seq!['"'],
        ElemModel::Int(i) => dec_int_chars(i as int),
        ElemModel::Float32(bits) => float_repr(float32_wire(bits)),
        ElemModel::Float64(bits) => float_repr(float64_wire(bits)),
        ElemModel::Bool(b) => if b {
            seq!['t', 'r', 'u', 'e']
        } else {
            seq!['f', 'a', 'l', 's', 'e']
        },
        ElemModel::Uuid(u) => uuid_chars(u),
        ElemModel::Versionstamp(v) => seq![
            'v',
            'e',
            'r',
            's',
            'i',
            'o',
            'n',
            's',
            't',
            'a',
            'm',
            'p',
            ':',
        ] + hex_seq(v),
        ElemModel::Tuple(items) => seq!['('] + render_items_spec(items) + seq![')'],
    }
}

/// The renderings of tuple items joined with a comma and a space.
pub open spec fn render_items_spec(items: Seq<ElemModel>) -> Seq<char>
    decreases items, 1nat,
{
    if items.len() == 0 {
        Seq::empty()
    } else if items.len() == 1 {
        render_spec(items[0])
    } else {
        render_spec(items[0]) + seq![',', ' '] + render_items_spec(items.drop_first())
    }
}

proof fn lemma_render_items_concat(a: Seq<ElemModel>, b: Seq<ElemModel>)
    requires
        a.len() > 0,
        b.len() > 0,
    ensures
        render_items_spec(a + b) == render_items_spec(a) + seq![',', ' '] + render_items_spec(b),
    decreases a.len(),
{
    if a.len() == 1 {
        assert((a + b).drop_first() =~= b);
        assert((a + b)[0] == a[0]);
        assert((a + b).len() >= 2);
        assert(render_items_spec(a + b) == render_spec(a[0]) + seq![',', ' ']
            + render_items_spec(b));
    } else {
        assert((a + b).drop_first() =~= a.drop_first() + b);
        assert((a + b)[0] == a[0]);
        lemma_render_items_concat(a.drop_first(), b);
        assert(render_spec(a[0]) + seq![',', ' '] + (render_items_spec(a.drop_first()) + seq![
            ',',
            ' ',
        ] + render_items_spec(b)) =~= (render_spec(a[0]) + seq![',', ' '] + render_items_spec(
            a.drop_first(),
        )) + seq![',', ' '] + render_items_spec(b));
        assert(render_items_spec(a + b) =~= render_items_spec(a) + seq![',', ' ']
            + render_items_spec(b));
    }
}

fn dec_digit(d: u64) -> (c: char)
    requires
        d < 10,
    ensures
        c == dec_digit_char(d as nat),
{
    ((48 + d as u8) as u8) as char
}

pub(crate) fn push_dec_u64(s: &mut String, n: u64)
    ensures
        final(s)@ == old(s)@ + dec_nat_chars(n as nat),
    decreases n,
{
    if n >= 10 {
        push_dec_u64(s, n / 10);
        let ghost mid = s@;
        push_char(s, dec_digit(n % 10));
        proof {
            assert(mid + seq![dec_digit_char((n % 10) as nat)] =~= old(s)@ + (dec_nat_chars(
                (n / 10) as nat,
            ) + seq![dec_digit_char((n % 10) as nat)]));
        }
    } else {
        push_char(s, dec_digit(n));
        proof {
            assert(old(s)@.push(dec_digit_char(n as nat)) =~= old(s)@ + seq![
                dec_digit_char(n as nat),
            ]);
        }
    }
}

fn format_int(v: i64) -> (r: String)
    ensures
        r@ == dec_int_chars(v as int),
{
    let mut out = String::new();
    if v < 0 {
        push_char(&mut out, '-');
        let m: i128 = -(v as i128);
        let u: u64 = m as u64;
        push_dec_u64(&mut out, u);
        proof {
            assert(out@ =~= seq!['-'] + dec_nat_chars(u as nat));
        }
    } else {
        push_dec_u64(&mut out, v as u64);
        proof {
            assert(Seq::<char>::empty() + dec_nat_chars((v as u64) as nat) =~= dec_nat_chars(
                (v as u64) as nat,
            ));
        }
    }
    out
}

fn format_f32(bits: u32) -> (r: String)
    ensures
        r@ == float_repr(float32_wire(bits)),
{
    let u: u32 = if bits < 0x80000000 {
        bits + 0x80000000
    } else {
        0xFFFFFFFF - bits
    };
    let mut enc: Vec<u8> = Vec::new();
    enc.push(0x20);
    enc.push((u / 0x1000000 % 0x100) as u8);
    enc.push((u / 0x10000 % 0x100) as u8);
    enc.push((u / 0x100 % 0x100) as u8);
    enc.push((u % 0x100) as u8);
    proof {
        assert(enc@ =~= float32_wire(bits));
    }
    float_repr_bytes(enc.as_slice())
}

fn format_f64(bits: u64) -> (r: String)
    ensures
        r@ == float_repr(float64_wire(bits)),
{
    let u: u64 = if bits < 0x8000000000000000 {
        bits + 0x8000000000000000
    } else {
        0xFFFFFFFFFFFFFFFF - bits
    };
    let mut enc: Vec<u8> = Vec::new();
    enc.push(0x21);
    enc.push((u / 0x100000000000000 % 0x100) as u8);
    enc.push((u / 0x1000000000000 % 0x100) as u8);
    enc.push((u / 0x10000000000 % 0x100) as u8);
    enc.push((u / 0x100000000 % 0x100) as u8);
    enc.push((u / 0x1000000 % 0x100) as u8);
    enc.push((u / 0x10000 % 0x100) as u8);
    enc.push((u / 0x100 % 0x100) as u8);
    enc.push((u % 0x100) as u8);
    proof {
        assert(enc@ =~= float64_wire(bits));
    }
    float_repr_bytes(enc.as_slice())
}

fn format_uuid(u: &Vec<u8>) -> (r: String)
    requires
        u@.len() == 16,
    ensures
        r@ == uuid_chars(u@),
{
    let mut out = String::from_str("uuid:");
    proof {
        reveal_strlit("uuid:");
        assert(out@ =~= seq!['u', 'u', 'i', 'd', ':']);
    }
    let s = u.as_slice();
    let p0 = hex_encode(slice_subrange(s, 0, 4));
    out.append(p0.as_str());
    out.append("-");
    let p1 = hex_encode(slice_subrange(s, 4, 6));
    out.append(p1.as_str());
    out.append("-");
    let p2 = hex_encode(slice_subrange(s, 6, 8));
    out.append(p2.as_str());
    out.append("-");
    let p3 = hex_encode(slice_subrange(s, 8, 10));
    out.append(p3.as_str());
    out.append("-");
    let p4 = hex_encode(slice_subrange(s, 10, 16));
    out.append(p4.as_str());
    proof {
        reveal_strlit("-");
        assert(("-")@ =~= seq!['-']);
        assert(out@ =~= uuid_chars(u@));
    }
    out
}

/// Renders one element as human-readable text.
pub fn format_element(el: &Element) -> (r: String)
    requires
        elem_wf(el@),
    ensures
        r@ == render_spec(el@),
    decreases *el,
{
    match el {
        Element::Nil => {
            let out = String::from_str("nil");
            proof {
                reveal_strlit("nil");
                assert(out@ =~= seq!['n', 'i', 'l']);
            }
            out
        },
        Element::Bytes(b) => format_bytes(b.as_slice()),
        Element::Text(s) => {
            let mut out = String::from_str("\"");
            out.append(s.as_str());
            out.append("\"");
            proof {
                reveal_strlit("\"");
                assert(out@ =~= seq!['"'] + s@ + seq!['"']);
            }
            out
        },
        Element::Int(i) => format_int(*i),
        Element::Float32(bits) => format_f32(*bits),
        Element::Float64(bits) => format_f64(*bits),
        Element::Bool(b) => {
            if *b {
                let out = String::from_str("true");
                proof {
                    reveal_strlit("true");
                    assert(out@ =~= seq!['t', 'r', 'u', 'e']);
                }
                out
            } else {
                let out = String::from_str("false");
                proof {
                    reveal_strlit("false");
                    assert(out@ =~= seq!['f', 'a', 'l', 's', 'e']);
                }
                out
            }
        },
        Element::Uuid(u) => format_uuid(u),
        Element::Versionstamp(v) => {
            let mut out = String::from_str("versionstamp:");
            let h = hex_encode(v.as_slice());
            out.append(h.as_str());
            proof {
                reveal_strlit("versionstamp:");
                assert(out@ =~= seq![
                    'v',
                    'e',
                    'r',
                    's',
                    'i',
                    'o',
                    'n',
                    's',
                    't',
                    'a',
                    'm',
                    'p',
                    ':',
                ] + hex_seq(v@));
            }
            out
        },
        Element::Tuple(items) => {
            let mut out = String::from_str("(");
            let inner = format_items(items);
            out.append(inner.as_str());
            out.append(")");
            proof {
                reveal_strlit("(");
                reveal_strlit(")");
                assert(out@ =~= seq!['('] + render_items_spec(elems_model(items@)) + seq![')']);
            }
            out
        },
    }
}

/// Renders tuple items joined with a comma and a space.
fn format_items(items: &Vec<Element>) -> (r: String)
    requires
        elems_wf(elems_model(items@)),
    ensures
        r@ == render_items_spec(elems_model(items@)),
    decreases *items,
{
    proof {
        lemma_elems_model(items@);
    }
    let ghost m = elems_model(items@);
    if items.len() == 0 {
        let out = String::new();
        proof {
            assert(m.len() == 0);
        }
        return out;
    }
    proof {
        assert(decreases_to!(*items => items[0int]));
        assert(m[0] == items@[0]@);
        lemma_elems_wf_index(m, 0);
    }
    let mut out = format_element(&items[0]);
    proof {
        assert(m.take(1) =~= seq![m[0]]);
        assert(render_items_spec(m.take(1)) == render_spec(m[0]));
    }
    let mut k: usize = 1;
    while k < items.len()
        invariant
            1 <= k <= items@.len(),
            m == elems_model(items@),
            m.len() == items@.len(),
            elems_wf(m),
            out@ == render_items_spec(m.take(k as int)),
        decreases items@.len() - k,
    {
        proof {
            lemma_elems_model(items@);
            assert(decreases_to!(*items => items[k as int]));
            assert(m[k as int] == items@[k as int]@);
            lemma_elems_wf_index(m, k as int);
        }
        out.append(", ");
        let piece = format_element(&items[k]);
        out.append(piece.as_str());
        proof {
            reveal_strlit(", ");
            assert((", ")@ =~= seq![',', ' ']);
            lemma_render_items_concat(m.take(k as int), seq![m[k as int]]);
            assert(m.take(k + 1) =~= m.take(k as int) + seq![m[k as int]]);
            assert(render_items_spec(seq![m[k as int]]) == render_spec(m[k as int]));
            assert(out@ =~= render_items_spec(m.take(k + 1)));
        }
        k = k + 1;
    }
    proof {
        assert(m.take(m.len() as int) =~= m);
    }
    out
}


/// Whatever decodes is structurally valid.
proof fn lemma_decode_elem_wf(bs: Seq<u8>, depth: nat)
    ensures
        decode_elem(bs, depth) matches Some((e, c)) ==> elem_wf(e),
    decreases bs.len(), 0nat,
{
    if bs.len() > 0 && bs[0] == 0x05 {
        lemma_decode_items_wf(bs.skip(1), depth + 1);
    }
}

proof fn lemma_decode_items_wf(bs: Seq<u8>, depth: nat)
    ensures
        decode_items(bs, depth) matches Some((items, c)) ==> elems_wf(items),
    decreases bs.len(), 1nat,
{
    if bs.len() == 0 {
    } else if bs[0] == 0x00 && (bs.len() < 2 || bs[1] != 0xFF) {
    } else {
        lemma_decode_elem_wf(bs, depth);
        match decode_elem(bs, depth) {
            Some((e, c)) => {
                let c1 = clamp_used(c, bs.len() as int);
                lemma_decode_items_wf(bs.skip(c1), depth);
                match decode_items(bs.skip(c1), depth) {
                    Some((rest, c2)) => {
                        assert((seq![e] + rest)[0] == e);
                        assert((seq![e] + rest).drop_first() =~= rest);
                    },
                    None => {
                    },
                }
            },
            None => {
            },
        }
    }
}

proof fn lemma_decode_root_items_wf(bs: Seq<u8>)
    ensures
        decode_root_items(bs) matches Some(items) ==> elems_wf(items),
    decreases bs.len(),
{
    if bs.len() > 0 {
        lemma_decode_elem_wf(bs, 1);
        match decode_elem(bs, 1) {
            Some((e, c)) => {
                let c1 = clamp_used(c, bs.len() as int);
                lemma_decode_root_items_wf(bs.skip(c1));
                match decode_root_items(bs.skip(c1)) {
                    Some(rest) => {
                        assert((seq![e] + rest)[0] == e);
                        assert((seq![e] + rest).drop_first() =~= rest);
                    },
                    None => {
                    },
                }
            },
            None => {
            },
        }
    }
}

/// Law: whatever a whole buffer decodes to is structurally valid, so it can
/// always be rendered.
pub proof fn lemma_decode_root_wf(bs: Seq<u8>)
    ensures
        decode_root_spec(bs) matches Some(e) ==> elem_wf(e),
{
    lemma_decode_root_items_wf(bs);
    match decode_root_items(bs) {
        Some(items) => {
            if items.len() == 1 && bs.len() > 0 && bs[0] != 0x05 {
                lemma_elems_wf_index(items, 0);
            }
        },
        None => {
        },
    }
}

} // verus!
