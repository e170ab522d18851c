//! The self-describing, type-tagged binary encoding of typed values: a tree
//! of elements (nil, bytes, text, integers, floats, booleans, UUIDs,
//! versionstamps, nested tuples) decoded from bytes, totally and without
//! panics.
use vstd::prelude::*;

verus! {

use vstd::utf8::decode_utf8;
use vstd::utf8::valid_utf8;

/// A decoded typed value. Floats carry their IEEE-754 bit patterns; a UUID
/// carries its 16 bytes; a versionstamp carries its 10-byte transaction
/// version.
#[derive(Debug, PartialEq, Eq)]
pub enum Element {
    Nil,
    Bytes(Vec<u8>),
    Text(String),
    Int(i64),
    Float32(u32),
    Float64(u64),
    Bool(bool),
    Uuid(Vec<u8>),
    Versionstamp(Vec<u8>),
    Tuple(Vec<Element>),
}

/// The mathematical shape of an [`Element`].
pub enum ElemModel {
    Nil,
    Bytes(Seq<u8>),
    Text(Seq<char>),
    Int(i64),
    Float32(u32),
    Float64(u64),
    Bool(bool),
    Uuid(Seq<u8>),
    Versionstamp(Seq<u8>),
    Tuple(Seq<ElemModel>),
}

/// The model of each element of a sequence.
pub open spec fn elems_model(items: Seq<Element>) -> Seq<ElemModel>
    decreases items,
{
    if items.len() == 0 {
        Seq::empty()
    } else {
        seq![elem_model(items[0])] + elems_model(items.drop_first())
    }
}

/// The model of a sequence is the sequence of the models.
pub broadcast proof fn lemma_elems_model(items: Seq<Element>)
    ensures
        #[trigger] elems_model(items).len() == items.len(),
        forall|i: int|
            0 <= i < items.len() ==> #[trigger] elems_model(items)[i] == elem_model(items[i]),
    decreases items.len(),
{
    if items.len() > 0 {
        lemma_elems_model(items.drop_first());
        assert forall|i: int|
            0 <= i < items.len() implies #[trigger] elems_model(items)[i] == elem_model(
            items[i],
        ) by {
            if i > 0 {
                assert(elems_model(items)[i] == elems_model(items.drop_first())[i - 1]);
                assert(items.drop_first()[i - 1] == items[i]);
            }
        }
    }
}

/// The model of an element: each byte or character container as a sequence.
pub open spec fn elem_model(e: Element) -> ElemModel
    decreases e,
{
    match e {
        Element::Nil => ElemModel::Nil,
        Element::Bytes(v) => ElemModel::Bytes(v@),
        Element::Text(s) => ElemModel::Text(s@),
        Element::Int(i) => ElemModel::Int(i),
        Element::Float32(b) => ElemModel::Float32(b),
        Element::Float64(b) => ElemModel::Float64(b),
        Element::Bool(b) => ElemModel::Bool(b),
        Element::Uuid(v) => ElemModel::Uuid(v@),
        Element::Versionstamp(v) => ElemModel::Versionstamp(v@),
        Element::Tuple(items) => ElemModel::Tuple(elems_model(items@)),
    }
}

impl View for Element {
    type V = ElemModel;

    open spec fn view(&self) -> ElemModel {
        elem_model(*self)
    }
}

impl DeepView for Element {
    type V = ElemModel;

    open spec fn deep_view(&self) -> ElemModel {
        elem_model(*self)
    }
}

/// Error for bytes that do not hold a well-formed encoded value: truncated
/// input, an unknown type tag, an integer too wide for its type, or text
/// that is not UTF-8.
#[derive(Clone, Copy, Debug, PartialEq, Eq)]
pub struct DecodeError;

/// A big-endian unsigned integer read from all the given bytes.
pub open spec fn be_uint(bs: Seq<u8>) -> nat
    decreases bs.len(),
{
    if bs.len() == 0 {
        0
    } else {
        (be_uint(bs.drop_last()) * 256 + bs.last()) as nat
    }
}

/// 256 to the `n`.
pub open spec fn pow256(n: nat) -> nat
    decreases n,
{
    if n == 0 {
        1nat
    } else {
        256 * pow256((n - 1) as nat)
    }
}

/// Decoding of a zero-terminated byte run: a `0x00` followed by `0xFF`
/// stands for an embedded zero byte, a `0x00` followed by anything else
/// ends the run. Gives the bytes and how many input bytes were used,
/// terminator included; fails on a run that never ends.
pub open spec fn decode_slice(bs: Seq<u8>) -> Option<(Seq<u8>, int)>
    decreases bs.len(),
{
    if bs.len() == 0 {
        None
    } else if bs[0] == 0x00 {
        if bs.len() >= 2 && bs[1] == 0xFF {
            match decode_slice(bs.skip(2)) {
                Some((v, c)) => Some((seq![0u8] + v, 2 + c)),
                None => None,
            }
        } else {
            Some((Seq::empty(), 1))
        }
    } else {
        match decode_slice(bs.skip(1)) {
            Some((v, c)) => Some((seq![bs[0]] + v, 1 + c)),
            None => None,
        }
    }
}

/// Clamps a consumed-bytes count into `1 ..= len`, so that recursion over
/// the rest of the input visibly terminates; a well-formed decode never
/// needs the clamp.
pub open spec fn clamp_used(c: int, len: int) -> int {
    if c < 1 {
        1
    } else if c > len {
        len
    } else {
        c
    }
}

/// The integer element encoded by tag `tag` (one of the fixed-width integer
/// tags) over `n` payload bytes holding the big-endian magnitude `u`:
/// positive magnitudes stand for themselves, negative ones are offset so
/// that byte order matches numeric order. Fails when the value does not fit
/// a 64-bit signed integer.
pub open spec fn int_of(neg: bool, n: nat, u: nat) -> Option<ElemModel> {
    if neg {
        let v = u + 1 - pow256(n);
        if v < i64::MIN {
            None
        } else {
            Some(ElemModel::Int(v as i64))
        }
    } else {
        if u > i64::MAX {
            None
        } else {
            Some(ElemModel::Int(u as i64))
        }
    }
}

/// The IEEE bits of a 4-byte float element from its order-adjusted wire
/// form: the wire flips the sign bit of a non-negative float and every bit
/// of a negative one.
pub open spec fn f32_bits_of_wire(u: nat) -> u32 {
    if u >= 0x80000000 {
        (u - 0x80000000) as u32
    } else {
        (0xFFFFFFFF - u) as u32
    }
}

/// The IEEE bits of an 8-byte float element from its order-adjusted wire
/// form.
pub open spec fn f64_bits_of_wire(u: nat) -> u64 {
    if u >= 0x8000000000000000 {
        (u - 0x8000000000000000) as u64
    } else {
        (0xFFFFFFFFFFFFFFFF - u) as u64
    }
}

/// Decodes one element at the head of `bs`, at nesting depth `depth` (the
/// root sequence is depth 1, a nested tuple's items one deeper, and so on).
/// Gives the element and how many bytes it used; fails on truncated input,
/// an unknown tag, an over-wide integer or non-UTF-8 text.
pub open spec fn decode_elem(bs: Seq<u8>, depth: nat) -> Option<(ElemModel, int)>
    decreases bs.len(), 0nat,
{
    if bs.len() == 0 {
        None
    } else {
        let tag = bs[0];
        if tag == 0x00 {
            // nil; inside a nested tuple it is escaped with 0xFF to differ
            // from the tuple terminator
            if depth >= 2 {
                if bs.len() >= 2 && bs[1] == 0xFF {
                    Some((ElemModel::Nil, 2))
                } else {
                    None
                }
            } else {
                Some((ElemModel::Nil, 1))
            }
        } else if tag == 0x01 {
            // byte string
            match decode_slice(bs.skip(1)) {
                Some((v, c)) => Some((ElemModel::Bytes(v), 1 + c)),
                None => None,
            }
        } else if tag == 0x02 {
            // text
            match decode_slice(bs.skip(1)) {
                Some((v, c)) => if valid_utf8(v) {
                    Some((ElemModel::Text(decode_utf8(v)), 1 + c))
                } else {
                    None
                },
                None => None,
            }
        } else if tag == 0x05 {
            // nested tuple
            match decode_items(bs.skip(1), depth + 1) {
                Some((items, c)) => Some((ElemModel::Tuple(items), 1 + c)),
                None => None,
            }
        } else if 0x0C <= tag && tag <= 0x1C {
            // fixed-width integer; 0x14 is zero, above it positive with
            // tag - 0x14 bytes, below it negative with 0x14 - tag bytes
            let neg = tag < 0x14;
            let n = if tag >= 0x14 {
                (tag - 0x14) as nat
            } else {
                (0x14 - tag) as nat
            };
            if bs.len() < 1 + n as int {
                None
            } else {
                match int_of(neg, n, be_uint(bs.subrange(1, 1 + n as int))) {
                    Some(e) => Some((e, 1 + n as int)),
                    None => None,
                }
            }
        } else if tag == 0x0B || tag == 0x1D {
            // integer with an explicit length byte; lengths above 8 do not
            // fit a 64-bit integer
            let neg = tag == 0x0B;
            if bs.len() < 2 {
                None
            } else {
                let n = if neg {
                    (0xFF - bs[1]) as nat
                } else {
                    bs[1] as nat
                };
                if n > 8 {
                    None
                } else if bs.len() < 2 + n as int {
                    None
                } else {
                    match int_of(neg, n, be_uint(bs.subrange(2, 2 + n as int))) {
                        Some(e) => Some((e, 2 + n as int)),
                        None => None,
                    }
                }
            }
        } else if tag == 0x20 {
            // 4-byte float
            if bs.len() < 5 {
                None
            } else {
                Some((ElemModel::Float32(f32_bits_of_wire(be_uint(bs.subrange(1, 5)))), 5))
            }
        } else if tag == 0x21 {
            // 8-byte float
            if bs.len() < 9 {
                None
            } else {
                Some((ElemModel::Float64(f64_bits_of_wire(be_uint(bs.subrange(1, 9)))), 9))
            }
        } else if tag == 0x26 {
            Some((ElemModel::Bool(false), 1))
        } else if tag == 0x27 {
            Some((ElemModel::Bool(true), 1))
        } else if tag == 0x30 {
            // UUID: 16 raw bytes
            if bs.len() < 17 {
                None
            } else {
                Some((ElemModel::Uuid(bs.subrange(1, 17)), 17))
            }
        } else if tag == 0x33 {
            // versionstamp: a 10-byte transaction version and a 2-byte user
            // version; the element keeps the transaction version
            if bs.len() < 13 {
                None
            } else {
                Some((ElemModel::Versionstamp(bs.subrange(1, 11)), 13))
            }
        } else {
            None
        }
    }
}

/// Decodes the items of a nested tuple up to and including its `0x00`
/// terminator (a `0x00` followed by `0xFF` is an escaped nil item, not the
/// terminator). Fails on a tuple that never ends.
pub open spec fn decode_items(bs: Seq<u8>, depth: nat) -> Option<(Seq<ElemModel>, int)>
    decreases bs.len(), 1nat,
{
    if bs.len() == 0 {
        None
    } else if bs[0] == 0x00 && (bs.len() < 2 || bs[1] != 0xFF) {
        Some((Seq::empty(), 1))
    } else {
        match decode_elem(bs, depth) {
            Some((e, c)) => {
                let c1 = clamp_used(c, bs.len() as int);
                match decode_items(bs.skip(c1), depth) {
                    Some((rest, c2)) => Some((seq![e] + rest, c1 + c2)),
                    None => None,
                }
            },
            None => None,
        }
    }
}

/// Decodes the root-level run of elements: one after another until the
/// input is exhausted.
pub open spec fn decode_root_items(bs: Seq<u8>) -> Option<Seq<ElemModel>>
    decreases bs.len(),
{
    if bs.len() == 0 {
        Some(Seq::empty())
    } else {
        match decode_elem(bs, 1) {
            Some((e, c)) => {
                let c1 = clamp_used(c, bs.len() as int);
                match decode_root_items(bs.skip(c1)) {
                    Some(rest) => Some(seq![e] + rest),
                    None => None,
                }
            },
            None => None,
        }
    }
}

/// The element encoded by a whole buffer: a lone element that is not a
/// nested tuple stands alone, any other run of elements (none, several, or
/// one nested tuple) becomes a tuple of them.
pub open spec fn decode_root_spec(bs: Seq<u8>) -> Option<ElemModel> {
    match decode_root_items(bs) {
        Some(items) => if items.len() == 1 && bs[0] != 0x05 {
            Some(items[0])
        } else {
            Some(ElemModel::Tuple(items))
        },
        None => None,
    }
}

/// Prefixes already-decoded bytes and their use count onto a byte-run
/// decoding result.
pub open spec fn slice_cont(acc: Seq<u8>, used: int, r: Option<(Seq<u8>, int)>) -> Option<
    (Seq<u8>, int),
> {
    match r {
        Some((v, c)) => Some((acc + v, used + c)),
        None => None,
    }
}

/// Prefixes already-decoded items and their use count onto an item-run
/// decoding result.
pub open spec fn items_cont(acc: Seq<ElemModel>, used: int, r: Option<(Seq<ElemModel>, int)>)
    -> Option<(Seq<ElemModel>, int)> {
    match r {
        Some((v, c)) => Some((acc + v, used + c)),
        None => None,
    }
}

/// Prefixes already-decoded items onto a root-run decoding result.
pub open spec fn root_cont(acc: Seq<ElemModel>, r: Option<Seq<ElemModel>>) -> Option<
    Seq<ElemModel>,
> {
    match r {
        Some(v) => Some(acc + v),
        None => None,
    }
}

proof fn lemma_elem_deep_view_push(v: Vec<Element>, prev: Vec<Element>, item: Element)
    requires
        v@ == prev@.push(item),
    ensures
        v.deep_view() == prev.deep_view().push(item@),
{
    assert forall|k: int| 0 <= k < v.deep_view().len() implies v.deep_view()[k]
        == prev.deep_view().push(item@)[k] by {
        if k < prev@.len() {
            assert(v@[k] == prev@[k]);
        } else {
            assert(v@[k] == item);
        }
    }
    assert(v.deep_view() =~= prev.deep_view().push(item@));
}

fn decode_slice_at(bs: &[u8], pos: usize) -> (r: Result<(Vec<u8>, usize), DecodeError>)
    requires
        pos <= bs@.len(),
    ensures
        r matches Ok((v, newpos)) ==> decode_slice(bs@.skip(pos as int)) == Some(
            (v@, newpos - pos as int),
        ) && pos < newpos <= bs@.len(),
        r is Err ==> decode_slice(bs@.skip(pos as int)) is None,
{
    let mut out: Vec<u8> = Vec::new();
    let mut i: usize = pos;
    proof {
        assert(out@ =~= Seq::<u8>::empty());
        match decode_slice(bs@.skip(pos as int)) {
            Some((v, c)) => {
                assert(Seq::<u8>::empty() + v =~= v);
            },
            None => {
            },
        }
    }
    loop
        invariant
            pos <= i <= bs@.len(),
            decode_slice(bs@.skip(pos as int)) == slice_cont(
                out@,
                i - pos,
                decode_slice(bs@.skip(i as int)),
            ),
        decreases bs@.len() - i,
    {
        let ghost suffix = bs@.skip(i as int);
        if i == bs.len() {
            proof {
                assert(suffix.len() == 0);
            }
            return Err(DecodeError);
        }
        proof {
            assert(suffix[0] == bs@[i as int]);
            assert(suffix.len() == bs@.len() - i);
        }
        let b = bs[i];
        if b == 0x00 {
            if i + 1 < bs.len() && bs[i + 1] == 0xFF {
                proof {
                    assert(suffix[1] == 0xFF);
                    assert(suffix.skip(2) =~= bs@.skip(i + 2));
                    match decode_slice(bs@.skip(i + 2)) {
                        Some((v, c)) => {
                            assert(out@ + (seq![0u8] + v) =~= out@.push(0u8) + v);
                        },
                        None => {
                        },
                    }
                }
                out.push(0x00);
                i = i + 2;
            } else {
                proof {
                    assert(suffix.len() < 2 || suffix[1] != 0xFF);
                    assert(decode_slice(suffix) == Some((Seq::<u8>::empty(), 1int)));
                    assert(out@ + Seq::<u8>::empty() =~= out@);
                }
                return Ok((out, i + 1));
            }
        } else {
            proof {
                assert(suffix.skip(1) =~= bs@.skip(i + 1));
                match decode_slice(bs@.skip(i + 1)) {
                    Some((v, c)) => {
                        assert(out@ + (seq![bs@[i as int]] + v) =~= out@.push(bs@[i as int]) + v);
                    },
                    None => {
                    },
                }
            }
            out.push(b);
            i = i + 1;
        }
    }
}

fn read_be_uint(bs: &[u8], pos: usize, n: usize) -> (u: u64)
    requires
        pos + n <= bs@.len(),
        n <= 8,
    ensures
        u == be_uint(bs@.subrange(pos as int, pos + n)),
        u < pow256(n as nat),
{
    let total: usize = bs.len();
    let mut u: u64 = 0;
    let mut k: usize = 0;
    proof {
        lemma_pow256_table();
        assert(bs@.subrange(pos as int, pos as int) =~= Seq::<u8>::empty());
    }
    while k < n
        invariant
            k <= n <= 8,
            total == bs@.len(),
            pos + n <= bs@.len(),
            u == be_uint(bs@.subrange(pos as int, pos + k)),
            u < pow256(k as nat),
        decreases n - k,
    {
        proof {
            lemma_pow256_table();
            lemma_pow256_mono(k as nat, 7);
            assert(bs@.subrange(pos as int, pos + k + 1).drop_last() =~= bs@.subrange(
                pos as int,
                pos + k,
            ));
            assert(bs@.subrange(pos as int, pos + k + 1).last() == bs@[pos + k]);
        }
        u = u * 256 + (bs[pos + k] as u64);
        k = k + 1;
    }
    u
}

/// 256 to the `n`, for the widths an integer element can have.
fn pow256_exec(n: usize) -> (p: u128)
    requires
        n <= 8,
    ensures
        p == pow256(n as nat),
{
    proof {
        lemma_pow256_table();
    }
    if n == 0 {
        1
    } else if n == 1 {
        0x100
    } else if n == 2 {
        0x10000
    } else if n == 3 {
        0x1000000
    } else if n == 4 {
        0x100000000
    } else if n == 5 {
        0x10000000000
    } else if n == 6 {
        0x1000000000000
    } else if n == 7 {
        0x100000000000000
    } else {
        0x10000000000000000
    }
}

proof fn lemma_pow256_table()
    ensures
        pow256(0) == 1,
        pow256(1) == 0x100,
        pow256(2) == 0x10000,
        pow256(3) == 0x1000000,
        pow256(4) == 0x100000000,
        pow256(5) == 0x10000000000,
        pow256(6) == 0x1000000000000,
        pow256(7) == 0x100000000000000,
        pow256(8) == 0x10000000000000000,
{
    assert(pow256(0) == 1);
    assert(pow256(1) == 0x100);
    assert(pow256(2) == 0x10000);
    assert(pow256(3) == 0x1000000);
    assert(pow256(4) == 0x100000000);
    assert(pow256(5) == 0x10000000000);
    assert(pow256(6) == 0x1000000000000);
    assert(pow256(7) == 0x100000000000000);
    assert(pow256(8) == 0x10000000000000000);
}

proof fn lemma_pow256_mono(a: nat, b: nat)
    requires
        a <= b,
    ensures
        pow256(a) <= pow256(b),
    decreases b,
{
    if a < b {
        lemma_pow256_mono(a, (b - 1) as nat);
    }
}

fn int_elem(neg: bool, n: usize, u: u64) -> (r: Result<Element, DecodeError>)
    requires
        n <= 8,
        u < pow256(n as nat),
    ensures
        r matches Ok(e) ==> int_of(neg, n as nat, u as nat) == Some(e@),
        r is Err ==> int_of(neg, n as nat, u as nat) is None,
{
    if neg {
        let p = pow256_exec(n);
        proof {
            lemma_pow256_table();
            lemma_pow256_mono(n as nat, 8);
        }
        let v: i128 = u as i128 + 1 - p as i128;
        if v < i64::MIN as i128 {
            Err(DecodeError)
        } else {
            proof {
                assert(v <= 0);
            }
            Ok(Element::Int(v as i64))
        }
    } else {
        if u > 0x7FFFFFFFFFFFFFFF {
            Err(DecodeError)
        } else {
            Ok(Element::Int(u as i64))
        }
    }
}

fn copy_range(bs: &[u8], from: usize, to: usize) -> (v: Vec<u8>)
    requires
        from <= to <= bs@.len(),
    ensures
        v@ == bs@.subrange(from as int, to as int),
{
    let mut out: Vec<u8> = Vec::new();
    let mut i: usize = from;
    proof {
        assert(out@ =~= bs@.subrange(from as int, from as int));
    }
    while i < to
        invariant
            from <= i <= to <= bs@.len(),
            out@ == bs@.subrange(from as int, i as int),
        decreases to - i,
    {
        out.push(bs[i]);
        proof {
            assert(out@ =~= bs@.subrange(from as int, i + 1));
        }
        i = i + 1;
    }
    out
}

/// Decodes one element starting at `pos`; `deep` says whether the element
/// sits inside a nested tuple, where a nil is escaped.
#[verifier::rlimit(50)]
fn decode_elem_at(bs: &[u8], pos: usize, deep: bool, Ghost(depth): Ghost<nat>) -> (r: Result<
    (Element, usize),
    DecodeError,
>)
    requires
        pos <= bs@.len(),
        depth >= 1,
        deep <==> depth >= 2,
    ensures
        r matches Ok((e, newpos)) ==> decode_elem(bs@.skip(pos as int), depth) == Some(
            (e@, newpos - pos as int),
        ) && pos < newpos <= bs@.len(),
        r is Err ==> decode_elem(bs@.skip(pos as int), depth) is None,
    decreases bs@.len() - pos, 0int,
{
    let ghost suffix = bs@.skip(pos as int);
    if pos == bs.len() {
        proof {
            assert(suffix.len() == 0);
        }
        return Err(DecodeError);
    }
    proof {
        assert(suffix.len() == bs@.len() - pos);
        assert(suffix[0] == bs@[pos as int]);
        assert forall|k: int| 0 <= k < suffix.len() implies suffix[k] == bs@[pos + k] by {}
    }
    let tag = bs[pos];
    if tag == 0x00 {
        if deep {
            if pos + 1 < bs.len() && bs[pos + 1] == 0xFF {
                Ok((Element::Nil, pos + 2))
            } else {
                Err(DecodeError)
            }
        } else {
            Ok((Element::Nil, pos + 1))
        }
    } else if tag == 0x01 {
        proof {
            assert(suffix.skip(1) =~= bs@.skip(pos + 1));
        }
        match decode_slice_at(bs, pos + 1) {
            Ok((v, np)) => Ok((Element::Bytes(v), np)),
            Err(e) => Err(e),
        }
    } else if tag == 0x02 {
        proof {
            assert(suffix.skip(1) =~= bs@.skip(pos + 1));
        }
        match decode_slice_at(bs, pos + 1) {
            Ok((v, np)) => {
                match crate::text::utf8_str(v.as_slice()) {
                    Some(s) => {
                        proof {
                            vstd::utf8::encode_utf8_decode_utf8(s@);
                        }
                        Ok((Element::Text(s.to_owned()), np))
                    },
                    None => Err(DecodeError),
                }
            },
            Err(e) => Err(e),
        }
    } else if tag == 0x05 {
        proof {
            assert(suffix.skip(1) =~= bs@.skip(pos + 1));
        }
        match decode_items_at(bs, pos + 1, Ghost(depth + 1)) {
            Ok((items, np)) => {
                proof {
                    lemma_elems_model(items@);
                    assert(elems_model(items@) =~= items.deep_view());
                }
                Ok((Element::Tuple(items), np))
            },
            Err(e) => Err(e),
        }
    } else if 0x0C <= tag && tag <= 0x1C {
        let neg = tag < 0x14;
        let n: usize = if tag >= 0x14 {
            (tag - 0x14) as usize
        } else {
            (0x14 - tag) as usize
        };
        if bs.len() - pos < 1 + n {
            proof {
                assert(suffix.len() < 1 + n);
            }
            Err(DecodeError)
        } else {
            proof {
                assert(suffix.subrange(1, 1 + n as int) =~= bs@.subrange(pos + 1, pos + 1 + n));
            }
            let u = read_be_uint(bs, pos + 1, n);
            match int_elem(neg, n, u) {
                Ok(e) => Ok((e, pos + 1 + n)),
                Err(err) => Err(err),
            }
        }
    } else if tag == 0x0B || tag == 0x1D {
        let neg = tag == 0x0B;
        if bs.len() - pos < 2 {
            proof {
                assert(suffix.len() < 2);
            }
            Err(DecodeError)
        } else {
            let raw = bs[pos + 1];
            let n: usize = if neg {
                (0xFF - raw) as usize
            } else {
                raw as usize
            };
            proof {
                assert(suffix[1] == bs@[pos + 1]);
            }
            if n > 8 {
                Err(DecodeError)
            } else if bs.len() - pos < 2 + n {
                proof {
                    assert(suffix.len() < 2 + n);
                }
                Err(DecodeError)
            } else {
                proof {
                    assert(suffix.subrange(2, 2 + n as int) =~= bs@.subrange(pos + 2, pos + 2 + n));
                }
                let u = read_be_uint(bs, pos + 2, n);
                match int_elem(neg, n, u) {
                    Ok(e) => Ok((e, pos + 2 + n)),
                    Err(err) => Err(err),
                }
            }
        }
    } else if tag == 0x20 {
        if bs.len() - pos < 5 {
            proof {
                assert(suffix.len() < 5);
            }
            Err(DecodeError)
        } else {
            proof {
                assert(suffix.subrange(1, 5) =~= bs@.subrange(pos + 1, pos + 5));
                lemma_pow256_table();
            }
            let u = read_be_uint(bs, pos + 1, 4);
            let bits: u32 = if u >= 0x80000000 {
                (u - 0x80000000) as u32
            } else {
                (0xFFFFFFFF - u) as u32
            };
            Ok((Element::Float32(bits), pos + 5))
        }
    } else if tag == 0x21 {
        if bs.len() - pos < 9 {
            proof {
                assert(suffix.len() < 9);
            }
            Err(DecodeError)
        } else {
            proof {
                assert(suffix.subrange(1, 9) =~= bs@.subrange(pos + 1, pos + 9));
                lemma_pow256_table();
            }
            let u = read_be_uint(bs, pos + 1, 8);
            let bits: u64 = if u >= 0x8000000000000000 {
                u - 0x8000000000000000
            } else {
                0xFFFFFFFFFFFFFFFF - u
            };
            Ok((Element::Float64(bits), pos + 9))
        }
    } else if tag == 0x26 {
        Ok((Element::Bool(false), pos + 1))
    } else if tag == 0x27 {
        Ok((Element::Bool(true), pos + 1))
    } else if tag == 0x30 {
        if bs.len() - pos < 17 {
            proof {
                assert(suffix.len() < 17);
            }
            Err(DecodeError)
        } else {
            proof {
                assert(suffix.subrange(1, 17) =~= bs@.subrange(pos + 1, pos + 17));
            }
            let v = copy_range(bs, pos + 1, pos + 17);
            Ok((Element::Uuid(v), pos + 17))
        }
    } else if tag == 0x33 {
        if bs.len() - pos < 13 {
            proof {
                assert(suffix.len() < 13);
            }
            Err(DecodeError)
        } else {
            proof {
                assert(suffix.subrange(1, 11) =~= bs@.subrange(pos + 1, pos + 11));
            }
            let v = copy_range(bs, pos + 1, pos + 11);
            Ok((Element::Versionstamp(v), pos + 13))
        }
    } else {
        Err(DecodeError)
    }
}

/// Decodes the items of a nested tuple up to and including its terminator.
fn decode_items_at(bs: &[u8], pos: usize, Ghost(depth): Ghost<nat>) -> (r: Result<
    (Vec<Element>, usize),
    DecodeError,
>)
    requires
        pos <= bs@.len(),
        depth >= 2,
    ensures
        r matches Ok((items, newpos)) ==> decode_items(bs@.skip(pos as int), depth) == Some(
            (items.deep_view(), newpos - pos as int),
        ) && pos < newpos <= bs@.len(),
        r is Err ==> decode_items(bs@.skip(pos as int), depth) is None,
    decreases bs@.len() - pos, 1int,
{
    let mut items: Vec<Element> = Vec::new();
    let mut i: usize = pos;
    proof {
        assert(items.deep_view() =~= Seq::<ElemModel>::empty());
        match decode_items(bs@.skip(pos as int), depth) {
            Some((v, c)) => {
                assert(Seq::<ElemModel>::empty() + v =~= v);
            },
            None => {
            },
        }
    }
    loop
        invariant
            pos <= i <= bs@.len(),
            depth >= 2,
            decode_items(bs@.skip(pos as int), depth) == items_cont(
                items.deep_view(),
                i - pos,
                decode_items(bs@.skip(i as int), depth),
            ),
        decreases bs@.len() - i,
    {
        let ghost suffix = bs@.skip(i as int);
        if i == bs.len() {
            proof {
                assert(suffix.len() == 0);
            }
            return Err(DecodeError);
        }
        proof {
            assert(suffix.len() == bs@.len() - i);
            assert(suffix[0] == bs@[i as int]);
            if suffix.len() >= 2 {
                assert(suffix[1] == bs@[i + 1]);
            }
        }
        if bs[i] == 0x00 && (i + 1 == bs.len() || bs[i + 1] != 0xFF) {
            proof {
                assert(decode_items(suffix, depth) == Some((Seq::<ElemModel>::empty(), 1int)));
                assert(items.deep_view() + Seq::<ElemModel>::empty() =~= items.deep_view());
            }
            return Ok((items, i + 1));
        }
        match decode_elem_at(bs, i, true, Ghost(depth)) {
            Ok((e, np)) => {
                proof {
                    let c = np - i as int;
                    assert(clamp_used(c, suffix.len() as int) == c);
                    assert(suffix.skip(c) =~= bs@.skip(np as int));
                    let ghost prev_dv = items.deep_view();
                    match decode_items(bs@.skip(np as int), depth) {
                        Some((rest, c2)) => {
                            assert(prev_dv + (seq![e@] + rest) =~= prev_dv.push(e@) + rest);
                        },
                        None => {
                        },
                    }
                }
                let ghost prev_items = items;
                items.push(e);
                proof {
                    lemma_elem_deep_view_push(items, prev_items, e);
                }
                i = np;
            },
            Err(err) => {
                return Err(err);
            },
        }
    }
}

/// Decodes a whole buffer into the element it encodes: a lone element that
/// is not a nested tuple stands alone, and any other run of elements
/// becomes a tuple. Fails exactly on input that is not a well-formed
/// encoding: truncated bytes, an unknown type tag, an integer too wide for
/// 64 bits, or text that is not UTF-8.
pub fn decode_element(bytes: &[u8]) -> (r: Result<Element, DecodeError>)
    ensures
        r matches Ok(e) ==> decode_root_spec(bytes@) == Some(e@),
        r is Err <==> decode_root_spec(bytes@) is None,
{
    let mut items: Vec<Element> = Vec::new();
    let mut i: usize = 0;
    proof {
        assert(items.deep_view() =~= Seq::<ElemModel>::empty());
        assert(bytes@.skip(0) =~= bytes@);
        match decode_root_items(bytes@) {
            Some(v) => {
                assert(Seq::<ElemModel>::empty() + v =~= v);
            },
            None => {
            },
        }
    }
    while i < bytes.len()
        invariant
            i <= bytes@.len(),
            decode_root_items(bytes@) == root_cont(
                items.deep_view(),
                decode_root_items(bytes@.skip(i as int)),
            ),
            items.deep_view().len() > 0 ==> i > 0,
        decreases bytes@.len() - i,
    {
        let ghost suffix = bytes@.skip(i as int);
        proof {
            assert(suffix.len() == bytes@.len() - i);
        }
        match decode_elem_at(bytes, i, false, Ghost(1nat)) {
            Ok((e, np)) => {
                proof {
                    let c = np - i as int;
                    assert(clamp_used(c, suffix.len() as int) == c);
                    assert(suffix.skip(c) =~= bytes@.skip(np as int));
                    let ghost prev_dv = items.deep_view();
                    match decode_root_items(bytes@.skip(np as int)) {
                        Some(rest) => {
                            assert(prev_dv + (seq![e@] + rest) =~= prev_dv.push(e@) + rest);
                        },
                        None => {
                        },
                    }
                }
                let ghost prev_items = items;
                items.push(e);
                proof {
                    lemma_elem_deep_view_push(items, prev_items, e);
                }
                i = np;
            },
            Err(err) => {
                return Err(err);
            },
        }
    }
    proof {
        assert(bytes@.skip(i as int).len() == 0);
        assert(decode_root_items(bytes@.skip(i as int)) == Some(Seq::<ElemModel>::empty()));
        assert(items.deep_view() + Seq::<ElemModel>::empty() =~= items.deep_view());
        assert(decode_root_items(bytes@) == Some(items.deep_view()));
    }
    if bytes.len() > 0 && items.len() == 1 {
        if bytes[0] != 0x05 {
            let e = match items.pop() {
                Some(e) => e,
                None => {
                    proof {
                        assert(false);
                    }
                    Element::Nil
                },
            };
            proof {
                assert(e@ == decode_root_spec(bytes@)->Some_0);
            }
            return Ok(e);
        }
    }
    proof {
        if bytes@.len() == 0 {
            assert(items.deep_view().len() == 0);
        }
        lemma_elems_model(items@);
        assert(elems_model(items@) =~= items.deep_view());
    }
    Ok(Element::Tuple(items))
}

} // verus!
