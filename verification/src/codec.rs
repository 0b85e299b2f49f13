//! The byte form of a persisted table. The engine computes the bytes and
//! reads them back itself, so the whole persistence boundary reduces to plain
//! file reads and writes outside the engine. Integers are eight bytes, least
//! significant first; text is a length-prefixed UTF-8 run; a cell is a tag
//! followed by its payload; lists are length-prefixed concatenations. The
//! decoder accepts exactly the encodings of well-formed tables and re-checks
//! every invariant, so a loaded table is as trustworthy as a built one.

use vstd::prelude::*;

use vstd::string::StrSliceExecFns;
use vstd::utf8::{decode_utf8, encode_utf8, valid_utf8};

use crate::column::{ColModel, Column};
use crate::table::{assemble_ok, cols_model, Table};
use crate::value::{DataType, FieldValue, Val};

verus! {

/// 256 to the `n`.
pub open spec fn pow256(n: nat) -> int
    decreases n,
{
    if n == 0 {
        1
    } else {
        256 * pow256((n - 1) as nat)
    }
}

/// A number as `n` bytes, least significant first.
pub open spec fn le_bytes(v: int, n: nat) -> Seq<u8>
    decreases n,
{
    if n == 0 {
        Seq::empty()
    } else {
        seq![(v % 256) as u8] + le_bytes(v / 256, (n - 1) as nat)
    }
}

/// The number a little-endian byte run denotes.
pub open spec fn from_le(b: Seq<u8>) -> int
    decreases b.len(),
{
    if b.len() == 0 {
        0
    } else {
        b[0] + 256 * from_le(b.drop_first())
    }
}

/// `le_bytes` writes exactly `n` bytes.
pub proof fn lemma_le_bytes_len(v: int, n: nat)
    ensures
        le_bytes(v, n).len() == n,
    decreases n,
{
    if n > 0 {
        lemma_le_bytes_len(v / 256, (n - 1) as nat);
    }
}

/// Reading little-endian bytes back yields the written number.
pub proof fn lemma_le_roundtrip(v: int, n: nat)
    requires
        0 <= v < pow256(n),
    ensures
        from_le(le_bytes(v, n)) == v,
    decreases n,
{
    if n > 0 {
        lemma_le_roundtrip(v / 256, (n - 1) as nat);
        let rest = le_bytes(v / 256, (n - 1) as nat);
        assert((seq![(v % 256) as u8] + rest).drop_first() =~= rest);
        assert((seq![(v % 256) as u8] + rest)[0] == (v % 256) as u8);
    }
}

/// A little-endian byte run denotes a number below 256 to its length.
pub proof fn lemma_from_le_bound(b: Seq<u8>)
    ensures
        0 <= from_le(b) < pow256(b.len()),
    decreases b.len(),
{
    if b.len() > 0 {
        lemma_from_le_bound(b.drop_first());
    }
}

/// The two's-complement byte value of a signed 64-bit number.
pub open spec fn bits64(v: int) -> int {
    if v >= 0 {
        v
    } else {
        v + 0x10000000000000000
    }
}

/// The signed number a 64-bit byte value denotes.
pub open spec fn signed64(u: int) -> int {
    if u < 0x8000000000000000 {
        u
    } else {
        u - 0x10000000000000000
    }
}

/// An eight-byte number.
pub open spec fn enc_u64(v: int) -> Seq<u8> {
    le_bytes(v, 8)
}

/// Reads an eight-byte number.
pub open spec fn rd_u64(b: Seq<u8>, pos: int) -> Option<(int, int)> {
    if 0 <= pos && pos + 8 <= b.len() {
        Some((from_le(b.subrange(pos, pos + 8)), pos + 8))
    } else {
        None
    }
}

/// An eight-byte number written anywhere reads back as itself.
pub proof fn lemma_rd_u64_frame(pre: Seq<u8>, v: int, suf: Seq<u8>)
    requires
        0 <= v < pow256(8),
    ensures
        rd_u64(pre + enc_u64(v) + suf, pre.len() as int) == Some((v, pre.len() + 8 as int)),
        enc_u64(v).len() == 8,
{
    lemma_le_bytes_len(v, 8);
    let b = pre + enc_u64(v) + suf;
    assert(b.subrange(pre.len() as int, pre.len() as int + 8) =~= enc_u64(v));
    lemma_le_roundtrip(v, 8);
}

/// Appends the low `n` bytes of `v`, least significant first.
fn push_le(out: &mut Vec<u8>, v: u64, n: usize)
    requires
        n <= 8,
        (v as int) < pow256(n as nat),
    ensures
        final(out)@ == old(out)@ + le_bytes(v as int, n as nat),
    decreases n,
{
    if n == 0 {
        proof {
            assert(out@ =~= old(out)@ + le_bytes(v as int, 0));
        }
    } else {
        out.push((v % 256) as u8);
        proof {
            assert(out@ =~= old(out)@ + seq![(v as int % 256) as u8]);
        }
        push_le(out, v / 256, n - 1);
        proof {
            assert(out@ =~= old(out)@ + le_bytes(v as int, n as nat));
        }
    }
}

/// Appends a number as eight bytes.
fn write_u64(out: &mut Vec<u8>, v: u64)
    ensures
        final(out)@ == old(out)@ + enc_u64(v as int),
{
    proof {
        lemma_pow256_8();
    }
    push_le(out, v, 8);
}

/// Reads an eight-byte number.
fn read_u64(b: &Vec<u8>, pos: usize) -> (r: Option<(u64, usize)>)
    ensures
        match rd_u64(b@, pos as int) {
            Some((v, p)) => r matches Some(rv) && rv.0 as int == v && rv.1 as int == p,
            None => r is None,
        },
{
    if pos > b.len() || b.len() - pos < 8 {
        return None;
    }
    let ghost run = b@.subrange(pos as int, pos as int + 8);
    let mut v: u64 = 0;
    let mut k: usize = 8;
    proof {
        lemma_from_le_bound(run);
        assert(run.skip(8) =~= Seq::<u8>::empty());
    }
    while k > 0
        invariant
            k <= 8,
            pos + 8 <= b@.len(),
            b@.len() <= usize::MAX,
            run == b@.subrange(pos as int, pos as int + 8),
            v as int == from_le(run.skip(k as int)),
            (v as int) < pow256((8 - k) as nat),
        decreases k,
    {
        proof {
            assert(run.skip(k as int - 1)[0] == run[k as int - 1]);
            assert(run.skip(k as int - 1).drop_first() =~= run.skip(k as int));
            assert(run[k as int - 1] == b@[pos as int + (k as int - 1)]);
            lemma_from_le_bound(run.skip(k as int - 1));
            assert(pow256((8 - k + 1) as nat) <= pow256(8)) by {
                lemma_pow256_mono((8 - k + 1) as nat, 8);
            }
            lemma_pow256_8();
            assert(256 * pow256((8 - k) as nat) == pow256((8 - k + 1) as nat));
            assert((v as int) * 256 < pow256((8 - k + 1) as nat));
        }
        let idx = pos + (k - 1);
        v = v * 256 + b[idx] as u64;
        k = k - 1;
    }
    proof {
        assert(run.skip(0) =~= run);
    }
    Some((v, pos + 8))
}

/// A length-prefixed UTF-8 run.
pub open spec fn enc_str(s: Seq<char>) -> Seq<u8> {
    enc_u64(encode_utf8(s).len() as int) + encode_utf8(s)
}

/// Reads a length-prefixed UTF-8 run.
pub open spec fn rd_str(b: Seq<u8>, pos: int) -> Option<(Seq<char>, int)> {
    match rd_u64(b, pos) {
        Some((n, p)) => if p + n <= b.len() && valid_utf8(b.subrange(p, p + n)) {
            Some((decode_utf8(b.subrange(p, p + n)), p + n))
        } else {
            None
        },
        None => None,
    }
}

/// Text written anywhere reads back as itself.
pub proof fn lemma_rd_str_frame(pre: Seq<u8>, s: Seq<char>, suf: Seq<u8>)
    requires
        encode_utf8(s).len() < pow256(8),
    ensures
        rd_str(pre + enc_str(s) + suf, pre.len() as int) == Some((s, pre.len() as int + enc_str(s).len() as int)),
{
    broadcast use vstd::utf8::encode_utf8_valid_utf8;
    broadcast use vstd::utf8::encode_utf8_decode_utf8;

    let u = encode_utf8(s);
    let b = pre + enc_str(s) + suf;
    assert(b =~= pre + enc_u64(u.len() as int) + (u + suf));
    lemma_rd_u64_frame(pre, u.len() as int, u + suf);
    assert(b.subrange(pre.len() as int + 8, pre.len() as int + 8 + u.len() as int) =~= u);
}

/// A tagged cell value.
pub open spec fn enc_val(v: Val) -> Seq<u8> {
    match v {
        Val::String(s) => enc_u64(0) + enc_str(s),
        Val::Number(x) => enc_u64(1) + enc_u64(bits64(x)),
        Val::Date(x) => enc_u64(2) + enc_u64(bits64(x)),
        Val::Url(s) => enc_u64(3) + enc_str(s),
        Val::Boolean(x) => enc_u64(4) + enc_u64(
            if x {
                1
            } else {
                0
            },
        ),
        Val::Null => enc_u64(5),
    }
}

/// Reads a tagged cell value.
pub open spec fn rd_val(b: Seq<u8>, pos: int) -> Option<(Val, int)> {
    match rd_u64(b, pos) {
        Some((tag, p)) => if tag == 0 {
            match rd_str(b, p) {
                Some((s, p2)) => Some((Val::String(s), p2)),
                None => None,
            }
        } else if tag == 1 {
            match rd_u64(b, p) {
                Some((u, p2)) => Some((Val::Number(signed64(u)), p2)),
                None => None,
            }
        } else if tag == 2 {
            match rd_u64(b, p) {
                Some((u, p2)) => Some((Val::Date(signed64(u)), p2)),
                None => None,
            }
        } else if tag == 3 {
            match rd_str(b, p) {
                Some((s, p2)) => Some((Val::Url(s), p2)),
                None => None,
            }
        } else if tag == 4 {
            match rd_u64(b, p) {
                Some((u, p2)) => if u == 0 || u == 1 {
                    Some((Val::Boolean(u == 1), p2))
                } else {
                    None
                },
                None => None,
            }
        } else if tag == 5 {
            Some((Val::Null, p))
        } else {
            None
        },
        None => None,
    }
}

/// A cell value the codec can carry: text of a bounded byte length, numbers
/// and dates within 64 signed bits.
pub open spec fn val_bounded(v: Val) -> bool {
    match v {
        Val::String(s) => encode_utf8(s).len() < pow256(8),
        Val::Url(s) => encode_utf8(s).len() < pow256(8),
        Val::Number(x) => -0x8000000000000000 <= x < 0x8000000000000000,
        Val::Date(x) => -0x8000000000000000 <= x < 0x8000000000000000,
        _ => true,
    }
}

/// A tag followed by a payload: reading the tag lands at the payload.
proof fn lemma_rd_tag(pre: Seq<u8>, tag: int, payload: Seq<u8>, suf: Seq<u8>)
    requires
        0 <= tag <= 5,
    ensures
        rd_u64(pre + (enc_u64(tag) + payload) + suf, pre.len() as int) == Some(
            (tag, pre.len() as int + 8),
        ),
        enc_u64(tag).len() == 8,
{
    lemma_pow256_8();
    lemma_pow256_mono(1, 8);
    assert(pre + (enc_u64(tag) + payload) + suf =~= pre + enc_u64(tag) + (payload + suf));
    lemma_rd_u64_frame(pre, tag, payload + suf);
}

/// A cell value written anywhere reads back as itself.
pub proof fn lemma_rd_val_frame(pre: Seq<u8>, v: Val, suf: Seq<u8>)
    requires
        val_bounded(v),
    ensures
        rd_val(pre + enc_val(v) + suf, pre.len() as int) == Some((v, pre.len() as int + enc_val(v).len() as int)),
{
    lemma_pow256_8();
    let b = pre + enc_val(v) + suf;
    match v {
        Val::String(s) => {
            lemma_rd_tag(pre, 0, enc_str(s), suf);
            assert(b =~= (pre + enc_u64(0)) + enc_str(s) + suf);
            lemma_rd_str_frame(pre + enc_u64(0), s, suf);
        },
        Val::Number(x) => {
            lemma_rd_tag(pre, 1, enc_u64(bits64(x)), suf);
            assert(b =~= (pre + enc_u64(1)) + enc_u64(bits64(x)) + suf);
            lemma_rd_u64_frame(pre + enc_u64(1), bits64(x), suf);
        },
        Val::Date(x) => {
            lemma_rd_tag(pre, 2, enc_u64(bits64(x)), suf);
            assert(b =~= (pre + enc_u64(2)) + enc_u64(bits64(x)) + suf);
            lemma_rd_u64_frame(pre + enc_u64(2), bits64(x), suf);
        },
        Val::Url(s) => {
            lemma_rd_tag(pre, 3, enc_str(s), suf);
            assert(b =~= (pre + enc_u64(3)) + enc_str(s) + suf);
            lemma_rd_str_frame(pre + enc_u64(3), s, suf);
        },
        Val::Boolean(x) => {
            let bit: int = if x {
                1
            } else {
                0
            };
            lemma_rd_tag(pre, 4, enc_u64(bit), suf);
            assert(b =~= (pre + enc_u64(4)) + enc_u64(bit) + suf);
            lemma_rd_u64_frame(pre + enc_u64(4), bit, suf);
        },
        Val::Null => {
            assert(b =~= pre + enc_u64(5) + suf);
            lemma_rd_u64_frame(pre, 5, suf);
        },
    }
}

/// The cells of a row, one after another.
pub open spec fn enc_vals(vs: Seq<Val>) -> Seq<u8>
    decreases vs.len(),
{
    if vs.len() == 0 {
        Seq::empty()
    } else {
        enc_val(vs[0]) + enc_vals(vs.drop_first())
    }
}

/// Reads `n` cells.
pub open spec fn rd_vals(b: Seq<u8>, pos: int, n: nat) -> Option<(Seq<Val>, int)>
    decreases n,
{
    if n == 0 {
        Some((Seq::empty(), pos))
    } else {
        match rd_val(b, pos) {
            Some((v, p)) => match rd_vals(b, p, (n - 1) as nat) {
                Some((vs, p2)) => Some((seq![v] + vs, p2)),
                None => None,
            },
            None => None,
        }
    }
}

/// Cells written anywhere read back as themselves.
#[verifier::rlimit(100)]
pub proof fn lemma_rd_vals_frame(pre: Seq<u8>, vs: Seq<Val>, suf: Seq<u8>)
    requires
        forall|i: int| 0 <= i < vs.len() ==> val_bounded(#[trigger] vs[i]),
    ensures
        rd_vals(pre + enc_vals(vs) + suf, pre.len() as int, vs.len()) == Some(
            (vs, pre.len() as int + enc_vals(vs).len() as int),
        ),
    decreases vs.len(),
{
    if vs.len() == 0 {
        assert(pre + enc_vals(vs) + suf =~= pre + suf);
        assert(vs =~= Seq::<Val>::empty());
    } else {
        let b = pre + enc_vals(vs) + suf;
        let rest = vs.drop_first();
        assert(b =~= pre + enc_val(vs[0]) + (enc_vals(rest) + suf));
        lemma_rd_val_frame(pre, vs[0], enc_vals(rest) + suf);
        assert(b =~= (pre + enc_val(vs[0])) + enc_vals(rest) + suf);
        assert(forall|i: int| 0 <= i < rest.len() ==> val_bounded(#[trigger] rest[i]));
        lemma_rd_vals_frame(pre + enc_val(vs[0]), rest, suf);
        assert(seq![vs[0]] + rest =~= vs);
    }
}

/// A length-prefixed row of cells.
pub open spec fn enc_row(r: Seq<Val>) -> Seq<u8> {
    enc_u64(r.len() as int) + enc_vals(r)
}

/// Reads a length-prefixed row.
pub open spec fn rd_row(b: Seq<u8>, pos: int) -> Option<(Seq<Val>, int)> {
    match rd_u64(b, pos) {
        Some((n, p)) => rd_vals(b, p, n as nat),
        None => None,
    }
}

/// A row written anywhere reads back as itself.
pub proof fn lemma_rd_row_frame(pre: Seq<u8>, r: Seq<Val>, suf: Seq<u8>)
    requires
        r.len() < pow256(8),
        forall|i: int| 0 <= i < r.len() ==> val_bounded(#[trigger] r[i]),
    ensures
        rd_row(pre + enc_row(r) + suf, pre.len() as int) == Some((r, pre.len() as int + enc_row(r).len() as int)),
{
    let b = pre + enc_row(r) + suf;
    assert(b =~= pre + enc_u64(r.len() as int) + (enc_vals(r) + suf));
    lemma_rd_u64_frame(pre, r.len() as int, enc_vals(r) + suf);
    assert(b =~= (pre + enc_u64(r.len() as int)) + enc_vals(r) + suf);
    lemma_rd_vals_frame(pre + enc_u64(r.len() as int), r, suf);
}

/// The rows, one after another.
pub open spec fn enc_rows_list(rs: Seq<Seq<Val>>) -> Seq<u8>
    decreases rs.len(),
{
    if rs.len() == 0 {
        Seq::empty()
    } else {
        enc_row(rs[0]) + enc_rows_list(rs.drop_first())
    }
}

/// Reads `n` rows.
pub open spec fn rd_rows(b: Seq<u8>, pos: int, n: nat) -> Option<(Seq<Seq<Val>>, int)>
    decreases n,
{
    if n == 0 {
        Some((Seq::empty(), pos))
    } else {
        match rd_row(b, pos) {
            Some((r, p)) => match rd_rows(b, p, (n - 1) as nat) {
                Some((rs, p2)) => Some((seq![r] + rs, p2)),
                None => None,
            },
            None => None,
        }
    }
}

/// Bounded rows: not too many, each short enough to carry, each cell bounded.
pub open spec fn rows_bounded(rs: Seq<Seq<Val>>) -> bool {
    &&& rs.len() < pow256(8)
    &&& forall|q: int| 0 <= q < rs.len() ==> (#[trigger] rs[q]).len() < pow256(8)
    &&& forall|q: int, c: int|
        0 <= q < rs.len() && 0 <= c < rs[q].len() ==> val_bounded(#[trigger] rs[q][c])
}

/// Rows written anywhere read back as themselves.
#[verifier::rlimit(100)]
pub proof fn lemma_rd_rows_frame(pre: Seq<u8>, rs: Seq<Seq<Val>>, suf: Seq<u8>)
    requires
        forall|q: int| 0 <= q < rs.len() ==> (#[trigger] rs[q]).len() < pow256(8),
        forall|q: int, c: int|
            0 <= q < rs.len() && 0 <= c < rs[q].len() ==> val_bounded(#[trigger] rs[q][c]),
    ensures
        rd_rows(pre + enc_rows_list(rs) + suf, pre.len() as int, rs.len()) == Some(
            (rs, pre.len() as int + enc_rows_list(rs).len() as int),
        ),
    decreases rs.len(),
{
    if rs.len() == 0 {
        assert(pre + enc_rows_list(rs) + suf =~= pre + suf);
        assert(rs =~= Seq::<Seq<Val>>::empty());
    } else {
        let b = pre + enc_rows_list(rs) + suf;
        let rest = rs.drop_first();
        assert(b =~= pre + enc_row(rs[0]) + (enc_rows_list(rest) + suf));
        lemma_rd_row_frame(pre, rs[0], enc_rows_list(rest) + suf);
        assert(b =~= (pre + enc_row(rs[0])) + enc_rows_list(rest) + suf);
        lemma_rd_rows_frame(pre + enc_row(rs[0]), rest, suf);
        assert(seq![rs[0]] + rest =~= rs);
    }
}

/// The tag of a declared column type.
pub open spec fn dt_tag(dt: DataType) -> int {
    match dt {
        DataType::String => 0,
        DataType::Number => 1,
        DataType::Date => 2,
        DataType::Url => 3,
        DataType::Boolean => 4,
    }
}

/// The declared column type of a tag.
pub open spec fn tag_dt(tag: int) -> DataType {
    if tag == 0 {
        DataType::String
    } else if tag == 1 {
        DataType::Number
    } else if tag == 2 {
        DataType::Date
    } else if tag == 3 {
        DataType::Url
    } else {
        DataType::Boolean
    }
}

/// A column: its name, its type tag, and its key flag.
pub open spec fn enc_col(c: ColModel) -> Seq<u8> {
    enc_str(c.name) + enc_u64(dt_tag(c.data_type)) + enc_u64(
        if c.is_primary_key {
            1
        } else {
            0
        },
    )
}

/// Reads a column.
pub open spec fn rd_col(b: Seq<u8>, pos: int) -> Option<(ColModel, int)> {
    match rd_str(b, pos) {
        Some((nm, p)) => match rd_u64(b, p) {
            Some((tag, p2)) => if 0 <= tag <= 4 {
                match rd_u64(b, p2) {
                    Some((pk, p3)) => if pk == 0 || pk == 1 {
                        Some(
                            (
                                ColModel {
                                    name: nm,
                                    data_type: tag_dt(tag),
                                    is_primary_key: pk == 1,
                                },
                                p3,
                            ),
                        )
                    } else {
                        None
                    },
                    None => None,
                }
            } else {
                None
            },
            None => None,
        },
        None => None,
    }
}

/// A column with a name the codec can carry.
pub open spec fn col_bounded(c: ColModel) -> bool {
    encode_utf8(c.name).len() < pow256(8)
}

/// A column written anywhere reads back as itself.
pub proof fn lemma_rd_col_frame(pre: Seq<u8>, c: ColModel, suf: Seq<u8>)
    requires
        col_bounded(c),
    ensures
        rd_col(pre + enc_col(c) + suf, pre.len() as int) == Some((c, pre.len() as int + enc_col(c).len() as int)),
{
    lemma_pow256_8();
    let b = pre + enc_col(c) + suf;
    let pkbit: int = if c.is_primary_key {
        1
    } else {
        0
    };
    assert(b =~= pre + enc_str(c.name) + (enc_u64(dt_tag(c.data_type)) + (enc_u64(pkbit) + suf)));
    lemma_rd_str_frame(pre, c.name, enc_u64(dt_tag(c.data_type)) + (enc_u64(pkbit) + suf));
    assert(b =~= (pre + enc_str(c.name)) + enc_u64(dt_tag(c.data_type)) + (enc_u64(pkbit) + suf));
    lemma_rd_u64_frame(pre + enc_str(c.name), dt_tag(c.data_type), enc_u64(pkbit) + suf);
    assert(b =~= ((pre + enc_str(c.name)) + enc_u64(dt_tag(c.data_type))) + enc_u64(pkbit) + suf);
    lemma_rd_u64_frame((pre + enc_str(c.name)) + enc_u64(dt_tag(c.data_type)), pkbit, suf);
}

/// The columns, one after another.
pub open spec fn enc_cols(cs: Seq<ColModel>) -> Seq<u8>
    decreases cs.len(),
{
    if cs.len() == 0 {
        Seq::empty()
    } else {
        enc_col(cs[0]) + enc_cols(cs.drop_first())
    }
}

/// Reads `n` columns.
pub open spec fn rd_cols(b: Seq<u8>, pos: int, n: nat) -> Option<(Seq<ColModel>, int)>
    decreases n,
{
    if n == 0 {
        Some((Seq::empty(), pos))
    } else {
        match rd_col(b, pos) {
            Some((c, p)) => match rd_cols(b, p, (n - 1) as nat) {
                Some((cs, p2)) => Some((seq![c] + cs, p2)),
                None => None,
            },
            None => None,
        }
    }
}

/// Columns written anywhere read back as themselves.
#[verifier::rlimit(100)]
pub proof fn lemma_rd_cols_frame(pre: Seq<u8>, cs: Seq<ColModel>, suf: Seq<u8>)
    requires
        forall|i: int| 0 <= i < cs.len() ==> col_bounded(#[trigger] cs[i]),
    ensures
        rd_cols(pre + enc_cols(cs) + suf, pre.len() as int, cs.len()) == Some(
            (cs, pre.len() as int + enc_cols(cs).len() as int),
        ),
    decreases cs.len(),
{
    if cs.len() == 0 {
        assert(pre + enc_cols(cs) + suf =~= pre + suf);
        assert(cs =~= Seq::<ColModel>::empty());
    } else {
        let b = pre + enc_cols(cs) + suf;
        let rest = cs.drop_first();
        assert(b =~= pre + enc_col(cs[0]) + (enc_cols(rest) + suf));
        lemma_rd_col_frame(pre, cs[0], enc_cols(rest) + suf);
        assert(b =~= (pre + enc_col(cs[0])) + enc_cols(rest) + suf);
        lemma_rd_cols_frame(pre + enc_col(cs[0]), rest, suf);
        assert(seq![cs[0]] + rest =~= cs);
    }
}

/// The eight-byte modulus.
proof fn lemma_pow256_8()
    ensures
        pow256(8) == 0x10000000000000000,
{
    reveal_with_fuel(pow256, 9);
}

/// `pow256` grows with its exponent.
proof fn lemma_pow256_mono(a: nat, b: nat)
    requires
        a <= b,
    ensures
        1 <= pow256(a) <= pow256(b),
    decreases b,
{
    if b == 0 {
    } else if a == b {
        lemma_pow256_mono((a - 1) as nat, (b - 1) as nat);
    } else {
        lemma_pow256_mono(a, (b - 1) as nat);
    }
}

/// The byte form of a whole table.
pub open spec fn table_bytes(
    nm: Seq<char>,
    cs: Seq<ColModel>,
    ps: Seq<ColModel>,
    rws: Seq<Seq<Val>>,
    syn: bool,
    ctr: int,
) -> Seq<u8> {
    enc_str(nm) + enc_u64(cs.len() as int) + enc_cols(cs) + enc_u64(ps.len() as int) + enc_cols(ps)
        + enc_u64(
        if syn {
            1
        } else {
            0
        },
    ) + enc_u64(bits64(ctr)) + enc_u64(rws.len() as int) + enc_rows_list(rws)
}

/// Reads a whole table, accepting only a byte run consumed exactly.
pub open spec fn rd_table(b: Seq<u8>) -> Option<
    (Seq<char>, Seq<ColModel>, Seq<ColModel>, Seq<Seq<Val>>, bool, int),
> {
    match rd_str(b, 0) {
        Some((nm, p1)) => match rd_u64(b, p1) {
            Some((nc, p2)) => match rd_cols(b, p2, nc as nat) {
                Some((cs, p3)) => match rd_u64(b, p3) {
                    Some((np, p4)) => match rd_cols(b, p4, np as nat) {
                        Some((ps, p5)) => match rd_u64(b, p5) {
                            Some((sy, p6)) => if sy == 0 || sy == 1 {
                                match rd_u64(b, p6) {
                                    Some((cb, p7)) => match rd_u64(b, p7) {
                                        Some((nr, p8)) => match rd_rows(b, p8, nr as nat) {
                                            Some((rws, p9)) => if p9 == b.len() {
                                                Some((nm, cs, ps, rws, sy == 1, signed64(cb)))
                                            } else {
                                                None
                                            },
                                            None => None,
                                        },
                                        None => None,
                                    },
                                    None => None,
                                }
                            } else {
                                None
                            },
                            None => None,
                        },
                        None => None,
                    },
                    None => None,
                },
                None => None,
            },
            None => None,
        },
        None => None,
    }
}

/// What the codec can carry: bounded text, list lengths, and numbers.
pub open spec fn table_bounded(
    nm: Seq<char>,
    cs: Seq<ColModel>,
    ps: Seq<ColModel>,
    rws: Seq<Seq<Val>>,
    ctr: int,
) -> bool {
    &&& encode_utf8(nm).len() < pow256(8)
    &&& cs.len() < pow256(8)
    &&& forall|i: int| 0 <= i < cs.len() ==> col_bounded(#[trigger] cs[i])
    &&& ps.len() < pow256(8)
    &&& forall|i: int| 0 <= i < ps.len() ==> col_bounded(#[trigger] ps[i])
    &&& rows_bounded(rws)
    &&& -0x8000000000000000 <= ctr < 0x8000000000000000
}

/// Round trip: decoding the byte form of a table yields back exactly its
/// parts. Together with the contracts of `to_bytes` and `from_bytes`, saving
/// a table and loading the saved bytes reproduces its name, schema, keys,
/// rows, and identity counter, for tables holding every value kind.
/// Concatenation re-associates.
proof fn lemma_assoc(a: Seq<u8>, b: Seq<u8>, c: Seq<u8>)
    ensures
        a + b + c == a + (b + c),
{
    assert(a + b + c =~= a + (b + c));
}

#[verifier::rlimit(100)]
pub proof fn lemma_encode_decode(
    nm: Seq<char>,
    cs: Seq<ColModel>,
    ps: Seq<ColModel>,
    rws: Seq<Seq<Val>>,
    syn: bool,
    ctr: int,
)
    requires
        table_bounded(nm, cs, ps, rws, ctr),
    ensures
        rd_table(table_bytes(nm, cs, ps, rws, syn, ctr)) == Some((nm, cs, ps, rws, syn, ctr)),
{
    broadcast use vstd::seq::Seq::add_empty_left;
    broadcast use vstd::seq::Seq::add_empty_right;

    lemma_pow256_8();
    let sybit: int = if syn {
        1
    } else {
        0
    };
    let q1 = enc_str(nm);
    let q2 = enc_u64(cs.len() as int);
    let q3 = enc_cols(cs);
    let q4 = enc_u64(ps.len() as int);
    let q5 = enc_cols(ps);
    let q6 = enc_u64(sybit);
    let q7 = enc_u64(bits64(ctr));
    let q8 = enc_u64(rws.len() as int);
    let q9 = enc_rows_list(rws);
    let b = table_bytes(nm, cs, ps, rws, syn, ctr);
    let e = Seq::<u8>::empty();
    let r8 = q9;
    let r7 = q8 + r8;
    let r6 = q7 + r7;
    let r5 = q6 + r6;
    let r4 = q5 + r5;
    let r3 = q4 + r4;
    let r2 = q3 + r3;
    let r1 = q2 + r2;
    // re-associate the encoding from the back
    lemma_assoc(q1 + q2 + q3 + q4 + q5 + q6 + q7, q8, q9);
    lemma_assoc(q1 + q2 + q3 + q4 + q5 + q6, q7, r7);
    lemma_assoc(q1 + q2 + q3 + q4 + q5, q6, r6);
    lemma_assoc(q1 + q2 + q3 + q4, q5, r5);
    lemma_assoc(q1 + q2 + q3, q4, r4);
    lemma_assoc(q1 + q2, q3, r3);
    lemma_assoc(q1, q2, r2);
    assert(b == q1 + r1);
    // walk the reads left to right
    assert(b == e + q1 + r1);
    lemma_rd_str_frame(e, nm, r1);
    let d1 = e + q1;
    lemma_assoc(d1, q2, r2);
    assert(b == d1 + q2 + r2);
    lemma_rd_u64_frame(d1, cs.len() as int, r2);
    let d2 = d1 + q2;
    lemma_assoc(d2, q3, r3);
    assert(b == d2 + q3 + r3);
    lemma_rd_cols_frame(d2, cs, r3);
    let d3 = d2 + q3;
    lemma_assoc(d3, q4, r4);
    assert(b == d3 + q4 + r4);
    lemma_rd_u64_frame(d3, ps.len() as int, r4);
    let d4 = d3 + q4;
    lemma_assoc(d4, q5, r5);
    assert(b == d4 + q5 + r5);
    lemma_rd_cols_frame(d4, ps, r5);
    let d5 = d4 + q5;
    lemma_assoc(d5, q6, r6);
    assert(b == d5 + q6 + r6);
    lemma_rd_u64_frame(d5, sybit, r6);
    let d6 = d5 + q6;
    lemma_assoc(d6, q7, r7);
    assert(b == d6 + q7 + r7);
    lemma_rd_u64_frame(d6, bits64(ctr), r7);
    let d7 = d6 + q7;
    lemma_assoc(d7, q8, r8);
    assert(b == d7 + q8 + r8);
    lemma_rd_u64_frame(d7, rws.len() as int, r8);
    let d8 = d7 + q8;
    assert(b == d8 + q9 + e);
    lemma_rd_rows_frame(d8, rws, e);
    assert(b.len() == d8.len() + q9.len());
}

/// Relies on `String::from_utf8`: it accepts exactly valid UTF-8 and decodes
/// it to the characters the bytes encode.
#[verifier::external_body]
fn string_from_utf8(bytes: Vec<u8>) -> (r: Option<String>)
    ensures
        (r is Some) == valid_utf8(bytes@),
        r matches Some(s) ==> s@ == decode_utf8(bytes@),
{
    match String::from_utf8(bytes) {
        Ok(s) => Some(s),
        Err(_) => None,
    }
}

/// Appends a length-prefixed UTF-8 run.
fn write_str(out: &mut Vec<u8>, s: &str)
    ensures
        final(out)@ == old(out)@ + enc_str(s@),
        encode_utf8(s@).len() < pow256(8),
{
    proof {
        lemma_pow256_8();
    }
    let mut bytes = s.as_bytes_vec();
    write_u64(out, bytes.len() as u64);
    out.append(&mut bytes);
    proof {
        assert(out@ =~= old(out)@ + enc_str(s@));
    }
}

/// The 64-bit byte value of a signed number.
fn encode_signed(x: i64) -> (u: u64)
    ensures
        u as int == bits64(x as int),
{
    if x >= 0 {
        x as u64
    } else {
        let wide: i128 = x as i128 + 0x10000000000000000;
        wide as u64
    }
}

/// Appends a tagged cell value.
fn write_val(out: &mut Vec<u8>, v: &FieldValue)
    ensures
        final(out)@ == old(out)@ + enc_val(v@),
        val_bounded(v@),
{
    match v {
        FieldValue::String(s) => {
            write_u64(out, 0);
            write_str(out, s.as_str());
            proof {
                assert(out@ =~= old(out)@ + enc_val(v@));
            }
        },
        FieldValue::Number(x) => {
            write_u64(out, 1);
            write_u64(out, encode_signed(*x));
            proof {
                assert(out@ =~= old(out)@ + enc_val(v@));
            }
        },
        FieldValue::Date(x) => {
            write_u64(out, 2);
            write_u64(out, encode_signed(*x));
            proof {
                assert(out@ =~= old(out)@ + enc_val(v@));
            }
        },
        FieldValue::Url(s) => {
            write_u64(out, 3);
            write_str(out, s.as_str());
            proof {
                assert(out@ =~= old(out)@ + enc_val(v@));
            }
        },
        FieldValue::Boolean(x) => {
            write_u64(out, 4);
            write_u64(
                out,
                if *x {
                    1
                } else {
                    0
                },
            );
            proof {
                assert(out@ =~= old(out)@ + enc_val(v@));
            }
        },
        FieldValue::Null => {
            write_u64(out, 5);
            proof {
                assert(out@ =~= old(out)@ + enc_val(v@));
            }
        },
    }
}

/// Appends the cells of a row from position `k` on.
fn write_vals(out: &mut Vec<u8>, row: &Vec<FieldValue>, k: usize)
    requires
        k <= row@.len(),
    ensures
        final(out)@ == old(out)@ + enc_vals(row@.map_values(|v: FieldValue| v@).skip(k as int)),
        forall|i: int| k <= i < row@.len() ==> val_bounded((#[trigger] row@[i])@),
    decreases row@.len() - k,
{
    let ghost vm = row@.map_values(|v: FieldValue| v@);
    if k == row.len() {
        proof {
            assert(vm.skip(k as int) =~= Seq::<Val>::empty());
            assert(out@ =~= old(out)@ + enc_vals(vm.skip(k as int)));
        }
    } else {
        write_val(out, &row[k]);
        write_vals(out, row, k + 1);
        proof {
            assert(vm.skip(k as int)[0] == vm[k as int]);
            assert(vm.skip(k as int).drop_first() =~= vm.skip(k as int + 1));
            assert(out@ =~= old(out)@ + enc_vals(vm.skip(k as int)));
        }
    }
}

/// Appends a length-prefixed row.
fn write_row(out: &mut Vec<u8>, row: &Vec<FieldValue>)
    ensures
        final(out)@ == old(out)@ + enc_row(row@.map_values(|v: FieldValue| v@)),
        row@.map_values(|v: FieldValue| v@).len() < pow256(8),
        forall|i: int| 0 <= i < row@.len() ==> val_bounded((#[trigger] row@[i])@),
{
    proof {
        lemma_pow256_8();
    }
    write_u64(out, row.len() as u64);
    write_vals(out, row, 0);
    proof {
        let vm = row@.map_values(|v: FieldValue| v@);
        assert(vm.skip(0) =~= vm);
        assert(out@ =~= old(out)@ + enc_row(vm));
    }
}

/// Appends the rows from position `k` on.
fn write_rows(out: &mut Vec<u8>, rows: &Vec<Vec<FieldValue>>, k: usize)
    requires
        k <= rows@.len(),
    ensures
        final(out)@ == old(out)@ + enc_rows_list(
            crate::index::rows_model(rows@).skip(k as int),
        ),
        forall|q: int|
            k <= q < rows@.len() ==> (#[trigger] crate::index::rows_model(rows@)[q]).len()
                < pow256(8),
        forall|q: int, c: int|
            k <= q < rows@.len() && 0 <= c < crate::index::rows_model(rows@)[q].len()
                ==> val_bounded(#[trigger] crate::index::rows_model(rows@)[q][c]),
    decreases rows@.len() - k,
{
    let ghost rm = crate::index::rows_model(rows@);
    if k == rows.len() {
        proof {
            assert(rm.skip(k as int) =~= Seq::<Seq<Val>>::empty());
            assert(out@ =~= old(out)@ + enc_rows_list(rm.skip(k as int)));
        }
    } else {
        proof {
            assert(rm[k as int] == rows@[k as int]@.map_values(|v: FieldValue| v@));
        }
        write_row(out, &rows[k]);
        write_rows(out, rows, k + 1);
        proof {
            assert(rm.skip(k as int)[0] == rm[k as int]);
            assert(rm.skip(k as int).drop_first() =~= rm.skip(k as int + 1));
            assert(out@ =~= old(out)@ + enc_rows_list(rm.skip(k as int)));
        }
    }
}

/// Appends one column.
fn write_col(out: &mut Vec<u8>, c: &Column)
    ensures
        final(out)@ == old(out)@ + enc_col(c@),
        col_bounded(c@),
{
    write_str(out, c.get_name());
    let tag: u64 = match c.get_data_type() {
        DataType::String => 0,
        DataType::Number => 1,
        DataType::Date => 2,
        DataType::Url => 3,
        DataType::Boolean => 4,
    };
    write_u64(out, tag);
    write_u64(
        out,
        if c.is_primary_key() {
            1
        } else {
            0
        },
    );
    proof {
        assert(out@ =~= old(out)@ + enc_col(c@));
    }
}

/// Appends the columns from position `k` on.
fn write_cols(out: &mut Vec<u8>, cols: &Vec<Column>, k: usize)
    requires
        k <= cols@.len(),
    ensures
        final(out)@ == old(out)@ + enc_cols(cols_model(cols@).skip(k as int)),
        forall|i: int| k <= i < cols@.len() ==> col_bounded(#[trigger] cols_model(cols@)[i]),
    decreases cols@.len() - k,
{
    let ghost cm = cols_model(cols@);
    if k == cols.len() {
        proof {
            assert(cm.skip(k as int) =~= Seq::<ColModel>::empty());
            assert(out@ =~= old(out)@ + enc_cols(cm.skip(k as int)));
        }
    } else {
        proof {
            assert(cm[k as int] == cols@[k as int]@);
        }
        write_col(out, &cols[k]);
        write_cols(out, cols, k + 1);
        proof {
            assert(cm.skip(k as int)[0] == cm[k as int]);
            assert(cm.skip(k as int).drop_first() =~= cm.skip(k as int + 1));
            assert(out@ =~= old(out)@ + enc_cols(cm.skip(k as int)));
        }
    }
}

impl Table {
    /// The byte form of this table, ready to be written wherever the caller
    /// persists tables.
    pub fn to_bytes(&self) -> (b: Vec<u8>)
        ensures
            b@ == table_bytes(
                self.name_model(),
                self.cols(),
                self.pks(),
                self.rs(),
                self.synthetic(),
                self.tuple_counter(),
            ),
            table_bounded(self.name_model(), self.cols(), self.pks(), self.rs(), self.tuple_counter()),
    {
        proof {
            lemma_pow256_8();
        }
        let mut out: Vec<u8> = Vec::new();
        let name = self.name();
        write_str(&mut out, name.as_str());
        let cols = self.columns();
        write_u64(&mut out, cols.len() as u64);
        write_cols(&mut out, cols, 0);
        let pks = self.primary_keys();
        write_u64(&mut out, pks.len() as u64);
        write_cols(&mut out, pks, 0);
        write_u64(
            &mut out,
            if self.is_synthetic() {
                1
            } else {
                0
            },
        );
        let ctr = self.identity_counter();
        write_u64(&mut out, encode_signed(ctr));
        let rows = self.rows();
        write_u64(&mut out, rows.len() as u64);
        write_rows(&mut out, rows, 0);
        proof {
            assert(cols_model(cols@).skip(0) =~= self.cols());
            assert(cols_model(pks@).skip(0) =~= self.pks());
            assert(crate::index::rows_model(rows@).skip(0) =~= self.rs());
            assert(out@ =~= table_bytes(
                self.name_model(),
                self.cols(),
                self.pks(),
                self.rs(),
                self.synthetic(),
                self.tuple_counter(),
            ));
        }
        out
    }
}

/// Reads a length-prefixed UTF-8 run.
fn read_str(b: &Vec<u8>, pos: usize) -> (r: Option<(String, usize)>)
    ensures
        match rd_str(b@, pos as int) {
            Some((s, p)) => r matches Some(rv) && rv.0@ == s && rv.1 as int == p,
            None => r is None,
        },
{
    let (n, p) = match read_u64(b, pos) {
        Some(x) => x,
        None => {
            return None;
        },
    };
    if n > (b.len() - p) as u64 {
        return None;
    }
    let n_us = n as usize;
    let mut taken: Vec<u8> = Vec::new();
    let mut i: usize = 0;
    while i < n_us
        invariant
            i <= n_us,
            p + n_us <= b@.len(),
            b@.len() <= usize::MAX,
            taken@ =~= b@.subrange(p as int, p as int + i as int),
        decreases n_us - i,
    {
        taken.push(b[p + i]);
        proof {
            assert(taken@ =~= b@.subrange(p as int, p as int + i as int + 1));
        }
        i = i + 1;
    }
    match string_from_utf8(taken) {
        Some(s) => Some((s, p + n_us)),
        None => None,
    }
}

/// Reads a tagged cell value.
fn read_val(b: &Vec<u8>, pos: usize) -> (r: Option<(FieldValue, usize)>)
    ensures
        match rd_val(b@, pos as int) {
            Some((v, p)) => r matches Some(rv) && rv.0@ == v && rv.1 as int == p,
            None => r is None,
        },
{
    let (tag, p) = match read_u64(b, pos) {
        Some(x) => x,
        None => {
            return None;
        },
    };
    if tag == 0 {
        match read_str(b, p) {
            Some((s, p2)) => Some((FieldValue::String(s), p2)),
            None => None,
        }
    } else if tag == 1 {
        match read_u64(b, p) {
            Some((u, p2)) => Some((FieldValue::Number(decode_signed(u)), p2)),
            None => None,
        }
    } else if tag == 2 {
        match read_u64(b, p) {
            Some((u, p2)) => Some((FieldValue::Date(decode_signed(u)), p2)),
            None => None,
        }
    } else if tag == 3 {
        match read_str(b, p) {
            Some((s, p2)) => Some((FieldValue::Url(s), p2)),
            None => None,
        }
    } else if tag == 4 {
        match read_u64(b, p) {
            Some((u, p2)) => if u == 0 || u == 1 {
                Some((FieldValue::Boolean(u == 1), p2))
            } else {
                None
            },
            None => None,
        }
    } else if tag == 5 {
        Some((FieldValue::Null, p))
    } else {
        None
    }
}

/// The signed number a 64-bit byte value denotes.
fn decode_signed(u: u64) -> (x: i64)
    ensures
        x as int == signed64(u as int),
{
    if u < 0x8000000000000000 {
        u as i64
    } else {
        let wide: i128 = u as i128;
        (wide - 0x10000000000000000) as i64
    }
}

/// Reads `n` cells.
fn read_vals(b: &Vec<u8>, pos: usize, n: u64) -> (r: Option<(Vec<FieldValue>, usize)>)
    ensures
        match rd_vals(b@, pos as int, n as nat) {
            Some((vs, p)) => r matches Some(rv) && rv.0@.map_values(|v: FieldValue| v@) == vs
                && rv.1 as int == p,
            None => r is None,
        },
    decreases n,
{
    if n == 0 {
        let empty: Vec<FieldValue> = Vec::new();
        proof {
            assert(empty@.map_values(|v: FieldValue| v@) =~= Seq::<Val>::empty());
        }
        return Some((empty, pos));
    }
    let (v, p) = match read_val(b, pos) {
        Some(x) => x,
        None => {
            return None;
        },
    };
    let (mut vs, p2) = match read_vals(b, p, n - 1) {
        Some(x) => x,
        None => {
            return None;
        },
    };
    vs.insert(0, v);
    proof {
        let tail = rd_vals(b@, p as int, (n - 1) as nat).unwrap().0;
        assert(vs@.map_values(|vv: FieldValue| vv@) =~= seq![v@] + tail);
    }
    Some((vs, p2))
}

/// Reads a length-prefixed row.
fn read_row(b: &Vec<u8>, pos: usize) -> (r: Option<(Vec<FieldValue>, usize)>)
    ensures
        match rd_row(b@, pos as int) {
            Some((row, p)) => r matches Some(rv) && rv.0@.map_values(|v: FieldValue| v@) == row
                && rv.1 as int == p,
            None => r is None,
        },
{
    let (n, p) = match read_u64(b, pos) {
        Some(x) => x,
        None => {
            return None;
        },
    };
    read_vals(b, p, n)
}

/// Reads `n` rows.
fn read_rows(b: &Vec<u8>, pos: usize, n: u64) -> (r: Option<(Vec<Vec<FieldValue>>, usize)>)
    ensures
        match rd_rows(b@, pos as int, n as nat) {
            Some((rws, p)) => r matches Some(rv) && crate::index::rows_model(rv.0@) == rws
                && rv.1 as int == p,
            None => r is None,
        },
    decreases n,
{
    if n == 0 {
        let empty: Vec<Vec<FieldValue>> = Vec::new();
        proof {
            assert(crate::index::rows_model(empty@) =~= Seq::<Seq<Val>>::empty());
        }
        return Some((empty, pos));
    }
    let (row, p) = match read_row(b, pos) {
        Some(x) => x,
        None => {
            return None;
        },
    };
    let (mut rws, p2) = match read_rows(b, p, n - 1) {
        Some(x) => x,
        None => {
            return None;
        },
    };
    rws.insert(0, row);
    proof {
        let tail = rd_rows(b@, p as int, (n - 1) as nat).unwrap().0;
        assert(crate::index::rows_model(rws@) =~= seq![
            rd_row(b@, pos as int).unwrap().0,
        ] + tail);
    }
    Some((rws, p2))
}

/// Reads one column.
fn read_col(b: &Vec<u8>, pos: usize) -> (r: Option<(Column, usize)>)
    ensures
        match rd_col(b@, pos as int) {
            Some((c, p)) => r matches Some(rv) && rv.0@ == c && rv.1 as int == p,
            None => r is None,
        },
{
    let (nm, p) = match read_str(b, pos) {
        Some(x) => x,
        None => {
            return None;
        },
    };
    let (tag, p2) = match read_u64(b, p) {
        Some(x) => x,
        None => {
            return None;
        },
    };
    if tag > 4 {
        return None;
    }
    let dt = if tag == 0 {
        DataType::String
    } else if tag == 1 {
        DataType::Number
    } else if tag == 2 {
        DataType::Date
    } else if tag == 3 {
        DataType::Url
    } else {
        DataType::Boolean
    };
    let (pk, p3) = match read_u64(b, p2) {
        Some(x) => x,
        None => {
            return None;
        },
    };
    if pk > 1 {
        return None;
    }
    Some((Column::new(nm, dt, pk == 1), p3))
}

/// Reads `n` columns.
fn read_cols(b: &Vec<u8>, pos: usize, n: u64) -> (r: Option<(Vec<Column>, usize)>)
    ensures
        match rd_cols(b@, pos as int, n as nat) {
            Some((cs, p)) => r matches Some(rv) && cols_model(rv.0@) == cs && rv.1 as int == p,
            None => r is None,
        },
    decreases n,
{
    if n == 0 {
        let empty: Vec<Column> = Vec::new();
        proof {
            assert(cols_model(empty@) =~= Seq::<ColModel>::empty());
        }
        return Some((empty, pos));
    }
    let (c, p) = match read_col(b, pos) {
        Some(x) => x,
        None => {
            return None;
        },
    };
    let (mut cs, p2) = match read_cols(b, p, n - 1) {
        Some(x) => x,
        None => {
            return None;
        },
    };
    cs.insert(0, c);
    proof {
        let tail = rd_cols(b@, p as int, (n - 1) as nat).unwrap().0;
        assert(cols_model(cs@) =~= seq![rd_col(b@, pos as int).unwrap().0] + tail);
    }
    Some((cs, p2))
}

impl Table {
    /// Reads a table back from its byte form. The bytes are accepted exactly
    /// when they decode in full and the decoded parts satisfy the table
    /// invariant; the loaded table is then well-formed, with one fresh index
    /// per primary key.
    pub fn from_bytes(bytes: &Vec<u8>) -> (r: Option<Table>)
        ensures
            match rd_table(bytes@) {
                Some((nm, cs, ps, rws, syn, ctr)) => if assemble_ok(nm, cs, ps, rws, syn, ctr) {
                    r matches Some(t) && t.wf() && t.name_model() == nm && t.cols() == cs
                        && t.pks() == ps && t.rs() == rws && t.synthetic() == syn
                        && t.tuple_counter() == ctr
                } else {
                    r is None
                },
                None => r is None,
            },
    {
        let (name, p1) = match read_str(bytes, 0) {
            Some(x) => x,
            None => {
                return None;
            },
        };
        let (nc, p2) = match read_u64(bytes, p1) {
            Some(x) => x,
            None => {
                return None;
            },
        };
        let (cols, p3) = match read_cols(bytes, p2, nc) {
            Some(x) => x,
            None => {
                return None;
            },
        };
        let (np, p4) = match read_u64(bytes, p3) {
            Some(x) => x,
            None => {
                return None;
            },
        };
        let (pks, p5) = match read_cols(bytes, p4, np) {
            Some(x) => x,
            None => {
                return None;
            },
        };
        let (sy, p6) = match read_u64(bytes, p5) {
            Some(x) => x,
            None => {
                return None;
            },
        };
        if sy > 1 {
            return None;
        }
        let (cb, p7) = match read_u64(bytes, p6) {
            Some(x) => x,
            None => {
                return None;
            },
        };
        let (nr, p8) = match read_u64(bytes, p7) {
            Some(x) => x,
            None => {
                return None;
            },
        };
        let (rows, p9) = match read_rows(bytes, p8, nr) {
            Some(x) => x,
            None => {
                return None;
            },
        };
        if p9 != bytes.len() {
            return None;
        }
        let ctr = decode_signed(cb);
        Table::assemble(name, cols, pks, rows, sy == 1, ctr)
    }
}

} // verus!
