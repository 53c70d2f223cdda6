//! Row codec: serializes typed rows to byte ranges according to a schema.
//!
//! Layout of one encoded row:
//! - a null map, one byte per column (1 = the value is Null);
//! - the fixed-width region: for each column in schema order, 8 bytes for
//!   Int/BigInt (little endian), 8 bytes for Float/Double (IEEE-754 bits),
//!   1 byte for Boolean, nothing for Text/Varchar; a Null value occupies
//!   its slot with zeroes;
//! - the variable region: for each non-null Text/Varchar value in schema
//!   order, an 8-byte little-endian length followed by the UTF-8 bytes.
//!
//! Rows never span page boundaries, so an encoded row larger than the data
//! area of one page is rejected.

use vstd::prelude::*;
use vstd::bytes::*;
use vstd::utf8::{encode_utf8, decode_utf8, valid_utf8};
use crate::error::GSQLError;
use crate::parser::{ColumnDef, DataType};
use crate::value::{Value, ValueModel};

verus! {

/// Bytes in one page.
pub const PAGE_SIZE: usize = 8192;

/// Bytes of page header: a 2-byte row count and a 2-byte free offset.
pub const PAGE_HEADER: usize = 4;

/// Largest encoded row that fits in the data area of one page.
pub const ROW_CAPACITY: usize = 8188;

/// Width of a column's slot in the fixed region.
pub open spec fn width_of(dt: DataType) -> nat {
    match dt {
        DataType::Boolean => 1,
        DataType::Text => 0,
        DataType::Varchar(_) => 0,
        _ => 8,
    }
}

/// Whether a value may be stored under the declared column type.
/// Null is accepted for every type; a Varchar value must fit its bound.
pub open spec fn type_ok(dt: DataType, v: ValueModel) -> bool {
    match v {
        ValueModel::Null => true,
        ValueModel::Int(_) => dt is Int || dt is BigInt,
        ValueModel::Float(_) => dt is Float || dt is Double,
        ValueModel::Bool(_) => dt is Boolean,
        ValueModel::Text(s) => dt is Text || (dt matches DataType::Varchar(n)
            && encode_utf8(s).len() <= n),
    }
}

/// A row matches a schema: same arity, every value of the declared type.
pub open spec fn valid_row(cols: Seq<ColumnDef>, vs: Seq<ValueModel>) -> bool {
    &&& vs.len() == cols.len()
    &&& forall|i: int| 0 <= i < cols.len() ==> type_ok(cols[i].data_type, vs[i])
}

pub open spec fn zero_seq(n: nat) -> Seq<u8> {
    Seq::new(n, |i: int| 0u8)
}

/// The null map: one byte per column.
pub open spec fn null_bytes(vs: Seq<ValueModel>) -> Seq<u8> {
    Seq::new(vs.len(), |i: int| if vs[i] is Null { 1u8 } else { 0u8 })
}

/// One column's slot in the fixed region.
pub open spec fn fixed_cell(dt: DataType, v: ValueModel) -> Seq<u8> {
    match v {
        ValueModel::Null => zero_seq(width_of(dt)),
        ValueModel::Int(x) => spec_u64_to_le_bytes(x as u64),
        ValueModel::Float(b) => spec_u64_to_le_bytes(b),
        ValueModel::Bool(b) => if b { seq![1u8] } else { seq![0u8] },
        ValueModel::Text(_) => Seq::empty(),
    }
}

pub open spec fn fixed_region(cols: Seq<ColumnDef>, vs: Seq<ValueModel>) -> Seq<u8>
    decreases cols.len(),
{
    if cols.len() == 0 || vs.len() == 0 {
        Seq::empty()
    } else {
        fixed_cell(cols[0].data_type, vs[0]) + fixed_region(cols.drop_first(), vs.drop_first())
    }
}

/// One value's contribution to the variable region.
pub open spec fn var_cell(v: ValueModel) -> Seq<u8> {
    match v {
        ValueModel::Text(s) => spec_u64_to_le_bytes(encode_utf8(s).len() as u64)
            + encode_utf8(s),
        _ => Seq::empty(),
    }
}

pub open spec fn var_region(vs: Seq<ValueModel>) -> Seq<u8>
    decreases vs.len(),
{
    if vs.len() == 0 {
        Seq::empty()
    } else {
        var_cell(vs[0]) + var_region(vs.drop_first())
    }
}

/// Total width of the fixed region for a schema.
pub open spec fn fixed_len(cols: Seq<ColumnDef>) -> nat
    decreases cols.len(),
{
    if cols.len() == 0 {
        0
    } else {
        width_of(cols[0].data_type) + fixed_len(cols.drop_first())
    }
}

/// The encoded form of a row: null map, fixed region, variable region.
pub open spec fn spec_encode_row(cols: Seq<ColumnDef>, vs: Seq<ValueModel>) -> Seq<u8> {
    null_bytes(vs) + fixed_region(cols, vs) + var_region(vs)
}

/// Decoding of the remaining columns, reading null bytes at `npos`, fixed
/// slots at `fpos` and variable entries at `vpos`.  Returns the decoded
/// values and the end position of the row in `bytes`.
pub open spec fn dec_cells(
    cols: Seq<ColumnDef>,
    bytes: Seq<u8>,
    npos: int,
    fpos: int,
    vpos: int,
) -> Option<(Seq<ValueModel>, int)>
    decreases cols.len(),
{
    if cols.len() == 0 {
        Some((Seq::empty(), vpos))
    } else if !(0 <= npos < bytes.len()) {
        None
    } else {
        let w = width_of(cols[0].data_type) as int;
        if bytes[npos] != 0 {
            match dec_cells(cols.drop_first(), bytes, npos + 1, fpos + w, vpos) {
                Some((rest, end)) => Some((seq![ValueModel::Null] + rest, end)),
                None => None,
            }
        } else {
            match cols[0].data_type {
                DataType::Int | DataType::BigInt => if 0 <= fpos && fpos + 8 <= bytes.len() {
                    let x = spec_u64_from_le_bytes(bytes.subrange(fpos, fpos + 8)) as i64;
                    match dec_cells(cols.drop_first(), bytes, npos + 1, fpos + 8, vpos) {
                        Some((rest, end)) => Some((seq![ValueModel::Int(x)] + rest, end)),
                        None => None,
                    }
                } else {
                    None
                },
                DataType::Float | DataType::Double => if 0 <= fpos && fpos + 8 <= bytes.len() {
                    let b = spec_u64_from_le_bytes(bytes.subrange(fpos, fpos + 8));
                    match dec_cells(cols.drop_first(), bytes, npos + 1, fpos + 8, vpos) {
                        Some((rest, end)) => Some((seq![ValueModel::Float(b)] + rest, end)),
                        None => None,
                    }
                } else {
                    None
                },
                DataType::Boolean => if 0 <= fpos && fpos + 1 <= bytes.len()
                    && (bytes[fpos] == 0 || bytes[fpos] == 1) {
                    let b = bytes[fpos] == 1;
                    match dec_cells(cols.drop_first(), bytes, npos + 1, fpos + 1, vpos) {
                        Some((rest, end)) => Some((seq![ValueModel::Bool(b)] + rest, end)),
                        None => None,
                    }
                } else {
                    None
                },
                DataType::Text | DataType::Varchar(_) => if 0 <= vpos && vpos + 8 <= bytes.len() {
                    let l = spec_u64_from_le_bytes(bytes.subrange(vpos, vpos + 8)) as int;
                    if vpos + 8 + l <= bytes.len() {
                        let tb = bytes.subrange(vpos + 8, vpos + 8 + l);
                        if valid_utf8(tb) {
                            match dec_cells(cols.drop_first(), bytes, npos + 1, fpos, vpos + 8 + l) {
                                Some((rest, end)) => Some(
                                    (seq![ValueModel::Text(decode_utf8(tb))] + rest, end),
                                ),
                                None => None,
                            }
                        } else {
                            None
                        }
                    } else {
                        None
                    }
                } else {
                    None
                },
            }
        }
    }
}

/// Decoding of one full row that starts at `start`.
pub open spec fn spec_decode_row(cols: Seq<ColumnDef>, bytes: Seq<u8>, start: int) -> Option<
    (Seq<ValueModel>, int),
> {
    dec_cells(
        cols,
        bytes,
        start,
        start + cols.len(),
        start + cols.len() + fixed_len(cols),
    )
}

/// A schema wider than this is rejected; it keeps every page-relative
/// offset comfortably inside machine integers.
pub const MAX_COLUMNS: usize = 1024;

pub proof fn lemma_fixed_region_snoc(cols: Seq<ColumnDef>, vs: Seq<ValueModel>, i: int)
    requires
        0 <= i < cols.len(),
        cols.len() == vs.len(),
    ensures
        fixed_region(cols.take(i + 1), vs.take(i + 1)) == fixed_region(cols.take(i), vs.take(i))
            + fixed_cell(cols[i].data_type, vs[i]),
    decreases i,
{
    if i == 0 {
        assert(cols.take(1).drop_first() =~= cols.take(0));
        assert(vs.take(1).drop_first() =~= vs.take(0));
        assert(fixed_region(cols.take(1), vs.take(1)) =~= fixed_region(cols.take(0), vs.take(0))
            + fixed_cell(cols[0].data_type, vs[0]));
    } else {
        let c2 = cols.drop_first();
        let v2 = vs.drop_first();
        lemma_fixed_region_snoc(c2, v2, i - 1);
        assert(cols.take(i + 1).drop_first() =~= c2.take(i));
        assert(vs.take(i + 1).drop_first() =~= v2.take(i));
        assert(cols.take(i).drop_first() =~= c2.take(i - 1));
        assert(vs.take(i).drop_first() =~= v2.take(i - 1));
        assert(fixed_region(cols.take(i + 1), vs.take(i + 1)) =~= fixed_region(
            cols.take(i),
            vs.take(i),
        ) + fixed_cell(cols[i].data_type, vs[i]));
    }
}

pub proof fn lemma_var_region_snoc(vs: Seq<ValueModel>, i: int)
    requires
        0 <= i < vs.len(),
    ensures
        var_region(vs.take(i + 1)) == var_region(vs.take(i)) + var_cell(vs[i]),
    decreases i,
{
    if i == 0 {
        assert(vs.take(1).drop_first() =~= vs.take(0));
        assert(var_region(vs.take(1)) =~= var_region(vs.take(0)) + var_cell(vs[0]));
    } else {
        let v2 = vs.drop_first();
        lemma_var_region_snoc(v2, i - 1);
        assert(vs.take(i + 1).drop_first() =~= v2.take(i));
        assert(vs.take(i).drop_first() =~= v2.take(i - 1));
        assert(var_region(vs.take(i + 1)) =~= var_region(vs.take(i)) + var_cell(vs[i]));
    }
}

pub proof fn lemma_fixed_len_snoc(cols: Seq<ColumnDef>, i: int)
    requires
        0 <= i < cols.len(),
    ensures
        fixed_len(cols.take(i + 1)) == fixed_len(cols.take(i)) + width_of(cols[i].data_type),
    decreases i,
{
    if i == 0 {
        assert(cols.take(1).drop_first() =~= cols.take(0));
    } else {
        let c2 = cols.drop_first();
        lemma_fixed_len_snoc(c2, i - 1);
        assert(cols.take(i + 1).drop_first() =~= c2.take(i));
        assert(cols.take(i).drop_first() =~= c2.take(i - 1));
    }
}

/// Under a matching type, a fixed cell is exactly as wide as its slot.
pub proof fn lemma_fixed_cell_len(dt: DataType, v: ValueModel)
    requires
        type_ok(dt, v),
    ensures
        fixed_cell(dt, v).len() == width_of(dt),
{
    lemma_auto_spec_u64_to_from_le_bytes();
}

fn width_of_exec(dt: DataType) -> (w: usize)
    ensures
        w == width_of(dt),
{
    match dt {
        DataType::Boolean => 1,
        DataType::Text => 0,
        DataType::Varchar(_) => 0,
        _ => 8,
    }
}

/// Exec counterpart of [`type_ok`].
pub fn type_matches(dt: DataType, v: &Value) -> (b: bool)
    ensures
        b == type_ok(dt, v@),
{
    match v {
        Value::Null => true,
        Value::Int(_) => matches!(dt, DataType::Int | DataType::BigInt),
        Value::Float(_) => matches!(dt, DataType::Float | DataType::Double),
        Value::Bool(_) => matches!(dt, DataType::Boolean),
        Value::Text(s) => match dt {
            DataType::Text => true,
            DataType::Varchar(n) => s.as_str().as_bytes().len() <= n,
            _ => false,
        },
    }
}

fn push_zeros(out: &mut Vec<u8>, w: usize)
    ensures
        final(out)@ == old(out)@ + zero_seq(w as nat),
{
    let mut j: usize = 0;
    while j < w
        invariant
            j <= w,
            out@ == old(out)@ + zero_seq(j as nat),
        decreases w - j,
    {
        out.push(0);
        assert(old(out)@ + zero_seq((j + 1) as nat) =~= (old(out)@ + zero_seq(j as nat)).push(
            0u8,
        ));
        j += 1;
    }
    assert(out@ == old(out)@ + zero_seq(w as nat));
}

/// Serializes one row under a schema.
///
/// Succeeds exactly when every value matches its column's declared type and
/// the encoded row fits the data area of one page; the result is then the
/// byte layout described by [`spec_encode_row`].
pub fn encode_row(cols: &Vec<ColumnDef>, vals: &Vec<Value>) -> (r: Result<Vec<u8>, GSQLError>)
    ensures
        match r {
            Ok(b) => valid_row(cols@, vals.deep_view()) && b@ == spec_encode_row(
                cols@,
                vals.deep_view(),
            ) && b@.len() <= ROW_CAPACITY,
            Err(e) => {
                ||| (e is TypeMismatch && !valid_row(cols@, vals.deep_view()))
                ||| (e is NotImplemented && valid_row(cols@, vals.deep_view())
                    && spec_encode_row(cols@, vals.deep_view()).len() > ROW_CAPACITY)
            },
        },
{
    let ghost vsm = vals.deep_view();
    let n = cols.len();
    if vals.len() != n {
        return Err(GSQLError::TypeMismatch("row arity differs from schema".to_owned()));
    }
    let mut i: usize = 0;
    while i < n
        invariant
            i <= n,
            n == cols@.len(),
            n == vals@.len(),
            vsm == vals.deep_view(),
            forall|j: int| 0 <= j < i ==> type_ok(cols@[j].data_type, vsm[j]),
        decreases n - i,
    {
        assert(vsm[i as int] == vals@[i as int].deep_view());
        if !type_matches(cols[i].data_type, &vals[i]) {
            return Err(GSQLError::TypeMismatch("value does not match column type".to_owned()));
        }
        i += 1;
    }
    assert(valid_row(cols@, vsm));

    let mut out: Vec<u8> = Vec::new();
    // null map
    let mut i: usize = 0;
    while i < n
        invariant
            i <= n,
            n == cols@.len(),
            n == vals@.len(),
            vsm == vals.deep_view(),
            out@ == null_bytes(vsm.take(i as int)),
        decreases n - i,
    {
        assert(vsm[i as int] == vals@[i as int].deep_view());
        let b: u8 = match &vals[i] {
            Value::Null => 1,
            _ => 0,
        };
        out.push(b);
        assert(null_bytes(vsm.take(i + 1)) =~= null_bytes(vsm.take(i as int)).push(b));
        i += 1;
    }
    assert(vsm.take(n as int) =~= vsm);
    assert(out@ == null_bytes(vsm));

    // fixed-width region
    let ghost nb = null_bytes(vsm);
    let mut i: usize = 0;
    while i < n
        invariant
            i <= n,
            n == cols@.len(),
            n == vals@.len(),
            vsm == vals.deep_view(),
            out@ == nb + fixed_region(cols@.take(i as int), vsm.take(i as int)),
        decreases n - i,
    {
        assert(vsm[i as int] == vals@[i as int].deep_view());
        let dt = cols[i].data_type;
        match &vals[i] {
            Value::Null => {
                let w = width_of_exec(dt);
                push_zeros(&mut out, w);
            },
            Value::Int(x) => {
                let mut bs = u64_to_le_bytes(#[verifier::truncate] (*x as u64));
                out.append(&mut bs);
            },
            Value::Float(bits) => {
                let mut bs = u64_to_le_bytes(*bits);
                out.append(&mut bs);
            },
            Value::Bool(b) => {
                out.push(if *b { 1 } else { 0 });
                assert(fixed_cell(dt, vsm[i as int]) =~= seq![if *b { 1u8 } else { 0u8 }]);
            },
            Value::Text(_) => {
                assert(fixed_cell(dt, vsm[i as int]) =~= Seq::<u8>::empty());
            },
        }
        proof {
            lemma_fixed_region_snoc(cols@, vsm, i as int);
            assert(out@ =~= nb + fixed_region(cols@.take(i + 1), vsm.take(i + 1)));
        }
        i += 1;
    }
    assert(cols@.take(n as int) =~= cols@);
    assert(vsm.take(n as int) =~= vsm);
    let ghost fx = fixed_region(cols@, vsm);

    // variable region
    let mut i: usize = 0;
    while i < n
        invariant
            i <= n,
            n == cols@.len(),
            n == vals@.len(),
            vsm == vals.deep_view(),
            out@ == nb + fx + var_region(vsm.take(i as int)),
        decreases n - i,
    {
        assert(vsm[i as int] == vals@[i as int].deep_view());
        match &vals[i] {
            Value::Text(s) => {
                let mut tb = s.as_str().as_bytes_vec();
                let l: u64 = tb.len() as u64;
                let mut lb = u64_to_le_bytes(l);
                out.append(&mut lb);
                out.append(&mut tb);
            },
            _ => {
                assert(var_cell(vsm[i as int]) =~= Seq::<u8>::empty());
            },
        }
        proof {
            lemma_var_region_snoc(vsm, i as int);
            assert(out@ =~= nb + fx + var_region(vsm.take(i + 1)));
        }
        i += 1;
    }
    assert(vsm.take(n as int) =~= vsm);
    assert(out@ == spec_encode_row(cols@, vsm));

    if out.len() > ROW_CAPACITY {
        return Err(GSQLError::NotImplemented("row larger than one page".to_owned()));
    }
    Ok(out)
}

/// Relies on String::from_utf8: it succeeds exactly on valid UTF-8 input,
/// and the returned string holds exactly the input bytes.
#[verifier::external_body]
fn string_from_utf8(b: Vec<u8>) -> (r: Option<String>)
    ensures
        r is Some <==> valid_utf8(b@),
        r matches Some(s) ==> encode_utf8(s@) == b@,
{
    String::from_utf8(b).ok()
}

pub proof fn lemma_fixed_len_take_le(cols: Seq<ColumnDef>, i: int)
    requires
        0 <= i <= cols.len(),
    ensures
        fixed_len(cols.take(i)) <= fixed_len(cols),
    decreases cols.len() - i,
{
    if i == cols.len() {
        assert(cols.take(i) =~= cols);
    } else {
        lemma_fixed_len_snoc(cols, i);
        lemma_fixed_len_take_le(cols, i + 1);
    }
}

spec fn compose_cells(pre: Seq<ValueModel>, r: Option<(Seq<ValueModel>, int)>) -> Option<
    (Seq<ValueModel>, int),
> {
    match r {
        Some(p) => Some((pre + p.0, p.1)),
        None => None,
    }
}

/// Deserializes the row that starts at `start`; the exact inverse of
/// [`encode_row`].  Returns the values and the offset just past the row.
/// Succeeds exactly when the bytes are a well-formed row for the schema.
pub fn decode_row(cols: &Vec<ColumnDef>, bytes: &Vec<u8>, start: usize) -> (r: Result<
    (Vec<Value>, usize),
    GSQLError,
>)
    requires
        bytes@.len() <= PAGE_SIZE,
        cols@.len() <= MAX_COLUMNS,
    ensures
        match r {
            Ok(p) => spec_decode_row(cols@, bytes@, start as int) == Some(
                (p.0.deep_view(), p.1 as int),
            ),
            Err(e) => spec_decode_row(cols@, bytes@, start as int) is None && e is Other,
        },
{
    let n = cols.len();
    if n == 0 {
        let vals: Vec<Value> = Vec::new();
        assert(vals.deep_view() =~= Seq::<ValueModel>::empty());
        return Ok((vals, start));
    }
    if start >= bytes.len() {
        return Err(GSQLError::Other("row start out of page".to_owned()));
    }
    // width of the fixed region
    let mut flen: usize = 0;
    let mut i: usize = 0;
    while i < n
        invariant
            i <= n,
            n == cols@.len() <= MAX_COLUMNS,
            flen == fixed_len(cols@.take(i as int)),
            flen <= 8 * i,
        decreases n - i,
    {
        proof {
            lemma_fixed_len_snoc(cols@, i as int);
        }
        flen += width_of_exec(cols[i].data_type);
        i += 1;
    }
    assert(cols@.take(n as int) =~= cols@);

    let ghost full = spec_decode_row(cols@, bytes@, start as int);
    let mut npos: usize = start;
    let mut fpos: usize = start + n;
    let mut vpos: usize = start + n + flen;
    let mut acc: Vec<Value> = Vec::new();
    let mut i: usize = 0;
    assert(cols@.skip(0) =~= cols@);
    assert(acc.deep_view() =~= Seq::<ValueModel>::empty());
    proof {
        let r0 = dec_cells(cols@, bytes@, start as int, fpos as int, vpos as int);
        match r0 {
            Some(p) => {
                assert(Seq::<ValueModel>::empty() + p.0 =~= p.0);
            },
            None => {},
        }
    }
    while i < n
        invariant
            i <= n,
            n == cols@.len() <= MAX_COLUMNS,
            bytes@.len() <= PAGE_SIZE,
            start < bytes@.len(),
            npos == start + i,
            fpos == start + n + fixed_len(cols@.take(i as int)),
            flen == fixed_len(cols@),
            fixed_len(cols@.take(i as int)) <= flen,
            flen <= 8 * n,
            vpos <= PAGE_SIZE + 9 * MAX_COLUMNS,
            acc.deep_view().len() == i,
            full == spec_decode_row(cols@, bytes@, start as int),
            full == compose_cells(
                acc.deep_view(),
                dec_cells(cols@.skip(i as int), bytes@, npos as int, fpos as int, vpos as int),
            ),
        decreases n - i,
    {
        let ghost rcols = cols@.skip(i as int);
        proof {
            assert(rcols[0] == cols@[i as int]);
            assert(rcols.drop_first() =~= cols@.skip(i + 1));
            lemma_fixed_len_snoc(cols@, i as int);
            lemma_fixed_len_take_le(cols@, i + 1);
        }
        if npos >= bytes.len() {
            return Err(GSQLError::Other("row truncated".to_owned()));
        }
        let nullb = bytes[npos];
        let dt = cols[i].data_type;
        let w = width_of_exec(dt);
        let m: Value;
        if nullb != 0 {
            m = Value::Null;
        } else {
            match dt {
                DataType::Int | DataType::BigInt => {
                    if fpos + 8 > bytes.len() {
                        return Err(GSQLError::Other("row truncated".to_owned()));
                    }
                    let sl = vstd::slice::slice_subrange(bytes.as_slice(), fpos, fpos + 8);
                    let x = u64_from_le_bytes(sl);
                    m = Value::Int(#[verifier::truncate] (x as i64));
                },
                DataType::Float | DataType::Double => {
                    if fpos + 8 > bytes.len() {
                        return Err(GSQLError::Other("row truncated".to_owned()));
                    }
                    let sl = vstd::slice::slice_subrange(bytes.as_slice(), fpos, fpos + 8);
                    let x = u64_from_le_bytes(sl);
                    m = Value::Float(x);
                },
                DataType::Boolean => {
                    if fpos + 1 > bytes.len() {
                        return Err(GSQLError::Other("row truncated".to_owned()));
                    }
                    let b = bytes[fpos];
                    if b > 1 {
                        return Err(GSQLError::Other("corrupt boolean".to_owned()));
                    }
                    m = Value::Bool(b == 1);
                },
                DataType::Text | DataType::Varchar(_) => {
                    if vpos + 8 > bytes.len() {
                        return Err(GSQLError::Other("row truncated".to_owned()));
                    }
                    let sl = vstd::slice::slice_subrange(bytes.as_slice(), vpos, vpos + 8);
                    let l64 = u64_from_le_bytes(sl);
                    let room = bytes.len() - (vpos + 8);
                    if l64 > room as u64 {
                        return Err(GSQLError::Other("row truncated".to_owned()));
                    }
                    let l = l64 as usize;
                    let tsl = vstd::slice::slice_subrange(
                        bytes.as_slice(),
                        vpos + 8,
                        vpos + 8 + l,
                    );
                    let tv = vstd::slice::slice_to_vec(tsl);
                    match string_from_utf8(tv) {
                        Some(s) => {
                            proof {
                                vstd::utf8::encode_utf8_decode_utf8(s@);
                            }
                            m = Value::Text(s);
                        },
                        None => {
                            return Err(GSQLError::Other("corrupt text".to_owned()));
                        },
                    }
                    vpos = vpos + 8 + l;
                },
            }
        }
        // the fixed cursor advances by the slot width for every column
        // (zero for text), mirroring the specification
        let ghost old_acc = acc.deep_view();
        acc.push(m);
        assert(acc.deep_view() =~= old_acc.push(m@));
        proof {
            let rem = dec_cells(
                cols@.skip(i + 1),
                bytes@,
                npos as int + 1,
                fpos as int + width_of(cols@[i as int].data_type),
                vpos as int,
            );
            match rem {
                Some(p) => {
                    assert(old_acc + (seq![m@] + p.0) =~= acc.deep_view() + p.0);
                },
                None => {},
            }
        }
        npos += 1;
        fpos += w;
        i += 1;
    }
    assert(cols@.skip(n as int) =~= Seq::<ColumnDef>::empty());
    assert(acc.deep_view() + Seq::<ValueModel>::empty() =~= acc.deep_view());
    Ok((acc, vpos))
}

pub proof fn lemma_fixed_region_len(cols: Seq<ColumnDef>, vs: Seq<ValueModel>)
    requires
        cols.len() == vs.len(),
        forall|i: int| 0 <= i < cols.len() ==> type_ok(cols[i].data_type, vs[i]),
    ensures
        fixed_region(cols, vs).len() == fixed_len(cols),
    decreases cols.len(),
{
    if cols.len() > 0 {
        lemma_fixed_cell_len(cols[0].data_type, vs[0]);
        lemma_fixed_region_len(cols.drop_first(), vs.drop_first());
    }
}

/// Every text payload is no longer than the whole variable region.
pub proof fn lemma_texts_fit(vs: Seq<ValueModel>, bound: int)
    requires
        var_region(vs).len() <= bound,
    ensures
        forall|i: int| 0 <= i < vs.len() ==> (#[trigger] vs[i] matches ValueModel::Text(s)
            ==> encode_utf8(s).len() <= bound),
    decreases vs.len(),
{
    lemma_auto_spec_u64_to_from_le_bytes();
    if vs.len() > 0 {
        lemma_texts_fit(vs.drop_first(), bound);
        assert(forall|i: int| 1 <= i < vs.len() ==> vs[i] == vs.drop_first()[i - 1]);
    }
}

proof fn lemma_region_split(bytes: Seq<u8>, pos: int, a: Seq<u8>, b: Seq<u8>)
    requires
        0 <= pos,
        pos + a.len() + b.len() <= bytes.len(),
        bytes.subrange(pos, pos + a.len() + b.len()) == a + b,
    ensures
        bytes.subrange(pos, pos + a.len() as int) == a,
        bytes.subrange(pos + a.len() as int, pos + a.len() + b.len()) == b,
{
    assert forall|k: int| 0 <= k < a.len() implies bytes[pos + k] == a[k] by {
        assert(bytes.subrange(pos, pos + a.len() + b.len())[k] == bytes[pos + k]);
        assert((a + b)[k] == a[k]);
    }
    assert forall|k: int| 0 <= k < b.len() implies bytes[pos + a.len() + k] == b[k] by {
        assert(bytes.subrange(pos, pos + a.len() + b.len())[a.len() + k] == bytes[pos + a.len()
            + k]);
        assert((a + b)[a.len() + k] == b[k]);
    }
    assert(bytes.subrange(pos, pos + a.len() as int) =~= a);
    assert(bytes.subrange(pos + a.len() as int, pos + a.len() + b.len()) =~= b);
}

/// Decoding reads back exactly what encoding laid down, column by column.
proof fn lemma_dec_cells_encode(
    cols: Seq<ColumnDef>,
    vs: Seq<ValueModel>,
    bytes: Seq<u8>,
    npos: int,
    fpos: int,
    vpos: int,
)
    requires
        cols.len() == vs.len(),
        forall|i: int| 0 <= i < cols.len() ==> type_ok(cols[i].data_type, vs[i]),
        forall|i: int| 0 <= i < vs.len() ==> (#[trigger] vs[i] matches ValueModel::Text(s)
            ==> encode_utf8(s).len() <= u64::MAX),
        0 <= npos,
        npos + cols.len() <= bytes.len(),
        bytes.subrange(npos, npos + cols.len() as int) == null_bytes(vs),
        0 <= fpos,
        fpos + fixed_len(cols) <= bytes.len(),
        bytes.subrange(fpos, fpos + fixed_len(cols) as int) == fixed_region(cols, vs),
        0 <= vpos,
        vpos + var_region(vs).len() <= bytes.len(),
        bytes.subrange(vpos, vpos + var_region(vs).len() as int) == var_region(vs),
    ensures
        dec_cells(cols, bytes, npos, fpos, vpos) == Some(
            (vs, vpos + var_region(vs).len() as int),
        ),
    decreases cols.len(),
{
    lemma_auto_spec_u64_to_from_le_bytes();
    if cols.len() == 0 {
        assert(vs =~= Seq::<ValueModel>::empty());
    } else {
        let c0 = cols[0].data_type;
        let v0 = vs[0];
        let w = width_of(c0) as int;
        let cr = cols.drop_first();
        let vr = vs.drop_first();
        assert(forall|k: int| 0 <= k < cr.len() ==> cr[k] == cols[k + 1] && vr[k] == vs[k + 1]);
        lemma_fixed_cell_len(c0, v0);
        lemma_fixed_region_len(cr, vr);
        lemma_fixed_region_len(cols, vs);

        // split the three regions into the head cell and the remainder
        assert(null_bytes(vs) =~= seq![null_bytes(vs)[0]] + null_bytes(vr));
        lemma_region_split(bytes, npos, seq![null_bytes(vs)[0]], null_bytes(vr));
        assert(bytes[npos] == null_bytes(vs)[0]) by {
            assert(bytes.subrange(npos, npos + 1)[0] == bytes[npos]);
        }

        assert(fixed_region(cols, vs) == fixed_cell(c0, v0) + fixed_region(cr, vr));
        assert(fixed_len(cols) == width_of(c0) + fixed_len(cr));
        lemma_region_split(bytes, fpos, fixed_cell(c0, v0), fixed_region(cr, vr));

        assert(var_region(vs) == var_cell(v0) + var_region(vr));
        lemma_region_split(bytes, vpos, var_cell(v0), var_region(vr));

        if v0 is Null {
            assert(bytes[npos] == 1);
            assert(var_cell(v0) =~= Seq::<u8>::empty());
            assert(var_region(vs) =~= var_region(vr));
            lemma_dec_cells_encode(cr, vr, bytes, npos + 1, fpos + w, vpos);
            assert(seq![ValueModel::Null] + vr =~= vs);
        } else {
            assert(bytes[npos] == 0);
            match v0 {
                ValueModel::Int(x) => {
                    assert(w == 8);
                    assert(bytes.subrange(fpos, fpos + 8) == spec_u64_to_le_bytes(x as u64));
                    assert(spec_u64_from_le_bytes(spec_u64_to_le_bytes(x as u64)) == x as u64);
                    assert((x as u64) as i64 == x) by (bit_vector);
                    assert(var_region(vs) =~= var_region(vr));
                    lemma_dec_cells_encode(cr, vr, bytes, npos + 1, fpos + 8, vpos);
                    assert(seq![ValueModel::Int(x)] + vr =~= vs);
                },
                ValueModel::Float(b) => {
                    assert(w == 8);
                    assert(bytes.subrange(fpos, fpos + 8) == spec_u64_to_le_bytes(b));
                    assert(var_region(vs) =~= var_region(vr));
                    lemma_dec_cells_encode(cr, vr, bytes, npos + 1, fpos + 8, vpos);
                    assert(seq![ValueModel::Float(b)] + vr =~= vs);
                },
                ValueModel::Bool(b) => {
                    assert(w == 1);
                    let cell = fixed_cell(c0, v0);
                    assert(bytes.subrange(fpos, fpos + 1) == cell);
                    assert(bytes[fpos] == cell[0]) by {
                        assert(bytes.subrange(fpos, fpos + 1)[0] == bytes[fpos]);
                    }
                    assert(var_region(vs) =~= var_region(vr));
                    lemma_dec_cells_encode(cr, vr, bytes, npos + 1, fpos + 1, vpos);
                    assert(seq![ValueModel::Bool(b)] + vr =~= vs);
                },
                ValueModel::Text(s) => {
                    assert(w == 0);
                    assert(fixed_cell(c0, v0) =~= Seq::<u8>::empty());
                    assert(fixed_region(cols, vs) =~= fixed_region(cr, vr));
                    let l = encode_utf8(s).len() as int;
                    assert(var_cell(v0) == spec_u64_to_le_bytes(l as u64) + encode_utf8(s));
                    assert(spec_u64_to_le_bytes(l as u64) + (encode_utf8(s) + var_region(vr))
                        =~= var_cell(v0) + var_region(vr));
                    lemma_region_split(bytes, vpos, spec_u64_to_le_bytes(l as u64), encode_utf8(s)
                        + var_region(vr));
                    assert(bytes.subrange(vpos, vpos + 8) == spec_u64_to_le_bytes(l as u64));
                    assert(spec_u64_from_le_bytes(spec_u64_to_le_bytes(l as u64)) == l as u64);
                    assert((l as u64) as int == l);
                    lemma_region_split(bytes, vpos + 8, encode_utf8(s), var_region(vr));
                    assert(bytes.subrange(vpos + 8, vpos + 8 + l) == encode_utf8(s));
                    vstd::utf8::encode_utf8_valid_utf8(s);
                    vstd::utf8::encode_utf8_decode_utf8(s);
                    lemma_dec_cells_encode(cr, vr, bytes, npos + 1, fpos, vpos + 8 + l);
                    assert(seq![ValueModel::Text(s)] + vr =~= vs);
                    assert(vpos + 8 + l + var_region(vr).len() == vpos + var_region(vs).len());
                },
                _ => {},
            }
        }
    }
}

/// Round trip: decoding an encoded row yields the original values and
/// consumes exactly the encoded bytes, wherever the row sits in a page.
pub proof fn lemma_decode_embedded(
    cols: Seq<ColumnDef>,
    vs: Seq<ValueModel>,
    bytes: Seq<u8>,
    start: int,
)
    requires
        valid_row(cols, vs),
        spec_encode_row(cols, vs).len() <= ROW_CAPACITY,
        0 <= start,
        start + spec_encode_row(cols, vs).len() <= bytes.len(),
        bytes.subrange(start, start + spec_encode_row(cols, vs).len() as int) == spec_encode_row(
            cols,
            vs,
        ),
    ensures
        spec_decode_row(cols, bytes, start) == Some(
            (vs, start + spec_encode_row(cols, vs).len() as int),
        ),
{
    let n = cols.len() as int;
    let enc = spec_encode_row(cols, vs);
    lemma_fixed_region_len(cols, vs);
    lemma_texts_fit(vs, var_region(vs).len() as int);
    assert(forall|i: int| 0 <= i < vs.len() ==> (#[trigger] vs[i] matches ValueModel::Text(s)
        ==> encode_utf8(s).len() <= u64::MAX));
    assert(enc == null_bytes(vs) + fixed_region(cols, vs) + var_region(vs));
    lemma_region_split(
        bytes,
        start,
        null_bytes(vs) + fixed_region(cols, vs),
        var_region(vs),
    );
    lemma_region_split(bytes, start, null_bytes(vs), fixed_region(cols, vs));
    assert(null_bytes(vs) + fixed_region(cols, vs) + var_region(vs) =~= (null_bytes(vs)
        + fixed_region(cols, vs)) + var_region(vs));
    assert(bytes.subrange(start, start + n + fixed_len(cols)) == null_bytes(vs) + fixed_region(
        cols,
        vs,
    ));
    lemma_dec_cells_encode(cols, vs, bytes, start, start + n, start + n + fixed_len(cols));
}

/// Round trip at the start of a buffer holding exactly one encoded row:
/// `decode_row(schema, encode_row(schema, values)) == values`.
pub proof fn lemma_codec_round_trip(cols: Seq<ColumnDef>, vs: Seq<ValueModel>)
    requires
        valid_row(cols, vs),
        spec_encode_row(cols, vs).len() <= ROW_CAPACITY,
    ensures
        spec_decode_row(cols, spec_encode_row(cols, vs), 0) == Some(
            (vs, spec_encode_row(cols, vs).len() as int),
        ),
{
    let enc = spec_encode_row(cols, vs);
    assert(enc.subrange(0, enc.len() as int) =~= enc);
    lemma_decode_embedded(cols, vs, enc, 0);
}

} // verus!
