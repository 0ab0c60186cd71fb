//! GGUF metadata values.

use vstd::prelude::*;
use vstd::string::StringExecFns;

use crate::float::single::{f64_to_f32, single_of_double};
use crate::formats::error::{Fault, FormatError};
use crate::formats::limits::{MAX_ARRAY_DEPTH, MAX_ARRAY_ELEMS};
use crate::formats::read::{
    next_bool, next_f32, next_f64, next_i16, next_i32, next_i64, next_i8, next_string, next_u16,
    next_u32, next_u64, next_u8, reach, read_bool, read_f32, read_f64, read_i16, read_i32, read_i64,
    read_i8, read_string, read_u16, read_u32, read_u64, read_u8, string_reach, ByteReader,
};
use crate::text::{dec, dec_text};

verus! {

/// A metadata value. Floating-point numbers are held as their bits.
#[derive(Debug, PartialEq, Eq)]
pub enum GgufValue {
    U8(u8),
    I8(i8),
    U16(u16),
    I16(i16),
    U32(u32),
    I32(i32),
    F32(u32),
    Bool(bool),
    String(String),
    Array(Vec<GgufValue>),
    U64(u64),
    I64(i64),
    F64(u64),
}

/// The model of a [`GgufValue`].
#[verifier::ext_equal]
pub enum ValueV {
    U8(u8),
    I8(i8),
    U16(u16),
    I16(i16),
    U32(u32),
    I32(i32),
    F32(u32),
    Bool(bool),
    String(Seq<char>),
    Array(Seq<ValueV>),
    U64(u64),
    I64(i64),
    F64(u64),
}

/// The model of a value.
pub open spec fn value_view(v: GgufValue) -> ValueV
    decreases v,
{
    match v {
        GgufValue::U8(x) => ValueV::U8(x),
        GgufValue::I8(x) => ValueV::I8(x),
        GgufValue::U16(x) => ValueV::U16(x),
        GgufValue::I16(x) => ValueV::I16(x),
        GgufValue::U32(x) => ValueV::U32(x),
        GgufValue::I32(x) => ValueV::I32(x),
        GgufValue::F32(x) => ValueV::F32(x),
        GgufValue::Bool(x) => ValueV::Bool(x),
        GgufValue::String(x) => ValueV::String(x@),
        GgufValue::Array(x) => ValueV::Array(
            Seq::new(
                x@.len(),
                |i: int|
                    if 0 <= i < x@.len() {
                        value_view(x@[i])
                    } else {
                        arbitrary()
                    },
            ),
        ),
        GgufValue::U64(x) => ValueV::U64(x),
        GgufValue::I64(x) => ValueV::I64(x),
        GgufValue::F64(x) => ValueV::F64(x),
    }
}

impl View for GgufValue {
    type V = ValueV;

    open spec fn view(&self) -> ValueV {
        value_view(*self)
    }
}

/// How many more levels of arrays a value at `depth` may hold.
pub open spec fn depth_left(depth: nat) -> nat {
    if depth >= MAX_ARRAY_DEPTH {
        0
    } else {
        (MAX_ARRAY_DEPTH - depth) as nat
    }
}

/// The next value, of the type that `type_id` names.
pub open spec fn next_value(data: Seq<u8>, pos: int, type_id: u32, depth: nat) -> Result<
    (ValueV, int),
    Fault,
>
    decreases depth_left(depth), 0nat,
{
    match type_id {
        0 => match next_u8(data, pos) {
            Ok((v, p)) => Ok((ValueV::U8(v), p)),
            Err(e) => Err(e),
        },
        1 => match next_i8(data, pos) {
            Ok((v, p)) => Ok((ValueV::I8(v), p)),
            Err(e) => Err(e),
        },
        2 => match next_u16(data, pos) {
            Ok((v, p)) => Ok((ValueV::U16(v), p)),
            Err(e) => Err(e),
        },
        3 => match next_i16(data, pos) {
            Ok((v, p)) => Ok((ValueV::I16(v), p)),
            Err(e) => Err(e),
        },
        4 => match next_u32(data, pos) {
            Ok((v, p)) => Ok((ValueV::U32(v), p)),
            Err(e) => Err(e),
        },
        5 => match next_i32(data, pos) {
            Ok((v, p)) => Ok((ValueV::I32(v), p)),
            Err(e) => Err(e),
        },
        6 => match next_f32(data, pos) {
            Ok((v, p)) => Ok((ValueV::F32(v), p)),
            Err(e) => Err(e),
        },
        7 => match next_bool(data, pos) {
            Ok((v, p)) => Ok((ValueV::Bool(v), p)),
            Err(e) => Err(e),
        },
        8 => match next_string(data, pos) {
            Ok((v, p)) => Ok((ValueV::String(v), p)),
            Err(e) => Err(e),
        },
        9 => if depth >= MAX_ARRAY_DEPTH {
            Err(
                Fault::LimitExceeded {
                    what: "array nesting depth"@,
                    got: depth + 1,
                    limit: MAX_ARRAY_DEPTH as nat,
                },
            )
        } else {
            match next_u32(data, pos) {
                Err(e) => Err(e),
                Ok((elem_type, p)) => match next_u64(data, p) {
                    Err(e) => Err(e),
                    Ok((count, q)) => if count > MAX_ARRAY_ELEMS {
                        Err(
                            Fault::LimitExceeded {
                                what: "array element count"@,
                                got: count as nat,
                                limit: MAX_ARRAY_ELEMS as nat,
                            },
                        )
                    } else {
                        match next_items(data, q, elem_type, depth + 1, count as nat) {
                            Err(e) => Err(e),
                            Ok((items, z)) => Ok((ValueV::Array(items), z)),
                        }
                    },
                },
            }
        },
        10 => match next_u64(data, pos) {
            Ok((v, p)) => Ok((ValueV::U64(v), p)),
            Err(e) => Err(e),
        },
        11 => match next_i64(data, pos) {
            Ok((v, p)) => Ok((ValueV::I64(v), p)),
            Err(e) => Err(e),
        },
        12 => match next_f64(data, pos) {
            Ok((v, p)) => Ok((ValueV::F64(v), p)),
            Err(e) => Err(e),
        },
        _ => Err(
            Fault::Malformed {
                context: "metadata value type"@,
                detail: "unknown type id "@ + dec(type_id as nat),
            },
        ),
    }
}

/// The next `count` values, all of one type.
pub open spec fn next_items(
    data: Seq<u8>,
    pos: int,
    elem_type: u32,
    depth: nat,
    count: nat,
) -> Result<(Seq<ValueV>, int), Fault>
    decreases depth_left(depth), count + 1,
{
    if count == 0 {
        Ok((Seq::empty(), pos))
    } else {
        match next_items(data, pos, elem_type, depth, (count - 1) as nat) {
            Err(e) => Err(e),
            Ok((items, p)) => match next_value(data, p, elem_type, depth) {
                Err(e) => Err(e),
                Ok((v, q)) => Ok((items.push(v), q)),
            },
        }
    }
}

/// Where a read of a value leaves the reader. A nesting that is refused, and a type
/// that is not known, take no byte; a count beyond the limit is read and nothing behind
/// it.
pub open spec fn value_reach(data: Seq<u8>, pos: int, type_id: u32, depth: nat) -> int
    decreases depth_left(depth), 0nat,
{
    match type_id {
        0 | 1 | 7 => reach(data, pos, 1),
        2 | 3 => reach(data, pos, 2),
        4 | 5 | 6 => reach(data, pos, 4),
        8 => string_reach(data, pos),
        9 => if depth >= MAX_ARRAY_DEPTH {
            pos
        } else {
            match next_u32(data, pos) {
                Err(_) => reach(data, pos, 4),
                Ok((elem_type, p)) => match next_u64(data, p) {
                    Err(_) => reach(data, p, 8),
                    Ok((count, q)) => if count > MAX_ARRAY_ELEMS {
                        q
                    } else {
                        items_reach(data, q, elem_type, depth + 1, count as nat)
                    },
                },
            }
        },
        10 | 11 | 12 => reach(data, pos, 8),
        _ => pos,
    }
}

/// Where a read of `count` values, all of one type, leaves the reader.
pub open spec fn items_reach(
    data: Seq<u8>,
    pos: int,
    elem_type: u32,
    depth: nat,
    count: nat,
) -> int
    decreases depth_left(depth), count + 1,
{
    if count == 0 {
        pos
    } else {
        match next_items(data, pos, elem_type, depth, (count - 1) as nat) {
            Err(_) => items_reach(data, pos, elem_type, depth, (count - 1) as nat),
            Ok((_, p)) => value_reach(data, p, elem_type, depth),
        }
    }
}

/// A fault among the first `k` values is the fault of the whole, and ends the read.
proof fn lemma_items_fault(
    data: Seq<u8>,
    pos: int,
    elem_type: u32,
    depth: nat,
    k: nat,
    count: nat,
)
    requires
        k <= count,
        next_items(data, pos, elem_type, depth, k) is Err,
    ensures
        next_items(data, pos, elem_type, depth, count) == next_items(
            data,
            pos,
            elem_type,
            depth,
            k,
        ),
        items_reach(data, pos, elem_type, depth, count) == items_reach(
            data,
            pos,
            elem_type,
            depth,
            k,
        ),
    decreases count - k,
{
    if k < count {
        lemma_items_fault(data, pos, elem_type, depth, k, (count - 1) as nat);
    }
}

/// What a read of a value returned, with the position that it left.
pub open spec fn value_outcome(r: Result<GgufValue, FormatError>, pos: usize) -> Result<
    (ValueV, int),
    Fault,
> {
    match r {
        Ok(v) => Ok((v@, pos as int)),
        Err(e) => Err(e@),
    }
}

/// The models of a list of values.
pub open spec fn values_view(s: Seq<GgufValue>) -> Seq<ValueV> {
    s.map_values(|v: GgufValue| v@)
}

impl GgufValue {
    /// Reads a value of the type that `type_id` names, inside `depth` arrays.
    pub fn parse(r: &mut ByteReader, type_id: u32, depth: u32) -> (v: Result<Self, FormatError>)
        requires
            old(r).wf(),
        ensures
            final(r).wf(),
            final(r).data == old(r).data,
            final(r).pos == value_reach(old(r).data@, old(r).pos as int, type_id, depth as nat),
            value_outcome(v, final(r).pos) == next_value(
                old(r).data@,
                old(r).pos as int,
                type_id,
                depth as nat,
            ),
        decreases depth_left(depth as nat), 1nat,
    {
        match type_id {
            0 => match read_u8(r) {
                Ok(v) => Ok(GgufValue::U8(v)),
                Err(e) => Err(e),
            },
            1 => match read_i8(r) {
                Ok(v) => Ok(GgufValue::I8(v)),
                Err(e) => Err(e),
            },
            2 => match read_u16(r) {
                Ok(v) => Ok(GgufValue::U16(v)),
                Err(e) => Err(e),
            },
            3 => match read_i16(r) {
                Ok(v) => Ok(GgufValue::I16(v)),
                Err(e) => Err(e),
            },
            4 => match read_u32(r) {
                Ok(v) => Ok(GgufValue::U32(v)),
                Err(e) => Err(e),
            },
            5 => match read_i32(r) {
                Ok(v) => Ok(GgufValue::I32(v)),
                Err(e) => Err(e),
            },
            6 => match read_f32(r) {
                Ok(v) => Ok(GgufValue::F32(v)),
                Err(e) => Err(e),
            },
            7 => match read_bool(r) {
                Ok(v) => Ok(GgufValue::Bool(v)),
                Err(e) => Err(e),
            },
            8 => match read_string(r) {
                Ok(v) => Ok(GgufValue::String(v)),
                Err(e) => Err(e),
            },
            9 => GgufValue::parse_array(r, depth),
            10 => match read_u64(r) {
                Ok(v) => Ok(GgufValue::U64(v)),
                Err(e) => Err(e),
            },
            11 => match read_i64(r) {
                Ok(v) => Ok(GgufValue::I64(v)),
                Err(e) => Err(e),
            },
            12 => match read_f64(r) {
                Ok(v) => Ok(GgufValue::F64(v)),
                Err(e) => Err(e),
            },
            _ => {
                let mut detail = "unknown type id ".to_owned();
                detail.append(dec_text(type_id as u64).as_str());
                Err(FormatError::Malformed { context: "metadata value type", detail })
            },
        }
    }

    /// Reads an array. Its items are read one at a time, so that a count that
    /// lies is found out at the end of the input.
    fn parse_array(r: &mut ByteReader, depth: u32) -> (v: Result<Self, FormatError>)
        requires
            old(r).wf(),
        ensures
            final(r).wf(),
            final(r).data == old(r).data,
            final(r).pos == value_reach(old(r).data@, old(r).pos as int, 9, depth as nat),
            value_outcome(v, final(r).pos) == next_value(
                old(r).data@,
                old(r).pos as int,
                9,
                depth as nat,
            ),
        decreases depth_left(depth as nat), 0nat,
    {
        if depth >= MAX_ARRAY_DEPTH {
            return Err(
                FormatError::LimitExceeded {
                    what: "array nesting depth",
                    got: depth as u64 + 1,
                    limit: MAX_ARRAY_DEPTH as u64,
                },
            );
        }
        let elem_type: u32 = match read_u32(r) {
            Ok(t) => t,
            Err(e) => return Err(e),
        };
        let count: u64 = match read_u64(r) {
            Ok(n) => n,
            Err(e) => return Err(e),
        };
        if count > MAX_ARRAY_ELEMS {
            return Err(
                FormatError::LimitExceeded {
                    what: "array element count",
                    got: count,
                    limit: MAX_ARRAY_ELEMS,
                },
            );
        }
        let ghost data = r.data@;
        let ghost start = r.pos as int;
        let mut items: Vec<GgufValue> = Vec::new();
        let mut i: u64 = 0;
        proof {
            assert(values_view(items@) =~= Seq::<ValueV>::empty());
        }
        while i < count
            invariant
                i <= count,
                depth < MAX_ARRAY_DEPTH,
                r.wf(),
                r.data@ == data,
                r.data == old(r).data,
                next_items(data, start, elem_type, depth as nat + 1, i as nat) == Ok::<
                    (Seq<ValueV>, int),
                    Fault,
                >((values_view(items@), r.pos as int)),
                items_reach(data, start, elem_type, depth as nat + 1, i as nat) == r.pos,
                value_reach(old(r).data@, old(r).pos as int, 9, depth as nat) == items_reach(
                    data,
                    start,
                    elem_type,
                    depth as nat + 1,
                    count as nat,
                ),
                next_value(old(r).data@, old(r).pos as int, 9, depth as nat) == (match next_items(
                    data,
                    start,
                    elem_type,
                    depth as nat + 1,
                    count as nat,
                ) {
                    Err(e) => Err::<(ValueV, int), Fault>(e),
                    Ok((vs, z)) => Ok((ValueV::Array(vs), z)),
                }),
            decreases count - i,
        {
            let ghost before = values_view(items@);
            match GgufValue::parse(r, elem_type, depth + 1) {
                Ok(v) => {
                    items.push(v);
                    proof {
                        assert(values_view(items@) =~= before.push(v@));
                    }
                },
                Err(e) => {
                    proof {
                        lemma_items_fault(
                            data,
                            start,
                            elem_type,
                            depth as nat + 1,
                            i as nat + 1,
                            count as nat,
                        );
                    }
                    return Err(e);
                },
            }
            i += 1;
        }
        let ghost items_seq = items@;
        let v = GgufValue::Array(items);
        proof {
            assert(v@->Array_0 =~= values_view(items_seq));
        }
        Ok(v)
    }

    /// Widens any integer to a `u64`: the width that a writer chose varies.
    pub fn as_u64(&self) -> (r: Option<u64>)
        ensures
            r == as_u64(self@),
    {
        match *self {
            GgufValue::U8(v) => Some(v as u64),
            GgufValue::U16(v) => Some(v as u64),
            GgufValue::U32(v) => Some(v as u64),
            GgufValue::U64(v) => Some(v),
            GgufValue::I8(v) => if v >= 0 {
                Some(v as u64)
            } else {
                None
            },
            GgufValue::I16(v) => if v >= 0 {
                Some(v as u64)
            } else {
                None
            },
            GgufValue::I32(v) => if v >= 0 {
                Some(v as u64)
            } else {
                None
            },
            GgufValue::I64(v) => if v >= 0 {
                Some(v as u64)
            } else {
                None
            },
            _ => None,
        }
    }

    /// The bits of the single-precision number that a value holds.
    pub fn as_f32(&self) -> (r: Option<u32>)
        ensures
            r == as_f32(self@),
    {
        match *self {
            GgufValue::F32(v) => Some(v),
            GgufValue::F64(v) => Some(f64_to_f32(v)),
            _ => None,
        }
    }

    /// The text that a value holds.
    pub fn as_str(&self) -> (r: Option<&str>)
        ensures
            match r {
                Some(s) => as_text(self@) == Some(s@),
                None => as_text(self@) is None,
            },
    {
        match self {
            GgufValue::String(s) => Some(s.as_str()),
            _ => None,
        }
    }

    /// The number of items of an array.
    pub fn array_len(&self) -> (r: Option<u64>)
        ensures
            match r {
                Some(n) => array_len(self@) == Some(n as nat),
                None => array_len(self@) is None,
            },
    {
        match self {
            GgufValue::Array(v) => Some(v.len() as u64),
            _ => None,
        }
    }
}

/// The integer that a value holds, where it is not negative.
pub open spec fn as_u64(v: ValueV) -> Option<u64> {
    match v {
        ValueV::U8(x) => Some(x as u64),
        ValueV::U16(x) => Some(x as u64),
        ValueV::U32(x) => Some(x as u64),
        ValueV::U64(x) => Some(x),
        ValueV::I8(x) => if x >= 0 {
            Some(x as u64)
        } else {
            None
        },
        ValueV::I16(x) => if x >= 0 {
            Some(x as u64)
        } else {
            None
        },
        ValueV::I32(x) => if x >= 0 {
            Some(x as u64)
        } else {
            None
        },
        ValueV::I64(x) => if x >= 0 {
            Some(x as u64)
        } else {
            None
        },
        _ => None,
    }
}

/// The single-precision number that a value holds; a double-precision one is
/// rounded to the nearest.
pub open spec fn as_f32(v: ValueV) -> Option<u32> {
    match v {
        ValueV::F32(x) => Some(x),
        ValueV::F64(x) => Some(single_of_double(x)),
        _ => None,
    }
}

/// The text that a value holds.
pub open spec fn as_text(v: ValueV) -> Option<Seq<char>> {
    match v {
        ValueV::String(s) => Some(s),
        _ => None,
    }
}

/// The number of items of an array.
pub open spec fn array_len(v: ValueV) -> Option<nat> {
    match v {
        ValueV::Array(s) => Some(s.len()),
        _ => None,
    }
}

} // verus!
