//! The relations of a filter pass: whether the bytes now at an address have
//! changed, stayed, grown or shrunk against the bytes stored, read as a value
//! of the declared type.

use crate::model::{DataType, Relation};
use crate::numeric::{
    float_is_nan, float_key, float_order_key, le_signed, le_value, lemma_le_value_bound,
    lemma_pow256_values, read_signed, read_unsigned, F32_INFINITY, F32_SIGN, F64_INFINITY,
    F64_SIGN,
};
use vstd::prelude::*;
use vstd::utf8::valid_utf8;

verus! {

/// The number by which values of a numeric type are compared: the integer
/// itself, or for a float a key in the floats' own order. `None` where
/// `bytes` has not the type's width, where it is a NaN, and for every type
/// that is not numeric.
pub open spec fn sort_key(t: DataType, bytes: Seq<u8>) -> Option<int> {
    if t.numeric_width() != Some(bytes.len()) {
        None
    } else {
        match t {
            DataType::Int8 | DataType::Int16 | DataType::Int32 | DataType::Int64 => Some(
                le_signed(bytes),
            ),
            DataType::UInt8 | DataType::UInt16 | DataType::UInt32 | DataType::UInt64 => Some(
                le_value(bytes) as int,
            ),
            DataType::Float => if float_is_nan(
                le_value(bytes),
                F32_SIGN as nat,
                F32_INFINITY as nat,
            ) {
                None
            } else {
                Some(float_key(le_value(bytes), F32_SIGN as nat))
            },
            DataType::Double => if float_is_nan(
                le_value(bytes),
                F64_SIGN as nat,
                F64_INFINITY as nat,
            ) {
                None
            } else {
                Some(float_key(le_value(bytes), F64_SIGN as nat))
            },
            _ => None,
        }
    }
}

/// The text that `bytes` holds as UTF-8: the bytes themselves where they are
/// well formed, and the empty text where they are not.
pub open spec fn utf8_text(bytes: Seq<u8>) -> Seq<u8> {
    if valid_utf8(bytes) {
        bytes
    } else {
        Seq::empty()
    }
}

/// The whole 16-bit units of `bytes`: all of it but an odd last byte.
pub open spec fn utf16_units(bytes: Seq<u8>) -> Seq<u8> {
    bytes.take(bytes.len() - bytes.len() % 2)
}

/// Whether `new` and `old` are the same value of type `t`. Two numbers are
/// the same where both have the type's width and equal keys, so a NaN is the
/// same as nothing, itself included. Regex and unnamed types have no values
/// to compare.
pub open spec fn same_value(t: DataType, old: Seq<u8>, new: Seq<u8>) -> bool {
    match t {
        DataType::Utf8 => utf8_text(new) == utf8_text(old),
        DataType::Utf16 => utf16_units(new) == utf16_units(old),
        DataType::Aob => new == old,
        DataType::Regex | DataType::Other => false,
        _ => sort_key(t, new) is Some && sort_key(t, new) == sort_key(t, old),
    }
}

/// Whether `relation` holds between the bytes `new`, read now, and the bytes
/// `old`, stored before, both read as values of type `t`.
///
/// Of a numeric type nothing holds unless both have the type's width. Text
/// and byte patterns have no order: only `Changed` and `Unchanged` can hold
/// of them. `Exact` is no comparison with the stored value and holds of
/// nothing here.
pub open spec fn relation_holds(t: DataType, relation: Relation, old: Seq<u8>, new: Seq<u8>) -> bool {
    match t {
        DataType::Utf8 | DataType::Utf16 | DataType::Aob => match relation {
            Relation::Changed => !same_value(t, old, new),
            Relation::Unchanged => same_value(t, old, new),
            _ => false,
        },
        DataType::Regex | DataType::Other => false,
        _ => t.numeric_width() == Some(old.len()) && t.numeric_width() == Some(new.len()) && (
        match relation {
            Relation::Changed => !same_value(t, old, new),
            Relation::Unchanged => same_value(t, old, new),
            Relation::Increased => sort_key(t, new) is Some && sort_key(t, old) is Some
                && sort_key(t, new).unwrap() > sort_key(t, old).unwrap(),
            Relation::Decreased => sort_key(t, new) is Some && sort_key(t, old) is Some
                && sort_key(t, new).unwrap() < sort_key(t, old).unwrap(),
            _ => false,
        }),
    }
}

/// Text and byte patterns are never found increased or decreased, whatever
/// the bytes.
pub proof fn lemma_text_has_no_order(t: DataType, relation: Relation, old: Seq<u8>, new: Seq<u8>)
    requires
        t == DataType::Utf8 || t == DataType::Utf16 || t == DataType::Aob,
        relation == Relation::Increased || relation == Relation::Decreased,
    ensures
        !relation_holds(t, relation, old, new),
{
}

/// A value is unchanged against itself, unless it is a number of the wrong
/// width, a NaN, or of a type without values.
pub proof fn lemma_unchanged_is_reflexive(t: DataType, bytes: Seq<u8>)
    ensures
        relation_holds(t, Relation::Unchanged, bytes, bytes) <==> same_value(t, bytes, bytes),
        same_value(t, bytes, bytes) <==> (match t {
            DataType::Utf8 | DataType::Utf16 | DataType::Aob => true,
            DataType::Regex | DataType::Other => false,
            _ => sort_key(t, bytes) is Some,
        }),
{
}

/// `std::str::from_utf8` on a byte slice: whether the bytes are well-formed
/// UTF-8.
#[verifier::external_body]
pub(crate) fn is_utf8(bytes: &[u8]) -> (ok: bool)
    ensures
        ok == valid_utf8(bytes@),
{
    std::str::from_utf8(bytes).is_ok()
}

/// Whether the first `count` bytes of `a` and of `b` are the same.
fn same_prefix(a: &[u8], b: &[u8], count: usize) -> (same: bool)
    requires
        count <= a@.len(),
        count <= b@.len(),
    ensures
        same == (a@.take(count as int) == b@.take(count as int)),
{
    let mut i: usize = 0;
    while i < count
        invariant
            i <= count,
            count <= a@.len(),
            count <= b@.len(),
            a@.take(i as int) == b@.take(i as int),
        decreases count - i,
    {
        if a[i] != b[i] {
            proof {
                assert(a@.take(count as int)[i as int] != b@.take(count as int)[i as int]);
            }
            return false;
        }
        proof {
            assert(a@.take(i + 1) =~= a@.take(i as int).push(a@[i as int]));
            assert(b@.take(i + 1) =~= b@.take(i as int).push(b@[i as int]));
        }
        i = i + 1;
    }
    true
}

/// Whether two byte strings are the same.
pub fn same_bytes(a: &[u8], b: &[u8]) -> (same: bool)
    ensures
        same == (a@ == b@),
{
    if a.len() != b.len() {
        return false;
    }
    proof {
        assert(a@.take(a@.len() as int) =~= a@);
        assert(b@.take(b@.len() as int) =~= b@);
    }
    same_prefix(a, b, a.len())
}

/// The key by which `bytes` is compared as a value of type `t`.
pub fn key_of(t: DataType, bytes: &[u8]) -> (key: Option<i128>)
    ensures
        key is Some <==> sort_key(t, bytes@) is Some,
        key matches Some(k) ==> sort_key(t, bytes@) == Some(k as int),
{
    let width = match t.width() {
        Some(w) => w,
        None => {
            return None;
        },
    };
    if bytes.len() != width {
        return None;
    }
    proof {
        lemma_le_value_bound(bytes@);
        lemma_pow256_values();
    }
    match t {
        DataType::Int8 | DataType::Int16 | DataType::Int32 | DataType::Int64 => Some(
            read_signed(bytes) as i128,
        ),
        DataType::UInt8 | DataType::UInt16 | DataType::UInt32 | DataType::UInt64 => Some(
            read_unsigned(bytes) as i128,
        ),
        DataType::Float => float_order_key(read_unsigned(bytes), F32_SIGN, F32_INFINITY),
        DataType::Double => float_order_key(read_unsigned(bytes), F64_SIGN, F64_INFINITY),
        _ => None,
    }
}

/// Whether `new` and `old` are the same value of type `t`.
pub fn same_as(t: DataType, old: &[u8], new: &[u8]) -> (same: bool)
    ensures
        same == same_value(t, old@, new@),
{
    match t {
        DataType::Utf8 => {
            let old_ok = is_utf8(old);
            let new_ok = is_utf8(new);
            proof {
                assert(old@.len() == 0 <==> old@ =~= Seq::<u8>::empty());
                assert(new@.len() == 0 <==> new@ =~= Seq::<u8>::empty());
            }
            if old_ok && new_ok {
                same_bytes(new, old)
            } else if old_ok {
                old.len() == 0
            } else if new_ok {
                new.len() == 0
            } else {
                true
            }
        },
        DataType::Utf16 => {
            let old_len = old.len() - old.len() % 2;
            let new_len = new.len() - new.len() % 2;
            if old_len != new_len {
                proof {
                    assert(utf16_units(old@).len() == old_len);
                    assert(utf16_units(new@).len() == new_len);
                }
                false
            } else {
                same_prefix(new, old, old_len)
            }
        },
        DataType::Aob => same_bytes(new, old),
        DataType::Regex | DataType::Other => false,
        _ => {
            match key_of(t, new) {
                Some(now) => match key_of(t, old) {
                    Some(before) => now == before,
                    None => false,
                },
                None => false,
            }
        },
    }
}

/// Whether `relation` holds between the bytes `new`, read now, and the bytes
/// `old`, stored before, as values of type `t`.
pub fn compare_values(t: DataType, relation: Relation, old: &[u8], new: &[u8]) -> (holds: bool)
    ensures
        holds == relation_holds(t, relation, old@, new@),
{
    match t {
        DataType::Utf8 | DataType::Utf16 | DataType::Aob => match relation {
            Relation::Changed => !same_as(t, old, new),
            Relation::Unchanged => same_as(t, old, new),
            _ => false,
        },
        DataType::Regex | DataType::Other => false,
        _ => {
            let width = match t.width() {
                Some(w) => w,
                None => {
                    return false;
                },
            };
            if old.len() != width || new.len() != width {
                return false;
            }
            match relation {
                Relation::Changed => !same_as(t, old, new),
                Relation::Unchanged => same_as(t, old, new),
                Relation::Increased => match key_of(t, new) {
                    Some(now) => match key_of(t, old) {
                        Some(before) => now > before,
                        None => false,
                    },
                    None => false,
                },
                Relation::Decreased => match key_of(t, new) {
                    Some(now) => match key_of(t, old) {
                        Some(before) => now < before,
                        None => false,
                    },
                    None => false,
                },
                _ => false,
            }
        },
    }
}

} // verus!
