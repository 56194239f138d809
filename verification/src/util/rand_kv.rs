//! Keys and values for trials, numbered.

use crate::util::decimal::{format_padded, zero_padded};
use vstd::prelude::*;

verus! {

/// The ASCII bytes of `bitcask-key-`.
pub open spec fn key_stem() -> Seq<u8> {
    seq![98u8, 105, 116, 99, 97, 115, 107, 45, 107, 101, 121, 45]
}

/// The ASCII bytes of `bitcask-value-`.
pub open spec fn value_stem() -> Seq<u8> {
    seq![98u8, 105, 116, 99, 97, 115, 107, 45, 118, 97, 108, 117, 101, 45]
}

/// The number `i` in nine characters: zeros in front, and a minus sign
/// before them for a negative number.
pub open spec fn numbered(i: int) -> Seq<u8> {
    if i < 0 {
        seq![45u8] + zero_padded((-i) as nat, 8)
    } else {
        zero_padded(i as nat, 9)
    }
}

fn push_number(out: &mut Vec<u8>, i: i32)
    ensures
        final(out)@ == old(out)@ + numbered(i as int),
{
    if i < 0 {
        out.push(45u8);
        let magnitude: u64 = (-(i as i64)) as u64;
        let digits = format_padded(magnitude, 8);
        out.extend_from_slice(digits.as_slice());
        assert(out@ =~= old(out)@ + numbered(i as int));
    } else {
        let digits = format_padded(i as u64, 9);
        out.extend_from_slice(digits.as_slice());
    }
}

/// The key of trial `i`: `bitcask-key-` and the number in nine characters.
pub fn get_test_key(i: i32) -> (key: Vec<u8>)
    ensures
        key@ == key_stem() + numbered(i as int),
{
    let mut key: Vec<u8> = vec![98u8, 105, 116, 99, 97, 115, 107, 45, 107, 101, 121, 45];
    assert(key@ =~= key_stem());
    push_number(&mut key, i);
    key
}

/// The value of trial `i`: `bitcask-value-` and the number in nine characters.
pub fn get_test_value(i: i32) -> (value: Vec<u8>)
    ensures
        value@ == value_stem() + numbered(i as int),
{
    let mut value: Vec<u8> = vec![98u8, 105, 116, 99, 97, 115, 107, 45, 118, 97, 108, 117, 101, 45];
    assert(value@ =~= value_stem());
    push_number(&mut value, i);
    value
}

} // verus!
