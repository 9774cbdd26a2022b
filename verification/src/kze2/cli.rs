//! Reading the command-line values of the KZE2 experiment.
use crate::text::{parse_unsigned, parse_unsigned_spec};
use vstd::prelude::*;
use vstd::string::StringExecFns;

verus! {

/// The argument at `*idx`, which then moves past it.
pub fn next_arg(args: &[String], idx: &mut usize, flag: &str) -> (r: Result<String, String>)
    ensures
        *old(idx) >= args@.len() ==> r is Err && *final(idx) == *old(idx),
        *old(idx) < args@.len() ==> r == Ok::<String, String>(args@[*old(idx) as int]) && *final(idx)
            == *old(idx) + 1,
{
    if *idx >= args.len() {
        let mut msg = String::from_str("missing value after ");
        msg.append(flag);
        return Err(msg);
    }
    let value = args[*idx].clone();
    *idx += 1;
    Ok(value)
}

/// The error text for a value that does not parse.
fn invalid_value(flag: &str, value: &str) -> (r: String)
    ensures
        r@ == "invalid "@ + flag@ + " value: "@ + value@,
{
    let mut msg = String::from_str("invalid ");
    msg.append(flag);
    msg.append(" value: ");
    msg.append(value);
    proof {
        assert(msg@ =~= "invalid "@ + flag@ + " value: "@ + value@);
    }
    msg
}

/// Reads a `usize`, as `str::parse::<usize>` does.
pub fn parse_usize(value: &str, flag: &str) -> (r: Result<usize, String>)
    ensures
        match parse_unsigned_spec(value@, usize::MAX as int) {
            Some(v) => r == Ok::<usize, String>(v as usize),
            None => r is Err,
        },
{
    let ghost body = crate::text::unsigned_body(value@);
    match parse_unsigned(value) {
        Some(v) => {
            if v > usize::MAX as u64 {
                assert(parse_unsigned_spec(value@, usize::MAX as int) is None);
                return Err(invalid_value(flag, value));
            }
            assert(parse_unsigned_spec(value@, usize::MAX as int) == Some(v as int));
            Ok(v as usize)
        },
        None => {
            proof {
                if parse_unsigned_spec(value@, usize::MAX as int) is Some {
                    assert(parse_unsigned_spec(value@, u64::MAX as int) is Some);
                }
            }
            Err(invalid_value(flag, value))
        },
    }
}

/// Reads a `u64`, as `str::parse::<u64>` does.
pub fn parse_u64(value: &str, flag: &str) -> (r: Result<u64, String>)
    ensures
        match parse_unsigned_spec(value@, u64::MAX as int) {
            Some(v) => r == Ok::<u64, String>(v as u64),
            None => r is Err,
        },
{
    match parse_unsigned(value) {
        Some(v) => Ok(v),
        None => Err(invalid_value(flag, value)),
    }
}

} // verus!
