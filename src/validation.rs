//! Checks on an uploaded file before its contents are parsed.

use vstd::prelude::*;
use vstd::string::*;
use crate::fields::ascii_ci_eq;
use crate::text::{chars_of, decimal, push_decimal};

verus! {

/// The largest accepted upload, in bytes (100 MiB).
pub const MAX_FILE_SIZE: u64 = 104857600;

pub open spec fn file_size_message(size: nat) -> Seq<char> {
    "File size "@ + decimal(size) + " bytes exceeds maximum allowed size of "@
        + decimal(MAX_FILE_SIZE as nat) + " bytes"@
}

/// Accepts a file of at most `MAX_FILE_SIZE` bytes.
pub fn validate_file_size(size: u64) -> (r: Result<(), String>)
    ensures
        r is Ok <==> size <= MAX_FILE_SIZE,
        r matches Err(m) ==> m@ == file_size_message(size as nat),
{
    if size > MAX_FILE_SIZE {
        let mut m = String::from_str("File size ");
        push_decimal(&mut m, size);
        m.append(" bytes exceeds maximum allowed size of ");
        push_decimal(&mut m, MAX_FILE_SIZE);
        m.append(" bytes");
        return Err(m);
    }
    Ok(())
}

/// The name ends in `.csv`, in any case of its ASCII letters.
pub open spec fn has_csv_extension(name: Seq<char>) -> bool {
    name.len() >= 4 && ascii_ci_eq(name.skip(name.len() - 4), ".csv"@)
}

/// Accepts a file name that ends in `.csv`, in any case.
pub fn validate_csv_extension(filename: &str) -> (r: Result<(), String>)
    ensures
        r is Ok <==> has_csv_extension(filename@),
        r matches Err(m) ==> m@ == "File must have .csv extension"@,
{
    let cs = chars_of(filename);
    let n = cs.len();
    let ok = if n < 4 {
        false
    } else {
        let mut tail: Vec<char> = Vec::new();
        let mut i: usize = n - 4;
        while i < n
            invariant
                n >= 4,
                n - 4 <= i <= n == cs@.len(),
                tail@ == cs@.subrange(n - 4, i as int),
            decreases n - i,
        {
            tail.push(cs[i]);
            i = i + 1;
            assert(tail@ =~= cs@.subrange(n - 4, i as int));
        }
        assert(tail@ =~= filename@.skip(n - 4));
        crate::fields::ci_eq(&tail, ".csv")
    };
    if ok {
        Ok(())
    } else {
        Err(String::from_str("File must have .csv extension"))
    }
}

} // verus!
