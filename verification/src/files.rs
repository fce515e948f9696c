//! Block-file name handling.
//!
//! A block store holds files named `blk<digits>.dat`.  The reader driver
//! keeps a path when it contains `/blk` and ends in `.dat`, and attributes
//! records to the numeric index spelled by the five digits before `.dat`.

use vstd::prelude::*;

use crate::codec::ReadError;

verus! {

/// An ASCII decimal digit.
pub open spec fn is_digit(c: u8) -> bool {
    48 <= c <= 57
}

/// The value of the five decimal digits `s[off .. off + 5]`.
pub open spec fn digits5_value(s: Seq<u8>, off: int) -> int {
    (s[off] - 48) * 10000 + (s[off + 1] - 48) * 1000 + (s[off + 2] - 48) * 100 + (s[off + 3] - 48)
        * 10 + (s[off + 4] - 48)
}

/// A name holds a well-placed numeric index: it is at least 9 bytes long
/// and the five bytes before the 4-byte suffix are decimal digits.
pub open spec fn spec_has_index(s: Seq<u8>) -> bool {
    &&& s.len() >= 9
    &&& forall|k: int| s.len() - 9 <= k < s.len() - 4 ==> is_digit(#[trigger] s[k])
}

/// Parses the numeric file index of `blkNNNNN.dat`: the five decimal
/// digits before the `.dat` suffix.
pub fn blk_file_index(name: &[u8]) -> (r: Result<u32, ReadError>)
    ensures
        match r {
            Result::Ok(v) => spec_has_index(name@) && v == digits5_value(
                name@,
                name@.len() - 9,
            ),
            Result::Err(e) => e == ReadError::InvalidFilename && !spec_has_index(name@),
        },
{
    let n: usize = name.len();
    if n < 9 {
        return Result::Err(ReadError::InvalidFilename);
    }
    let off = n - 9;
    let c0 = name[off];
    let c1 = name[off + 1];
    let c2 = name[off + 2];
    let c3 = name[off + 3];
    let c4 = name[off + 4];
    if !(48 <= c0 && c0 <= 57 && 48 <= c1 && c1 <= 57 && 48 <= c2 && c2 <= 57 && 48 <= c3 && c3
        <= 57 && 48 <= c4 && c4 <= 57) {
        return Result::Err(ReadError::InvalidFilename);
    }
    let value: u32 = ((c0 - 48) as u32) * 10000 + ((c1 - 48) as u32) * 1000 + ((c2 - 48) as u32)
        * 100 + ((c3 - 48) as u32) * 10 + ((c4 - 48) as u32);
    Result::Ok(value)
}

/// The name contains `/blk` somewhere.
pub open spec fn spec_has_blk_marker(s: Seq<u8>) -> bool {
    exists|k: int|
        0 <= k && k + 4 <= s.len() && s[k] == 47 && s[k + 1] == 98 && #[trigger] s[k + 2] == 108
            && s[k + 3] == 107
}

/// The name ends in `.dat`.
pub open spec fn spec_ends_dat(s: Seq<u8>) -> bool {
    s.len() >= 4 && s[s.len() - 4] == 46 && s[s.len() - 3] == 100 && s[s.len() - 2] == 97 && s[
        s.len() - 1
    ] == 116
}

/// Whether a path names a block file: it contains `/blk` and ends in
/// `.dat`.
pub fn is_block_file(name: &[u8]) -> (r: bool)
    ensures
        r == (spec_has_blk_marker(name@) && spec_ends_dat(name@)),
{
    let n: usize = name.len();
    if n < 4 {
        return false;
    }
    if !(name[n - 4] == 46 && name[n - 3] == 100 && name[n - 2] == 97 && name[n - 1] == 116) {
        return false;
    }
    let mut k: usize = 0;
    while k <= n - 4
        invariant
            n == name@.len(),
            n >= 4,
            k <= n,
            spec_ends_dat(name@),
            forall|j: int|
                0 <= j < k && j + 4 <= n ==> !(name@[j] == 47 && name@[j + 1] == 98 && #[trigger]
                name@[j + 2] == 108 && name@[j + 3] == 107),
        decreases n - k,
    {
        if name[k] == 47 && name[k + 1] == 98 && name[k + 2] == 108 && name[k + 3] == 107 {
            proof {
                assert(name@[k as int] == 47 && name@[k as int + 1] == 98 && name@[k as int + 2]
                    == 108 && name@[k as int + 3] == 107);
                assert(spec_has_blk_marker(name@));
            }
            return true;
        }
        k = k + 1;
    }
    proof {
        assert(!spec_has_blk_marker(name@));
    }
    false
}

} // verus!
