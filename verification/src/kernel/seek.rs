//! Where a seek puts a file's offset.

use vstd::prelude::*;
use crate::errors::{SysError, SysErrorKind};

verus! {

/// What a seek offset counts from.
#[derive(Debug, Clone, Copy, PartialEq, Eq, Structural)]
pub enum SeekFrom {
    /// The start of the file.
    Begin,
    /// The current offset.
    Current,
    /// The end of the file.
    End,
}

/// The new offset a seek asks for, when it is a valid offset: the base
/// (0, the current offset or the size) must fit an `i64`, the sum must not
/// overflow, and the result must not be negative.
pub open spec fn spec_seek(cur_pos: u64, offset: i64, size: u64, pos: SeekFrom) -> Option<u64> {
    let base: int = match pos {
        SeekFrom::Begin => 0,
        SeekFrom::Current => cur_pos as int,
        SeekFrom::End => size as int,
    };
    let target = base + offset;
    if base > i64::MAX || target > i64::MAX || target < i64::MIN || target < 0 {
        None
    } else {
        Some(target as u64)
    }
}

/// A seek lands on its base plus the offset whenever that sum is an offset
/// a file can have (from 0 up to `i64::MAX`) and the base fits an `i64`,
/// and is refused otherwise: from the start the base is 0 (so a seek to 0
/// rewinds), from the current offset it is `cur_pos`, from the end it is
/// `size`.
pub proof fn lemma_seek_lands(cur_pos: u64, offset: i64, size: u64)
    ensures
        0 <= offset ==> spec_seek(cur_pos, offset, size, SeekFrom::Begin) == Some(offset as u64),
        offset < 0 ==> spec_seek(cur_pos, offset, size, SeekFrom::Begin) is None,
        cur_pos <= i64::MAX && 0 <= cur_pos + offset <= i64::MAX ==> spec_seek(cur_pos, offset, size, SeekFrom::Current)
            == Some((cur_pos + offset) as u64),
        !(cur_pos <= i64::MAX && 0 <= cur_pos + offset <= i64::MAX) ==> spec_seek(
            cur_pos,
            offset,
            size,
            SeekFrom::Current,
        ) is None,
        size <= i64::MAX && 0 <= size + offset <= i64::MAX ==> spec_seek(cur_pos, offset, size, SeekFrom::End) == Some(
            (size + offset) as u64,
        ),
        !(size <= i64::MAX && 0 <= size + offset <= i64::MAX) ==> spec_seek(cur_pos, offset, size, SeekFrom::End) is None,
{
}

/// The offset a seek by `offset` from `pos` gives, for a file of `size`
/// bytes whose offset is `cur_pos`; an invalid one is `InvalidArgument`.
pub fn calculate_offset(cur_pos: u64, offset: i64, size: u64, pos: SeekFrom) -> (r: Result<u64, SysError>)
    ensures
        spec_seek(cur_pos, offset, size, pos) matches Some(v) ==> r matches Ok(w) && w == v,
        spec_seek(cur_pos, offset, size, pos) is None ==> (r matches Err(e) && e.kind
            == SysErrorKind::InvalidArgument),
{
    let base: u64 = match pos {
        SeekFrom::Begin => 0,
        SeekFrom::Current => cur_pos,
        SeekFrom::End => size,
    };
    if base > i64::MAX as u64 {
        return Err(SysError::from(SysErrorKind::InvalidArgument));
    }
    let b = base as i64;
    let target = match b.checked_add(offset) {
        Some(t) => t,
        None => {
            return Err(SysError::from(SysErrorKind::InvalidArgument));
        },
    };
    if target < 0 {
        return Err(SysError::from(SysErrorKind::InvalidArgument));
    }
    Ok(target as u64)
}

} // verus!
