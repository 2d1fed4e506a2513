//! Values set from outside the audio graph while it runs: rows of flags and
//! of integers, written by index.
use vstd::prelude::*;

verus! {

/// The number of indices a row accepts.
pub const INPUT_BUFFER_ROW_SIZE: usize = 256;

/// An index at or past the row size.
#[derive(Debug, Clone, Copy, PartialEq, Eq, Structural)]
pub struct InputIndexError {
    pub index: usize,
    pub row_size: usize,
}

/// Accepts an index below the row size; refuses any other.
pub fn check_row_index(index: usize) -> (result: Result<(), InputIndexError>)
    ensures
        result is Ok <==> index < INPUT_BUFFER_ROW_SIZE,
        result matches Err(e) ==> e == (InputIndexError { index, row_size: INPUT_BUFFER_ROW_SIZE }),
{
    if index >= INPUT_BUFFER_ROW_SIZE {
        return Err(InputIndexError { index, row_size: INPUT_BUFFER_ROW_SIZE });
    }
    Ok(())
}

/// The flag row and the integer row of an input buffer.
pub struct InputRows {
    pub bool: Vec<bool>,
    pub u32: Vec<u32>,
}

impl InputRows {
    /// Rows of `buffer_size` entries, all `false` and all 0.
    pub fn new(buffer_size: usize) -> (rows: Self)
        ensures
            rows.bool@ == Seq::new(buffer_size as nat, |i: int| false),
            rows.u32@ == Seq::new(buffer_size as nat, |i: int| 0u32),
    {
        let mut flags: Vec<bool> = Vec::new();
        let mut values: Vec<u32> = Vec::new();
        let mut i: usize = 0;
        while i < buffer_size
            invariant
                i <= buffer_size,
                flags@ == Seq::new(i as nat, |j: int| false),
                values@ == Seq::new(i as nat, |j: int| 0u32),
            decreases buffer_size - i,
        {
            flags.push(false);
            values.push(0);
            i = i + 1;
            proof {
                assert(flags@ =~= Seq::new(i as nat, |j: int| false));
                assert(values@ =~= Seq::new(i as nat, |j: int| 0u32));
            }
        }
        InputRows { bool: flags, u32: values }
    }

    /// Sets the flag at `index`; an index at or past the row size is
    /// refused and nothing changes.
    pub fn update_bool(&mut self, index: usize, new_value: bool) -> (result: Result<(), InputIndexError>)
        requires
            index >= INPUT_BUFFER_ROW_SIZE || index < old(self).bool@.len(),
        ensures
            result is Ok <==> index < INPUT_BUFFER_ROW_SIZE,
            result matches Err(e) ==> e == (InputIndexError { index, row_size: INPUT_BUFFER_ROW_SIZE }),
            final(self).bool@ == if index < INPUT_BUFFER_ROW_SIZE {
                old(self).bool@.update(index as int, new_value)
            } else {
                old(self).bool@
            },
            final(self).u32@ == old(self).u32@,
    {
        match check_row_index(index) {
            Ok(()) => {
                self.bool.set(index, new_value);
                Ok(())
            },
            Err(e) => Err(e),
        }
    }

    /// Sets the integer at `index`; an index at or past the row size is
    /// refused and nothing changes.
    pub fn update_u32(&mut self, index: usize, new_value: u32) -> (result: Result<(), InputIndexError>)
        requires
            index >= INPUT_BUFFER_ROW_SIZE || index < old(self).u32@.len(),
        ensures
            result is Ok <==> index < INPUT_BUFFER_ROW_SIZE,
            result matches Err(e) ==> e == (InputIndexError { index, row_size: INPUT_BUFFER_ROW_SIZE }),
            final(self).u32@ == if index < INPUT_BUFFER_ROW_SIZE {
                old(self).u32@.update(index as int, new_value)
            } else {
                old(self).u32@
            },
            final(self).bool@ == old(self).bool@,
    {
        match check_row_index(index) {
            Ok(()) => {
                self.u32.set(index, new_value);
                Ok(())
            },
            Err(e) => Err(e),
        }
    }
}

} // verus!
