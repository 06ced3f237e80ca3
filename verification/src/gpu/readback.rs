//! Which bytes a diagnostic read of device memory copies. Such a read blocks and is never on the way
//! of an ordinary access, which reads host storage only.
use crate::text::push_decimal;
use vstd::prelude::*;
use vstd::string::*;

verus! {

use crate::text::decimal;

/// Why a range cannot be read.
#[derive(Clone, Copy, Debug, PartialEq, Eq, Structural)]
pub enum ReadbackError {
    /// The end precedes the start.
    Reversed,
    /// There is nothing in it.
    Empty,
    /// It reaches beyond the buffer.
    OutOfBounds { start: u64, end: u64, size: u64 },
}

impl ReadbackError {
    /// The message.
    pub open spec fn message(self) -> Seq<char> {
        match self {
            ReadbackError::Reversed => "readback_bytes: range end must not precede start"@,
            ReadbackError::Empty => "readback_bytes: empty range"@,
            ReadbackError::OutOfBounds { start, end, size } => "readback_bytes: range "@ + decimal(
                start as nat,
            ) + ".."@ + decimal(end as nat) + " exceeds buffer size "@ + decimal(size as nat),
        }
    }

    /// The message.
    pub fn describe(&self) -> (text: String)
        ensures
            text@ == self.message(),
    {
        match *self {
            ReadbackError::Reversed => {
                "readback_bytes: range end must not precede start".to_owned()
            },
            ReadbackError::Empty => "readback_bytes: empty range".to_owned(),
            ReadbackError::OutOfBounds { start, end, size } => {
                let mut text = "readback_bytes: range ".to_owned();
                push_decimal(&mut text, start);
                text.append("..");
                push_decimal(&mut text, end);
                text.append(" exceeds buffer size ");
                push_decimal(&mut text, size);
                text
            },
        }
    }
}

/// The length of a range of a buffer of `size` bytes, or why it cannot be read.
pub open spec fn range_len(start: u64, end: u64, size: u64) -> Result<u64, ReadbackError> {
    if end < start {
        Err(ReadbackError::Reversed)
    } else if end == start {
        Err(ReadbackError::Empty)
    } else if end > size {
        Err(ReadbackError::OutOfBounds { start, end, size })
    } else {
        Ok((end - start) as u64)
    }
}

/// The length of the range from `start` to `end` of a buffer of `size` bytes, or why it cannot be
/// read.
pub fn readback_len(start: u64, end: u64, size: u64) -> (len: Result<u64, ReadbackError>)
    ensures
        len == range_len(start, end, size),
{
    if end < start {
        Err(ReadbackError::Reversed)
    } else if end == start {
        Err(ReadbackError::Empty)
    } else if end > size {
        Err(ReadbackError::OutOfBounds { start, end, size })
    } else {
        Ok(end - start)
    }
}

/// The bytes of row `row`, each row taking `stride` bytes: where they start and where they end.
pub fn row_range(row: u32, stride: u64) -> (range: (u64, u64))
    requires
        (row + 1) * stride <= u64::MAX,
    ensures
        range.0 == row * stride,
        range.1 == (row + 1) * stride,
{
    assert(row * stride + stride == (row + 1) * stride) by (nonlinear_arith);
    assert(0 <= row * stride) by (nonlinear_arith);
    let start: u64 = row as u64 * stride;
    (start, start + stride)
}

/// A row within the buffer can always be read, and the read has the length of a row.
pub proof fn law_rows_can_be_read(row: u32, stride: u64, size: u64)
    requires
        0 < stride,
        (row + 1) * stride <= size,
    ensures
        range_len((row * stride) as u64, ((row + 1) * stride) as u64, size) == Ok::<
            u64,
            ReadbackError,
        >(stride),
{
    assert(row * stride + stride == (row + 1) * stride) by (nonlinear_arith);
    assert(0 <= row * stride) by (nonlinear_arith);
}

/// A range can be read if and only if it holds a byte and lies in the buffer; its length is the
/// distance of its ends. Else it is refused for running backward, for being empty, or for its end.
pub proof fn law_only_ranges_in_the_buffer_are_read(start: u64, end: u64, size: u64)
    ensures
        ({
            let len = range_len(start, end, size);
            &&& len is Ok <==> start < end <= size
            &&& len matches Ok(n) ==> start + n == end
            &&& len == Err::<u64, ReadbackError>(ReadbackError::Reversed) <==> end < start
            &&& len == Err::<u64, ReadbackError>(ReadbackError::Empty) <==> end == start
            &&& len == Err::<u64, ReadbackError>(ReadbackError::OutOfBounds { start, end, size })
                <==> start < end && end > size
        }),
{
}

} // verus!
