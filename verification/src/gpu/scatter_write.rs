//! A compute pass that writes scattered rows: the rows' indices and their values are uploaded as two
//! contiguous arrays, and each invocation copies one row to its place.
use vstd::bytes::u32_to_le_bytes;
use vstd::prelude::*;

verus! {

use vstd::bytes::spec_u32_to_le_bytes;

/// Invocations of a workgroup.
pub const WORKGROUP_SIZE: u32 = 64;

/// What is needed to run the pass.
#[derive(Debug)]
pub struct ScatterDispatch {
    /// The uniform parameters: words per row, then number of rows.
    pub params: Vec<u8>,
    pub workgroups: u32,
}

/// The workgroups that `count` rows take.
pub open spec fn workgroups_for(count: int) -> int {
    (count + 63) / 64
}

/// How to run the pass for `dirty_count` rows of `words_per_element` words; `None` if there is
/// nothing to write.
pub fn scatter_dispatch(words_per_element: u32, dirty_count: u32) -> (dispatch: Option<
    ScatterDispatch,
>)
    ensures
        match dispatch {
            Some(d) => {
                &&& dirty_count > 0
                &&& d.params@ == spec_u32_to_le_bytes(words_per_element) + spec_u32_to_le_bytes(
                    dirty_count,
                )
                &&& d.workgroups == workgroups_for(dirty_count as int)
            },
            None => dirty_count == 0,
        },
{
    if dirty_count == 0 {
        return None;
    }
    let mut params = u32_to_le_bytes(words_per_element);
    let mut count = u32_to_le_bytes(dirty_count);
    params.append(&mut count);
    let whole: u32 = dirty_count / WORKGROUP_SIZE;
    let workgroups: u32 = if dirty_count % WORKGROUP_SIZE == 0 {
        whole
    } else {
        whole + 1
    };
    Some(ScatterDispatch { params, workgroups })
}

/// There is an invocation for every row, and no workgroup without a row.
pub proof fn law_workgroups_cover_all_rows(count: int)
    requires
        0 < count,
    ensures
        workgroups_for(count) * 64 >= count,
        (workgroups_for(count) - 1) * 64 < count,
{
}

} // verus!
