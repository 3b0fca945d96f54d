use vstd::prelude::*;

verus! {

/// The number of frames of the next export block starting at `playhead`: a
/// whole buffer, or the rest of the range when less is left, or nothing once
/// the end is reached.
pub fn next_export_block(playhead: usize, end_sample: usize, buffer_size: usize) -> (frames: Option<usize>)
    ensures
        playhead >= end_sample ==> frames is None,
        playhead < end_sample ==> frames == Some(
            if end_sample - playhead < buffer_size {
                (end_sample - playhead) as usize
            } else {
                buffer_size
            },
        ),
{
    if playhead < end_sample {
        let left = end_sample - playhead;
        Some(if left < buffer_size { left } else { buffer_size })
    } else {
        None
    }
}

/// Where the export stands after `n` blocks, starting from `start`.
pub open spec fn export_position(start: int, end: int, buffer_size: int, n: nat) -> int
    decreases n,
{
    if n == 0 {
        start
    } else {
        let p = export_position(start, end, buffer_size, (n - 1) as nat);
        if p < end {
            p + if end - p < buffer_size {
                end - p
            } else {
                buffer_size
            }
        } else {
            p
        }
    }
}

/// After `n` blocks an export of `[start, end)` has rendered `n` whole
/// buffers, or the whole range once that is less: it never runs past the end
/// and, with a buffer of at least one frame, reaches it.
pub proof fn lemma_export_position(start: int, end: int, buffer_size: int, n: nat)
    requires
        start <= end,
        buffer_size > 0,
    ensures
        export_position(start, end, buffer_size, n) == if start + n * buffer_size < end {
            start + n * buffer_size
        } else {
            end
        },
    decreases n,
{
    if n == 0 {
        assert(n * buffer_size == 0) by (nonlinear_arith)
            requires
                n == 0,
        ;
    } else {
        lemma_export_position(start, end, buffer_size, (n - 1) as nat);
        let m = (n - 1) * buffer_size;
        assert(m + buffer_size == n * buffer_size) by (nonlinear_arith)
            requires
                m == (n - 1) * buffer_size,
        ;
        assert(m >= 0) by (nonlinear_arith)
            requires
                m == (n - 1) * buffer_size,
                n >= 1,
                buffer_size > 0,
        ;
        let p = export_position(start, end, buffer_size, (n - 1) as nat);
        assert(export_position(start, end, buffer_size, n) == if p < end {
            p + if end - p < buffer_size {
                end - p
            } else {
                buffer_size
            }
        } else {
            p
        });
    }
}

} // verus!
