//! The clamped index window around a position of a token sequence.
use std::ops::Range;
use vstd::prelude::*;

verus! {

/// First index of the window of radius `w` around `i`.
pub open spec fn window_start(w: int, i: int) -> int {
    if i >= w { i - w } else { 0 }
}

/// One past the last index of the window of radius `w` around `i`, in a
/// sequence of `len` items.
pub open spec fn window_end(w: int, i: int, len: int) -> int {
    if i + w + 1 <= len { i + w + 1 } else { len }
}

/// The half-open range `[max(0, i - w), min(len, i + w + 1))`.
pub fn get_window_range(window_size: usize, index: usize, words_length: usize) -> (r: Range<usize>)
    ensures
        r.start == window_start(window_size as int, index as int),
        r.end == window_end(window_size as int, index as int, words_length as int),
{
    let window_start = index.saturating_sub(window_size);
    let window_end = if index as u128 + window_size as u128 + 1 <= words_length as u128 {
        index + window_size + 1
    } else {
        words_length
    };
    window_start..window_end
}

} // verus!
