use vstd::prelude::*;

verus! {

/// The half-open window `[lo, hi)` that an inclusive index range `start..=stop`
/// picks out of a sequence of length `n`: a negative index counts from the end,
/// a start before the beginning is moved to it, a stop past the end is moved to
/// the last element, and an inverted or out-of-range window is empty `(0, 0)`.
pub open spec fn index_window(n: int, start: i64, stop: i64) -> (int, int) {
    let lo: int = if start < 0 {
        if n + start < 0 {
            0
        } else {
            n + start
        }
    } else {
        start as int
    };
    let hi: int = if stop < 0 {
        n + stop + 1
    } else if stop >= n {
        n
    } else {
        stop + 1
    };
    if lo >= hi || lo >= n {
        (0, 0)
    } else {
        (lo, hi)
    }
}

/// The half-open window `[start, end)` of a slice request on a sequence of length
/// `n`; a missing end means the length, an end past it is moved to it, and an
/// empty or inverted window is `(0, 0)`.
pub open spec fn slice_window(n: int, start: usize, end: Option<usize>) -> (int, int) {
    let e: int = match end {
        Some(e) => if e > n {
            n
        } else {
            e as int
        },
        None => n,
    };
    if start >= e {
        (0, 0)
    } else {
        (start as int, e)
    }
}

pub fn window(n: usize, start: i64, stop: i64) -> (r: (usize, usize))
    ensures
        (r.0 as int, r.1 as int) == index_window(n as int, start, stop),
        r.0 <= r.1 <= n,
{
    let nn: i128 = n as i128;
    let lo: i128 = if start < 0 {
        if nn + (start as i128) < 0 {
            0
        } else {
            nn + (start as i128)
        }
    } else {
        start as i128
    };
    let hi: i128 = if stop < 0 {
        nn + (stop as i128) + 1
    } else if (stop as i128) >= nn {
        nn
    } else {
        (stop as i128) + 1
    };
    if lo >= hi || lo >= nn {
        (0, 0)
    } else {
        (lo as usize, hi as usize)
    }
}

pub fn slice_bounds(n: usize, start: usize, end: Option<usize>) -> (r: (usize, usize))
    ensures
        (r.0 as int, r.1 as int) == slice_window(n as int, start, end),
        r.0 <= r.1 <= n,
{
    let e: usize = match end {
        Some(e) => if e > n {
            n
        } else {
            e
        },
        None => n,
    };
    if start >= e {
        (0, 0)
    } else {
        (start, e)
    }
}

} // verus!
