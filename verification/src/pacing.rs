//! Durations, speeds and the part of the plane that is worked on.
use vstd::prelude::*;

verus! {

pub const DEFAULT_TICK_MS: u64 = 80;

pub const MIN_TICK_MS: u64 = 10;

pub const MAX_TICK_MS: u64 = 1280;

/// The durations that a stack entry is stepped through.
pub const DURATION_PRESETS: [u32; 9] = [1, 2, 5, 10, 25, 50, 100, 250, 500];

pub open spec fn is_preset(n: u32) -> bool {
    n == 1 || n == 2 || n == 5 || n == 10 || n == 25 || n == 50 || n == 100 || n == 250 || n == 500
}

/// The smallest preset above the duration; past the largest comes `None`
/// (infinite).
pub open spec fn is_next_preset(current: Option<u32>, next: Option<u32>) -> bool {
    match (current, next) {
        (None, next) => next is None,
        (Some(n), Some(m)) => is_preset(m) && n < m && forall|k: u32| #[trigger]
            is_preset(k) && n < k ==> m <= k,
        (Some(n), None) => forall|k: u32| #[trigger] is_preset(k) ==> k <= n,
    }
}

/// The largest preset below the duration, or the duration itself where there
/// is none; from infinite, the largest.
pub open spec fn is_prev_preset(current: Option<u32>, prev: Option<u32>) -> bool {
    match (current, prev) {
        (None, prev) => prev == Some(500u32),
        (Some(n), Some(m)) => if exists|k: u32| #[trigger] is_preset(k) && k < n {
            is_preset(m) && m < n && forall|k: u32| #[trigger] is_preset(k) && k < n ==> k <= m
        } else {
            m == n
        },
        (Some(_), None) => false,
    }
}

/// No preset lies between the `i`-th and those next to it.
proof fn lemma_preset(i: int)
    requires
        0 <= i < 9,
    ensures
        is_preset(DURATION_PRESETS@[i]),
        forall|k: u32| #[trigger]
            is_preset(k) ==> k <= DURATION_PRESETS@[i] || (i < 8 && DURATION_PRESETS@[i + 1] <= k),
        forall|k: u32| #[trigger]
            is_preset(k) ==> k >= DURATION_PRESETS@[i] || (i > 0 && DURATION_PRESETS@[i - 1] >= k),
{
    let all = seq![1u32, 2, 5, 10, 25, 50, 100, 250, 500];
    assert(DURATION_PRESETS@ =~= all);
    assert(all[0] == 1 && all[1] == 2 && all[2] == 5 && all[3] == 10 && all[4] == 25 && all[5]
        == 50 && all[6] == 100 && all[7] == 250 && all[8] == 500);
}

/// Step up through the presets; past the largest comes `None` (infinite).
pub fn next_preset(current: Option<u32>) -> (r: Option<u32>)
    ensures
        is_next_preset(current, r),
{
    let n: u32 = match current {
        Some(n) => n,
        None => {
            return None;
        },
    };
    let mut i: usize = 0;
    while i < 9
        invariant
            i <= 9,
            current == Some(n),
            forall|j: int| 0 <= j < i ==> #[trigger] DURATION_PRESETS@[j] <= n,
        decreases 9 - i,
    {
        let preset: u32 = DURATION_PRESETS[i];
        if preset > n {
            proof {
                lemma_preset(i as int);
                assert(i > 0 ==> DURATION_PRESETS@[i - 1] <= n);
            }
            return Some(preset);
        }
        i = i + 1;
    }
    assert(DURATION_PRESETS@[8] <= n);
    None
}

/// Step down through the presets; from infinite, back to the largest.
pub fn prev_preset(current: Option<u32>) -> (r: Option<u32>)
    ensures
        is_prev_preset(current, r),
{
    let n: u32 = match current {
        Some(n) => n,
        None => {
            return Some(DURATION_PRESETS[8]);
        },
    };
    let mut i: usize = 9;
    while i > 0
        invariant
            i <= 9,
            current == Some(n),
            forall|j: int| i <= j < 9 ==> #[trigger] DURATION_PRESETS@[j] >= n,
        decreases i,
    {
        i = i - 1;
        let preset: u32 = DURATION_PRESETS[i];
        if preset < n {
            proof {
                lemma_preset(i as int);
                assert(is_preset(preset));
                assert(i < 8 ==> DURATION_PRESETS@[i + 1] >= n);
            }
            return Some(preset);
        }
    }
    assert(DURATION_PRESETS@[0] >= n);
    Some(n)
}

/// Stepping up from a preset and down again leads back to it.
pub proof fn law_presets_step_back(preset: u32, next: Option<u32>)
    requires
        is_preset(preset),
        is_next_preset(Some(preset), next),
    ensures
        is_prev_preset(next, Some(preset)),
{
    assert(is_preset(500));
    assert(is_preset(preset));
}

/// Stepping down from a duration above the smallest preset goes down, and
/// stepping up goes up or to infinite.
pub proof fn law_presets_move(n: u32, next: Option<u32>, prev: Option<u32>)
    requires
        is_next_preset(Some(n), next),
        is_prev_preset(Some(n), prev),
    ensures
        next matches Some(m) ==> n < m,
        next is None <==> n >= 500,
        prev matches Some(m) && m <= n,
        prev == Some(n) <==> n <= 1,
{
    assert(is_preset(1) && is_preset(500));
}

/// Twice the time per tick, up to the most.
pub fn slower(tick_ms: u64) -> (r: u64)
    requires
        tick_ms <= MAX_TICK_MS,
    ensures
        r == (if tick_ms * 2 < MAX_TICK_MS {
            tick_ms * 2
        } else {
            MAX_TICK_MS as int
        }),
{
    if tick_ms * 2 < MAX_TICK_MS {
        tick_ms * 2
    } else {
        MAX_TICK_MS
    }
}

/// Half the time per tick, down to the least.
pub fn faster(tick_ms: u64) -> (r: u64)
    ensures
        r == (if tick_ms / 2 > MIN_TICK_MS {
            tick_ms / 2
        } else {
            MIN_TICK_MS
        }),
{
    if tick_ms / 2 > MIN_TICK_MS {
        tick_ms / 2
    } else {
        MIN_TICK_MS
    }
}

/// The widest stretch of cells that is worked on at once.
pub const MAX_SPAN: i64 = 600;

/// Half of a number, rounded toward zero.
pub open spec fn half(n: int) -> int {
    if n >= 0 {
        n / 2
    } else {
        -((-n) / 2)
    }
}

/// A range of coordinates, cut down around its middle where it is wider than
/// `MAX_SPAN`.
pub open spec fn capped(min: int, max: int) -> (int, int) {
    if max - min > MAX_SPAN {
        (half(min + max) - MAX_SPAN / 2, half(min + max) + MAX_SPAN / 2)
    } else {
        (min, max)
    }
}

/// The ends of the range can be told apart and averaged.
pub open spec fn is_measurable(min: int, max: int) -> bool {
    i64::MIN <= max - min <= i64::MAX && i64::MIN <= max + min <= i64::MAX
}

fn cap_range(min: i64, max: i64) -> (r: (i64, i64))
    requires
        is_measurable(min as int, max as int),
    ensures
        (r.0 as int, r.1 as int) == capped(min as int, max as int),
{
    if max - min > MAX_SPAN {
        let sum: i128 = (min + max) as i128;
        let middle: i64 = if sum >= 0 {
            (sum / 2) as i64
        } else {
            (-((-sum) / 2)) as i64
        };
        (middle - 300, middle + 300)
    } else {
        (min, max)
    }
}

/// The rectangle with both of its ranges capped.
pub open spec fn capped_rect(rect: (i64, i64, i64, i64)) -> (i64, i64, i64, i64) {
    let (x, y) = (capped(rect.0 as int, rect.2 as int), capped(rect.1 as int, rect.3 as int));
    (x.0 as i64, y.0 as i64, x.1 as i64, y.1 as i64)
}

/// Cut a rectangle down so an extreme zoom-out doesn't touch millions of
/// cells.
pub fn cap_rect(rect: (i64, i64, i64, i64)) -> (r: (i64, i64, i64, i64))
    requires
        is_measurable(rect.0 as int, rect.2 as int),
        is_measurable(rect.1 as int, rect.3 as int),
    ensures
        r == capped_rect(rect),
        (r.0 as int, r.2 as int) == capped(rect.0 as int, rect.2 as int),
        (r.1 as int, r.3 as int) == capped(rect.1 as int, rect.3 as int),
{
    let (min_x, max_x) = cap_range(rect.0, rect.2);
    let (min_y, max_y) = cap_range(rect.1, rect.3);
    (min_x, min_y, max_x, max_y)
}

/// A capped range is at most `MAX_SPAN` wide and lies within the range, and
/// capping it again changes nothing.
pub proof fn law_capped_range(min: int, max: int)
    ensures
        capped(min, max).1 - capped(min, max).0 <= MAX_SPAN,
        min <= capped(min, max).0,
        capped(min, max).1 <= max,
        capped(capped(min, max).0, capped(min, max).1) == capped(min, max),
{
}

/// The presets in rising order; what follows a duration is the first that is
/// longer, and what precedes it the last that is shorter.
pub proof fn law_presets_in_order(n: u32, next: Option<u32>, prev: Option<u32>, i: int)
    requires
        is_next_preset(Some(n), next),
        is_prev_preset(Some(n), prev),
        0 <= i < 8,
    ensures
        ({
            let all = seq![1u32, 2u32, 5u32, 10u32, 25u32, 50u32, 100u32, 250u32, 500u32];
            &&& all[i] <= n < all[i + 1] ==> next == Some(all[i + 1])
            &&& all[i] < n <= all[i + 1] ==> prev == Some(all[i])
            &&& n < 1 ==> next == Some(1u32)
            &&& n >= 500 ==> next is None
            &&& n <= 1 ==> prev == Some(n)
            &&& n > 500 ==> prev == Some(500u32)
        }),
{
    let all = seq![1u32, 2u32, 5u32, 10u32, 25u32, 50u32, 100u32, 250u32, 500u32];
    assert(all[0] == 1 && all[1] == 2 && all[2] == 5 && all[3] == 10 && all[4] == 25 && all[5] == 50
        && all[6] == 100 && all[7] == 250 && all[8] == 500);
    assert(is_preset(all[i]) && is_preset(all[i + 1]));
    assert(is_preset(1) && is_preset(500));
}

/// What runs forever is stepped down to the longest preset and no further up.
pub proof fn law_infinite_durations(next: Option<u32>, prev: Option<u32>)
    requires
        is_next_preset(None, next),
        is_prev_preset(None, prev),
    ensures
        next is None,
        prev == Some(500u32),
{
}

/// A range of at most 600 is left as it is, and a wider one is cut down to 600
/// around its middle, rounded toward zero.
pub proof fn law_capped_range_is_centered(min: int, max: int)
    ensures
        max - min <= 600 ==> capped(min, max) == (min, max),
        max - min > 600 ==> {
            let (low, high) = capped(min, max);
            let excess = (min + max) - (low + high);
            &&& high - low == 600
            &&& -1 <= excess <= 1
            &&& excess == 1 ==> min + max > 0
            &&& excess == -1 ==> min + max < 0
        },
{
}

/// A rectangle is capped in each direction for itself.
pub proof fn law_capped_rect(rect: (i64, i64, i64, i64))
    ensures
        ({
            let r = capped_rect(rect);
            &&& rect.2 - rect.0 <= 600 ==> (r.0, r.2) == (rect.0, rect.2)
            &&& rect.3 - rect.1 <= 600 ==> (r.1, r.3) == (rect.1, rect.3)
            &&& rect.2 - rect.0 > 600 ==> r.2 - r.0 == 600 && rect.0 <= r.0 && r.2 <= rect.2 && -1
                <= (rect.0 + rect.2) - (r.0 + r.2) <= 1
            &&& rect.3 - rect.1 > 600 ==> r.3 - r.1 == 600 && rect.1 <= r.1 && r.3 <= rect.3 && -1
                <= (rect.1 + rect.3) - (r.1 + r.3) <= 1
        }),
{
    law_capped_range_is_centered(rect.0 as int, rect.2 as int);
    law_capped_range_is_centered(rect.1 as int, rect.3 as int);
    law_capped_range(rect.0 as int, rect.2 as int);
    law_capped_range(rect.1 as int, rect.3 as int);
}

/// The ends of a range can be measured if their sum and their difference can be
/// written down.
pub proof fn law_measurable(min: i64, max: i64)
    ensures
        is_measurable(min as int, max as int) <==> {
            &&& -0x8000_0000_0000_0000 <= max - min < 0x8000_0000_0000_0000
            &&& -0x8000_0000_0000_0000 <= max + min < 0x8000_0000_0000_0000
        },
{
}

} // verus!
