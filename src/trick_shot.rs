use vstd::prelude::*;

use crate::text::{chars_of, keep_values, valid_values};
use crate::tools::{find_numbers, number_matches, pairs_of_ranges};

verus! {

/// The rectangle the probe must hit.
pub struct TargetArea {
    pub x_min: i32,
    pub x_max: i32,
    pub y_min: i32,
    pub y_max: i32,
}

/// Coordinates within a range that keeps every step of a shot inside `i32`.
pub open spec fn fits_i32(v: int) -> bool {
    i32::MIN <= v <= i32::MAX
}

/// Every position and velocity that the rest of the shot from `(x, y)` with
/// velocity `(vx, vy)` computes fits `i32`.
pub open spec fn shot_fits(t: TargetArea, x: int, y: int, vx: int, vy: int) -> bool
    decreases (if vy >= 0 {
        vy + 1
    } else {
        0
    }), y - t.y_min,
{
    if !(x < t.x_max && y > t.y_min) {
        true
    } else {
        let nx = x + vx;
        let ny = y + vy;
        fits_i32(nx) && fits_i32(ny) && (in_target(t, nx, ny) || (vy < 0 && ny <= t.y_min) || (
        fits_i32(vy - 1) && shot_fits(t, nx, ny, if vx - 1 > 0 {
            vx - 1
        } else {
            0
        }, vy - 1)))
    }
}

/// The velocities tried are at most 100 000 000, so that memory can list
/// them, and every shot with one of them stays within `i32`.
pub open spec fn searchable(t: TargetArea) -> bool {
    &&& tries(t) <= 100_000_000
    &&& forall|k: int|
        0 <= k < tries(t) ==> shot_fits(t, 0, 0, #[trigger] velocity(t, k).0, velocity(t, k).1)
}

pub open spec fn in_target(t: TargetArea, x: int, y: int) -> bool {
    t.x_min <= x <= t.x_max && t.y_min <= y <= t.y_max
}

/// The rest of a shot from `(x, y)` with velocity `(vx, vy)`, `top` being the
/// height recorded so far: while the probe is left of the target's right edge
/// and above its bottom, it moves by its velocity; drag slows `vx` towards 0
/// and gravity lowers `vy` by one. The height is recorded on the step on which
/// `vy` was 0. `Some` of that height once a step ends inside the target.
pub open spec fn shot(t: TargetArea, x: int, y: int, vx: int, vy: int, top: int) -> Option<int>
    decreases (if vy >= 0 {
        vy + 1
    } else {
        0
    }), y - t.y_min,
{
    if !(x < t.x_max && y > t.y_min) {
        None
    } else {
        let nx = x + vx;
        let ny = y + vy;
        if in_target(t, nx, ny) {
            Some(top)
        } else if vy < 0 && ny <= t.y_min {
            None
        } else {
            shot(t, nx, ny, if vx - 1 > 0 {
                vx - 1
            } else {
                0
            }, vy - 1, if vy == 0 {
                ny
            } else {
                top
            })
        }
    }
}

pub open spec fn launch(t: TargetArea, vx: int, vy: int) -> Option<int> {
    shot(t, 0, 0, vx, vy, 0)
}

/// Launches a probe from the origin with velocity `(vel_x, vel_y)`: `Some`
/// of the top height it reached where it hits the target, else `None`.
pub fn try_simulate(target_area: &TargetArea, vel_x: i32, vel_y: i32) -> (r: Option<i32>)
    requires
        shot_fits(*target_area, 0, 0, vel_x as int, vel_y as int),
    ensures
        match r {
            Some(h) => launch(*target_area, vel_x as int, vel_y as int) == Some(h as int),
            None => launch(*target_area, vel_x as int, vel_y as int) is None,
        },
{
    let mut x: i32 = 0;
    let mut y: i32 = 0;
    let mut vx = vel_x;
    let mut vy = vel_y;
    let mut max_height: i32 = y;
    while x < target_area.x_max && y > target_area.y_min
        invariant
            shot_fits(*target_area, x as int, y as int, vx as int, vy as int),
            launch(*target_area, vel_x as int, vel_y as int) == shot(
                *target_area,
                x as int,
                y as int,
                vx as int,
                vy as int,
                max_height as int,
            ),
        decreases (if vy >= 0 {
            vy + 1
        } else {
            0
        }), y - target_area.y_min,
    {
        let ghost s0 = shot(*target_area, x as int, y as int, vx as int, vy as int, max_height as int);
        x = x + vx;
        y = y + vy;
        if x >= target_area.x_min && x <= target_area.x_max && y >= target_area.y_min && y <= target_area.y_max {
            assert(s0 == Some(max_height as int));
            return Some(max_height);
        }
        if vy < 0 && y <= target_area.y_min {
            assert(s0 is None);
            return None;
        }
        vx = if vx > 1 {
            vx - 1
        } else {
            0
        };
        if vy == 0 {
            max_height = y;
        }
        vy = vy - 1;
    }
    None
}

/// The `k`-th velocity tried, counting `vy` from `y_min` up to 99 fastest and
/// `vx` from 1 up.
pub open spec fn velocity(t: TargetArea, k: int) -> (int, int) {
    let ny = 100 - t.y_min;
    (1 + k / ny, t.y_min + k % ny)
}

pub open spec fn tries(t: TargetArea) -> int {
    if t.x_max < 1 || t.y_min >= 100 {
        0
    } else {
        t.x_max * (100 - t.y_min)
    }
}

/// How many of the first `k` velocities hit the target.
pub open spec fn count_hits(t: TargetArea, k: int) -> int
    decreases k,
{
    if k <= 0 {
        0
    } else {
        count_hits(t, k - 1) + if launch(t, velocity(t, k - 1).0, velocity(t, k - 1).1) is Some {
            1int
        } else {
            0int
        }
    }
}

/// The greatest top height among the first `k` velocities that hit.
pub open spec fn best_height(t: TargetArea, k: int) -> Option<int>
    decreases k,
{
    if k <= 0 {
        None
    } else {
        match (best_height(t, k - 1), launch(t, velocity(t, k - 1).0, velocity(t, k - 1).1)) {
            (Some(a), Some(b)) => Some(if b > a {
                b
            } else {
                a
            }),
            (None, h) => h,
            (a, None) => a,
        }
    }
}

/// Every pair of `vx` in `1..=x_max` and `vy` in `y_min..100`, in order.
fn velocities(t: &TargetArea) -> (r: Vec<(i32, i32)>)
    ensures
        r@.len() == tries(*t),
        forall|k: int|
            0 <= k < r@.len() ==> (#[trigger] r@[k]).0 == velocity(*t, k).0 && r@[k].1 == velocity(
                *t,
                k,
            ).1 && 1 <= r@[k].0 <= t.x_max && t.y_min <= r@[k].1 < 100,
{
    if t.x_max < 1 || t.y_min >= 100 {
        return Vec::new();
    }
    let r = pairs_of_ranges(1, t.x_max, t.y_min, 100);
    proof {
        let ny = 100 - t.y_min;
        assert forall|k: int| 0 <= k < r@.len() implies 1 <= 1 + #[trigger] (k / ny) <= t.x_max && 0
            <= k % ny < ny by {
            assert(1 <= 1 + k / ny <= t.x_max && 0 <= k % ny < ny) by (nonlinear_arith)
                requires
                    0 <= k < t.x_max * ny,
                    ny > 0,
            ;
        }
    }
    r
}

/// The highest top height over all velocities that hit the target, or
/// `None` where none hits.
pub fn part1(target_area: &TargetArea) -> (r: Option<i32>)
    requires
        searchable(*target_area),
    ensures
        match r {
            Some(h) => best_height(*target_area, tries(*target_area)) == Some(h as int),
            None => best_height(*target_area, tries(*target_area)) is None,
        },
{
    let vs = velocities(target_area);
    let mut best: Option<i32> = None;
    let mut k: usize = 0;
    while k < vs.len()
        invariant
            searchable(*target_area),
            k <= vs@.len(),
            vs@.len() == tries(*target_area),
            forall|j: int|
                0 <= j < vs@.len() ==> (#[trigger] vs@[j]).0 == velocity(*target_area, j).0
                    && vs@[j].1 == velocity(*target_area, j).1 && 1 <= vs@[j].0
                    <= target_area.x_max && target_area.y_min <= vs@[j].1 < 100,
            match best {
                Some(h) => best_height(*target_area, k as int) == Some(h as int),
                None => best_height(*target_area, k as int) is None,
            },
        decreases vs@.len() - k,
    {
        let (vx, vy) = vs[k];
        match try_simulate(target_area, vx, vy) {
            Some(h) => {
                best = match best {
                    Some(b) => Some(
                        if h > b {
                            h
                        } else {
                            b
                        },
                    ),
                    None => Some(h),
                };
            },
            None => {},
        }
        k = k + 1;
    }
    best
}

/// How many velocities hit the target.
pub fn part2(target_area: &TargetArea) -> (r: usize)
    requires
        searchable(*target_area),
    ensures
        r == count_hits(*target_area, tries(*target_area)),
{
    let vs = velocities(target_area);
    let mut count: usize = 0;
    let mut k: usize = 0;
    while k < vs.len()
        invariant
            searchable(*target_area),
            k <= vs@.len(),
            vs@.len() == tries(*target_area),
            forall|j: int|
                0 <= j < vs@.len() ==> (#[trigger] vs@[j]).0 == velocity(*target_area, j).0
                    && vs@[j].1 == velocity(*target_area, j).1 && 1 <= vs@[j].0
                    <= target_area.x_max && target_area.y_min <= vs@[j].1 < 100,
            count == count_hits(*target_area, k as int),
            count <= k,
        decreases vs@.len() - k,
    {
        let (vx, vy) = vs[k];
        if try_simulate(target_area, vx, vy).is_some() {
            count = count + 1;
        }
        k = k + 1;
    }
    count
}

/// The numbers in the line, as the pattern "(-?\d+)" finds them, keeping
/// those that are decimal `i32`s.
pub open spec fn numbers_in(line: Seq<char>) -> Seq<i32> {
    let ms = number_matches(line);
    valid_values(ms, ms.len() as int)
}

/// The target area that the first four numbers of the line give, as
/// `x_min`, `x_max`, `y_min` and `y_max`; `None` where fewer are found.
pub fn read_input(line: &str) -> (r: Option<TargetArea>)
    ensures
        r is Some <==> numbers_in(line@).len() >= 4,
        r matches Some(t) ==> t == (TargetArea {
            x_min: numbers_in(line@)[0],
            x_max: numbers_in(line@)[1],
            y_min: numbers_in(line@)[2],
            y_max: numbers_in(line@)[3],
        }),
{
    let found = find_numbers(line);
    let mut texts: Vec<Vec<char>> = Vec::new();
    let mut i: usize = 0;
    while i < found.len()
        invariant
            i <= found@.len(),
            texts@.len() == i,
            forall|j: int| 0 <= j < i ==> (#[trigger] texts@[j])@ == found@[j]@,
        decreases found@.len() - i,
    {
        texts.push(chars_of(found[i].as_str()));
        i = i + 1;
    }
    let values = keep_values(&texts);
    if values.len() < 4 {
        return None;
    }
    Some(TargetArea { x_min: values[0], x_max: values[1], y_min: values[2], y_max: values[3] })
}

} // verus!
