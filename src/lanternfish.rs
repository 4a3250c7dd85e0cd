use vstd::prelude::*;

use crate::text::{parse_list, piece_values, pieces};

verus! {

/// How many of the first `n` fish have timer `k`.
pub open spec fn count_timer(fish: Seq<i32>, k: int, n: int) -> int
    decreases n,
{
    if n <= 0 || n > fish.len() {
        0
    } else {
        count_timer(fish, k, n - 1) + if fish[n - 1] == k {
            1int
        } else {
            0int
        }
    }
}

/// The number of fish with each timer value from 0 to 9.
pub open spec fn initial_groups(fish: Seq<i32>) -> Seq<int> {
    Seq::new(10, |k: int| count_timer(fish, k, fish.len() as int))
}

/// One day: fish at 0 restart at 6 and each spawns a new fish at 8; all
/// other timers go down by one.
pub open spec fn fish_step(g: Seq<int>) -> Seq<int> {
    Seq::new(
        10,
        |i: int|
            if i == 6 {
                g[7] + g[0]
            } else if i == 8 {
                g[9] + g[0]
            } else if i == 9 {
                0
            } else {
                g[i + 1]
            },
    )
}

pub open spec fn groups_after(g: Seq<int>, days: nat) -> Seq<int>
    decreases days,
{
    if days == 0 {
        g
    } else {
        fish_step(groups_after(g, (days - 1) as nat))
    }
}

pub open spec fn total(g: Seq<int>) -> int {
    g[0] + g[1] + g[2] + g[3] + g[4] + g[5] + g[6] + g[7] + g[8] + g[9]
}

/// The number of fish after `days` days.
pub open spec fn population(fish: Seq<i32>, days: int) -> int {
    total(groups_after(initial_groups(fish), if days < 0 {
        0
    } else {
        days as nat
    }))
}

pub open spec fn nonneg_groups(g: Seq<int>) -> bool {
    g.len() == 10 && forall|i: int| 0 <= i < 10 ==> #[trigger] g[i] >= 0
}

proof fn lemma_count_timer_bounds(fish: Seq<i32>, k: int, n: int)
    requires
        0 <= n <= fish.len(),
    ensures
        0 <= count_timer(fish, k, n) <= n,
    decreases n,
{
    if n > 0 {
        lemma_count_timer_bounds(fish, k, n - 1);
    }
}

/// The population never shrinks from one day to the next.
pub proof fn lemma_population_grows(g: Seq<int>, a: nat, b: nat)
    requires
        nonneg_groups(g),
        a <= b,
    ensures
        nonneg_groups(groups_after(g, b)),
        total(groups_after(g, a)) <= total(groups_after(g, b)),
    decreases b,
{
    if b > 0 {
        if a < b {
            lemma_population_grows(g, a, (b - 1) as nat);
        } else {
            lemma_population_grows(g, (b - 1) as nat, (b - 1) as nat);
        }
    }
}

/// The first `k` group sizes, added up.
pub open spec fn partial_total(g: Seq<int>, k: int) -> int
    decreases k,
{
    if k <= 0 {
        0
    } else {
        partial_total(g, k - 1) + g[k - 1]
    }
}

proof fn lemma_partial_total(g: Seq<int>, k: int)
    requires
        nonneg_groups(g),
        0 <= k <= 10,
    ensures
        0 <= partial_total(g, k) <= partial_total(g, 10),
        partial_total(g, 10) == total(g),
    decreases 10 - k,
{
    reveal_with_fuel(partial_total, 11);
    if k < 10 {
        lemma_partial_total(g, k + 1);
    }
}

/// The number of fish after `days` days, each fish starting from its timer;
/// `None` where that number (or one on the way to it) leaves `u64`.
pub fn solve(fish: &[i32], days: i32) -> (r: Option<u64>)
    requires
        forall|i: int| 0 <= i < fish@.len() ==> 0 <= #[trigger] fish@[i] <= 9,
    ensures
        match r {
            Some(v) => v == population(fish@, days as int),
            None => population(fish@, days as int) > u64::MAX,
        },
{
    let mut groups: Vec<u64> = vec![0u64, 0, 0, 0, 0, 0, 0, 0, 0, 0];
    let mut i: usize = 0;
    while i < fish.len()
        invariant
            i <= fish@.len(),
            forall|j: int| 0 <= j < fish@.len() ==> 0 <= #[trigger] fish@[j] <= 9,
            groups@.len() == 10,
            forall|k: int| 0 <= k < 10 ==> #[trigger] groups@[k] == count_timer(fish@, k, i as int),
        decreases fish@.len() - i,
    {
        let f = fish[i] as usize;
        proof {
            lemma_count_timer_bounds(fish@, f as int, i as int);
        }
        groups.set(f, groups[f] + 1);
        i = i + 1;
    }
    let ghost g0 = initial_groups(fish@);
    assert(groups@.map_values(|x: u64| x as int) =~= g0);
    proof {
        assert forall|k: int| 0 <= k < 10 implies #[trigger] g0[k] >= 0 by {
            lemma_count_timer_bounds(fish@, k, fish@.len() as int);
        }
    }
    let mut day: i32 = 0;
    while day < days
        invariant
            0 <= day,
            days >= 0 ==> day <= days,
            days < 0 ==> day == 0,
            groups@.len() == 10,
            nonneg_groups(g0),
            g0 == initial_groups(fish@),
            groups@.map_values(|x: u64| x as int) == groups_after(g0, day as nat),
        decreases days - day,
    {
        let ghost g = groups_after(g0, day as nat);
        proof {
            lemma_population_grows(g0, (day + 1) as nat, days as nat);
            lemma_population_grows(g0, day as nat, day as nat);
            lemma_population_grows(g0, (day + 1) as nat, (day + 1) as nat);
            assert(groups@[0] as int == g[0]);
            assert(groups@[7] as int == g[7]);
            assert(groups@[9] as int == g[9]);
            assert(groups_after(g0, (day + 1) as nat) == fish_step(g));
        }
        let zero = groups[0];
        let mut next: Vec<u64> = Vec::new();
        let mut k: usize = 0;
        while k < 10
            invariant
                k <= 10,
                groups@.len() == 10,
                next@.len() == k,
                groups@.map_values(|x: u64| x as int) == g,
                nonneg_groups(g),
                nonneg_groups(fish_step(g)),
                zero == g[0],
                total(fish_step(g)) <= population(fish@, days as int),
                forall|j: int| 0 <= j < k ==> next@[j] as int == #[trigger] fish_step(g)[j],
            decreases 10 - k,
        {
            assert(groups@[k as int] as int == g[k as int]);
            let v = if k == 6 {
                groups[7].checked_add(zero)
            } else if k == 8 {
                groups[9].checked_add(zero)
            } else if k == 9 {
                Some(0)
            } else {
                Some(groups[k + 1])
            };
            match v {
                Some(v) => {
                    next.push(v);
                },
                None => {
                    return None;
                },
            }
            k = k + 1;
        }
        assert(next@.map_values(|x: u64| x as int) =~= fish_step(g));
        groups = next;
        day = day + 1;
    }
    let ghost g = groups_after(g0, day as nat);
    proof {
        lemma_population_grows(g0, day as nat, day as nat);
        assert forall|j: int| 0 <= j < 10 implies #[trigger] g[j] == groups@[j] as int by {
            assert(groups@.map_values(|x: u64| x as int)[j] == g[j]);
        }
        assert(total(g) == population(fish@, days as int));
    }
    let mut sum: u64 = 0;
    let mut k: usize = 0;
    while k < 10
        invariant
            k <= 10,
            groups@.len() == 10,
            nonneg_groups(g),
            forall|j: int| 0 <= j < 10 ==> #[trigger] g[j] == groups@[j] as int,
            sum == partial_total(g, k as int),
            total(g) == population(fish@, days as int),
        decreases 10 - k,
    {
        proof {
            lemma_partial_total(g, k + 1);
        }
        match sum.checked_add(groups[k]) {
            Some(t) => {
                sum = t;
            },
            None => {
                return None;
            },
        }
        k = k + 1;
    }
    proof {
        lemma_partial_total(g, 10);
    }
    Some(sum)
}

/// The number of fish after 80 days; `None` where it leaves `u64`.
pub fn part1(fish: &[i32]) -> (r: Option<u64>)
    requires
        forall|i: int| 0 <= i < fish@.len() ==> 0 <= #[trigger] fish@[i] <= 9,
    ensures
        match r {
            Some(v) => v == population(fish@, 80),
            None => population(fish@, 80) > u64::MAX,
        },
{
    solve(fish, 80)
}

/// The number of fish after 256 days; `None` where it leaves `u64`.
pub fn part2(fish: &[i32]) -> (r: Option<u64>)
    requires
        forall|i: int| 0 <= i < fish@.len() ==> 0 <= #[trigger] fish@[i] <= 9,
    ensures
        match r {
            Some(v) => v == population(fish@, 256),
            None => population(fish@, 256) > u64::MAX,
        },
{
    solve(fish, 256)
}

/// The timers of the fish, written as decimal numbers between commas;
/// `None` where a piece is no number.
pub fn read_fish(line: &str) -> (r: Option<Vec<i32>>)
    ensures
        match r {
            Some(v) => piece_values(pieces(line@, ','), pieces(line@, ',').len() as int) == Some(v@),
            None => piece_values(pieces(line@, ','), pieces(line@, ',').len() as int) is None,
        },
{
    parse_list(line, ',')
}

} // verus!
