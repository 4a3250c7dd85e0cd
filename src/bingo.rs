use vstd::prelude::*;

use crate::text::{chars_of, keep_values, pieces, split_on, split_words, valid_values, words};

verus! {

/// A bingo board, row by row.
#[derive(Debug)]
pub struct Board {
    pub data: Vec<Vec<i32>>,
}

/// At least one row, all rows as long as the first and not empty; at most
/// 1000 rows of at most 1000 numbers.
pub open spec fn is_board(b: Seq<Vec<i32>>) -> bool {
    &&& 0 < b.len() <= 1000
    &&& 0 < b[0]@.len() <= 1000
    &&& forall|r: int| 0 <= r < b.len() ==> #[trigger] b[r]@.len() == b[0]@.len()
}

pub open spec fn row_done(b: Seq<Vec<i32>>, r: int, nums: Seq<i32>) -> bool {
    forall|c: int| 0 <= c < b[r]@.len() ==> nums.contains(#[trigger] b[r]@[c])
}

pub open spec fn column_done(b: Seq<Vec<i32>>, c: int, nums: Seq<i32>) -> bool {
    forall|r: int| 0 <= r < b.len() ==> nums.contains(#[trigger] b[r]@[c])
}

/// Every number of some row, or of some column, has been drawn.
pub open spec fn wins(b: Seq<Vec<i32>>, nums: Seq<i32>) -> bool {
    (exists|r: int| 0 <= r < b.len() && #[trigger] row_done(b, r, nums)) || (exists|c: int|
        0 <= c < b[0]@.len() && #[trigger] column_done(b, c, nums))
}

/// The sum of the numbers not drawn among the first `n` of row `r`.
pub open spec fn row_unmarked(b: Seq<Vec<i32>>, r: int, nums: Seq<i32>, n: int) -> int
    decreases n,
{
    if n <= 0 {
        0
    } else {
        row_unmarked(b, r, nums, n - 1) + if nums.contains(b[r]@[n - 1]) {
            0
        } else {
            b[r]@[n - 1] as int
        }
    }
}

/// The sum of the numbers not drawn in the first `m` rows.
pub open spec fn unmarked(b: Seq<Vec<i32>>, nums: Seq<i32>, m: int) -> int
    decreases m,
{
    if m <= 0 {
        0
    } else {
        unmarked(b, nums, m - 1) + row_unmarked(b, m - 1, nums, b[m - 1]@.len() as int)
    }
}

pub open spec fn fits_i32(v: int) -> bool {
    i32::MIN <= v <= i32::MAX
}

/// The final score: the sum of the numbers not drawn times the last drawn.
pub open spec fn score(b: Seq<Vec<i32>>, nums: Seq<i32>) -> int {
    unmarked(b, nums, b.len() as int) * nums.last()
}

fn drawn(nums: &[i32], v: i32) -> (r: bool)
    ensures
        r == nums@.contains(v),
{
    let mut i: usize = 0;
    while i < nums.len()
        invariant
            i <= nums@.len(),
            forall|j: int| 0 <= j < i ==> nums@[j] != v,
        decreases nums@.len() - i,
    {
        if nums[i] == v {
            return true;
        }
        i = i + 1;
    }
    false
}

proof fn lemma_row_unmarked_bound(b: Seq<Vec<i32>>, r: int, nums: Seq<i32>, n: int)
    requires
        0 <= n <= 1000,
    ensures
        -n * 0x8000_0000 <= row_unmarked(b, r, nums, n) <= n * 0x8000_0000,
    decreases n,
{
    if n > 0 {
        lemma_row_unmarked_bound(b, r, nums, n - 1);
    }
}

proof fn lemma_unmarked_bound(b: Seq<Vec<i32>>, nums: Seq<i32>, m: int)
    requires
        is_board(b),
        0 <= m <= b.len(),
    ensures
        -m * 1000 * 0x8000_0000 <= unmarked(b, nums, m) <= m * 1000 * 0x8000_0000,
    decreases m,
{
    if m > 0 {
        lemma_unmarked_bound(b, nums, m - 1);
        lemma_row_unmarked_bound(b, m - 1, nums, b[m - 1]@.len() as int);
    }
}

impl Board {
    /// The sum of the numbers on the board not drawn, times the last number
    /// drawn; `None` where that leaves `i32`.
    pub fn calculate_score(&self, nums: &[i32]) -> (r: Option<i32>)
        requires
            is_board(self.data@),
            nums@.len() > 0,
        ensures
            match r {
                Some(v) => v == score(self.data@, nums@),
                None => !fits_i32(score(self.data@, nums@)),
            },
    {
        let b = &self.data;
        let mut sum: i64 = 0;
        let mut r: usize = 0;
        while r < b.len()
            invariant
                r <= b@.len(),
                is_board(b@),
                sum == unmarked(b@, nums@, r as int),
            decreases b@.len() - r,
        {
            let row = &b[r];
            let mut c: usize = 0;
            proof {
                lemma_unmarked_bound(b@, nums@, r as int);
            }
            while c < row.len()
                invariant
                    c <= row@.len(),
                    r < b@.len(),
                    is_board(b@),
                    row@ == b@[r as int]@,
                    sum == unmarked(b@, nums@, r as int) + row_unmarked(b@, r as int, nums@, c as int),
                    -(r as int) * 1000 * 0x8000_0000 <= unmarked(b@, nums@, r as int) <= (r as int)
                        * 1000 * 0x8000_0000,
                decreases row@.len() - c,
            {
                proof {
                    lemma_row_unmarked_bound(b@, r as int, nums@, c as int);
                    assert(row@.len() <= 1000);
                    assert((r as int) * 1000 * 0x8000_0000 <= 999 * 1000 * 0x8000_0000)
                        by (nonlinear_arith)
                        requires
                            r < 1000,
                    ;
                }
                if !drawn(nums, row[c]) {
                    sum = sum + row[c] as i64;
                }
                c = c + 1;
            }
            r = r + 1;
        }
        let last = nums[nums.len() - 1];
        proof {
            lemma_unmarked_bound(b@, nums@, b@.len() as int);
            assert(-1000 * 1000 * 0x8000_0000 <= sum <= 1000 * 1000 * 0x8000_0000) by (nonlinear_arith)
                requires
                    -(b@.len() as int) * 1000 * 0x8000_0000 <= sum <= (b@.len() as int) * 1000
                        * 0x8000_0000,
                    b@.len() <= 1000,
            ;
        }
        proof {
            assert(-0x4_0000_0000_0000_0000_0000 <= (sum as int) * (last as int)
                <= 0x4_0000_0000_0000_0000_0000) by (nonlinear_arith)
                requires
                    -1000 * 1000 * 0x8000_0000 <= sum <= 1000 * 1000 * 0x8000_0000,
                    -0x8000_0000 <= last <= 0x7fff_ffff,
            ;
        }
        let product = (sum as i128) * (last as i128);
        if product < i32::MIN as i128 || product > i32::MAX as i128 {
            return None;
        }
        Some(product as i32)
    }

    /// Whether every number of some row or of some column has been drawn.
    pub fn is_winning(&self, nums: &[i32]) -> (r: bool)
        requires
            is_board(self.data@),
        ensures
            r == wins(self.data@, nums@),
    {
        let b = &self.data;
        let mut r: usize = 0;
        while r < b.len()
            invariant
                r <= b@.len(),
                is_board(b@),
                b@ == self.data@,
                forall|k: int| 0 <= k < r ==> !#[trigger] row_done(b@, k, nums@),
            decreases b@.len() - r,
        {
            let row = &b[r];
            let mut c: usize = 0;
            let mut all = true;
            while c < row.len()
                invariant
                    c <= row@.len(),
                    r < b@.len(),
                    row@ == b@[r as int]@,
                    all == forall|k: int| 0 <= k < c ==> nums@.contains(#[trigger] row@[k]),
                decreases row@.len() - c,
            {
                if !drawn(nums, row[c]) {
                    all = false;
                }
                c = c + 1;
            }
            if all {
                assert(row_done(b@, r as int, nums@));
                return true;
            }
            r = r + 1;
        }
        let width = b[0].len();
        let mut c: usize = 0;
        while c < width
            invariant
                c <= width,
                width == b@[0]@.len(),
                is_board(b@),
                b@ == self.data@,
                forall|k: int| 0 <= k < b@.len() ==> !#[trigger] row_done(b@, k, nums@),
                forall|k: int| 0 <= k < c ==> !#[trigger] column_done(b@, k, nums@),
            decreases width - c,
        {
            let mut r: usize = 0;
            let mut all = true;
            while r < b.len()
                invariant
                    r <= b@.len(),
                    c < width,
                    width == b@[0]@.len(),
                    is_board(b@),
                    all == forall|k: int| 0 <= k < r ==> nums@.contains(#[trigger] b@[k]@[c as int]),
                decreases b@.len() - r,
            {
                assert(b@[r as int]@.len() == width);
                if !drawn(nums, b[r][c]) {
                    all = false;
                }
                r = r + 1;
            }
            if all {
                assert(column_done(b@, c as int, nums@));
                return true;
            }
            c = c + 1;
        }
        false
    }
}

pub open spec fn all_boards(boards: Seq<Board>) -> bool {
    forall|i: int| 0 <= i < boards.len() ==> is_board(#[trigger] boards[i].data@)
}

/// The first of the first `m` boards that wins with `drawn`.
pub open spec fn first_winner(boards: Seq<Board>, drawn: Seq<i32>, m: int) -> Option<int>
    decreases m,
{
    if m <= 0 {
        None
    } else {
        match first_winner(boards, drawn, m - 1) {
            Some(i) => Some(i),
            None => if wins(boards[m - 1].data@, drawn) {
                Some(m - 1)
            } else {
                None
            },
        }
    }
}

/// The first number of draws, up to `k`, after which some board wins, and
/// the first board that wins then.
pub open spec fn first_bingo(boards: Seq<Board>, nums: Seq<i32>, k: int) -> Option<(int, int)>
    decreases k,
{
    if k <= 0 {
        None
    } else {
        match first_bingo(boards, nums, k - 1) {
            Some(x) => Some(x),
            None => match first_winner(boards, nums.take(k), boards.len() as int) {
                Some(i) => Some((k, i)),
                None => None,
            },
        }
    }
}

pub open spec fn all_win(boards: Seq<Board>, drawn: Seq<i32>) -> bool {
    forall|i: int| 0 <= i < boards.len() ==> wins(#[trigger] boards[i].data@, drawn)
}

/// The first number of draws, up to `k`, after which every board has won.
pub open spec fn first_all_win(boards: Seq<Board>, nums: Seq<i32>, k: int) -> Option<int>
    decreases k,
{
    if k <= 0 {
        None
    } else {
        match first_all_win(boards, nums, k - 1) {
            Some(x) => Some(x),
            None => if all_win(boards, nums.take(k)) {
                Some(k)
            } else {
                None
            },
        }
    }
}

/// The last of the first `m` boards that does not win with `drawn`.
pub open spec fn last_not_winning(boards: Seq<Board>, drawn: Seq<i32>, m: int) -> Option<int>
    decreases m,
{
    if m <= 0 {
        None
    } else if !wins(boards[m - 1].data@, drawn) {
        Some(m - 1)
    } else {
        last_not_winning(boards, drawn, m - 1)
    }
}

/// The board that wins last and the number of draws after which it does:
/// the last board still without a win one draw before all boards have won.
pub open spec fn last_bingo(boards: Seq<Board>, nums: Seq<i32>) -> Option<(int, int)> {
    match first_all_win(boards, nums, nums.len() as int) {
        Some(k) => match last_not_winning(boards, nums.take(k - 1), boards.len() as int) {
            Some(i) => Some((k, i)),
            None => None,
        },
        None => None,
    }
}

/// A board that has won keeps winning as more numbers are drawn.
pub proof fn lemma_wins_stays(b: Seq<Vec<i32>>, nums: Seq<i32>, k: int, l: int)
    requires
        is_board(b),
        0 <= k <= l <= nums.len(),
        wins(b, nums.take(k)),
    ensures
        wins(b, nums.take(l)),
{
    assert forall|x: i32| nums.take(k).contains(x) implies nums.take(l).contains(x) by {
        let i = choose|i: int| 0 <= i < k && nums.take(k)[i] == x;
        assert(nums.take(l)[i] == x);
    }
    if exists|r: int| 0 <= r < b.len() && #[trigger] row_done(b, r, nums.take(k)) {
        let r = choose|r: int| 0 <= r < b.len() && #[trigger] row_done(b, r, nums.take(k));
        assert(row_done(b, r, nums.take(l)));
    } else {
        let c = choose|c: int| 0 <= c < b[0]@.len() && #[trigger] column_done(b, c, nums.take(k));
        assert(column_done(b, c, nums.take(l)));
    }
}

/// The score of the first board to win, on the draw it wins; `None` where no
/// board ever wins or the score leaves `i32`.
pub fn part1(numbers: &[i32], boards: &[Board]) -> (r: Option<i32>)
    requires
        all_boards(boards@),
    ensures
        match first_bingo(boards@, numbers@, numbers@.len() as int) {
            Some((k, i)) => if fits_i32(score(boards@[i].data@, numbers@.take(k))) {
                r == Some(score(boards@[i].data@, numbers@.take(k)) as i32)
            } else {
                r is None
            },
            None => r is None,
        },
{
    let mut nums_so_far: Vec<i32> = Vec::new();
    let mut k: usize = 0;
    while k < numbers.len()
        invariant
            k <= numbers@.len(),
            all_boards(boards@),
            nums_so_far@ == numbers@.take(k as int),
            first_bingo(boards@, numbers@, k as int) is None,
        decreases numbers@.len() - k,
    {
        nums_so_far.push(numbers[k]);
        assert(nums_so_far@ =~= numbers@.take(k + 1));
        let mut j: usize = 0;
        while j < boards.len()
            invariant
                j <= boards@.len(),
                k < numbers@.len(),
                all_boards(boards@),
                nums_so_far@ == numbers@.take(k + 1),
                first_bingo(boards@, numbers@, k as int) is None,
                first_winner(boards@, numbers@.take(k + 1), j as int) is None,
            decreases boards@.len() - j,
        {
            assert(is_board(boards@[j as int].data@));
            if boards[j].is_winning(nums_so_far.as_slice()) {
                proof {
                    lemma_first_winner_at(boards@, numbers@.take(k + 1), j as int, boards@.len() as int);
                    assert(first_bingo(boards@, numbers@, k + 1) == Some(((k + 1) as int, j as int)));
                    lemma_first_bingo_stays(boards@, numbers@, k + 1, numbers@.len() as int);
                }
                return boards[j].calculate_score(nums_so_far.as_slice());
            }
            j = j + 1;
        }
        k = k + 1;
    }
    None
}

proof fn lemma_first_bingo_stays(boards: Seq<Board>, nums: Seq<i32>, k: int, l: int)
    requires
        1 <= k <= l,
        first_bingo(boards, nums, k) is Some,
    ensures
        first_bingo(boards, nums, l) == first_bingo(boards, nums, k),
    decreases l,
{
    if l > k {
        lemma_first_bingo_stays(boards, nums, k, l - 1);
    }
}

proof fn lemma_first_winner_at(boards: Seq<Board>, drawn: Seq<i32>, j: int, m: int)
    requires
        0 <= j < m,
        first_winner(boards, drawn, j) is None,
        wins(boards[j].data@, drawn),
    ensures
        first_winner(boards, drawn, m) == Some(j),
    decreases m,
{
    if m > j + 1 {
        lemma_first_winner_at(boards, drawn, j, m - 1);
    }
}

pub open spec fn count_true(v: Seq<bool>, n: int) -> int
    decreases n,
{
    if n <= 0 {
        0
    } else {
        count_true(v, n - 1) + if v[n - 1] {
            1int
        } else {
            0int
        }
    }
}

proof fn lemma_count_true(v: Seq<bool>, n: int)
    requires
        0 <= n <= v.len(),
    ensures
        0 <= count_true(v, n) <= n,
        count_true(v, n) == n <==> forall|i: int| 0 <= i < n ==> #[trigger] v[i],
    decreases n,
{
    if n > 0 {
        lemma_count_true(v, n - 1);
    }
}

proof fn lemma_count_true_set(v: Seq<bool>, i: int, n: int)
    requires
        0 <= i < v.len(),
        0 <= n <= v.len(),
        !v[i],
    ensures
        count_true(v.update(i, true), n) == count_true(v, n) + if i < n {
            1int
        } else {
            0int
        },
    decreases n,
{
    if n > 0 {
        lemma_count_true_set(v, i, n - 1);
    }
}

proof fn lemma_first_all_stays(boards: Seq<Board>, nums: Seq<i32>, k: int, l: int)
    requires
        1 <= k <= l,
        first_all_win(boards, nums, k) is Some,
    ensures
        first_all_win(boards, nums, l) == first_all_win(boards, nums, k),
    decreases l,
{
    if l > k {
        lemma_first_all_stays(boards, nums, k, l - 1);
    }
}

proof fn lemma_last_not_winning_at(boards: Seq<Board>, drawn: Seq<i32>, j: int, m: int)
    requires
        0 <= j < m <= boards.len(),
        !wins(boards[j].data@, drawn),
        forall|i: int| j < i < m ==> wins(#[trigger] boards[i].data@, drawn),
    ensures
        last_not_winning(boards, drawn, m) == Some(j),
    decreases m,
{
    if m > j + 1 {
        lemma_last_not_winning_at(boards, drawn, j, m - 1);
    }
}

/// The score of the board that wins last, on the draw it wins; `None` where
/// not every board wins or the score leaves `i32`.
pub fn part2(numbers: &[i32], boards: &[Board]) -> (r: Option<i32>)
    requires
        all_boards(boards@),
    ensures
        match last_bingo(boards@, numbers@) {
            Some((k, i)) => if fits_i32(score(boards@[i].data@, numbers@.take(k))) {
                r == Some(score(boards@[i].data@, numbers@.take(k)) as i32)
            } else {
                r is None
            },
            None => r is None,
        },
{
    let n = boards.len();
    if n == 0 {
        return None;
    }
    let mut won: Vec<bool> = Vec::new();
    let mut j: usize = 0;
    while j < n
        invariant
            j <= n,
            n == boards@.len(),
            won@.len() == j,
            forall|i: int| 0 <= i < j ==> !#[trigger] won@[i],
        decreases n - j,
    {
        won.push(false);
        j = j + 1;
    }
    proof {
        assert forall|i: int| 0 <= i < n implies #[trigger] won@[i] == wins(
            boards@[i].data@,
            numbers@.take(0),
        ) by {
            let b = boards@[i].data@;
            assert(is_board(b));
            assert(!row_done(b, 0, numbers@.take(0)) ==> !exists|r: int|
                0 <= r < b.len() && #[trigger] row_done(b, r, numbers@.take(0))) by {
                if exists|r: int| 0 <= r < b.len() && #[trigger] row_done(b, r, numbers@.take(0)) {
                    let r = choose|r: int| 0 <= r < b.len() && #[trigger] row_done(b, r, numbers@.take(0));
                    assert(b[r]@.len() > 0);
                    assert(numbers@.take(0).contains(b[r]@[0]));
                }
            }
            assert(!row_done(b, 0, numbers@.take(0))) by {
                assert(!numbers@.take(0).contains(b[0]@[0]));
            }
            if exists|c: int| 0 <= c < b[0]@.len() && #[trigger] column_done(b, c, numbers@.take(0)) {
                let c = choose|c: int| 0 <= c < b[0]@.len() && #[trigger] column_done(b, c, numbers@.take(0));
                assert(numbers@.take(0).contains(b[0]@[c]));
            }
        }
        lemma_count_true(won@, n as int);
    }
    let mut count: usize = 0;
    proof {
        assert(count_true(won@, n as int) == 0) by {
            lemma_count_true_zero(won@, n as int);
        }
    }
    let mut nums_so_far: Vec<i32> = Vec::new();
    let mut k: usize = 0;
    while k < numbers.len()
        invariant
            k <= numbers@.len(),
            n == boards@.len(),
            all_boards(boards@),
            won@.len() == n,
            nums_so_far@ == numbers@.take(k as int),
            first_all_win(boards@, numbers@, k as int) is None,
            forall|i: int| 0 <= i < n ==> #[trigger] won@[i] == wins(boards@[i].data@, numbers@.take(k as int)),
            count == count_true(won@, n as int),
            count < n,
        decreases numbers@.len() - k,
    {
        nums_so_far.push(numbers[k]);
        assert(nums_so_far@ =~= numbers@.take(k + 1));
        let ghost before = won@;
        let mut j: usize = 0;
        while j < n
            invariant
                j <= n,
                k < numbers@.len(),
                n == boards@.len(),
                all_boards(boards@),
                won@.len() == n,
                before.len() == n,
                nums_so_far@ == numbers@.take(k + 1),
                first_all_win(boards@, numbers@, k as int) is None,
                forall|i: int| 0 <= i < n ==> #[trigger] before[i] == wins(boards@[i].data@, numbers@.take(k as int)),
                forall|i: int| 0 <= i < j ==> #[trigger] won@[i] == wins(boards@[i].data@, numbers@.take(k + 1)),
                forall|i: int| j <= i < n ==> #[trigger] won@[i] == before[i],
                count == count_true(won@, n as int),
                count < n,
            decreases n - j,
        {
            assert(is_board(boards@[j as int].data@));
            if boards[j].is_winning(nums_so_far.as_slice()) {
                if !won[j] {
                    proof {
                        lemma_count_true_set(won@, j as int, n as int);
                        lemma_count_true(won@.update(j as int, true), n as int);
                    }
                    won.set(j, true);
                    count = count + 1;
                    if count == n {
                        proof {
                            lemma_count_true(won@, n as int);
                            assert forall|i: int| 0 <= i < n implies wins(
                                #[trigger] boards@[i].data@,
                                numbers@.take(k + 1),
                            ) by {
                                assert(won@[i]);
                                if i > j {
                                    lemma_wins_stays(boards@[i].data@, numbers@, k as int, k + 1);
                                }
                            }
                            assert(first_all_win(boards@, numbers@, k + 1) == Some((k + 1) as int));
                            lemma_first_all_stays(boards@, numbers@, k + 1, numbers@.len() as int);
                            assert forall|i: int| j < i < n implies wins(
                                #[trigger] boards@[i].data@,
                                numbers@.take(k as int),
                            ) by {
                                assert(won@[i]);
                            }
                            lemma_last_not_winning_at(boards@, numbers@.take(k as int), j as int, n as int);
                            assert(numbers@.take(k + 1 - 1) == numbers@.take(k as int));
                        }
                        return boards[j].calculate_score(nums_so_far.as_slice());
                    }
                }
            } else {
                proof {
                    if before[j as int] {
                        lemma_wins_stays(boards@[j as int].data@, numbers@, k as int, k + 1);
                    }
                }
            }
            j = j + 1;
        }
        proof {
            lemma_count_true(won@, n as int);
            if all_win(boards@, numbers@.take(k + 1)) {
                assert forall|i: int| 0 <= i < n implies #[trigger] won@[i] by {
                    assert(wins(boards@[i].data@, numbers@.take(k + 1)));
                }
            }
        }
        k = k + 1;
    }
    None
}

proof fn lemma_count_true_zero(v: Seq<bool>, n: int)
    requires
        0 <= n <= v.len(),
        forall|i: int| 0 <= i < n ==> !#[trigger] v[i],
    ensures
        count_true(v, n) == 0,
    decreases n,
{
    if n > 0 {
        lemma_count_true_zero(v, n - 1);
    }
}

pub open spec fn rows_view(rows: Seq<Vec<i32>>) -> Seq<Seq<i32>> {
    rows.map_values(|r: Vec<i32>| r@)
}

/// The boards finished and the board being read after the first `k` lines
/// that follow the drawn numbers and the blank line after them: an empty
/// line ends a board; any other line is a row of the numbers among its words.
pub open spec fn board_state(lines: Seq<String>, k: int) -> (Seq<Seq<Seq<i32>>>, Seq<Seq<i32>>)
    decreases k,
{
    if k <= 0 {
        (seq![], seq![])
    } else {
        let (boards, current) = board_state(lines, k - 1);
        let line = lines[k + 1]@;
        if line.len() == 0 {
            (boards.push(current), seq![])
        } else {
            let ws = words(line);
            (boards, current.push(valid_values(ws, ws.len() as int)))
        }
    }
}

/// The boards of the input, the last one ended by the end of the input.
pub open spec fn boards_of(lines: Seq<String>) -> Seq<Seq<Seq<i32>>> {
    let (boards, current) = board_state(lines, lines.len() - 2);
    boards.push(current)
}

/// The numbers of the first line, between commas, skipping pieces that are
/// no number.
pub open spec fn draws_of(lines: Seq<String>) -> Seq<i32> {
    let ps = pieces(lines[0]@, ',');
    valid_values(ps, ps.len() as int)
}

/// The drawn numbers and the boards; `None` where there are fewer than two
/// lines.
pub fn read_input(lines: &[String]) -> (r: Option<(Vec<i32>, Vec<Board>)>)
    ensures
        r is Some <==> lines@.len() >= 2,
        r matches Some((nums, boards)) ==> nums@ == draws_of(lines@) && boards@.len()
            == boards_of(lines@).len() && forall|i: int|
            0 <= i < boards@.len() ==> rows_view((#[trigger] boards@[i]).data@) == boards_of(lines@)[i],
{
    if lines.len() < 2 {
        return None;
    }
    let first = chars_of(lines[0].as_str());
    let pieces_of_first = split_on(first.as_slice(), ',');
    let numbers = keep_values(&pieces_of_first);
    proof {
        let ps = pieces(lines@[0]@, ',');
        assert(ps.len() == pieces_of_first@.len());
    }
    let mut boards: Vec<Board> = Vec::new();
    let mut current: Vec<Vec<i32>> = Vec::new();
    let mut k: usize = 2;
    while k < lines.len()
        invariant
            2 <= k <= lines@.len(),
            boards@.len() == board_state(lines@, k - 2).0.len(),
            forall|i: int| 0 <= i < boards@.len() ==> rows_view((#[trigger] boards@[i]).data@) == board_state(lines@, k - 2).0[i],
            rows_view(current@) == board_state(lines@, k - 2).1,
        decreases lines@.len() - k,
    {
        let line = chars_of(lines[k].as_str());
        if line.len() == 0 {
            let ghost before = boards@;
            boards.push(Board { data: current });
            current = Vec::new();
            proof {
                assert(rows_view(current@) =~= seq![]);
                assert forall|i: int| 0 <= i < boards@.len() implies rows_view((#[trigger] boards@[i]).data@) == board_state(lines@, k - 1).0[i] by {
                    if i < before.len() {
                        assert(boards@[i] == before[i]);
                    }
                }
            }
        } else {
            let ws = split_words(line.as_slice());
            let row = keep_values(&ws);
            let ghost before = current@;
            current.push(row);
            proof {
                assert(rows_view(current@) =~= rows_view(before).push(row@));
            }
        }
        k = k + 1;
    }
    let ghost before = boards@;
    boards.push(Board { data: current });
    proof {
        assert forall|i: int| 0 <= i < boards@.len() implies rows_view((#[trigger] boards@[i]).data@) == boards_of(lines@)[i] by {
            if i < before.len() {
                assert(boards@[i] == before[i]);
            }
        }
    }
    Some((numbers, boards))
}

} // verus!
