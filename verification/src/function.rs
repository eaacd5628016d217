//! Whole-number arithmetic on cells: the four operators, and the functions
//! of a rectangle of cells that a getter reads one by one.
//!
//! A getter answers with the number of a cell, or with nothing for a cell in
//! error. The cells of a rectangle are read column by column, and reading
//! stops at the first cell in error.
use vstd::prelude::*;
use crate::common::expression::RangeFunction;
use crate::common::text::{is_lower, to_chars};

verus! {

/// The quotient of `a` by `b`, rounded toward zero.
pub open spec fn quotient(a: int, b: int) -> int {
    if a >= 0 && b > 0 {
        a / b
    } else if a < 0 && b > 0 {
        -((-a) / b)
    } else if a >= 0 && b < 0 {
        -(a / (-b))
    } else {
        (-a) / (-b)
    }
}

/// Whether `value` is a number that a cell can hold.
pub open spec fn holdable(value: int) -> bool {
    i32::MIN <= value <= i32::MAX
}

/// What the operator with the code `op` gives for `a` and `b`: 1 adds, 2
/// subtracts, 3 multiplies and 5 divides, rounding toward zero. There is no
/// result for another code, for a division by zero, and where the result is
/// no number that a cell can hold.
pub open spec fn binary(op: i8, a: i32, b: i32) -> Option<i32> {
    let exact = if op == 1 {
        Some(a + b)
    } else if op == 2 {
        Some(a - b)
    } else if op == 3 {
        Some(a * b)
    } else if op == 5 && b != 0 {
        Some(quotient(a as int, b as int))
    } else {
        None
    };
    match exact {
        Some(value) => if holdable(value) {
            Some(value as i32)
        } else {
            None
        },
        None => None,
    }
}

/// The quotient of `a` by `b`, rounded toward zero.
fn divide(a: i64, b: i64) -> (q: i64)
    requires
        b != 0,
        i32::MIN <= a <= i32::MAX,
        i32::MIN <= b <= i32::MAX,
    ensures
        q == quotient(a as int, b as int),
{
    let x: u64 = if a < 0 {
        (-a) as u64
    } else {
        a as u64
    };
    let y: u64 = if b < 0 {
        (-b) as u64
    } else {
        b as u64
    };
    let magnitude: u64 = x / y;
    assert(magnitude <= x) by (nonlinear_arith)
        requires
            magnitude == x / y,
            y > 0,
    ;
    if (a < 0) != (b < 0) {
        -(magnitude as i64)
    } else {
        magnitude as i64
    }
}

/// Evaluates a binary operation by the code of its operator.
pub fn eval_binary(op: i8, a: i32, b: i32) -> (r: Option<i32>)
    ensures
        r == binary(op, a, b),
{
    let exact: i64 = match op {
        1 => a as i64 + b as i64,
        2 => a as i64 - b as i64,
        3 => {
            assert(i64::MIN <= a * b <= i64::MAX) by (nonlinear_arith)
                requires
                    i32::MIN <= a <= i32::MAX,
                    i32::MIN <= b <= i32::MAX,
            ;
            a as i64 * b as i64
        },
        5 => {
            if b == 0 {
                return None;
            }
            divide(a as i64, b as i64)
        },
        _ => {
            return None;
        },
    };
    if -2147483648 <= exact && exact <= 2147483647 {
        Some(exact as i32)
    } else {
        None
    }
}

/// The cells of the rectangle between two corners, each a column and a row,
/// in the order in which they are read: column by column. There is none where
/// a corner is out of order.
pub open spec fn column_major(start: (u16, u16), end: (u16, u16)) -> Seq<(u16, u16)> {
    if start.0 <= end.0 && start.1 <= end.1 {
        let height = end.1 - start.1 + 1;
        let width = end.0 - start.0 + 1;
        Seq::new(
            (width * height) as nat,
            |k: int| ((start.0 + k / height) as u16, (start.1 + k % height) as u16),
        )
    } else {
        Seq::empty()
    }
}

/// Whether `numbers` may be what `get_val` answers for the first cells of
/// `cells`: a number for each. If `complete`, that is all the cells; if not,
/// `get_val` may answer with nothing for the next cell.
pub open spec fn reads<F: Fn((u16, u16)) -> Option<i32>>(
    get_val: &F,
    cells: Seq<(u16, u16)>,
    numbers: Seq<i32>,
    complete: bool,
) -> bool {
    &&& numbers.len() <= cells.len()
    &&& forall|k: int|
        0 <= k < numbers.len() ==> get_val.ensures((cells[k],), Some(#[trigger] numbers[k]))
    &&& if complete {
        numbers.len() == cells.len()
    } else {
        numbers.len() < cells.len() && get_val.ensures((cells[numbers.len() as int],), None)
    }
}

/// Whether `got` may be what reading `cells` with `get_val` gives: the
/// numbers of all the cells, or nothing where `get_val` answered with nothing
/// for a cell.
pub open spec fn gathers<F: Fn((u16, u16)) -> Option<i32>>(
    get_val: &F,
    cells: Seq<(u16, u16)>,
    got: Option<Seq<i32>>,
) -> bool {
    match got {
        Some(numbers) => reads(get_val, cells, numbers, true),
        None => exists|numbers: Seq<i32>| #[trigger] reads(get_val, cells, numbers, false),
    }
}

/// What was read, as a mathematical value.
pub open spec fn shown(got: Option<Vec<i32>>) -> Option<Seq<i32>> {
    match got {
        Some(numbers) => Some(numbers@),
        None => None,
    }
}

/// Whether `get_val` may be asked for every cell.
pub open spec fn answers_all<F: Fn((u16, u16)) -> Option<i32>>(get_val: &F) -> bool {
    forall|cell: (u16, u16)| #[trigger] get_val.requires((cell,))
}

/// The size of a rectangle that is read column by column, and the place of a
/// cell in it.
proof fn column_major_at(start: (u16, u16), end: (u16, u16), c: int, r: int)
    requires
        start.0 <= c <= end.0,
        start.1 <= r <= end.1,
    ensures
        ({
            let height = end.1 - start.1 + 1;
            let k = (c - start.0) * height + (r - start.1);
            &&& column_major(start, end).len() == (end.0 - start.0 + 1) * height
            &&& 0 <= k < column_major(start, end).len()
            &&& column_major(start, end)[k] == (c as u16, r as u16)
        }),
{
    let height = end.1 - start.1 + 1;
    let width = end.0 - start.0 + 1;
    let x = c - start.0;
    let y = r - start.1;
    let k = x * height + y;
    assert(width * height >= 0) by (nonlinear_arith)
        requires
            width > 0,
            height > 0,
    ;
    assert(0 <= k < width * height) by (nonlinear_arith)
        requires
            0 <= x < width,
            0 <= y < height,
            k == x * height + y,
    ;
    assert(k / height == x && k % height == y) by (nonlinear_arith)
        requires
            0 <= x,
            0 <= y < height,
            k == x * height + y,
    ;
}

/// Every cell of a rectangle that is read column by column lies between its
/// corners.
pub proof fn column_major_within(start: (u16, u16), end: (u16, u16), k: int)
    requires
        0 <= k < column_major(start, end).len(),
    ensures
        start.0 <= column_major(start, end)[k].0 <= end.0,
        start.1 <= column_major(start, end)[k].1 <= end.1,
{
    let height = end.1 - start.1 + 1;
    let width = end.0 - start.0 + 1;
    assert(0 <= k / height < width && 0 <= k % height < height) by (nonlinear_arith)
        requires
            0 <= k < width * height,
            width > 0,
            height > 0,
    ;
}

/// Reads the cells of the rectangle between `start` and `end` with
/// `get_val`, column by column, up to the first cell in error.
pub fn read_range<F: Fn((u16, u16)) -> Option<i32>>(
    start: (u16, u16),
    end: (u16, u16),
    get_val: &F,
) -> (got: Option<Vec<i32>>)
    requires
        answers_all(get_val),
    ensures
        gathers(get_val, column_major(start, end), shown(got)),
{
    let mut numbers: Vec<i32> = Vec::new();
    if !(start.0 <= end.0 && start.1 <= end.1) {
        assert(reads(get_val, column_major(start, end), numbers@, true));
        return Some(numbers);
    }
    let ghost cells = column_major(start, end);
    let ghost height = end.1 - start.1 + 1;
    proof {
        column_major_at(start, end, start.0 as int, start.1 as int);
    }
    let mut c: u32 = start.0 as u32;
    while c <= end.0 as u32
        invariant
            answers_all(get_val),
            start.0 <= end.0,
            start.1 <= end.1,
            start.0 <= c <= end.0 + 1,
            cells == column_major(start, end),
            height == end.1 - start.1 + 1,
            cells.len() == (end.0 - start.0 + 1) * height,
            numbers@.len() == (c - start.0) * height,
            forall|k: int|
                0 <= k < numbers@.len() ==> get_val.ensures((cells[k],), Some(#[trigger] numbers@[k])),
        decreases end.0 + 1 - c,
    {
        let mut r: u32 = start.1 as u32;
        while r <= end.1 as u32
            invariant
                answers_all(get_val),
                start.0 <= c <= end.0,
                start.1 <= r <= end.1 + 1,
                cells == column_major(start, end),
                height == end.1 - start.1 + 1,
                cells.len() == (end.0 - start.0 + 1) * height,
                numbers@.len() == (c - start.0) * height + (r - start.1),
                forall|k: int|
                    0 <= k < numbers@.len() ==> get_val.ensures(
                        (cells[k],),
                        Some(#[trigger] numbers@[k]),
                    ),
            decreases end.1 + 1 - r,
        {
            proof {
                column_major_at(start, end, c as int, r as int);
            }
            match get_val((c as u16, r as u16)) {
                Some(v) => {
                    numbers.push(v);
                },
                None => {
                    assert(reads(get_val, cells, numbers@, false));
                    return None;
                },
            }
            r = r + 1;
        }
        proof {
            assert((c - start.0) * height + height == (c + 1 - start.0) * height)
                by (nonlinear_arith);
        }
        c = c + 1;
    }
    assert(reads(get_val, cells, numbers@, true));
    Some(numbers)
}

/// The least of `numbers`; the greatest number that a cell can hold if there
/// is none.
pub open spec fn least(numbers: Seq<i32>) -> i32
    decreases numbers.len(),
{
    if numbers.len() == 0 {
        i32::MAX
    } else if numbers.last() < least(numbers.drop_last()) {
        numbers.last()
    } else {
        least(numbers.drop_last())
    }
}

/// The greatest of `numbers`; the least number that a cell can hold if
/// there is none.
pub open spec fn greatest(numbers: Seq<i32>) -> i32
    decreases numbers.len(),
{
    if numbers.len() == 0 {
        i32::MIN
    } else if numbers.last() > greatest(numbers.drop_last()) {
        numbers.last()
    } else {
        greatest(numbers.drop_last())
    }
}

/// The total of `numbers`.
pub open spec fn total(numbers: Seq<i32>) -> int
    decreases numbers.len(),
{
    if numbers.len() == 0 {
        0
    } else {
        total(numbers.drop_last()) + numbers.last()
    }
}

/// The total of at most `n` numbers lies between `n` times the least and `n`
/// times the greatest number that a cell can hold.
proof fn total_bounded(numbers: Seq<i32>)
    ensures
        numbers.len() * i32::MIN <= total(numbers) <= numbers.len() * i32::MAX,
    decreases numbers.len(),
{
    if numbers.len() > 0 {
        total_bounded(numbers.drop_last());
        assert(numbers.drop_last().len() == numbers.len() - 1);
        assert((numbers.len() - 1) * i32::MIN + i32::MIN == numbers.len() * i32::MIN)
            by (nonlinear_arith);
        assert((numbers.len() - 1) * i32::MAX + i32::MAX == numbers.len() * i32::MAX)
            by (nonlinear_arith);
    }
}

/// The mean of `numbers`, rounded toward zero; zero if there is none.
pub open spec fn mean(numbers: Seq<i32>) -> int {
    if numbers.len() == 0 {
        0
    } else {
        quotient(total(numbers), numbers.len() as int)
    }
}

/// Whether `r` is what the function `f` makes of `numbers`: their least,
/// their greatest, their mean rounded toward zero, their total where a cell
/// can hold it, or their standard deviation, rounded, which is zero for fewer
/// than two numbers.
pub open spec fn made_of(f: RangeFunction, numbers: Seq<i32>, r: Option<i32>) -> bool {
    match f {
        RangeFunction::Min => r == Some(least(numbers)),
        RangeFunction::Max => r == Some(greatest(numbers)),
        RangeFunction::Avg => r == Some(mean(numbers) as i32),
        RangeFunction::Sum => r == if holdable(total(numbers)) {
            Some(total(numbers) as i32)
        } else {
            None
        },
        RangeFunction::Stdev => r matches Some(v) && if numbers.len() <= 1 {
            v == 0
        } else {
            deviation_held(numbers, v)
        },
    }
}

/// Whether `r` may be what the function `f` gives for the cells between
/// `start` and `end`, read with `get_val`: nothing where `get_val` answered
/// with nothing for a cell, else what the function makes of the numbers.
pub open spec fn ranged<F: Fn((u16, u16)) -> Option<i32>>(
    get_val: &F,
    start: (u16, u16),
    end: (u16, u16),
    f: RangeFunction,
    r: Option<i32>,
) -> bool {
    exists|got: Option<Seq<i32>>| #[trigger]
        gathers(get_val, column_major(start, end), got) && match got {
            None => r is None,
            Some(numbers) => made_of(f, numbers, r),
        }
}

/// The least number of the cells between `start` and `end`, nothing if a
/// cell is in error.
fn min_range_of<F>(start: (u16, u16), end: (u16, u16), get_val: &F) -> (r: Option<i32>) where
    F: Fn((u16, u16)) -> Option<i32>,

    requires
        answers_all(get_val),
    ensures
        ranged(get_val, start, end, RangeFunction::Min, r),
{
    let got = read_range(start, end, get_val);
    let ghost seen: Option<Seq<i32>> = shown(got);
    let numbers = match got {
        Some(numbers) => numbers,
        None => {
            assert(gathers(get_val, column_major(start, end), seen));
            return None;
        },
    };
    let mut min_val: i32 = i32::MAX;
    let mut i: usize = 0;
    assert(numbers@.take(0) =~= Seq::<i32>::empty());
    while i < numbers.len()
        invariant
            i <= numbers@.len(),
            min_val == least(numbers@.take(i as int)),
        decreases numbers@.len() - i,
    {
        assert(numbers@.take(i + 1).drop_last() =~= numbers@.take(i as int));
        if numbers[i] < min_val {
            min_val = numbers[i];
        }
        i += 1;
    }
    assert(numbers@.take(i as int) =~= numbers@);
    assert(gathers(get_val, column_major(start, end), seen));
    Some(min_val)
}

/// The least number of the cells between `start` and `end`, nothing if a
/// cell is in error.
pub fn min_range<F>(start: (u16, u16), end: (u16, u16), get_val: F) -> (r: Option<i32>) where
    F: Fn((u16, u16)) -> Option<i32>,

    requires
        answers_all(&get_val),
    ensures
        ranged(&get_val, start, end, RangeFunction::Min, r),
{
    min_range_of(start, end, &get_val)
}

/// The greatest number of the cells between `start` and `end`, nothing if a
/// cell is in error.
fn max_range_of<F>(start: (u16, u16), end: (u16, u16), get_val: &F) -> (r: Option<i32>) where
    F: Fn((u16, u16)) -> Option<i32>,

    requires
        answers_all(get_val),
    ensures
        ranged(get_val, start, end, RangeFunction::Max, r),
{
    let got = read_range(start, end, get_val);
    let ghost seen: Option<Seq<i32>> = shown(got);
    let numbers = match got {
        Some(numbers) => numbers,
        None => {
            assert(gathers(get_val, column_major(start, end), seen));
            return None;
        },
    };
    let mut max_val: i32 = i32::MIN;
    let mut i: usize = 0;
    assert(numbers@.take(0) =~= Seq::<i32>::empty());
    while i < numbers.len()
        invariant
            i <= numbers@.len(),
            max_val == greatest(numbers@.take(i as int)),
        decreases numbers@.len() - i,
    {
        assert(numbers@.take(i + 1).drop_last() =~= numbers@.take(i as int));
        if numbers[i] > max_val {
            max_val = numbers[i];
        }
        i += 1;
    }
    assert(numbers@.take(i as int) =~= numbers@);
    assert(gathers(get_val, column_major(start, end), seen));
    Some(max_val)
}

/// The greatest number of the cells between `start` and `end`, nothing if a
/// cell is in error.
pub fn max_range<F>(start: (u16, u16), end: (u16, u16), get_val: F) -> (r: Option<i32>) where
    F: Fn((u16, u16)) -> Option<i32>,

    requires
        answers_all(&get_val),
    ensures
        ranged(&get_val, start, end, RangeFunction::Max, r),
{
    max_range_of(start, end, &get_val)
}

/// The total of `numbers`.
fn add_up(numbers: &Vec<i32>) -> (sum: i128)
    requires
        numbers@.len() <= 0x1_0000_0000,
    ensures
        sum == total(numbers@),
{
    let mut sum: i128 = 0;
    let mut i: usize = 0;
    assert(numbers@.take(0) =~= Seq::<i32>::empty());
    while i < numbers.len()
        invariant
            i <= numbers@.len(),
            numbers@.len() <= 0x1_0000_0000,
            sum == total(numbers@.take(i as int)),
        decreases numbers@.len() - i,
    {
        proof {
            assert(numbers@.take(i + 1).drop_last() =~= numbers@.take(i as int));
            total_bounded(numbers@.take(i as int));
            assert(i * i32::MIN >= 0x1_0000_0000 * i32::MIN) by (nonlinear_arith)
                requires
                    0 <= i <= 0x1_0000_0000,
            ;
            assert(i * i32::MAX <= 0x1_0000_0000 * i32::MAX) by (nonlinear_arith)
                requires
                    0 <= i <= 0x1_0000_0000,
            ;
        }
        sum = sum + numbers[i] as i128;
        i += 1;
    }
    assert(numbers@.take(i as int) =~= numbers@);
    sum
}

/// A rectangle of cells has at most as many cells as there are pairs of a
/// column and a row.
proof fn column_major_small(start: (u16, u16), end: (u16, u16))
    ensures
        column_major(start, end).len() <= 0x1_0000_0000,
{
    if start.0 <= end.0 && start.1 <= end.1 {
        let height = end.1 - start.1 + 1;
        let width = end.0 - start.0 + 1;
        assert(0 <= width * height <= 0x1_0000_0000) by (nonlinear_arith)
            requires
                0 < width <= 0x1_0000,
                0 < height <= 0x1_0000,
        ;
    }
}

/// The mean, rounded toward zero, of the cells between `start` and `end`;
/// nothing if a cell is in error, zero if there is no cell.
fn avg_range_of<F>(start: (u16, u16), end: (u16, u16), get_val: &F) -> (r: Option<i32>) where
    F: Fn((u16, u16)) -> Option<i32>,

    requires
        answers_all(get_val),
    ensures
        ranged(get_val, start, end, RangeFunction::Avg, r),
{
    let got = read_range(start, end, get_val);
    let ghost seen: Option<Seq<i32>> = shown(got);
    assert(gathers(get_val, column_major(start, end), seen));
    let numbers = match got {
        Some(numbers) => numbers,
        None => {
            return None;
        },
    };
    if numbers.len() == 0 {
        return Some(0);
    }
    proof {
        column_major_small(start, end);
        total_bounded(numbers@);
    }
    let sum = add_up(&numbers);
    let count = numbers.len() as i128;
    let negative = sum < 0;
    let magnitude: u128 = if negative {
        (-sum) as u128
    } else {
        sum as u128
    };
    let q: u128 = magnitude / (count as u128);
    proof {
        assert(numbers@.len() * i32::MIN >= 0x1_0000_0000 * i32::MIN) by (nonlinear_arith)
            requires
                0 <= numbers@.len() <= 0x1_0000_0000,
        ;
        assert(numbers@.len() * i32::MAX <= 0x1_0000_0000 * i32::MAX) by (nonlinear_arith)
            requires
                0 <= numbers@.len() <= 0x1_0000_0000,
        ;
        assert(q <= 0x8000_0000) by (nonlinear_arith)
            requires
                q == magnitude / (count as u128),
                count > 0,
                magnitude <= count * 0x8000_0000,
        ;
        if negative {
            assert(q <= 0x8000_0000);
        } else {
            assert(q <= 0x7fff_ffff) by (nonlinear_arith)
                requires
                    q == magnitude / (count as u128),
                    count > 0,
                    magnitude <= count * 0x7fff_ffff,
            ;
        }
    }
    let average: i128 = if negative {
        -(q as i128)
    } else {
        q as i128
    };
    Some(average as i32)
}

/// The mean, rounded toward zero, of the cells between `start` and `end`;
/// nothing if a cell is in error, zero if there is no cell.
pub fn avg_range<F>(start: (u16, u16), end: (u16, u16), get_val: F) -> (r: Option<i32>) where
    F: Fn((u16, u16)) -> Option<i32>,

    requires
        answers_all(&get_val),
    ensures
        ranged(&get_val, start, end, RangeFunction::Avg, r),
{
    avg_range_of(start, end, &get_val)
}

/// The total of the cells between `start` and `end`; nothing if a cell is in
/// error, or if the total is no number that a cell can hold.
fn sum_range_of<F>(start: (u16, u16), end: (u16, u16), get_val: &F) -> (r: Option<i32>) where
    F: Fn((u16, u16)) -> Option<i32>,

    requires
        answers_all(get_val),
    ensures
        ranged(get_val, start, end, RangeFunction::Sum, r),
{
    let got = read_range(start, end, get_val);
    let ghost seen: Option<Seq<i32>> = shown(got);
    assert(gathers(get_val, column_major(start, end), seen));
    let numbers = match got {
        Some(numbers) => numbers,
        None => {
            return None;
        },
    };
    proof {
        column_major_small(start, end);
    }
    let sum = add_up(&numbers);
    if -2147483648 <= sum && sum <= 2147483647 {
        Some(sum as i32)
    } else {
        None
    }
}

/// The total of the cells between `start` and `end`; nothing if a cell is in
/// error, or if the total is no number that a cell can hold.
pub fn sum_range<F>(start: (u16, u16), end: (u16, u16), get_val: F) -> (r: Option<i32>) where
    F: Fn((u16, u16)) -> Option<i32>,

    requires
        answers_all(&get_val),
    ensures
        ranged(&get_val, start, end, RangeFunction::Sum, r),
{
    sum_range_of(start, end, &get_val)
}

/// The total of the squares of `numbers`.
pub open spec fn total_of_squares(numbers: Seq<i32>) -> int
    decreases numbers.len(),
{
    if numbers.len() == 0 {
        0
    } else {
        total_of_squares(numbers.drop_last()) + numbers.last() * numbers.last()
    }
}

/// The number under the root of the standard deviation of `numbers`, times
/// the square of their count: their count times the total of their squares,
/// less the square of their total.
pub open spec fn scatter(numbers: Seq<i32>) -> int {
    numbers.len() * total_of_squares(numbers) - total(numbers) * total(numbers)
}

/// The total of the squares of the distances from `numbers` to `v`.
pub open spec fn distances(numbers: Seq<i32>, v: int) -> int
    decreases numbers.len(),
{
    if numbers.len() == 0 {
        0
    } else {
        distances(numbers.drop_last(), v) + (numbers.last() - v) * (numbers.last() - v)
    }
}

/// The squares of the distances to `v` add up to no less than zero, and to
/// the total of the squares, less twice `v` times the total, plus the count
/// times the square of `v`.
proof fn distances_expand(numbers: Seq<i32>, v: int)
    ensures
        distances(numbers, v) >= 0,
        distances(numbers, v) == total_of_squares(numbers) - 2 * v * total(numbers)
            + numbers.len() * (v * v),
    decreases numbers.len(),
{
    if numbers.len() > 0 {
        let rest = numbers.drop_last();
        distances_expand(rest, v);
        let x = numbers.last() as int;
        let k = rest.len() as int;
        assert(numbers.len() == k + 1);
        assert((x - v) * (x - v) >= 0) by (nonlinear_arith);
        assert(total_of_squares(rest) - 2 * v * total(rest) + k * (v * v) + (x - v) * (x - v)
            == (total_of_squares(rest) + x * x) - 2 * v * (total(rest) + x) + (k + 1) * (v * v))
            by (nonlinear_arith);
    }
}

/// The count of numbers times the total of their squares is no less than
/// the square of their total.
proof fn scatter_is_not_negative(numbers: Seq<i32>)
    ensures
        scatter(numbers) >= 0,
    decreases numbers.len(),
{
    if numbers.len() > 0 {
        let rest = numbers.drop_last();
        scatter_is_not_negative(rest);
        let x = numbers.last() as int;
        let k = rest.len() as int;
        let q = total_of_squares(rest);
        let t = total(rest);
        distances_expand(rest, x);
        assert(numbers.len() == k + 1);
        assert((k + 1) * (q + x * x) - (t + x) * (t + x) == (k * q - t * t) + (q - 2 * x * t + k * (
        x * x))) by (nonlinear_arith);
    }
}

/// Whether `r` is the standard deviation of `numbers`, taken as the whole
/// population and rounded to the nearest whole number, half-way cases away
/// from zero: `r - 1/2 <= sqrt(scatter) / count < r + 1/2`.
pub open spec fn rounds_deviation(numbers: Seq<i32>, r: int) -> bool {
    let n = numbers.len() as int;
    &&& r >= 0
    &&& r == 0 || (2 * r - 1) * n * ((2 * r - 1) * n) <= 4 * scatter(numbers)
    &&& (2 * r + 1) * n * ((2 * r + 1) * n) > 4 * scatter(numbers)
}

/// Whether `v` is the rounded standard deviation of `numbers` as a cell
/// holds it: the rounded deviation, or the greatest number that a cell can
/// hold if the rounded deviation is greater.
pub open spec fn deviation_held(numbers: Seq<i32>, v: i32) -> bool {
    exists|r: int| #[trigger]
        rounds_deviation(numbers, r) && v == if r > i32::MAX {
            i32::MAX as int
        } else {
            r
        }
}

/// The total of the squares of at most `n` numbers is at most `n` times the
/// greatest square of a number that a cell can hold.
proof fn squares_bounded(numbers: Seq<i32>)
    ensures
        0 <= total_of_squares(numbers) <= numbers.len() * 0x4000_0000_0000_0000,
    decreases numbers.len(),
{
    if numbers.len() > 0 {
        squares_bounded(numbers.drop_last());
        let v = numbers.last() as int;
        assert(0 <= v * v <= 0x4000_0000_0000_0000) by (nonlinear_arith)
            requires
                -0x8000_0000 <= v <= 0x7fff_ffff,
        ;
        assert(numbers.drop_last().len() == numbers.len() - 1);
        assert((numbers.len() - 1) * 0x4000_0000_0000_0000 + 0x4000_0000_0000_0000
            == numbers.len() * 0x4000_0000_0000_0000) by (nonlinear_arith);
    }
}

/// The whole part of the square root of `x`.
fn root(x: u128) -> (s: u128)
    ensures
        s * s <= x < (s + 1) * (s + 1),
        s < 0x1_0000_0000_0000_0000,
{
    let mut low: u128 = 0;
    let mut high: u128 = 0x1_0000_0000_0000_0000;
    assert(high * high > x) by (nonlinear_arith)
        requires
            high == 0x1_0000_0000_0000_0000,
            x <= u128::MAX,
    ;
    while high - low > 1
        invariant
            low < high <= 0x1_0000_0000_0000_0000,
            low * low <= x,
            high * high > x,
        decreases high - low,
    {
        let mid = low + (high - low) / 2;
        assert(mid * mid <= 0xffff_ffff_ffff_ffff * 0xffff_ffff_ffff_ffff) by (nonlinear_arith)
            requires
                mid <= 0xffff_ffff_ffff_ffff,
        ;
        if mid * mid <= x {
            low = mid;
        } else {
            high = mid;
        }
    }
    low
}

/// The standard deviation of the cells between `start` and `end`, taken as
/// the whole population and rounded to the nearest whole number; zero for
/// fewer than two cells; nothing if a cell is in error.
fn stdev_range_of<F>(start: (u16, u16), end: (u16, u16), get_val: &F) -> (r: Option<i32>) where
    F: Fn((u16, u16)) -> Option<i32>,

    requires
        answers_all(get_val),
    ensures
        ranged(get_val, start, end, RangeFunction::Stdev, r),
{
    let got = read_range(start, end, get_val);
    let ghost seen: Option<Seq<i32>> = shown(got);
    assert(gathers(get_val, column_major(start, end), seen));
    let numbers = match got {
        Some(numbers) => numbers,
        None => {
            return None;
        },
    };
    if numbers.len() <= 1 {
        return Some(0);
    }
    proof {
        column_major_small(start, end);
        total_bounded(numbers@);
        squares_bounded(numbers@);
    }
    let n: u128 = numbers.len() as u128;
    let sum = add_up(&numbers);
    let mut squares: u128 = 0;
    let mut i: usize = 0;
    assert(numbers@.take(0) =~= Seq::<i32>::empty());
    while i < numbers.len()
        invariant
            i <= numbers@.len(),
            numbers@.len() <= 0x1_0000_0000,
            squares == total_of_squares(numbers@.take(i as int)),
        decreases numbers@.len() - i,
    {
        let v: i64 = numbers[i] as i64;
        proof {
            assert(numbers@.take(i + 1).drop_last() =~= numbers@.take(i as int));
            squares_bounded(numbers@.take(i as int));
            assert(0 <= v * v <= 0x4000_0000_0000_0000) by (nonlinear_arith)
                requires
                    -0x8000_0000 <= v <= 0x7fff_ffff,
            ;
            assert(i * 0x4000_0000_0000_0000 <= 0x1_0000_0000 * 0x4000_0000_0000_0000)
                by (nonlinear_arith)
                requires
                    0 <= i <= 0x1_0000_0000,
            ;
        }
        squares = squares + (v * v) as u128;
        i += 1;
    }
    assert(numbers@.take(i as int) =~= numbers@);
    let magnitude: u128 = if sum < 0 {
        (-sum) as u128
    } else {
        sum as u128
    };
    proof {
        assert(numbers@.len() * i32::MIN >= 0x1_0000_0000 * i32::MIN) by (nonlinear_arith)
            requires
                0 <= numbers@.len() <= 0x1_0000_0000,
        ;
        assert(numbers@.len() * i32::MAX <= 0x1_0000_0000 * i32::MAX) by (nonlinear_arith)
            requires
                0 <= numbers@.len() <= 0x1_0000_0000,
        ;
        assert(numbers@.len() * 0x4000_0000_0000_0000 <= 0x1_0000_0000 * 0x4000_0000_0000_0000)
            by (nonlinear_arith)
            requires
                0 <= numbers@.len() <= 0x1_0000_0000,
        ;
        assert(n * squares <= 0x1_0000_0000 * (0x1_0000_0000 * 0x4000_0000_0000_0000))
            by (nonlinear_arith)
            requires
                0 <= n <= 0x1_0000_0000,
                0 <= squares <= 0x1_0000_0000 * 0x4000_0000_0000_0000,
        ;
        assert(magnitude * magnitude <= 0x8000_0000_0000_0000 * 0x8000_0000_0000_0000)
            by (nonlinear_arith)
            requires
                0 <= magnitude <= 0x8000_0000_0000_0000,
        ;
        assert(magnitude * magnitude == total(numbers@) * total(numbers@)) by (nonlinear_arith)
            requires
                magnitude == total(numbers@) || magnitude == -total(numbers@),
        ;
    }
    let first: u128 = n * squares;
    let second: u128 = magnitude * magnitude;
    proof {
        scatter_is_not_negative(numbers@);
    }
    let spread: u128 = first - second;
    assert(spread == scatter(numbers@));
    let half = root(spread);
    proof {
        assert(half * half + half <= 0xffff_ffff_ffff_ffff * 0xffff_ffff_ffff_ffff
            + 0xffff_ffff_ffff_ffff) by (nonlinear_arith)
            requires
                0 <= half <= 0xffff_ffff_ffff_ffff,
        ;
    }
    let s: u128 = if spread > half * half + half {
        2 * half + 1
    } else {
        2 * half
    };
    let q: u128 = s / n;
    let r: u128 = (q + 1) / 2;
    proof {
        let x = 4 * spread as int;
        assert(s * s <= x < (s + 1) * (s + 1)) by (nonlinear_arith)
            requires
                half * half <= spread < (half + 1) * (half + 1),
                x == 4 * spread,
                s == if spread > half * half + half {
                    2 * half + 1
                } else {
                    2 * half
                },
        ;
        assert(r == 0 || (2 * r - 1) * n * ((2 * r - 1) * n) <= x) by (nonlinear_arith)
            requires
                s * s <= x,
                q == s / n,
                n > 0,
                r == (q + 1) / 2,
                r >= 0,
                s >= 0,
        {
            if r != 0 {
                assert(2 * r - 1 <= q);
                assert(q * n <= s);
                assert((2 * r - 1) * n <= s);
                assert((2 * r - 1) * n >= 0);
                assert((2 * r - 1) * n * ((2 * r - 1) * n) <= s * s);
            }
        }
        assert((2 * r + 1) * n * ((2 * r + 1) * n) > x) by (nonlinear_arith)
            requires
                x < (s + 1) * (s + 1),
                q == s / n,
                n > 0,
                r == (q + 1) / 2,
                s >= 0,
        {
            assert(2 * r + 1 >= q + 1);
            assert((q + 1) * n > s);
            assert((2 * r + 1) * n >= s + 1);
            assert((2 * r + 1) * n * ((2 * r + 1) * n) >= (s + 1) * (s + 1));
        }
        assert(rounds_deviation(numbers@, r as int));
    }
    if r > 2147483647 {
        Some(2147483647)
    } else {
        Some(r as i32)
    }
}

/// The standard deviation of the cells between `start` and `end`, taken as
/// the whole population and rounded to the nearest whole number; zero for
/// fewer than two cells; nothing if a cell is in error.
pub fn stdev_range<F>(start: (u16, u16), end: (u16, u16), get_val: F) -> (r: Option<i32>) where
    F: Fn((u16, u16)) -> Option<i32>,

    requires
        answers_all(&get_val),
    ensures
        ranged(&get_val, start, end, RangeFunction::Stdev, r),
{
    stdev_range_of(start, end, &get_val)
}

/// What a name calls for: a function of a range, or a delay.
pub enum Call {
    Of(RangeFunction),
    Sleep,
}

/// The upper-case form of a character of the basic alphabet; every other
/// character is its own.
pub open spec fn upper(c: char) -> char {
    if is_lower(c) {
        ((c as u8) - 32) as char
    } else {
        c
    }
}

/// What the name `name` calls for, in whatever case its letters are
/// written.
pub open spec fn called(name: Seq<char>) -> Option<Call> {
    let shout = Seq::new(name.len(), |i: int| upper(name[i]));
    if shout == seq!['S', 'L', 'E', 'E', 'P'] {
        Some(Call::Sleep)
    } else if shout == seq!['M', 'I', 'N'] {
        Some(Call::Of(RangeFunction::Min))
    } else if shout == seq!['M', 'A', 'X'] {
        Some(Call::Of(RangeFunction::Max))
    } else if shout == seq!['A', 'V', 'G'] {
        Some(Call::Of(RangeFunction::Avg))
    } else if shout == seq!['S', 'U', 'M'] {
        Some(Call::Of(RangeFunction::Sum))
    } else if shout == seq!['S', 'T', 'D', 'E', 'V'] {
        Some(Call::Of(RangeFunction::Stdev))
    } else {
        None
    }
}

/// What the name `func` calls for.
pub fn read_call(func: &str) -> (call: Option<Call>)
    ensures
        call == called(func@),
{
    let chars = to_chars(func);
    let mut shout: Vec<char> = Vec::new();
    let mut i: usize = 0;
    while i < chars.len()
        invariant
            i <= chars@.len(),
            shout@ == Seq::new(i as nat, |k: int| upper(chars@[k])),
        decreases chars@.len() - i,
    {
        let c = chars[i];
        let u = if 'a' <= c && c <= 'z' {
            ((c as u8) - 32) as char
        } else {
            c
        };
        shout.push(u);
        assert(shout@ =~= Seq::new((i + 1) as nat, |k: int| upper(chars@[k])));
        i += 1;
    }
    let ghost target = Seq::new(func@.len(), |i: int| upper(func@[i]));
    assert(shout@ =~= target);
    let sleep = vec!['S', 'L', 'E', 'E', 'P'];
    let min = vec!['M', 'I', 'N'];
    let max = vec!['M', 'A', 'X'];
    let avg = vec!['A', 'V', 'G'];
    let sum = vec!['S', 'U', 'M'];
    let stdev = vec!['S', 'T', 'D', 'E', 'V'];
    assert(sleep@ =~= seq!['S', 'L', 'E', 'E', 'P']);
    assert(min@ =~= seq!['M', 'I', 'N']);
    assert(max@ =~= seq!['M', 'A', 'X']);
    assert(avg@ =~= seq!['A', 'V', 'G']);
    assert(sum@ =~= seq!['S', 'U', 'M']);
    assert(stdev@ =~= seq!['S', 'T', 'D', 'E', 'V']);
    assert(shout@.subrange(0, shout@.len() as int) =~= shout@);
    let n = shout.len();
    if crate::common::text::same_text(&shout, 0, n, &sleep) {
        Some(Call::Sleep)
    } else if crate::common::text::same_text(&shout, 0, n, &min) {
        Some(Call::Of(RangeFunction::Min))
    } else if crate::common::text::same_text(&shout, 0, n, &max) {
        Some(Call::Of(RangeFunction::Max))
    } else if crate::common::text::same_text(&shout, 0, n, &avg) {
        Some(Call::Of(RangeFunction::Avg))
    } else if crate::common::text::same_text(&shout, 0, n, &sum) {
        Some(Call::Of(RangeFunction::Sum))
    } else if crate::common::text::same_text(&shout, 0, n, &stdev) {
        Some(Call::Of(RangeFunction::Stdev))
    } else {
        None
    }
}

/// Whether `pause` may be asked to wait for any number of seconds above
/// zero.
pub open spec fn waits<P: Fn(i32)>(pause: &P) -> bool {
    forall|seconds: i32| seconds > 0 ==> #[trigger] pause.requires((seconds,))
}

/// Whether `r` may be what a delay gives for the cell `start`, read with
/// `get_val`: what the cell holds.
pub open spec fn delayed<F: Fn((u16, u16)) -> Option<i32>>(
    get_val: &F,
    start: (u16, u16),
    r: Option<i32>,
) -> bool {
    get_val.ensures((start,), r)
}

/// What the function of a range that `f` names gives for the cells between
/// `start` and `end`.
pub fn range_function<F>(f: RangeFunction, start: (u16, u16), end: (u16, u16), get_val: &F) -> (r:
    Option<i32>) where F: Fn((u16, u16)) -> Option<i32>
    requires
        answers_all(get_val),
    ensures
        ranged(get_val, start, end, f, r),
{
    match f {
        RangeFunction::Min => min_range_of(start, end, get_val),
        RangeFunction::Max => max_range_of(start, end, get_val),
        RangeFunction::Avg => avg_range_of(start, end, get_val),
        RangeFunction::Sum => sum_range_of(start, end, get_val),
        RangeFunction::Stdev => stdev_range_of(start, end, get_val),
    }
}

/// Evaluates the function named `func` on the cells between `start` and
/// `end`. The name may be written in any case. A delay reads the cell
/// `start`, asks `pause` to wait for as many seconds as the cell holds if
/// that is more than none, and gives what the cell holds. There is no result
/// for a name that names no function.
pub fn eval_range<F, P>(
    func: &str,
    start: (u16, u16),
    end: (u16, u16),
    get_val: F,
    pause: &P,
) -> (r: Option<i32>) where F: Fn((u16, u16)) -> Option<i32>, P: Fn(i32)
    requires
        answers_all(&get_val),
        waits(pause),
    ensures
        match called(func@) {
            Some(Call::Sleep) => delayed(&get_val, start, r),
            Some(Call::Of(f)) => ranged(&get_val, start, end, f, r),
            None => r is None,
        },
{
    match read_call(func) {
        Some(Call::Sleep) => {
            let answer = get_val(start);
            match answer {
                Some(seconds) => {
                    if seconds > 0 {
                        pause(seconds);
                    }
                },
                None => {},
            }
            answer
        },
        Some(Call::Of(f)) => range_function(f, start, end, &get_val),
        None => None,
    }
}

} // verus!
