//! The functions of a range: least, greatest, mean, total and standard
//! deviation of the numbers in a rectangle of cells.
//!
//! The cells are read in row-major order. A cell that holds text or an error
//! ends the reading with an error; empty cells are passed over. The
//! arithmetic on the numbers that were read is the host's.
use vstd::prelude::*;
use crate::common::cell_value::{CellError, CellValue, Content, Record};
use crate::common::expression::{CellRange, Operator, RangeFunction};
use crate::common::number::{
    ask, chosen, computes, computes_once, serves, single_valued, Number, Reply, Request,
};
use crate::common::structs::AbsCell;
use crate::embedded_backend::storage::{rectangle, valued, Sheet, Storage};

verus! {

/// The numbers among `values`, in order; the error of the first value that
/// is text or an error, if there is one. Empty values are passed over.
pub open spec fn tally(values: Seq<Result<Content, CellError>>) -> Result<Seq<Number>, CellError>
    decreases values.len(),
{
    if values.len() == 0 {
        Ok(Seq::empty())
    } else {
        match tally(values.drop_last()) {
            Err(e) => Err(e),
            Ok(numbers) => match values.last() {
                Ok(Content::Empty) => Ok(numbers),
                Ok(Content::Number(n)) => Ok(numbers.push(n)),
                Ok(Content::Text(_)) => Err(CellError::DependsOnNonNumeric),
                Err(_) => Err(CellError::DependsOnErr),
            },
        }
    }
}

/// The values of `entries`, in order.
pub open spec fn entry_values(entries: Seq<(AbsCell, Record)>) -> Seq<Result<Content, CellError>> {
    Seq::new(entries.len(), |k: int| entries[k].1.value)
}

/// The cells that hold nothing count for nothing: the numbers among the
/// values of all the cells are the numbers among the entries.
pub proof fn tally_of_entries(sheet: Sheet, cells: Seq<AbsCell>)
    ensures
        tally(sheet.values_of(cells)) == tally(entry_values(sheet.held(cells))),
    decreases cells.len(),
{
    if cells.len() > 0 {
        let rest = cells.drop_last();
        tally_of_entries(sheet, rest);
        assert(sheet.values_of(cells).drop_last() =~= sheet.values_of(rest));
        if sheet.cells.contains_key(cells.last()) {
            assert(entry_values(sheet.held(cells)).drop_last() =~= entry_values(sheet.held(rest)));
        }
    } else {
        assert(entry_values(sheet.held(cells)) =~= Seq::<Result<Content, CellError>>::empty());
    }
}

/// The cell that `range` starts at, counted from `origin`.
pub open spec fn first_corner(range: CellRange, origin: AbsCell) -> AbsCell {
    AbsCell {
        row: range.top_left.row_at(origin) as i16,
        col: range.top_left.col_at(origin) as i16,
    }
}

/// The cell that `range` ends at, counted from `origin`.
pub open spec fn last_corner(range: CellRange, origin: AbsCell) -> AbsCell {
    AbsCell {
        row: range.bottom_right.row_at(origin) as i16,
        col: range.bottom_right.col_at(origin) as i16,
    }
}

/// The numbers that `range`, counted from `origin`, holds in `sheet`, or the
/// error that reading it ends with.
pub open spec fn numbers_of(sheet: Sheet, origin: AbsCell, range: CellRange) -> Result<
    Seq<Number>,
    CellError,
> {
    tally(sheet.values_of(rectangle(first_corner(range, origin), last_corner(range, origin))))
}

/// The ways to bring a sequence of numbers down to one, a pair at a time.
pub enum Fold {
    Total,
    Least,
    Greatest,
}

impl Fold {
    /// What the host is asked for to take `x` into `acc`.
    pub open spec fn step(self, acc: Number, x: Number) -> Request {
        match self {
            Fold::Total => Request::Binary(Operator::Add, acc, x),
            Fold::Least => Request::Lesser(acc, x),
            Fold::Greatest => Request::Greater(acc, x),
        }
    }
}

/// Whether `out` may come of taking the numbers of `numbers` into `start`
/// one after another, each by one answer of `host`.
pub open spec fn folds<H: Fn(Request) -> Reply>(
    host: &H,
    fold: Fold,
    numbers: Seq<Number>,
    start: Number,
    out: Number,
) -> bool
    decreases numbers.len(),
{
    if numbers.len() == 0 {
        out == start
    } else {
        exists|acc: Number| #[trigger]
            chosen(acc) && folds(host, fold, numbers.drop_last(), start, acc) && computes(
                host,
                fold.step(acc, numbers.last()),
                out,
            )
    }
}

/// Whether `out` may be the mean of `numbers`, of which there is at least
/// one: their total divided by their count.
pub open spec fn averages<H: Fn(Request) -> Reply>(host: &H, numbers: Seq<Number>, out: Number) -> bool {
    exists|total: Number, count: Number|
        #![trigger folds(host, Fold::Total, numbers, Number::zero(), total), computes(host, Request::Count(numbers.len() as u64), count)]
        folds(host, Fold::Total, numbers, Number::zero(), total) && computes(
            host,
            Request::Count(numbers.len() as u64),
            count,
        ) && computes(host, Request::Binary(Operator::Divide, total, count), out)
}

/// Whether `out` may be the square of the distance from `x` to `mean`.
pub open spec fn squares<H: Fn(Request) -> Reply>(host: &H, x: Number, mean: Number, out: Number) -> bool {
    exists|distance: Number| #[trigger]
        computes(host, Request::Binary(Operator::Subtract, x, mean), distance) && computes(
            host,
            Request::Binary(Operator::Multiply, distance, distance),
            out,
        )
}

/// Whether `out` may be the total of the squares of the distances from the
/// numbers of `numbers` to `mean`.
pub open spec fn spreads<H: Fn(Request) -> Reply>(
    host: &H,
    numbers: Seq<Number>,
    mean: Number,
    out: Number,
) -> bool
    decreases numbers.len(),
{
    if numbers.len() == 0 {
        out == Number::zero()
    } else {
        exists|acc: Number, square: Number| #[trigger]
            chosen((acc, square)) && spreads(host, numbers.drop_last(), mean, acc) && squares(
                host,
                numbers.last(),
                mean,
                square,
            ) && computes(host, Request::Binary(Operator::Add, acc, square), out)
    }
}

/// Whether `out` may be the standard deviation of `numbers`, of which there
/// is at least one: the root of the mean of the squares of their distances
/// to their mean.
pub open spec fn deviates<H: Fn(Request) -> Reply>(host: &H, numbers: Seq<Number>, out: Number) -> bool {
    exists|mean: Number, spread: Number, count: Number, variance: Number|
        #![trigger averages(host, numbers, mean), spreads(host, numbers, mean, spread), computes(host, Request::Count(numbers.len() as u64), count), computes(host, Request::Root(variance), out)]
        averages(host, numbers, mean) && spreads(host, numbers, mean, spread) && computes(
            host,
            Request::Count(numbers.len() as u64),
            count,
        ) && computes(host, Request::Binary(Operator::Divide, spread, count), variance) && computes(
            host,
            Request::Root(variance),
            out,
        )
}

/// Whether `out` may be what `function` makes of `numbers`: zero of none;
/// else their least, greatest, mean, total or standard deviation.
pub open spec fn reduces<H: Fn(Request) -> Reply>(
    host: &H,
    function: RangeFunction,
    numbers: Seq<Number>,
    out: Number,
) -> bool {
    if numbers.len() == 0 {
        out == Number::zero()
    } else {
        match function {
            RangeFunction::Min => folds(host, Fold::Least, numbers.drop_first(), numbers[0], out),
            RangeFunction::Max => folds(host, Fold::Greatest, numbers.drop_first(), numbers[0], out),
            RangeFunction::Sum => folds(host, Fold::Total, numbers, Number::zero(), out),
            RangeFunction::Avg => averages(host, numbers, out),
            RangeFunction::Stdev => deviates(host, numbers, out),
        }
    }
}

/// Whether `out` may be what `function` gives for `range`, counted from
/// `origin`, in `sheet`: the error that reading the range ends with, or what
/// the function makes of its numbers.
pub open spec fn aggregates<H: Fn(Request) -> Reply>(
    host: &H,
    function: RangeFunction,
    sheet: Sheet,
    origin: AbsCell,
    range: CellRange,
    out: Result<Number, CellError>,
) -> bool {
    match numbers_of(sheet, origin, range) {
        Err(e) => out == Err::<Number, CellError>(e),
        Ok(numbers) => out matches Ok(n) && reduces(host, function, numbers, n),
    }
}

/// With a host that answers with one value only, a sequence of numbers is
/// brought down to one number only.
pub proof fn folds_once<H: Fn(Request) -> Reply>(
    host: &H,
    fold: Fold,
    numbers: Seq<Number>,
    start: Number,
    a: Number,
    b: Number,
)
    requires
        single_valued(host),
        folds(host, fold, numbers, start, a),
        folds(host, fold, numbers, start, b),
    ensures
        a == b,
    decreases numbers.len(),
{
    if numbers.len() > 0 {
        let x = choose|acc: Number| #[trigger]
            chosen(acc) && folds(host, fold, numbers.drop_last(), start, acc) && computes(
                host,
                fold.step(acc, numbers.last()),
                a,
            );
        let y = choose|acc: Number| #[trigger]
            chosen(acc) && folds(host, fold, numbers.drop_last(), start, acc) && computes(
                host,
                fold.step(acc, numbers.last()),
                b,
            );
        folds_once(host, fold, numbers.drop_last(), start, x, y);
        computes_once(host, fold.step(x, numbers.last()), a, b);
    }
}

/// With a host that answers with one value only, numbers have one mean
/// only.
pub proof fn averages_once<H: Fn(Request) -> Reply>(
    host: &H,
    numbers: Seq<Number>,
    a: Number,
    b: Number,
)
    requires
        single_valued(host),
        averages(host, numbers, a),
        averages(host, numbers, b),
    ensures
        a == b,
{
    let (t1, c1) = choose|total: Number, count: Number|
        #![trigger folds(host, Fold::Total, numbers, Number::zero(), total), computes(host, Request::Count(numbers.len() as u64), count)]
        folds(host, Fold::Total, numbers, Number::zero(), total) && computes(
            host,
            Request::Count(numbers.len() as u64),
            count,
        ) && computes(host, Request::Binary(Operator::Divide, total, count), a);
    let (t2, c2) = choose|total: Number, count: Number|
        #![trigger folds(host, Fold::Total, numbers, Number::zero(), total), computes(host, Request::Count(numbers.len() as u64), count)]
        folds(host, Fold::Total, numbers, Number::zero(), total) && computes(
            host,
            Request::Count(numbers.len() as u64),
            count,
        ) && computes(host, Request::Binary(Operator::Divide, total, count), b);
    folds_once(host, Fold::Total, numbers, Number::zero(), t1, t2);
    computes_once(host, Request::Count(numbers.len() as u64), c1, c2);
    computes_once(host, Request::Binary(Operator::Divide, t1, c1), a, b);
}

/// With a host that answers with one value only, the distance of a number
/// to a mean has one square only.
pub proof fn squares_once<H: Fn(Request) -> Reply>(
    host: &H,
    x: Number,
    mean: Number,
    a: Number,
    b: Number,
)
    requires
        single_valued(host),
        squares(host, x, mean, a),
        squares(host, x, mean, b),
    ensures
        a == b,
{
    let d1 = choose|distance: Number| #[trigger]
        computes(host, Request::Binary(Operator::Subtract, x, mean), distance) && computes(
            host,
            Request::Binary(Operator::Multiply, distance, distance),
            a,
        );
    let d2 = choose|distance: Number| #[trigger]
        computes(host, Request::Binary(Operator::Subtract, x, mean), distance) && computes(
            host,
            Request::Binary(Operator::Multiply, distance, distance),
            b,
        );
    computes_once(host, Request::Binary(Operator::Subtract, x, mean), d1, d2);
    computes_once(host, Request::Binary(Operator::Multiply, d1, d1), a, b);
}

/// With a host that answers with one value only, the squares of the
/// distances of numbers to a mean have one total only.
pub proof fn spreads_once<H: Fn(Request) -> Reply>(
    host: &H,
    numbers: Seq<Number>,
    mean: Number,
    a: Number,
    b: Number,
)
    requires
        single_valued(host),
        spreads(host, numbers, mean, a),
        spreads(host, numbers, mean, b),
    ensures
        a == b,
    decreases numbers.len(),
{
    if numbers.len() > 0 {
        let (x1, s1) = choose|acc: Number, square: Number| #[trigger]
            chosen((acc, square)) && spreads(host, numbers.drop_last(), mean, acc) && squares(
                host,
                numbers.last(),
                mean,
                square,
            ) && computes(host, Request::Binary(Operator::Add, acc, square), a);
        let (x2, s2) = choose|acc: Number, square: Number| #[trigger]
            chosen((acc, square)) && spreads(host, numbers.drop_last(), mean, acc) && squares(
                host,
                numbers.last(),
                mean,
                square,
            ) && computes(host, Request::Binary(Operator::Add, acc, square), b);
        spreads_once(host, numbers.drop_last(), mean, x1, x2);
        squares_once(host, numbers.last(), mean, s1, s2);
        computes_once(host, Request::Binary(Operator::Add, x1, s1), a, b);
    }
}

/// With a host that answers with one value only, numbers have one standard
/// deviation only.
pub proof fn deviates_once<H: Fn(Request) -> Reply>(
    host: &H,
    numbers: Seq<Number>,
    a: Number,
    b: Number,
)
    requires
        single_valued(host),
        deviates(host, numbers, a),
        deviates(host, numbers, b),
    ensures
        a == b,
{
    let (m1, s1, c1, v1) = choose|mean: Number, spread: Number, count: Number, variance: Number|
        #![trigger averages(host, numbers, mean), spreads(host, numbers, mean, spread), computes(host, Request::Count(numbers.len() as u64), count), computes(host, Request::Root(variance), a)]
        averages(host, numbers, mean) && spreads(host, numbers, mean, spread) && computes(
            host,
            Request::Count(numbers.len() as u64),
            count,
        ) && computes(host, Request::Binary(Operator::Divide, spread, count), variance) && computes(
            host,
            Request::Root(variance),
            a,
        );
    let (m2, s2, c2, v2) = choose|mean: Number, spread: Number, count: Number, variance: Number|
        #![trigger averages(host, numbers, mean), spreads(host, numbers, mean, spread), computes(host, Request::Count(numbers.len() as u64), count), computes(host, Request::Root(variance), b)]
        averages(host, numbers, mean) && spreads(host, numbers, mean, spread) && computes(
            host,
            Request::Count(numbers.len() as u64),
            count,
        ) && computes(host, Request::Binary(Operator::Divide, spread, count), variance) && computes(
            host,
            Request::Root(variance),
            b,
        );
    averages_once(host, numbers, m1, m2);
    spreads_once(host, numbers, m1, s1, s2);
    computes_once(host, Request::Count(numbers.len() as u64), c1, c2);
    computes_once(host, Request::Binary(Operator::Divide, s1, c1), v1, v2);
    computes_once(host, Request::Root(v1), a, b);
}

/// With a host that answers with one value only, a function of a range
/// gives one result only.
pub proof fn aggregates_once<H: Fn(Request) -> Reply>(
    host: &H,
    function: RangeFunction,
    sheet: Sheet,
    origin: AbsCell,
    range: CellRange,
    a: Result<Number, CellError>,
    b: Result<Number, CellError>,
)
    requires
        single_valued(host),
        aggregates(host, function, sheet, origin, range, a),
        aggregates(host, function, sheet, origin, range, b),
    ensures
        a == b,
{
    match numbers_of(sheet, origin, range) {
        Err(_) => {},
        Ok(numbers) => {
            let x = a->Ok_0;
            let y = b->Ok_0;
            if numbers.len() > 0 {
                match function {
                    RangeFunction::Min => folds_once(
                        host,
                        Fold::Least,
                        numbers.drop_first(),
                        numbers[0],
                        x,
                        y,
                    ),
                    RangeFunction::Max => folds_once(
                        host,
                        Fold::Greatest,
                        numbers.drop_first(),
                        numbers[0],
                        x,
                        y,
                    ),
                    RangeFunction::Sum => folds_once(
                        host,
                        Fold::Total,
                        numbers,
                        Number::zero(),
                        x,
                        y,
                    ),
                    RangeFunction::Avg => averages_once(host, numbers, x, y),
                    RangeFunction::Stdev => deviates_once(host, numbers, x, y),
                }
            }
        },
    }
}

/// The numbers that `range`, counted from `cell`, holds in the store, or the
/// error that reading it ends with.
pub fn gather(storage: &Storage, cell: AbsCell, range: &CellRange) -> (r: Result<
    Vec<Number>,
    CellError,
>)
    requires
        storage.wf(),
        range.legal_at(cell, storage@.rows, storage@.cols),
    ensures
        match numbers_of(storage@, cell, *range) {
            Err(e) => r == Err::<Vec<Number>, CellError>(e),
            Ok(numbers) => r matches Ok(found) && found@ == numbers,
        },
{
    let top_left = range.top_left.to_abs(cell);
    let bottom_right = range.bottom_right.to_abs(cell);
    let found = storage.get_value_range_sparse(top_left, bottom_right);
    let ghost held = storage@.held(rectangle(top_left, bottom_right));
    let ghost entries = entry_values(held);
    let mut numbers: Vec<Number> = Vec::new();
    let mut i: usize = 0;
    proof {
        tally_of_entries(storage@, rectangle(top_left, bottom_right));
        assert(entries.take(0) =~= Seq::<Result<Content, CellError>>::empty());
    }
    while i < found.len()
        invariant
            i <= found@.len(),
            found@.len() == entries.len(),
            numbers_of(storage@, cell, *range) == tally(entries),
            forall|k: int|
                0 <= k < found@.len() ==> valued(found@[k]).1 == #[trigger] entries[k],
            tally(entries.take(i as int)) == Ok::<Seq<Number>, CellError>(numbers@),
        decreases found@.len() - i,
    {
        proof {
            assert(entries.take(i + 1).drop_last() =~= entries.take(i as int));
            assert(entries.take(i + 1).last() == entries[i as int]);
            assert(valued(found@[i as int]).1 == entries[i as int]);
        }
        match &found[i].1 {
            Ok(CellValue::Number(n)) => {
                numbers.push(*n);
            },
            Ok(CellValue::String(_)) => {
                proof {
                    assert(entries[i as int] is Ok);
                    assert(tally(entries.take(i + 1)) == Err::<Seq<Number>, CellError>(
                        CellError::DependsOnNonNumeric,
                    ));
                    tally_keeps_error(entries, i + 1);
                }
                return Err(CellError::DependsOnNonNumeric);
            },
            Ok(CellValue::Empty) => {},
            Err(_) => {
                proof {
                    assert(entries[i as int] is Err);
                    assert(tally(entries.take(i + 1)) == Err::<Seq<Number>, CellError>(
                        CellError::DependsOnErr,
                    ));
                    tally_keeps_error(entries, i + 1);
                }
                return Err(CellError::DependsOnErr);
            },
        }
        i += 1;
    }
    assert(entries.take(i as int) =~= entries);
    Ok(numbers)
}

/// An error among the first values is the error of the whole.
pub proof fn tally_keeps_error(entries: Seq<Result<Content, CellError>>, upto: int)
    requires
        0 <= upto <= entries.len(),
        tally(entries.take(upto)) is Err,
    ensures
        tally(entries) == tally(entries.take(upto)),
    decreases entries.len() - upto,
{
    if upto < entries.len() {
        assert(entries.take(upto + 1).drop_last() =~= entries.take(upto));
        tally_keeps_error(entries, upto + 1);
    } else {
        assert(entries.take(upto) =~= entries);
    }
}

/// Takes the numbers of `numbers` from place `from` on into `start`, one
/// after another.
pub fn fold<H: Fn(Request) -> Reply>(
    host: &H,
    kind: Fold,
    numbers: &Vec<Number>,
    from: usize,
    start: Number,
) -> (out: Number)
    requires
        serves(host),
        from <= numbers@.len(),
    ensures
        folds(host, kind, numbers@.subrange(from as int, numbers@.len() as int), start, out),
{
    let mut acc = start;
    let mut i: usize = from;
    while i < numbers.len()
        invariant
            serves(host),
            from <= i <= numbers@.len(),
            folds(host, kind, numbers@.subrange(from as int, i as int), start, acc),
        decreases numbers@.len() - i,
    {
        let x = numbers[i];
        let request = match kind {
            Fold::Total => Request::Binary(Operator::Add, acc, x),
            Fold::Least => Request::Lesser(acc, x),
            Fold::Greatest => Request::Greater(acc, x),
        };
        let next = ask(host, request);
        proof {
            let longer = numbers@.subrange(from as int, i + 1);
            assert(longer.drop_last() =~= numbers@.subrange(from as int, i as int));
            assert(longer.last() == x);
            assert(request == kind.step(acc, longer.last()));
            assert(chosen(acc));
        }
        acc = next;
        i += 1;
    }
    acc
}

/// The mean of `numbers`, of which there is at least one.
pub fn mean<H: Fn(Request) -> Reply>(host: &H, numbers: &Vec<Number>) -> (out: Number)
    requires
        serves(host),
        numbers@.len() > 0,
    ensures
        averages(host, numbers@, out),
{
    let total = fold(host, Fold::Total, numbers, 0, Number::make_zero());
    assert(numbers@.subrange(0, numbers@.len() as int) =~= numbers@);
    let count = ask(host, Request::Count(numbers.len() as u64));
    let out = ask(host, Request::Binary(Operator::Divide, total, count));
    assert(folds(host, Fold::Total, numbers@, Number::zero(), total) && computes(
        host,
        Request::Count(numbers@.len() as u64),
        count,
    ) && computes(host, Request::Binary(Operator::Divide, total, count), out));
    out
}

/// The standard deviation of `numbers`, of which there is at least one.
pub fn deviation<H: Fn(Request) -> Reply>(host: &H, numbers: &Vec<Number>) -> (out: Number)
    requires
        serves(host),
        numbers@.len() > 0,
    ensures
        deviates(host, numbers@, out),
{
    let middle = mean(host, numbers);
    let mut spread = Number::make_zero();
    let mut i: usize = 0;
    assert(numbers@.take(0) =~= Seq::<Number>::empty());
    while i < numbers.len()
        invariant
            serves(host),
            i <= numbers@.len(),
            spreads(host, numbers@.take(i as int), middle, spread),
        decreases numbers@.len() - i,
    {
        let x = numbers[i];
        let distance = ask(host, Request::Binary(Operator::Subtract, x, middle));
        let square = ask(host, Request::Binary(Operator::Multiply, distance, distance));
        let next = ask(host, Request::Binary(Operator::Add, spread, square));
        proof {
            let longer = numbers@.take(i + 1);
            assert(longer.drop_last() =~= numbers@.take(i as int));
            assert(longer.last() == x);
            assert(computes(host, Request::Binary(Operator::Subtract, x, middle), distance)
                && computes(host, Request::Binary(Operator::Multiply, distance, distance), square));
            assert(squares(host, longer.last(), middle, square));
            assert(chosen((spread, square)));
        }
        spread = next;
        i += 1;
    }
    assert(numbers@.take(i as int) =~= numbers@);
    let count = ask(host, Request::Count(numbers.len() as u64));
    let variance = ask(host, Request::Binary(Operator::Divide, spread, count));
    let out = ask(host, Request::Root(variance));
    assert(averages(host, numbers@, middle) && spreads(host, numbers@, middle, spread) && computes(
        host,
        Request::Count(numbers@.len() as u64),
        count,
    ) && computes(host, Request::Binary(Operator::Divide, spread, count), variance) && computes(
        host,
        Request::Root(variance),
        out,
    ));
    out
}

/// What `function` makes of `numbers`.
pub fn reduce<H: Fn(Request) -> Reply>(host: &H, function: RangeFunction, numbers: &Vec<Number>) -> (out:
    Number)
    requires
        serves(host),
    ensures
        reduces(host, function, numbers@, out),
{
    if numbers.len() == 0 {
        return Number::make_zero();
    }
    proof {
        assert(numbers@.subrange(1, numbers@.len() as int) =~= numbers@.drop_first());
        assert(numbers@.subrange(0, numbers@.len() as int) =~= numbers@);
    }
    match function {
        RangeFunction::Min => fold(host, Fold::Least, numbers, 1, numbers[0]),
        RangeFunction::Max => fold(host, Fold::Greatest, numbers, 1, numbers[0]),
        RangeFunction::Sum => fold(host, Fold::Total, numbers, 0, Number::make_zero()),
        RangeFunction::Avg => mean(host, numbers),
        RangeFunction::Stdev => deviation(host, numbers),
    }
}

/// What `function` gives for `range`, counted from `cell`, in the store.
pub fn aggregate<H: Fn(Request) -> Reply>(
    storage: &Storage,
    cell: AbsCell,
    function: RangeFunction,
    range: &CellRange,
    host: &H,
) -> (out: Result<Number, CellError>)
    requires
        storage.wf(),
        serves(host),
        range.legal_at(cell, storage@.rows, storage@.cols),
    ensures
        aggregates(host, function, storage@, cell, *range, out),
{
    match gather(storage, cell, range) {
        Err(e) => Err(e),
        Ok(numbers) => Ok(reduce(host, function, &numbers)),
    }
}

/// The greatest number of the range; zero if it holds no number.
pub fn max<H: Fn(Request) -> Reply>(storage: &Storage, cell: AbsCell, range: &CellRange, host: &H) -> (out:
    Result<Number, CellError>)
    requires
        storage.wf(),
        serves(host),
        range.legal_at(cell, storage@.rows, storage@.cols),
    ensures
        aggregates(host, RangeFunction::Max, storage@, cell, *range, out),
{
    aggregate(storage, cell, RangeFunction::Max, range, host)
}

/// The least number of the range; zero if it holds no number.
pub fn min<H: Fn(Request) -> Reply>(storage: &Storage, cell: AbsCell, range: &CellRange, host: &H) -> (out:
    Result<Number, CellError>)
    requires
        storage.wf(),
        serves(host),
        range.legal_at(cell, storage@.rows, storage@.cols),
    ensures
        aggregates(host, RangeFunction::Min, storage@, cell, *range, out),
{
    aggregate(storage, cell, RangeFunction::Min, range, host)
}

/// The mean of the numbers of the range; zero if it holds no number.
pub fn average<H: Fn(Request) -> Reply>(
    storage: &Storage,
    cell: AbsCell,
    range: &CellRange,
    host: &H,
) -> (out: Result<Number, CellError>)
    requires
        storage.wf(),
        serves(host),
        range.legal_at(cell, storage@.rows, storage@.cols),
    ensures
        aggregates(host, RangeFunction::Avg, storage@, cell, *range, out),
{
    aggregate(storage, cell, RangeFunction::Avg, range, host)
}

/// The total of the numbers of the range; zero if it holds no number.
pub fn sum<H: Fn(Request) -> Reply>(storage: &Storage, cell: AbsCell, range: &CellRange, host: &H) -> (out:
    Result<Number, CellError>)
    requires
        storage.wf(),
        serves(host),
        range.legal_at(cell, storage@.rows, storage@.cols),
    ensures
        aggregates(host, RangeFunction::Sum, storage@, cell, *range, out),
{
    aggregate(storage, cell, RangeFunction::Sum, range, host)
}

/// The standard deviation of the numbers of the range, taken as the whole
/// population; zero if it holds no number.
pub fn stdev<H: Fn(Request) -> Reply>(storage: &Storage, cell: AbsCell, range: &CellRange, host: &H) -> (out:
    Result<Number, CellError>)
    requires
        storage.wf(),
        serves(host),
        range.legal_at(cell, storage@.rows, storage@.cols),
    ensures
        aggregates(host, RangeFunction::Stdev, storage@, cell, *range, out),
{
    aggregate(storage, cell, RangeFunction::Stdev, range, host)
}

} // verus!
