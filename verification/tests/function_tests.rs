use embedded::function::{
    avg_range, eval_binary, eval_range, max_range, min_range, stdev_range, sum_range,
};

#[test]
fn test_eval_binary() {
    // Test addition
    assert_eq!(eval_binary(1, 5, 3), Some(8));
    assert_eq!(eval_binary(1, -5, 10), Some(5));

    // Test subtraction
    assert_eq!(eval_binary(2, 10, 4), Some(6));
    assert_eq!(eval_binary(2, 5, 10), Some(-5));

    // Test multiplication
    assert_eq!(eval_binary(3, 6, 7), Some(42));
    assert_eq!(eval_binary(3, -3, 4), Some(-12));

    // Test division
    assert_eq!(eval_binary(5, 10, 2), Some(5));
    assert_eq!(eval_binary(5, 7, 2), Some(3)); // Integer division rounds down
    assert_eq!(eval_binary(5, -10, 3), Some(-3)); // Integer division with negative

    // Test division by zero
    assert_eq!(eval_binary(5, 10, 0), None);

    // Test invalid operator
    assert_eq!(eval_binary(4, 10, 5), None);
    assert_eq!(eval_binary(0, 10, 5), None);
    assert_eq!(eval_binary(-1, 10, 5), None);
}

#[test]
fn test_min_range() {
    // Create a mock getter function
    let values = vec![((1, 1), 10), ((1, 2), 5), ((2, 1), 15), ((2, 2), 20)];
    let get_val = |coord: (u16, u16)| -> Option<i32> {
        values.iter().find(|(c, _)| *c == coord).map(|(_, v)| *v)
    };

    // Test normal case
    assert_eq!(min_range((1, 1), (2, 2), get_val), Some(5));

    // Test single cell
    assert_eq!(min_range((1, 1), (1, 1), get_val), Some(10));

    // Test error case (missing cell)
    let get_val_with_error = |coord: (u16, u16)| -> Option<i32> {
        if coord == (2, 2) {
            None
        } else {
            get_val(coord)
        }
    };
    assert_eq!(min_range((1, 1), (2, 2), get_val_with_error), None);
}

#[test]
fn test_max_range() {
    // Create a mock getter function
    let values = vec![((1, 1), 10), ((1, 2), 5), ((2, 1), 15), ((2, 2), 20)];
    let get_val = |coord: (u16, u16)| -> Option<i32> {
        values.iter().find(|(c, _)| *c == coord).map(|(_, v)| *v)
    };

    // Test normal case
    assert_eq!(max_range((1, 1), (2, 2), get_val), Some(20));

    // Test single cell
    assert_eq!(max_range((1, 1), (1, 1), get_val), Some(10));

    // Test error case (missing cell)
    let get_val_with_error = |coord: (u16, u16)| -> Option<i32> {
        if coord == (2, 2) {
            None
        } else {
            get_val(coord)
        }
    };
    assert_eq!(max_range((1, 1), (2, 2), get_val_with_error), None);
}

#[test]
fn test_avg_range() {
    // Create a mock getter function
    let values = vec![((1, 1), 10), ((1, 2), 5), ((2, 1), 15), ((2, 2), 20)];
    let get_val = |coord: (u16, u16)| -> Option<i32> {
        values.iter().find(|(c, _)| *c == coord).map(|(_, v)| *v)
    };

    // Test normal case
    assert_eq!(avg_range((1, 1), (2, 2), get_val), Some(12)); // (10+5+15+20)/4 = 12.5, rounded down to 12

    // Test single cell
    assert_eq!(avg_range((1, 1), (1, 1), get_val), Some(10));

    // Test with empty range (no cells found)
    let empty_get_val = |_: (u16, u16)| -> Option<i32> { None };
    assert_eq!(avg_range((5, 5), (5, 5), empty_get_val), None);

    // Test error case (missing cell)
    let get_val_with_error = |coord: (u16, u16)| -> Option<i32> {
        if coord == (2, 2) {
            None
        } else {
            get_val(coord)
        }
    };
    assert_eq!(avg_range((1, 1), (2, 2), get_val_with_error), None);
}

#[test]
fn test_sum_range() {
    // Create a mock getter function
    let values = vec![((1, 1), 10), ((1, 2), 5), ((2, 1), 15), ((2, 2), 20)];
    let get_val = |coord: (u16, u16)| -> Option<i32> {
        values.iter().find(|(c, _)| *c == coord).map(|(_, v)| *v)
    };

    // Test normal case
    assert_eq!(sum_range((1, 1), (2, 2), get_val), Some(50)); // 10+5+15+20 = 50

    // Test single cell
    assert_eq!(sum_range((1, 1), (1, 1), get_val), Some(10));

    // Test with negative values
    let neg_values = vec![((1, 1), -10), ((1, 2), 5), ((2, 1), -15), ((2, 2), 20)];
    let neg_get_val = |coord: (u16, u16)| -> Option<i32> {
        neg_values
            .iter()
            .find(|(c, _)| *c == coord)
            .map(|(_, v)| *v)
    };
    assert_eq!(sum_range((1, 1), (2, 2), neg_get_val), Some(0)); // -10+5-15+20 = 0

    // Test error case (missing cell)
    let get_val_with_error = |coord: (u16, u16)| -> Option<i32> {
        if coord == (2, 2) {
            None
        } else {
            get_val(coord)
        }
    };
    assert_eq!(sum_range((1, 1), (2, 2), get_val_with_error), None);
}

#[test]
fn eval_binary_refuses_what_no_cell_can_hold() {
    assert_eq!(eval_binary(1, i32::MAX, 1), None);
    assert_eq!(eval_binary(2, i32::MIN, 1), None);
    assert_eq!(eval_binary(3, 65536, 65536), None);
    assert_eq!(eval_binary(5, i32::MIN, -1), None);
    assert_eq!(eval_binary(5, -7, -2), Some(3));
    assert_eq!(eval_binary(5, 7, -2), Some(-3));
}

#[test]
fn ranges_are_read_column_by_column() {
    // The first cell in error ends the reading: the getter is not asked again.
    let asked = std::cell::RefCell::new(Vec::new());
    let get_val = |coord: (u16, u16)| -> Option<i32> {
        asked.borrow_mut().push(coord);
        if coord == (1, 2) {
            None
        } else {
            Some(1)
        }
    };
    assert_eq!(sum_range((1, 1), (2, 2), get_val), None);
    assert_eq!(asked.borrow().clone(), vec![(1, 1), (1, 2)]);
}

#[test]
fn range_with_corners_out_of_order_holds_nothing() {
    let get_val = |_: (u16, u16)| -> Option<i32> { None };
    assert_eq!(sum_range((3, 3), (1, 1), get_val), Some(0));
    assert_eq!(avg_range((3, 3), (1, 1), get_val), Some(0));
    assert_eq!(min_range((3, 3), (1, 1), get_val), Some(i32::MAX));
    assert_eq!(max_range((3, 3), (1, 1), get_val), Some(i32::MIN));
}

#[test]
fn sum_range_refuses_overflow() {
    let get_val = |_: (u16, u16)| -> Option<i32> { Some(i32::MAX) };
    assert_eq!(sum_range((1, 1), (1, 2), get_val), None);
    assert_eq!(avg_range((1, 1), (1, 2), get_val), Some(i32::MAX));
}

#[test]
fn test_stdev_range() {
    // Create a mock getter function with values having a known standard deviation
    // Using values: 2, 4, 4, 4, 5, 5, 7, 9 => mean = 5, variance = 4, stdev = 2
    let values = vec![
        ((1, 1), 2),
        ((1, 2), 4),
        ((1, 3), 4),
        ((1, 4), 4),
        ((2, 1), 5),
        ((2, 2), 5),
        ((2, 3), 7),
        ((2, 4), 9),
    ];
    let get_val = |coord: (u16, u16)| -> Option<i32> {
        values.iter().find(|(c, _)| *c == coord).map(|(_, v)| *v)
    };

    // Test normal case
    assert_eq!(stdev_range((1, 1), (2, 4), get_val), Some(2));

    // Test with fewer than 2 cells (should return 0)
    assert_eq!(stdev_range((1, 1), (1, 1), get_val), Some(0));

    // Test error case (missing cell)
    let get_val_with_error = |coord: (u16, u16)| -> Option<i32> {
        if coord == (2, 2) {
            None
        } else {
            get_val(coord)
        }
    };
    assert_eq!(stdev_range((1, 1), (2, 4), get_val_with_error), None);
}

#[test]
fn test_eval_range() {
    let pause = |_seconds: i32| {};
    // Create a mock getter function
    let values = vec![((1, 1), 10), ((1, 2), 5), ((2, 1), 15), ((2, 2), 20)];
    let get_val = |coord: (u16, u16)| -> Option<i32> {
        values.iter().find(|(c, _)| *c == coord).map(|(_, v)| *v)
    };

    // Test MIN function
    assert_eq!(eval_range("MIN", (1, 1), (2, 2), get_val, &pause), Some(5));

    // Test MAX function
    assert_eq!(eval_range("MAX", (1, 1), (2, 2), get_val, &pause), Some(20));

    // Test AVG function
    assert_eq!(eval_range("AVG", (1, 1), (2, 2), get_val, &pause), Some(12));

    // Test SUM function
    assert_eq!(eval_range("SUM", (1, 1), (2, 2), get_val, &pause), Some(50));

    // Test case-insensitivity
    assert_eq!(eval_range("sum", (1, 1), (2, 2), get_val, &pause), Some(50));
    assert_eq!(eval_range("Sum", (1, 1), (2, 2), get_val, &pause), Some(50));

    // Test SLEEP function (with time=0 to avoid actual sleep)
    let sleep_value = vec![((1, 1), 0)];
    let sleep_get_val = |coord: (u16, u16)| -> Option<i32> {
        sleep_value
            .iter()
            .find(|(c, _)| *c == coord)
            .map(|(_, v)| *v)
    };
    assert_eq!(eval_range("SLEEP", (1, 1), (1, 1), sleep_get_val, &pause), Some(0));

    // Test invalid function name
    assert_eq!(eval_range("INVALID", (1, 1), (2, 2), get_val, &pause), None);
}

#[test]
fn the_deviation_is_rounded_to_the_nearest_whole_number() {
    let of = |values: Vec<i32>| {
        let n = values.len() as u16;
        stdev_range((1, 1), (1, n), move |c: (u16, u16)| Some(values[c.1 as usize - 1]))
    };
    // deviation 0.5: half-way cases go away from zero
    assert_eq!(of(vec![0, 1]), Some(1));
    // deviation sqrt(2/9) = 0.47
    assert_eq!(of(vec![0, 0, 1]), Some(0));
    // deviation 1.5
    assert_eq!(of(vec![0, 3]), Some(2));
    // deviation sqrt(2) = 1.41
    assert_eq!(of(vec![1, 2, 3, 4, 5]), Some(1));
    // deviation sqrt(8.25) = 2.87
    assert_eq!(of(vec![1, 2, 3, 4, 5, 6, 7, 8, 9, 10]), Some(3));
    assert_eq!(of(vec![-5, -5, -5]), Some(0));
    assert_eq!(of(vec![-1_000_000, 1_000_000]), Some(1_000_000));
    // the greatest deviation that there is does not fit a cell
    assert_eq!(of(vec![i32::MIN, i32::MAX]), Some(i32::MAX));
    assert_eq!(of(vec![i32::MIN, i32::MIN, i32::MAX, i32::MAX]), Some(i32::MAX));
}

#[test]
fn a_delay_reads_its_cell_and_waits() {
    let waited = std::cell::RefCell::new(Vec::new());
    let record = |seconds: i32| waited.borrow_mut().push(seconds);
    assert_eq!(eval_range("sleep", (1, 1), (9, 9), |_| Some(4), &record), Some(4));
    assert_eq!(eval_range("SLEEP", (1, 1), (1, 1), |_| Some(-4), &record), Some(-4));
    assert_eq!(eval_range("SLEEP", (1, 1), (1, 1), |_| None, &record), None);
    assert_eq!(waited.borrow().clone(), vec![4]);
}
