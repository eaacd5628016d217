use embedded::common::cell_data::CellMetadata;
use embedded::common::cell_map::CellMap;
use embedded::common::cell_value::{CellData, CellValue};
use embedded::common::expression::{CellRange, Expression, Operator, RangeFunction};
use embedded::common::number::Number;
use embedded::common::structs::{AbsCell, RelCell};
use embedded::common::text::{
    contains_text, find_char, from_chars, read_whole, scan, to_chars, trim, CharClass,
};
use embedded::embedded_backend::graph::DependencyGraph;

fn chars(s: &str) -> Vec<char> {
    s.chars().collect()
}

#[test]
fn zero_and_sign_are_read_from_the_bits() {
    let of = |x: f64| Number::new(x.to_bits());
    assert!(of(0.0).zero_valued());
    assert!(of(-0.0).zero_valued());
    assert!(!of(f64::MIN_POSITIVE).zero_valued());
    assert!(!of(f64::NAN).zero_valued());
    assert!(of(f64::MIN_POSITIVE).positive());
    assert!(of(5e-324).positive());
    assert!(of(f64::INFINITY).positive());
    assert!(of(1.5).positive());
    assert!(!of(0.0).positive());
    assert!(!of(-0.0).positive());
    assert!(!of(-1.5).positive());
    assert!(!of(f64::NEG_INFINITY).positive());
    assert!(!of(f64::NAN).positive());
    assert_eq!(Number::make_zero(), of(0.0));
}

#[test]
fn the_map_keeps_its_cells_in_row_major_order() {
    let mut map: CellMap<u32> = CellMap::new();
    let cells = [(2, 1), (0, 5), (1, 0), (0, 0), (2, 0), (-1, 7)];
    for (i, (row, col)) in cells.iter().enumerate() {
        map.insert(AbsCell::new(*row, *col), i as u32);
    }
    assert_eq!(map.len(), 6);
    let listed: Vec<(i16, i16)> = (0..map.len())
        .map(|i| (map.cell_at(i).row, map.cell_at(i).col))
        .collect();
    assert_eq!(listed, vec![(-1, 7), (0, 0), (0, 5), (1, 0), (2, 0), (2, 1)]);
    assert_eq!(map.get(AbsCell::new(1, 0)), Some(&2));
    assert_eq!(map.get(AbsCell::new(1, 1)), None);
    assert!(map.contains(AbsCell::new(0, 5)));
    map.insert(AbsCell::new(1, 0), 20);
    assert_eq!(map.len(), 6);
    assert_eq!(map.get(AbsCell::new(1, 0)), Some(&20));
    assert_eq!(map.seek(AbsCell::new(0, 1)), 2);
    assert_eq!(map.seek(AbsCell::new(0, 5)), 2);
    assert_eq!(map.seek(AbsCell::new(9, 9)), 6);
    assert_eq!(map.exchange(2, 50), 1);
    assert_eq!(*map.item_at(2), 50);
    assert_eq!(map.remove(AbsCell::new(0, 0)), Some(3));
    assert_eq!(map.remove(AbsCell::new(0, 0)), None);
    assert_eq!(map.len(), 5);
    assert!(!map.contains(AbsCell::new(0, 0)));
}

#[test]
fn dependents_are_listed_once() {
    let mut meta = CellMetadata::new();
    let (a, b) = (AbsCell::new(0, 0), AbsCell::new(0, 1));
    meta.add(a);
    meta.add(b);
    meta.add(a);
    assert_eq!(meta.dependents, vec![a, b]);
    assert_eq!(meta.position(b), Some(1));
    meta.drop(a);
    meta.drop(a);
    assert_eq!(meta.dependents, vec![b]);
    assert_eq!(meta.position(a), None);
}

#[test]
fn a_change_is_listed_in_the_order_of_evaluation() {
    let cell = |n: i16| AbsCell::new(0, n);
    let mut g = DependencyGraph::new();
    // 0 -> 1 -> 3 -> 4, 0 -> 2 -> 3, 0 -> 4, and 5 -> 4 from outside the change
    for (from, to) in [(0, 1), (1, 3), (3, 4), (0, 2), (2, 3), (0, 4), (5, 4)] {
        g.add_edge(cell(from), cell(to));
    }
    assert_eq!(g.len(), 6);
    let start = g.place(cell(0)).unwrap();
    let (counts, _) = g.count_feeders(start);
    let count_of = |n: i16| counts[g.place(cell(n)).unwrap()];
    assert_eq!(
        [0, 1, 2, 3, 4, 5].map(count_of),
        [0, 1, 1, 2, 2, 0]
    );
    let (order, _, _) = g.order_from(start);
    let listed: Vec<i16> = order.iter().map(|at| g.cell_at(*at).col).collect();
    assert_eq!(listed.len(), 5);
    assert_eq!(listed[0], 0);
    let place = |n: i16| listed.iter().position(|x| *x == n).unwrap();
    assert!(place(1) < place(3));
    assert!(place(2) < place(3));
    assert!(place(3) < place(4));
    assert!(!listed.contains(&5));
    // a change of a cell that nothing reads reaches that cell only
    let last = g.place(cell(4)).unwrap();
    assert_eq!(g.order_from(last).0, vec![last]);
    assert_eq!(g.dependents_at(start).len(), 3);
    assert_eq!(g.place(cell(9)), None);
}

#[test]
fn texts_are_scanned_and_trimmed() {
    let s = chars("  ab12 \t");
    assert_eq!(trim(&s, 0, s.len()), (2, 6));
    assert_eq!(trim(&s, 0, 2), (2, 2));
    assert_eq!(scan(&s, 2, CharClass::Letter), 4);
    assert_eq!(scan(&s, 4, CharClass::Digit), 6);
    assert_eq!(scan(&s, 0, CharClass::Space), 2);
    assert_eq!(scan(&s, 6, CharClass::Space), 8);
    assert_eq!(find_char(&s, 0, '1'), 4);
    assert_eq!(find_char(&s, 0, 'x'), 8);
    assert!(contains_text(&chars("haystack"), &chars("st")));
    assert!(contains_text(&chars("haystack"), &chars("")));
    assert!(contains_text(&chars(""), &chars("")));
    assert!(!contains_text(&chars("hay"), &chars("hays")));
    assert!(!contains_text(&chars("haystack"), &chars("sk")));
    assert_eq!(to_chars("héllo"), chars("héllo"));
    assert_eq!(from_chars(&chars("héllo")), "héllo");
}

#[test]
fn whole_numbers_are_read_with_their_sign() {
    let read = |s: &str| read_whole(&chars(s));
    assert_eq!(read("0"), Some(0));
    assert_eq!(read("-0"), Some(0));
    assert_eq!(read("+17"), Some(17));
    assert_eq!(read("007"), Some(7));
    assert_eq!(read("2147483647"), Some(i32::MAX));
    assert_eq!(read("-2147483648"), Some(i32::MIN));
    assert_eq!(read("2147483648"), None);
    assert_eq!(read("-2147483649"), None);
    assert_eq!(read("99999999999999999999999"), None);
    for bad in ["", "-", "+", "1 ", " 1", "1.0", "--1", "1a", "٣"] {
        assert_eq!(read(bad), None, "{:?}", bad);
    }
}

#[test]
fn formulas_are_checked_against_the_grid() {
    let origin = AbsCell::new(2, 2);
    let reference = |row, col| Expression::Cell(RelCell::new(row, col));
    assert!(reference(-2, -2).check_legal(origin, 5, 5));
    assert!(reference(2, 2).check_legal(origin, 5, 5));
    assert!(!reference(3, 0).check_legal(origin, 5, 5));
    assert!(!reference(0, -3).check_legal(origin, 5, 5));
    assert!(!reference(i16::MAX, 0).check_legal(origin, u16::MAX, u16::MAX));
    let range = |a, b, c, d| {
        Expression::RangeFunction(
            RangeFunction::Max,
            CellRange {
                top_left: RelCell::new(a, b),
                bottom_right: RelCell::new(c, d),
            },
        )
    };
    assert!(range(-2, -2, 2, 2).check_legal(origin, 5, 5));
    assert!(!range(1, 1, 0, 0).check_legal(origin, 5, 5));
    assert!(!range(0, 0, 3, 0).check_legal(origin, 5, 5));
    let both = Expression::BinaryOp(
        Box::new(Expression::Sleep(Box::new(reference(0, 0)))),
        Operator::Add,
        Box::new(range(0, 0, 1, 1)),
    );
    assert!(both.check_legal(origin, 5, 5));
    assert!(!both.check_legal(origin, 3, 5));
    let mut read = Vec::new();
    both.collect_referenced_cells(origin, &mut read);
    assert_eq!(
        read,
        vec![(2, 2), (2, 2), (2, 3), (3, 2), (3, 3)]
            .into_iter()
            .map(|(row, col)| AbsCell::new(row, col))
            .collect::<Vec<_>>()
    );
    assert_eq!(both.clone(), both);
    assert_eq!(both.duplicate(), both);
}

#[test]
fn an_unwritten_cell_holds_nothing() {
    assert_eq!(CellData::default().value, Ok(CellValue::Empty));
    assert_eq!(CellData::default().formula, None);
    assert_eq!(CellData::default_instance(), CellData::default());
    assert_eq!(CellValue::default(), CellValue::Empty);
    assert!(CellValue::Empty.is_empty());
    assert!(!CellValue::String(String::new()).is_empty());
    assert!(AbsCell::new(0, 0).before(&AbsCell::new(0, 1)));
    assert!(AbsCell::new(0, 9).before(&AbsCell::new(1, 0)));
    assert!(!AbsCell::new(1, 0).before(&AbsCell::new(1, 0)));
    assert!(AbsCell::new(0, 0).is_in_grid(1, 1));
    assert!(!AbsCell::new(1, 0).is_in_grid(1, 1));
    assert!(!AbsCell::new(0, -1).is_in_grid(1, 1));
    assert_eq!(RelCell::new(1, 1).resolve(AbsCell::new(0, 0), 2, 2), Some(AbsCell::new(1, 1)));
    assert_eq!(RelCell::new(2, 1).resolve(AbsCell::new(0, 0), 2, 2), None);
}

#[test]
fn a_new_graph_knows_no_cell() {
    let g = DependencyGraph::new();
    assert_eq!(g.len(), 0);
    assert_eq!(g.place(AbsCell::new(0, 0)), None);
    assert!(!g.returns_to(AbsCell::new(0, 0)));
}
