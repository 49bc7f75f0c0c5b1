use detection::arith;
use detection::grid;

#[test]
fn division_rounds_toward_minus_infinity() {
    assert_eq!(arith::floor_div(7, 2), 3);
    assert_eq!(arith::floor_div(-7, 2), -4);
    assert_eq!(arith::floor_div(-8, 2), -4);
    assert_eq!(arith::floor_div(8, 2), 4);
    assert_eq!(arith::floor_div(0, 5), 0);
    assert_eq!(arith::floor_div(-1, 5), -1);
    assert_eq!(arith::floor_div(-5, 5), -1);
    assert_eq!(arith::floor_div(-6, 5), -2);
    assert_eq!(arith::floor_div(i128::MAX, 1), i128::MAX);
    assert_eq!(arith::floor_div(i128::MIN + 1, 1), i128::MIN + 1);
    assert_eq!(arith::floor_div(i128::MIN + 1, i128::MAX), -1);
}

#[test]
fn cells_are_numbered_row_by_row() {
    assert_eq!(grid::index(0, 0, 4, 3, 12), 0);
    assert_eq!(grid::index(3, 0, 4, 3, 12), 3);
    assert_eq!(grid::index(0, 1, 4, 3, 12), 4);
    assert_eq!(grid::index(3, 2, 4, 3, 12), 11);
    assert_eq!(grid::index(65535, 65535, 65536, 65536, usize::MAX), 4294967295);
}
