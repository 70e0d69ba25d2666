use sheetcalc::{initialize_spreadsheet, parser, Formula};

const ERR: i32 = i32::MIN;

#[test]
fn three_cell_chain() {
    // On a 3x3 sheet: A1=5, B1=A1+3, C1=B1*2 => A1=5, B1=8, C1=16.
    let mut sheet = initialize_spreadsheet(3, 3);
    assert_eq!(parser(&mut sheet, "A1=5"), 0);
    assert_eq!(parser(&mut sheet, "B1=A1+3"), 0);
    assert_eq!(parser(&mut sheet, "C1=B1*2"), 0);
    assert_eq!(sheet.arr[0], 5);
    assert_eq!(sheet.arr[1], 8);
    assert_eq!(sheet.arr[2], 16);
}

#[test]
fn three_cell_chain_recalculates() {
    // Continuing: A1=10 => A1=10, B1=13, C1=26.
    let mut sheet = initialize_spreadsheet(3, 3);
    assert_eq!(parser(&mut sheet, "A1=5"), 0);
    assert_eq!(parser(&mut sheet, "B1=A1+3"), 0);
    assert_eq!(parser(&mut sheet, "C1=B1*2"), 0);
    assert_eq!(parser(&mut sheet, "A1=10"), 0);
    assert_eq!(sheet.arr[0], 10);
    assert_eq!(sheet.arr[1], 13);
    assert_eq!(sheet.arr[2], 26);
}

#[test]
fn cycle_rejected_and_state_kept() {
    // Continuing: A1=C1+1 is rejected (cycle); A1=10, B1=13, C1=26 stay.
    let mut sheet = initialize_spreadsheet(3, 3);
    assert_eq!(parser(&mut sheet, "A1=5"), 0);
    assert_eq!(parser(&mut sheet, "B1=A1+3"), 0);
    assert_eq!(parser(&mut sheet, "C1=B1*2"), 0);
    assert_eq!(parser(&mut sheet, "A1=10"), 0);
    let arr_before = sheet.arr.clone();
    let farr_before = sheet.formula_array.clone();
    assert_eq!(parser(&mut sheet, "A1=C1+1"), 1);
    assert_eq!(sheet.arr, arr_before);
    assert_eq!(sheet.formula_array, farr_before);
    assert_eq!(sheet.arr[0], 10);
    assert_eq!(sheet.arr[1], 13);
    assert_eq!(sheet.arr[2], 26);
}

#[test]
fn sum_over_row_recalculates() {
    // On a 1x3 sheet: A1=1, B1=2, C1=SUM(A1:B1) => C1=3; then A1=10 => C1=12.
    let mut sheet = initialize_spreadsheet(1, 3);
    assert_eq!(parser(&mut sheet, "A1=1"), 0);
    assert_eq!(parser(&mut sheet, "B1=2"), 0);
    assert_eq!(parser(&mut sheet, "C1=SUM(A1:B1)"), 0);
    assert_eq!(sheet.arr[2], 3);
    assert_eq!(parser(&mut sheet, "A1=10"), 0);
    assert_eq!(sheet.arr[2], 12);
}

#[test]
fn division_by_zero_propagates_and_repairs() {
    // A1=10, B1=0, C1=A1/B1 => C1=ERR; D1=C1+1 => D1=ERR; B1=2 => C1=5, D1=6.
    let mut sheet = initialize_spreadsheet(1, 4);
    assert_eq!(parser(&mut sheet, "A1=10"), 0);
    assert_eq!(parser(&mut sheet, "B1=0"), 0);
    assert_eq!(parser(&mut sheet, "C1=A1/B1"), 0);
    assert_eq!(sheet.arr[2], ERR);
    assert_eq!(parser(&mut sheet, "D1=C1+1"), 0);
    assert_eq!(sheet.arr[3], ERR);
    assert_eq!(parser(&mut sheet, "B1=2"), 0);
    assert_eq!(sheet.arr[2], 5);
    assert_eq!(sheet.arr[3], 6);
}

#[test]
fn destination_inside_range_rejected() {
    // A1=MIN(A1:A3) is rejected (destination inside range); state unchanged.
    let mut sheet = initialize_spreadsheet(3, 3);
    assert_eq!(parser(&mut sheet, "A1=7"), 0);
    let arr_before = sheet.arr.clone();
    let farr_before = sheet.formula_array.clone();
    assert_eq!(parser(&mut sheet, "A1=MIN(A1:A3)"), 1);
    assert_eq!(sheet.arr, arr_before);
    assert_eq!(sheet.formula_array, farr_before);
}

#[test]
fn reassigning_same_literal_is_idempotent() {
    // A1=5 twice gives exactly the state of a single A1=5.
    let mut once = initialize_spreadsheet(3, 3);
    assert_eq!(parser(&mut once, "B1=A1+3"), 0);
    assert_eq!(parser(&mut once, "A1=5"), 0);

    let mut twice = initialize_spreadsheet(3, 3);
    assert_eq!(parser(&mut twice, "B1=A1+3"), 0);
    assert_eq!(parser(&mut twice, "A1=5"), 0);
    assert_eq!(parser(&mut twice, "A1=5"), 0);

    assert_eq!(once.arr, twice.arr);
    assert_eq!(once.formula_array, twice.formula_array);
}

#[test]
fn constant_round_trip() {
    // After A1=k (k not ERR), reading A1 yields k.
    let mut sheet = initialize_spreadsheet(2, 2);
    assert_eq!(parser(&mut sheet, "A1=12345"), 0);
    assert_eq!(sheet.arr[0], 12345);
    assert_eq!(sheet.formula_array[0], Formula { op_type: 0, p1: 12345, p2: 0 });
    assert_eq!(parser(&mut sheet, "B2=-99"), 0);
    assert_eq!(sheet.arr[3], -99);
}

#[test]
fn boundary_cells_behave_like_interior() {
    // Topmost/rightmost/bottommost/leftmost cells accept edits like B2.
    let mut sheet = initialize_spreadsheet(3, 3);
    assert_eq!(parser(&mut sheet, "A1=1"), 0); // top-left corner
    assert_eq!(parser(&mut sheet, "C1=2"), 0); // top-right corner
    assert_eq!(parser(&mut sheet, "A3=3"), 0); // bottom-left corner
    assert_eq!(parser(&mut sheet, "C3=4"), 0); // bottom-right corner
    assert_eq!(parser(&mut sheet, "B2=5"), 0); // interior
    assert_eq!(sheet.arr[0], 1);
    assert_eq!(sheet.arr[2], 2);
    assert_eq!(sheet.arr[6], 3);
    assert_eq!(sheet.arr[8], 4);
    assert_eq!(sheet.arr[4], 5);
    assert_eq!(parser(&mut sheet, "C3=A1+1"), 0);
    assert_eq!(sheet.arr[8], 2);
}

#[test]
fn range_of_size_one_is_legal() {
    let mut sheet = initialize_spreadsheet(3, 3);
    assert_eq!(parser(&mut sheet, "A1=9"), 0);
    assert_eq!(parser(&mut sheet, "B1=SUM(A1:A1)"), 0);
    assert_eq!(sheet.arr[1], 9);
}

#[test]
fn decreasing_range_is_rejected() {
    let mut sheet = initialize_spreadsheet(3, 3);
    let arr_before = sheet.arr.clone();
    assert_eq!(parser(&mut sheet, "C3=SUM(A2:A1)"), 1);
    assert_eq!(parser(&mut sheet, "C3=SUM(B1:A1)"), 1);
    assert_eq!(sheet.arr, arr_before);
}

#[test]
fn rectangular_range_is_rejected() {
    let mut sheet = initialize_spreadsheet(3, 3);
    let arr_before = sheet.arr.clone();
    assert_eq!(parser(&mut sheet, "C3=SUM(A1:B2)"), 1);
    assert_eq!(sheet.arr, arr_before);
}

#[test]
fn literal_division_by_zero_yields_err() {
    let mut sheet = initialize_spreadsheet(2, 2);
    assert_eq!(parser(&mut sheet, "A1=5/0"), 0);
    assert_eq!(sheet.arr[0], ERR);
}

#[test]
fn aggregates_compute_exact_values() {
    let mut sheet = initialize_spreadsheet(10, 10);
    assert_eq!(parser(&mut sheet, "A1=5"), 0);
    assert_eq!(parser(&mut sheet, "B1=3"), 0);
    assert_eq!(parser(&mut sheet, "C1=8"), 0);
    assert_eq!(parser(&mut sheet, "D1=MIN(A1:C1)"), 0);
    assert_eq!(sheet.arr[3], 3);
    assert_eq!(parser(&mut sheet, "D1=MAX(A1:C1)"), 0);
    assert_eq!(sheet.arr[3], 8);
    assert_eq!(parser(&mut sheet, "D1=AVG(A1:C1)"), 0);
    assert_eq!(sheet.arr[3], 5); // (5 + 3 + 8) / 3
    assert_eq!(parser(&mut sheet, "D1=SUM(A1:C1)"), 0);
    assert_eq!(sheet.arr[3], 16);
    assert_eq!(parser(&mut sheet, "D1=STDEV(A1:C1)"), 0);
    assert_eq!(sheet.arr[3], 2); // sqrt(14/3) rounded to nearest
}

#[test]
fn average_truncates_toward_zero() {
    let mut sheet = initialize_spreadsheet(1, 3);
    assert_eq!(parser(&mut sheet, "A1=-3"), 0);
    assert_eq!(parser(&mut sheet, "B1=-4"), 0);
    assert_eq!(parser(&mut sheet, "C1=AVG(A1:B1)"), 0);
    assert_eq!(sheet.arr[2], -3); // -7 / 2 truncated toward zero
}

#[test]
fn aggregate_over_err_yields_err() {
    let mut sheet = initialize_spreadsheet(1, 3);
    assert_eq!(parser(&mut sheet, "A1=1/0"), 0);
    assert_eq!(parser(&mut sheet, "B1=2"), 0);
    assert_eq!(parser(&mut sheet, "C1=SUM(A1:B1)"), 0);
    assert_eq!(sheet.arr[2], ERR);
}

#[test]
fn arithmetic_wraps_on_overflow() {
    let mut sheet = initialize_spreadsheet(2, 2);
    assert_eq!(parser(&mut sheet, "A1=2000000000"), 0);
    assert_eq!(parser(&mut sheet, "B1=A1+A1"), 0);
    assert_eq!(sheet.arr[1], 2000000000i32.wrapping_add(2000000000));
}

#[test]
fn sleep_records_duration_without_blocking() {
    let mut sheet = initialize_spreadsheet(10, 10);
    assert_eq!(parser(&mut sheet, "D1=SLEEP(1)"), 0);
    assert_eq!(sheet.arr[3], 1);
    assert_eq!(parser(&mut sheet, "A1=2"), 0);
    assert_eq!(parser(&mut sheet, "E1=SLEEP(A1)"), 0);
    assert_eq!(sheet.arr[4], 2);
    assert_eq!(parser(&mut sheet, "F1=SLEEP(-3)"), 0);
    assert_eq!(sheet.arr[5], -3); // negative duration is recorded, not slept
}

#[test]
fn sleep_follows_its_source() {
    let mut sheet = initialize_spreadsheet(10, 10);
    assert_eq!(parser(&mut sheet, "A1=2"), 0);
    assert_eq!(parser(&mut sheet, "E1=SLEEP(A1)"), 0);
    assert_eq!(sheet.arr[4], 2);
    assert_eq!(parser(&mut sheet, "A1=7"), 0);
    assert_eq!(sheet.arr[4], 7); // recomputation assigns, it does not re-sleep
}

#[test]
fn unknown_function_is_rejected() {
    let mut sheet = initialize_spreadsheet(10, 10);
    let arr_before = sheet.arr.clone();
    assert_eq!(parser(&mut sheet, "D1=INVALID(A1:C1)"), 1);
    assert_eq!(sheet.arr, arr_before);
}

#[test]
fn command_without_equals_is_not_a_command() {
    let mut sheet = initialize_spreadsheet(2, 2);
    assert_eq!(parser(&mut sheet, "hello"), -1);
    assert_eq!(parser(&mut sheet, ""), -1);
}

#[test]
fn self_reference_is_rejected() {
    let mut sheet = initialize_spreadsheet(3, 3);
    assert_eq!(parser(&mut sheet, "A1=4"), 0);
    let arr_before = sheet.arr.clone();
    let farr_before = sheet.formula_array.clone();
    assert_eq!(parser(&mut sheet, "A1=A1+1"), 1);
    assert_eq!(parser(&mut sheet, "A1=A1"), 1);
    assert_eq!(parser(&mut sheet, "A1=SLEEP(A1)"), 1);
    assert_eq!(sheet.arr, arr_before);
    assert_eq!(sheet.formula_array, farr_before);
}

#[test]
fn two_step_cycle_is_rejected() {
    let mut sheet = initialize_spreadsheet(3, 3);
    assert_eq!(parser(&mut sheet, "B1=A1"), 0);
    let arr_before = sheet.arr.clone();
    assert_eq!(parser(&mut sheet, "A1=B1+1"), 1);
    assert_eq!(sheet.arr, arr_before);
}

#[test]
fn negated_cell_reference_negates() {
    let mut sheet = initialize_spreadsheet(2, 2);
    assert_eq!(parser(&mut sheet, "A1=6"), 0);
    assert_eq!(parser(&mut sheet, "B1=-A1"), 0);
    assert_eq!(sheet.arr[1], -6);
    assert_eq!(parser(&mut sheet, "A1=9"), 0);
    assert_eq!(sheet.arr[1], -9);
}

#[test]
fn literal_cell_arithmetic_normalizes() {
    // A literal paired with a cell stores the cell first; + and * keep
    // their textual value.
    let mut sheet = initialize_spreadsheet(2, 2);
    assert_eq!(parser(&mut sheet, "A1=6"), 0);
    assert_eq!(parser(&mut sheet, "B1=5+A1"), 0);
    assert_eq!(sheet.arr[1], 11);
    assert_eq!(sheet.formula_array[1], Formula { op_type: 1, p1: 0, p2: 5 });
    assert_eq!(parser(&mut sheet, "B1=3*A1"), 0);
    assert_eq!(sheet.arr[1], 18);
}

#[test]
fn overflowing_literal_is_rejected() {
    let mut sheet = initialize_spreadsheet(2, 2);
    assert_eq!(parser(&mut sheet, "A1=2147483647"), 0);
    assert_eq!(sheet.arr[0], 2147483647);
    assert_eq!(parser(&mut sheet, "A1=2147483648"), 1);
    assert_eq!(sheet.arr[0], 2147483647);
}
