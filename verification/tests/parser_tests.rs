use sheetcalc::{
    add_formula, avg_func, cell_parser, delete_edge, initialize_spreadsheet, max_func, min_func,
    parse_range, parser, recalculate, sleep_func, standard_dev_func, sum_func, Formula, Graph,
};

#[test]
fn test_min_func_invalid_dst() {
    let cols = 10;
    let rows = 10;
    let mut arr = vec![0; 100];
    let mut graph = Graph::new(100);
    let mut formula_array = vec![Formula { op_type: 0, p1: 0, p2: 0 }; 100];

    let result = min_func("Z1=MIN(A1:B2)", cols, rows, 2, &mut arr, &mut graph, &mut formula_array);
    assert!(!result); // Invalid destination cell
}

#[test]
fn test_min_func_invalid_range_format() {
    let cols = 10;
    let rows = 10;
    let mut arr = vec![0; 100];
    let mut graph = Graph::new(100);
    let mut formula_array = vec![Formula { op_type: 0, p1: 0, p2: 0 }; 100];

    let result = min_func("A1=MIN(A1B2)", cols, rows, 2, &mut arr, &mut graph, &mut formula_array);
    assert!(!result); // Missing colon in range
}

#[test]
fn test_min_func_invalid_range_cells() {
    let cols = 10;
    let rows = 10;
    let mut arr = vec![0; 100];
    let mut graph = Graph::new(100);
    let mut formula_array = vec![Formula { op_type: 0, p1: 0, p2: 0 }; 100];

    let result = min_func("A1=MIN(A1:Z10)", cols, rows, 2, &mut arr, &mut graph, &mut formula_array);
    assert!(!result); // Out-of-bounds range
}

#[test]
fn test_min_func_self_dependency() {
    let cols = 10;
    let rows = 10;
    let mut arr = vec![0; 100];
    let mut graph = Graph::new(100);
    let mut formula_array = vec![Formula { op_type: 0, p1: 0, p2: 0 }; 100];

    let result = min_func("A1=MIN(A1:A1)", cols, rows, 2, &mut arr, &mut graph, &mut formula_array);
    assert!(!result); // Self-dependency
}

#[test]
fn test_max_func_invalid_dst() {
    let cols = 10;
    let rows = 10;
    let mut arr = vec![0; 100];
    let mut graph = Graph::new(100);
    let mut formula_array = vec![Formula { op_type: 0, p1: 0, p2: 0 }; 100];

    let result = max_func("Z1=MAX(A1:B2)", cols, rows, 2, &mut arr, &mut graph, &mut formula_array);
    assert!(!result); // Invalid destination cell
}

#[test]
fn test_max_func_invalid_range_format() {
    let cols = 10;
    let rows = 10;
    let mut arr = vec![0; 100];
    let mut graph = Graph::new(100);
    let mut formula_array = vec![Formula { op_type: 0, p1: 0, p2: 0 }; 100];

    let result = max_func("A1=MAX(A1B2)", cols, rows, 2, &mut arr, &mut graph, &mut formula_array);
    assert!(!result); // Missing colon in range
}

#[test]
fn test_max_func_invalid_range_cells() {
    let cols = 10;
    let rows = 10;
    let mut arr = vec![0; 100];
    let mut graph = Graph::new(100);
    let mut formula_array = vec![Formula { op_type: 0, p1: 0, p2: 0 }; 100];

    let result = max_func("A1=MAX(A1:Z10)", cols, rows, 2, &mut arr, &mut graph, &mut formula_array);
    assert!(!result); // Out-of-bounds range
}

#[test]
fn test_avg_func_invalid_dst() {
    let cols = 10;
    let rows = 10;
    let mut arr = vec![0; 100];
    let mut graph = Graph::new(100);
    let mut formula_array = vec![Formula { op_type: 0, p1: 0, p2: 0 }; 100];

    let result = avg_func("Z1=AVG(A1:B2)", cols, rows, 2, &mut arr, &mut graph, &mut formula_array);
    assert!(!result); // Invalid destination cell
}

#[test]
fn test_avg_func_invalid_range_format() {
    let cols = 10;
    let rows = 10;
    let mut arr = vec![0; 100];
    let mut graph = Graph::new(100);
    let mut formula_array = vec![Formula { op_type: 0, p1: 0, p2: 0 }; 100];

    let result = avg_func("A1=AVG(A1B2)", cols, rows, 2, &mut arr, &mut graph, &mut formula_array);
    assert!(!result); // Missing colon in range
}

#[test]
fn test_sum_func_invalid_dst() {
    let cols = 10;
    let rows = 10;
    let mut arr = vec![0; 100];
    let mut graph = Graph::new(100);
    let mut formula_array = vec![Formula { op_type: 0, p1: 0, p2: 0 }; 100];

    let result = sum_func("Z1=SUM(A1:B2)", cols, rows, 2, &mut arr, &mut graph, &mut formula_array);
    assert!(!result); // Invalid destination cell
}

#[test]
fn test_sum_func_invalid_range_format() {
    let cols = 10;
    let rows = 10;
    let mut arr = vec![0; 100];
    let mut graph = Graph::new(100);
    let mut formula_array = vec![Formula { op_type: 0, p1: 0, p2: 0 }; 100];

    let result = sum_func("A1=SUM(A1B2)", cols, rows, 2, &mut arr, &mut graph, &mut formula_array);
    assert!(!result); // Missing colon in range
}

#[test]
fn test_standard_dev_func_invalid_dst() {
    let cols = 10;
    let rows = 10;
    let mut arr = vec![0; 100];
    let mut graph = Graph::new(100);
    let mut formula_array = vec![Formula { op_type: 0, p1: 0, p2: 0 }; 100];

    let result =
        standard_dev_func("Z1=STDEV(A1:B2)", cols, rows, 2, &mut arr, &mut graph, &mut formula_array);
    assert!(!result); // Invalid destination cell
}

#[test]
fn test_standard_dev_func_invalid_range_format() {
    let cols = 10;
    let rows = 10;
    let mut arr = vec![0; 100];
    let mut graph = Graph::new(100);
    let mut formula_array = vec![Formula { op_type: 0, p1: 0, p2: 0 }; 100];

    let result =
        standard_dev_func("A1=STDEV(A1B2)", cols, rows, 2, &mut arr, &mut graph, &mut formula_array);
    assert!(!result); // Missing colon in range
}

#[test]
fn test_sleep_func_invalid_dst() {
    let cols = 10;
    let rows = 10;
    let mut arr = vec![0; 100];
    let mut graph = Graph::new(100);
    let mut formula_array = vec![Formula { op_type: 0, p1: 0, p2: 0 }; 100];

    let result = sleep_func("Z1=SLEEP(1)", cols, rows, 2, &mut arr, &mut graph, &mut formula_array);
    assert!(!result); // Invalid destination cell
}

#[test]
fn test_sleep_func_invalid_literal() {
    let cols = 10;
    let rows = 10;
    let mut arr = vec![0; 100];
    let mut graph = Graph::new(100);
    let mut formula_array = vec![Formula { op_type: 0, p1: 0, p2: 0 }; 100];

    let result =
        sleep_func("A1=SLEEP(abc)", cols, rows, 2, &mut arr, &mut graph, &mut formula_array);
    assert!(!result); // Invalid literal
}

#[test]
fn test_parser_with_literal() {
    let mut sheet = initialize_spreadsheet(10, 10);
    let result = parser(&mut sheet, "A1=42");
    assert_eq!(result, 0);
    assert_eq!(sheet.arr[0], 42);
    assert_eq!(sheet.formula_array[0], Formula { op_type: 0, p1: 42, p2: 0 });
}

#[test]
fn test_parser_with_negative_literal() {
    let mut sheet = initialize_spreadsheet(10, 10);
    let result = parser(&mut sheet, "A1=-42");
    assert_eq!(result, 0);
    assert_eq!(sheet.arr[0], -42);
    assert_eq!(sheet.formula_array[0], Formula { op_type: 0, p1: -42, p2: 0 });
}

#[test]
fn test_parser_with_cell_reference() {
    let mut sheet = initialize_spreadsheet(10, 10);
    sheet.arr[1] = 50; // B1 = 50
    let result = parser(&mut sheet, "A1=B1");
    assert_eq!(result, 0);
    assert_eq!(sheet.arr[0], 50);
    assert_eq!(sheet.formula_array[0], Formula { op_type: 1, p1: 1, p2: 0 });
}

#[test]
fn test_parser_with_arithmetic_operation() {
    let mut sheet = initialize_spreadsheet(10, 10);
    sheet.arr[0] = 10; // A1 = 10
    sheet.arr[1] = 20; // B1 = 20
    let result = parser(&mut sheet, "C1=A1+B1");
    assert_eq!(result, 0);
    assert_eq!(sheet.arr[2], 30); // C1 = A1 + B1
    assert_eq!(sheet.formula_array[2], Formula { op_type: 5, p1: 0, p2: 1 });
}

#[test]
fn test_parser_with_function_min() {
    let mut sheet = initialize_spreadsheet(10, 10);
    sheet.arr[0] = 5; // A1
    sheet.arr[1] = 3; // B1
    sheet.arr[2] = 8; // C1
    let result = parser(&mut sheet, "D1=MIN(A1:C1)");
    assert_eq!(result, 0);
    assert_eq!(sheet.arr[3], 3); // D1 = MIN(A1:C1)
}

#[test]
fn test_parser_with_function_sum() {
    let mut sheet = initialize_spreadsheet(10, 10);
    sheet.arr[0] = 5; // A1
    sheet.arr[1] = 3; // B1
    sheet.arr[2] = 8; // C1
    let result = parser(&mut sheet, "D1=SUM(A1:C1)");
    assert_eq!(result, 0);
    assert_eq!(sheet.arr[3], 16); // D1 = SUM(A1:C1)
}

#[test]
fn test_parser_with_invalid_input() {
    let mut sheet = initialize_spreadsheet(10, 10);
    let result = parser(&mut sheet, "A1=@");
    assert_eq!(result, -1); // Invalid input
    assert_eq!(sheet.arr[0], 0); // No change
}

#[test]
fn test_parser_with_invalid_cell_reference() {
    let mut sheet = initialize_spreadsheet(10, 10);
    let result = parser(&mut sheet, "A1=Z1");
    assert_eq!(result, 1); // Invalid cell reference
    assert_eq!(sheet.arr[0], 0); // No change
}

#[test]
fn test_parser_with_function_sleep() {
    let mut sheet = initialize_spreadsheet(10, 10);
    let result = parser(&mut sheet, "D1=SLEEP(1)");
    assert_eq!(result, 0);
    assert_eq!(sheet.arr[3], 1); // D1 = SLEEP(1)
}

#[test]
fn test_parse_range_valid() {
    let cols = 10;
    let rows = 10;

    // Valid range: A1:B2
    let result = parse_range("A1:B2", cols, rows);
    assert!(result.is_some());
    let range = result.unwrap();
    assert_eq!(range.start_row, 0);
    assert_eq!(range.end_row, 1);
    assert_eq!(range.start_col, 0);
    assert_eq!(range.end_col, 1);
}

#[test]
fn test_parse_range_invalid_format() {
    let cols = 10;
    let rows = 10;

    // Invalid range: Missing colon
    let result = parse_range("A1B2", cols, rows);
    assert!(result.is_none());
}

#[test]
fn test_parse_range_out_of_bounds() {
    let cols = 10;
    let rows = 10;

    // Out-of-bounds range
    let result = parse_range("A1:Z10", cols, rows);
    assert!(result.is_none());
}

#[test]
fn test_rollback_on_recalculate_failure() {
    let cols = 10;
    let mut arr = vec![0; 100];
    let mut graph = Graph::new(100);
    let mut formula_array = vec![Formula { op_type: 0, p1: 0, p2: 0 }; 100];

    // Set up initial state
    let dst = 5; // Target cell
    arr[dst] = 42;
    formula_array[dst] = Formula { op_type: 1, p1: 2, p2: 3 };

    let old_value = arr[dst];
    let old_op_type = formula_array[dst].op_type;
    let old_p1 = formula_array[dst].p1;
    let old_p2 = formula_array[dst].p2;

    // Simulate a failure in recalculate
    let recalculate_result = false;

    if !recalculate_result {
        // Rollback logic
        delete_edge(&mut graph, dst, &formula_array, cols);
        arr[dst] = old_value;
        formula_array[dst] = Formula { op_type: old_op_type, p1: old_p1, p2: old_p2 };
        add_formula(&mut graph, dst, old_p1, old_p2, old_op_type, &mut formula_array, cols);
    }

    // Assertions to verify rollback
    assert_eq!(arr[dst], 42); // Value should be restored
    assert_eq!(formula_array[dst], Formula { op_type: 1, p1: 2, p2: 3 }); // Formula should be restored
}

#[test]
fn test_recalculate_failure_triggers_rollback() {
    let mut graph = Graph::new(3);
    let cols = 3;
    let mut arr = vec![0; 3];
    let mut formula_array = vec![
        Formula { op_type: 0, p1: 10, p2: 0 },
        Formula { op_type: 1, p1: 0, p2: 5 },
        Formula { op_type: 1, p1: 1, p2: 5 },
    ];

    // Add a cycle to the graph
    graph.adj[0].push(1);
    graph.adj[1].push(2);
    graph.adj[2].push(0);

    // Set old values for rollback
    let old_value: i32 = 42;
    let old_op_type: i32 = 0;
    let old_p1: i32 = 0;
    let old_p2: i32 = 0;
    arr[2] = old_value;
    formula_array[2] = Formula { op_type: old_op_type, p1: old_p1, p2: old_p2 };

    // Attempt to recalculate, expecting failure
    let result = recalculate(&mut graph, cols, &mut arr, 2, &formula_array);
    if !result {
        // Simulate rollback
        delete_edge(&mut graph, 2, &formula_array, cols as usize);
        arr[2] = old_value;
        formula_array[2] = Formula { op_type: old_op_type, p1: old_p1, p2: old_p2 };
        add_formula(&mut graph, 2, old_p1, old_p2, old_op_type, &mut formula_array, cols as usize);
    }

    // Assert rollback occurred
    assert_eq!(arr[2], old_value);
    assert_eq!(formula_array[2].op_type, old_op_type);
    assert_eq!(formula_array[2].p1, old_p1);
    assert_eq!(formula_array[2].p2, old_p2);
}

#[test]
fn test_cell_parser_basic() {
    assert_eq!(cell_parser("A1", 10, 10), 0);
    assert_eq!(cell_parser("B3", 10, 10), 21);
    assert_eq!(cell_parser("J10", 10, 10), 99);
    assert_eq!(cell_parser("K1", 10, 10), -1); // column out of range
    assert_eq!(cell_parser("A11", 10, 10), -1); // row out of range
    assert_eq!(cell_parser("1A", 10, 10), -1); // digits before letters
    assert_eq!(cell_parser("A1B", 10, 10), -1); // letter after digit
    assert_eq!(cell_parser("", 10, 10), -1);
    assert_eq!(cell_parser("A0", 10, 10), -1); // rows are 1-based
}
