use nail_agent::batch_edit::{apply_batch_operations, plan_batch_edit, validate_operation_count, BatchOperation, OperationArg, RangeArg, ScalarArg};
use nail_agent::text_editing::{LineRange, OperationType};

fn op(kind: &str, range: RangeArg, content: &str) -> OperationArg {
    OperationArg {
        is_object: true,
        operation: Some(kind.to_string()),
        line_range: Some(range),
        content: Some(content.to_string()),
    }
}

fn pair(a: i64, b: i64) -> RangeArg {
    RangeArg::Array(vec![ScalarArg::Number(Some(a)), ScalarArg::Number(Some(b))])
}

fn at(n: i64) -> RangeArg {
    RangeArg::Number(Some(n))
}

fn apply(original: &str, ops: Vec<OperationArg>) -> Result<String, String> {
    plan_batch_edit(original, &ops, false).map(|o| o.content)
}

#[test]
fn single_insert_goes_after_the_line() {
    assert_eq!(
        apply("line 1\nline 2\nline 3\n", vec![op("insert", at(2), "inserted line")]),
        Ok("line 1\nline 2\ninserted line\nline 3\n".to_string())
    );
}

#[test]
fn operations_use_original_line_numbers() {
    let ops = vec![
        op("insert", at(1), "inserted after line 1"),
        op("replace", pair(3, 3), "replaced original line 3"),
        op("insert", at(5), "inserted after original line 5"),
    ];
    assert_eq!(
        apply("line 1\nline 2\nline 3\nline 4\nline 5\n", ops),
        Ok("line 1\ninserted after line 1\nline 2\nreplaced original line 3\nline 4\nline 5\ninserted after original line 5\n".to_string())
    );
}

#[test]
fn insert_and_replace_on_one_line_do_not_conflict() {
    let ops = vec![op("insert", at(2), "inserted after line 2"), op("replace", pair(2, 2), "replaced line 2")];
    assert_eq!(
        apply("line 1\nline 2\nline 3\n", ops),
        Ok("line 1\nreplaced line 2\ninserted after line 2\nline 3\n".to_string())
    );
}

#[test]
fn overlapping_replaces_are_refused() {
    let ops = vec![op("replace", pair(2, 3), "replaced 2-3"), op("replace", pair(3, 4), "replaced 3-4")];
    let err = apply("line 1\nline 2\nline 3\nline 4\nline 5\n", ops).expect_err("overlap");
    assert!(err.contains("overlapping ranges"), "{err}");
}

#[test]
fn unknown_operations_leave_nothing_to_do() {
    let err = apply("line 1\nline 2\n", vec![op("invalid_op", at(1), "test")]).expect_err("invalid");
    assert!(err.contains("No valid operations found"), "{err}");
    assert!(err.contains("operations failed during parsing"), "{err}");
}

#[test]
fn inserts_at_the_ends() {
    assert_eq!(apply("line 1\nline 2\n", vec![op("insert", at(0), "first")]), Ok("first\nline 1\nline 2\n".to_string()));
    assert_eq!(apply("line 1\nline 2\n", vec![op("insert", at(-1), "appended")]), Ok("line 1\nline 2\nappended\n".to_string()));
}

#[test]
fn bad_ranges_are_refused() {
    assert!(apply("line 1\nline 2\nline 3\n", vec![op("replace", pair(99, 99), "oops")]).is_err());
    assert!(apply("line 1\nline 2\nline 3\n", vec![op("replace", pair(3, 1), "bad")]).is_err());
    assert!(apply("line 1\nline 2\n", vec![]).is_err());
}

#[test]
fn replaces_expand_shrink_and_delete() {
    assert_eq!(
        apply("a\nb\nc\n", vec![op("replace", pair(2, 2), "x\ny\nz")]),
        Ok("a\nx\ny\nz\nc\n".to_string())
    );
    assert_eq!(apply("a\nb\nc\nd\n", vec![op("replace", pair(2, 3), "m")]), Ok("a\nm\nd\n".to_string()));
    assert_eq!(apply("a\nb\nc\n", vec![op("replace", pair(2, 2), "")]), Ok("a\nc\n".to_string()));
}

#[test]
fn a_missing_trailing_newline_stays_missing() {
    assert_eq!(apply("a\nb", vec![op("replace", pair(1, 1), "A")]), Ok("A\nb".to_string()));
}

#[test]
fn operation_counts_are_bounded() {
    assert_eq!(validate_operation_count(0), Err("Operations array is empty — nothing to do.".to_string()));
    assert_eq!(validate_operation_count(1), Ok(()));
    assert_eq!(validate_operation_count(50), Ok(()));
    assert_eq!(validate_operation_count(51), Err("Too many operations: 51 (max 50). Split into multiple calls.".to_string()));
}

#[test]
fn negative_ranges_count_from_the_end_and_zero_is_invalid() {
    assert_eq!(
        apply("line 1\nline 2\nline 3\n", vec![op("replace", pair(-1, -1), "LAST")]),
        Ok("line 1\nline 2\nLAST\n".to_string())
    );
    assert!(apply("line 1\nline 2\n", vec![op("replace", pair(0, 1), "bad")]).is_err());
}

#[test]
fn unparsable_operation_refuses_the_whole_batch() {
    let ops = vec![op("replace", pair(1, 1), "A_NEW"), op("delete", at(2), "x")];
    assert_eq!(
        apply("A\nB\nC\n", ops),
        Err("Batch not applied: 1 of 2 operations failed during parsing; no operation was applied.".to_string())
    );
}

#[test]
fn all_unparsable_operations_report_none_valid() {
    let ops = vec![op("invalid_op", at(1), "test")];
    let err = apply("line 1\nline 2\n", ops).unwrap_err();
    assert!(err.contains("No valid operations found"));
    assert!(err.contains("operations failed during parsing"));
}

fn resolved(kind: OperationType, range: LineRange, content: &str, index: usize) -> BatchOperation {
    BatchOperation {
        operation_type: kind,
        line_range: range,
        content: content.to_string(),
        operation_index: index,
    }
}

#[test]
fn batch_result_does_not_depend_on_the_order_of_its_operations() {
    let original = "a\nb\nc\nd\ne\n";
    let ops = vec![
        resolved(OperationType::Replace, LineRange::Range(1, 2), "A\nB\nX", 0),
        resolved(OperationType::Insert, LineRange::Single(3), "after c", 1),
        resolved(OperationType::Replace, LineRange::Single(5), "E", 2),
        resolved(OperationType::Insert, LineRange::Single(0), "top", 3),
    ];
    let expected = apply_batch_operations(original, &ops).expect("applies");
    assert_eq!(expected, "top\nA\nB\nX\nc\nafter c\nd\nE\n");
    let orders = [[3, 2, 1, 0], [1, 0, 3, 2], [2, 3, 0, 1], [0, 2, 1, 3]];
    for order in orders {
        let permuted: Vec<_> = order
            .iter()
            .map(|&k| {
                let o = &ops[k];
                resolved(o.operation_type, o.line_range, &o.content, o.operation_index)
            })
            .collect();
        assert_eq!(apply_batch_operations(original, &permuted), Ok(expected.clone()));
    }
}
