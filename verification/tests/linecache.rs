use serde_json::Value;
use xi_frontend::linecache::{
    parse_update, DiffOp, Line, LineCache, ParseError, RawStyle, StyleSpan,
};

fn json(text: &str) -> Value {
    serde_json::from_str(text).unwrap()
}

fn five_lines() -> LineCache {
    let mut cache = LineCache::new();
    let update = json(
        r#"{"ops": [{"op": "ins", "lines": [
            {"text": "zero\n", "cursor": [1]},
            {"text": "one\n", "styles": [0, 3, 9]},
            {"text": "two\n"},
            {"text": "three\n", "cursor": [0, 5]},
            {"text": "four\n"}
        ]}]}"#,
    );
    assert_eq!(cache.apply_update(&update), Ok(()));
    cache
}

fn texts(cache: &LineCache) -> Vec<Option<String>> {
    (0..cache.height()).map(|i| cache.get_line(i).map(|line| line.text().to_owned())).collect()
}

#[test]
fn new_cache_is_empty() {
    let cache = LineCache::new();
    assert_eq!(cache.height(), 0);
    assert!(cache.get_line(0).is_none());
    let cache = LineCache::default();
    assert_eq!(cache.height(), 0);
}

#[test]
fn invalidate_on_empty_cache_makes_rows_without_content() {
    let mut cache = LineCache::new();
    let update = json(r#"{"ops": [{"op": "invalidate", "n": 3}]}"#);
    assert_eq!(cache.apply_update(&update), Ok(()));
    assert_eq!(cache.height(), 3);
    assert!(cache.get_line(0).is_none());
    assert!(cache.get_line(1).is_none());
    assert!(cache.get_line(2).is_none());
}

#[test]
fn insert_of_one_plain_line() {
    let mut cache = LineCache::new();
    let update = json(r#"{"ops": [{"op": "ins", "lines": [{"text": "hi\n"}]}]}"#);
    assert_eq!(cache.apply_update(&update), Ok(()));
    assert_eq!(cache.height(), 1);
    let line = cache.get_line(0).unwrap();
    assert_eq!(line.text(), "hi\n");
    assert!(line.cursor().is_empty());
    assert!(line.styles().is_empty());
}

#[test]
fn copy_skip_copy_keeps_the_rows_around_the_skipped_one() {
    let mut cache = five_lines();
    let old: Vec<Line> = (0..5)
        .map(|i| {
            let line = cache.get_line(i).unwrap();
            Line::from_parts(line.text().to_owned(), &[], &[]).unwrap()
        })
        .collect();
    let old_cursor: Vec<Vec<usize>> =
        (0..5).map(|i| cache.get_line(i).unwrap().cursor().to_vec()).collect();
    let old_styles: Vec<Vec<StyleSpan>> =
        (0..5).map(|i| cache.get_line(i).unwrap().styles().to_vec()).collect();
    let update = json(
        r#"{"ops": [{"op": "copy", "n": 2}, {"op": "skip", "n": 1}, {"op": "copy", "n": 2}]}"#,
    );
    assert_eq!(cache.apply_update(&update), Ok(()));
    assert_eq!(cache.height(), 4);
    for (new, old_index) in [(0, 0), (1, 1), (2, 3), (3, 4)] {
        let line = cache.get_line(new).unwrap();
        assert_eq!(line.text(), old[old_index].text());
        assert_eq!(line.cursor(), &old_cursor[old_index][..]);
        assert_eq!(line.styles(), &old_styles[old_index][..]);
    }
    assert_eq!(cache.get_line(1).unwrap().styles(), &[StyleSpan { style_id: 9, range: 0..3 }]);
    assert_eq!(cache.get_line(2).unwrap().cursor(), &[0, 5]);
}

#[test]
fn get_line_out_of_range_is_none() {
    let cache = five_lines();
    assert!(cache.get_line(4).is_some());
    assert!(cache.get_line(5).is_none());
    assert!(cache.get_line(usize::MAX).is_none());
}

#[test]
fn height_is_inserted_plus_copied_plus_invalidated() {
    let mut cache = five_lines();
    let update = json(
        r#"{"ops": [
            {"op": "copy", "n": 1},
            {"op": "ins", "lines": [{"text": "a"}, {"text": "b"}]},
            {"op": "skip", "n": 2},
            {"op": "invalidate", "n": 3},
            {"op": "copy", "n": 2}
        ]}"#,
    );
    assert_eq!(cache.apply_update(&update), Ok(()));
    assert_eq!(cache.height(), 2 + 3 + 3);
    assert_eq!(
        texts(&cache),
        vec![
            Some("zero\n".to_owned()),
            Some("a".to_owned()),
            Some("b".to_owned()),
            None,
            None,
            None,
            Some("three\n".to_owned()),
            Some("four\n".to_owned()),
        ]
    );
}

#[test]
fn invalidate_does_not_read_the_old_cache() {
    let mut cache = five_lines();
    let update = json(r#"{"ops": [{"op": "invalidate", "n": 2}, {"op": "copy", "n": 1}]}"#);
    assert_eq!(cache.apply_update(&update), Ok(()));
    assert_eq!(texts(&cache), vec![None, None, Some("zero\n".to_owned())]);
}

#[test]
fn skip_then_copy_yields_the_rows_after_the_skipped_ones() {
    let mut cache = five_lines();
    let update = json(r#"{"ops": [{"op": "skip", "n": 2}, {"op": "copy", "n": 2}]}"#);
    assert_eq!(cache.apply_update(&update), Ok(()));
    assert_eq!(texts(&cache), vec![Some("two\n".to_owned()), Some("three\n".to_owned())]);
}

#[test]
fn skip_of_zero_rows_skips_nothing() {
    let mut cache = five_lines();
    let update = json(r#"{"ops": [{"op": "skip", "n": 0}, {"op": "copy", "n": 1}]}"#);
    assert_eq!(cache.apply_update(&update), Ok(()));
    assert_eq!(texts(&cache), vec![Some("zero\n".to_owned())]);
}

#[test]
fn copy_past_the_end_of_the_old_cache_fills_with_empty_rows() {
    let mut cache = five_lines();
    let update = json(r#"{"ops": [{"op": "skip", "n": 4}, {"op": "copy", "n": 3}]}"#);
    assert_eq!(cache.apply_update(&update), Ok(()));
    assert_eq!(texts(&cache), vec![Some("four\n".to_owned()), None, None]);
}

#[test]
fn skip_past_the_end_leaves_nothing_to_copy() {
    let mut cache = five_lines();
    let update = json(
        r#"{"ops": [{"op": "skip", "n": 18446744073709551615}, {"op": "skip", "n": 7}, {"op": "copy", "n": 2}]}"#,
    );
    assert_eq!(cache.apply_update(&update), Ok(()));
    assert_eq!(texts(&cache), vec![None, None]);
}

#[test]
fn copy_keeps_rows_without_content() {
    let mut cache = LineCache::new();
    cache.apply(vec![
        DiffOp::Invalidate(1),
        DiffOp::Insert(vec![Line::from_parts("x".to_owned(), &[], &[]).unwrap()]),
    ]);
    cache.apply(vec![DiffOp::Copy(2)]);
    assert_eq!(texts(&cache), vec![None, Some("x".to_owned())]);
}

#[test]
fn empty_update_empties_the_cache() {
    let mut cache = five_lines();
    assert_eq!(cache.apply_update(&json(r#"{"ops": []}"#)), Ok(()));
    assert_eq!(cache.height(), 0);
}

#[test]
fn unknown_op_is_ignored() {
    let mut cache = five_lines();
    let update = json(
        r#"{"ops": [{"op": "copy", "n": 1}, {"op": "update", "n": 2}, {"n": 5}, 7, {"op": 3}, {"op": "copy", "n": 1}]}"#,
    );
    assert_eq!(cache.apply_update(&update), Ok(()));
    assert_eq!(texts(&cache), vec![Some("zero\n".to_owned()), Some("one\n".to_owned())]);
}

#[test]
fn update_without_ops_is_a_parse_failure_and_changes_nothing() {
    let mut cache = five_lines();
    let before = texts(&cache);
    assert_eq!(cache.apply_update(&json(r#"{}"#)), Err(ParseError::MissingOps));
    assert_eq!(cache.apply_update(&json(r#"{"ops": 3}"#)), Err(ParseError::MissingOps));
    assert_eq!(cache.apply_update(&json(r#"[]"#)), Err(ParseError::MissingOps));
    assert_eq!(texts(&cache), before);
}

#[test]
fn op_without_count_is_a_parse_failure_and_changes_nothing() {
    let mut cache = five_lines();
    let before = texts(&cache);
    for update in [
        r#"{"ops": [{"op": "copy", "n": 1}, {"op": "copy"}]}"#,
        r#"{"ops": [{"op": "skip", "n": -1}]}"#,
        r#"{"ops": [{"op": "invalidate", "n": "3"}]}"#,
        r#"{"ops": [{"op": "invalidate", "n": 1.5}]}"#,
    ] {
        assert_eq!(cache.apply_update(&json(update)), Err(ParseError::MissingCount));
        assert_eq!(texts(&cache), before);
    }
}

#[test]
fn insert_without_lines_is_a_parse_failure() {
    let mut cache = five_lines();
    let before = texts(&cache);
    assert_eq!(
        cache.apply_update(&json(r#"{"ops": [{"op": "ins"}]}"#)),
        Err(ParseError::MissingLines)
    );
    assert_eq!(
        cache.apply_update(&json(r#"{"ops": [{"op": "ins", "lines": {}}]}"#)),
        Err(ParseError::MissingLines)
    );
    assert_eq!(texts(&cache), before);
}

#[test]
fn first_unreadable_op_decides_the_error() {
    let update = json(
        r#"{"ops": [{"op": "ins", "lines": [{"text": "ok"}, {"cursor": [1]}]}, {"op": "copy"}]}"#,
    );
    assert_eq!(parse_update(&update), Err(ParseError::MissingText));
    let update = json(r#"{"ops": [{"op": "copy"}, {"op": "ins", "lines": [{}]}]}"#);
    assert_eq!(parse_update(&update), Err(ParseError::MissingCount));
}

#[test]
fn parse_update_reads_each_kind_of_op() {
    let update = json(
        r#"{"ops": [
            {"op": "ins", "lines": [{"text": "x"}]},
            {"op": "copy", "n": 2},
            {"op": "noop"},
            {"op": "skip", "n": 3},
            {"op": "invalidate", "n": 4}
        ]}"#,
    );
    let ops = parse_update(&update).unwrap();
    assert_eq!(
        ops,
        vec![
            DiffOp::Insert(vec![Line::from_parts("x".to_owned(), &[], &[]).unwrap()]),
            DiffOp::Copy(2),
            DiffOp::Skip(3),
            DiffOp::Invalidate(4),
        ]
    );
}

#[test]
fn diff_op_from_json_reads_one_op() {
    assert_eq!(DiffOp::from_json(&json(r#"{"op": "skip", "n": 9}"#)), Ok(Some(DiffOp::Skip(9))));
    assert_eq!(DiffOp::from_json(&json(r#"{"op": "later"}"#)), Ok(None));
    assert_eq!(DiffOp::from_json(&json(r#"null"#)), Ok(None));
    assert_eq!(DiffOp::from_json(&json(r#"{"op": "copy"}"#)), Err(ParseError::MissingCount));
}

#[test]
fn line_from_json_converts_carets_to_code_units() {
    // a = byte 0, emoji = bytes 1..5, b = byte 5, newline = byte 6.
    let line = Line::from_json(&json(r#"{"text": "a😀b\n", "cursor": [0, 1, 5, 6, 7]}"#)).unwrap();
    assert_eq!(line.text(), "a😀b\n");
    assert_eq!(line.cursor(), &[0, 1, 3, 4, 5]);
    assert!(line.styles().is_empty());
}

#[test]
fn line_from_json_rounds_carets_down_and_clamps_them() {
    let line = Line::from_json(&json(
        r#"{"text": "a😀b", "cursor": [2, 3, 4, 6, 100, 18446744073709551615]}"#,
    ))
    .unwrap();
    assert_eq!(line.cursor(), &[1, 1, 1, 4, 4, 4]);
}

#[test]
fn line_from_json_converts_style_triples_to_spans() {
    // First span: start 0 + 1 = 1, end 1 + 4 = 5. Second: start 5 + 0 = 5, end 6.
    let line =
        Line::from_json(&json(r#"{"text": "a😀b\n", "styles": [1, 4, 7, 0, 1, 2]}"#)).unwrap();
    assert_eq!(
        line.styles(),
        &[StyleSpan { style_id: 7, range: 1..3 }, StyleSpan { style_id: 2, range: 3..4 }]
    );
}

#[test]
fn line_from_json_takes_negative_start_deltas() {
    // First span 2..6, second starts at 6 - 4 = 2 and ends at 3.
    let line =
        Line::from_json(&json(r#"{"text": "abcdefgh", "styles": [2, 4, 1, -4, 1, 2]}"#)).unwrap();
    assert_eq!(
        line.styles(),
        &[StyleSpan { style_id: 1, range: 2..6 }, StyleSpan { style_id: 2, range: 2..3 }]
    );
}

#[test]
fn line_from_json_treats_members_of_another_type_as_absent() {
    let line = Line::from_json(&json(r#"{"text": "x", "cursor": 3, "styles": "bold"}"#)).unwrap();
    assert!(line.cursor().is_empty());
    assert!(line.styles().is_empty());
}

#[test]
fn line_without_text_is_a_parse_failure() {
    assert_eq!(Line::from_json(&json(r#"{"cursor": [0]}"#)), Err(ParseError::MissingText));
    assert_eq!(Line::from_json(&json(r#"{"text": 5}"#)), Err(ParseError::MissingText));
    assert_eq!(Line::from_json(&json(r#""text""#)), Err(ParseError::MissingText));
}

#[test]
fn caret_that_is_no_offset_is_a_parse_failure() {
    for line in [
        r#"{"text": "x", "cursor": [0, -1]}"#,
        r#"{"text": "x", "cursor": ["0"]}"#,
        r#"{"text": "x", "cursor": [0.5]}"#,
        r#"{"text": "x", "cursor": [null], "styles": [1]}"#,
    ] {
        assert_eq!(Line::from_json(&json(line)), Err(ParseError::BadCursor));
    }
}

#[test]
fn styles_that_are_no_triples_are_a_parse_failure() {
    for line in [
        r#"{"text": "abc", "styles": [0]}"#,
        r#"{"text": "abc", "styles": [0, 1, 2, 3]}"#,
        r#"{"text": "abc", "styles": [0, 1, -2]}"#,
        r#"{"text": "abc", "styles": ["0", 1, 2]}"#,
        r#"{"text": "abc", "styles": [0, 1.5, 2]}"#,
        r#"{"text": "abc", "styles": [9223372036854775808, 1, 2]}"#,
    ] {
        assert_eq!(Line::from_json(&json(line)), Err(ParseError::BadStyles));
    }
}

#[test]
fn span_outside_the_offsets_is_a_parse_failure() {
    for line in [
        // Starts before the line.
        r#"{"text": "abc", "styles": [-1, 2, 0]}"#,
        // Ends before it starts.
        r#"{"text": "abc", "styles": [1, -1, 0]}"#,
        // Second span starts before the line.
        r#"{"text": "abc", "styles": [0, 1, 0, -2, 1, 0]}"#,
        // End beyond the largest offset.
        r#"{"text": "abc", "styles": [9223372036854775807, 1, 0]}"#,
    ] {
        assert_eq!(Line::from_json(&json(line)), Err(ParseError::BadStyles));
    }
}

#[test]
fn line_from_parts_gives_the_same_line_as_from_json() {
    let from_parts = Line::from_parts(
        "a😀b\n".to_owned(),
        &[0, 5],
        &[
            RawStyle { start_delta: 1, length: 4, style_id: 7 },
            RawStyle { start_delta: 0, length: 1, style_id: 2 },
        ],
    );
    let from_json = Line::from_json(&json(
        r#"{"text": "a😀b\n", "cursor": [0, 5], "styles": [1, 4, 7, 0, 1, 2]}"#,
    ));
    assert_eq!(from_parts, from_json);
    let line = from_parts.unwrap();
    assert_eq!(line.cursor(), &[0, 3]);
}

#[test]
fn line_from_parts_clamps_spans_to_the_line() {
    let line = Line::from_parts(
        "ab".to_owned(),
        &[],
        &[RawStyle { start_delta: 1, length: 50, style_id: 3 }],
    )
    .unwrap();
    assert_eq!(line.styles(), &[StyleSpan { style_id: 3, range: 1..2 }]);
}

#[test]
fn line_from_parts_rejects_bad_spans() {
    let bad = [
        RawStyle { start_delta: -1, length: 1, style_id: 0 },
        RawStyle { start_delta: 0, length: -1, style_id: 0 },
        RawStyle { start_delta: i64::MAX, length: 1, style_id: 0 },
        RawStyle { start_delta: i64::MIN, length: i64::MIN, style_id: 0 },
    ];
    for style in bad {
        assert_eq!(Line::from_parts("abc".to_owned(), &[], &[style]), Err(ParseError::BadStyles));
    }
}

#[test]
fn style_span_clone_is_equal() {
    let span = StyleSpan { style_id: 4, range: 2..9 };
    assert_eq!(span.clone(), span);
}
