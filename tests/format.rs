use model_format::{
    calculate_max_widths, format_model_file, generate_aligned_output, parse_file_contents, Line,
};

fn record(fields: &[&str]) -> Line {
    Line::Record(fields.iter().map(|f| f.to_string()).collect())
}

fn records(lines: &[Line]) -> Vec<Vec<String>> {
    lines
        .iter()
        .filter_map(|l| match l {
            Line::Record(fs) => Some(fs.clone()),
            _ => None,
        })
        .collect()
}

fn format(text: &str) -> String {
    format_model_file(text).unwrap()
}

#[test]
fn format_test_generate_aligned_output() {
    let lines = vec![
        Line::Comment("# This is a comment".to_string()),
        Line::Empty,
        record(&["Model A", "[some description]", "'hello world'", "->", "false"]),
        record(&["Model B", "", "some description", "->", "false"]),
        record(&["Model C", "", "", "->", "true"]),
    ];

    let max_widths = calculate_max_widths(&lines);
    let expected_output = r#"# This is a comment

Model A  [some description]  'hello world'     ->  false
Model B                      some description  ->  false
Model C                                        ->  true
"#;

    let actual_output = generate_aligned_output(&lines, &max_widths);

    assert_eq!(actual_output, expected_output);
}

#[test]
fn test_parse_file_contents() {
    let contents = r#"# This is a comment
            a                 b  ->  c
            hello world  [x]  b  ->  c"#;
    let all = parse_file_contents(contents);
    assert_eq!(all.len(), 3);
    assert_eq!(all[0], Line::Comment("# This is a comment".to_string()));
    let lines = records(&all);
    assert_eq!(lines.len(), 2);
    assert_eq!(lines[0].len(), 5);
    assert_eq!(lines[1].len(), 5);
    assert_eq!(lines[0][0], "a");
    assert_eq!(lines[0][1], "");
    assert_eq!(lines[0][2], "b");
    assert_eq!(lines[0][3], "->");
    assert_eq!(lines[0][4], "c");
    assert_eq!(lines[1][0], "hello world");
    assert_eq!(lines[1][1], "[x]");
    assert_eq!(lines[1][2], "b");
    assert_eq!(lines[1][3], "->");
    assert_eq!(lines[1][4], "c");
}

#[test]
fn test_calculate_max_widths() {
    let lines = vec![
        record(&["a", "bb", "ccc"]),
        record(&["dddd", "eee", "f"]),
        record(&["ggggg", "hh", "i"]),
    ];
    let max_widths = calculate_max_widths(&lines);
    assert_eq!(max_widths.len(), 3);
    assert_eq!(max_widths[0], 5);
    assert_eq!(max_widths[1], 3);
    assert_eq!(max_widths[2], 3);
}

#[test]
fn formatt_test_generate_aligned_output() {
    let lines = vec![
        record(&["a", "bb", "ccc"]),
        record(&["dddd", "eee", "f"]),
        record(&["ggggg", "hh", "i"]),
    ];
    let max_widths = vec![5, 3, 3];
    let output = generate_aligned_output(&lines, &max_widths);
    let expected_output = "a      bb   ccc\n\
                           dddd   eee  f\n\
                           ggggg  hh   i\n";
    assert_eq!(output, expected_output);
}

#[test]
fn arrows_line_up() {
    // The second record has no annotation, so it gains an empty field at
    // column 1 and its later fields move one column to the right: column 2
    // starts at the same offset in both lines.
    let out = format("Model A  [desc]  ->  false\nModel B  12345678  ->  true\n");
    let lines: Vec<&str> = out.lines().collect();
    assert_eq!(lines.len(), 2);
    assert_eq!(lines[0].find("->"), lines[1].find("12345678"));
    assert_eq!(
        out,
        "Model A  [desc]  ->        false\nModel B          12345678  ->     true\n"
    );
}

#[test]
fn comment_and_blank_line_kept() {
    let out = format("# comment\n\nModel A  desc\n");
    assert_eq!(out, "# comment\n\nModel A    desc\n");
}

#[test]
fn missing_annotation_gets_placeholder() {
    let lines = parse_file_contents("Model A  [note]  x\nModel B  y\n");
    assert_eq!(lines[0], record(&["Model A", "[note]", "x"]));
    assert_eq!(lines[1], record(&["Model B", "", "y"]));
    let out = format("Model A  [note]  x\nModel B  y\n");
    assert_eq!(out, "Model A  [note]  x\nModel B          y\n");
}

#[test]
fn formatting_twice_changes_nothing() {
    let inputs = [
        "Model A  [desc]  ->  false\nModel B  12345678  ->  true\n",
        "# comment\n\n   Model A  desc   \n\tx\n",
        "a   b    c\n[q]  [r]\nsolo\n",
        "",
    ];
    for input in inputs {
        let once = format(input);
        let twice = format(&once);
        assert_eq!(once, twice);
    }
}

#[test]
fn line_count_is_kept() {
    let input = "a  b\n\n# c\nd\n  \ne  [f]  g";
    let out = format(input);
    assert_eq!(out.lines().count(), input.lines().count());
    assert_eq!(out.matches('\n').count(), 6);
}

#[test]
fn only_comments_and_blank_lines() {
    let out = format("  # one  \n\n\t\n#two\n");
    assert_eq!(out, "# one\n\n\n#two\n");
}

#[test]
fn single_field_has_no_trailing_padding() {
    let out = format("alone\nModel A  [long annotation]  x\n");
    assert_eq!(out, "alone\nModel A  [long annotation]  x\n");
    assert_eq!(generate_aligned_output(&[record(&["a"])], &[9]), "a\n");
}

#[test]
fn widths_count_characters_not_bytes() {
    let lines = vec![record(&["héllo", "x"]), record(&["ab", "y"])];
    assert_eq!(calculate_max_widths(&lines), vec![5, 1]);
    let out = format("héllo  [x]  1\nab  [y]  2\n");
    assert_eq!(out, "héllo  [x]  1\nab     [y]  2\n");
}

#[test]
fn ragged_rows_measure_only_present_fields() {
    let lines = vec![record(&["a"]), record(&["bbb", "[c]", "dddd"]), Line::Empty];
    assert_eq!(calculate_max_widths(&lines), vec![3, 3, 4]);
    assert_eq!(calculate_max_widths(&[Line::Empty]), Vec::<usize>::new());
}

#[test]
fn three_spaces_and_tabs_split_and_trim() {
    let lines = parse_file_contents("a   b  \t c\r\n");
    assert_eq!(lines, vec![record(&["a", "", "b", "c"])]);
    let lines = parse_file_contents("x y  z");
    assert_eq!(lines, vec![record(&["x y", "", "z"])]);
}

#[test]
fn empty_text_gives_empty_output() {
    assert_eq!(parse_file_contents(""), Vec::<Line>::new());
    assert_eq!(format(""), "");
    assert_eq!(format("\n"), "\n");
}

#[test]
fn short_width_table_pads_nothing() {
    let out = generate_aligned_output(&[record(&["abc", "d", "e"])], &[1]);
    assert_eq!(out, "abc  d  e\n");
}

#[test]
fn formatting_never_fails() {
    assert!(format_model_file("a  b  c  d  e  f  g\n").is_ok());
}

#[test]
fn formatting_keeps_every_field() {
    let input = "# head\nModel A  [a b]  x y   ->  1\n\n  Model Bee  q  ->  22  \nsolo\n";
    let out = format(input);
    assert_eq!(parse_file_contents(&out), parse_file_contents(input));
}

#[test]
fn fields_start_at_column_offsets() {
    let lines = vec![
        record(&["a", "[bb]", "c", "d"]),
        Line::Comment("# note".to_string()),
        record(&["eeee", "", "fff"]),
    ];
    let widths = calculate_max_widths(&lines);
    assert_eq!(widths, vec![4, 4, 3, 1]);
    let out = generate_aligned_output(&lines, &widths);
    assert_eq!(out, "a     [bb]  c    d\n# note\neeee        fff\n");
    let rows: Vec<&str> = out.lines().collect();
    // Column 2 starts after widths 4 and 4, each with its two-space separator.
    assert_eq!(rows[0].find('c'), Some(12));
    assert_eq!(rows[2].find('f'), Some(12));
}
