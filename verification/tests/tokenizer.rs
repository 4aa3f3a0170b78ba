use clean_cli::split_line;

fn check_arg(record: &(String, clean_cli::Span), line: &str, expected: &str) {
    let (arg, span) = record;
    assert_eq!(arg.as_str(), span.arg(line));
    assert_eq!(arg.as_str(), expected);
}

#[test]
fn split_line_simple() {
    let line = "one two three";
    let v = split_line(line);
    check_arg(&v[0], line, "one");
    check_arg(&v[1], line, "two");
    check_arg(&v[2], line, "three");
}

#[test]
fn split_line_with_quotes() {
    let line = "one \"two\" three";
    let v = split_line(line);
    check_arg(&v[0], line, "one");
    check_arg(&v[1], line, "two");
    check_arg(&v[2], line, "three");

    let line = "one \"two; two and half\" three";
    let v = split_line(line);
    check_arg(&v[0], line, "one");
    check_arg(&v[1], line, "two; two and half");
    check_arg(&v[2], line, "three");

    let line = "one two \"three\"";
    let v = split_line(line);
    check_arg(&v[0], line, "one");
    check_arg(&v[1], line, "two");
    check_arg(&v[2], line, "three");
}

#[test]
fn split_line_with_bad_quotes() {
    let line = "one two \"three";
    let v = split_line(line);
    check_arg(&v[0], line, "one");
    check_arg(&v[1], line, "two");
    check_arg(&v[2], line, "three");
}

#[test]
fn split_line_single_quotes() {
    let line = "alpha 'beta gamma' delta";
    let v = split_line(line);
    assert_eq!(v.len(), 3);
    check_arg(&v[0], line, "alpha");
    check_arg(&v[1], line, "beta gamma");
    check_arg(&v[2], line, "delta");
}

#[test]
fn split_line_whitespace_runs() {
    let line = "  one   two\t\tthree ";
    let v = split_line(line);
    assert_eq!(v.len(), 3);
    check_arg(&v[0], line, "one");
    check_arg(&v[1], line, "two");
    check_arg(&v[2], line, "three");
}

#[test]
fn split_line_empty_and_spaces() {
    assert!(split_line("").is_empty());
    assert!(split_line("   \t  ").is_empty());
}

#[test]
fn split_line_spans_locate_tokens() {
    let line = "cmd --int 42";
    let v = split_line(line);
    assert_eq!(v.len(), 3);
    assert_eq!(v[0].1.begin, 0);
    assert_eq!(v[0].1.end, 3);
    assert_eq!(v[1].1.begin, 4);
    assert_eq!(v[1].1.end, 9);
    assert_eq!(v[2].1.begin, 10);
    assert_eq!(v[2].1.end, 12);
}
