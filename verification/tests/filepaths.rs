use linefreq::filepaths::FilePathParser;

fn strings(names: &[&str]) -> Vec<String> {
    names.iter().map(|n| n.to_string()).collect()
}

#[test]
fn empty_input_is_stdin_by_default() {
    let input: Vec<String> = vec![];
    let expected = input.clone();

    let fp = FilePathParser::new(input);

    assert_eq!(fp.files, expected);
    assert_eq!(fp.has_stdin, true);
}

#[test]
fn single_file() {
    let input = strings(&["file1"]);
    let expected = input.clone();

    let fp = FilePathParser::new(input);

    assert_eq!(fp.files, expected);
    assert_eq!(fp.has_stdin, false);
}

#[test]
fn multiple_filenames() {
    let input = strings(&["file1", "file2", "file3"]);
    let expected = input.clone();

    let fp = FilePathParser::new(input);

    assert_eq!(fp.files, expected);
    assert_eq!(fp.has_stdin, false);
}

#[test]
fn duplicate_filenames() {
    let input = strings(&["file1", "file2", "file1"]);
    let expected = input.clone();

    let fp = FilePathParser::new(input);

    assert_eq!(fp.files, expected);
    assert_eq!(fp.has_stdin, false);
}

#[test]
fn stdin_only() {
    let input = strings(&["-"]);

    let expected: Vec<String> = vec![];

    let fp = FilePathParser::new(input);

    assert_eq!(fp.files, expected);
    assert_eq!(fp.has_stdin, true);
}

#[test]
fn stdin_multiple_times() {
    let input = strings(&["-", "-", "-"]);

    let expected: Vec<String> = vec![];

    let fp = FilePathParser::new(input);

    assert_eq!(fp.files, expected);
    assert_eq!(fp.has_stdin, true);
}

#[test]
fn stdin_before_filenames() {
    let input = strings(&["-", "file1", "file2"]);

    let expected = strings(&["file1", "file2"]);

    let fp = FilePathParser::new(input);

    assert_eq!(fp.files, expected);
    assert_eq!(fp.has_stdin, true);
}

#[test]
fn stdin_after_filenames() {
    let input = strings(&["file1", "file2", "-"]);

    let expected = strings(&["file1", "file2"]);

    let fp = FilePathParser::new(input);

    assert_eq!(fp.files, expected);
    assert_eq!(fp.has_stdin, true);
}

#[test]
fn stdin_between_filenames() {
    let input = strings(&["file1", "-", "file2"]);

    let expected = strings(&["file1", "file2"]);

    let fp = FilePathParser::new(input);

    assert_eq!(fp.files, expected);
    assert_eq!(fp.has_stdin, true);
}

#[test]
fn mixed_stdin_and_duplicate_filenames() {
    let input = strings(&["-", "file1", "-", "file2", "-", "file1", "file2"]);

    let expected = strings(&["file1", "file2", "file1", "file2"]);

    let fp = FilePathParser::new(input);

    assert_eq!(fp.files, expected);
    assert_eq!(fp.has_stdin, true);
}

#[test]
fn stdin_collapses_to_one_pass_after_files() {
    let input = strings(&["-", "file1", "-", "file2"]);

    let expected = strings(&["file1", "file2"]);

    let fp = FilePathParser::new(input);

    assert_eq!(fp.files, expected);
    assert_eq!(fp.has_stdin, true);
}
