use runiq::dedup::Deduplicator;
use runiq::lines::render_lines;
use runiq::lines::split_lines;
use runiq::options::parse_path;
use runiq::options::StreamError;
use runiq::stream::buf_read;
use runiq::stream::with_iterator;

fn bytes(s: &str) -> Vec<u8> {
    s.as_bytes().to_vec()
}

fn line_vec(ls: &[&str]) -> Vec<Vec<u8>> {
    ls.iter().map(|l| l.as_bytes().to_vec()).collect()
}

#[test]
fn two_equal_then_distinct() {
    assert_eq!(buf_read(&bytes("a\na\nb")), bytes("a\nb\n"));
}

#[test]
fn nonadjacent_duplicates_retained() {
    assert_eq!(buf_read(&bytes("a\nb\na")), bytes("a\nb\na\n"));
}

#[test]
fn empty_input_empty_output() {
    assert_eq!(buf_read(&bytes("")), bytes(""));
}

#[test]
fn single_line_gets_one_newline() {
    assert_eq!(buf_read(&bytes("x")), bytes("x\n"));
}

#[test]
fn empty_line_run_collapses() {
    assert_eq!(buf_read(&bytes("\n\n\n")), bytes("\n"));
}

#[test]
fn three_runs_collapse() {
    assert_eq!(buf_read(&bytes("a\na\na\nb\nb\nc")), bytes("a\nb\nc\n"));
}

#[test]
fn trailing_terminator_does_not_add_a_line() {
    assert_eq!(buf_read(&bytes("a\na\nb\n")), bytes("a\nb\n"));
}

#[test]
fn trailing_whitespace_makes_lines_distinct() {
    assert_eq!(buf_read(&bytes("a \na")), bytes("a \na\n"));
}

#[test]
fn filter_is_idempotent_on_concrete_inputs() {
    for input in ["a\na\nb", "a\nb\na", "", "x", "\n\n\n", "a\na\na\nb\nb\nc"] {
        let once = buf_read(&bytes(input));
        let twice = buf_read(&once);
        assert_eq!(twice, once);
    }
}

#[test]
fn output_is_never_longer_and_equal_only_without_adjacent_duplicates() {
    let collapsing = line_vec(&["a", "a", "b"]);
    let out = with_iterator(&collapsing);
    assert!(out.len() < collapsing.len());

    let distinct = line_vec(&["a", "b", "a"]);
    let out = with_iterator(&distinct);
    assert_eq!(out.len(), distinct.len());
    assert_eq!(out, distinct);
}

#[test]
fn surviving_lines_keep_order_and_content() {
    let input = line_vec(&["b", "a", "a", "c", "c", "b"]);
    assert_eq!(with_iterator(&input), line_vec(&["b", "a", "c", "b"]));
}

#[test]
fn all_identical_lines_collapse_to_one() {
    let input = line_vec(&["same", "same", "same", "same"]);
    assert_eq!(with_iterator(&input), line_vec(&["same"]));
}

#[test]
fn empty_lines_are_ordinary_lines() {
    let input = line_vec(&["", "", "a", ""]);
    assert_eq!(with_iterator(&input), line_vec(&["", "a", ""]));
}

#[test]
fn deduplicator_emits_exactly_run_starts() {
    let mut filter = Deduplicator::new();
    assert!(filter.push(&bytes("a")));
    assert!(!filter.push(&bytes("a")));
    assert!(filter.push(&bytes("b")));
    assert!(!filter.push(&bytes("b")));
    assert!(filter.push(&bytes("a")));
}

#[test]
fn splitting_finds_line_boundaries() {
    assert_eq!(split_lines(&bytes("a\nb")), line_vec(&["a", "b"]));
    assert_eq!(split_lines(&bytes("a\n")), line_vec(&["a"]));
    assert_eq!(split_lines(&bytes("\n")), line_vec(&[""]));
    assert_eq!(split_lines(&bytes("")), line_vec(&[]));
}

#[test]
fn rendering_terminates_every_line() {
    assert_eq!(render_lines(&line_vec(&["a", "b"])), bytes("a\nb\n"));
    assert_eq!(render_lines(&line_vec(&[""])), bytes("\n"));
    assert_eq!(render_lines(&line_vec(&[])), bytes(""));
}

#[test]
fn parse_path_accepts_a_regular_file() {
    assert_eq!(
        parse_path(String::from("input.txt"), true),
        Ok(String::from("input.txt"))
    );
}

#[test]
fn parse_path_rejects_anything_else() {
    assert_eq!(
        parse_path(String::from("missing.txt"), false),
        Err(StreamError::SourceUnavailable)
    );
}
