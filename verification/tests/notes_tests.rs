use quicknote::notes::{parse_notes, read_failure_message};

const DELIM: &str = "------------------";

#[test]
fn two_chunks_newest_first() {
    let content = format!("[2024-01-01]\nHello\n{}\n[2024-01-02]\nWorld", DELIM);
    let notes = parse_notes(&content);
    assert_eq!(notes.len(), 2);
    assert_eq!(notes[0].date, "2024-01-02");
    assert_eq!(notes[0].content, "World");
    assert_eq!(notes[1].date, "2024-01-01");
    assert_eq!(notes[1].content, "Hello");
}

#[test]
fn empty_content_yields_no_notes() {
    let notes = parse_notes("");
    assert_eq!(notes.len(), 0);
}

#[test]
fn no_delimiter_is_one_chunk() {
    let notes = parse_notes("[2024]\nBody text");
    assert_eq!(notes.len(), 1);
    assert_eq!(notes[0].date, "2024");
    assert_eq!(notes[0].content, "Body text");
}

#[test]
fn chunk_without_newline_is_dropped() {
    let notes = parse_notes("just a date line with no body");
    assert_eq!(notes.len(), 0);
}

#[test]
fn empty_chunk_between_delimiters_is_dropped() {
    let content = format!("A\nx\n{}\n{}\nB\ny", DELIM, DELIM);
    let notes = parse_notes(&content);
    assert_eq!(notes.len(), 2);
    assert_eq!(notes[0].date, "B");
    assert_eq!(notes[0].content, "y");
    assert_eq!(notes[1].date, "A");
    assert_eq!(notes[1].content, "x");
}

#[test]
fn whitespace_only_chunk_is_dropped() {
    let content = format!("  \n\t\n{}\nC\nbody", DELIM);
    let notes = parse_notes(&content);
    assert_eq!(notes.len(), 1);
    assert_eq!(notes[0].date, "C");
}

#[test]
fn all_brackets_stripped_from_date() {
    let notes = parse_notes("[[20]24]-01-0]1[\nbody");
    assert_eq!(notes.len(), 1);
    assert_eq!(notes[0].date, "2024-01-01");
    assert_eq!(notes[0].content, "body");
}

#[test]
fn date_without_brackets_is_kept_as_is() {
    let notes = parse_notes("2024-05-05\nhello");
    assert_eq!(notes.len(), 1);
    assert_eq!(notes[0].date, "2024-05-05");
    assert_eq!(notes[0].content, "hello");
}

#[test]
fn date_and_body_are_trimmed() {
    let notes = parse_notes("  [2024]  \n  body text  \n");
    assert_eq!(notes.len(), 1);
    assert_eq!(notes[0].date, "2024");
    assert_eq!(notes[0].content, "body text");
}

#[test]
fn three_chunks_come_out_reversed() {
    let content = format!("[1]\na\n{}\n[2]\nb\n{}\n[3]\nc", DELIM, DELIM);
    let notes = parse_notes(&content);
    assert_eq!(notes.len(), 3);
    assert_eq!(notes[0].date, "3");
    assert_eq!(notes[1].date, "2");
    assert_eq!(notes[2].date, "1");
}

#[test]
fn output_never_exceeds_nonempty_chunks() {
    let content = format!("no newline here{}\n[2024]\nbody{}   ", DELIM, DELIM);
    let notes = parse_notes(&content);
    // three chunks, two non-empty after trimming, one with a newline
    assert_eq!(notes.len(), 1);
    assert_eq!(notes[0].date, "2024");
}

#[test]
fn body_keeps_inner_newlines() {
    let notes = parse_notes("[d]\nline one\nline two");
    assert_eq!(notes.len(), 1);
    assert_eq!(notes[0].content, "line one\nline two");
}

#[test]
fn delimiter_only_content_yields_nothing() {
    let notes = parse_notes(DELIM);
    assert_eq!(notes.len(), 0);
}

#[test]
fn leading_delimiter_leaves_an_empty_first_chunk() {
    let content = format!("{}\n[d]\nx", DELIM);
    let notes = parse_notes(&content);
    assert_eq!(notes.len(), 1);
    assert_eq!(notes[0].date, "d");
    assert_eq!(notes[0].content, "x");
}

#[test]
fn seventeen_dashes_do_not_split() {
    let notes = parse_notes("[d]\n-----------------");
    assert_eq!(notes.len(), 1);
    assert_eq!(notes[0].content, "-----------------");
}

#[test]
fn delimiter_inside_a_line_still_splits() {
    let content = format!("x\ny{}z\nw", DELIM);
    let notes = parse_notes(&content);
    assert_eq!(notes.len(), 2);
    assert_eq!(notes[0].date, "z");
    assert_eq!(notes[0].content, "w");
    assert_eq!(notes[1].date, "x");
    assert_eq!(notes[1].content, "y");
}

#[test]
fn failure_message_names_the_path() {
    let msg = read_failure_message("/nope/missing.txt", "No such file or directory");
    assert!(msg.contains("/nope/missing.txt"));
    assert_eq!(
        msg,
        "Error reading file at '/nope/missing.txt': No such file or directory"
    );
}
