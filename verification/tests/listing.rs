use pkgrank::listing::listed_lines;

fn lines_by_std(output: &[u8]) -> Option<Vec<String>> {
    let text = String::from_utf8_lossy(output).to_string();
    let part = text.split("Listing...\n").nth(1)?;
    Some(part.lines().filter(|line| !line.is_empty()).map(|line| line.to_string()).collect())
}

fn lines_as_text(output: &[u8]) -> Option<Vec<String>> {
    let lines = listed_lines(output)?;
    Some(lines.iter().map(|line| String::from_utf8_lossy(line).to_string()).collect())
}

#[test]
fn lines_after_the_marker() {
    let output = b"Listing...\nvim/stable 2:9.0 amd64\nemacs/stable 1:28 all\n";
    let lines = listed_lines(output).unwrap();
    assert_eq!(lines.len(), 2);
    assert_eq!(lines[0], b"vim/stable 2:9.0 amd64");
    assert_eq!(lines[1], b"emacs/stable 1:28 all");
}

#[test]
fn no_marker_no_list() {
    assert!(listed_lines(b"").is_none());
    assert!(listed_lines(b"vim/stable\n").is_none());
    assert!(listed_lines(b"Listing...").is_none());
    assert!(listed_lines(b"listing...\nvim\n").is_none());
}

#[test]
fn what_stands_before_the_marker_is_dropped() {
    let output = b"WARNING: apt does not have a stable CLI interface.\n\nListing...\nvim\n";
    let lines = listed_lines(output).unwrap();
    assert_eq!(lines, vec![b"vim".as_slice()]);
}

#[test]
fn empty_lines_are_dropped() {
    let output = b"Listing...\n\nvim\n\n\nsed\n\n";
    let lines = listed_lines(output).unwrap();
    assert_eq!(lines, vec![b"vim".as_slice(), b"sed".as_slice()]);
}

#[test]
fn marker_alone_lists_nothing() {
    assert_eq!(listed_lines(b"Listing...\n").unwrap().len(), 0);
    assert_eq!(listed_lines(b"Listing...\n\n\r\n").unwrap().len(), 0);
}

#[test]
fn last_line_needs_no_line_feed() {
    let lines = listed_lines(b"Listing...\nvim\nsed").unwrap();
    assert_eq!(lines, vec![b"vim".as_slice(), b"sed".as_slice()]);
}

#[test]
fn carriage_return_before_line_feed_is_dropped() {
    let lines = listed_lines(b"Listing...\nvim\r\nsed\r\r\nawk\r").unwrap();
    assert_eq!(lines, vec![b"vim".as_slice(), b"sed\r".as_slice(), b"awk\r".as_slice()]);
}

#[test]
fn list_ends_at_the_next_marker() {
    let output = b"x\nListing...\nvim\nsed Listing...\nawk\nListing...\ngrep\n";
    let lines = listed_lines(output).unwrap();
    assert_eq!(lines, vec![b"vim".as_slice(), b"sed ".as_slice()]);
}

#[test]
fn marker_right_after_marker_lists_nothing() {
    assert_eq!(listed_lines(b"Listing...\nListing...\nvim\n").unwrap().len(), 0);
}

#[test]
fn reading_agrees_with_std() {
    let outputs: Vec<&[u8]> = vec![
        b"",
        b"Listing...\n",
        b"Listing...",
        b"Listing...\nvim/stable 2:9.0 amd64 [installed]\nvim-tiny/stable 2:9.0 amd64\n",
        b"noise\nListing...\n\r\na\r\n\nb\rc\n\rd\r\r\ne",
        b"LListing...\nListing..\nListing...\nq\n",
        b"Listing...\nna\xc3\xafve/1.0\n\xe6\x97\xa5\xe6\x9c\xac\xe8\xaa\x9e/x\n",
        b"aListing...\nbListing...\ncListing...\nd",
        b"Listing...\n\n\n",
    ];
    for output in outputs {
        assert_eq!(lines_as_text(output), lines_by_std(output));
    }
}
