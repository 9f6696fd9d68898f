use megaparse::listing::{size_column_of, Converter};

fn file_line(mark: &str, size: &str, name: &str) -> String {
    format!("{}{:>4}{:>11} {} {} {}\n", mark, "1", size, "2023-01-15", "12:34:56", name)
}

fn feed(c: &mut Converter, line: &str) -> (Option<String>, bool) {
    assert!(c.can_convert(line.as_bytes()));
    let out = c.convert_line(line.as_bytes());
    (out.record.map(|r| String::from_utf8(r).unwrap()), out.finished)
}

#[test]
fn file_before_any_header_keeps_the_unset_directory() {
    let mut c = Converter::new(10);
    let (r, done) = feed(&mut c, &file_line("---- ", "12345", "a.txt"));
    assert_eq!(r.as_deref(), Some("--/a.txt,12345,2023-01-15 12:34:56\n"));
    assert!(!done);
}

#[test]
fn files_under_the_top_directory_have_bare_names() {
    let mut c = Converter::new(10);
    assert_eq!(feed(&mut c, "/Root/Photos:\n"), (None, false));
    let (r, _) = feed(&mut c, &file_line("---- ", "12345", "photo.jpg"));
    assert_eq!(r.as_deref(), Some("photo.jpg,12345,2023-01-15 12:34:56\n"));
}

#[test]
fn later_headers_give_relative_directories() {
    let mut c = Converter::new(100);
    feed(&mut c, "/Root/Photos:\n");
    feed(&mut c, "\n");
    assert_eq!(feed(&mut c, "/Root/Photos/2023/May:\n"), (None, false));
    let (r, _) = feed(&mut c, &file_line("-ep- ", "7", "b.png"));
    assert_eq!(r.as_deref(), Some("2023/May/b.png,7,2023-01-15 12:34:56\n"));
}

#[test]
fn directory_entries_are_skipped() {
    let mut c = Converter::new(100);
    feed(&mut c, "/Root:\n");
    let (r, _) = feed(&mut c, "d---    -          - 2023-01-15 12:34:56 sub:dir\n");
    assert_eq!(r, None);
    let (r, _) = feed(&mut c, &file_line("---- ", "1", "x"));
    assert_eq!(r.as_deref(), Some("x,1,2023-01-15 12:34:56\n"));
}

#[test]
fn other_lines_give_nothing() {
    let mut c = Converter::new(100);
    assert_eq!(feed(&mut c, "FLAGS VERS SIZE\n"), (None, false));
    assert_eq!(feed(&mut c, &file_line("-x-- ", "1", "x")), (None, false));
}

#[test]
fn bad_sizes_are_reported_in_the_record() {
    let mut c = Converter::new(100);
    feed(&mut c, "/R:\n");
    let (r, _) = feed(&mut c, &file_line("---- ", "-", "f"));
    assert_eq!(r.as_deref(), Some("f,invalid size value: ---,2023-01-15 12:34:56\n"));
    let (r, _) = feed(&mut c, &file_line("---- ", "-5", "g"));
    assert_eq!(r.as_deref(), Some("g,invalid size value: --5-,2023-01-15 12:34:56\n"));
    let (r, _) = feed(&mut c, &file_line("---- ", "+0042", "h"));
    assert_eq!(r.as_deref(), Some("h,42,2023-01-15 12:34:56\n"));
}

#[test]
fn size_column_cases() {
    assert_eq!(size_column_of(b"      12345"), b"12345".to_vec());
    assert_eq!(size_column_of(b"          -"), b"invalid size value: ---".to_vec());
    assert_eq!(size_column_of(b"   12 34   "), b"invalid size value: -12 34-".to_vec());
}

#[test]
fn last_line_without_line_feed_loses_its_last_byte() {
    let mut c = Converter::new(100);
    feed(&mut c, "/R:\n");
    let line = file_line("---- ", "3", "name.txt");
    let line = line.trim_end_matches('\n');
    let (r, _) = feed(&mut c, line);
    assert_eq!(r.as_deref(), Some("name.tx,3,2023-01-15 12:34:56\n"));
}

#[test]
fn conversion_stops_after_the_row_limit() {
    let mut c = Converter::new(10);
    for i in 1..=10 {
        let (_, done) = feed(&mut c, "\n");
        assert!(!done, "line {}", i);
        assert_eq!(c.lines_read_so_far(), i);
    }
    let (_, done) = feed(&mut c, "\n");
    assert!(done);
    assert_eq!(c.limit(), 10);
}

#[test]
fn short_file_lines_cannot_be_converted() {
    let c = Converter::new(10);
    assert!(!c.can_convert(b"---- short line\n"));
    let line = file_line("---- ", "1", "");
    assert!(c.can_convert(line.as_bytes()));
    let line = line.trim_end_matches('\n');
    assert!(!c.can_convert(line.as_bytes()));
    let line = file_line("---- ", "1", "a");
    assert!(c.can_convert(line.as_bytes()));
}

#[test]
fn file_lines_cut_inside_a_character_cannot_be_converted() {
    let c = Converter::new(10);
    let line = format!("---- {:>4}{:>10}é 2023-01-15 12:34:56 n\n", "1", "1");
    assert!(!c.can_convert(line.as_bytes()));
}

#[test]
fn headers_outside_the_top_directory_cannot_be_converted() {
    let mut c = Converter::new(10);
    feed(&mut c, "/Root/Photos:\n");
    assert!(!c.can_convert(b"/Other:\n"));
    assert!(!c.can_convert(b"/Root/Photos:\n"));
    assert!(c.can_convert(b"/Root/Photos/x:\n"));
}

#[test]
fn header_ending_at_the_separator_gives_an_empty_directory() {
    let mut c = Converter::new(10);
    feed(&mut c, "/R:\n");
    feed(&mut c, "/R/:\n");
    let (r, _) = feed(&mut c, &file_line("---- ", "1", "z"));
    assert_eq!(r.as_deref(), Some("z,1,2023-01-15 12:34:56\n"));
}
