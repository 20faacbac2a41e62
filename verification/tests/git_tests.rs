use clean_code::git::{
    end_of_line, find_git_root, git_head, ignore_status, is_blank_byte, is_git_ignored,
    line_bounds, parse_seconds, trimmed_range, GitHead, HeadError, IgnoreError, IgnoreStatus,
};
use clean_code::path::FsPath;
use std::cell::RefCell;

fn p(text: &str) -> FsPath {
    FsPath::from_text(text)
}

fn b(text: &str) -> Vec<u8> {
    text.as_bytes().to_vec()
}

#[test]
fn the_nearest_directory_with_the_marker_is_the_root() {
    let asked: RefCell<Vec<FsPath>> = RefCell::new(Vec::new());
    let root = find_git_root(&p("/w/outer/inner/target"), &|marker: &FsPath| {
        asked.borrow_mut().push(marker.clone());
        marker.same(&p("/w/outer/.git")) || marker.same(&p("/w/outer/inner/.git"))
    });
    assert_eq!(root, Some(p("/w/outer/inner")));
    assert_eq!(asked.into_inner(), vec![p("/w/outer/inner/target/.git"), p("/w/outer/inner/.git")]);
}

#[test]
fn the_start_itself_can_be_the_root() {
    assert_eq!(find_git_root(&p("/w/repo"), &|marker: &FsPath| marker.same(&p("/w/repo/.git"))), Some(p("/w/repo")));
    assert_eq!(find_git_root(&p("/"), &|marker: &FsPath| marker.same(&p("/.git"))), Some(p("/")));
}

#[test]
fn without_a_marker_there_is_no_root() {
    let asked: RefCell<Vec<FsPath>> = RefCell::new(Vec::new());
    let root = find_git_root(&p("/w/a/b"), &|marker: &FsPath| {
        asked.borrow_mut().push(marker.clone());
        false
    });
    assert_eq!(root, None);
    assert_eq!(
        asked.into_inner(),
        vec![p("/w/a/b/.git"), p("/w/a/.git"), p("/w/.git"), p("/.git")]
    );
    let relative: RefCell<Vec<FsPath>> = RefCell::new(Vec::new());
    assert_eq!(
        find_git_root(&p("a/b"), &|marker: &FsPath| {
            relative.borrow_mut().push(marker.clone());
            false
        }),
        None
    );
    assert_eq!(relative.into_inner(), vec![p("a/b/.git"), p("a/.git"), p(".git")]);
}

#[test]
fn exit_codes_say_whether_a_path_is_ignored() {
    assert_eq!(ignore_status(Some(0)), IgnoreStatus::Ignored);
    assert_eq!(ignore_status(Some(1)), IgnoreStatus::NotIgnored);
    assert_eq!(ignore_status(Some(128)), IgnoreStatus::Failed(128));
    assert_eq!(ignore_status(Some(-1)), IgnoreStatus::Failed(-1));
    assert_eq!(ignore_status(None), IgnoreStatus::Killed);
}

#[test]
fn the_query_gets_the_path_as_seen_from_the_root() {
    let asked: RefCell<Vec<FsPath>> = RefCell::new(Vec::new());
    let answer = is_git_ignored(&p("/w/repo"), &p("/w/repo/sub/target"), |rest| {
        asked.borrow_mut().push(rest.clone());
        Ok(Some(0))
    });
    assert_eq!(answer, Ok(true));
    assert_eq!(asked.into_inner(), vec![p("sub/target")]);
    assert_eq!(is_git_ignored(&p("/w/repo"), &p("/w/repo/x"), |_| Ok(Some(1))), Ok(false));
}

#[test]
fn a_query_without_answer_is_an_error() {
    assert_eq!(
        is_git_ignored(&p("/w/repo"), &p("/w/repo/x"), |_| Ok(Some(128))),
        Err(IgnoreError::ExitCode(128))
    );
    assert_eq!(is_git_ignored(&p("/w/repo"), &p("/w/repo/x"), |_| Ok(None)), Err(IgnoreError::Signal));
    assert_eq!(
        is_git_ignored(&p("/w/repo"), &p("/w/repo/x"), |_| Err("no such program".to_string())),
        Err(IgnoreError::NotRun("no such program".to_string()))
    );
}

#[test]
fn a_path_outside_the_repository_is_not_asked_about() {
    let asked = std::cell::Cell::new(false);
    let answer = is_git_ignored(&p("/w/repo"), &p("/w/other/x"), |_| {
        asked.set(true);
        Ok(Some(0))
    });
    assert_eq!(answer, Err(IgnoreError::NotUnderRoot));
    assert!(!asked.get());
}

#[test]
fn lines_end_at_newlines() {
    let text = b("ab\ncd\n\nef");
    assert_eq!(end_of_line(&text, 0), 2);
    assert_eq!(end_of_line(&text, 2), 2);
    assert_eq!(end_of_line(&text, 3), 5);
    assert_eq!(end_of_line(&text, 7), 9);
    assert_eq!(end_of_line(&text, 9), 9);
    assert_eq!(line_bounds(&text, 0), (0, 2));
    assert_eq!(line_bounds(&text, 1), (3, 5));
    assert_eq!(line_bounds(&text, 2), (6, 6));
    assert_eq!(line_bounds(&text, 3), (7, 9));
    assert_eq!(line_bounds(&text, 4), (9, 9));
    assert_eq!(line_bounds(&text, 9), (9, 9));
    assert_eq!(line_bounds(&Vec::new(), 0), (0, 0));
    assert_eq!(line_bounds(&b("x\n"), 1), (2, 2));
}

#[test]
fn blanks_are_dropped_at_both_ends() {
    let text = b(" \t ab c\r\n  ");
    assert_eq!(trimmed_range(&text, 0, text.len()), b("ab c"));
    assert_eq!(trimmed_range(&text, 3, 7), b("ab c"));
    assert_eq!(trimmed_range(&text, 0, 3), b(""));
    assert_eq!(trimmed_range(&text, 4, 6), b("b"));
    assert_eq!(trimmed_range(&text, 5, 5), b(""));
    for byte in 0..=255u8 {
        assert_eq!(is_blank_byte(byte), byte.is_ascii_whitespace() || byte == 11, "{byte}");
    }
}

#[test]
fn seconds_are_read_as_the_standard_library_reads_them() {
    let samples = [
        "0", "7", "-7", "+7", "007", "-0", "1700000000", "-1700000000", "9223372036854775807",
        "9223372036854775808", "-9223372036854775808", "-9223372036854775809",
        "99999999999999999999999999", "-99999999999999999999999999", "000000000000000000000000001",
        "", "-", "+", "--1", "+-1", "1-", "12a", "a12", " 12", "12 ", "1_000", "1.5", "0x10",
    ];
    for text in samples {
        assert_eq!(parse_seconds(&b(text)), text.parse::<i64>().ok(), "{text:?}");
    }
}

#[test]
fn a_commit_is_read_from_three_lines() {
    let output = b("0123456789abcdef0123456789abcdef01234567\n1700000000\n2023-11-14T22:13:20+00:00\n");
    assert_eq!(
        git_head(true, &output),
        Ok(Some(GitHead {
            hash: "0123456789abcdef0123456789abcdef01234567".to_string(),
            unix_seconds: 1_700_000_000,
            iso8601: "2023-11-14T22:13:20+00:00".to_string(),
        }))
    );
    let padded = b("  abc \r\n\t-5\r\n date \r\nmore\n");
    assert_eq!(
        git_head(true, &padded),
        Ok(Some(GitHead { hash: "abc".to_string(), unix_seconds: -5, iso8601: "date".to_string() }))
    );
}

#[test]
fn a_failed_listing_means_no_commit() {
    assert_eq!(git_head(false, &b("fatal: your current branch has no commits yet")), Ok(None));
    assert_eq!(git_head(false, &vec![0xff, 0xfe]), Ok(None));
    assert_eq!(git_head(false, &Vec::new()), Ok(None));
}

#[test]
fn an_empty_hash_or_date_means_no_commit() {
    assert_eq!(git_head(true, &b("\n5\ndate\n")), Ok(None));
    assert_eq!(git_head(true, &b("abc\n5\n\n")), Ok(None));
    assert_eq!(git_head(true, &b("abc\n5")), Ok(None));
    assert_eq!(git_head(true, &b("abc\n5\n   \n")), Ok(None));
}

#[test]
fn a_bad_time_is_an_error() {
    assert_eq!(git_head(true, &b("abc\nsoon\ndate\n")), Err(HeadError::BadTimestamp));
    assert_eq!(git_head(true, &b("abc\n\ndate\n")), Err(HeadError::BadTimestamp));
    assert_eq!(git_head(true, &b("")), Err(HeadError::BadTimestamp));
    assert_eq!(git_head(true, &b("\nx\n\n")), Err(HeadError::BadTimestamp));
    assert_eq!(git_head(true, &b("abc\n9223372036854775808\ndate\n")), Err(HeadError::BadTimestamp));
}

#[test]
fn output_that_is_no_text_is_an_error() {
    assert_eq!(git_head(true, &vec![97, 98, 10, 53, 10, 0xff, 10]), Err(HeadError::NotUtf8));
    assert_eq!(git_head(true, &vec![0xc3]), Err(HeadError::NotUtf8));
    let accented = "h\u{e9}\n5\nd\u{e4}te\n".as_bytes().to_vec();
    assert_eq!(
        git_head(true, &accented),
        Ok(Some(GitHead { hash: "h\u{e9}".to_string(), unix_seconds: 5, iso8601: "d\u{e4}te".to_string() }))
    );
}

#[test]
fn a_head_can_be_copied() {
    let head = GitHead { hash: "abc".to_string(), unix_seconds: 5, iso8601: "d".to_string() };
    assert_eq!(head.clone(), head);
}
