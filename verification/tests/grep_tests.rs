use rust_mini_grep::GrepConfig;
use rust_mini_grep::SearchResults;
use rust_mini_grep::find_all_occurrences;
use rust_mini_grep::render::render_indexes;

fn make_config(search: &[u8], ignore_case: bool) -> GrepConfig {
    let args = vec![search.to_vec(), b"test.txt".to_vec()];
    GrepConfig::new(&args, ignore_case).expect("Unable to create input parameters")
}

#[test]
fn test_config_new() {
    let args = vec![b"or".to_vec(), b"test.txt".to_vec()];
    let config = GrepConfig::new(&args, false).expect("Unable to create input parameters");

    assert_eq!(config.get_search_string(), &b"or".to_vec());
    assert_eq!(config.get_search_file_name(), &b"test.txt".to_vec())
}

#[test]
fn test_grep_function() {
    let file_data = b"a plain first line\n\
                      a word here\n\
                      nothing to see\n\
                      my quick brown dog works\n\
                      nothing else here\n\
                      hello there orange tree\n\
                      this line keeps order and more data\n\
                      an empty stretch\n\
                      just filler text\n\
                      a final or maybe"
        .to_vec();
    let config = make_config(b"or", false);
    let search_results = SearchResults::grep(&config, &file_data);

    assert_eq!(5, search_results.len());

    assert_eq!(2, search_results.line_number_at(0));
    assert_eq!(4, search_results.line_number_at(1));
    assert_eq!(6, search_results.line_number_at(2));
    assert_eq!(7, search_results.line_number_at(3));
    assert_eq!(10, search_results.line_number_at(4));

    assert_eq!(
        b"3".to_vec(),
        search_results.concatenate_indexes(&search_results.get(2).unwrap().1)
    );
    assert_eq!(
        b"20".to_vec(),
        search_results.concatenate_indexes(&search_results.get(4).unwrap().1)
    );
    assert_eq!(
        b"12".to_vec(),
        search_results.concatenate_indexes(&search_results.get(6).unwrap().1)
    );
    assert_eq!(
        b"16, 27".to_vec(),
        search_results.concatenate_indexes(&search_results.get(7).unwrap().1)
    );
    assert_eq!(
        b"8".to_vec(),
        search_results.concatenate_indexes(&search_results.get(10).unwrap().1)
    );
}

#[test]
fn config_with_too_few_arguments_is_refused() {
    let args = vec![b"or".to_vec()];
    match GrepConfig::new(&args, false) {
        Ok(_) => panic!("a single argument must be refused"),
        Err(err) => assert_eq!(
            err,
            "Too few argments - Syntax: rust_mini_grep <SEARCH_STRING> <SEARCH_FILE_NAME>"
        ),
    }

    let no_args: Vec<Vec<u8>> = vec![];
    assert!(GrepConfig::new(&no_args, true).is_err());
}

#[test]
fn config_keeps_ignore_case_flag() {
    assert!(!make_config(b"or", false).is_ignore_case());
    assert!(make_config(b"or", true).is_ignore_case());
}

#[test]
fn scan_case_sensitive_end_to_end() {
    let file_data = b"foo bar foo\nbaz\nFOO baz foo".to_vec();
    let config = make_config(b"foo", false);
    let results = SearchResults::grep(&config, &file_data);

    assert_eq!(2, results.len());
    assert_eq!(1, results.line_number_at(0));
    assert_eq!(3, results.line_number_at(1));

    let first = results.get(1).unwrap();
    assert_eq!(first.0, b"foo bar foo".to_vec());
    assert_eq!(first.1, vec![0usize, 8]);

    assert!(results.get(2).is_none());

    let third = results.get(3).unwrap();
    assert_eq!(third.0, b"FOO baz foo".to_vec());
    assert_eq!(third.1, vec![8usize]);
}

#[test]
fn scan_ignore_case_end_to_end() {
    let file_data = b"foo bar foo\nbaz\nFOO baz foo".to_vec();
    let config = make_config(b"foo", true);
    let results = SearchResults::grep(&config, &file_data);

    assert_eq!(2, results.len());
    assert_eq!(1, results.line_number_at(0));
    assert_eq!(3, results.line_number_at(1));

    let first = results.get(1).unwrap();
    assert_eq!(first.1, vec![0usize, 8]);

    let third = results.get(3).unwrap();
    assert_eq!(third.0, b"FOO baz foo".to_vec());
    assert_eq!(third.1, vec![0usize, 8]);
}

#[test]
fn overlapping_occurrences_are_not_double_counted() {
    let offsets = find_all_occurrences(&b"aaaa".to_vec(), &b"aa".to_vec(), false);
    assert_eq!(offsets, vec![0usize, 2]);

    let offsets = find_all_occurrences(&b"aaa".to_vec(), &b"aa".to_vec(), false);
    assert_eq!(offsets, vec![0usize]);
}

#[test]
fn empty_needle_never_matches() {
    let empty: Vec<u8> = vec![];
    assert!(find_all_occurrences(&b"abc".to_vec(), &empty, false).is_empty());
    assert!(find_all_occurrences(&b"abc".to_vec(), &empty, true).is_empty());
    assert!(find_all_occurrences(&empty, &empty, false).is_empty());
}

#[test]
fn ignore_case_matches_count_of_folded_search() {
    let line = b"FOO baz foo".to_vec();
    let needle = b"fOo".to_vec();
    let folded_line = b"foo baz foo".to_vec();
    let folded_needle = b"foo".to_vec();

    let insensitive = find_all_occurrences(&line, &needle, true);
    let folded = find_all_occurrences(&folded_line, &folded_needle, false);
    assert_eq!(insensitive.len(), folded.len());
    assert_eq!(insensitive, folded);
}

#[test]
fn needle_absent_from_every_line_yields_no_results() {
    assert!(find_all_occurrences(&b"foo bar".to_vec(), &b"xyz".to_vec(), false).is_empty());

    let config = make_config(b"xyz", false);
    let results = SearchResults::grep(&config, &b"foo\nbar\nbaz".to_vec());
    assert_eq!(0, results.len());
    assert!(results.get(1).is_none());
    assert!(results.get(2).is_none());
    assert!(results.get(3).is_none());
}

#[test]
fn empty_file_yields_no_results() {
    let config = make_config(b"or", false);
    let results = SearchResults::grep(&config, &vec![]);
    assert_eq!(0, results.len());
}

#[test]
fn final_newline_adds_no_extra_line() {
    let config = make_config(b"foo", false);
    let results = SearchResults::grep(&config, &b"foo\n".to_vec());
    assert_eq!(1, results.len());
    assert_eq!(1, results.line_number_at(0));
    assert_eq!(results.get(1).unwrap().1, vec![0usize]);
    assert!(results.get(2).is_none());
}

#[test]
fn carriage_returns_are_stripped_before_newlines_only() {
    let config = make_config(b"foo", false);
    let results = SearchResults::grep(&config, &b"foo\r\nbar\r\nfoo".to_vec());
    assert_eq!(2, results.len());
    assert_eq!(results.get(1).unwrap().0, b"foo".to_vec());
    assert_eq!(results.get(3).unwrap().0, b"foo".to_vec());

    // A lone carriage return without a newline stays part of the line.
    let results = SearchResults::grep(&config, &b"foo\r".to_vec());
    assert_eq!(1, results.len());
    assert_eq!(results.get(1).unwrap().0, b"foo\r".to_vec());
}

#[test]
fn matching_lines_keep_their_original_text() {
    let config = make_config(b"b", true);
    let results = SearchResults::grep(&config, &b"aBc\nxyz\nBBB".to_vec());
    assert_eq!(2, results.len());
    assert_eq!(results.line_text_at(0), &b"aBc".to_vec());
    assert_eq!(results.line_text_at(1), &b"BBB".to_vec());
    assert_eq!(results.offsets_at(0), &vec![1usize]);
    assert_eq!(results.offsets_at(1), &vec![0usize, 1, 2]);
}

#[test]
fn rendered_indexes_use_comma_and_space() {
    assert_eq!(render_indexes(&vec![]), b"".to_vec());
    assert_eq!(render_indexes(&vec![0usize]), b"0".to_vec());
    assert_eq!(render_indexes(&vec![16usize, 27]), b"16, 27".to_vec());
    assert_eq!(render_indexes(&vec![5usize, 10, 0]), b"5, 10, 0".to_vec());
    assert_eq!(render_indexes(&vec![1234567890usize]), b"1234567890".to_vec());
}
