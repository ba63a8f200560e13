use taskhist::attrs::AttributeMap;
use taskhist::taskdb::undodata::{
    attributes, change_item, changes_list, combine_fragments, field, find_quote_end, fragment,
    identifier, integer, parse, quoted_string, skip_run, ByteClass, ChangeFragment, ParseError,
};
use taskhist::taskdb::Change;

fn map(pairs: &[(&str, &str)]) -> AttributeMap {
    let mut m = AttributeMap::new();
    for (k, v) in pairs {
        m.insert(k.to_string(), v.to_string());
    }
    m
}

#[test]
fn empty_input_is_an_empty_journal() {
    assert_eq!(parse(b""), Ok(vec![]));
}

#[test]
fn one_entry_with_all_parts() {
    let changes =
        parse(b"time 1616626518\nold [a:\"1\"]\nnew [a:\"2\" b:\"3\"]\n---\n").unwrap();
    assert_eq!(changes.len(), 1);
    assert_eq!(changes[0].time, 1616626518);
    assert_eq!(changes[0].old, Some(map(&[("a", "1")])));
    assert_eq!(changes[0].new, map(&[("a", "2"), ("b", "3")]));
}

#[test]
fn entries_keep_their_order() {
    let changes = parse(b"time 1\nnew []\n---\ntime 2\nnew []\n---\ntime 3\nnew []\n---\n").unwrap();
    let times: Vec<i64> = changes.iter().map(|c| c.time).collect();
    assert_eq!(times, vec![1, 2, 3]);
}

#[test]
fn parts_may_come_in_any_order() {
    let changes = parse(b"new [a:\"2\"]\ntime 5\nold [a:\"1\"]\n---\n").unwrap();
    assert_eq!(
        changes,
        vec![Change { time: 5, old: Some(map(&[("a", "1")])), new: map(&[("a", "2")]) }]
    );
}

#[test]
fn the_last_part_of_a_kind_counts() {
    let changes =
        parse(b"time 1\ntime 2\nnew [a:\"1\"]\nold [x:\"1\"]\nnew [b:\"2\"]\nold [y:\"2\"]\n---\n")
            .unwrap();
    assert_eq!(changes.len(), 1);
    assert_eq!(changes[0].time, 2);
    assert_eq!(changes[0].new, map(&[("b", "2")]));
    assert_eq!(changes[0].old, Some(map(&[("y", "2")])));
    assert_eq!(changes[0].new.get("a"), None);
}

#[test]
fn missing_parts_have_their_defaults() {
    let changes = parse(b"old [a:\"1\"]\n---\n").unwrap();
    assert_eq!(changes[0].time, 0);
    assert_eq!(changes[0].new.len(), 0);
    assert_eq!(changes[0].old, Some(map(&[("a", "1")])));
    let changes = parse(b"time 7\n---\n").unwrap();
    assert_eq!(changes[0], Change { time: 7, old: None, new: AttributeMap::new() });
}

#[test]
fn an_empty_old_list_is_not_an_absent_one() {
    let changes = parse(b"old []\nnew [a:\"1\"]\n---\nnew [a:\"1\"]\n---\n").unwrap();
    assert_eq!(changes[0].old, Some(AttributeMap::new()));
    assert_eq!(changes[1].old, None);
}

#[test]
fn a_later_field_of_the_same_name_counts() {
    let changes = parse(b"new [a:\"1\" b:\"x\" a:\"2\"]\n---\n").unwrap();
    assert_eq!(changes[0].new, map(&[("a", "2"), ("b", "x")]));
    assert_eq!(changes[0].new.len(), 2);
}

#[test]
fn escapes_in_values_are_decoded() {
    let changes = parse(b"new [annotation_1616626594:\"a\\nb\"]\n---\n").unwrap();
    assert_eq!(changes[0].new.get("annotation_1616626594").unwrap().as_str(), "a\nb");
    assert_eq!(changes[0].new.get("annotation_1616626594").unwrap().len(), 3);
}

#[test]
fn a_quote_behind_a_backslash_does_not_end_the_value() {
    let changes =
        parse(b"old [annotation_1616626556:\"http://example.com: \\\"data\\\"\" tags:\"next\"]\n---\n")
            .unwrap();
    let old = changes[0].old.as_ref().unwrap();
    assert_eq!(old.get("annotation_1616626556").unwrap(), r#"http://example.com: "data""#);
    assert_eq!(old.get("tags").unwrap(), "next");
}

#[test]
fn a_backslash_behind_a_backslash_is_no_escape_of_the_quote() {
    let changes = parse(b"new [a:\"x\\\\\" b:\"y\"]\n---\n").unwrap();
    assert_eq!(changes[0].new.get("a").unwrap(), "x\\");
    assert_eq!(changes[0].new.get("b").unwrap(), "y");
}

#[test]
fn unicode_escapes_and_utf8_in_values() {
    let changes = parse("new [a:\"\\u00e9\" b:\"é\"]\n---\n".as_bytes()).unwrap();
    assert_eq!(changes[0].new.get("a").unwrap(), "é");
    assert_eq!(changes[0].new.get("b").unwrap(), "é");
}

#[test]
fn a_raw_newline_inside_quotes_is_no_json_string() {
    assert_eq!(parse(b"new [a:\"x\ny\"]\n---\n"), Err(ParseError { offset: 0 }));
}

#[test]
fn a_bad_escape_fails_the_whole_journal() {
    assert_eq!(parse(b"time 1\n---\nnew [a:\"\\q\"]\n---\n"), Err(ParseError { offset: 11 }));
}

#[test]
fn trailing_bytes_fail_the_whole_journal() {
    assert_eq!(parse(b"time 1\nnew []\n---\nx"), Err(ParseError { offset: 18 }));
    assert_eq!(parse(b"time 1\nnew []\n---\n "), Err(ParseError { offset: 18 }));
    assert_eq!(parse(b"time 1\nnew []\n---\n\n"), Err(ParseError { offset: 18 }));
}

#[test]
fn any_byte_behind_a_journal_fails_it() {
    let journal = b"time 1\nnew [a:\"1\"]\n---\n".to_vec();
    assert!(parse(&journal).is_ok());
    for b in 0..=255u8 {
        let mut longer = journal.clone();
        longer.push(b);
        assert_eq!(parse(&longer), Err(ParseError { offset: journal.len() }));
    }
}

#[test]
fn reading_twice_gives_the_same() {
    let journal = b"time 3\nnew [z:\"1\" a:\"2\" m:\"3\"]\n---\ntime 4\nold [q:\"1\"]\nnew []\n--\n";
    let first = parse(journal).unwrap();
    let second = parse(journal).unwrap();
    assert_eq!(first, second);
    let names: Vec<&str> = (0..first[0].new.len()).map(|i| first[0].new.name_at(i).as_str()).collect();
    assert_eq!(names, vec!["a", "m", "z"]);
}

#[test]
fn an_entry_needs_a_part_and_a_line_of_hyphens() {
    assert_eq!(parse(b"---\n"), Err(ParseError { offset: 0 }));
    assert_eq!(parse(b"time 1\n"), Err(ParseError { offset: 0 }));
    assert_eq!(parse(b"time 1\n---"), Err(ParseError { offset: 0 }));
    assert!(parse(b"time 1\n-\n").is_ok());
    assert!(parse(b"time 1\n----------\n").is_ok());
    assert_eq!(parse(b"time 1\n--- \n"), Err(ParseError { offset: 0 }));
}

#[test]
fn blanks_where_the_grammar_allows_them() {
    assert!(parse(b" \t time \t12 \t\n---\n").is_ok());
    assert_eq!(parse(b"time12\n---\n").unwrap()[0].time, 12);
    assert!(parse(b"new \t[ \ta: \t\"1\"  \tb:\"2\"]\n---\n").is_ok());
    assert_eq!(parse(b"new [a :\"1\"]\n---\n"), Err(ParseError { offset: 0 }));
    assert_eq!(parse(b"new [a:\"1\" ]\n---\n"), Err(ParseError { offset: 0 }));
    assert_eq!(parse(b"new [ ]\n---\n"), Err(ParseError { offset: 0 }));
    assert_eq!(parse(b"new [a:\"1\"\tb:\"2\"]\n---\n"), Err(ParseError { offset: 0 }));
    assert_eq!(parse(b"new [a:\"1\"] \n---\n"), Err(ParseError { offset: 0 }));
    assert_eq!(parse(b"time 1\n ---\n"), Err(ParseError { offset: 0 }));
}

#[test]
fn the_time_is_a_number_of_64_bits_without_a_sign() {
    assert_eq!(parse(b"time 9223372036854775807\n---\n").unwrap()[0].time, i64::MAX);
    assert_eq!(parse(b"time 9223372036854775808\n---\n"), Err(ParseError { offset: 0 }));
    assert_eq!(parse(b"time -1\n---\n"), Err(ParseError { offset: 0 }));
    assert_eq!(parse(b"time \n---\n"), Err(ParseError { offset: 0 }));
    assert_eq!(parse(b"time 0007\n---\n").unwrap()[0].time, 7);
}

#[test]
fn names_are_letters_digits_and_underscores() {
    assert!(parse(b"new [aZ_09:\"1\"]\n---\n").is_ok());
    assert_eq!(parse(b"new [a-b:\"1\"]\n---\n"), Err(ParseError { offset: 0 }));
    assert_eq!(parse(b"new [:\"1\"]\n---\n"), Err(ParseError { offset: 0 }));
    assert_eq!(parse("new [é:\"1\"]\n---\n".as_bytes()), Err(ParseError { offset: 0 }));
}

#[test]
fn the_error_tells_where_reading_stopped() {
    let good = b"time 1\n---\n";
    let mut journal = good.to_vec();
    journal.extend_from_slice(good);
    journal.extend_from_slice(b"time x\n---\n");
    assert_eq!(parse(&journal), Err(ParseError { offset: 22 }));
}

#[test]
fn runs_of_bytes() {
    assert_eq!(skip_run(b"  \t x", 0, ByteClass::Blank), 4);
    assert_eq!(skip_run(b"  \t x", 4, ByteClass::Blank), 4);
    assert_eq!(skip_run(b"123a", 0, ByteClass::Digit), 3);
    assert_eq!(skip_run(b"a_Z9-", 0, ByteClass::Name), 4);
    assert_eq!(skip_run(b"---", 1, ByteClass::Dash), 3);
    assert_eq!(skip_run(b"", 0, ByteClass::Dash), 0);
}

#[test]
fn the_end_of_a_quoted_value() {
    assert_eq!(find_quote_end(b"\"abc\" x", 1), Some(5));
    assert_eq!(find_quote_end(b"\"a\\\"c\" x", 1), Some(6));
    assert_eq!(find_quote_end(b"\"abc", 1), None);
    assert_eq!(find_quote_end(b"\"abc\\", 1), None);
    assert_eq!(find_quote_end(b"\"abc\\\"", 1), None);
    assert_eq!(find_quote_end(b"\"\"", 1), Some(2));
}

#[test]
fn readers_give_the_place_behind_what_they_read() {
    assert_eq!(quoted_string(b"x\"a\\tb\"y", 1), Some(("a\tb".to_string(), 7)));
    assert_eq!(quoted_string(b"x\"a\"", 0), None);
    assert_eq!(identifier(b"ab_1:", 0), Some(("ab_1".to_string(), 4)));
    assert_eq!(identifier(b":", 0), None);
    assert_eq!(integer(b"  42 ", 0), Some((42, 4)));
    assert_eq!(integer(b"  x", 0), None);
    assert_eq!(field(b" k: \"v\"]", 0), Some(("k".to_string(), "v".to_string(), 7)));
    assert_eq!(attributes(b" [k:\"v\"]\n", 0), Some((map(&[("k", "v")]), 8)));
    assert_eq!(attributes(b"[]", 0), Some((AttributeMap::new(), 2)));
    assert_eq!(fragment(b"time 3\n", 0), Some((ChangeFragment::Time(3), 7)));
    assert_eq!(fragment(b"old []\n", 0), Some((ChangeFragment::Old(AttributeMap::new()), 7)));
    assert_eq!(fragment(b"new []\n", 0), Some((ChangeFragment::New(AttributeMap::new()), 7)));
    assert_eq!(fragment(b"now []\n", 0), None);
    assert_eq!(
        change_item(b"time 3\n--\nrest", 0),
        Some((Change { time: 3, old: None, new: AttributeMap::new() }, 10))
    );
    let (changes, end) = changes_list(b"time 3\n--\nrest");
    assert_eq!(changes.len(), 1);
    assert_eq!(end, 10);
}

#[test]
fn parts_are_combined_in_order() {
    let change = combine_fragments(vec![
        ChangeFragment::New(map(&[("a", "1")])),
        ChangeFragment::Time(4),
        ChangeFragment::Old(map(&[("b", "1")])),
        ChangeFragment::Time(9),
        ChangeFragment::New(map(&[("c", "1")])),
    ]);
    assert_eq!(change, Change { time: 9, old: Some(map(&[("b", "1")])), new: map(&[("c", "1")]) });
    assert_eq!(combine_fragments(vec![]), Change { time: 0, old: None, new: AttributeMap::new() });
    assert_eq!(Change::default(), Change { time: 0, old: None, new: AttributeMap::new() });
}
