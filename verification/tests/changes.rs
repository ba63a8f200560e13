use taskhist::attrs::{name_before, same_name, AttributeMap};
use taskhist::changes::{body, diff, label, new_fields, segment, show, FieldDiff, Format};
use taskhist::render::{
    block_text, diff_text, header_text, listing_text, paint, Body, Label,
};
use taskhist::taskdb::{get_tasks, Change, Task, TaskDb, TaskIndex};

const NOW: i64 = 1616630000;
const UUID: &str = "e505f4ba-cb73-42a7-9301-a4b2c68533c9";

fn map(pairs: &[(&str, &str)]) -> AttributeMap {
    let mut m = AttributeMap::new();
    for (k, v) in pairs {
        m.insert(k.to_string(), v.to_string());
    }
    m
}

fn entry(name: &str, old: Option<&str>, new: Option<&str>) -> FieldDiff {
    FieldDiff {
        name: name.to_string(),
        old_value: old.map(|v| v.to_string()),
        new_value: new.map(|v| v.to_string()),
    }
}

fn task(id: Option<isize>, uuid: Option<&str>, description: Option<&str>) -> Task {
    Task {
        id,
        uuid: uuid.map(|v| v.to_string()),
        description: description.map(|v| v.to_string()),
        project: None,
        status: None,
    }
}

fn db(tasks: Vec<Task>) -> TaskDb {
    TaskDb { changes: vec![], tasks: get_tasks(tasks) }
}

fn plain() {
    colored::control::set_override(false);
}

#[test]
fn a_map_keeps_one_value_for_each_name() {
    let mut m = AttributeMap::new();
    assert_eq!(m.len(), 0);
    assert_eq!(m.get("a"), None);
    m.insert("b".to_string(), "1".to_string());
    m.insert("a".to_string(), "2".to_string());
    m.insert("c".to_string(), "3".to_string());
    m.insert("b".to_string(), "4".to_string());
    assert_eq!(m.len(), 3);
    assert_eq!(m.get("a").unwrap(), "2");
    assert_eq!(m.get("b").unwrap(), "4");
    assert_eq!(m.get("c").unwrap(), "3");
    assert_eq!(m.get("d"), None);
    assert_eq!(m.get(""), None);
    assert_eq!((m.name_at(0).as_str(), m.value_at(0).as_str()), ("a", "2"));
    assert_eq!((m.name_at(1).as_str(), m.value_at(1).as_str()), ("b", "4"));
    assert_eq!((m.name_at(2).as_str(), m.value_at(2).as_str()), ("c", "3"));
}

#[test]
fn maps_with_the_same_fields_are_equal() {
    assert_eq!(map(&[("a", "1"), ("b", "2")]), map(&[("b", "2"), ("a", "0"), ("a", "1")]));
    assert_ne!(map(&[("a", "1")]), map(&[("a", "2")]));
}

#[test]
fn names_are_ordered_by_their_bytes() {
    assert!(name_before("a", "b"));
    assert!(name_before("Z", "a"));
    assert!(name_before("a", "aa"));
    assert!(name_before("z", "é"));
    assert!(!name_before("a", "a"));
    assert!(same_name("due", "due"));
    assert!(!same_name("due", "Due"));
}

#[test]
fn differences_come_in_ascending_order_of_names() {
    let old = map(&[("tags", "home"), ("b", "1"), ("a", "1"), ("Z", "1")]);
    let new = map(&[("b", "2"), ("c", "3"), ("a", "1"), ("Z", "9")]);
    for format in [Format::Short, Format::Long] {
        let ds = diff(format, &new, &old, NOW);
        assert_eq!(
            ds,
            vec![
                entry("Z", Some("1"), Some("9")),
                entry("b", Some("1"), Some("2")),
                entry("c", None, Some("3")),
                entry("tags", Some("home"), None),
            ]
        );
    }
}

#[test]
fn equal_values_are_left_out() {
    let old = map(&[("a", "1"), ("b", "same"), ("c", "")]);
    let new = map(&[("a", "2"), ("b", "same"), ("c", "")]);
    assert_eq!(diff(Format::Long, &new, &old, NOW), vec![entry("a", Some("1"), Some("2"))]);
    assert_eq!(diff(Format::Long, &old, &old, NOW), vec![]);
    assert_eq!(diff(Format::Short, &AttributeMap::new(), &AttributeMap::new(), NOW), vec![]);
}

#[test]
fn the_short_format_leaves_modified_out() {
    let old = map(&[("modified", "10"), ("status", "pending")]);
    let new = map(&[("modified", "11"), ("status", "completed")]);
    assert_eq!(
        diff(Format::Short, &new, &old, NOW),
        vec![entry("status", Some("pending"), Some("completed"))]
    );
    assert_eq!(
        diff(Format::Long, &new, &old, NOW),
        vec![
            entry("modified", Some("10"), Some("11")),
            entry("status", Some("pending"), Some("completed")),
        ]
    );
    let only_new = map(&[("modified", "11")]);
    assert_eq!(diff(Format::Short, &only_new, &AttributeMap::new(), NOW), vec![]);
    assert_eq!(
        diff(Format::Long, &only_new, &AttributeMap::new(), NOW),
        vec![entry("modified", None, Some("11"))]
    );
    assert_eq!(
        diff(Format::Long, &AttributeMap::new(), &only_new, NOW),
        vec![entry("modified", Some("11"), None)]
    );
    assert_eq!(diff(Format::Long, &only_new, &only_new, NOW), vec![]);
}

#[test]
fn values_in_a_difference_are_shown_as_seen_from_now() {
    let old = map(&[("due", "1616626518"), ("note", "a\nb")]);
    let new = map(&[("due", "1616629999"), ("note", "a\nc")]);
    assert_eq!(
        diff(Format::Short, &new, &old, NOW),
        vec![
            entry("due", Some("58 minutes ago"), Some("1 seconds ago")),
            entry("note", Some("a\nb"), Some("a\nc")),
        ]
    );
}

#[test]
fn a_list_of_fields_shows_every_field_in_order() {
    let fields = map(&[("uuid", UUID), ("modified", "5"), ("entry", "1616626518"), ("B", "x")]);
    for format in [Format::Short, Format::Long] {
        let rows = new_fields(format, &fields, NOW);
        let names: Vec<&str> = rows.iter().map(|r| r.0.as_str()).collect();
        assert_eq!(names, vec!["B", "entry", "modified", "uuid"]);
        assert_eq!(rows[0].1, "x");
        assert_eq!(rows[2].1, "5");
        assert_eq!(rows[3].1, UUID);
    }
    assert_eq!(new_fields(Format::Short, &fields, NOW)[1].1, "58 minutes ago");
    assert_eq!(new_fields(Format::Long, &AttributeMap::new(), NOW), vec![]);
}

#[test]
fn a_change_without_a_before_lists_its_fields() {
    let created = Change { time: 1, old: None, new: map(&[("modified", "1"), ("a", "2")]) };
    assert_eq!(
        body(Format::Short, &created, NOW),
        Body::Created(vec![
            ("a".to_string(), "2".to_string()),
            ("modified".to_string(), "1".to_string()),
        ])
    );
    let altered = Change {
        time: 1,
        old: Some(AttributeMap::new()),
        new: map(&[("modified", "1"), ("a", "2")]),
    };
    assert_eq!(
        body(Format::Short, &altered, NOW),
        Body::Modified(vec![entry("a", None, Some("2"))])
    );
    assert_eq!(
        body(Format::Long, &altered, NOW),
        Body::Modified(vec![entry("a", None, Some("2")), entry("modified", None, Some("1"))])
    );
}

#[test]
fn the_first_part_of_a_uuid() {
    assert_eq!(segment(UUID), "e505f4ba");
    assert_eq!(segment("abc"), "abc");
    assert_eq!(segment(""), "");
    assert_eq!(segment("-abc"), "");
    assert_eq!(segment("é-b"), "é");
}

#[test]
fn a_header_names_the_task_by_number_or_uuid() {
    let change = Change {
        time: 1,
        old: None,
        new: map(&[("uuid", UUID), ("description", "buy milk")]),
    };
    let tasks = get_tasks(vec![task(Some(2), Some(UUID), Some("buy milk"))]);
    assert_eq!(
        label(&tasks, &change),
        Some(Label { ident: "2".to_string(), title: Some("buy milk".to_string()) })
    );
    let tasks = get_tasks(vec![task(Some(0), Some(UUID), None)]);
    assert_eq!(label(&tasks, &change), Some(Label { ident: "e505f4ba".to_string(), title: None }));
    let tasks = get_tasks(vec![task(None, Some(UUID), Some("x"))]);
    assert_eq!(
        label(&tasks, &change),
        Some(Label { ident: "e505f4ba".to_string(), title: Some("x".to_string()) })
    );
    let tasks = get_tasks(vec![task(Some(-3), Some(UUID), None)]);
    assert_eq!(label(&tasks, &change), Some(Label { ident: "-3".to_string(), title: None }));
    let tasks = get_tasks(vec![task(Some(2), Some("another"), Some("buy milk"))]);
    assert_eq!(label(&tasks, &change), None);
    assert_eq!(label(&TaskIndex::new(), &change), None);
    let no_uuid = Change { time: 1, old: None, new: map(&[("description", "buy milk")]) };
    assert_eq!(label(&get_tasks(vec![task(Some(2), Some(UUID), None)]), &no_uuid), None);
}

#[test]
fn a_difference_laid_out() {
    let ds = vec![
        entry("a", Some("1"), Some("2")),
        entry("b", None, Some("3")),
        entry("c", Some("4"), None),
    ];
    assert_eq!(diff_text(Format::Short, &ds), "a from 1 to 2\nb to 3\nc from 4\n");
    assert_eq!(
        diff_text(Format::Long, &ds),
        "  a:\n    - 1\n    + 2\n  b:\n    + 3\n  c:\n    - 4\n"
    );
    assert_eq!(diff_text(Format::Short, &vec![]), "");
    assert_eq!(diff_text(Format::Long, &vec![]), "");
}

#[test]
fn a_list_of_fields_laid_out() {
    let rows = vec![("a".to_string(), "1".to_string()), ("b".to_string(), "x\ny".to_string())];
    assert_eq!(listing_text(&rows), "  a: 1\n  b: x\ny\n");
    assert_eq!(listing_text(&vec![]), "");
}

#[test]
fn a_header_laid_out() {
    let clock = "2021-03-24 22:55:18";
    assert_eq!(header_text(clock, &None), clock);
    let label = Some(Label { ident: "2".to_string(), title: Some("buy milk".to_string()) });
    assert_eq!(header_text(clock, &label), "2021-03-24 22:55:18 [2] buy milk");
    let label = Some(Label { ident: "e505f4ba".to_string(), title: None });
    assert_eq!(header_text(clock, &label), "2021-03-24 22:55:18 [e505f4ba]");
}

#[test]
fn a_change_laid_out() {
    let label = Some(Label { ident: "2".to_string(), title: None });
    let created = Body::Created(vec![("a".to_string(), "1".to_string())]);
    assert_eq!(block_text(Format::Long, "T", &label, &created), "T [2]\n  a: 1\n\n");
    assert_eq!(block_text(Format::Short, "T", &None, &created), "T\n  a: 1\n\n");
    let altered = Body::Modified(vec![entry("a", Some("1"), Some("2"))]);
    assert_eq!(block_text(Format::Short, "T", &None, &altered), "T\na from 1 to 2\n\n");
    assert_eq!(block_text(Format::Long, "T", &None, &altered), "T\n  a:\n    - 1\n    + 2\n\n");
}

#[test]
fn colours_keep_the_shape_and_the_text() {
    plain();
    let altered = Body::Modified(vec![entry("a", Some("1"), None), entry("b", None, Some("2"))]);
    assert_eq!(paint(&altered), altered);
    let created = Body::Created(vec![("a".to_string(), "1".to_string())]);
    assert_eq!(paint(&created), created);
}

#[test]
fn colours_are_marks_around_the_text() {
    colored::control::set_override(true);
    let painted = paint(&Body::Modified(vec![entry("a", Some("1"), Some("2"))]));
    colored::control::unset_override();
    match painted {
        Body::Modified(ds) => {
            assert_eq!(ds.len(), 1);
            assert_eq!(ds[0].name, "\u{1b}[35ma\u{1b}[0m");
            assert_eq!(ds[0].old_value.as_deref(), Some("\u{1b}[31m1\u{1b}[0m"));
            assert_eq!(ds[0].new_value.as_deref(), Some("\u{1b}[32m2\u{1b}[0m"));
        }
        Body::Created(_) => panic!("a difference stays a difference"),
    }
}

#[test]
fn a_new_task_is_shown_with_all_its_fields() {
    plain();
    let change = Change {
        time: 1616626518,
        old: None,
        new: map(&[("uuid", UUID), ("description", "buy milk"), ("modified", "1616626518")]),
    };
    let known = db(vec![task(Some(2), Some(UUID), Some("buy milk"))]);
    let text = show(Format::Short, &known, &change, NOW);
    let (header, rest) = text.split_once('\n').unwrap();
    assert!(header.starts_with("2021-03-2"), "{}", header);
    assert!(header.ends_with(" [2] buy milk"), "{}", header);
    assert_eq!(
        rest,
        "  description: buy milk\n  modified: 58 minutes ago\n  uuid: e505f4ba-cb73-42a7-9301-a4b2c68533c9\n\n"
    );
}

#[test]
fn a_header_without_a_known_task_has_the_time_alone() {
    plain();
    let change = Change {
        time: 1616626518,
        old: None,
        new: map(&[("uuid", UUID), ("description", "buy milk")]),
    };
    let text = show(Format::Long, &db(vec![]), &change, NOW);
    let (header, rest) = text.split_once('\n').unwrap();
    assert!(!header.contains('['), "{}", header);
    assert!(!header.contains(']'), "{}", header);
    assert!(!header.contains("buy milk"), "{}", header);
    assert!(header.starts_with("2021-03-2"), "{}", header);
    assert_eq!(header.len(), "2021-03-24 22:55:18".len());
    assert_eq!(rest, "  description: buy milk\n  uuid: e505f4ba-cb73-42a7-9301-a4b2c68533c9\n\n");
}

#[test]
fn an_altered_task_is_shown_by_its_differences() {
    plain();
    let change = Change {
        time: 1616626594,
        old: Some(map(&[("uuid", UUID), ("status", "pending"), ("modified", "1")])),
        new: map(&[("uuid", UUID), ("status", "completed"), ("modified", "2"), ("end", "x")]),
    };
    let known = db(vec![task(Some(0), Some(UUID), Some("buy milk"))]);
    let text = show(Format::Short, &known, &change, NOW);
    let (header, rest) = text.split_once('\n').unwrap();
    assert!(header.ends_with(" [e505f4ba] buy milk"), "{}", header);
    assert_eq!(rest, "end to x\nstatus from pending to completed\n\n");
    let text = show(Format::Long, &known, &change, NOW);
    let (_, rest) = text.split_once('\n').unwrap();
    assert_eq!(
        rest,
        "  end:\n    + x\n  modified:\n    - 1\n    + 2\n  status:\n    - pending\n    + completed\n\n"
    );
}

#[test]
fn an_empty_before_is_still_a_before() {
    plain();
    let change = Change { time: 5, old: Some(AttributeMap::new()), new: map(&[("a", "1")]) };
    let text = show(Format::Short, &db(vec![]), &change, NOW);
    assert!(text.ends_with("\na to 1\n\n"), "{:?}", text);
    let change = Change { time: 5, old: None, new: map(&[("a", "1")]) };
    let text = show(Format::Short, &db(vec![]), &change, NOW);
    assert!(text.ends_with("\n  a: 1\n\n"), "{:?}", text);
}

#[test]
fn a_time_that_the_clock_cannot_place_is_shown_as_a_number() {
    plain();
    let change = Change { time: i64::MAX, old: None, new: AttributeMap::new() };
    assert_eq!(show(Format::Long, &db(vec![]), &change, NOW), "9223372036854775807\n\n");
}

#[test]
fn the_short_format_gives_each_field_a_line_of_its_own() {
    plain();
    let old = map(&[("a", "p"), ("b", "q")]);
    let new = map(&[("a", "r"), ("b", "s")]);
    let ds = diff(Format::Short, &new, &old, NOW);
    assert_eq!(diff_text(Format::Short, &ds), "a from p to r\nb from q to s\n");
    let change = Change { time: 5, old: Some(old), new };
    let text = show(Format::Short, &db(vec![]), &change, NOW);
    let lines: Vec<&str> = text.lines().collect();
    assert_eq!(lines.len(), 4);
    assert_eq!(&lines[1..], ["a from p to r", "b from q to s", ""]);
}

#[test]
fn a_title_is_shown_in_bold() {
    let change = Change { time: 1616626518, old: None, new: map(&[("uuid", UUID)]) };
    let known = db(vec![task(Some(2), Some(UUID), Some("buy milk"))]);
    colored::control::set_override(true);
    let text = show(Format::Long, &known, &change, NOW);
    colored::control::unset_override();
    let (header, rest) = text.split_once('\n').unwrap();
    assert!(header.ends_with(" [2] \u{1b}[1mbuy milk\u{1b}[0m"), "{:?}", header);
    assert_eq!(
        rest,
        "  \u{1b}[35muuid\u{1b}[0m: \u{1b}[32me505f4ba-cb73-42a7-9301-a4b2c68533c9\u{1b}[0m\n\n"
    );
}

#[test]
fn a_listed_field_is_painted_in_magenta_and_green() {
    colored::control::set_override(true);
    let painted = paint(&Body::Created(vec![("a".to_string(), "".to_string())]));
    colored::control::unset_override();
    assert_eq!(
        painted,
        Body::Created(vec![
            ("\u{1b}[35ma\u{1b}[0m".to_string(), "\u{1b}[32m\u{1b}[0m".to_string()),
        ])
    );
}

#[test]
fn marks_inside_a_text_are_written_out_again() {
    colored::control::set_override(true);
    let painted = paint(&Body::Created(vec![("a".to_string(), "x\u{1b}[0my".to_string())]));
    colored::control::unset_override();
    match painted {
        Body::Created(rows) => {
            assert_eq!(rows[0].1, "\u{1b}[32mx\u{1b}[0m\u{1b}[32my\u{1b}[0m");
        }
        Body::Modified(_) => panic!("a list stays a list"),
    }
    plain();
    let kept = Body::Created(vec![("a".to_string(), "x\u{1b}[0my".to_string())]);
    assert_eq!(paint(&kept), kept);
}

fn digits(text: &str) -> bool {
    !text.is_empty() && text.bytes().all(|b| b.is_ascii_digit())
}

fn header_clock(text: &str) -> bool {
    let (date, time) = match text.split_once(' ') {
        Some(parts) => parts,
        None => return false,
    };
    let parts: Vec<&str> = time.split(':').collect();
    let fields: Vec<&str> = date.rsplitn(3, '-').collect();
    parts.len() == 3
        && parts.iter().all(|p| p.len() == 2 && digits(p))
        && fields.len() == 3
        && fields[0].len() == 2
        && digits(fields[0])
        && fields[1].len() == 2
        && digits(fields[1])
        && ((fields[2].len() == 4 && digits(fields[2]))
            || (fields[2].len() >= 5
                && (fields[2].starts_with('+') || fields[2].starts_with('-'))
                && digits(&fields[2][1..])))
}

#[test]
fn the_header_gives_the_time_as_the_clock_writes_it() {
    plain();
    for time in [
        0,
        1616626518,
        -62_000_000_000,
        -70_000_000_000,
        300_000_000_000,
        taskhist::value::CLOCK_MIN,
        taskhist::value::CLOCK_MAX,
    ] {
        let change = Change { time, old: None, new: AttributeMap::new() };
        let text = show(Format::Long, &db(vec![]), &change, NOW);
        let header = text.strip_suffix("\n\n").unwrap();
        assert!(header_clock(header), "{:?}", header);
    }
    for time in [taskhist::value::CLOCK_MIN - 1, taskhist::value::CLOCK_MAX + 1, i64::MIN] {
        let change = Change { time, old: None, new: AttributeMap::new() };
        let text = show(Format::Long, &db(vec![]), &change, NOW);
        assert_eq!(text, format!("{}\n\n", time));
    }
}

#[test]
fn a_change_read_backwards_is_the_mirror() {
    let old = map(&[("a", "1"), ("b", "x"), ("gone", "g"), ("same", "s")]);
    let new = map(&[("a", "2"), ("b", "y"), ("come", "c"), ("same", "s")]);
    for format in [Format::Short, Format::Long] {
        let forth = diff(format, &new, &old, NOW);
        let back = diff(format, &old, &new, NOW);
        assert_eq!(forth.len(), 4);
        assert_eq!(back.len(), forth.len());
        for (d, e) in forth.iter().zip(back.iter()) {
            assert_eq!(d.name, e.name);
            assert_eq!(d.old_value, e.new_value);
            assert_eq!(d.new_value, e.old_value);
        }
    }
}
