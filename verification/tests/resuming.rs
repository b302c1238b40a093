use lewton_wiki_tool::error::StrErr;
use lewton_wiki_tool::record::{ComparisonRes, EntryTime, RequestRes, RequestResKind};
use lewton_wiki_tool::resume::{parse_result_map, pending_items, ResumeIndex};

fn names(list: &[&str]) -> Vec<String> {
    list.iter().map(|name| name.to_string()).collect()
}

fn entry(name: &str, secs: i64, kind: RequestResKind) -> RequestRes {
    RequestRes::new(name.to_string(), EntryTime { secs, nanos: 0 }, kind)
}

fn failure(name: &str, secs: i64) -> RequestRes {
    entry(name, secs, RequestResKind::Error("connection refused".to_string()))
}

fn success(name: &str, secs: i64) -> RequestRes {
    let findings = ComparisonRes::new((0, 10, 4410, false, 44100, 1), "vendor".to_string());
    entry(name, secs, RequestResKind::Success(findings))
}

#[test]
fn empty_log_gives_empty_index() {
    let index = parse_result_map(Vec::new()).unwrap();
    assert!(index.get("a").is_none());
    assert!(!index.is_final("a"));
    assert_eq!(pending_items(&names(&["a", "b"]), &index), names(&["a", "b"]));
}

#[test]
fn entries_are_grouped_by_file_in_log_order() {
    let lines = vec![
        Ok(failure("a", 1)),
        Ok(success("b", 2)),
        Ok(entry("a", 3, RequestResKind::WrongResponse(404))),
        Ok(failure("a", 4)),
        Ok(failure("c", 5)),
    ];
    let index = parse_result_map(lines).unwrap();
    assert_eq!(
        index.get("a").unwrap(),
        &vec![failure("a", 1), entry("a", 3, RequestResKind::WrongResponse(404)), failure("a", 4)]
    );
    assert_eq!(index.get("b").unwrap(), &vec![success("b", 2)]);
    assert_eq!(index.get("c").unwrap(), &vec![failure("c", 5)]);
    assert!(index.get("d").is_none());
    assert!(index.get("").is_none());
}

#[test]
fn first_line_that_is_no_entry_fails_the_log() {
    let lines = vec![
        Ok(success("a", 1)),
        Err(StrErr::new("expected value at line 1 column 1")),
        Ok(success("b", 2)),
        Err(StrErr::new("unknown variant `Maybe`")),
    ];
    match parse_result_map(lines) {
        Ok(_) => panic!("a log with a broken line was read"),
        Err(err) => assert_eq!(err, StrErr::new("expected value at line 1 column 1")),
    }
}

#[test]
fn broken_last_line_fails_the_log() {
    let lines = vec![Ok(success("a", 1)), Err(StrErr::new("EOF while parsing"))];
    assert_eq!(parse_result_map(lines).err(), Some(StrErr::new("EOF while parsing")));
}

#[test]
fn only_failures_to_respond_leave_a_file_pending() {
    let mut index = ResumeIndex::new();
    index.record(failure("a", 1));
    assert!(!index.is_final("a"));
    index.record(failure("a", 2));
    index.record(failure("a", 3));
    assert!(!index.is_final("a"));
    assert!(!index.is_final("never seen"));
}

#[test]
fn one_final_entry_makes_a_file_final_wherever_it_stands() {
    let kinds: Vec<fn() -> RequestResKind> = vec![
        || RequestResKind::Success(ComparisonRes::new((0, 0, 0, true, 0, 0), String::new())),
        || RequestResKind::ComparisonErr("broken stream".to_string()),
        || RequestResKind::WrongResponse(503),
    ];
    for kind in kinds {
        for place in 0..4 {
            let mut index = ResumeIndex::new();
            for at in 0..4 {
                if at == place {
                    index.record(entry("a", at, kind()));
                } else {
                    index.record(failure("a", at));
                }
                index.record(failure("b", at));
            }
            assert!(index.is_final("a"));
            assert!(!index.is_final("b"));
        }
        let mut alone = ResumeIndex::new();
        alone.record(entry("a", 0, kind()));
        assert!(alone.is_final("a"));
    }
}

#[test]
fn pending_items_keep_the_order_of_the_list() {
    let lines = vec![
        Ok(success("b", 1)),
        Ok(failure("d", 2)),
        Ok(entry("e", 3, RequestResKind::ComparisonErr("bad".to_string()))),
        Ok(success("not listed", 4)),
    ];
    let index = parse_result_map(lines).unwrap();
    let list = names(&["a", "b", "c", "d", "e", "f"]);
    assert_eq!(pending_items(&list, &index), names(&["a", "c", "d", "f"]));
}

#[test]
fn leading_final_items_are_skipped() {
    let lines = vec![Ok(success("a", 1)), Ok(success("b", 2)), Ok(success("c", 3))];
    let index = parse_result_map(lines).unwrap();
    assert_eq!(pending_items(&names(&["a", "b", "c", "d", "e"]), &index), names(&["d", "e"]));
    assert!(pending_items(&names(&["a", "b", "c"]), &index).is_empty());
    assert!(pending_items(&Vec::new(), &index).is_empty());
}

#[test]
fn a_name_listed_twice_is_pending_twice() {
    let index = ResumeIndex::new();
    assert_eq!(pending_items(&names(&["a", "b", "a"]), &index), names(&["a", "b", "a"]));
}

#[test]
fn record_appends_to_the_group_of_the_file() {
    let mut index = ResumeIndex::new();
    index.record(failure("a", 1));
    index.record(success("b", 2));
    index.record(success("a", 3));
    assert_eq!(index.get("a").unwrap(), &vec![failure("a", 1), success("a", 3)]);
    assert_eq!(index.get("b").unwrap(), &vec![success("b", 2)]);
    assert!(index.is_final("a"));
}

#[test]
fn long_log_is_found_again_file_by_file() {
    let list: Vec<String> = (0..6000).map(|i| format!("File {} \u{e9}.ogg", i)).collect();
    let mut lines = Vec::new();
    for (number, name) in list.iter().enumerate() {
        if number % 2 == 0 {
            lines.push(Ok(failure(name, number as i64)));
        }
        if number % 3 == 0 {
            lines.push(Ok(success(name, number as i64)));
        }
    }
    let index = parse_result_map(lines).unwrap();
    for (number, name) in list.iter().enumerate() {
        assert_eq!(index.is_final(name), number % 3 == 0);
        let expected = (number % 2 == 0) as usize + (number % 3 == 0) as usize;
        assert_eq!(index.get(name).map_or(0, |entries| entries.len()), expected);
    }
    let pending = pending_items(&list, &index);
    let expected: Vec<String> =
        list.iter().enumerate().filter(|(number, _)| number % 3 != 0).map(|(_, name)| name.clone()).collect();
    assert_eq!(pending, expected);
}
