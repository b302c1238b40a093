use lewton_wiki_tool::config::{RunConfig, DEFAULT_REQUESTS};
use lewton_wiki_tool::error::StrErr;
use lewton_wiki_tool::record::{ComparisonRes, EntryTime, RequestRes, RequestResKind};
use lewton_wiki_tool::resume::{parse_result_map, pending_items, ResumeIndex};
use lewton_wiki_tool::run::Run;
use lewton_wiki_tool::scheduler::Next;

fn names(list: &[&str]) -> Vec<String> {
    list.iter().map(|name| name.to_string()).collect()
}

fn entry(name: &str, secs: i64, kind: RequestResKind) -> RequestRes {
    RequestRes::new(name.to_string(), EntryTime { secs, nanos: 0 }, kind)
}

fn failure(name: &str, secs: i64) -> RequestRes {
    entry(name, secs, RequestResKind::Error("connection refused".to_string()))
}

fn success(name: &str, secs: i64) -> RequestRes {
    let findings = ComparisonRes::new((0, 10, 4410, false, 44100, 1), "vendor".to_string());
    entry(name, secs, RequestResKind::Success(findings))
}

fn index_of(log: &[RequestRes]) -> ResumeIndex {
    parse_result_map(log.iter().map(|entry| Ok(entry.duplicate())).collect()).unwrap()
}

fn settings(requests: u32) -> RunConfig {
    RunConfig::from_options(Some(requests), true, false, false).unwrap()
}

/// Runs the list against the log until the channel is closed. The task in
/// flight the longest reports first; `outcome` says how each fetch ends. The
/// entries are appended to the log; the files are returned in the order in
/// which they were handed out.
fn run_to_the_end(
    list: &[String],
    log: &mut Vec<RequestRes>,
    requests: u32,
    outcome: &dyn Fn(&str, i64) -> RequestRes,
) -> Vec<String> {
    let index = index_of(log);
    let mut run = Run::new(&list.to_vec(), &index, settings(requests)).unwrap();
    let mut handed_out = run.start();
    let mut flying = handed_out.clone();
    let mut clock = 1000i64;
    while !run.is_finished() {
        assert!(run.active_count() <= requests as usize);
        let name = flying.remove(0);
        clock += 1;
        let step = run.on_outcome(outcome(&name, clock));
        assert!(step.append_to_log);
        log.push(step.entry);
        match step.next {
            Next::Dispatch(next) => {
                handed_out.push(next.clone());
                flying.push(next);
            }
            Next::Wait => {}
            Next::Close => assert!(flying.is_empty()),
            Next::Rejected => panic!("a task in flight was rejected"),
        }
    }
    assert!(flying.is_empty());
    handed_out
}

#[test]
fn three_items_two_slots() {
    let list = names(&["a", "b", "c"]);
    let index = parse_result_map(Vec::new()).unwrap();
    let mut run = Run::new(&list, &index, settings(2)).unwrap();
    assert_eq!(run.total(), 3);
    assert_eq!(run.already_final(), 0);
    assert_eq!(run.left_to_handle(), 3);

    // two tasks at once, the third only after the first report
    assert_eq!(run.start(), names(&["a", "b"]));
    assert_eq!(run.active_count(), 2);
    let mut log: Vec<RequestRes> = Vec::new();

    let step = run.on_outcome(success("a", 1));
    assert_eq!(step.next, Next::Dispatch("c".to_string()));
    assert!(step.append_to_log);
    log.push(step.entry);
    assert_eq!(run.active_count(), 2);

    let step = run.on_outcome(entry("b", 2, RequestResKind::WrongResponse(404)));
    assert_eq!(step.next, Next::Wait);
    log.push(step.entry);
    assert!(!run.is_finished());

    let step = run.on_outcome(entry("c", 3, RequestResKind::ComparisonErr("bad".to_string())));
    assert_eq!(step.next, Next::Close);
    log.push(step.entry);
    assert!(run.is_finished());
    assert_eq!(run.completed_count(), 3);

    assert_eq!(log.len(), 3);
    let after = index_of(&log);
    assert!(after.is_final("a"));
    assert!(after.is_final("b"));
    assert!(after.is_final("c"));
    assert!(pending_items(&list, &after).is_empty());
}

#[test]
fn transport_error_is_fetched_again() {
    let list = names(&["a", "b"]);
    let mut log = vec![failure("a", 1)];
    let index = index_of(&log);
    assert!(!index.is_final("a"));
    let mut run = Run::new(&list, &index, settings(1)).unwrap();
    assert_eq!(run.left_to_handle(), 2);
    assert_eq!(run.already_final(), 0);

    assert_eq!(run.start(), names(&["a"]));
    let step = run.on_outcome(success("a", 2));
    assert_eq!(step.next, Next::Dispatch("b".to_string()));
    log.push(step.entry);
    let step = run.on_outcome(success("b", 3));
    assert_eq!(step.next, Next::Close);
    log.push(step.entry);

    // the old line is kept, the new outcome of "a" stands after it
    assert_eq!(log, vec![failure("a", 1), success("a", 2), success("b", 3)]);
    let after = index_of(&log);
    assert_eq!(after.get("a").unwrap(), &vec![failure("a", 1), success("a", 2)]);
    assert!(after.is_final("a"));
    assert!(after.is_final("b"));
}

#[test]
fn success_is_not_fetched_again() {
    let list = names(&["a", "b"]);
    let mut log = vec![success("a", 1)];
    let index = index_of(&log);
    let mut run = Run::new(&list, &index, settings(20)).unwrap();
    assert_eq!(run.total(), 2);
    assert_eq!(run.already_final(), 1);
    assert_eq!(run.left_to_handle(), 1);

    assert_eq!(run.start(), names(&["b"]));
    // nothing is in flight for "a"
    let stray = run.on_outcome(success("a", 2));
    assert_eq!(stray.next, Next::Rejected);
    assert!(!stray.append_to_log);
    assert!(!stray.print);
    assert!(!stray.advance_progress);

    let step = run.on_outcome(success("b", 3));
    assert_eq!(step.next, Next::Close);
    assert!(step.append_to_log);
    log.push(step.entry);
    assert_eq!(log, vec![success("a", 1), success("b", 3)]);
}

#[test]
fn everything_final_closes_without_a_fetch() {
    let list = names(&["a", "b"]);
    let index = index_of(&[success("b", 1), success("a", 2)]);
    let mut run = Run::new(&list, &index, settings(3)).unwrap();
    assert_eq!(run.left_to_handle(), 0);
    assert_eq!(run.already_final(), 2);
    assert!(run.start().is_empty());
    assert!(run.is_finished());
    assert_eq!(run.completed_count(), 0);
}

#[test]
fn empty_list_closes_without_a_fetch() {
    let index = ResumeIndex::new();
    let mut run = Run::new(&Vec::new(), &index, settings(3)).unwrap();
    assert_eq!(run.total(), 0);
    assert!(run.start().is_empty());
    assert!(run.is_finished());
}

#[test]
fn rerun_after_failures_finishes_the_list() {
    let list: Vec<String> = (0..17).map(|i| format!("file {}", i)).collect();
    let mut log: Vec<RequestRes> = Vec::new();

    // in the first run every third fetch gets no response
    let first = run_to_the_end(&list, &mut log, 4, &|name, clock| {
        let number: usize = name[5..].parse().unwrap();
        if number % 3 == 0 {
            failure(name, clock)
        } else {
            success(name, clock)
        }
    });
    assert_eq!(first, list);
    assert_eq!(log.len(), 17);
    let left = pending_items(&list, &index_of(&log));
    assert_eq!(left, names(&["file 0", "file 3", "file 6", "file 9", "file 12", "file 15"]));

    // the second run fetches what is left, and nothing else
    let second = run_to_the_end(&list, &mut log, 4, &|name, clock| success(name, clock));
    assert_eq!(second, left);
    assert_eq!(log.len(), 23);
    let after = index_of(&log);
    for name in list.iter() {
        assert!(after.is_final(name));
    }

    // a third run has nothing to do
    let third = run_to_the_end(&list, &mut log, 4, &|name, clock| success(name, clock));
    assert!(third.is_empty());
    assert_eq!(log.len(), 23);
}

#[test]
fn interrupted_run_is_taken_up_again() {
    let list = names(&["a", "b", "c", "d"]);
    let mut log: Vec<RequestRes> = Vec::new();
    {
        let index = index_of(&log);
        let mut run = Run::new(&list, &index, settings(2)).unwrap();
        assert_eq!(run.start(), names(&["a", "b"]));
        let step = run.on_outcome(success("b", 1));
        assert_eq!(step.next, Next::Dispatch("c".to_string()));
        log.push(step.entry);
        // the run ends here, with "a" and "c" in flight
    }
    let again = run_to_the_end(&list, &mut log, 2, &|name, clock| success(name, clock));
    assert_eq!(again, names(&["a", "c", "d"]));
    let after = index_of(&log);
    for name in list.iter() {
        assert!(after.is_final(name));
    }
    assert_eq!(log.len(), 4);
}

#[test]
fn sink_follows_the_settings() {
    let list = names(&["a", "b", "c", "d"]);
    let index = ResumeIndex::new();

    let quiet = RunConfig::from_options(Some(4), false, true, false).unwrap();
    let mut run = Run::new(&list, &index, quiet).unwrap();
    assert_eq!(run.progress_total(), None);
    run.start();
    let step = run.on_outcome(success("a", 1));
    assert!(!step.print);
    assert!(!step.append_to_log);
    assert!(!step.advance_progress);
    assert_eq!(step.entry, success("a", 1));

    let progress = RunConfig::from_options(None, true, false, true).unwrap();
    let mut run = Run::new(&list, &index, progress).unwrap();
    assert_eq!(run.progress_total(), Some(4));
    run.start();
    let step = run.on_outcome(failure("d", 1));
    assert!(!step.print);
    assert!(step.append_to_log);
    assert!(step.advance_progress);

    let chatty = RunConfig::from_options(None, false, false, false).unwrap();
    let mut run = Run::new(&list, &index, chatty).unwrap();
    run.start();
    let step = run.on_outcome(success("c", 1));
    assert!(step.print);
    assert!(!step.append_to_log);
    assert!(!step.advance_progress);
}

#[test]
fn options_default_to_twenty_requests() {
    let config = RunConfig::from_options(None, false, false, false).unwrap();
    assert_eq!(config.requests, 20);
    assert_eq!(DEFAULT_REQUESTS, 20);
    assert!(config.log_to_stdout);
    assert!(!config.log_to_file);
    assert!(!config.progress_bar);
    let config = RunConfig::from_options(Some(u32::MAX), true, true, false).unwrap();
    assert_eq!(config.requests, u32::MAX as usize);
    assert!(!config.log_to_stdout);
    assert!(config.log_to_file);
}

#[test]
fn progress_bar_implies_no_printing() {
    let config = RunConfig::from_options(Some(1), false, false, true).unwrap();
    assert!(config.progress_bar);
    assert!(!config.log_to_stdout);
}

#[test]
fn zero_requests_are_refused() {
    assert_eq!(
        RunConfig::from_options(Some(0), true, false, false),
        Err(StrErr::new("the upper limit of parallel requests must be at least 1"))
    );
    let broken = RunConfig { requests: 0, log_to_file: false, log_to_stdout: true, progress_bar: false };
    match Run::new(&names(&["a"]), &ResumeIndex::new(), broken) {
        Ok(_) => panic!("a limit of zero was accepted"),
        Err(err) => assert_eq!(err, StrErr::new("the upper limit of parallel requests must be at least 1")),
    }
}
