use lewton_wiki_tool::record::{ComparisonRes, RequestResKind};
use lewton_wiki_tool::task::{
    on_address, on_payload, on_response, on_validation, plan_fetch, status_is_success, TaskStep,
    AGENT,
};
use lewton_wiki_tool::url::{get_medium_url, url_from_digest, URL_PREFIX};

#[test]
fn url_holds_the_first_digits_of_the_digest() {
    // the MD5 digest of "a" is 0cc175b9c0f1b6a831c399e269772661
    assert_eq!(get_medium_url("a"), "https://upload.wikimedia.org/wikipedia/commons/0/0c/a");
    // that of "Example.ogg" is c890f718ff7d3c07929dc66a29e4808c
    assert_eq!(
        get_medium_url("Example.ogg"),
        "https://upload.wikimedia.org/wikipedia/commons/c/c8/Example.ogg"
    );
}

#[test]
fn url_of_the_empty_name() {
    // the MD5 digest of nothing is d41d8cd98f00b204e9800998ecf8427e
    assert_eq!(get_medium_url(""), "https://upload.wikimedia.org/wikipedia/commons/d/d4/");
}

#[test]
fn url_escapes_what_a_path_cannot_hold() {
    // digest 20cb69c40ceb5fa63d18f29eee5a3a70
    assert_eq!(
        get_medium_url("Foo bar?.ogg"),
        "https://upload.wikimedia.org/wikipedia/commons/2/20/Foo%20bar%3F.ogg"
    );
    // digest 36e03af8dd8e74389cfc93290edda7a4
    assert_eq!(
        get_medium_url("Ünïcode {test}.oga"),
        "https://upload.wikimedia.org/wikipedia/commons/3/36/%C3%9Cn%C3%AFcode%20%7Btest%7D.oga"
    );
}

#[test]
fn url_leaves_slash_and_percent_alone() {
    let url = get_medium_url("a/b%c");
    assert!(url.starts_with(URL_PREFIX));
    assert!(url.ends_with("/a/b%c"));
}

#[test]
fn url_escapes_each_character_of_the_set() {
    let url = get_medium_url("\"#<>`?{}\u{7f}\n");
    assert!(url.ends_with("/%22%23%3C%3E%60%3F%7B%7D%7F%0A"));
}

#[test]
fn fetch_plan_names_url_and_agent() {
    let plan = plan_fetch("Example.ogg");
    assert_eq!(plan.url, "https://upload.wikimedia.org/wikipedia/commons/c/c8/Example.ogg");
    assert_eq!(plan.user_agent, AGENT);
    assert_eq!(
        AGENT,
        "LewtonWikiTool (https://github.com/est31/lewton-wiki-tool) Hyper/0.12"
    );
}

#[test]
fn success_is_two_hundred_to_two_hundred_ninety_nine() {
    assert!(!status_is_success(0));
    assert!(!status_is_success(199));
    assert!(status_is_success(200));
    assert!(status_is_success(204));
    assert!(status_is_success(299));
    assert!(!status_is_success(300));
    assert!(!status_is_success(404));
    assert!(!status_is_success(u16::MAX));
}

#[test]
fn no_response_ends_the_task_with_the_reason() {
    assert_eq!(
        on_response(Err("connection reset by peer".to_string())),
        TaskStep::Finished(RequestResKind::Error("connection reset by peer".to_string()))
    );
}

#[test]
fn wrong_status_ends_the_task_without_validation() {
    for status in [100u16, 199, 300, 301, 404, 500, 999] {
        assert_eq!(
            on_response(Ok(status)),
            TaskStep::Finished(RequestResKind::WrongResponse(status))
        );
    }
}

#[test]
fn success_status_has_the_payload_read() {
    for status in [200u16, 201, 206, 299] {
        assert_eq!(on_response(Ok(status)), TaskStep::Read);
    }
}

#[test]
fn payload_that_arrived_goes_to_the_validator() {
    assert_eq!(on_payload(Ok(())), TaskStep::Validate);
}

#[test]
fn payload_that_breaks_off_is_a_failure_to_respond() {
    let step = on_payload(Err("connection closed before message completed".to_string()));
    assert_eq!(
        step,
        TaskStep::Finished(RequestResKind::Error(
            "connection closed before message completed".to_string()
        ))
    );
    match step {
        TaskStep::Finished(kind) => assert!(!kind.is_final()),
        _ => panic!("the task went on after a broken payload"),
    }
}

#[test]
fn address_that_can_be_asked_for_is_fetched() {
    assert_eq!(on_address(Ok(())), TaskStep::Fetch);
}

#[test]
fn address_that_cannot_be_asked_for_ends_the_task() {
    assert_eq!(
        on_address(Err("invalid uri character".to_string())),
        TaskStep::Finished(RequestResKind::Error("invalid uri character".to_string()))
    );
}

#[test]
fn url_takes_its_digits_from_the_digest() {
    let mut digest = [0u8; 16];
    digest[0] = 0xab;
    digest[1] = 0xcd;
    assert_eq!(
        url_from_digest(digest, "x y.ogg"),
        "https://upload.wikimedia.org/wikipedia/commons/a/ab/x%20y.ogg"
    );
    assert_eq!(
        url_from_digest([0x0f; 16], ""),
        "https://upload.wikimedia.org/wikipedia/commons/0/0f/"
    );
    assert_eq!(
        url_from_digest([0; 16], "a"),
        "https://upload.wikimedia.org/wikipedia/commons/0/00/a"
    );
    assert_eq!(
        url_from_digest([0xf9; 16], "a"),
        "https://upload.wikimedia.org/wikipedia/commons/f/f9/a"
    );
}

#[test]
fn validator_findings_are_a_success() {
    let findings = ComparisonRes::new((3, 10, 1000, true, 48000, 6), "v".to_string());
    assert_eq!(
        on_validation(Ok(findings.duplicate())),
        RequestResKind::Success(findings)
    );
}

#[test]
fn validator_failure_is_a_comparison_error() {
    assert_eq!(
        on_validation(Err("not an ogg stream".to_string())),
        RequestResKind::ComparisonErr("not an ogg stream".to_string())
    );
}
