use urlperm::report::{fetched_line, report, Channel, Outcome};

#[test]
fn fetched_line_joins_host_path_and_status() {
    assert_eq!(
        fetched_line(Some("ggez.ch"), "/abcd", "200 OK"),
        "ggez.ch/abcd - 200 OK"
    );
}

#[test]
fn fetched_line_without_host_starts_with_path() {
    assert_eq!(fetched_line(None, "/abcd", "404 Not Found"), "/abcd - 404 Not Found");
}

#[test]
fn report_of_response_shows_status_reason() {
    let o = Outcome::Fetched {
        domain: Some("ggez.ch".to_string()),
        path: "/abcd".to_string(),
        status: 404,
    };
    let lines = report(&o);
    assert_eq!(lines.len(), 1);
    assert_eq!(lines[0].channel, Channel::Stdout);
    assert_eq!(lines[0].text, "ggez.ch/abcd - 404 Not Found");
}

#[test]
fn report_of_unknown_status_code() {
    let o = Outcome::Fetched {
        domain: Some("ggez.ch".to_string()),
        path: "/".to_string(),
        status: 599,
    };
    let lines = report(&o);
    assert_eq!(lines.len(), 1);
    assert_eq!(lines[0].text, "ggez.ch/ - 599 <unknown status code>");
}

#[test]
fn report_of_response_without_host_has_empty_host() {
    let o = Outcome::Fetched { domain: None, path: "/zz".to_string(), status: 200 };
    let lines = report(&o);
    assert_eq!(lines.len(), 1);
    assert_eq!(lines[0].channel, Channel::Stdout);
    assert_eq!(lines[0].text, "/zz - 200 OK");
}

#[test]
fn report_of_request_error_is_one_error_line() {
    let o = Outcome::RequestError { cause: "connection refused".to_string() };
    let lines = report(&o);
    assert_eq!(lines.len(), 1);
    assert_eq!(lines[0].channel, Channel::Stderr);
    assert_eq!(lines[0].text, "reqwest::Error: connection refused");
}

#[test]
fn report_of_task_error_is_one_error_line() {
    let o = Outcome::TaskError { cause: "task 7 panicked".to_string() };
    let lines = report(&o);
    assert_eq!(lines.len(), 1);
    assert_eq!(lines[0].channel, Channel::Stderr);
    assert_eq!(lines[0].text, "tokio::JoinError: task 7 panicked");
}
