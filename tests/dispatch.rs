use urlperm::dispatch::{Action, DispatchError, Dispatcher};
use urlperm::report::{report, Channel, Outcome};

#[test]
fn empty_batch_finishes_at_once() {
    let mut d = Dispatcher::new(0, 45);
    assert_eq!(d.next_action(), Action::Finished);
    assert_eq!(d.completed(), 0);
    assert_eq!(d.in_flight(), 0);
}

#[test]
fn limit_one_serialises_requests() {
    let mut d = Dispatcher::new(3, 1);
    let mut outcomes = 0;
    let mut issued = Vec::new();
    loop {
        match d.next_action() {
            Action::Issue(i) => {
                assert!(d.in_flight() <= 1);
                issued.push(i);
            }
            Action::Wait => {
                assert_eq!(d.in_flight(), 1);
                let i = *issued.last().unwrap();
                assert_eq!(d.complete(i), Ok(()));
                outcomes += 1;
            }
            Action::Finished => break,
        }
    }
    assert_eq!(issued, vec![0, 1, 2]);
    assert_eq!(outcomes, 3);
    assert_eq!(d.completed(), 3);
}

#[test]
fn limit_above_batch_issues_all_then_waits() {
    let mut d = Dispatcher::new(3, 10);
    assert_eq!(d.next_action(), Action::Issue(0));
    assert_eq!(d.next_action(), Action::Issue(1));
    assert_eq!(d.next_action(), Action::Issue(2));
    assert_eq!(d.in_flight(), 3);
    assert_eq!(d.next_action(), Action::Wait);
    assert_eq!(d.complete(2), Ok(()));
    assert_eq!(d.complete(0), Ok(()));
    assert_eq!(d.next_action(), Action::Wait);
    assert_eq!(d.complete(1), Ok(()));
    assert_eq!(d.next_action(), Action::Finished);
    assert_eq!(d.completed(), 3);
}

#[test]
fn sliding_window_admits_on_each_completion() {
    let mut d = Dispatcher::new(4, 2);
    assert_eq!(d.next_action(), Action::Issue(0));
    assert_eq!(d.next_action(), Action::Issue(1));
    assert_eq!(d.next_action(), Action::Wait);
    assert_eq!(d.complete(1), Ok(()));
    assert_eq!(d.next_action(), Action::Issue(2));
    assert_eq!(d.next_action(), Action::Wait);
    assert_eq!(d.in_flight(), 2);
}

#[test]
fn failed_request_does_not_stop_batch() {
    let mut d = Dispatcher::new(3, 2);
    assert_eq!(d.next_action(), Action::Issue(0));
    assert_eq!(d.next_action(), Action::Issue(1));
    let failure = Outcome::RequestError { cause: "dns failure".to_string() };
    let lines = report(&failure);
    assert_eq!(lines.len(), 1);
    assert_eq!(lines[0].channel, Channel::Stderr);
    assert_eq!(d.complete(0), Ok(()));
    assert_eq!(d.next_action(), Action::Issue(2));
    assert_eq!(d.complete(1), Ok(()));
    assert_eq!(d.complete(2), Ok(()));
    assert_eq!(d.next_action(), Action::Finished);
    assert_eq!(d.completed(), 3);
}

#[test]
fn completion_is_accepted_once() {
    let mut d = Dispatcher::new(2, 2);
    assert_eq!(d.complete(0), Err(DispatchError::NotInFlight));
    assert_eq!(d.next_action(), Action::Issue(0));
    assert_eq!(d.complete(0), Ok(()));
    assert_eq!(d.complete(0), Err(DispatchError::NotInFlight));
    assert_eq!(d.complete(5), Err(DispatchError::NotInFlight));
    assert_eq!(d.completed(), 1);
    assert_eq!(d.total(), 2);
}
