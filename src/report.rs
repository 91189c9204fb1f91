//! Classification of each finished request into the lines reported for it.
use vstd::prelude::*;

verus! {

/// What came of the request for one URL.
#[derive(Clone, Debug)]
pub enum Outcome {
    /// A response arrived: the host and path of its final URL, and its
    /// status code.
    Fetched { domain: Option<String>, path: String, status: u16 },
    /// The request ran and the network or protocol operation failed.
    RequestError { cause: String },
    /// The unit of work running the request did not complete.
    TaskError { cause: String },
}

impl Outcome {
    /// A status code lies between 100 and 999, as HTTP status codes do.
    pub open spec fn wf(&self) -> bool {
        match *self {
            Outcome::Fetched { status, .. } => 100 <= status <= 999,
            _ => true,
        }
    }
}

/// Where a reported line goes.
#[derive(Clone, Copy, Debug, PartialEq, Eq, Structural)]
pub enum Channel {
    Stdout,
    Stderr,
}

/// One reported line.
#[derive(Clone, Debug)]
pub struct ReportLine {
    pub channel: Channel,
    pub text: String,
}

/// The text in which a status code is displayed: the code and its reason
/// phrase.
pub uninterp spec fn status_text_of(code: u16) -> Seq<char>;

/// Relies on `reqwest::StatusCode` (the `http` crate's): `from_u16` accepts
/// every code from 100 to 999, and `to_string` displays the code with its
/// reason phrase.
#[verifier::external_body]
fn status_text(code: u16) -> (r: String)
    requires
        100 <= code <= 999,
    ensures
        r@ == status_text_of(code),
{
    match reqwest::StatusCode::from_u16(code) {
        Ok(status) => status.to_string(),
        Err(_) => String::new(),
    }
}

/// The host of a response, or nothing where none could be determined.
pub open spec fn place_of(domain: Option<Seq<char>>) -> Seq<char> {
    match domain {
        Some(d) => d,
        None => Seq::empty(),
    }
}

/// `<domain><path> - <status>`.
pub open spec fn fetched_text(domain: Option<Seq<char>>, path: Seq<char>, status: Seq<char>) -> Seq<
    char,
> {
    place_of(domain) + path + " - "@ + status
}

/// The line reported for one outcome, with its channel.
pub open spec fn outcome_lines(o: Outcome) -> Seq<(Channel, Seq<char>)> {
    match o {
        Outcome::Fetched { domain, path, status } => match domain {
            Some(d) => seq![
                (Channel::Stdout, fetched_text(Some(d@), path@, status_text_of(status))),
            ],
            None => seq![(Channel::Stdout, fetched_text(None, path@, status_text_of(status)))],
        },
        Outcome::RequestError { cause } => seq![(Channel::Stderr, "reqwest::Error: "@ + cause@)],
        Outcome::TaskError { cause } => seq![(Channel::Stderr, "tokio::JoinError: "@ + cause@)],
    }
}

/// The channel and text of each line.
pub open spec fn line_views(r: Seq<ReportLine>) -> Seq<(Channel, Seq<char>)> {
    r.map_values(|l: ReportLine| (l.channel, l.text@))
}

/// The line for a response: its host (empty where there is none), its path,
/// and the displayed status.
pub fn fetched_line(domain: Option<&str>, path: &str, status: &str) -> (r: String)
    ensures
        r@ == fetched_text(
            match domain {
                Some(d) => Some(d@),
                None => None,
            },
            path@,
            status@,
        ),
{
    let place: &str = match domain {
        Some(d) => d,
        None => "",
    };
    proof {
        reveal_strlit("");
    }
    let line = place.to_owned().concat(path).concat(" - ").concat(status);
    proof {
        assert(place@ == place_of(
            match domain {
                Some(d) => Some(d@),
                None => None,
            },
        ));
    }
    line
}

/// The one line reported for an outcome: a response goes to standard output,
/// with an empty host where none is known; a failure of either kind goes to
/// standard error.
pub fn report(outcome: &Outcome) -> (r: Vec<ReportLine>)
    requires
        outcome.wf(),
    ensures
        line_views(r@) == outcome_lines(*outcome),
{
    let mut lines: Vec<ReportLine> = Vec::new();
    match outcome {
        Outcome::Fetched { domain, path, status } => {
            let shown = status_text(*status);
            match domain {
                Some(d) => {
                    let text = fetched_line(Some(d.as_str()), path.as_str(), shown.as_str());
                    lines.push(ReportLine { channel: Channel::Stdout, text });
                },
                None => {
                    let text = fetched_line(None, path.as_str(), shown.as_str());
                    lines.push(ReportLine { channel: Channel::Stdout, text });
                },
            }
        },
        Outcome::RequestError { cause } => {
            let text = "reqwest::Error: ".to_owned().concat(cause.as_str());
            lines.push(ReportLine { channel: Channel::Stderr, text });
        },
        Outcome::TaskError { cause } => {
            let text = "tokio::JoinError: ".to_owned().concat(cause.as_str());
            lines.push(ReportLine { channel: Channel::Stderr, text });
        },
    }
    assert(line_views(lines@) =~= outcome_lines(*outcome));
    lines
}

} // verus!
