//! The life of one connection: one request line in, one response line out.

use crate::index::Tree;
use crate::normalize::Profile;
use crate::request::{process, response_of};
use crate::text::texts;
use vstd::prelude::*;
use vstd::string::StringExecFns;

verus! {

/// A token between double quotes.
pub open spec fn quoted(token: Seq<char>) -> Seq<char> {
    seq!['"'] + token + seq!['"']
}

/// The quoted tokens, separated by a comma and a space.
pub open spec fn listing(tokens: Seq<Seq<char>>) -> Seq<char>
    decreases tokens.len(),
{
    if tokens.len() == 0 {
        Seq::empty()
    } else if tokens.len() == 1 {
        quoted(tokens[0])
    } else {
        listing(tokens.drop_last()) + seq![',', ' '] + quoted(tokens.last())
    }
}

/// The response line for a list of tokens: the listing between square
/// brackets, and a line feed.
pub open spec fn rendered(tokens: Seq<Seq<char>>) -> Seq<char> {
    seq!['['] + listing(tokens) + seq![']', '\n']
}

/// The response line for a failed read: the diagnostic and a line feed.
pub open spec fn error_line(diagnostic: Seq<char>) -> Seq<char> {
    diagnostic + seq!['\n']
}

/// Writes a list of tokens as one response line. The tokens are quoted as they
/// are: canonical tokens hold nothing that would need escaping.
pub fn render(tokens: &Vec<String>) -> (line: String)
    ensures
        line@ == rendered(texts(tokens@)),
{
    let mut body = String::new();
    let n = tokens.len();
    let mut i: usize = 0;
    assert(texts(tokens@).take(0) =~= Seq::<Seq<char>>::empty());
    while i < n
        invariant
            i <= n,
            n == tokens@.len(),
            body@ == listing(texts(tokens@).take(i as int)),
        decreases n - i,
    {
        let ghost before = texts(tokens@).take(i as int);
        let ghost upto = texts(tokens@).take(i + 1);
        assert(upto.drop_last() =~= before);
        assert(upto.last() == tokens@[i as int]@);
        if i > 0 {
            body.push(',');
            body.push(' ');
        }
        body.push('"');
        body.append(tokens[i].as_str());
        body.push('"');
        proof {
            let token = tokens@[i as int]@;
            if i == 0 {
                assert(upto[0] == token);
                assert(body@ =~= quoted(token));
            } else {
                assert(body@ =~= listing(before) + seq![',', ' '] + quoted(token));
            }
        }
        i += 1;
    }
    assert(texts(tokens@).take(n as int) =~= texts(tokens@));
    let mut line = String::new();
    line.push('[');
    line.append(body.as_str());
    line.push(']');
    line.push('\n');
    assert(line@ =~= rendered(texts(tokens@)));
    line
}

/// Where a connection stands.
#[derive(Debug)]
pub enum State {
    /// Accepted, nothing read yet.
    Accepted,
    /// Waiting for the one request line.
    ReadingRequest,
    /// Holding the request line, its answer not yet computed.
    Processing(String),
    /// Handing the response line to the peer.
    WritingResponse,
    /// Done. Nothing more happens on this connection.
    Closed,
}

/// What happened on the transport since the last step.
#[derive(Debug)]
pub enum Event {
    /// The last action, if there was one, is done and brought nothing back.
    Ready,
    /// The request line arrived.
    Line(String),
    /// Reading failed; the text says how.
    ReadFailure(String),
    /// The response was written and flushed.
    Written,
    /// Writing or flushing the response failed.
    WriteFailure,
}

/// What the transport is to do next.
#[derive(Debug)]
pub enum Action {
    /// Read one line and report `Line` or `ReadFailure`.
    ReadLine,
    /// Nothing on the transport; report `Ready`.
    Proceed,
    /// Write this line, flush, and report `Written` or `WriteFailure`.
    Write(String),
    /// Close the connection and stop.
    Close,
}

/// Whether `next` and `action` are what follows from `state` and `event` on a
/// connection served from the words `known` under `profile`.
///
/// A connection reads one line, answers it and closes. A failed read is
/// answered with its diagnostic. After the response the connection closes
/// whether or not writing succeeded, and so it does on any event that its state
/// does not expect.
pub open spec fn follows(
    profile: Profile,
    known: Set<Seq<char>>,
    state: State,
    event: Event,
    next: State,
    action: Action,
) -> bool {
    match (state, event) {
        (State::Accepted, Event::Ready) => next is ReadingRequest && action is ReadLine,
        (State::ReadingRequest, Event::Line(line)) => {
            &&& next matches State::Processing(held)
            &&& held@ == line@
            &&& action is Proceed
        },
        (State::ReadingRequest, Event::ReadFailure(diagnostic)) => {
            &&& next is WritingResponse
            &&& action matches Action::Write(payload)
            &&& payload@ == error_line(diagnostic@)
        },
        (State::Processing(line), Event::Ready) => {
            &&& next is WritingResponse
            &&& action matches Action::Write(payload)
            &&& payload@ == rendered(response_of(profile, known, line@))
        },
        _ => next is Closed && action is Close,
    }
}

/// Takes a connection one step further: from its state and the last event to
/// its next state and the action to perform.
pub fn step(state: State, event: Event, index: &Tree) -> (out: (State, Action))
    ensures
        follows(index.profile(), index.words(), state, event, out.0, out.1),
{
    match (state, event) {
        (State::Accepted, Event::Ready) => (State::ReadingRequest, Action::ReadLine),
        (State::ReadingRequest, Event::Line(line)) => (State::Processing(line), Action::Proceed),
        (State::ReadingRequest, Event::ReadFailure(diagnostic)) => {
            let mut payload = diagnostic;
            payload.push('\n');
            assert(payload@ =~= error_line(diagnostic@));
            (State::WritingResponse, Action::Write(payload))
        },
        (State::Processing(line), Event::Ready) => {
            let novel = process(line.as_str(), index);
            (State::WritingResponse, Action::Write(render(&novel)))
        },
        _ => (State::Closed, Action::Close),
    }
}

} // verus!
