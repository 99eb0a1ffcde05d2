//! Reports of how far background work has come.
use crate::requests;
use crate::requests::IdView;
use crate::requests::OutgoingRequest;
use crate::requests::ResponseHandler;
use crate::server::LspServerState;
use crate::strings;
use vstd::prelude::*;

verus! {

/// Whether work starts, goes on or ends.
#[derive(Clone, Copy, Debug, PartialEq, Eq, Structural)]
pub enum Progress {
    Begin,
    Report,
    End,
}

/// The method of the request that announces a progress token.
pub const CREATE_PROGRESS: &'static str = "window/workDoneProgress/create";

/// A request to the client to accept a progress token.
#[derive(Debug)]
pub struct CreateProgress {
    pub request: OutgoingRequest,
    pub token: String,
}

/// What a progress notification says. A fraction is given as what is done and
/// what there is in total.
#[derive(Debug)]
pub enum ProgressValue {
    Begin { title: String, message: Option<String>, fraction: Option<(usize, usize)> },
    Report { message: Option<String>, fraction: Option<(usize, usize)> },
    End { message: Option<String> },
}

/// A progress notification.
#[derive(Debug)]
pub struct ProgressNotification {
    pub token: String,
    pub value: ProgressValue,
}

/// What to send, in order, to report progress.
#[derive(Debug)]
pub struct ProgressMessages {
    pub create: Option<CreateProgress>,
    pub notification: ProgressNotification,
}

impl Progress {
    /// The state of work of which `done` out of `total` steps are done.
    pub open spec fn at(done: nat, total: nat) -> Progress {
        if done == 0 {
            Progress::Begin
        } else if done < total {
            Progress::Report
        } else {
            Progress::End
        }
    }

    /// The state of work of which `done` out of `total` steps are done.
    pub fn of(done: usize, total: usize) -> (state: Progress)
        ensures
            state == Progress::at(done as nat, total as nat),
    {
        if done == 0 {
            Progress::Begin
        } else if done < total {
            Progress::Report
        } else {
            Progress::End
        }
    }
}

/// The token of a piece of work.
pub open spec fn token_label(title: Seq<char>, suffix: Option<Seq<char>>) -> Seq<char> {
    "beancount/"@ + title + match suffix {
        Some(suffix) => suffix,
        None => seq![],
    }
}

/// An optional text.
pub open spec fn text_of(message: Option<String>) -> Option<Seq<char>> {
    match message {
        Some(message) => Some(message@),
        None => None,
    }
}

/// What a report of progress must hold: the token is announced before the first
/// notification, and the notification says what its state calls for.
pub open spec fn is_progress(
    messages: ProgressMessages,
    id: int,
    title: Seq<char>,
    state: Progress,
    message: Option<Seq<char>>,
    fraction: Option<(usize, usize)>,
    suffix: Option<Seq<char>>,
) -> bool {
    let token = token_label(title, suffix);
    &&& messages.notification.token@ == token
    &&& match state {
        Progress::Begin => {
            &&& messages.create matches Some(create) && create.request.id == id
                && create.request.method@ == CREATE_PROGRESS@ && create.token@ == token
            &&& messages.notification.value matches ProgressValue::Begin {
                title: shown,
                message: text,
                fraction: part,
            } && shown@ == title && text_of(text) == message && part == fraction
        },
        Progress::Report => {
            &&& messages.create is None
            &&& messages.notification.value matches ProgressValue::Report {
                message: text,
                fraction: part,
            } && text_of(text) == message && part == fraction
        },
        Progress::End => {
            &&& messages.create is None
            &&& messages.notification.value matches ProgressValue::End { message: text }
                && text_of(text) == message
        },
    }
}

impl<D> LspServerState<D> {
    /// What a report of progress leaves of the state: a request to the client is
    /// pending where work starts, and nothing else changes.
    pub open spec fn progress_reported(self, after: Self, state: Progress) -> bool {
        &&& after.wf()
        &&& after.doc_store == self.doc_store
        &&& after.shutdown_requested == self.shutdown_requested
        &&& after.extracting == self.extracting
        &&& after.parsing == self.parsing
        &&& after.cancelled == self.cancelled
        &&& requests::incoming_requests(after.req_queue) == requests::incoming_requests(
            self.req_queue,
        )
        &&& requests::outgoing_requests(after.req_queue) == if state == Progress::Begin {
            requests::outgoing_requests(self.req_queue).insert(
                IdView::Number(self.next_request as int),
                ResponseHandler::Ignore,
            )
        } else {
            requests::outgoing_requests(self.req_queue)
        }
        &&& after.next_request == self.next_request + if state == Progress::Begin {
            1int
        } else {
            0
        }
    }

    /// A number is left for the request to the client that work in this state asks
    /// for.
    pub open spec fn can_report(self, state: Progress) -> bool {
        state == Progress::Begin ==> self.next_request < i32::MAX
    }

    /// Reports progress to the user.
    pub fn report_progress(
        &mut self,
        title: &str,
        state: Progress,
        message: Option<String>,
        fraction: Option<(usize, usize)>,
        token_suffix: Option<&str>,
    ) -> (messages: ProgressMessages)
        requires
            old(self).wf(),
            old(self).can_report(state),
        ensures
            old(self).progress_reported(*final(self), state),
            is_progress(
                messages,
                old(self).next_request as int,
                title@,
                state,
                text_of(message),
                fraction,
                match token_suffix {
                    Some(suffix) => Some(suffix@),
                    None => None,
                },
            ),
    {
        let mut token = strings::join("beancount/", title);
        if let Some(suffix) = token_suffix {
            token.append(suffix);
        }
        proof {
            assert("beancount/"@ + title@ + seq![] =~= "beancount/"@ + title@);
        }
        match state {
            Progress::Begin => {
                let request = self.send_request(CREATE_PROGRESS, ResponseHandler::Ignore);
                ProgressMessages {
                    create: Some(CreateProgress { request, token: token.clone() }),
                    notification: ProgressNotification {
                        token,
                        value: ProgressValue::Begin { title: title.to_owned(), message, fraction },
                    },
                }
            },
            Progress::Report => ProgressMessages {
                create: None,
                notification: ProgressNotification {
                    token,
                    value: ProgressValue::Report { message, fraction },
                },
            },
            Progress::End => ProgressMessages {
                create: None,
                notification: ProgressNotification { token, value: ProgressValue::End { message } },
            },
        }
    }
}

// ── Laws ─────────────────────────────────────────────────────────────────────
/// Work of which nothing is done begins, work of which all is done or more has
/// ended, and other work goes on. A token names the work, and the run if there is a
/// suffix.
pub proof fn law_progress_goes_from_begin_to_end(
    done: nat,
    total: nat,
    title: Seq<char>,
    suffix: Seq<char>,
)
    ensures
        done == 0 ==> Progress::at(done, total) == Progress::Begin,
        0 < done < total ==> Progress::at(done, total) == Progress::Report,
        done > 0 && done >= total ==> Progress::at(done, total) == Progress::End,
        token_label(title, None) == "beancount/"@ + title,
        token_label(title, Some(suffix)) == "beancount/"@ + title + suffix,
        CREATE_PROGRESS@ == "window/workDoneProgress/create"@,
{
    assert("beancount/"@ + title + seq![] =~= "beancount/"@ + title);
}

/// What is sent: where work begins, a request under the next number to accept the
/// token, and a notification with the title; the notification always has the token
/// and the message, and the fraction unless the work ends.
pub proof fn law_progress_says_what_it_was_given(
    messages: ProgressMessages,
    id: int,
    title: Seq<char>,
    state: Progress,
    message: Option<Seq<char>>,
    fraction: Option<(usize, usize)>,
    suffix: Option<Seq<char>>,
)
    requires
        is_progress(messages, id, title, state, message, fraction, suffix),
    ensures
        suffix is None ==> messages.notification.token@ == "beancount/"@ + title,
        suffix matches Some(run) ==> messages.notification.token@ == "beancount/"@ + title + run,
        state == Progress::Begin ==> (messages.create matches Some(create) && create.request.id == id
            && create.request.method@ == "window/workDoneProgress/create"@ && create.token@
            == messages.notification.token@),
        state != Progress::Begin ==> messages.create is None,
        state == Progress::Begin ==> (messages.notification.value matches ProgressValue::Begin {
            title: shown,
            message: said,
            fraction: part,
        } && shown@ == title && part == fraction && (message is None ==> said is None) && (
        message matches Some(m) ==> said is Some && said.unwrap()@ == m)),
        state == Progress::Report ==> (messages.notification.value matches ProgressValue::Report {
            message: said,
            fraction: part,
        } && part == fraction && (message is None ==> said is None) && (message matches Some(m)
            ==> said is Some && said.unwrap()@ == m)),
        state == Progress::End ==> (messages.notification.value matches ProgressValue::End {
            message: said,
        } && (message is None ==> said is None) && (message matches Some(m) ==> said is Some
            && said.unwrap()@ == m)),
{
    assert("beancount/"@ + title + seq![] =~= "beancount/"@ + title);
}

/// What a report leaves of the state: a request to the client is pending where work
/// begins, under the number that was next, and the number moves on by one. Nothing
/// else changes.
pub proof fn law_progress_takes_a_number_to_begin<D>(
    before: LspServerState<D>,
    after: LspServerState<D>,
    state: Progress,
)
    requires
        before.progress_reported(after, state),
    ensures
        after.doc_store == before.doc_store,
        after.shutdown_requested == before.shutdown_requested,
        after.extracting == before.extracting,
        after.parsing == before.parsing,
        after.cancelled == before.cancelled,
        requests::incoming_requests(after.req_queue) == requests::incoming_requests(
            before.req_queue,
        ),
        state == Progress::Begin ==> after.next_request == before.next_request + 1
            && requests::outgoing_requests(after.req_queue) == requests::outgoing_requests(
            before.req_queue,
        ).insert(IdView::Number(before.next_request as int), ResponseHandler::Ignore),
        state != Progress::Begin ==> after.next_request == before.next_request
            && requests::outgoing_requests(after.req_queue) == requests::outgoing_requests(
            before.req_queue,
        ),
        requests::next_request_id(after.req_queue) == after.next_request,
        before.can_report(state) <==> (state == Progress::Begin ==> before.next_request < i32::MAX),
{
}

} // verus!
