//! The requests that are under way: those of the client, and those to the
//! client.
use crate::strings;
use lsp_server::ReqQueue;
use vstd::prelude::*;

verus! {

/// What names a request: a number or a text, as the side that sent it chose.
#[derive(Debug, PartialEq, Eq)]
pub enum RequestId {
    Number(i32),
    Text(String),
}

impl Clone for RequestId {
    fn clone(&self) -> (copy: Self)
        ensures
            copy == *self,
    {
        match self {
            RequestId::Number(n) => RequestId::Number(*n),
            RequestId::Text(s) => RequestId::Text(s.clone()),
        }
    }
}

/// A request to the client, but for what it carries.
#[derive(Debug)]
pub struct OutgoingRequest {
    /// The number of the request.
    pub id: i32,
    pub method: String,
}

/// What a [`RequestId`] stands for.
pub enum IdView {
    Number(int),
    Text(Seq<char>),
}

impl View for RequestId {
    type V = IdView;

    open spec fn view(&self) -> IdView {
        match self {
            RequestId::Number(n) => IdView::Number(*n as int),
            RequestId::Text(s) => IdView::Text(s@),
        }
    }
}

impl RequestId {
    /// Whether two names are the same. A number never is the same as a text.
    pub fn same(&self, other: &RequestId) -> (r: bool)
        ensures
            r == (self@ == other@),
    {
        match (self, other) {
            (RequestId::Number(a), RequestId::Number(b)) => *a == *b,
            (RequestId::Text(a), RequestId::Text(b)) => strings::equal(a.as_str(), b.as_str()),
            _ => false,
        }
    }
}

/// What to do with the client's answer to a request.
#[derive(Clone, Copy, Debug, PartialEq, Eq, Structural)]
pub enum ResponseHandler {
    /// Nothing depends on the answer.
    Ignore,
    /// The answer tells whether the file watchers are in place.
    FileWatchers,
}

/// `lsp_server::ReqQueue`, the requests that are pending in both directions.
#[verifier::external_type_specification]
#[verifier::external_body]
#[verifier::reject_recursive_types(I)]
#[verifier::reject_recursive_types(O)]
pub struct ExReqQueue<I, O>(ReqQueue<I, O>);

/// The client's requests that are pending, with their methods.
pub uninterp spec fn incoming_requests(queue: ReqQueue<String, ResponseHandler>) -> Map<
    IdView,
    Seq<char>,
>;

/// The requests to the client that are pending, with what to do with the answer.
pub uninterp spec fn outgoing_requests(queue: ReqQueue<String, ResponseHandler>) -> Map<
    IdView,
    ResponseHandler,
>;

/// The number that the next request to the client gets.
pub uninterp spec fn next_request_id(queue: ReqQueue<String, ResponseHandler>) -> int;

/// No request is pending.
pub open spec fn nothing_pending(queue: ReqQueue<String, ResponseHandler>) -> bool {
    &&& incoming_requests(queue) == Map::<IdView, Seq<char>>::empty()
    &&& outgoing_requests(queue) == Map::<IdView, ResponseHandler>::empty()
}

/// `lsp_server::ReqQueue::default` is a queue with nothing pending; requests to
/// the client are numbered from zero.
#[verifier::external_body]
pub(crate) fn new_queue() -> (queue: ReqQueue<String, ResponseHandler>)
    ensures
        nothing_pending(queue),
        next_request_id(queue) == 0,
{
    ReqQueue::default()
}

/// `lsp_server::Incoming::register` notes a request of the client as pending.
#[verifier::external_body]
pub(crate) fn register_incoming(
    queue: &mut ReqQueue<String, ResponseHandler>,
    id: &RequestId,
    method: String,
)
    ensures
        incoming_requests(*final(queue)) == incoming_requests(*old(queue)).insert(id@, method@),
        outgoing_requests(*final(queue)) == outgoing_requests(*old(queue)),
        next_request_id(*final(queue)) == next_request_id(*old(queue)),
{
    let id = match id {
        RequestId::Number(n) => lsp_server::RequestId::from(*n),
        RequestId::Text(s) => lsp_server::RequestId::from(s.clone()),
    };
    queue.incoming.register(id, method)
}

/// `lsp_server::Incoming::complete` takes a request of the client off the pending
/// ones and hands out what was noted of it.
#[verifier::external_body]
pub(crate) fn complete_incoming(queue: &mut ReqQueue<String, ResponseHandler>, id: &RequestId) -> (r:
    Option<String>)
    ensures
        incoming_requests(*final(queue)) == incoming_requests(*old(queue)).remove(id@),
        outgoing_requests(*final(queue)) == outgoing_requests(*old(queue)),
        next_request_id(*final(queue)) == next_request_id(*old(queue)),
        match r {
            Some(method) => incoming_requests(*old(queue)).dom().contains(id@) && method@
                == incoming_requests(*old(queue))[id@],
            None => !incoming_requests(*old(queue)).dom().contains(id@),
        },
{
    let id = match id {
        RequestId::Number(n) => lsp_server::RequestId::from(*n),
        RequestId::Text(s) => lsp_server::RequestId::from(s.clone()),
    };
    queue.incoming.complete(&id)
}

/// `lsp_server::Outgoing::register` gives a request to the client the next number
/// and notes it as pending. The request that it makes has the method that was
/// given, which is handed back. It overflows on the last number.
#[verifier::external_body]
pub(crate) fn register_outgoing(
    queue: &mut ReqQueue<String, ResponseHandler>,
    method: String,
    handler: ResponseHandler,
) -> (sent: String)
    requires
        next_request_id(*old(queue)) < i32::MAX,
    ensures
        sent@ == method@,
        incoming_requests(*final(queue)) == incoming_requests(*old(queue)),
        outgoing_requests(*final(queue)) == outgoing_requests(*old(queue)).insert(
            IdView::Number(next_request_id(*old(queue))),
            handler,
        ),
        next_request_id(*final(queue)) == next_request_id(*old(queue)) + 1,
{
    queue.outgoing.register(method, (), handler).method
}

/// `lsp_server::Outgoing::complete` takes a request to the client off the pending
/// ones and hands out what was noted of it.
#[verifier::external_body]
pub(crate) fn complete_outgoing(queue: &mut ReqQueue<String, ResponseHandler>, id: &RequestId) -> (r:
    Option<ResponseHandler>)
    ensures
        incoming_requests(*final(queue)) == incoming_requests(*old(queue)),
        outgoing_requests(*final(queue)) == outgoing_requests(*old(queue)).remove(id@),
        next_request_id(*final(queue)) == next_request_id(*old(queue)),
        match r {
            Some(handler) => outgoing_requests(*old(queue)).dom().contains(id@) && handler
                == outgoing_requests(*old(queue))[id@],
            None => !outgoing_requests(*old(queue)).dom().contains(id@),
        },
{
    let id = match id {
        RequestId::Number(n) => lsp_server::RequestId::from(*n),
        RequestId::Text(s) => lsp_server::RequestId::from(s.clone()),
    };
    queue.outgoing.complete(id)
}

/// A set of requests.
#[derive(Debug)]
pub struct RequestSet {
    ids: Vec<RequestId>,
}

/// A request occurs in a list.
spec fn occurs(ids: Seq<RequestId>, id: IdView) -> bool {
    exists|i: int| 0 <= i < ids.len() && (#[trigger] ids[i])@ == id
}

impl View for RequestSet {
    type V = Set<IdView>;

    closed spec fn view(&self) -> Set<IdView> {
        Set::new(|id: IdView| occurs(self.ids@, id))
    }
}

impl Clone for RequestSet {
    fn clone(&self) -> (copy: Self)
        ensures
            copy@ == self@,
    {
        let mut ids: Vec<RequestId> = Vec::with_capacity(self.ids.len());
        let mut i: usize = 0;
        while i < self.ids.len()
            invariant
                i <= self.ids@.len(),
                ids@.len() == i,
                forall|k: int| 0 <= k < i ==> ids@[k] == self.ids@[k],
            decreases self.ids@.len() - i,
        {
            ids.push(self.ids[i].clone());
            i = i + 1;
        }
        assert(ids@ =~= self.ids@);
        RequestSet { ids }
    }
}

impl RequestSet {
    pub fn new() -> (set: Self)
        ensures
            set@ == Set::<IdView>::empty(),
    {
        let set = RequestSet { ids: Vec::new() };
        assert(set@ =~= Set::<IdView>::empty());
        set
    }

    pub fn contains(&self, id: &RequestId) -> (r: bool)
        ensures
            r == self@.contains(id@),
    {
        let mut i: usize = 0;
        while i < self.ids.len()
            invariant
                i <= self.ids@.len(),
                forall|k: int| 0 <= k < i ==> (#[trigger] self.ids@[k])@ != id@,
            decreases self.ids@.len() - i,
        {
            if self.ids[i].same(id) {
                assert(occurs(self.ids@, id@));
                return true;
            }
            i = i + 1;
        }
        false
    }

    pub fn insert(&mut self, id: RequestId)
        ensures
            final(self)@ == old(self)@.insert(id@),
    {
        let ghost before = self.ids@;
        if self.contains(&id) {
            assert(self@ =~= old(self)@.insert(id@));
            return;
        }
        self.ids.push(id);
        proof {
            let after = self.ids@;
            assert(after[before.len() as int]@ == id@);
            assert forall|other: IdView| occurs(after, other) == (other == id@ || occurs(before, other)) by {
                if occurs(before, other) {
                    let k = choose|k: int| 0 <= k < before.len() && (#[trigger] before[k])@ == other;
                    assert(after[k]@ == other);
                }
                if occurs(after, other) && other != id@ {
                    let k = choose|k: int| 0 <= k < after.len() && (#[trigger] after[k])@ == other;
                    assert(before[k]@ == other);
                }
            }
            assert(self@ =~= old(self)@.insert(id@));
        }
    }

    pub fn remove(&mut self, id: &RequestId)
        ensures
            final(self)@ == old(self)@.remove(id@),
    {
        let ghost before = self.ids@;
        let mut kept: Vec<RequestId> = Vec::new();
        std::mem::swap(&mut kept, &mut self.ids);
        let mut i: usize = 0;
        while i < kept.len()
            invariant
                i <= kept@.len(),
                forall|other: IdView| #[trigger]
                    occurs(before, other) ==> other == id@ || occurs(kept@, other),
                forall|k: int|
                    0 <= k < kept@.len() ==> occurs(before, (#[trigger] kept@[k])@),
                forall|k: int| 0 <= k < i ==> (#[trigger] kept@[k])@ != id@,
            decreases kept@.len() - i,
        {
            if kept[i].same(id) {
                let ghost shorter = kept@;
                kept.remove(i);
                proof {
                    assert forall|other: IdView| #[trigger]
                        occurs(before, other) implies other == id@ || occurs(kept@, other) by {
                        if other != id@ {
                            let k = choose|k: int|
                                0 <= k < shorter.len() && (#[trigger] shorter[k])@ == other;
                            if k < i {
                                assert(kept@[k]@ == other);
                            } else {
                                assert(kept@[k - 1]@ == other);
                            }
                        }
                    }
                }
            } else {
                i = i + 1;
            }
        }
        self.ids = kept;
        assert forall|other: IdView| occurs(self.ids@, other) == (other != id@ && occurs(before, other)) by {}
        assert(self@ =~= old(self)@.remove(id@));
    }
}

// ── Laws ─────────────────────────────────────────────────────────────────────
/// Requests are told apart by their numbers and by their texts; a number is never a
/// text.
pub proof fn law_requests_are_told_apart(n: i32, m: i32, s: String, t: String)
    ensures
        RequestId::Number(n)@ == RequestId::Number(m)@ <==> n == m,
        RequestId::Text(s)@ == RequestId::Text(t)@ <==> s@ == t@,
        RequestId::Number(n)@ != RequestId::Text(s)@,
        RequestId::Number(n)@ == IdView::Number(n as int),
{
}

/// Where nothing is pending, no request is, in either direction.
pub proof fn law_nothing_pending(queue: ReqQueue<String, ResponseHandler>)
    ensures
        nothing_pending(queue) <==> incoming_requests(queue).dom() == Set::<IdView>::empty()
            && outgoing_requests(queue).dom() == Set::<IdView>::empty(),
{
    assert(Map::<IdView, Seq<char>>::empty().dom() =~= Set::<IdView>::empty());
    assert(Map::<IdView, ResponseHandler>::empty().dom() =~= Set::<IdView>::empty());
    if incoming_requests(queue).dom() == Set::<IdView>::empty() && outgoing_requests(queue).dom()
        == Set::<IdView>::empty() {
        assert(incoming_requests(queue) =~= Map::<IdView, Seq<char>>::empty());
        assert(outgoing_requests(queue) =~= Map::<IdView, ResponseHandler>::empty());
    }
}

} // verus!
