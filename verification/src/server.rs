//! The state of the server and the rules by which it changes.
use crate::document::Document;
use crate::document_store;
use crate::document_store::DocumentStore;
use crate::file_path;
use crate::file_path::FilePath;
use crate::file_path::PathView;
use crate::paths;
use crate::paths::PathMap;
use crate::paths::PathSet;
use crate::progress;
use crate::progress::Progress;
use crate::progress::ProgressMessages;
use crate::protocol;
use crate::protocol::Message;
use crate::protocol::Notification;
use crate::protocol::Request;
use crate::protocol::Response;
use crate::protocol::ResponseError;
use crate::requests;
use crate::requests::IdView;
use crate::requests::OutgoingRequest;
use crate::requests::RequestId;
use crate::requests::RequestSet;
use crate::requests::ResponseHandler;
use crate::ropes;
use crate::routes;
use crate::routes::NotificationKind;
use crate::routes::RequestKind;
use crate::strings;
use crate::syntax;
use crate::treesitter_utils;
use crate::uris;
use lsp_server::ReqQueue;
use ropey::Rope;
use std::sync::Arc;
use tree_sitter_beancount::tree_sitter::Tree;
use vstd::prelude::*;

verus! {

/// A snapshot of the documents that the server knows.
///
/// The maps are shared: cheap to clone, and unaffected by what the server does
/// later.
pub struct LspServerStateSnapshot<D> {
    pub beancount_data: Arc<PathMap<Arc<D>>>,
    pub forest: Arc<PathMap<Arc<Tree>>>,
    /// Rope content for forest files that are not open.
    pub forest_content: Arc<PathMap<Arc<Rope>>>,
    pub open_docs: Arc<PathMap<Arc<Document>>>,
}

/// Why a document could not be looked up.
#[derive(Debug, Clone)]
pub enum LookupError {
    /// The URI does not name a file.
    NotAFile { uri: String },
    /// The file has no tree.
    NoTree { path: FilePath },
    /// The file is not open.
    NoDocument { path: FilePath },
}

impl LookupError {
    /// What to tell the user.
    pub open spec fn text(&self) -> Seq<char> {
        match self {
            LookupError::NotAFile { uri } => "Failed to convert URI to file path: "@ + uri@,
            LookupError::NoTree { path } => "No parsed tree found for file: "@
                + file_path::path_shown(path.source()),
            LookupError::NoDocument { path } => "Document not found for file: "@
                + file_path::path_shown(path.source()),
        }
    }

    /// What to tell the user.
    pub fn message(&self) -> (text: String)
        ensures
            text@ == self.text(),
    {
        match self {
            LookupError::NotAFile { uri } => {
                strings::join("Failed to convert URI to file path: ", uri.as_str())
            },
            LookupError::NoTree { path } => {
                strings::join("No parsed tree found for file: ", path.display().as_str())
            },
            LookupError::NoDocument { path } => {
                strings::join("Document not found for file: ", path.display().as_str())
            },
        }
    }
}

impl<D> LspServerStateSnapshot<D> {
    /// What a lookup of a path must return: the tree and the document, or else
    /// what is missing, the tree first, with the path as it was spelled.
    pub open spec fn is_lookup(
        &self,
        path: FilePath,
        r: Result<(&Arc<Tree>, &Arc<Document>), LookupError>,
    ) -> bool {
        if !self.forest@.dom().contains(path@) {
            r matches Err(LookupError::NoTree { path: missing }) && file_path::spelled_alike(
                missing,
                path,
            )
        } else if !self.open_docs@.dom().contains(path@) {
            r matches Err(LookupError::NoDocument { path: missing }) && file_path::spelled_alike(
                missing,
                path,
            )
        } else {
            r matches Ok((tree, doc)) && *tree == self.forest@[path@] && *doc
                == self.open_docs@[path@]
        }
    }

    /// The tree and the document of a file.
    pub fn tree_and_document_for_path(&self, path: &FilePath) -> (r: Result<
        (&Arc<Tree>, &Arc<Document>),
        LookupError,
    >)
        ensures
            self.is_lookup(*path, r),
    {
        let tree = match self.forest.get(path) {
            Some(tree) => tree,
            None => return Err(LookupError::NoTree { path: path.clone() }),
        };
        let doc = match self.open_docs.get(path) {
            Some(doc) => doc,
            None => return Err(LookupError::NoDocument { path: path.clone() }),
        };
        Ok((tree, doc))
    }

    /// The tree and the document that a URI names.
    ///
    /// Which path a URI stands for is up to the system: the result is that of the
    /// lookup of the path that the system gave for this URI, or says that it gave
    /// none.
    pub fn tree_and_document_for_uri(&self, uri: &str) -> (r: Result<
        (&Arc<Tree>, &Arc<Document>),
        LookupError,
    >)
        ensures
            exists|path: Option<FilePath>| #[trigger]
                uris::is_path_of(uri@, path) && match path {
                    Some(path) => self.is_lookup(path, r),
                    None => r matches Err(LookupError::NotAFile { uri: refused }) && refused@
                        == uri@,
                },
    {
        match uris::path_of(uri) {
            Some(path) => self.tree_and_document_for_path(&path),
            None => Err(LookupError::NotAFile { uri: uri.to_owned() }),
        }
    }
}

/// The state of the language server: the documents, the requests under way, and
/// the background work in flight. `D` is the semantic data of a file.
pub struct LspServerState<D> {
    /// Owns the open documents, the parsers, the forest and the data.
    pub doc_store: DocumentStore<D>,
    /// The requests that are pending in both directions.
    pub req_queue: ReqQueue<String, ResponseHandler>,
    /// The number of the next request to the client.
    pub next_request: i32,
    /// True if the client requested that we shut down
    pub shutdown_requested: bool,
    /// Files with a semantic-data rebuild in flight. At most one runs per file,
    /// and the document version is checked again when it lands.
    pub extracting: PathSet,
    /// Files with a parse in flight, for the same reason.
    pub parsing: PathSet,
    /// Requests that the client has cancelled, and that are not answered yet.
    pub cancelled: RequestSet,
}

impl<D> LspServerState<D> {
    /// The parsers are ready, and the numbers of requests are in step.
    pub open spec fn wf(self) -> bool {
        &&& self.doc_store.parsers_ready()
        &&& requests::next_request_id(self.req_queue) == self.next_request
    }

    pub fn new() -> (state: Self)
        ensures
            state.wf(),
            state.doc_store.docs_have_parsers(),
            state.doc_store.open_docs@ == Map::<PathView, Arc<Document>>::empty(),
            state.doc_store.forest@ == Map::<PathView, Arc<Tree>>::empty(),
            state.doc_store.beancount_data@ == Map::<PathView, Arc<D>>::empty(),
            state.doc_store.forest_content@ == Map::<PathView, Arc<Rope>>::empty(),
            requests::nothing_pending(state.req_queue),
            state.next_request == 0,
            !state.shutdown_requested,
            state.extracting@ == Set::<PathView>::empty(),
            state.parsing@ == Set::<PathView>::empty(),
            state.cancelled@ == Set::<IdView>::empty(),
    {
        LspServerState {
            doc_store: DocumentStore::new(),
            req_queue: requests::new_queue(),
            next_request: 0,
            shutdown_requested: false,
            extracting: PathSet::new(),
            parsing: PathSet::new(),
            cancelled: RequestSet::new(),
        }
    }

    /// Gives a request to the client a number and notes it, so that the answer can
    /// be handled.
    pub fn send_request(&mut self, method: &str, handler: ResponseHandler) -> (request:
        OutgoingRequest)
        requires
            old(self).wf(),
            old(self).next_request < i32::MAX,
        ensures
            final(self).wf(),
            request.id == old(self).next_request,
            request.method@ == method@,
            final(self).next_request == old(self).next_request + 1,
            requests::outgoing_requests(final(self).req_queue) == requests::outgoing_requests(
                old(self).req_queue,
            ).insert(IdView::Number(request.id as int), handler),
            requests::incoming_requests(final(self).req_queue) == requests::incoming_requests(
                old(self).req_queue,
            ),
            final(self).doc_store == old(self).doc_store,
            final(self).shutdown_requested == old(self).shutdown_requested,
            final(self).extracting == old(self).extracting,
            final(self).parsing == old(self).parsing,
            final(self).cancelled == old(self).cancelled,
    {
        let id = self.next_request;
        let method = requests::register_outgoing(&mut self.req_queue, method.to_owned(), handler);
        self.next_request = id + 1;
        OutgoingRequest { id, method }
    }

    // ── Background work ──────────────────────────────────────────────────────
    /// A parse of a file as it is now.
    pub open spec fn is_parse_job(self, path: PathView, job: ParseJob) -> bool {
        &&& job.path@ == path
        &&& self.doc_store.open_docs@.dom().contains(path)
        &&& job.text@ == self.doc_store.open_docs@[path].text()
        &&& job.version == self.doc_store.open_docs@[path].version
    }

    /// Parse a document in the background, at most one parse per file.
    ///
    /// A full parse of a multi-megabyte ledger takes seconds; doing it in the
    /// notification handler blocks every buffer and every request.
    pub fn schedule_parse(&mut self, uri: &FilePath) -> (job: Option<ParseJob>)
        ensures
            match job {
                Some(job) => {
                    &&& !old(self).parsing@.contains(uri@)
                    &&& old(self).is_parse_job(uri@, job)
                    &&& final(self).parsing@ == old(self).parsing@.insert(uri@)
                },
                None => {
                    &&& old(self).parsing@.contains(uri@)
                        || !old(self).doc_store.open_docs@.dom().contains(uri@)
                    &&& final(self).parsing@ == old(self).parsing@
                },
            },
            final(self).doc_store == old(self).doc_store,
            final(self).req_queue == old(self).req_queue,
            final(self).next_request == old(self).next_request,
            final(self).shutdown_requested == old(self).shutdown_requested,
            final(self).extracting == old(self).extracting,
            final(self).cancelled == old(self).cancelled,
    {
        if self.parsing.contains(uri) {
            return None;
        }
        let (text, version) = match self.doc_store.parse_inputs(uri) {
            Some(inputs) => inputs,
            None => return None,
        };
        self.parsing.insert(uri.clone());
        Some(ParseJob { path: uri.clone(), text, version })
    }

    /// A rebuild of the semantic data of a file as it is now.
    pub open spec fn is_extraction_job(self, path: PathView, job: ExtractionJob) -> bool {
        &&& job.path@ == path
        &&& self.doc_store.forest@.dom().contains(path)
        &&& job.tree == self.doc_store.forest@[path]
        &&& self.doc_store.content_of(path) == Some(ropes::rope_text(*job.content))
        &&& Some(job.version) == self.extraction_version(path)
    }

    /// The version that semantic data would be rebuilt at, where it can be.
    pub open spec fn extraction_version(self, path: PathView) -> Option<i32> {
        if !self.doc_store.forest@.dom().contains(path) || self.doc_store.content_of(path) is None {
            None
        } else if self.doc_store.open_docs@.dom().contains(path) {
            Some(self.doc_store.open_docs@[path].version)
        } else {
            Some(document_store::NO_VERSION)
        }
    }

    /// Rebuild a file's semantic data in the background, at most one rebuild per
    /// file.
    pub fn schedule_extraction(&mut self, uri: &FilePath) -> (job: Option<ExtractionJob>)
        ensures
            match job {
                Some(job) => {
                    &&& !old(self).extracting@.contains(uri@)
                    &&& old(self).is_extraction_job(uri@, job)
                    &&& final(self).extracting@ == old(self).extracting@.insert(uri@)
                },
                None => {
                    &&& old(self).extracting@.contains(uri@) || old(self).extraction_version(
                        uri@,
                    ) is None
                    &&& final(self).extracting@ == old(self).extracting@
                },
            },
            final(self).doc_store == old(self).doc_store,
            final(self).req_queue == old(self).req_queue,
            final(self).next_request == old(self).next_request,
            final(self).shutdown_requested == old(self).shutdown_requested,
            final(self).parsing == old(self).parsing,
            final(self).cancelled == old(self).cancelled,
    {
        if self.extracting.contains(uri) {
            return None;
        }
        let (tree, content, version) = match self.doc_store.extraction_inputs(uri) {
            Some(inputs) => inputs,
            None => return None,
        };
        self.extracting.insert(uri.clone());
        Some(ExtractionJob { path: uri.clone(), tree, content, version })
    }

    /// A file has no semantic data, nothing is under way to get it, and it can be
    /// got.
    pub open spec fn wants_extraction(self, path: PathView) -> bool {
        &&& self.doc_store.forest@.dom().contains(path)
        &&& !self.doc_store.beancount_data@.dom().contains(path)
        &&& !self.extracting@.contains(path)
        &&& self.extraction_version(path) is Some
    }

    /// Schedule rebuilds for every forest file that has no semantic data yet.
    pub fn schedule_missing_extractions(&mut self) -> (jobs: Vec<ExtractionJob>)
        ensures
            forall|i: int|
                0 <= i < jobs@.len() ==> {
                    &&& old(self).wants_extraction((#[trigger] jobs@[i]).path@)
                    &&& old(self).is_extraction_job(jobs@[i].path@, jobs@[i])
                },
            forall|path: PathView| #[trigger]
                old(self).wants_extraction(path) ==> exists|i: int|
                    0 <= i < jobs@.len() && (#[trigger] jobs@[i]).path@ == path,
            forall|i: int, j: int|
                0 <= i < j < jobs@.len() ==> (#[trigger] jobs@[i]).path@ != (
                #[trigger] jobs@[j]).path@,
            forall|path: PathView| #[trigger]
                final(self).extracting@.contains(path) <==> old(self).extracting@.contains(path)
                    || old(self).wants_extraction(path),
            final(self).doc_store == old(self).doc_store,
            final(self).req_queue == old(self).req_queue,
            final(self).next_request == old(self).next_request,
            final(self).shutdown_requested == old(self).shutdown_requested,
            final(self).parsing == old(self).parsing,
            final(self).cancelled == old(self).cancelled,
    {
        let files = self.doc_store.files_missing_data();
        let ghost missing = self.doc_store.forest@.dom().difference(
            self.doc_store.beancount_data@.dom(),
        );
        let mut jobs: Vec<ExtractionJob> = Vec::new();
        let mut n: usize = 0;
        while n < files.len()
            invariant
                n <= files@.len(),
                paths::lists(files@, missing),
                missing == old(self).doc_store.forest@.dom().difference(
                    old(self).doc_store.beancount_data@.dom(),
                ),
                self.doc_store == old(self).doc_store,
                self.req_queue == old(self).req_queue,
                self.next_request == old(self).next_request,
                self.shutdown_requested == old(self).shutdown_requested,
                self.parsing == old(self).parsing,
                self.cancelled == old(self).cancelled,
                forall|path: PathView| #[trigger]
                    self.extracting@.contains(path) <==> old(self).extracting@.contains(path) || (
                    old(self).wants_extraction(path) && listed(files@, n as int, path)),
                forall|i: int|
                    0 <= i < jobs@.len() ==> {
                        &&& old(self).wants_extraction((#[trigger] jobs@[i]).path@)
                        &&& old(self).is_extraction_job(jobs@[i].path@, jobs@[i])
                        &&& listed(files@, n as int, jobs@[i].path@)
                    },
                forall|path: PathView|
                    old(self).wants_extraction(path) && #[trigger] listed(files@, n as int, path)
                        ==> exists|i: int|
                        0 <= i < jobs@.len() && (#[trigger] jobs@[i]).path@ == path,
                forall|i: int, j: int|
                    0 <= i < j < jobs@.len() ==> (#[trigger] jobs@[i]).path@ != (
                    #[trigger] jobs@[j]).path@,
            decreases files@.len() - n,
        {
            let file = &files[n];
            let ghost before = jobs@;
            proof {
                assert forall|path: PathView| #[trigger] listed(files@, n + 1, path) <==> listed(
                    files@,
                    n as int,
                    path,
                ) || path == file@ by {
                    if path == file@ {
                        assert(files@[n as int]@ == path);
                    }
                    if listed(files@, n as int, path) {
                        let k = choose|k: int| 0 <= k < n && (#[trigger] files@[k])@ == path;
                        assert(files@[k]@ == path);
                    }
                }
                assert(!listed(files@, n as int, file@)) by {
                    if listed(files@, n as int, file@) {
                        let k = choose|k: int| 0 <= k < n && (#[trigger] files@[k])@ == file@;
                        assert(files@[k]@ != files@[n as int]@);
                    }
                }
                assert(missing.contains(files@[n as int]@));
            }
            if let Some(job) = self.schedule_extraction(file) {
                jobs.push(job);
            }
            proof {
                assert forall|path: PathView|
                    old(self).wants_extraction(path) && #[trigger] listed(
                        files@,
                        n + 1,
                        path,
                    ) implies exists|i: int|
                    0 <= i < jobs@.len() && (#[trigger] jobs@[i]).path@ == path by {
                    if path == file@ {
                        assert(jobs@[before.len() as int].path@ == path);
                    } else {
                        let i = choose|i: int|
                            0 <= i < before.len() && (#[trigger] before[i]).path@ == path;
                        assert(jobs@[i].path@ == path);
                    }
                }
            }
            n = n + 1;
        }
        proof {
            assert forall|path: PathView| #[trigger] missing.contains(path) implies listed(
                files@,
                files@.len() as int,
                path,
            ) by {
                let k = choose|k: int| 0 <= k < files@.len() && (#[trigger] files@[k])@ == path;
                assert(files@[k]@ == path);
            }
            assert forall|path: PathView| #[trigger] old(self).wants_extraction(path) implies listed(
                files@,
                files@.len() as int,
                path,
            ) by {
                assert(missing.contains(path));
            }
        }
        jobs
    }

    // ── Requests of the client ───────────────────────────────────────────────
    /// Nothing but the requests under way differs between two states.
    pub open spec fn same_work(self, after: Self) -> bool {
        &&& after.doc_store == self.doc_store
        &&& after.extracting == self.extracting
        &&& after.parsing == self.parsing
    }

    /// What answering a request does to the requests under way: the request is no
    /// longer pending, nor cancelled.
    pub open spec fn answered(self, after: Self, id: IdView) -> bool {
        &&& requests::incoming_requests(after.req_queue) == requests::incoming_requests(
            self.req_queue,
        ).remove(id)
        &&& requests::outgoing_requests(after.req_queue) == requests::outgoing_requests(
            self.req_queue,
        )
        &&& after.next_request == self.next_request
        &&& after.cancelled@ == self.cancelled@.remove(id)
        &&& after.wf() == self.wf()
    }

    /// Answer a request of the client. Hands back the response if it is to be sent:
    /// a response to a request that is not pending is dropped.
    pub fn respond<P>(&mut self, response: Response<P>) -> (r: Option<Response<P>>)
        ensures
            old(self).answered(*final(self), response.id@),
            old(self).same_work(*final(self)),
            final(self).shutdown_requested == old(self).shutdown_requested,
            r == if requests::incoming_requests(old(self).req_queue).dom().contains(response.id@) {
                Some(response)
            } else {
                None
            },
    {
        self.cancelled.remove(&response.id);
        match requests::complete_incoming(&mut self.req_queue, &response.id) {
            Some(method) => Some(response),
            None => None,
        }
    }

    /// Note a request of the client as pending.
    fn register_request<P>(&mut self, request: &Request<P>)
        ensures
            requests::incoming_requests(final(self).req_queue) == requests::incoming_requests(
                old(self).req_queue,
            ).insert(request.id@, request.method@),
            requests::outgoing_requests(final(self).req_queue) == requests::outgoing_requests(
                old(self).req_queue,
            ),
            requests::next_request_id(final(self).req_queue) == requests::next_request_id(
                old(self).req_queue,
            ),
            old(self).same_work(*final(self)),
            final(self).next_request == old(self).next_request,
            final(self).shutdown_requested == old(self).shutdown_requested,
            final(self).cancelled == old(self).cancelled,
    {
        requests::register_incoming(&mut self.req_queue, &request.id, request.method.clone());
    }

    /// The answer to a request that came after the shutdown was requested.
    pub open spec fn is_refusal<P>(id: RequestId, response: Response<P>) -> bool {
        &&& response.id@ == id@
        &&& response.result is None
        &&& response.error matches Some(error) && error.code == protocol::INVALID_REQUEST
            && error.message@ == "shutdown was requested"@ && error.data is None
    }

    /// What a request of the client leads to.
    ///
    /// Once the shutdown was requested, every request is refused at once and
    /// nothing of it stays pending. Until then it becomes pending and goes to the
    /// part of the server that its method names; a request for the shutdown itself
    /// is noted.
    pub open spec fn request_handled<P>(
        self,
        after: Self,
        request: Request<P>,
        action: RequestAction<P>,
    ) -> bool {
        if self.shutdown_requested {
            &&& action matches RequestAction::Refuse(response) && Self::is_refusal(
                request.id,
                response,
            )
            &&& self.answered(after, request.id@)
            &&& after.shutdown_requested
        } else {
            &&& match action {
                RequestAction::Refuse(response) => false,
                RequestAction::Handle(kind, handled) => {
                    &&& handled == request
                    &&& request.method@ == kind.name()
                    &&& after.shutdown_requested == (kind == RequestKind::Shutdown)
                },
                RequestAction::Unknown(unknown) => {
                    &&& unknown == request
                    &&& forall|kind: RequestKind| request.method@ != #[trigger] kind.name()
                    &&& !after.shutdown_requested
                },
            }
            &&& requests::incoming_requests(after.req_queue) == requests::incoming_requests(
                self.req_queue,
            ).insert(request.id@, request.method@)
            &&& requests::outgoing_requests(after.req_queue) == requests::outgoing_requests(
                self.req_queue,
            )
            &&& after.next_request == self.next_request
            &&& after.cancelled == self.cancelled
            &&& after.wf() == self.wf()
        }
    }

    /// Handles a request of the client.
    pub fn on_request<P>(&mut self, request: Request<P>) -> (action: RequestAction<P>)
        ensures
            old(self).request_handled(*final(self), request, action),
            old(self).same_work(*final(self)),
    {
        self.register_request(&request);
        if self.shutdown_requested {
            let error = ResponseError {
                code: protocol::INVALID_REQUEST,
                message: "shutdown was requested".to_owned(),
                data: None,
            };
            let response = Response { id: request.id, result: None, error: Some(error) };
            proof {
                assert(requests::incoming_requests(self.req_queue).remove(response.id@)
                    =~= requests::incoming_requests(old(self).req_queue).remove(response.id@));
            }
            return RequestAction::Refuse(self.respond(response).unwrap());
        }
        match routes::route_request(request.method.as_str()) {
            Some(kind) => {
                if kind == RequestKind::Shutdown {
                    self.shutdown_requested = true;
                }
                RequestAction::Handle(kind, request)
            },
            None => RequestAction::Unknown(request),
        }
    }

    /// Handles an answer of the client: hands out what to do with it. An answer to a
    /// request that is not pending, or no longer, is dropped.
    pub fn complete_request<P>(&mut self, response: Response<P>) -> (r: Option<
        (ResponseHandler, Response<P>),
    >)
        ensures
            ({
                let pending = requests::outgoing_requests(old(self).req_queue);
                &&& r == if pending.dom().contains(response.id@) {
                    Some((pending[response.id@], response))
                } else {
                    None
                }
                &&& requests::outgoing_requests(final(self).req_queue) == pending.remove(
                    response.id@,
                )
            }),
            requests::incoming_requests(final(self).req_queue) == requests::incoming_requests(
                old(self).req_queue,
            ),
            old(self).same_work(*final(self)),
            final(self).next_request == old(self).next_request,
            final(self).shutdown_requested == old(self).shutdown_requested,
            final(self).cancelled == old(self).cancelled,
            final(self).wf() == old(self).wf(),
    {
        match requests::complete_outgoing(&mut self.req_queue, &response.id) {
            Some(handler) => Some((handler, response)),
            None => None,
        }
    }

    /// Handles a notification of the client: hands out the kind of those that the
    /// server acts on. Others are dropped.
    pub fn on_notification<P>(&self, notification: Notification<P>) -> (r: Option<
        (NotificationKind, Notification<P>),
    >)
        ensures
            match r {
                Some((kind, handled)) => handled == notification && notification.method@
                    == kind.name(),
                None => forall|kind: NotificationKind|
                    notification.method@ != #[trigger] kind.name(),
            },
    {
        match routes::route_notification(notification.method.as_str()) {
            Some(kind) => Some((kind, notification)),
            None => None,
        }
    }

    /// Note a cancellation so that a queued request can be skipped.
    ///
    /// The request still gets a response, which the protocol requires, but it is an
    /// error rather than the result of work nobody is waiting for.
    pub fn cancel_request(&mut self, id: RequestId)
        ensures
            final(self).cancelled@ == old(self).cancelled@.insert(id@),
            old(self).same_work(*final(self)),
            final(self).req_queue == old(self).req_queue,
            final(self).next_request == old(self).next_request,
            final(self).shutdown_requested == old(self).shutdown_requested,
    {
        self.cancelled.insert(id);
    }

    // ── Outcomes of background work ──────────────────────────────────────────
    /// Nothing but the documents and the work in flight differs between two
    /// states.
    pub open spec fn same_requests(self, after: Self) -> bool {
        &&& after.req_queue == self.req_queue
        &&& after.next_request == self.next_request
        &&& after.shutdown_requested == self.shutdown_requested
        &&& after.cancelled == self.cancelled
    }

    /// A document is open at a version.
    pub open spec fn is_open_at(self, path: PathView, version: i32) -> bool {
        self.doc_store.open_docs@.dom().contains(path) && self.doc_store.open_docs@[path].version
            == version
    }

    /// What the outcome of a parse does.
    ///
    /// If the document is still at the version that was parsed, its tree is
    /// installed and a rebuild of its data is scheduled, unless one is in flight.
    /// If it moved on, it is parsed again. The parse that landed is no longer in
    /// flight.
    pub open spec fn parse_landed(
        self,
        after: Self,
        path: PathView,
        version: i32,
        tree: Option<Arc<Tree>>,
        work: Option<Work>,
    ) -> bool {
        let installed = tree is Some && self.is_open_at(path, version);
        let moved_on = self.doc_store.open_docs@.dom().contains(path) && !self.is_open_at(
            path,
            version,
        );
        &&& after.doc_store.forest@ == if installed {
            self.doc_store.forest@.insert(path, tree.unwrap())
        } else {
            self.doc_store.forest@
        }
        &&& after.doc_store.open_docs == self.doc_store.open_docs
        &&& after.doc_store.parsers == self.doc_store.parsers
        &&& after.doc_store.beancount_data == self.doc_store.beancount_data
        &&& after.doc_store.forest_content == self.doc_store.forest_content
        &&& match work {
            Some(Work::Parse(job)) => moved_on && self.is_parse_job(path, job),
            Some(Work::Extract(job)) => installed && !self.extracting@.contains(path)
                && after.is_extraction_job(path, job),
            None => !moved_on && (!installed || self.extracting@.contains(path)),
        }
        &&& after.parsing@ == if moved_on {
            self.parsing@.insert(path)
        } else {
            self.parsing@.remove(path)
        }
        &&& after.extracting@ == if installed {
            self.extracting@.insert(path)
        } else {
            self.extracting@
        }
    }

    /// Take in the outcome of a parse.
    pub fn on_parsed(&mut self, path: &FilePath, version: i32, tree: Option<Arc<Tree>>) -> (work: Option<
        Work,
    >)
        ensures
            old(self).parse_landed(*final(self), path@, version, tree, work),
            old(self).same_requests(*final(self)),
    {
        self.parsing.remove(path);
        let mut work: Option<Work> = None;
        if let Some(tree) = tree {
            if self.doc_store.install_tree(path, tree, version) {
                // A tree without semantic data is only half useful.
                work = match self.schedule_extraction(path) {
                    Some(job) => Some(Work::Extract(job)),
                    None => None,
                };
                proof {
                    assert(self.extracting@ =~= old(self).extracting@.insert(path@));
                }
            }
        }
        // The document moved on while it was being parsed.
        let moved_on = match self.doc_store.parse_inputs(path) {
            Some((text, current)) => current != version,
            None => false,
        };
        if moved_on {
            work = match self.schedule_parse(path) {
                Some(job) => Some(Work::Parse(job)),
                None => None,
            };
            proof {
                assert(self.parsing@ =~= old(self).parsing@.insert(path@));
            }
        }
        work
    }

    /// What rebuilt semantic data does.
    ///
    /// The data is installed if it is still wanted. If the document moved on while
    /// it was being built, all those edits are coalesced into one fresh rebuild.
    pub open spec fn data_landed(
        self,
        after: Self,
        path: PathView,
        version: i32,
        data: Arc<D>,
        job: Option<ExtractionJob>,
    ) -> bool {
        let moved_on = self.extraction_version(path) matches Some(current) && current != version;
        &&& after.doc_store.beancount_data@ == if self.doc_store.accepts_data(path, version) {
            self.doc_store.beancount_data@.insert(path, data)
        } else {
            self.doc_store.beancount_data@
        }
        &&& after.doc_store.open_docs == self.doc_store.open_docs
        &&& after.doc_store.parsers == self.doc_store.parsers
        &&& after.doc_store.forest == self.doc_store.forest
        &&& after.doc_store.forest_content == self.doc_store.forest_content
        &&& after.parsing == self.parsing
        &&& match job {
            Some(job) => moved_on && after.is_extraction_job(path, job),
            None => !moved_on,
        }
        &&& after.extracting@ == if moved_on {
            self.extracting@.insert(path)
        } else {
            self.extracting@.remove(path)
        }
    }

    /// Take in rebuilt semantic data.
    pub fn on_semantic_data(&mut self, path: &FilePath, version: i32, data: Arc<D>) -> (job: Option<
        ExtractionJob,
    >)
        ensures
            old(self).data_landed(*final(self), path@, version, data, job),
            old(self).same_requests(*final(self)),
            old(self).extraction_version(path@) == Some(version)
                ==> final(self).doc_store.beancount_data@ == old(
                self,
            ).doc_store.beancount_data@.insert(path@, data),
    {
        self.extracting.remove(path);
        self.doc_store.install_beancount_data(path, data, version);
        let moved_on = match self.doc_store.extraction_inputs(path) {
            Some((tree, content, current)) => current != version,
            None => false,
        };
        if !moved_on {
            return None;
        }
        let job = self.schedule_extraction(path);
        proof {
            assert(self.extracting@ =~= old(self).extracting@.insert(path@));
        }
        job
    }

    /// What a file of the forest, parsed from disk, does: it goes in unless the
    /// file is open by now, in which case the open buffer is the truth.
    pub open spec fn forest_file_landed(self, after: Self, file: ForestFile<D>) -> bool {
        let path = file.path@;
        if self.doc_store.open_docs@.dom().contains(path) {
            after.doc_store == self.doc_store
        } else {
            &&& after.doc_store.forest@ == self.doc_store.forest@.insert(path, file.tree)
            &&& after.doc_store.beancount_data@ == self.doc_store.beancount_data@.insert(
                path,
                file.data,
            )
            &&& after.doc_store.forest_content@ == self.doc_store.forest_content@.insert(
                path,
                file.content,
            )
            &&& after.doc_store.open_docs == self.doc_store.open_docs
            &&& after.doc_store.parsers == self.doc_store.parsers
        }
    }

    /// Take in a file of the forest.
    fn on_forest_file(&mut self, file: ForestFile<D>)
        ensures
            old(self).forest_file_landed(*final(self), file),
            old(self).same_requests(*final(self)),
            final(self).extracting == old(self).extracting,
            final(self).parsing == old(self).parsing,
            old(self).wf() ==> final(self).wf(),
    {
        if !self.doc_store.has_open_doc(&file.path) {
            self.doc_store.insert_tree_and_data(file.path, file.tree, file.data, file.content);
        }
    }

    /// What a report on background work leads to: the client is told how far the
    /// work has come, in a token of its own for each run, and a file that comes
    /// with the report goes into the forest.
    pub open spec fn progress_handled(
        self,
        after: Self,
        task: ProgressMsg<D>,
        messages: ProgressMessages,
    ) -> bool {
        match task {
            ProgressMsg::BeanCheck { total, done, checker_name, run_id } => {
                let state = task.state();
                &&& self.progress_reported(after, state)
                &&& progress::is_progress(
                    messages,
                    self.next_request as int,
                    "bean check ("@ + checker_name@ + ")"@,
                    state,
                    Some(steps_done(done as nat, total as nat)),
                    Some((done, total)),
                    Some("/"@ + strings::digits(run_id as nat)),
                )
            },
            ProgressMsg::ForestInit { total, done, data } => {
                let state = task.state();
                &&& match data {
                    Some(file) => self.forest_file_landed(after, file),
                    None => after.doc_store == self.doc_store,
                }
                &&& (LspServerState { doc_store: after.doc_store, ..self }).progress_reported(
                    after,
                    state,
                )
                &&& progress::is_progress(
                    messages,
                    self.next_request as int,
                    "generating forest"@,
                    state,
                    Some(steps_done(done as nat, total as nat)),
                    Some((done, total)),
                    None,
                )
            },
        }
    }

    /// Handles a report on background work.
    pub fn handle_progress_task(&mut self, task: ProgressMsg<D>) -> (messages: ProgressMessages)
        requires
            old(self).wf(),
            old(self).can_report(task.state()),
        ensures
            old(self).progress_handled(*final(self), task, messages),
            final(self).wf(),
    {
        match task {
            ProgressMsg::BeanCheck { total, done, checker_name, run_id } => {
                let mut title = strings::join("bean check (", checker_name.as_str());
                title.append(")");
                // A token suffix of its own for each run keeps overlapping runs
                // apart.
                let suffix = strings::join("/", strings::decimal(run_id).as_str());
                self.report_progress(
                    title.as_str(),
                    Progress::of(done, total),
                    Some(steps_message(done, total)),
                    Some((done, total)),
                    Some(suffix.as_str()),
                )
            },
            ProgressMsg::ForestInit { total, done, data } => {
                if let Some(file) = data {
                    self.on_forest_file(file);
                }
                self.report_progress(
                    "generating forest",
                    Progress::of(done, total),
                    Some(steps_message(done, total)),
                    Some((done, total)),
                    None,
                )
            },
        }
    }

    /// What a finished piece of background work leads to.
    pub open spec fn task_handled<P, G>(
        self,
        after: Self,
        task: Task<P, G, D>,
        action: Option<Action<P, G>>,
    ) -> bool {
        match task {
            Task::Response(response) => {
                &&& self.answered(after, response.id@)
                &&& self.same_work(after)
                &&& after.shutdown_requested == self.shutdown_requested
                &&& if requests::incoming_requests(self.req_queue).dom().contains(response.id@) {
                    action == Some(Action::<P, G>::Respond(response))
                } else {
                    action is None
                }
            },
            Task::Progress(report) => {
                action matches Some(Action::Progress(messages)) && self.progress_handled(
                    after,
                    report,
                    messages,
                )
            },
            Task::Diagnostics(diagnostics) => {
                &&& after == self
                &&& action == Some(Action::<P, G>::PublishDiagnostics(diagnostics))
            },
            Task::Parsed { path, version, tree } => {
                &&& self.same_requests(after)
                &&& match action {
                    Some(Action::Work(work)) => self.parse_landed(
                        after,
                        path@,
                        version,
                        tree,
                        Some(work),
                    ),
                    None => self.parse_landed(after, path@, version, tree, None),
                    _ => false,
                }
            },
            Task::SemanticData { path, version, data } => {
                &&& self.same_requests(after)
                &&& match action {
                    Some(Action::Work(Work::Extract(job))) => self.data_landed(
                        after,
                        path@,
                        version,
                        data,
                        Some(job),
                    ),
                    None => self.data_landed(after, path@, version, data, None),
                    _ => false,
                }
            },
        }
    }

    /// Handles a finished piece of background work.
    pub fn handle_task<P, G>(&mut self, task: Task<P, G, D>) -> (action: Option<Action<P, G>>)
        requires
            old(self).wf(),
            task matches Task::Progress(report) ==> old(self).can_report(report.state()),
        ensures
            old(self).task_handled(*final(self), task, action),
            final(self).wf(),
    {
        match task {
            Task::Response(response) => match self.respond(response) {
                Some(response) => Some(Action::Respond(response)),
                None => None,
            },
            Task::Progress(report) => Some(Action::Progress(self.handle_progress_task(report))),
            Task::Diagnostics(diagnostics) => Some(Action::PublishDiagnostics(diagnostics)),
            Task::Parsed { path, version, tree } => {
                match self.on_parsed(&path, version, tree) {
                    Some(work) => Some(Action::Work(work)),
                    None => None,
                }
            },
            Task::SemanticData { path, version, data } => {
                match self.on_semantic_data(&path, version, data) {
                    Some(job) => Some(Action::Work(Work::Extract(job))),
                    None => None,
                }
            },
        }
    }

    /// What an event leads to.
    pub open spec fn event_handled<P, G>(
        self,
        after: Self,
        event: Event<P, G, D>,
        action: Option<Action<P, G>>,
    ) -> bool {
        match event {
            Event::Task(task) => self.task_handled(after, task, action),
            Event::Lsp(Message::Request(request)) => {
                &&& self.same_work(after)
                &&& action matches Some(Action::Request(request_action)) && self.request_handled(
                    after,
                    request,
                    request_action,
                )
            },
            Event::Lsp(Message::Response(response)) => {
                let pending = requests::outgoing_requests(self.req_queue);
                &&& self.same_work(after)
                &&& action == if pending.dom().contains(response.id@) {
                    Some(Action::<P, G>::Response(pending[response.id@], response))
                } else {
                    None
                }
                &&& requests::outgoing_requests(after.req_queue) == pending.remove(response.id@)
                &&& requests::incoming_requests(after.req_queue) == requests::incoming_requests(
                    self.req_queue,
                )
                &&& after.next_request == self.next_request
                &&& after.shutdown_requested == self.shutdown_requested
                &&& after.cancelled == self.cancelled
            },
            Event::Lsp(Message::Notification(notification)) => {
                &&& after == self
                &&& match action {
                    Some(Action::Notification(kind, handled)) => handled == notification
                        && notification.method@ == kind.name(),
                    None => forall|kind: NotificationKind|
                        notification.method@ != #[trigger] kind.name(),
                    _ => false,
                }
            },
        }
    }

    /// Handles an event: a message of the client, or a finished piece of background
    /// work. Hands out what is to be done.
    pub fn handle_event<P, G>(&mut self, event: Event<P, G, D>) -> (action: Option<Action<P, G>>)
        requires
            old(self).wf(),
            event matches Event::Task(Task::Progress(report)) ==> old(self).can_report(
                report.state(),
            ),
        ensures
            old(self).event_handled(*final(self), event, action),
            final(self).wf(),
    {
        match event {
            Event::Task(task) => self.handle_task(task),
            Event::Lsp(Message::Request(request)) => Some(Action::Request(self.on_request(request))),
            Event::Lsp(Message::Response(response)) => match self.complete_request(response) {
                Some((handler, response)) => Some(Action::Response(handler, response)),
                None => None,
            },
            Event::Lsp(Message::Notification(notification)) => {
                match self.on_notification(notification) {
                    Some((kind, notification)) => Some(Action::Notification(kind, notification)),
                    None => None,
                }
            },
        }
    }

    // ── Start-up ─────────────────────────────────────────────────────────────
    /// Asks the client to report changes of ledger files made outside the editor.
    pub fn register_file_watchers(&mut self) -> (registration: FileWatcherRegistration)
        requires
            old(self).wf(),
            old(self).next_request < i32::MAX,
        ensures
            final(self).wf(),
            registration.request.id == old(self).next_request,
            registration.request.method@ == REGISTER_CAPABILITY@,
            registration.id@ == "beancount-file-watcher"@,
            registration.method@ == "workspace/didChangeWatchedFiles"@,
            registration.glob_pattern@ == "**/*.{bean,beancount,include}"@,
            registration.create && registration.change && registration.delete,
            requests::outgoing_requests(final(self).req_queue) == requests::outgoing_requests(
                old(self).req_queue,
            ).insert(
                IdView::Number(old(self).next_request as int),
                ResponseHandler::FileWatchers,
            ),
            requests::incoming_requests(final(self).req_queue) == requests::incoming_requests(
                old(self).req_queue,
            ),
            final(self).next_request == old(self).next_request + 1,
            old(self).same_work(*final(self)),
            final(self).shutdown_requested == old(self).shutdown_requested,
            final(self).cancelled == old(self).cancelled,
    {
        let request = self.send_request(REGISTER_CAPABILITY, ResponseHandler::FileWatchers);
        FileWatcherRegistration {
            request,
            id: "beancount-file-watcher".to_owned(),
            method: "workspace/didChangeWatchedFiles".to_owned(),
            // Include directives do not look at extensions, so the watchers cover
            // more than the two canonical ones.
            glob_pattern: "**/*.{bean,beancount,include}".to_owned(),
            create: true,
            change: true,
            delete: true,
        }
    }

    /// Before a checker is looked for: the client is told, unless one is known
    /// already.
    pub fn ensure_checker(&mut self, known: bool) -> (messages: Option<ProgressMessages>)
        requires
            old(self).wf(),
            known || old(self).next_request < i32::MAX,
        ensures
            final(self).wf(),
            if known {
                messages is None && *final(self) == *old(self)
            } else {
                &&& old(self).progress_reported(*final(self), Progress::Begin)
                &&& messages matches Some(messages) && progress::is_progress(
                    messages,
                    old(self).next_request as int,
                    "checker auto"@,
                    Progress::Begin,
                    Some("discovering available checkers"@),
                    None,
                    None,
                )
            },
    {
        if known {
            return None;
        }
        Some(
            self.report_progress(
                "checker auto",
                Progress::Begin,
                Some("discovering available checkers".to_owned()),
                None,
                None,
            ),
        )
    }

    /// After a checker was looked for: the client is told which one was found.
    pub fn checker_found(&mut self, name: Option<&str>) -> (messages: ProgressMessages)
        requires
            old(self).wf(),
        ensures
            old(self).progress_reported(*final(self), Progress::End),
            progress::is_progress(
                messages,
                old(self).next_request as int,
                "checker auto"@,
                Progress::End,
                Some(
                    match name {
                        Some(name) => "using "@ + name@,
                        None => "no checker available"@,
                    },
                ),
                None,
                None,
            ),
    {
        let message = match name {
            Some(name) => strings::join("using ", name),
            None => "no checker available".to_owned(),
        };
        self.report_progress("checker auto", Progress::End, Some(message), None, None)
    }

    /// Share the documents as they are now.
    pub fn snapshot(&self) -> (snapshot: LspServerStateSnapshot<D>)
        ensures
            snapshot.beancount_data == self.doc_store.beancount_data,
            snapshot.forest == self.doc_store.forest,
            snapshot.forest_content == self.doc_store.forest_content,
            snapshot.open_docs == self.doc_store.open_docs,
    {
        let maps = self.doc_store.snapshot_maps();
        LspServerStateSnapshot {
            beancount_data: maps.beancount_data,
            forest: maps.forest,
            forest_content: maps.forest_content,
            open_docs: maps.open_docs,
        }
    }
}

/// A path is among the first `n` of a list.
spec fn listed(files: Seq<FilePath>, n: int, path: PathView) -> bool {
    exists|k: int| 0 <= k < n && (#[trigger] files[k])@ == path
}

/// What to do with a request of the client.
#[derive(Debug)]
pub enum RequestAction<P> {
    /// Send this refusal.
    Refuse(Response<P>),
    /// Hand the request to the part of the server that answers its kind.
    Handle(RequestKind, Request<P>),
    /// Tell the client that the method is not known.
    Unknown(Request<P>),
}

/// How many of how many steps are done, in words.
pub open spec fn steps_done(done: nat, total: nat) -> Seq<char> {
    strings::digits(done) + "/"@ + strings::digits(total)
}

/// How many of how many steps are done, in words.
fn steps_message(done: usize, total: usize) -> (message: String)
    ensures
        message@ == steps_done(done as nat, total as nat),
{
    let mut message = strings::decimal(done as u64);
    message.append("/");
    message.append(strings::decimal(total as u64).as_str());
    message
}

/// The method of the request that registers file watchers.
pub const REGISTER_CAPABILITY: &'static str = "client/registerCapability";

/// A request to the client to report changes of files.
#[derive(Debug)]
pub struct FileWatcherRegistration {
    pub request: OutgoingRequest,
    /// What names the registration.
    pub id: String,
    /// The notification that the client is to send.
    pub method: String,
    /// The files to watch.
    pub glob_pattern: String,
    /// Which changes to report.
    pub create: bool,
    pub change: bool,
    pub delete: bool,
}

/// What the configuration says of the journal to load.
#[derive(Debug)]
pub enum JournalRoot {
    /// Nothing.
    Unset,
    /// A file that does not exist.
    Missing { path: String },
    /// A file that exists.
    Present { path: String },
}

/// What to do about the forest at the start.
#[derive(Debug)]
pub enum ForestStart {
    /// Go on without a forest.
    Skip,
    /// Show an error, and go on without a forest: the server still works for open
    /// documents.
    ShowError { message: String },
    /// Load the forest from its root.
    Load { path: String },
}

/// Decide what to do about the forest at the start.
pub fn start_forest(journal_root: JournalRoot) -> (start: ForestStart)
    ensures
        match journal_root {
            JournalRoot::Unset => start is Skip,
            JournalRoot::Missing { path } => start matches ForestStart::ShowError { message }
                && message@ == "Journal root does not exist: "@ + path@,
            JournalRoot::Present { path } => start matches ForestStart::Load { path: root } && root
                == path,
        },
{
    match journal_root {
        JournalRoot::Unset => ForestStart::Skip,
        JournalRoot::Missing { path } => ForestStart::ShowError {
            message: strings::join("Journal root does not exist: ", path.as_str()),
        },
        JournalRoot::Present { path } => ForestStart::Load { path },
    }
}

/// Whether an event ends the server.
pub fn is_exit<P, G, D>(event: &Event<P, G, D>) -> (r: bool)
    ensures
        r == (*event matches Event::Lsp(Message::Notification(notification))
            && notification.method@ == routes::EXIT@),
{
    match event {
        Event::Lsp(Message::Notification(notification)) => strings::equal(
            notification.method.as_str(),
            routes::EXIT,
        ),
        _ => false,
    }
}

/// A report on background work.
pub enum ProgressMsg<D> {
    BeanCheck {
        total: usize,
        done: usize,
        checker_name: String,
        /// Unique for each run, so that overlapping runs do not share a token.
        run_id: u64,
    },
    ForestInit { total: usize, done: usize, data: Option<ForestFile<D>> },
}

impl<D> ProgressMsg<D> {
    /// How far the work has come.
    pub open spec fn state(&self) -> Progress {
        match self {
            ProgressMsg::BeanCheck { total, done, .. } => Progress::at(*done as nat, *total as nat),
            ProgressMsg::ForestInit { total, done, .. } => Progress::at(*done as nat, *total as nat),
        }
    }

    /// Whether the work starts, so that its token is to be announced first.
    pub fn begins(&self) -> (r: bool)
        ensures
            r == (self.state() == Progress::Begin),
    {
        match self {
            ProgressMsg::BeanCheck { done, .. } => *done == 0,
            ProgressMsg::ForestInit { done, .. } => *done == 0,
        }
    }
}

/// A finished piece of background work. `P` is what messages carry, `G` is the
/// diagnostics of a run, and `D` is the semantic data of a file.
pub enum Task<P, G, D> {
    Response(Response<P>),
    Progress(ProgressMsg<D>),
    /// A document that was parsed.
    Parsed { path: FilePath, version: i32, tree: Option<Arc<Tree>> },
    /// A completed diagnostics run.
    Diagnostics(G),
    /// Semantic data rebuilt after an edit.
    SemanticData { path: FilePath, version: i32, data: Arc<D> },
}

/// What the server reacts to.
pub enum Event<P, G, D> {
    Lsp(Message<P>),
    Task(Task<P, G, D>),
}

/// What is to be done after an event.
pub enum Action<P, G> {
    /// Send a response to the client.
    Respond(Response<P>),
    /// Report progress to the client.
    Progress(ProgressMessages),
    /// Bring the diagnostics that the client shows up to date.
    PublishDiagnostics(G),
    /// Run work in the background.
    Work(Work),
    /// Go on with a request of the client.
    Request(RequestAction<P>),
    /// Go on with an answer of the client.
    Response(ResponseHandler, Response<P>),
    /// Go on with a notification of the client.
    Notification(NotificationKind, Notification<P>),
}

/// Work to run in the background.
pub enum Work {
    Parse(ParseJob),
    Extract(ExtractionJob),
}

/// A file of the forest, as the background task that fills the forest hands it
/// over.
pub struct ForestFile<D> {
    pub path: FilePath,
    pub tree: Arc<Tree>,
    pub data: Arc<D>,
    pub content: Arc<Rope>,
}

/// A parse to run in the background.
#[derive(Debug)]
pub struct ParseJob {
    pub path: FilePath,
    pub text: String,
    pub version: i32,
}

/// A rebuild of semantic data to run in the background.
pub struct ExtractionJob {
    pub path: FilePath,
    pub tree: Arc<Tree>,
    pub content: Arc<Rope>,
    pub version: i32,
}

impl ParseJob {
    /// Run the parse. The check of the depth belongs here, next to the parse: a
    /// tree deeper than the walkers will follow is worse than no tree.
    pub fn run(&self) -> (tree: Option<Arc<Tree>>)
        ensures
            exists|parsed: Option<Tree>| #[trigger]
                treesitter_utils::is_parse_of(self.text@, None, parsed) && match tree {
                    Some(tree) => treesitter_utils::usable(parsed) == Some(*tree),
                    None => treesitter_utils::usable(parsed) is None,
                },
    {
        let parsed = treesitter_utils::parse_beancount(self.text.as_str());
        assert(treesitter_utils::is_parse_of(self.text@, None, parsed));
        match treesitter_utils::usable_tree(parsed) {
            Some(tree) => Some(Arc::new(tree)),
            None => None,
        }
    }
}

// ── Laws ─────────────────────────────────────────────────────────────────────
/// Once the shutdown was requested it stays requested, whatever happens, and every
/// request of the client is refused.
pub proof fn law_shutdown_is_final<P, G, D>(
    before: LspServerState<D>,
    after: LspServerState<D>,
    event: Event<P, G, D>,
    action: Option<Action<P, G>>,
)
    requires
        before.shutdown_requested,
        before.event_handled(after, event, action),
    ensures
        after.shutdown_requested,
        event matches Event::Lsp(Message::Request(request)) ==> action matches Some(
            Action::Request(RequestAction::Refuse(response)),
        ) && LspServerState::<D>::is_refusal(request.id, response),
{
}

/// A request is answered once: after a response, the request is neither pending
/// nor cancelled, so that a second response to it is dropped.
pub proof fn law_request_is_answered_once<P, G, D>(
    before: LspServerState<D>,
    between: LspServerState<D>,
    after: LspServerState<D>,
    first: Response<P>,
    second: Response<P>,
    sent: Option<Action<P, G>>,
    sent_again: Option<Action<P, G>>,
)
    requires
        first.id@ == second.id@,
        before.task_handled(between, Task::Response(first), sent),
        between.task_handled(after, Task::Response(second), sent_again),
    ensures
        sent_again is None,
        !between.cancelled@.contains(first.id@),
{
}

/// An answer of the client is handled once: a second answer with the same number
/// is dropped.
pub proof fn law_answer_is_handled_once<P, G, D>(
    before: LspServerState<D>,
    between: LspServerState<D>,
    after: LspServerState<D>,
    first: Response<P>,
    second: Response<P>,
    handled: Option<Action<P, G>>,
    handled_again: Option<Action<P, G>>,
)
    requires
        first.id@ == second.id@,
        before.event_handled(between, Event::Lsp(Message::Response(first)), handled),
        between.event_handled(after, Event::Lsp(Message::Response(second)), handled_again),
    ensures
        handled_again is None,
{
}

/// At most one parse per file is in flight: while one is, no event but its own
/// landing ends it, and none starts another.
pub proof fn law_one_parse_per_file<P, G, D>(
    before: LspServerState<D>,
    after: LspServerState<D>,
    event: Event<P, G, D>,
    action: Option<Action<P, G>>,
    file: PathView,
)
    requires
        before.event_handled(after, event, action),
        before.parsing@.contains(file),
        !(event matches Event::Task(Task::Parsed { path, version, tree }) && path@ == file),
    ensures
        after.parsing@.contains(file),
        !(action matches Some(Action::Work(Work::Parse(job))) && job.path@ == file),
{
}

/// At most one rebuild of semantic data per file is in flight: while one is, no
/// event but its own landing ends it, and none starts another.
pub proof fn law_one_extraction_per_file<P, G, D>(
    before: LspServerState<D>,
    after: LspServerState<D>,
    event: Event<P, G, D>,
    action: Option<Action<P, G>>,
    file: PathView,
)
    requires
        before.event_handled(after, event, action),
        before.extracting@.contains(file),
        !(event matches Event::Task(Task::SemanticData { path, version, data }) && path@ == file),
    ensures
        after.extracting@.contains(file),
        !(action matches Some(Action::Work(Work::Extract(job))) && job.path@ == file),
{
}

/// Background work that starts is noted as in flight.
pub proof fn law_started_work_is_in_flight<P, G, D>(
    before: LspServerState<D>,
    after: LspServerState<D>,
    event: Event<P, G, D>,
    action: Option<Action<P, G>>,
)
    requires
        before.event_handled(after, event, action),
    ensures
        action matches Some(Action::Work(Work::Parse(job))) ==> after.parsing@.contains(job.path@),
        action matches Some(Action::Work(Work::Extract(job))) ==> after.extracting@.contains(
            job.path@,
        ),
{
}

/// What lands late does no harm: a tree or data of a version that an open document
/// has left behind changes neither its tree nor its data. Data that carries no
/// version is the exception, while the file has a tree.
pub proof fn law_late_results_are_dropped<P, G, D>(
    before: LspServerState<D>,
    after: LspServerState<D>,
    event: Event<P, G, D>,
    action: Option<Action<P, G>>,
    file: PathView,
    stale: i32,
)
    requires
        before.event_handled(after, event, action),
        before.doc_store.open_docs@.dom().contains(file),
        before.doc_store.open_docs@[file].version != stale,
        (event matches Event::Task(Task::Parsed { path, version, tree }) && path@ == file && version
            == stale) || (event matches Event::Task(Task::SemanticData { path, version, data })
            && path@ == file && version == stale && !before.doc_store.accepts_data(
            file,
            document_store::NO_VERSION,
        )) || (event matches Event::Task(Task::SemanticData { path, version, data }) && path@ == file
            && version == stale && stale != document_store::NO_VERSION),
    ensures
        after.doc_store.forest@ == before.doc_store.forest@,
        after.doc_store.beancount_data@ == before.doc_store.beancount_data@,
{
}

// ── Laws of messages ─────────────────────────────────────────────────────────
/// A response goes to the client as it is if the request is pending, and nowhere
/// otherwise. Either way the request is then neither pending nor cancelled, and
/// nothing else changes.
pub proof fn law_response_reaches_the_client<P, G, D>(
    before: LspServerState<D>,
    after: LspServerState<D>,
    response: Response<P>,
    action: Option<Action<P, G>>,
)
    requires
        before.event_handled(after, Event::Task(Task::Response(response)), action),
    ensures
        requests::incoming_requests(before.req_queue).dom().contains(response.id@) ==> action
            == Some(Action::<P, G>::Respond(response)),
        !requests::incoming_requests(before.req_queue).dom().contains(response.id@) ==> action
            is None,
        requests::incoming_requests(after.req_queue) == requests::incoming_requests(
            before.req_queue,
        ).remove(response.id@),
        requests::outgoing_requests(after.req_queue) == requests::outgoing_requests(
            before.req_queue,
        ),
        after.cancelled@ == before.cancelled@.remove(response.id@),
        after.next_request == before.next_request,
        after.doc_store == before.doc_store,
        after.extracting == before.extracting,
        after.parsing == before.parsing,
        after.shutdown_requested == before.shutdown_requested,
{
}

/// Before a shutdown was requested, a request goes, as it is, to the part of the
/// server that its method names, or is told to be unknown if it names none. It is
/// then pending under its method. Only a request for the shutdown requests it.
pub proof fn law_request_goes_where_its_method_says<P, G, D>(
    before: LspServerState<D>,
    after: LspServerState<D>,
    request: Request<P>,
    action: Option<Action<P, G>>,
)
    requires
        before.event_handled(after, Event::Lsp(Message::Request(request)), action),
        !before.shutdown_requested,
    ensures
        forall|kind: RequestKind| request.method@ == #[trigger] kind.name() ==> action == Some(
            Action::<P, G>::Request(RequestAction::Handle(kind, request)),
        ),
        (forall|kind: RequestKind| request.method@ != #[trigger] kind.name()) ==> action == Some(
            Action::<P, G>::Request(RequestAction::Unknown(request)),
        ),
        after.shutdown_requested <==> request.method@ == "shutdown"@,
        requests::incoming_requests(after.req_queue) == requests::incoming_requests(
            before.req_queue,
        ).insert(request.id@, request.method@),
        requests::outgoing_requests(after.req_queue) == requests::outgoing_requests(
            before.req_queue,
        ),
        after.cancelled == before.cancelled,
        after.next_request == before.next_request,
        after.doc_store == before.doc_store,
        after.extracting == before.extracting,
        after.parsing == before.parsing,
{
    assert forall|kind: RequestKind| request.method@ == #[trigger] kind.name() implies action
        == Some(Action::<P, G>::Request(RequestAction::Handle(kind, request))) by {
        if let Some(Action::Request(RequestAction::Handle(other, handled))) = action {
            routes::law_request_methods_differ(kind, other);
        }
    }
    assert(RequestKind::Shutdown.name() == "shutdown"@);
}

/// Once a shutdown was requested, a request is answered at once, under its own id,
/// with the error that it must not be made, and leaves nothing pending.
pub proof fn law_request_after_shutdown_is_refused<P, G, D>(
    before: LspServerState<D>,
    after: LspServerState<D>,
    request: Request<P>,
    action: Option<Action<P, G>>,
)
    requires
        before.event_handled(after, Event::Lsp(Message::Request(request)), action),
        before.shutdown_requested,
    ensures
        action matches Some(Action::Request(RequestAction::Refuse(response))) && {
            &&& response.id@ == request.id@
            &&& response.result is None
            &&& response.error is Some
            &&& response.error.unwrap().code == -32600
            &&& response.error.unwrap().message@ == "shutdown was requested"@
            &&& response.error.unwrap().data is None
        },
        requests::incoming_requests(after.req_queue) == requests::incoming_requests(
            before.req_queue,
        ).remove(request.id@),
        requests::outgoing_requests(after.req_queue) == requests::outgoing_requests(
            before.req_queue,
        ),
        after.cancelled@ == before.cancelled@.remove(request.id@),
        after.next_request == before.next_request,
        after.doc_store == before.doc_store,
        after.extracting == before.extracting,
        after.parsing == before.parsing,
        after.shutdown_requested,
{
}

/// An answer of the client goes, as it is, to what was noted for the request, if
/// that is pending, and is dropped otherwise. It is then no longer pending.
pub proof fn law_answer_goes_to_its_handler<P, G, D>(
    before: LspServerState<D>,
    after: LspServerState<D>,
    response: Response<P>,
    action: Option<Action<P, G>>,
)
    requires
        before.event_handled(after, Event::Lsp(Message::Response(response)), action),
    ensures
        requests::outgoing_requests(before.req_queue).dom().contains(response.id@) ==> action
            == Some(
            Action::<P, G>::Response(
                requests::outgoing_requests(before.req_queue)[response.id@],
                response,
            ),
        ),
        !requests::outgoing_requests(before.req_queue).dom().contains(response.id@) ==> action
            is None,
        requests::outgoing_requests(after.req_queue) == requests::outgoing_requests(
            before.req_queue,
        ).remove(response.id@),
        requests::incoming_requests(after.req_queue) == requests::incoming_requests(
            before.req_queue,
        ),
        after.cancelled == before.cancelled,
        after.next_request == before.next_request,
        after.doc_store == before.doc_store,
        after.extracting == before.extracting,
        after.parsing == before.parsing,
        after.shutdown_requested == before.shutdown_requested,
{
}

/// A notification goes, as it is, to the part of the server that its method names,
/// and is dropped if it names none; diagnostics go to the client. Neither changes
/// the state.
pub proof fn law_notifications_and_diagnostics_pass_through<P, G, D>(
    before: LspServerState<D>,
    after: LspServerState<D>,
    notification: Notification<P>,
    diagnostics: G,
    action: Option<Action<P, G>>,
)
    ensures
        before.event_handled(after, Event::Lsp(Message::Notification(notification)), action) ==> {
            &&& after == before
            &&& forall|kind: NotificationKind| notification.method@ == #[trigger] kind.name()
                ==> action == Some(Action::<P, G>::Notification(kind, notification))
            &&& (forall|kind: NotificationKind| notification.method@ != #[trigger] kind.name())
                ==> action is None
        },
        before.event_handled(
            after,
            Event::<P, G, D>::Task(Task::Diagnostics(diagnostics)),
            action,
        ) ==> after == before && action == Some(Action::<P, G>::PublishDiagnostics(diagnostics)),
{
    if before.event_handled(after, Event::Lsp(Message::Notification(notification)), action) {
        assert forall|kind: NotificationKind| notification.method@
            == #[trigger] kind.name() implies action == Some(
            Action::<P, G>::Notification(kind, notification),
        ) by {
            if let Some(Action::Notification(other, handled)) = action {
                routes::law_notification_methods_differ(kind, other);
            }
        }
    }
}

// ── Laws of background work ──────────────────────────────────────────────────
/// A tree of the version that an open document has is installed, and a rebuild of
/// its data starts from it unless one is in flight. Where the document has another
/// version, it is parsed again, from its text as it is. Otherwise nothing comes of
/// the parse, which is no longer in flight.
pub proof fn law_current_tree_is_installed<P, G, D>(
    before: LspServerState<D>,
    after: LspServerState<D>,
    path: FilePath,
    version: i32,
    tree: Option<Arc<Tree>>,
    action: Option<Action<P, G>>,
)
    requires
        before.event_handled(
            after,
            Event::<P, G, D>::Task(Task::Parsed { path, version, tree }),
            action,
        ),
    ensures
        ({
            let open = before.doc_store.open_docs@.dom().contains(path@);
            let doc = before.doc_store.open_docs@[path@];
            let installed = open && doc.version == version && tree is Some;
            &&& installed ==> {
                &&& after.doc_store.forest@ == before.doc_store.forest@.insert(
                    path@,
                    tree.unwrap(),
                )
                &&& after.extracting@ == before.extracting@.insert(path@)
                &&& before.extracting@.contains(path@) ==> action is None
                &&& !before.extracting@.contains(path@) ==> (action matches Some(
                    Action::Work(Work::Extract(job)),
                ) && job.path@ == path@ && job.tree == tree.unwrap() && ropes::rope_text(
                    *job.content,
                ) == ropes::rope_text(doc.content) && job.version == version)
            }
            &&& !installed ==> after.doc_store.forest@ == before.doc_store.forest@
                && after.extracting@ == before.extracting@
            &&& open && doc.version != version ==> after.parsing@ == before.parsing@.insert(path@)
                && (action matches Some(Action::Work(Work::Parse(job))) && job.path@ == path@
                && job.text@ == ropes::rope_text(doc.content) && job.version == doc.version)
            &&& !(open && doc.version != version) ==> after.parsing@ == before.parsing@.remove(
                path@,
            )
            &&& !open || (doc.version == version && tree is None) ==> action is None
        }),
        after.doc_store.open_docs == before.doc_store.open_docs,
        after.doc_store.parsers == before.doc_store.parsers,
        after.doc_store.beancount_data == before.doc_store.beancount_data,
        after.doc_store.forest_content == before.doc_store.forest_content,
        after.req_queue == before.req_queue,
        after.next_request == before.next_request,
        after.shutdown_requested == before.shutdown_requested,
        after.cancelled == before.cancelled,
{
}

/// Data of the version that an open document has takes effect, and so does data
/// without a version while the file is in the forest; other data changes no data.
/// Where the file could be rebuilt at another version, it is, from its tree and its
/// text as they are. The rebuild that landed is no longer in flight.
pub proof fn law_current_data_takes_effect<P, G, D>(
    before: LspServerState<D>,
    after: LspServerState<D>,
    path: FilePath,
    version: i32,
    data: Arc<D>,
    action: Option<Action<P, G>>,
)
    requires
        before.event_handled(
            after,
            Event::<P, G, D>::Task(Task::SemanticData { path, version, data }),
            action,
        ),
    ensures
        ({
            let store = before.doc_store;
            let open = store.open_docs@.dom().contains(path@);
            let wanted = if version == i32::MIN {
                store.forest@.dom().contains(path@)
            } else {
                open && store.open_docs@[path@].version == version
            };
            let current = if open {
                store.open_docs@[path@].version
            } else {
                i32::MIN
            };
            let again = store.forest@.dom().contains(path@) && (open
                || store.forest_content@.dom().contains(path@)) && current != version;
            &&& wanted ==> after.doc_store.beancount_data@ == store.beancount_data@.insert(
                path@,
                data,
            )
            &&& !wanted ==> after.doc_store.beancount_data@ == store.beancount_data@
            &&& again ==> after.extracting@ == before.extracting@.insert(path@) && (
            action matches Some(Action::Work(Work::Extract(job))) && job.path@ == path@ && job.tree
                == store.forest@[path@] && job.version == current && ropes::rope_text(*job.content)
                == if open {
                ropes::rope_text(store.open_docs@[path@].content)
            } else {
                ropes::rope_text(*store.forest_content@[path@])
            })
            &&& !again ==> after.extracting@ == before.extracting@.remove(path@) && action is None
        }),
        after.doc_store.open_docs == before.doc_store.open_docs,
        after.doc_store.parsers == before.doc_store.parsers,
        after.doc_store.forest == before.doc_store.forest,
        after.doc_store.forest_content == before.doc_store.forest_content,
        after.parsing == before.parsing,
        after.req_queue == before.req_queue,
        after.next_request == before.next_request,
        after.shutdown_requested == before.shutdown_requested,
        after.cancelled == before.cancelled,
{
}

/// What is still current takes effect: data for the version that a file would be
/// rebuilt at is installed.
pub proof fn law_rebuilt_data_is_installed<P, G, D>(
    before: LspServerState<D>,
    after: LspServerState<D>,
    path: FilePath,
    version: i32,
    data: Arc<D>,
    action: Option<Action<P, G>>,
)
    requires
        before.event_handled(
            after,
            Event::<P, G, D>::Task(Task::SemanticData { path, version, data }),
            action,
        ),
        before.extraction_version(path@) == Some(version),
    ensures
        after.doc_store.beancount_data@.dom().contains(path@),
        after.doc_store.beancount_data@[path@] == data,
        action is None,
        !after.extracting@.contains(path@),
{
}

/// What a job takes along: the path, the version and the text of the file as they
/// are, and for a rebuild its tree. A file can be rebuilt if it has a tree and its
/// text is known; it waits for a rebuild if besides it has no data and none is in
/// flight.
pub proof fn law_jobs_take_along_the_file<D>(
    state: LspServerState<D>,
    path: PathView,
    parse: ParseJob,
    extraction: ExtractionJob,
)
    ensures
        ({
            let store = state.doc_store;
            let open = store.open_docs@.dom().contains(path);
            let known = open || store.forest_content@.dom().contains(path);
            let possible = store.forest@.dom().contains(path) && known;
            &&& state.is_parse_job(path, parse) <==> open && parse.path@ == path && parse.text@
                == ropes::rope_text(store.open_docs@[path].content) && parse.version
                == store.open_docs@[path].version
            &&& state.is_extraction_job(path, extraction) <==> {
                &&& possible
                &&& extraction.path@ == path
                &&& extraction.tree == store.forest@[path]
                &&& open ==> ropes::rope_text(*extraction.content) == ropes::rope_text(
                    store.open_docs@[path].content,
                ) && extraction.version == store.open_docs@[path].version
                &&& !open ==> ropes::rope_text(*extraction.content) == ropes::rope_text(
                    *store.forest_content@[path],
                ) && extraction.version == i32::MIN
            }
            &&& !possible ==> state.extraction_version(path) is None
            &&& possible && open ==> state.extraction_version(path) == Some(
                store.open_docs@[path].version,
            )
            &&& possible && !open ==> state.extraction_version(path) == Some(i32::MIN)
            &&& state.wants_extraction(path) <==> possible && !store.beancount_data@.dom().contains(
                path,
            ) && !state.extracting@.contains(path)
        }),
{
}

/// A report on a check of the ledger is passed on under a token of its own run,
/// with what is done and what there is in total. Nothing else comes of it.
pub proof fn law_checks_are_reported<D>(
    before: LspServerState<D>,
    after: LspServerState<D>,
    total: usize,
    done: usize,
    checker_name: String,
    run_id: u64,
    messages: ProgressMessages,
)
    requires
        before.progress_handled(
            after,
            ProgressMsg::BeanCheck { total, done, checker_name, run_id },
            messages,
        ),
    ensures
        ({
            let state = if done == 0 {
                Progress::Begin
            } else if done < total {
                Progress::Report
            } else {
                Progress::End
            };
            &&& before.progress_reported(after, state)
            &&& progress::is_progress(
                messages,
                before.next_request as int,
                "bean check ("@ + checker_name@ + ")"@,
                state,
                Some(strings::digits(done as nat) + "/"@ + strings::digits(total as nat)),
                Some((done, total)),
                Some("/"@ + strings::digits(run_id as nat)),
            )
        }),
        after.doc_store == before.doc_store,
{
}

/// A report on the forest is passed on with what is done and what there is in
/// total. A file that comes with it goes into the forest with its tree, its data and
/// its text, unless it is open; then the buffer and all that belongs to it stay.
pub proof fn law_forest_files_go_in_unless_open<D>(
    before: LspServerState<D>,
    after: LspServerState<D>,
    total: usize,
    done: usize,
    data: Option<ForestFile<D>>,
    messages: ProgressMessages,
)
    requires
        before.progress_handled(after, ProgressMsg::ForestInit { total, done, data }, messages),
    ensures
        progress::is_progress(
            messages,
            before.next_request as int,
            "generating forest"@,
            if done == 0 {
                Progress::Begin
            } else if done < total {
                Progress::Report
            } else {
                Progress::End
            },
            Some(strings::digits(done as nat) + "/"@ + strings::digits(total as nat)),
            Some((done, total)),
            None,
        ),
        data is None ==> after.doc_store == before.doc_store,
        data matches Some(file) ==> (before.doc_store.open_docs@.dom().contains(file.path@)
            ==> after.doc_store == before.doc_store),
        data matches Some(file) ==> (!before.doc_store.open_docs@.dom().contains(file.path@) ==> {
            &&& after.doc_store.forest@ == before.doc_store.forest@.insert(file.path@, file.tree)
            &&& after.doc_store.beancount_data@ == before.doc_store.beancount_data@.insert(
                file.path@,
                file.data,
            )
            &&& after.doc_store.forest_content@ == before.doc_store.forest_content@.insert(
                file.path@,
                file.content,
            )
            &&& after.doc_store.open_docs == before.doc_store.open_docs
            &&& after.doc_store.parsers == before.doc_store.parsers
        }),
        after.extracting == before.extracting,
        after.parsing == before.parsing,
        after.cancelled == before.cancelled,
        after.shutdown_requested == before.shutdown_requested,
        requests::incoming_requests(after.req_queue) == requests::incoming_requests(
            before.req_queue,
        ),
        requests::outgoing_requests(after.req_queue) == if done == 0 {
            requests::outgoing_requests(before.req_queue).insert(
                IdView::Number(before.next_request as int),
                ResponseHandler::Ignore,
            )
        } else {
            requests::outgoing_requests(before.req_queue)
        },
        after.next_request == before.next_request + if done == 0 {
            1int
        } else {
            0
        },
{
}

/// A report on background work is told to the client.
pub proof fn law_reports_are_told<P, G, D>(
    before: LspServerState<D>,
    after: LspServerState<D>,
    report: ProgressMsg<D>,
    action: Option<Action<P, G>>,
)
    requires
        before.event_handled(after, Event::<P, G, D>::Task(Task::Progress(report)), action),
    ensures
        action matches Some(Action::Progress(messages)) && before.progress_handled(
            after,
            report,
            messages,
        ),
        forall|done: nat, total: nat| #[trigger]
            steps_done(done, total) == strings::digits(done) + "/"@ + strings::digits(total),
{
}

/// A lookup of a file finds its tree and its document, or tells with the path as it
/// was spelled that there is no tree, or else that it is not open.
pub proof fn law_lookup_finds_tree_and_document<D>(
    snapshot: LspServerStateSnapshot<D>,
    path: FilePath,
    r: Result<(&Arc<Tree>, &Arc<Document>), LookupError>,
)
    requires
        snapshot.is_lookup(path, r),
    ensures
        snapshot.forest@.dom().contains(path@) && snapshot.open_docs@.dom().contains(path@) ==> (
        r matches Ok((tree, doc)) && *tree == snapshot.forest@[path@] && *doc
            == snapshot.open_docs@[path@]),
        !snapshot.forest@.dom().contains(path@) ==> (r matches Err(error) && error is NoTree
            && error.text() == "No parsed tree found for file: "@ + file_path::path_shown(
            path.source(),
        )),
        snapshot.forest@.dom().contains(path@) && !snapshot.open_docs@.dom().contains(path@) ==> (
        r matches Err(error) && error is NoDocument && error.text()
            == "Document not found for file: "@ + file_path::path_shown(path.source())),
{
}

/// The words and numbers that the protocol fixes.
pub proof fn law_protocol_words(uri: String)
    ensures
        REGISTER_CAPABILITY@ == "client/registerCapability"@,
        routes::EXIT@ == "exit"@,
        protocol::INVALID_REQUEST == -32600,
        document_store::NO_VERSION == i32::MIN,
        treesitter_utils::MAX_TREE_DEPTH == 256,
        (LookupError::NotAFile { uri }).text() == "Failed to convert URI to file path: "@ + uri@,
{
}

/// A state is in order if its parsers are and the next request to the client gets
/// the number that is kept for it. Whatever the client or background work brings
/// leaves the documents' parsers as they are.
pub proof fn law_states_are_in_order<P, G, D>(
    before: LspServerState<D>,
    after: LspServerState<D>,
    event: Event<P, G, D>,
    action: Option<Action<P, G>>,
)
    ensures
        before.wf() <==> requests::next_request_id(before.req_queue) == before.next_request && forall|
            uri: PathView,
        | #[trigger]
            before.doc_store.parsers@.dom().contains(uri) ==> syntax::parser_loaded(
                before.doc_store.parsers@[uri],
            ) && syntax::parser_idle(before.doc_store.parsers@[uri]),
        before.event_handled(after, event, action) ==> after.doc_store.parsers
            == before.doc_store.parsers && after.doc_store.open_docs == before.doc_store.open_docs,
{
}

} // verus!
