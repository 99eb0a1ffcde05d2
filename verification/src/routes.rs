//! Which part of the server a message of the client goes to.
use crate::strings;
use vstd::prelude::*;

verus! {

/// The requests that the server answers.
#[derive(Clone, Copy, Debug, PartialEq, Eq, Structural)]
pub enum RequestKind {
    Shutdown,
    Hover,
    Completion,
    Formatting,
    Rename,
    References,
    Definition,
    SemanticTokens,
    InlayHint,
    FoldingRange,
    DocumentSymbol,
    WorkspaceSymbol,
}

/// The notifications that the server acts on.
#[derive(Clone, Copy, Debug, PartialEq, Eq, Structural)]
pub enum NotificationKind {
    DidOpen,
    DidClose,
    DidSave,
    DidChange,
    DidChangeWatchedFiles,
    Cancel,
}

/// The method of the notification that ends the server.
pub const EXIT: &'static str = "exit";

impl RequestKind {
    /// The method by which the protocol names a kind of request.
    pub open spec fn name(self) -> Seq<char> {
        match self {
            RequestKind::Shutdown => "shutdown"@,
            RequestKind::Hover => "textDocument/hover"@,
            RequestKind::Completion => "textDocument/completion"@,
            RequestKind::Formatting => "textDocument/formatting"@,
            RequestKind::Rename => "textDocument/rename"@,
            RequestKind::References => "textDocument/references"@,
            RequestKind::Definition => "textDocument/definition"@,
            RequestKind::SemanticTokens => "textDocument/semanticTokens/full"@,
            RequestKind::InlayHint => "textDocument/inlayHint"@,
            RequestKind::FoldingRange => "textDocument/foldingRange"@,
            RequestKind::DocumentSymbol => "textDocument/documentSymbol"@,
            RequestKind::WorkspaceSymbol => "workspace/symbol"@,
        }
    }

    /// The method by which the protocol names a kind of request.
    pub fn method(self) -> (method: &'static str)
        ensures
            method@ == self.name(),
    {
        match self {
            RequestKind::Shutdown => "shutdown",
            RequestKind::Hover => "textDocument/hover",
            RequestKind::Completion => "textDocument/completion",
            RequestKind::Formatting => "textDocument/formatting",
            RequestKind::Rename => "textDocument/rename",
            RequestKind::References => "textDocument/references",
            RequestKind::Definition => "textDocument/definition",
            RequestKind::SemanticTokens => "textDocument/semanticTokens/full",
            RequestKind::InlayHint => "textDocument/inlayHint",
            RequestKind::FoldingRange => "textDocument/foldingRange",
            RequestKind::DocumentSymbol => "textDocument/documentSymbol",
            RequestKind::WorkspaceSymbol => "workspace/symbol",
        }
    }
}

impl NotificationKind {
    /// The method by which the protocol names a kind of notification.
    pub open spec fn name(self) -> Seq<char> {
        match self {
            NotificationKind::DidOpen => "textDocument/didOpen"@,
            NotificationKind::DidClose => "textDocument/didClose"@,
            NotificationKind::DidSave => "textDocument/didSave"@,
            NotificationKind::DidChange => "textDocument/didChange"@,
            NotificationKind::DidChangeWatchedFiles => "workspace/didChangeWatchedFiles"@,
            NotificationKind::Cancel => "$/cancelRequest"@,
        }
    }

    /// The method by which the protocol names a kind of notification.
    pub fn method(self) -> (method: &'static str)
        ensures
            method@ == self.name(),
    {
        match self {
            NotificationKind::DidOpen => "textDocument/didOpen",
            NotificationKind::DidClose => "textDocument/didClose",
            NotificationKind::DidSave => "textDocument/didSave",
            NotificationKind::DidChange => "textDocument/didChange",
            NotificationKind::DidChangeWatchedFiles => "workspace/didChangeWatchedFiles",
            NotificationKind::Cancel => "$/cancelRequest",
        }
    }
}

/// No two kinds of request go by the same method.
pub proof fn law_request_methods_differ(a: RequestKind, b: RequestKind)
    requires
        a.name() == b.name(),
    ensures
        a == b,
{
    reveal_strlit("shutdown");
    reveal_strlit("textDocument/hover");
    reveal_strlit("textDocument/completion");
    reveal_strlit("textDocument/formatting");
    reveal_strlit("textDocument/rename");
    reveal_strlit("textDocument/references");
    reveal_strlit("textDocument/definition");
    reveal_strlit("textDocument/semanticTokens/full");
    reveal_strlit("textDocument/inlayHint");
    reveal_strlit("textDocument/foldingRange");
    reveal_strlit("textDocument/documentSymbol");
    reveal_strlit("workspace/symbol");
    // The methods differ in length, or else in the character after the slash.
    assert("shutdown"@.len() == 8);
    assert("textDocument/hover"@.len() == 18);
    assert("textDocument/completion"@.len() == 23);
    assert("textDocument/formatting"@.len() == 23);
    assert("textDocument/rename"@.len() == 19);
    assert("textDocument/references"@.len() == 23);
    assert("textDocument/definition"@.len() == 23);
    assert("textDocument/semanticTokens/full"@.len() == 32);
    assert("textDocument/inlayHint"@.len() == 22);
    assert("textDocument/foldingRange"@.len() == 25);
    assert("textDocument/documentSymbol"@.len() == 27);
    assert("workspace/symbol"@.len() == 16);
    assert("textDocument/completion"@[13] == 'c');
    assert("textDocument/formatting"@[13] == 'f');
    assert("textDocument/references"@[13] == 'r');
    assert("textDocument/definition"@[13] == 'd');
    assert(a.name().len() == b.name().len());
    assert(a.name()[13] == b.name()[13]);
}

/// No two kinds of notification go by the same method.
pub proof fn law_notification_methods_differ(a: NotificationKind, b: NotificationKind)
    requires
        a.name() == b.name(),
    ensures
        a == b,
{
    reveal_strlit("textDocument/didOpen");
    reveal_strlit("textDocument/didClose");
    reveal_strlit("textDocument/didSave");
    reveal_strlit("textDocument/didChange");
    reveal_strlit("workspace/didChangeWatchedFiles");
    reveal_strlit("$/cancelRequest");
    assert("textDocument/didOpen"@.len() == 20);
    assert("textDocument/didClose"@.len() == 21);
    assert("textDocument/didSave"@.len() == 20);
    assert("textDocument/didChange"@.len() == 22);
    assert("workspace/didChangeWatchedFiles"@.len() == 31);
    assert("$/cancelRequest"@.len() == 15);
    assert("textDocument/didOpen"@[16] == 'O');
    assert("textDocument/didSave"@[16] == 'S');
    assert(a.name().len() == b.name().len());
    assert(a.name()[16] == b.name()[16]);
}

/// The kinds of request, in the order in which they are looked up.
fn request_kinds() -> (kinds: [RequestKind; 12])
    ensures
        forall|kind: RequestKind| #[trigger] kinds@.contains(kind),
{
    let kinds = [
        RequestKind::Shutdown,
        RequestKind::Hover,
        RequestKind::Completion,
        RequestKind::Formatting,
        RequestKind::Rename,
        RequestKind::References,
        RequestKind::Definition,
        RequestKind::SemanticTokens,
        RequestKind::InlayHint,
        RequestKind::FoldingRange,
        RequestKind::DocumentSymbol,
        RequestKind::WorkspaceSymbol,
    ];
    assert forall|kind: RequestKind| #[trigger] kinds@.contains(kind) by {
        let place = match kind {
            RequestKind::Shutdown => 0int,
            RequestKind::Hover => 1,
            RequestKind::Completion => 2,
            RequestKind::Formatting => 3,
            RequestKind::Rename => 4,
            RequestKind::References => 5,
            RequestKind::Definition => 6,
            RequestKind::SemanticTokens => 7,
            RequestKind::InlayHint => 8,
            RequestKind::FoldingRange => 9,
            RequestKind::DocumentSymbol => 10,
            RequestKind::WorkspaceSymbol => 11,
        };
        assert(kinds@[place] == kind);
    }
    kinds
}

/// The kind of request that a method names, where the server answers it.
pub fn route_request(method: &str) -> (kind: Option<RequestKind>)
    ensures
        match kind {
            Some(kind) => method@ == kind.name(),
            None => forall|kind: RequestKind| method@ != #[trigger] kind.name(),
        },
        forall|named: RequestKind| method@ == #[trigger] named.name() ==> kind == Some(named),
{
    let kinds = request_kinds();
    let mut i: usize = 0;
    while i < 12
        invariant
            i <= 12,
            forall|k: int| 0 <= k < i ==> method@ != (#[trigger] kinds@[k]).name(),
        decreases 12 - i,
    {
        let kind = kinds[i];
        if strings::equal(kind.method(), method) {
            assert forall|named: RequestKind| method@ == #[trigger] named.name() implies kind
                == named by {
                law_request_methods_differ(kind, named);
            }
            return Some(kind);
        }
        i = i + 1;
    }
    assert forall|kind: RequestKind| method@ != #[trigger] kind.name() by {
        assert(kinds@.contains(kind));
    }
    None
}

/// The kinds of notification, in the order in which they are looked up.
fn notification_kinds() -> (kinds: [NotificationKind; 6])
    ensures
        forall|kind: NotificationKind| #[trigger] kinds@.contains(kind),
{
    let kinds = [
        NotificationKind::DidOpen,
        NotificationKind::DidClose,
        NotificationKind::DidSave,
        NotificationKind::DidChange,
        NotificationKind::DidChangeWatchedFiles,
        NotificationKind::Cancel,
    ];
    assert forall|kind: NotificationKind| #[trigger] kinds@.contains(kind) by {
        let place = match kind {
            NotificationKind::DidOpen => 0int,
            NotificationKind::DidClose => 1,
            NotificationKind::DidSave => 2,
            NotificationKind::DidChange => 3,
            NotificationKind::DidChangeWatchedFiles => 4,
            NotificationKind::Cancel => 5,
        };
        assert(kinds@[place] == kind);
    }
    kinds
}

/// The kind of notification that a method names, where the server acts on it.
pub fn route_notification(method: &str) -> (kind: Option<NotificationKind>)
    ensures
        match kind {
            Some(kind) => method@ == kind.name(),
            None => forall|kind: NotificationKind| method@ != #[trigger] kind.name(),
        },
        forall|named: NotificationKind| method@ == #[trigger] named.name() ==> kind == Some(named),
{
    let kinds = notification_kinds();
    let mut i: usize = 0;
    while i < 6
        invariant
            i <= 6,
            forall|k: int| 0 <= k < i ==> method@ != (#[trigger] kinds@[k]).name(),
        decreases 6 - i,
    {
        let kind = kinds[i];
        if strings::equal(kind.method(), method) {
            assert forall|named: NotificationKind| method@ == #[trigger] named.name() implies kind
                == named by {
                law_notification_methods_differ(kind, named);
            }
            return Some(kind);
        }
        i = i + 1;
    }
    assert forall|kind: NotificationKind| method@ != #[trigger] kind.name() by {
        assert(kinds@.contains(kind));
    }
    None
}

/// The protocol names every kind of request by a method of its own.
pub proof fn law_request_methods(kind: RequestKind)
    ensures
        kind == RequestKind::Shutdown <==> kind.name() == "shutdown"@,
        kind == RequestKind::Hover <==> kind.name() == "textDocument/hover"@,
        kind == RequestKind::Completion <==> kind.name() == "textDocument/completion"@,
        kind == RequestKind::Formatting <==> kind.name() == "textDocument/formatting"@,
        kind == RequestKind::Rename <==> kind.name() == "textDocument/rename"@,
        kind == RequestKind::References <==> kind.name() == "textDocument/references"@,
        kind == RequestKind::Definition <==> kind.name() == "textDocument/definition"@,
        kind == RequestKind::SemanticTokens <==> kind.name() == "textDocument/semanticTokens/full"@,
        kind == RequestKind::InlayHint <==> kind.name() == "textDocument/inlayHint"@,
        kind == RequestKind::FoldingRange <==> kind.name() == "textDocument/foldingRange"@,
        kind == RequestKind::DocumentSymbol <==> kind.name() == "textDocument/documentSymbol"@,
        kind == RequestKind::WorkspaceSymbol <==> kind.name() == "workspace/symbol"@,
{
    assert forall|other: RequestKind| kind.name() == #[trigger] other.name() implies kind == other by {
        law_request_methods_differ(kind, other);
    }
    assert(RequestKind::Shutdown.name() == "shutdown"@);
    assert(RequestKind::Hover.name() == "textDocument/hover"@);
    assert(RequestKind::Completion.name() == "textDocument/completion"@);
    assert(RequestKind::Formatting.name() == "textDocument/formatting"@);
    assert(RequestKind::Rename.name() == "textDocument/rename"@);
    assert(RequestKind::References.name() == "textDocument/references"@);
    assert(RequestKind::Definition.name() == "textDocument/definition"@);
    assert(RequestKind::SemanticTokens.name() == "textDocument/semanticTokens/full"@);
    assert(RequestKind::InlayHint.name() == "textDocument/inlayHint"@);
    assert(RequestKind::FoldingRange.name() == "textDocument/foldingRange"@);
    assert(RequestKind::DocumentSymbol.name() == "textDocument/documentSymbol"@);
    assert(RequestKind::WorkspaceSymbol.name() == "workspace/symbol"@);
}

/// The protocol names every kind of notification by a method of its own.
pub proof fn law_notification_methods(kind: NotificationKind)
    ensures
        kind == NotificationKind::DidOpen <==> kind.name() == "textDocument/didOpen"@,
        kind == NotificationKind::DidClose <==> kind.name() == "textDocument/didClose"@,
        kind == NotificationKind::DidSave <==> kind.name() == "textDocument/didSave"@,
        kind == NotificationKind::DidChange <==> kind.name() == "textDocument/didChange"@,
        kind == NotificationKind::DidChangeWatchedFiles <==> kind.name()
            == "workspace/didChangeWatchedFiles"@,
        kind == NotificationKind::Cancel <==> kind.name() == "$/cancelRequest"@,
{
    assert forall|other: NotificationKind| kind.name() == #[trigger] other.name() implies kind == other by {
        law_notification_methods_differ(kind, other);
    }
    assert(NotificationKind::DidOpen.name() == "textDocument/didOpen"@);
    assert(NotificationKind::DidClose.name() == "textDocument/didClose"@);
    assert(NotificationKind::DidSave.name() == "textDocument/didSave"@);
    assert(NotificationKind::DidChange.name() == "textDocument/didChange"@);
    assert(NotificationKind::DidChangeWatchedFiles.name() == "workspace/didChangeWatchedFiles"@);
    assert(NotificationKind::Cancel.name() == "$/cancelRequest"@);
}

} // verus!
