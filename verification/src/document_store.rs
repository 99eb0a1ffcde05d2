//! The documents that the server knows: open buffers, syntax trees, and the data
//! extracted from them.
use crate::document::Document;
use crate::file_path::FilePath;
use crate::file_path::PathView;
use crate::paths::PathMap;
use crate::paths::PathSet;
use crate::paths;
use crate::paths::make_mut;
use crate::protocol::TextDocumentContentChangeEvent;
use crate::protocol::TextDocumentContentChangeWholeDocument;
use crate::ropes;
use crate::syntax;
use crate::syntax::InputEdit;
use crate::treesitter_utils::ConversionError;
use crate::treesitter_utils;
use ropey::Rope;
use std::sync::Arc;
use tree_sitter_beancount::tree_sitter::Parser;
use tree_sitter_beancount::tree_sitter::Tree;
use vstd::prelude::*;
use vstd::utf8;

verus! {

/// Version stand-in for files that are in the forest but not open in the editor,
/// and therefore have no document version.
pub const NO_VERSION: i32 = i32::MIN;

/// Shared views of the store's maps.
///
/// Taking one is a cheap pointer clone; a map is only copied when the store
/// modifies it while a view is live.
pub struct DocumentStoreMaps<D> {
    pub open_docs: Arc<PathMap<Arc<Document>>>,
    pub forest: Arc<PathMap<Arc<Tree>>>,
    pub beancount_data: Arc<PathMap<Arc<D>>>,
    /// Rope content for forest files that are not open.
    pub forest_content: Arc<PathMap<Arc<Rope>>>,
}

/// Owns all document-related maps and keeps them consistent:
/// - Every open document has a parser.
/// - When a tree is invalidated, its data is removed with it.
/// - `forest_content` holds the text of forest files that are not open; while a
///   file is open its buffer takes precedence.
///
/// `D` is the semantic data that is extracted from a parsed file.
pub struct DocumentStore<D> {
    pub open_docs: Arc<PathMap<Arc<Document>>>,
    /// Stateful parsers for incremental parses.
    pub parsers: PathMap<Parser>,
    pub forest: Arc<PathMap<Arc<Tree>>>,
    pub beancount_data: Arc<PathMap<Arc<D>>>,
    pub forest_content: Arc<PathMap<Arc<Rope>>>,
}

// ── Changes of a text ────────────────────────────────────────────────────────
/// The text after a batch of changes, each of which refers to the text as the
/// one before it left it.
pub open spec fn changed_by(
    s: Seq<char>,
    changes: Seq<TextDocumentContentChangeEvent>,
) -> Seq<char>
    decreases changes.len(),
{
    if changes.len() == 0 {
        s
    } else {
        treesitter_utils::changed(changed_by(s, changes.drop_last()), changes.last())
    }
}

/// The edits that tell an incremental parse of a batch of changes.
pub open spec fn edits_of(
    s: Seq<char>,
    changes: Seq<TextDocumentContentChangeEvent>,
) -> Seq<InputEdit>
    decreases changes.len(),
{
    if changes.len() == 0 {
        seq![]
    } else {
        edits_of(s, changes.drop_last()).push(
            treesitter_utils::edit_of(changed_by(s, changes.drop_last()), changes.last()),
        )
    }
}

/// How many changes of a batch can be applied before one has offsets that do not
/// fit.
pub open spec fn fitting(s: Seq<char>, changes: Seq<TextDocumentContentChangeEvent>) -> nat
    decreases changes.len(),
{
    if changes.len() == 0 {
        0
    } else {
        let before = fitting(s, changes.drop_last());
        if before + 1 == changes.len() && treesitter_utils::edit_fits(
            changed_by(s, changes.drop_last()),
            changes.last(),
        ) {
            changes.len()
        } else {
            before
        }
    }
}

/// A tree after a sequence of edits.
pub open spec fn edited_by(tree: Tree, edits: Seq<InputEdit>) -> Tree
    decreases edits.len(),
{
    if edits.len() == 0 {
        tree
    } else {
        syntax::edited_tree(edited_by(tree, edits.drop_last()), edits.last())
    }
}

/// No more changes fit than there are; and once one does not fit, later ones do
/// not count.
proof fn lemma_fitting(s: Seq<char>, changes: Seq<TextDocumentContentChangeEvent>, n: int)
    requires
        0 <= n <= changes.len(),
    ensures
        fitting(s, changes) <= changes.len(),
        fitting(s, changes.take(n)) < n ==> fitting(s, changes) == fitting(s, changes.take(n)),
    decreases changes.len(),
{
    if n < changes.len() {
        lemma_fitting(s, changes.drop_last(), n);
        assert(changes.drop_last().take(n) =~= changes.take(n));
    } else {
        assert(changes.take(n) =~= changes);
        if changes.len() > 0 {
            lemma_fitting(s, changes.drop_last(), n - 1);
        }
    }
}

/// Apply one change to a rope, and describe it for an incremental parse.
pub fn apply_to_rope(content: &mut Rope, change: &TextDocumentContentChangeEvent) -> (r: Result<
    InputEdit,
    ConversionError,
>)
    ensures
        match r {
            Ok(edit) => {
                &&& treesitter_utils::edit_fits(ropes::rope_text(*old(content)), *change)
                &&& edit == treesitter_utils::edit_of(ropes::rope_text(*old(content)), *change)
                &&& ropes::rope_text(*final(content)) == treesitter_utils::changed(
                    ropes::rope_text(*old(content)),
                    *change,
                )
            },
            Err(e) => {
                &&& !treesitter_utils::edit_fits(ropes::rope_text(*old(content)), *change)
                &&& *final(content) == *old(content)
            },
        },
{
    let ghost s = ropes::rope_text(*content);
    let edit = match treesitter_utils::lsp_textdocchange_to_ts_inputedit(content, change) {
        Ok(edit) => edit,
        Err(e) => return Err(e),
    };
    let (inserted, start, end) = match change {
        TextDocumentContentChangeEvent::TextDocumentContentChangePartial(partial) => {
            proof {
                treesitter_utils::lemma_position_char(s, partial.range.start);
                treesitter_utils::lemma_position_char(s, partial.range.end);
            }
            (
                partial.text.as_str(),
                treesitter_utils::lsp_position_to_char(content, partial.range.start),
                treesitter_utils::lsp_position_to_char(content, partial.range.end),
            )
        },
        TextDocumentContentChangeEvent::TextDocumentContentChangeWholeDocument(whole) => {
            (whole.text.as_str(), 0, content.len_chars())
        },
    };
    // An inverted range, which the protocol does not allow, counts as empty.
    let end = if end < start {
        start
    } else {
        end
    };
    ropes::rope_remove(content, start, end);
    proof {
        let rest = s.take(start as int) + s.skip(end as int);
        assert(rest.take(start as int) =~= s.take(start as int));
        assert(rest.skip(start as int) =~= s.skip(end as int));
        assert(inserted@.len() == 0 ==> s.take(start as int) + inserted@ + s.skip(end as int)
            =~= rest);
    }
    if !inserted.is_empty() {
        content.insert(start, inserted);
    }
    Ok(edit)
}

/// A path waits in a queue.
spec fn queued(queue: Seq<FilePath>, path: PathView) -> bool {
    exists|k: int| 0 <= k < queue.len() && (#[trigger] queue[k])@ == path
}

/// How often `false` occurs.
spec fn count_false(flags: Seq<bool>) -> nat
    decreases flags.len(),
{
    if flags.len() == 0 {
        0
    } else {
        count_false(flags.drop_last()) + if flags.last() {
            0nat
        } else {
            1
        }
    }
}

/// Setting a flag leaves one `false` less.
proof fn lemma_count_false(flags: Seq<bool>, i: int)
    requires
        0 <= i < flags.len(),
        !flags[i],
    ensures
        count_false(flags) == count_false(flags.update(i, true)) + 1,
    decreases flags.len(),
{
    let after = flags.update(i, true);
    if i == flags.len() - 1 {
        assert(after.drop_last() =~= flags.drop_last());
    } else {
        lemma_count_false(flags.drop_last(), i);
        assert(after.drop_last() =~= flags.drop_last().update(i, true));
    }
}

// ── The store ────────────────────────────────────────────────────────────────
impl<D> DocumentStore<D> {
    /// Every parser is set up and ready for a parse.
    pub open spec fn parsers_ready(self) -> bool {
        forall|uri: PathView| #[trigger]
            self.parsers@.dom().contains(uri) ==> syntax::parser_loaded(self.parsers@[uri])
                && syntax::parser_idle(self.parsers@[uri])
    }

    /// Every open document has a parser.
    pub open spec fn docs_have_parsers(self) -> bool {
        self.open_docs@.dom().subset_of(self.parsers@.dom())
    }

    /// The text of a file: that of the open buffer if there is one, else that of
    /// the cached rope.
    pub open spec fn content_of(self, uri: PathView) -> Option<Seq<char>> {
        if self.open_docs@.dom().contains(uri) {
            Some(self.open_docs@[uri].text())
        } else if self.forest_content@.dom().contains(uri) {
            Some(ropes::rope_text(*self.forest_content@[uri]))
        } else {
            None
        }
    }

    pub fn new() -> (store: Self)
        ensures
            store.open_docs@ == Map::<PathView, Arc<Document>>::empty(),
            store.parsers@ == Map::<PathView, Parser>::empty(),
            store.forest@ == Map::<PathView, Arc<Tree>>::empty(),
            store.beancount_data@ == Map::<PathView, Arc<D>>::empty(),
            store.forest_content@ == Map::<PathView, Arc<Rope>>::empty(),
            store.parsers_ready(),
            store.docs_have_parsers(),
    {
        DocumentStore {
            open_docs: Arc::new(PathMap::new()),
            parsers: PathMap::new(),
            forest: Arc::new(PathMap::new()),
            beancount_data: Arc::new(PathMap::new()),
            forest_content: Arc::new(PathMap::new()),
        }
    }

    /// Open a document: insert the buffer and set up (or reuse) a parser.
    ///
    /// Neither the parse nor the extraction happens here: a full parse of a
    /// multi-megabyte ledger takes seconds. The caller schedules both, and
    /// anything that needs a tree declines until it lands. What was cached of the
    /// file is dropped: it may have been modified between close and reopen.
    pub fn open(&mut self, uri: FilePath, text: &str, version: i32)
        requires
            old(self).parsers_ready(),
        ensures
            final(self).parsers_ready(),
            old(self).docs_have_parsers() ==> final(self).docs_have_parsers(),
            final(self).open_docs@ == old(self).open_docs@.insert(
                uri@,
                final(self).open_docs@[uri@],
            ),
            final(self).open_docs@[uri@].text() == text@,
            final(self).open_docs@[uri@].version == version,
            final(self).parsers@ == if old(self).parsers@.dom().contains(uri@) {
                old(self).parsers@
            } else {
                old(self).parsers@.insert(uri@, final(self).parsers@[uri@])
            },
            final(self).parsers@.dom().contains(uri@),
            final(self).forest@ == old(self).forest@.remove(uri@),
            final(self).beancount_data@ == old(self).beancount_data@.remove(uri@),
            final(self).forest_content@ == old(self).forest_content@.remove(uri@),
    {
        let content = Rope::from_str(text);
        let doc = Arc::new(Document { content, version });
        make_mut(&mut self.open_docs).insert(uri.clone(), doc);
        if !self.parsers.contains_key(&uri) {
            self.parsers.insert(uri.clone(), syntax::beancount_parser());
        }
        make_mut(&mut self.forest).remove(&uri);
        make_mut(&mut self.beancount_data).remove(&uri);
        make_mut(&mut self.forest_content).remove(&uri);
    }

    /// Install a tree parsed in the background, unless the document moved on.
    ///
    /// Returns true when the tree was installed.
    pub fn install_tree(&mut self, uri: &FilePath, tree: Arc<Tree>, version: i32) -> (installed: bool)
        ensures
            installed == (old(self).open_docs@.dom().contains(uri@)
                && old(self).open_docs@[uri@].version == version),
            final(self).forest@ == if installed {
                old(self).forest@.insert(uri@, tree)
            } else {
                old(self).forest@
            },
            final(self).open_docs == old(self).open_docs,
            final(self).parsers == old(self).parsers,
            final(self).beancount_data == old(self).beancount_data,
            final(self).forest_content == old(self).forest_content,
    {
        match self.open_docs.get(uri) {
            Some(doc) => {
                if doc.version != version {
                    return false;
                }
            },
            None => return false,
        }
        make_mut(&mut self.forest).insert(uri.clone(), tree);
        true
    }

    /// The text and version to parse in the background.
    pub fn parse_inputs(&self, uri: &FilePath) -> (r: Option<(String, i32)>)
        ensures
            match r {
                Some((text, version)) => self.open_docs@.dom().contains(uri@) && text@
                    == self.open_docs@[uri@].text() && version == self.open_docs@[uri@].version,
                None => !self.open_docs@.dom().contains(uri@),
            },
    {
        match self.open_docs.get(uri) {
            Some(doc) => Some((doc.text_string(), doc.version)),
            None => None,
        }
    }

    /// Put the outcome of a parse of an edited document in place of its tree.
    ///
    /// Without a usable tree the file leaves the forest until a later edit parses
    /// cleanly, so that text and tree never disagree. The semantic data of a file
    /// that keeps a tree stays, at most one keystroke stale, until a scheduled
    /// rebuild replaces it.
    pub fn commit_tree(&mut self, uri: &FilePath, tree: Option<Tree>)
        ensures
            old(self).tree_committed(*final(self), uri@, tree),
            final(self).open_docs == old(self).open_docs,
            final(self).parsers == old(self).parsers,
            final(self).forest_content == old(self).forest_content,
    {
        match treesitter_utils::usable_tree(tree) {
            Some(tree) => {
                make_mut(&mut self.forest).insert(uri.clone(), Arc::new(tree));
            },
            None => {
                make_mut(&mut self.forest).remove(uri);
                make_mut(&mut self.beancount_data).remove(uri);
            },
        }
    }

    /// Apply changes to the buffer of an open document, and collect the edits that
    /// describe them.
    ///
    /// Where the offsets of a change do not fit, the changes before it stay and
    /// the version does not move on.
    pub fn change_buffer(
        &mut self,
        uri: &FilePath,
        changes: &[TextDocumentContentChangeEvent],
        new_version: i32,
    ) -> (r: Result<Vec<InputEdit>, ConversionError>)
        requires
            old(self).open_docs@.dom().contains(uri@),
        ensures
            old(self).buffer_changed(*final(self), uri@, changes@, new_version),
            changes@.len() == 1 && treesitter_utils::edit_fits(
                ropes::rope_text(old(self).open_docs@[uri@].content),
                changes@[0],
            ) ==> ropes::rope_text(final(self).open_docs@[uri@].content)
                == treesitter_utils::changed(
                ropes::rope_text(old(self).open_docs@[uri@].content),
                changes@[0],
            ) && final(self).open_docs@[uri@].version == new_version,
            ({
                let s = old(self).open_docs@[uri@].text();
                match r {
                    Ok(edits) => fitting(s, changes@) == changes@.len() && edits@ == edits_of(
                        s,
                        changes@,
                    ),
                    Err(e) => fitting(s, changes@) < changes@.len(),
                }
            }),
            final(self).parsers == old(self).parsers,
            final(self).forest == old(self).forest,
            final(self).beancount_data == old(self).beancount_data,
            final(self).forest_content == old(self).forest_content,
    {
        let (mut content, version) = match self.open_docs.get(uri) {
            Some(doc) => (doc.content.clone(), doc.version),
            None => return Ok(Vec::new()),
        };
        let ghost s = self.open_docs@[uri@].text();
        let mut edits: Vec<InputEdit> = Vec::with_capacity(changes.len());
        let mut failed: Option<ConversionError> = None;
        let mut i: usize = 0;
        proof {
            assert(changes@.take(0).len() == 0);
        }
        while i < changes.len() && failed.is_none()
            invariant
                i <= changes@.len(),
                ropes::rope_text(content) == changed_by(s, changes@.take(i as int)),
                failed is None ==> fitting(s, changes@.take(i as int)) == i && edits@ == edits_of(
                    s,
                    changes@.take(i as int),
                ),
                failed is Some ==> i < changes@.len() && fitting(s, changes@.take(i as int)) == i
                    && fitting(s, changes@.take(i + 1)) == i,
            decreases changes@.len() - i + if failed is None { 1int } else { 0 },
        {
            proof {
                assert(changes@.take(i + 1).drop_last() =~= changes@.take(i as int));
                assert(changes@.take(i + 1).last() == changes@[i as int]);
            }
            match apply_to_rope(&mut content, &changes[i]) {
                Ok(edit) => {
                    edits.push(edit);
                    i = i + 1;
                },
                Err(e) => {
                    failed = Some(e);
                },
            }
        }
        proof {
            assert(changes@.take(changes@.len() as int) =~= changes@);
            if failed is Some {
                lemma_fitting(s, changes@, i + 1);
            }
            if changes@.len() == 1 {
                assert(changes@ =~= seq![changes@[0]]);
                law_batch_applies_each_change(s, seq![], changes@[0]);
                law_batch_stops_at_a_misfit(s, changes@);
                assert(changes@.take(0) =~= seq![]);
            }
        }
        match failed {
            Some(e) => {
                let doc = Arc::new(Document { content, version });
                make_mut(&mut self.open_docs).insert(uri.clone(), doc);
                Err(e)
            },
            None => {
                let doc = Arc::new(Document { content, version: new_version });
                make_mut(&mut self.open_docs).insert(uri.clone(), doc);
                Ok(edits)
            },
        }
    }

    /// A copy of a file's tree, with edits applied to it in order.
    pub fn edited_tree(&self, uri: &FilePath, edits: &Vec<InputEdit>) -> (r: Option<Tree>)
        ensures
            r == if self.forest@.dom().contains(uri@) {
                Some(edited_by(*self.forest@[uri@], edits@))
            } else {
                None
            },
    {
        let mut tree = match self.forest.get(uri) {
            Some(tree) => (**tree).clone(),
            None => return None,
        };
        let mut i: usize = 0;
        assert(edits@.take(0).len() == 0);
        while i < edits.len()
            invariant
                i <= edits@.len(),
                tree == edited_by(*self.forest@[uri@], edits@.take(i as int)),
            decreases edits@.len() - i,
        {
            assert(edits@.take(i + 1).drop_last() =~= edits@.take(i as int));
            syntax::edit_tree(&mut tree, &edits[i]);
            i = i + 1;
        }
        assert(edits@.take(edits@.len() as int) =~= edits@);
        Some(tree)
    }

    /// What a batch of changes does to the buffer of an open document.
    pub open spec fn buffer_changed(
        self,
        after: Self,
        uri: PathView,
        changes: Seq<TextDocumentContentChangeEvent>,
        new_version: i32,
    ) -> bool {
        let doc = self.open_docs@[uri];
        let n = fitting(doc.text(), changes);
        &&& after.open_docs@ == self.open_docs@.insert(uri, after.open_docs@[uri])
        &&& after.open_docs@[uri].text() == changed_by(doc.text(), changes.take(n as int))
        &&& after.open_docs@[uri].version == if n == changes.len() {
            new_version
        } else {
            doc.version
        }
    }

    /// A document is open, has a tree, and has the parser to bring it up to date.
    pub open spec fn has_tree_to_update(self, uri: PathView) -> bool {
        &&& self.open_docs@.dom().contains(uri)
        &&& self.forest@.dom().contains(uri)
        &&& self.parsers@.dom().contains(uri)
    }

    /// The outcome of the incremental parse that follows a batch of changes: the
    /// tree of the new text, grown from the edited old tree, or nothing.
    pub open spec fn is_reparse(
        self,
        uri: PathView,
        changes: Seq<TextDocumentContentChangeEvent>,
        tree: Option<Tree>,
    ) -> bool {
        let s = self.open_docs@[uri].text();
        treesitter_utils::is_parse_of(
            changed_by(s, changes),
            Some(edited_by(*self.forest@[uri], edits_of(s, changes))),
            tree,
        )
    }

    /// What the outcome of a parse does to the trees and the data.
    pub open spec fn tree_committed(self, after: Self, uri: PathView, tree: Option<Tree>) -> bool {
        match treesitter_utils::usable(tree) {
            Some(tree) => after.forest@ == self.forest@.insert(uri, Arc::new(tree))
                && after.beancount_data@ == self.beancount_data@,
            None => after.forest@ == self.forest@.remove(uri) && after.beancount_data@
                == self.beancount_data@.remove(uri),
        }
    }

    /// Apply incremental content changes to an open document, and parse it again
    /// if it had a tree.
    ///
    /// Each change's positions refer to the document as the previous change left
    /// it. An unknown document is left alone. Without a tree (the initial parse is
    /// still in flight, or an earlier one failed) only the buffer changes: the
    /// caller schedules a parse. How long the incremental parse takes is up to the
    /// machine; where it gives up, the document loses its tree.
    pub fn apply_change(
        &mut self,
        uri: &FilePath,
        changes: &[TextDocumentContentChangeEvent],
        new_version: i32,
    ) -> (r: Result<(), ConversionError>)
        requires
            old(self).parsers_ready(),
        ensures
            final(self).parsers_ready(),
            final(self).parsers@.dom() == old(self).parsers@.dom(),
            final(self).parsers@.remove(uri@) == old(self).parsers@.remove(uri@),
            r is Err || !old(self).has_tree_to_update(uri@) ==> final(self).parsers@
                == old(self).parsers@,
            old(self).docs_have_parsers() ==> final(self).docs_have_parsers(),
            final(self).forest_content@ == old(self).forest_content@,
            !old(self).open_docs@.dom().contains(uri@) ==> r is Ok && final(self).open_docs@
                == old(self).open_docs@,
            old(self).open_docs@.dom().contains(uri@) && changes@.len() == 1
                && treesitter_utils::edit_fits(
                ropes::rope_text(old(self).open_docs@[uri@].content),
                changes@[0],
            ) ==> r is Ok && ropes::rope_text(final(self).open_docs@[uri@].content)
                == treesitter_utils::changed(
                ropes::rope_text(old(self).open_docs@[uri@].content),
                changes@[0],
            ) && final(self).open_docs@[uri@].version == new_version,
            old(self).open_docs@.dom().contains(uri@) ==> {
                &&& old(self).buffer_changed(*final(self), uri@, changes@, new_version)
                &&& r is Ok <==> fitting(old(self).open_docs@[uri@].text(), changes@)
                    == changes@.len()
            },
            r is Err || !old(self).has_tree_to_update(uri@) ==> final(self).forest@
                == old(self).forest@ && final(self).beancount_data@ == old(self).beancount_data@,
            r is Ok && old(self).has_tree_to_update(uri@) ==> exists|tree: Option<Tree>| #[trigger]
                old(self).is_reparse(uri@, changes@, tree) && old(self).tree_committed(
                    *final(self),
                    uri@,
                    tree,
                ),
    {
        if !self.open_docs.contains_key(uri) {
            return Ok(());
        }
        let ghost s = self.open_docs@[uri@].text();
        proof {
            if changes@.len() == 1 {
                law_batch_stops_at_a_misfit(s, changes@);
                assert(changes@.take(0) =~= seq![]);
            }
        }
        let edits = match self.change_buffer(uri, changes, new_version) {
            Ok(edits) => edits,
            Err(e) => return Err(e),
        };
        proof {
            assert(changes@.take(changes@.len() as int) =~= changes@);
            assert(self.open_docs@.dom() =~= old(self).open_docs@.dom());
        }
        let old_tree = match self.edited_tree(uri, &edits) {
            Some(tree) => tree,
            None => return Ok(()),
        };
        let text = match self.open_docs.get(uri) {
            Some(doc) => doc.text_string(),
            None => return Ok(()),
        };
        let new_tree = match self.parsers.remove(uri) {
            Some(mut parser) => {
                let new_tree = treesitter_utils::parse_with_budget(
                    &mut parser,
                    text.as_str(),
                    Some(&old_tree),
                );
                self.parsers.insert(uri.clone(), parser);
                new_tree
            },
            None => return Ok(()),
        };
        proof {
            assert(self.parsers@.dom() =~= old(self).parsers@.dom());
            assert(self.parsers@.remove(uri@) =~= old(self).parsers@.remove(uri@));
            assert(old(self).is_reparse(uri@, changes@, new_tree));
        }
        self.commit_tree(uri, new_tree);
        Ok(())
    }

    /// Close a document: it stays in the forest as a file that is not open.
    ///
    /// The buffer goes, but the tree, the data and the parser stay for cross-file
    /// operations. The text moves to `forest_content`, so that it can still be
    /// read.
    pub fn close(&mut self, uri: &FilePath)
        ensures
            final(self).open_docs@ == old(self).open_docs@.remove(uri@),
            if old(self).open_docs@.dom().contains(uri@) {
                &&& final(self).forest_content@ == old(self).forest_content@.insert(
                    uri@,
                    final(self).forest_content@[uri@],
                )
                &&& ropes::rope_text(*final(self).forest_content@[uri@]) == old(self).open_docs@[uri@].text()
            } else {
                final(self).forest_content@ == old(self).forest_content@
            },
            final(self).parsers == old(self).parsers,
            final(self).forest == old(self).forest,
            final(self).beancount_data == old(self).beancount_data,
            old(self).parsers_ready() ==> final(self).parsers_ready(),
            old(self).docs_have_parsers() ==> final(self).docs_have_parsers(),
            forall|path: PathView| #[trigger]
                final(self).content_of(path) == old(self).content_of(path),
    {
        let content = match self.open_docs.get(uri) {
            Some(doc) => Some(Arc::new(doc.content.clone())),
            None => None,
        };
        if let Some(content) = content {
            make_mut(&mut self.forest_content).insert(uri.clone(), content);
        }
        make_mut(&mut self.open_docs).remove(uri);
    }

    /// Insert a freshly parsed file that is not open (includes, reloads of watched
    /// files). Its data is dropped: extracting it anew is the caller's job.
    pub fn insert_parsed(&mut self, uri: FilePath, tree: Tree, content: &str)
        ensures
            final(self).forest@ == old(self).forest@.insert(uri@, Arc::new(tree)),
            final(self).beancount_data@ == old(self).beancount_data@.remove(uri@),
            final(self).forest_content@ == old(self).forest_content@.insert(
                uri@,
                final(self).forest_content@[uri@],
            ),
            ropes::rope_text(*final(self).forest_content@[uri@]) == content@,
            final(self).open_docs == old(self).open_docs,
            final(self).parsers == old(self).parsers,
    {
        let rope = Rope::from_str(content);
        make_mut(&mut self.forest).insert(uri.clone(), Arc::new(tree));
        make_mut(&mut self.beancount_data).remove(&uri);
        make_mut(&mut self.forest_content).insert(uri, Arc::new(rope));
    }

    /// Insert a tree, data and text that were computed in the background.
    pub fn insert_tree_and_data(
        &mut self,
        uri: FilePath,
        tree: Arc<Tree>,
        data: Arc<D>,
        content: Arc<Rope>,
    )
        ensures
            final(self).forest@ == old(self).forest@.insert(uri@, tree),
            final(self).beancount_data@ == old(self).beancount_data@.insert(uri@, data),
            final(self).forest_content@ == old(self).forest_content@.insert(uri@, content),
            final(self).open_docs == old(self).open_docs,
            final(self).parsers == old(self).parsers,
    {
        make_mut(&mut self.forest).insert(uri.clone(), tree);
        make_mut(&mut self.beancount_data).insert(uri.clone(), data);
        make_mut(&mut self.forest_content).insert(uri, content);
    }

    /// Remove all that is cached of a file that was deleted.
    pub fn remove_external(&mut self, uri: &FilePath)
        ensures
            final(self).forest@ == old(self).forest@.remove(uri@),
            final(self).beancount_data@ == old(self).beancount_data@.remove(uri@),
            final(self).forest_content@ == old(self).forest_content@.remove(uri@),
            final(self).parsers@ == old(self).parsers@.remove(uri@),
            final(self).open_docs == old(self).open_docs,
            old(self).parsers_ready() ==> final(self).parsers_ready(),
            old(self).docs_have_parsers() && !old(self).open_docs@.dom().contains(uri@) ==> final(self).docs_have_parsers(),
    {
        make_mut(&mut self.forest).remove(uri);
        make_mut(&mut self.beancount_data).remove(uri);
        make_mut(&mut self.forest_content).remove(uri);
        self.parsers.remove(uri);
    }

    /// Clear what is cached of a file that changed on disk, before it is parsed
    /// again.
    pub fn invalidate_external(&mut self, uri: &FilePath)
        ensures
            final(self).forest@ == old(self).forest@.remove(uri@),
            final(self).beancount_data@ == old(self).beancount_data@.remove(uri@),
            final(self).forest_content@ == old(self).forest_content@.remove(uri@),
            final(self).open_docs == old(self).open_docs,
            final(self).parsers == old(self).parsers,
    {
        make_mut(&mut self.forest).remove(uri);
        make_mut(&mut self.beancount_data).remove(uri);
        make_mut(&mut self.forest_content).remove(uri);
    }

    /// One file leads to another: it is in the forest, its text is known, and it
    /// names the other in an include directive.
    pub open spec fn leads_to(
        self,
        includes: Map<PathView, Vec<FilePath>>,
        path: PathView,
        target: PathView,
    ) -> bool {
        &&& self.forest@.dom().contains(path)
        &&& self.content_of(path) is Some
        &&& includes.dom().contains(path)
        &&& exists|i: int|
            0 <= i < includes[path]@.len() && (#[trigger] includes[path]@[i])@ == target
    }

    /// A file can be reached in at most `steps` includes from the root.
    pub open spec fn reached_in(
        self,
        includes: Map<PathView, Vec<FilePath>>,
        root: PathView,
        path: PathView,
        steps: nat,
    ) -> bool
        decreases steps,
    {
        if steps == 0 {
            path == root
        } else {
            let before = (steps - 1) as nat;
            self.reached_in(includes, root, path, before) || exists|from: PathView| #[trigger]
                self.leads_to(includes, from, path) && self.reached_in(includes, root, from, before)
        }
    }

    /// A file is the root, or is reached from it by includes.
    pub open spec fn reachable(
        self,
        includes: Map<PathView, Vec<FilePath>>,
        root: PathView,
        path: PathView,
    ) -> bool {
        exists|steps: nat| self.reached_in(includes, root, path, steps)
    }

    /// The files of the forest that are neither open nor reachable from the root.
    pub open spec fn unreachable_files(
        self,
        includes: Map<PathView, Vec<FilePath>>,
        root: PathView,
    ) -> Set<PathView> {
        self.forest@.dom().filter(
            |path: PathView|
                !self.open_docs@.dom().contains(path) && !self.reachable(includes, root, path),
        )
    }

    /// The extraction of include directives, asked about the text of a file, named
    /// these paths.
    pub open spec fn is_extracted<F: Fn(&str, &FilePath) -> Vec<FilePath>>(
        self,
        extract: F,
        path: PathView,
        named: Vec<FilePath>,
    ) -> bool {
        exists|text: &str, file: &FilePath| #[trigger]
            call_ensures(extract, (text, file), named) && self.content_of(path) == Some(text@)
                && file@ == path
    }

    /// A map holds what the include directives name, as they were extracted, of
    /// every file of the forest that is reachable and whose text is known, and of
    /// no other.
    pub open spec fn are_includes<F: Fn(&str, &FilePath) -> Vec<FilePath>>(
        self,
        extract: F,
        root: PathView,
        includes: Map<PathView, Vec<FilePath>>,
    ) -> bool {
        &&& forall|path: PathView| #[trigger]
            includes.dom().contains(path) <==> self.reachable(includes, root, path)
                && self.forest@.dom().contains(path) && self.content_of(path) is Some
        &&& forall|path: PathView| #[trigger]
            includes.dom().contains(path) ==> self.is_extracted(extract, path, includes[path])
    }

    /// More includes reach no less.
    proof fn lemma_more_includes(
        self,
        fewer: Map<PathView, Vec<FilePath>>,
        more: Map<PathView, Vec<FilePath>>,
        root: PathView,
        path: PathView,
        steps: nat,
    )
        requires
            forall|from: PathView| #[trigger]
                fewer.dom().contains(from) ==> more.dom().contains(from) && more[from]
                    == fewer[from],
            self.reached_in(fewer, root, path, steps),
        ensures
            self.reached_in(more, root, path, steps),
        decreases steps,
    {
        if steps > 0 {
            let before = (steps - 1) as nat;
            if self.reached_in(fewer, root, path, before) {
                self.lemma_more_includes(fewer, more, root, path, before);
            } else {
                let from = choose|from: PathView| #[trigger]
                    self.leads_to(fewer, from, path) && self.reached_in(fewer, root, from, before);
                self.lemma_more_includes(fewer, more, root, from, before);
                assert(self.leads_to(more, from, path));
            }
        }
    }

    /// A set that holds the root and all that its members lead to holds everything
    /// reachable.
    proof fn lemma_closed_set(
        self,
        includes: Map<PathView, Vec<FilePath>>,
        root: PathView,
        keep: Set<PathView>,
        path: PathView,
        steps: nat,
    )
        requires
            keep.contains(root),
            forall|from: PathView, to: PathView|
                keep.contains(from) && #[trigger] self.leads_to(includes, from, to)
                    ==> keep.contains(to),
            self.reached_in(includes, root, path, steps),
        ensures
            keep.contains(path),
        decreases steps,
    {
        if steps > 0 {
            let before = (steps - 1) as nat;
            if self.reached_in(includes, root, path, before) {
                self.lemma_closed_set(includes, root, keep, path, before);
            } else {
                let from = choose|from: PathView| #[trigger]
                    self.leads_to(includes, from, path) && self.reached_in(
                        includes,
                        root,
                        from,
                        before,
                    );
                self.lemma_closed_set(includes, root, keep, from, before);
            }
        }
    }

    /// What a reachable file leads to is reachable.
    proof fn lemma_reachable_step(
        self,
        includes: Map<PathView, Vec<FilePath>>,
        root: PathView,
        from: PathView,
        to: PathView,
    )
        requires
            self.reachable(includes, root, from),
            self.leads_to(includes, from, to),
        ensures
            self.reachable(includes, root, to),
    {
        let steps = choose|steps: nat| self.reached_in(includes, root, from, steps);
        assert(self.reached_in(includes, root, to, steps + 1));
    }

    /// The set of all files that are reachable, together with the paths that those
    /// files name.
    fn reachable_files<F: Fn(&str, &FilePath) -> Vec<FilePath>>(
        &self,
        root: &FilePath,
        extract: F,
    ) -> (keep: PathSet)
        requires
            forall|text: &str, path: &FilePath| call_requires(extract, (text, path)),
        ensures
            exists|includes: Map<PathView, Vec<FilePath>>| #[trigger]
                self.are_includes(extract, root@, includes) && forall|path: PathView| #[trigger]
                    keep@.contains(path) <==> self.reachable(includes, root@, path),
    {
        let ghost mut edges: Map<PathView, Vec<FilePath>> = Map::empty();
        let mut keep = PathSet::new();
        keep.insert(root.clone());
        let mut queue: Vec<FilePath> = Vec::new();
        queue.push(root.clone());
        proof {
            assert(self.reached_in(edges, root@, root@, 0));
            assert forall|from: PathView| keep@.contains(from) implies queued(queue@, from) by {
                assert(queue@[0]@ == from);
            }
        }
        let n = self.forest.len();
        let mut expanded: Vec<bool> = Vec::with_capacity(n);
        let mut left: usize = 0;
        while left < n
            invariant
                left <= n,
                expanded@.len() == left,
                left == count_false(expanded@),
                forall|k: int| 0 <= k < left ==> !#[trigger] expanded@[k],
            decreases n - left,
        {
            let ghost before = expanded@;
            expanded.push(false);
            left = left + 1;
            assert(expanded@.drop_last() =~= before);
        }
        while queue.len() > 0
            invariant
                forall|text: &str, path: &FilePath| call_requires(extract, (text, path)),
                n == self.forest.paths().len(),
                self.forest.paths().no_duplicates(),
                forall|path: PathView| #[trigger]
                    self.forest@.dom().contains(path) <==> self.forest.paths().contains(path),
                expanded@.len() == n,
                left == count_false(expanded@),
                keep@.contains(root@),
                forall|path: PathView| #[trigger]
                    keep@.contains(path) ==> self.reachable(edges, root@, path),
                forall|k: int| 0 <= k < queue@.len() ==> keep@.contains((#[trigger] queue@[k])@),
                forall|path: PathView| #[trigger]
                    edges.dom().contains(path) ==> keep@.contains(path)
                        && self.forest@.dom().contains(path) && self.content_of(path) is Some
                        && self.is_extracted(extract, path, edges[path]),
                forall|k: int|
                    0 <= k < n ==> (edges.dom().contains(#[trigger] self.forest.paths()[k]) <==> (
                    expanded@[k] && self.content_of(self.forest.paths()[k]) is Some)),
                forall|from: PathView| #[trigger]
                    keep@.contains(from) && !queued(queue@, from) && self.forest@.dom().contains(
                        from,
                    ) && self.content_of(from) is Some ==> edges.dom().contains(from),
                forall|from: PathView, to: PathView| #[trigger]
                    self.leads_to(edges, from, to) ==> keep@.contains(to),
            decreases left, queue@.len(),
        {
            let ghost waiting = queue@;
            let path = match queue.pop() {
                Some(path) => path,
                None => return keep,
            };
            proof {
                assert(keep@.contains(waiting[waiting.len() - 1]@));
                assert forall|from: PathView| from != path@ && #[trigger] queued(
                    waiting,
                    from,
                ) implies queued(queue@, from) by {
                    let k = choose|k: int| 0 <= k < waiting.len() && (#[trigger] waiting[k])@ == from;
                    assert(queue@[k]@ == from);
                }
            }
            if let Some(i) = self.forest.place(&path) {
                if !expanded[i] {
                    proof {
                        lemma_count_false(expanded@, i as int);
                    }
                    expanded.set(i, true);
                    left = left - 1;
                    if let Some(text) = self.get_content(&path) {
                        let named = extract(text.as_str(), &path);
                        let ghost fewer = edges;
                        proof {
                            assert(self.is_extracted(extract, path@, named));
                            edges = edges.insert(path@, named);
                            assert forall|p: PathView| #[trigger]
                                keep@.contains(p) implies self.reachable(edges, root@, p) by {
                                let steps = choose|steps: nat|
                                    self.reached_in(fewer, root@, p, steps);
                                self.lemma_more_includes(fewer, edges, root@, p, steps);
                            }
                            assert forall|from: PathView, to: PathView| from
                                != path@ && #[trigger] self.leads_to(
                                edges,
                                from,
                                to,
                            ) implies keep@.contains(to) by {
                                assert(self.leads_to(fewer, from, to));
                            }
                            assert forall|k: int| 0 <= k < n implies (edges.dom().contains(
                                #[trigger] self.forest.paths()[k],
                            ) <==> (expanded@[k] && self.content_of(
                                self.forest.paths()[k],
                            ) is Some)) by {
                                if k != i {
                                    assert(self.forest.paths()[k] != self.forest.paths()[i as int]);
                                }
                            }
                        }
                        let mut j: usize = 0;
                        while j < named.len()
                            invariant
                                j <= named@.len(),
                                self.forest@.dom().contains(path@),
                                self.content_of(path@) is Some,
                                edges.dom().contains(path@),
                                named == edges[path@],
                                keep@.contains(path@),
                                keep@.contains(root@),
                                forall|p: PathView| #[trigger]
                                    keep@.contains(p) ==> self.reachable(edges, root@, p),
                                forall|k: int|
                                    0 <= k < queue@.len() ==> keep@.contains(
                                        (#[trigger] queue@[k])@,
                                    ),
                                forall|k: int|
                                    0 <= k < j ==> keep@.contains((#[trigger] named@[k])@),
                                forall|p: PathView| #[trigger]
                                    edges.dom().contains(p) ==> keep@.contains(p),
                                forall|from: PathView| #[trigger]
                                    keep@.contains(from) && !queued(queue@, from)
                                        && self.forest@.dom().contains(from) && self.content_of(
                                        from,
                                    ) is Some ==> edges.dom().contains(from),
                                forall|from: PathView, to: PathView|
                                    from != path@ && #[trigger] self.leads_to(edges, from, to)
                                        ==> keep@.contains(to),
                            decreases named@.len() - j,
                        {
                            let ghost kept = keep@;
                            let ghost queue_before = queue@;
                            let target = named[j].clone();
                            proof {
                                assert(named@[j as int]@ == target@);
                                assert(self.leads_to(edges, path@, target@));
                                self.lemma_reachable_step(edges, root@, path@, target@);
                            }
                            if keep.insert(target.clone()) {
                                queue.push(target);
                            }
                            j = j + 1;
                            proof {
                                assert forall|from: PathView| #[trigger] queued(
                                    queue_before,
                                    from,
                                ) implies queued(queue@, from) by {
                                    let k = choose|k: int|
                                        0 <= k < queue_before.len() && (
                                        #[trigger] queue_before[k])@ == from;
                                    assert(queue@[k]@ == from);
                                }
                                if !kept.contains(target@) {
                                    assert(queue@[queue@.len() - 1]@ == target@);
                                    assert(queued(queue@, target@));
                                }
                            }
                        }
                        assert forall|to: PathView| #[trigger]
                            self.leads_to(edges, path@, to) implies keep@.contains(to) by {
                            let k = choose|k: int|
                                0 <= k < edges[path@]@.len() && (#[trigger] edges[path@]@[k])@ == to;
                        }
                    }
                }
            }
        }
        proof {
            assert forall|path: PathView| self.reachable(edges, root@, path) implies
                #[trigger] keep@.contains(path) by {
                let steps = choose|steps: nat| self.reached_in(edges, root@, path, steps);
                self.lemma_closed_set(edges, root@, keep@, path, steps);
            }
            assert forall|path: PathView| #[trigger]
                edges.dom().contains(path) <==> self.reachable(edges, root@, path)
                    && self.forest@.dom().contains(path) && self.content_of(path) is Some by {
                if self.reachable(edges, root@, path) {
                    assert(keep@.contains(path));
                }
            }
            assert(self.are_includes(extract, root@, edges));
        }
        keep
    }

    /// What is left without some files, and the list of those.
    pub open spec fn is_pruned(
        self,
        after: Self,
        gone: Set<PathView>,
        pruned: Seq<FilePath>,
    ) -> bool {
        &&& paths::lists(pruned, gone)
        &&& after.forest@ == self.forest@.remove_keys(gone)
        &&& after.beancount_data@ == self.beancount_data@.remove_keys(gone)
        &&& after.forest_content@ == self.forest_content@.remove_keys(gone)
        &&& after.parsers@ == self.parsers@.remove_keys(gone)
    }

    /// Drop forest entries that are neither open nor reachable from `root` via
    /// include directives. Returns the pruned paths.
    ///
    /// `extract` takes the paths that include directives name from the text of a
    /// file. The include graph changes with every edit of a journal; without
    /// pruning, a file whose include line was removed keeps feeding completions,
    /// references and diagnostics forever.
    pub fn retain_reachable<F: Fn(&str, &FilePath) -> Vec<FilePath>>(
        &mut self,
        root: &FilePath,
        extract: F,
    ) -> (pruned: Vec<FilePath>)
        requires
            forall|text: &str, path: &FilePath| call_requires(extract, (text, path)),
        ensures
            exists|includes: Map<PathView, Vec<FilePath>>| #[trigger]
                old(self).are_includes(extract, root@, includes) && old(self).is_pruned(
                    *final(self),
                    old(self).unreachable_files(includes, root@),
                    pruned@,
                ) && forall|path: PathView| #[trigger]
                    final(self).forest@.dom().contains(path) <==> old(self).forest@.dom().contains(
                        path,
                    ) && (old(self).open_docs@.dom().contains(path) || old(self).reachable(
                        includes,
                        root@,
                        path,
                    )),
            final(self).open_docs == old(self).open_docs,
            old(self).parsers_ready() ==> final(self).parsers_ready(),
            old(self).docs_have_parsers() ==> final(self).docs_have_parsers(),
    {
        let keep = self.reachable_files(root, extract);
        let pruned = self.forest.keys_missing_in_both(&self.open_docs, &keep);
        let ghost includes = choose|includes: Map<PathView, Vec<FilePath>>| #[trigger]
            self.are_includes(extract, root@, includes) && forall|path: PathView| #[trigger]
                keep@.contains(path) <==> self.reachable(includes, root@, path);
        let ghost gone = self.unreachable_files(includes, root@);
        assert(self.forest@.dom().difference(self.open_docs@.dom()).difference(keep@) =~= gone);
        let mut i: usize = 0;
        let ghost mut done: Set<PathView> = Set::empty();
        proof {
            assert(self.forest@.remove_keys(done) =~= self.forest@);
            assert(self.beancount_data@.remove_keys(done) =~= self.beancount_data@);
            assert(self.forest_content@.remove_keys(done) =~= self.forest_content@);
            assert(self.parsers@.remove_keys(done) =~= self.parsers@);
        }
        while i < pruned.len()
            invariant
                i <= pruned@.len(),
                paths::lists(pruned@, gone),
                forall|path: PathView| #[trigger]
                    done.contains(path) <==> exists|k: int|
                        0 <= k < i && (#[trigger] pruned@[k])@ == path,
                self.forest@ == old(self).forest@.remove_keys(done),
                self.beancount_data@ == old(self).beancount_data@.remove_keys(done),
                self.forest_content@ == old(self).forest_content@.remove_keys(done),
                self.parsers@ == old(self).parsers@.remove_keys(done),
                self.open_docs == old(self).open_docs,
            decreases pruned@.len() - i,
        {
            let path = &pruned[i];
            make_mut(&mut self.forest).remove(path);
            make_mut(&mut self.beancount_data).remove(path);
            make_mut(&mut self.forest_content).remove(path);
            self.parsers.remove(path);
            proof {
                let before = done;
                done = done.insert(path@);
                assert(self.forest@ =~= old(self).forest@.remove_keys(done));
                assert(self.beancount_data@ =~= old(self).beancount_data@.remove_keys(done));
                assert(self.forest_content@ =~= old(self).forest_content@.remove_keys(done));
                assert(self.parsers@ =~= old(self).parsers@.remove_keys(done));
                assert forall|p: PathView| #[trigger] done.contains(p) implies exists|k: int|
                    0 <= k < i + 1 && (#[trigger] pruned@[k])@ == p by {
                    if p == path@ {
                        assert(pruned@[i as int]@ == p);
                    } else {
                        assert(before.contains(p));
                    }
                }
            }
            i = i + 1;
        }
        proof {
            assert(done =~= gone);
        }
        pruned
    }

    /// The tree, text and version needed to rebuild semantic data in the
    /// background. The text of a file that is not open carries no version.
    pub fn extraction_inputs(&self, uri: &FilePath) -> (r: Option<(Arc<Tree>, Arc<Rope>, i32)>)
        ensures
            match r {
                Some((tree, content, version)) => {
                    &&& self.forest@.dom().contains(uri@)
                    &&& tree == self.forest@[uri@]
                    &&& self.content_of(uri@) == Some(ropes::rope_text(*content))
                    &&& version == if self.open_docs@.dom().contains(uri@) {
                        self.open_docs@[uri@].version
                    } else {
                        NO_VERSION
                    }
                },
                None => !self.forest@.dom().contains(uri@) || self.content_of(uri@) is None,
            },
    {
        let tree = match self.forest.get(uri) {
            Some(tree) => tree.clone(),
            None => return None,
        };
        match self.open_docs.get(uri) {
            Some(doc) => Some((tree, Arc::new(doc.content.clone()), doc.version)),
            None => match self.forest_content.get(uri) {
                Some(content) => Some((tree, content.clone(), NO_VERSION)),
                None => None,
            },
        }
    }

    /// Files that are in the forest but have no semantic data yet.
    pub fn files_missing_data(&self) -> (files: Vec<FilePath>)
        ensures
            paths::lists(files@, self.forest@.dom().difference(self.beancount_data@.dom())),
    {
        self.forest.keys_missing_in(&self.beancount_data)
    }

    /// Install semantic data computed in the background, unless the document moved
    /// on. A file that is not open has no version to compare: its data is accepted
    /// while the file is part of the forest.
    pub fn install_beancount_data(&mut self, uri: &FilePath, data: Arc<D>, version: i32)
        ensures
            final(self).beancount_data@ == if old(self).accepts_data(uri@, version) {
                old(self).beancount_data@.insert(uri@, data)
            } else {
                old(self).beancount_data@
            },
            final(self).open_docs == old(self).open_docs,
            final(self).parsers == old(self).parsers,
            final(self).forest == old(self).forest,
            final(self).forest_content == old(self).forest_content,
    {
        if version == NO_VERSION {
            if self.forest.contains_key(uri) {
                make_mut(&mut self.beancount_data).insert(uri.clone(), data);
            }
            return;
        }
        let current = match self.open_docs.get(uri) {
            Some(doc) => doc.version,
            None => return,
        };
        if current == version {
            make_mut(&mut self.beancount_data).insert(uri.clone(), data);
        }
    }

    /// Data of a version is still wanted.
    pub open spec fn accepts_data(self, uri: PathView, version: i32) -> bool {
        if version == NO_VERSION {
            self.forest@.dom().contains(uri)
        } else {
            self.open_docs@.dom().contains(uri) && self.open_docs@[uri].version == version
        }
    }

    /// Extract the semantic data of an open document if it is absent and there is
    /// a tree to extract it from.
    pub fn ensure_beancount_data<F: Fn(&Tree, &Rope) -> D>(&mut self, uri: &FilePath, extract: F)
        requires
            forall|tree: &Tree, content: &Rope| call_requires(extract, (tree, content)),
        ensures
            if !old(self).beancount_data@.dom().contains(uri@) && old(self).forest@.dom().contains(
                uri@,
            ) && old(self).open_docs@.dom().contains(uri@) {
                &&& final(self).beancount_data@ == old(self).beancount_data@.insert(
                    uri@,
                    final(self).beancount_data@[uri@],
                )
                &&& call_ensures(
                    extract,
                    (&*old(self).forest@[uri@], &old(self).open_docs@[uri@].content),
                    *final(self).beancount_data@[uri@],
                )
            } else {
                final(self).beancount_data == old(self).beancount_data
            },
            final(self).open_docs == old(self).open_docs,
            final(self).parsers == old(self).parsers,
            final(self).forest == old(self).forest,
            final(self).forest_content == old(self).forest_content,
    {
        if self.beancount_data.contains_key(uri) {
            return;
        }
        let data = match (self.forest.get(uri), self.open_docs.get(uri)) {
            (Some(tree), Some(doc)) => extract(tree, &doc.content),
            _ => return,
        };
        make_mut(&mut self.beancount_data).insert(uri.clone(), Arc::new(data));
    }

    // ── Readers ──────────────────────────────────────────────────────────────
    pub fn get_tree(&self, uri: &FilePath) -> (tree: Option<&Arc<Tree>>)
        ensures
            match tree {
                Some(tree) => self.forest@.dom().contains(uri@) && *tree == self.forest@[uri@],
                None => !self.forest@.dom().contains(uri@),
            },
    {
        self.forest.get(uri)
    }

    /// The text that matches a file's tree: that of the open buffer if there is
    /// one, else the cached one from the last parse.
    pub fn get_content(&self, uri: &FilePath) -> (content: Option<String>)
        ensures
            match content {
                Some(text) => self.content_of(uri@) == Some(text@),
                None => self.content_of(uri@) is None,
            },
    {
        match self.open_docs.get(uri) {
            Some(doc) => Some(doc.text_string()),
            None => match self.forest_content.get(uri) {
                Some(content) => Some(ropes::rope_to_string(content)),
                None => None,
            },
        }
    }

    pub fn has_open_doc(&self, uri: &FilePath) -> (r: bool)
        ensures
            r == self.open_docs@.dom().contains(uri@),
    {
        self.open_docs.contains_key(uri)
    }

    pub fn open_doc_keys(&self) -> (keys: Vec<FilePath>)
        ensures
            paths::lists(keys@, self.open_docs@.dom()),
    {
        self.open_docs.keys()
    }

    /// Share the maps as they are now. Later changes of the store leave what was
    /// handed out as it is.
    pub fn snapshot_maps(&self) -> (maps: DocumentStoreMaps<D>)
        ensures
            maps.open_docs == self.open_docs,
            maps.forest == self.forest,
            maps.beancount_data == self.beancount_data,
            maps.forest_content == self.forest_content,
    {
        DocumentStoreMaps {
            open_docs: self.open_docs.clone(),
            forest: self.forest.clone(),
            beancount_data: self.beancount_data.clone(),
            forest_content: self.forest_content.clone(),
        }
    }
}

// ── Laws ─────────────────────────────────────────────────────────────────────
/// A batch of changes has the effect of its changes one after the other: cutting
/// it in two and applying the parts in turn leads to the same text.
pub proof fn law_batch_is_sequential(
    s: Seq<char>,
    first: Seq<TextDocumentContentChangeEvent>,
    second: Seq<TextDocumentContentChangeEvent>,
)
    ensures
        changed_by(s, first + second) == changed_by(changed_by(s, first), second),
        edits_of(s, first + second) == edits_of(s, first) + edits_of(
            changed_by(s, first),
            second,
        ),
    decreases second.len(),
{
    if second.len() == 0 {
        assert(first + second =~= first);
        assert(edits_of(s, first) + edits_of(changed_by(s, first), second) =~= edits_of(s, first));
    } else {
        assert((first + second).drop_last() =~= first + second.drop_last());
        assert((first + second).last() == second.last());
        law_batch_is_sequential(s, first, second.drop_last());
        assert(edits_of(s, first + second) =~= edits_of(s, first) + edits_of(
            changed_by(s, first),
            second,
        ));
    }
}

/// Every edit of a batch is that of its change, in the text as the changes before
/// it left it.
pub proof fn law_edits_follow_the_batch(
    s: Seq<char>,
    changes: Seq<TextDocumentContentChangeEvent>,
    i: int,
)
    requires
        0 <= i < changes.len(),
    ensures
        edits_of(s, changes).len() == changes.len(),
        edits_of(s, changes)[i] == treesitter_utils::edit_of(
            changed_by(s, changes.take(i)),
            changes[i],
        ),
    decreases changes.len(),
{
    let front = changes.drop_last();
    assert(changes.take(changes.len() - 1) =~= front);
    if i < front.len() {
        law_edits_follow_the_batch(s, front, i);
        assert(front.take(i) =~= changes.take(i));
    } else if front.len() > 0 {
        law_edits_follow_the_batch(s, front, 0);
    } else {
        assert(edits_of(s, front).len() == 0);
    }
}

/// A change of the whole document leaves nothing of the old text.
pub proof fn law_whole_document_is_replaced(
    s: Seq<char>,
    whole: TextDocumentContentChangeWholeDocument,
)
    ensures
        treesitter_utils::changed(
            s,
            TextDocumentContentChangeEvent::TextDocumentContentChangeWholeDocument(whole),
        ) == whole.text@,
{
    let change = TextDocumentContentChangeEvent::TextDocumentContentChangeWholeDocument(whole);
    assert(treesitter_utils::changed(s, change) =~= whole.text@);
}

/// Pruning never drops an open document, the root, or a file that a file reachable
/// from the root leads to.
pub proof fn law_pruning_keeps_what_is_in_use<D>(
    store: DocumentStore<D>,
    includes: Map<PathView, Vec<FilePath>>,
    root: PathView,
)
    ensures
        !store.unreachable_files(includes, root).contains(root),
        forall|uri: PathView|
            store.open_docs@.dom().contains(uri) ==> !#[trigger] store.unreachable_files(
                includes,
                root,
            ).contains(uri),
        forall|from: PathView, to: PathView|
            store.reachable(includes, root, from) && #[trigger] store.leads_to(includes, from, to)
                ==> !store.unreachable_files(includes, root).contains(to),
{
    assert(store.reached_in(includes, root, root, 0));
    assert forall|from: PathView, to: PathView|
        store.reachable(includes, root, from) && #[trigger] store.leads_to(
            includes,
            from,
            to,
        ) implies !store.unreachable_files(includes, root).contains(to) by {
        store.lemma_reachable_step(includes, root, from, to);
    }
}

// ── Laws of buffers ──────────────────────────────────────────────────────────
/// The smallest batches: none leaves the text as it is, and one change has the
/// effect of that change. One more change takes effect on what the others left.
pub proof fn law_batch_applies_each_change(
    s: Seq<char>,
    changes: Seq<TextDocumentContentChangeEvent>,
    change: TextDocumentContentChangeEvent,
)
    ensures
        changed_by(s, seq![]) == s,
        changed_by(s, seq![change]) == treesitter_utils::changed(s, change),
        changed_by(s, changes.push(change)) == treesitter_utils::changed(
            changed_by(s, changes),
            change,
        ),
        edits_of(s, seq![]).len() == 0,
        edits_of(s, seq![change]) == seq![treesitter_utils::edit_of(s, change)],
        edits_of(s, changes.push(change)) == edits_of(s, changes).push(
            treesitter_utils::edit_of(changed_by(s, changes), change),
        ),
{
    let one = seq![change];
    assert(one.drop_last() =~= seq![]);
    assert(changed_by(s, one.drop_last()) == s);
    assert(edits_of(s, one.drop_last()) =~= seq![]);
    assert(edits_of(s, one) =~= seq![treesitter_utils::edit_of(s, change)]);
    assert(changes.push(change).drop_last() =~= changes);
}

/// After one change, the bytes of the text are the old ones up to the start of the
/// edit, those of the new text, and the old ones from the end of the edit on.
pub proof fn law_one_change_in_bytes(s: Seq<char>, change: TextDocumentContentChangeEvent)
    requires
        treesitter_utils::edit_fits(s, change),
        treesitter_utils::edit_of(s, change).start_byte <= treesitter_utils::edit_of(
            s,
            change,
        ).old_end_byte,
    ensures
        ({
            let edit = treesitter_utils::edit_of(s, change);
            let inserted = match change {
                TextDocumentContentChangeEvent::TextDocumentContentChangePartial(partial) => {
                    partial.text@
                },
                TextDocumentContentChangeEvent::TextDocumentContentChangeWholeDocument(whole) => {
                    whole.text@
                },
            };
            utf8::encode_utf8(changed_by(s, seq![change])) == utf8::encode_utf8(s).take(
                edit.start_byte as int,
            ) + utf8::encode_utf8(inserted) + utf8::encode_utf8(s).skip(edit.old_end_byte as int)
        }),
{
    law_batch_applies_each_change(s, seq![], change);
    treesitter_utils::law_edit_describes_change(s, change);
}

/// All changes of a batch are applied if each can be described in the text that the
/// ones before it left. Otherwise those before the first that cannot are.
pub proof fn law_batch_stops_at_a_misfit(
    s: Seq<char>,
    changes: Seq<TextDocumentContentChangeEvent>,
)
    ensures
        fitting(s, changes) <= changes.len(),
        forall|i: int|
            0 <= i < fitting(s, changes) ==> treesitter_utils::edit_fits(
                #[trigger] changed_by(s, changes.take(i)),
                changes[i],
            ),
        fitting(s, changes) < changes.len() ==> !treesitter_utils::edit_fits(
            changed_by(s, changes.take(fitting(s, changes) as int)),
            changes[fitting(s, changes) as int],
        ),
    decreases changes.len(),
{
    if changes.len() > 0 {
        let front = changes.drop_last();
        let n = fitting(s, front) as int;
        law_batch_stops_at_a_misfit(s, front);
        assert(changes.take(changes.len() - 1) =~= front);
        assert forall|i: int| 0 <= i < n implies treesitter_utils::edit_fits(
            #[trigger] changed_by(s, changes.take(i)),
            changes[i],
        ) by {
            assert(front.take(i) =~= changes.take(i));
            assert(treesitter_utils::edit_fits(changed_by(s, front.take(i)), front[i]));
        }
        if n < front.len() {
            assert(front.take(n) =~= changes.take(n));
        }
    }
}

/// A change of a buffer touches no other document. The text becomes what the
/// applied changes make of it, and the version moves on if all of them were
/// applied.
pub proof fn law_buffer_follows_the_editor<D>(
    before: DocumentStore<D>,
    after: DocumentStore<D>,
    uri: PathView,
    changes: Seq<TextDocumentContentChangeEvent>,
    new_version: i32,
)
    requires
        before.open_docs@.dom().contains(uri),
        before.buffer_changed(after, uri, changes, new_version),
    ensures
        after.open_docs@.dom() == before.open_docs@.dom(),
        forall|other: PathView|
            other != uri && before.open_docs@.dom().contains(other) ==> #[trigger] after.open_docs@[other]
                == before.open_docs@[other],
        ({
            let s = ropes::rope_text(before.open_docs@[uri].content);
            let n = fitting(s, changes);
            &&& n == changes.len() ==> ropes::rope_text(after.open_docs@[uri].content)
                == changed_by(s, changes) && after.open_docs@[uri].version == new_version
            &&& n < changes.len() ==> ropes::rope_text(after.open_docs@[uri].content)
                == changed_by(s, changes.take(n as int)) && after.open_docs@[uri].version
                == before.open_docs@[uri].version
        }),
{
    assert(changes.take(changes.len() as int) =~= changes);
    assert(after.open_docs@.dom() =~= before.open_docs@.dom());
    law_batch_stops_at_a_misfit(before.open_docs@[uri].text(), changes);
}

/// A tree is edited by one edit after the other.
pub proof fn law_tree_is_edited_in_order(tree: Tree, edits: Seq<InputEdit>, edit: InputEdit)
    ensures
        edited_by(tree, seq![]) == tree,
        edited_by(tree, edits.push(edit)) == syntax::edited_tree(edited_by(tree, edits), edit),
{
    assert(edits.push(edit).drop_last() =~= edits);
}

/// A document is parsed again from its new text and from its old tree, edited as
/// the text was, if it is open and has both a tree and a parser.
pub proof fn law_reparse_is_of_the_new_text<D>(
    store: DocumentStore<D>,
    uri: PathView,
    changes: Seq<TextDocumentContentChangeEvent>,
    tree: Option<Tree>,
)
    ensures
        store.has_tree_to_update(uri) <==> store.open_docs@.dom().contains(uri)
            && store.forest@.dom().contains(uri) && store.parsers@.dom().contains(uri),
        store.is_reparse(uri, changes, tree) <==> treesitter_utils::is_parse_of(
            changed_by(ropes::rope_text(store.open_docs@[uri].content), changes),
            Some(
                edited_by(
                    *store.forest@[uri],
                    edits_of(ropes::rope_text(store.open_docs@[uri].content), changes),
                ),
            ),
            tree,
        ),
{
}

/// After a parse a file has the new tree and keeps its data, or, where there is no
/// tree or one with a node more than 256 levels deep, has neither. Other files stay
/// as they are.
pub proof fn law_tree_and_data_leave_together<D>(
    before: DocumentStore<D>,
    after: DocumentStore<D>,
    uri: PathView,
    tree: Option<Tree>,
)
    requires
        before.tree_committed(after, uri, tree),
    ensures
        tree matches Some(t) && (forall|i: int|
            0 <= i < syntax::tree_depths(t).len() ==> #[trigger] syntax::tree_depths(t)[i] <= 256)
            ==> after.forest@.dom().contains(uri) && Some(*after.forest@[uri]) == tree
            && after.beancount_data@ == before.beancount_data@,
        tree is None ==> !after.forest@.dom().contains(uri)
            && !after.beancount_data@.dom().contains(uri),
        tree matches Some(t) && (exists|i: int|
            0 <= i < syntax::tree_depths(t).len() && #[trigger] syntax::tree_depths(t)[i] > 256)
            ==> !after.forest@.dom().contains(uri) && !after.beancount_data@.dom().contains(uri),
        after.forest@.remove(uri) == before.forest@.remove(uri),
        after.beancount_data@.remove(uri) == before.beancount_data@.remove(uri),
{
    assert(after.forest@.remove(uri) =~= before.forest@.remove(uri));
    assert(after.beancount_data@.remove(uri) =~= before.beancount_data@.remove(uri));
}

/// The text of a file is that of its buffer while it is open, and the cached one
/// otherwise. Data of a version is wanted if the document is open at that version;
/// data without one, if the file is in the forest.
pub proof fn law_buffer_comes_first<D>(store: DocumentStore<D>, uri: PathView, version: i32)
    ensures
        store.open_docs@.dom().contains(uri) ==> store.content_of(uri) == Some(
            ropes::rope_text(store.open_docs@[uri].content),
        ),
        !store.open_docs@.dom().contains(uri) && store.forest_content@.dom().contains(uri)
            ==> store.content_of(uri) == Some(ropes::rope_text(*store.forest_content@[uri])),
        !store.open_docs@.dom().contains(uri) && !store.forest_content@.dom().contains(uri)
            ==> store.content_of(uri) is None,
        NO_VERSION == i32::MIN,
        version != i32::MIN ==> (store.accepts_data(uri, version)
            <==> store.open_docs@.dom().contains(uri) && store.open_docs@[uri].version == version),
        version == i32::MIN ==> (store.accepts_data(uri, version) <==> store.forest@.dom().contains(
            uri,
        )),
        store.docs_have_parsers() <==> forall|path: PathView| #[trigger]
            store.open_docs@.dom().contains(path) ==> store.parsers@.dom().contains(path),
        store.parsers_ready() <==> forall|path: PathView| #[trigger]
            store.parsers@.dom().contains(path) ==> syntax::parser_loaded(store.parsers@[path])
                && syntax::parser_idle(store.parsers@[path]),
{
}

// ── Laws of pruning ──────────────────────────────────────────────────────────
/// Pruning is complete: exactly the files of the forest go that are neither open nor
/// reachable from the root.
pub proof fn law_pruning_is_complete<D>(
    store: DocumentStore<D>,
    includes: Map<PathView, Vec<FilePath>>,
    root: PathView,
    path: PathView,
)
    ensures
        store.unreachable_files(includes, root).contains(path) <==> store.forest@.dom().contains(path)
            && !store.open_docs@.dom().contains(path) && !store.reachable(includes, root, path),
{
}

/// One file leads to another if it is in the forest, its text is known, and the
/// other is among the paths that it includes.
pub proof fn law_files_lead_to_what_they_include<D>(
    store: DocumentStore<D>,
    includes: Map<PathView, Vec<FilePath>>,
    from: PathView,
    to: PathView,
)
    ensures
        store.leads_to(includes, from, to) <==> {
            &&& store.forest@.dom().contains(from)
            &&& store.open_docs@.dom().contains(from) || store.forest_content@.dom().contains(from)
            &&& includes.dom().contains(from)
            &&& exists|i: int|
                0 <= i < includes[from]@.len() && (#[trigger] includes[from]@[i])@ == to
        },
{
}

/// Whatever a chain of includes from the root ends in is reachable.
pub proof fn law_chains_reach<D>(
    store: DocumentStore<D>,
    includes: Map<PathView, Vec<FilePath>>,
    chain: Seq<PathView>,
)
    requires
        chain.len() > 0,
        forall|i: int|
            0 <= i < chain.len() - 1 ==> store.leads_to(includes, #[trigger] chain[i], chain[i + 1]),
    ensures
        store.reachable(includes, chain[0], chain.last()),
    decreases chain.len(),
{
    let root = chain[0];
    if chain.len() == 1 {
        assert(store.reached_in(includes, root, root, 0));
    } else {
        let front = chain.drop_last();
        assert forall|i: int| 0 <= i < front.len() - 1 implies store.leads_to(
            includes,
            #[trigger] front[i],
            front[i + 1],
        ) by {
            assert(front[i] == chain[i]);
        }
        law_chains_reach(store, includes, front);
        assert(front.last() == chain[chain.len() - 2]);
        store.lemma_reachable_step(includes, root, front.last(), chain.last());
    }
}

/// Whatever is reachable is at the end of a chain of includes from the root.
pub proof fn law_reached_by_a_chain<D>(
    store: DocumentStore<D>,
    includes: Map<PathView, Vec<FilePath>>,
    root: PathView,
    path: PathView,
) -> (chain: Seq<PathView>)
    requires
        store.reachable(includes, root, path),
    ensures
        chain.len() > 0,
        chain[0] == root,
        chain.last() == path,
        forall|i: int|
            0 <= i < chain.len() - 1 ==> store.leads_to(includes, #[trigger] chain[i], chain[i + 1]),
{
    let steps = choose|steps: nat| store.reached_in(includes, root, path, steps);
    lemma_chain(store, includes, root, path, steps)
}

proof fn lemma_chain<D>(
    store: DocumentStore<D>,
    includes: Map<PathView, Vec<FilePath>>,
    root: PathView,
    path: PathView,
    steps: nat,
) -> (chain: Seq<PathView>)
    requires
        store.reached_in(includes, root, path, steps),
    ensures
        chain.len() > 0,
        chain[0] == root,
        chain.last() == path,
        forall|i: int|
            0 <= i < chain.len() - 1 ==> store.leads_to(includes, #[trigger] chain[i], chain[i + 1]),
    decreases steps,
{
    if steps == 0 {
        seq![root]
    } else {
        let before = (steps - 1) as nat;
        if store.reached_in(includes, root, path, before) {
            lemma_chain(store, includes, root, path, before)
        } else {
            let from = choose|from: PathView| #[trigger]
                store.leads_to(includes, from, path) && store.reached_in(
                    includes,
                    root,
                    from,
                    before,
                );
            let front = lemma_chain(store, includes, root, from, before);
            let chain = front.push(path);
            assert forall|i: int| 0 <= i < chain.len() - 1 implies store.leads_to(
                includes,
                #[trigger] chain[i],
                chain[i + 1],
            ) by {
                if i < front.len() - 1 {
                    assert(chain[i] == front[i]);
                } else {
                    assert(front[i] == front.last());
                }
            }
            chain
        }
    }
}

/// What pruning leaves: of every file that goes, the tree, the data, the text and
/// the parser go, and it is named once. All that is kept of other files stays.
pub proof fn law_pruned_files_leave_nothing<D>(
    before: DocumentStore<D>,
    after: DocumentStore<D>,
    gone: Set<PathView>,
    pruned: Seq<FilePath>,
    path: PathView,
)
    requires
        before.is_pruned(after, gone, pruned),
    ensures
        gone.contains(path) ==> {
            &&& !after.forest@.dom().contains(path)
            &&& !after.beancount_data@.dom().contains(path)
            &&& !after.forest_content@.dom().contains(path)
            &&& !after.parsers@.dom().contains(path)
            &&& exists|i: int| 0 <= i < pruned.len() && (#[trigger] pruned[i])@ == path
        },
        !gone.contains(path) ==> {
            &&& after.forest@.dom().contains(path) == before.forest@.dom().contains(path)
            &&& before.forest@.dom().contains(path) ==> after.forest@[path] == before.forest@[path]
            &&& after.beancount_data@.dom().contains(path) == before.beancount_data@.dom().contains(
                path,
            )
            &&& before.beancount_data@.dom().contains(path) ==> after.beancount_data@[path]
                == before.beancount_data@[path]
            &&& after.forest_content@.dom().contains(path) == before.forest_content@.dom().contains(
                path,
            )
            &&& before.forest_content@.dom().contains(path) ==> after.forest_content@[path]
                == before.forest_content@[path]
            &&& after.parsers@.dom().contains(path) == before.parsers@.dom().contains(path)
            &&& before.parsers@.dom().contains(path) ==> after.parsers@[path]
                == before.parsers@[path]
            &&& forall|i: int| 0 <= i < pruned.len() ==> (#[trigger] pruned[i])@ != path
        },
        forall|i: int, j: int|
            0 <= i < j < pruned.len() ==> (#[trigger] pruned[i])@ != (#[trigger] pruned[j])@,
{
    assert forall|i: int| 0 <= i < pruned.len() && !gone.contains(path) implies (
    #[trigger] pruned[i])@ != path by {
        assert(gone.contains(pruned[i]@));
    }
}

/// Include directives are taken from the text of every file of the forest that is
/// reachable: from its buffer while it is open, else from the cached text.
pub proof fn law_includes_come_from_the_texts<D, F: Fn(&str, &FilePath) -> Vec<FilePath>>(
    store: DocumentStore<D>,
    extract: F,
    root: PathView,
    includes: Map<PathView, Vec<FilePath>>,
    path: PathView,
)
    requires
        store.are_includes(extract, root, includes),
        store.reachable(includes, root, path),
        store.forest@.dom().contains(path),
    ensures
        store.open_docs@.dom().contains(path) ==> includes.dom().contains(path) && exists|
            text: &str,
            file: &FilePath,
        | #[trigger]
            call_ensures(extract, (text, file), includes[path]) && file@ == path && text@
                == ropes::rope_text(store.open_docs@[path].content),
        !store.open_docs@.dom().contains(path) && store.forest_content@.dom().contains(path)
            ==> includes.dom().contains(path) && exists|text: &str, file: &FilePath| #[trigger]
            call_ensures(extract, (text, file), includes[path]) && file@ == path && text@
                == ropes::rope_text(*store.forest_content@[path]),
{
    if includes.dom().contains(path) {
        assert(store.is_extracted(extract, path, includes[path]));
    }
}

} // verus!
