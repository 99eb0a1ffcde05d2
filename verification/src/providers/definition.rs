//! Go to definition.
use crate::document::Document;
use crate::file_path;
use crate::file_path::FilePath;
use crate::file_path::PathView;
use crate::paths::PathMap;
use crate::protocol::Location;
use crate::protocol::LocationLink;
use crate::protocol::Position;
use crate::protocol::Range;
use crate::ropes;
use crate::server::LookupError;
use crate::server::LspServerStateSnapshot;
use crate::strings;
use crate::syntax;
use crate::syntax::Capture;
use crate::syntax::Node;
use crate::syntax::NodeKind;
use crate::text;
use crate::treesitter_utils;
use crate::treesitter_utils::ConversionError;
use crate::uris;
use ropey::Rope;
use std::sync::Arc;
use tree_sitter_beancount::tree_sitter::Query;
use tree_sitter_beancount::tree_sitter::Tree;
use vstd::prelude::*;
use vstd::utf8;

verus! {

/// The source text of a node: there is none where the node does not lie within
/// the text, or cuts a character apart.
pub open spec fn node_text(s: Seq<char>, node: Node) -> Option<Seq<char>> {
    let start = node.start_byte as int;
    let end = node.end_byte as int;
    if start <= end <= text::utf8_len(s) && (start == end || (text::is_boundary(s, start)
        && text::is_boundary(s, end))) {
        Some(treesitter_utils::text_between(s, start, end))
    } else {
        None
    }
}

/// The node of the first capture of an index.
pub open spec fn first_captured(captures: Seq<Capture>, index: u32) -> Option<Node>
    decreases captures.len(),
{
    if captures.len() == 0 {
        None
    } else if captures[0].index == index {
        Some(captures[0].node)
    } else {
        first_captured(captures.drop_first(), index)
    }
}

/// A match defines a name: the first node that it captures under the index has
/// the name as its text.
pub open spec fn defines(
    s: Seq<char>,
    captures: Seq<Capture>,
    index: u32,
    name: Seq<char>,
) -> bool {
    first_captured(captures, index) matches Some(node) && node_text(s, node) == Some(name)
}

/// The ranges of the definitions of a name among the matches in a text.
pub open spec fn definition_ranges(
    s: Seq<char>,
    matches: Seq<Seq<Capture>>,
    index: u32,
    name: Seq<char>,
) -> Seq<Range>
    decreases matches.len(),
{
    if matches.len() == 0 {
        seq![]
    } else {
        let before = definition_ranges(s, matches.drop_last(), index, name);
        if defines(s, matches.last(), index, name) {
            before.push(
                treesitter_utils::range_of_node(
                    s,
                    first_captured(matches.last(), index).unwrap(),
                ),
            )
        } else {
            before
        }
    }
}

/// The node of the first capture of an index.
fn find_first_captured(captures: &Vec<Capture>, index: u32) -> (r: Option<Node>)
    ensures
        r == first_captured(captures@, index),
{
    let mut i: usize = 0;
    assert(captures@.skip(0) =~= captures@);
    while i < captures.len()
        invariant
            i <= captures@.len(),
            first_captured(captures@, index) == first_captured(captures@.skip(i as int), index),
        decreases captures@.len() - i,
    {
        if captures[i].index == index {
            return Some(captures[i].node);
        }
        assert(captures@.skip(i as int).drop_first() =~= captures@.skip(i + 1));
        i = i + 1;
    }
    None
}

/// Whether the source text of a node is a given name.
fn has_text(source: &str, node: &Node, name: &str) -> (r: bool)
    ensures
        r == (node_text(source@, *node) == Some(name@)),
{
    let ghost s = source@;
    let start = node.start_byte;
    let end = node.end_byte;
    if start > end || end > strings::byte_len(source) {
        return false;
    }
    if start == end {
        proof {
            text::lemma_locate(s, text::utf8_widths(), start as int);
        }
        assert(treesitter_utils::text_between(s, start as int, end as int) =~= seq![]);
        assert(name@.len() == 0 ==> name@ =~= seq![]);
        return name.is_empty();
    }
    if !strings::is_char_boundary(source, start) || !strings::is_char_boundary(source, end) {
        return false;
    }
    proof {
        text::lemma_boundary_in_prefix(s, start as int, end as int);
    }
    strings::equal(strings::slice(source, start, end), name)
}

/// The ranges of the definitions of a name in one file, given the matches of the
/// query there.
pub fn definitions_in_file(
    content: &Rope,
    matches: &Vec<Vec<Capture>>,
    index: u32,
    name: &str,
) -> (ranges: Vec<Range>)
    ensures
        ranges@ == definition_ranges(
            ropes::rope_text(*content),
            syntax::capture_lists(matches@),
            index,
            name@,
        ),
{
    let ghost s = ropes::rope_text(*content);
    let ghost all = syntax::capture_lists(matches@);
    let source = ropes::rope_to_string(content);
    let mut ranges: Vec<Range> = Vec::new();
    let mut i: usize = 0;
    assert(all.take(0).len() == 0);
    while i < matches.len()
        invariant
            s == ropes::rope_text(*content),
            source@ == s,
            all == syntax::capture_lists(matches@),
            i <= matches@.len(),
            ranges@ == definition_ranges(s, all.take(i as int), index, name@),
        decreases matches@.len() - i,
    {
        proof {
            assert(all.take(i + 1).drop_last() =~= all.take(i as int));
            assert(all.take(i + 1).last() == matches@[i as int]@);
        }
        if let Some(node) = find_first_captured(&matches[i], index) {
            if has_text(source.as_str(), &node, name) {
                ranges.push(treesitter_utils::tree_sitter_node_to_lsp_range(content, &node));
            }
        }
        i = i + 1;
    }
    assert(all.take(all.len() as int) =~= all);
    ranges
}

/// The files that a search goes through.
pub struct Files<'a> {
    pub forest: &'a PathMap<Arc<Tree>>,
    pub open_docs: &'a PathMap<Arc<Document>>,
    pub forest_content: &'a PathMap<Arc<Rope>>,
}

impl<'a> Files<'a> {
    /// The text that matches a file's tree: that of the open buffer, else the
    /// cached one; never what is on disk, which may have changed since the tree
    /// was parsed.
    pub open spec fn text_of(&self, path: PathView) -> Option<Seq<char>> {
        if self.open_docs@.dom().contains(path) {
            Some(self.open_docs@[path].text())
        } else if self.forest_content@.dom().contains(path) {
            Some(ropes::rope_text(*self.forest_content@[path]))
        } else {
            None
        }
    }

    /// The definitions of a name in one file: none where its text or its URI is
    /// not known.
    pub open spec fn definitions_at(
        &self,
        path: PathView,
        query: Query,
        index: u32,
        name: Seq<char>,
        uris: Map<PathView, String>,
    ) -> Seq<(Seq<char>, Range)> {
        match self.text_of(path) {
            Some(s) if uris.dom().contains(path) => {
                let ranges = definition_ranges(
                    s,
                    syntax::query_matches(query, *self.forest@[path], s),
                    index,
                    name,
                );
                Seq::new(ranges.len(), |i: int| (uris[path]@, ranges[i]))
            },
            _ => seq![],
        }
    }

    /// The definitions of a name in a sequence of files.
    pub open spec fn definitions_in(
        &self,
        paths: Seq<PathView>,
        query: Query,
        index: u32,
        name: Seq<char>,
        uris: Map<PathView, String>,
    ) -> Seq<(Seq<char>, Range)>
        decreases paths.len(),
    {
        if paths.len() == 0 {
            seq![]
        } else {
            self.definitions_in(paths.drop_last(), query, index, name, uris) + self.definitions_at(
                paths.last(),
                query,
                index,
                name,
                uris,
            )
        }
    }

    /// The definitions of a name in the forest: what the query captures under the
    /// first index of the capture's name.
    pub open spec fn definitions(
        &self,
        query: Query,
        capture_name: Seq<char>,
        name: Seq<char>,
        uris: Map<PathView, String>,
    ) -> Seq<(Seq<char>, Range)> {
        let names = syntax::query_capture_names(query);
        if names.contains(capture_name) {
            self.definitions_in(
                self.forest.paths(),
                query,
                names.index_of_first(capture_name).unwrap() as u32,
                name,
                uris,
            )
        } else {
            seq![]
        }
    }

    /// The text of a file, as a rope.
    fn content(&self, path: &FilePath) -> (r: Option<&'a Rope>)
        ensures
            match r {
                Some(content) => self.text_of(path@) == Some(ropes::rope_text(*content)),
                None => self.text_of(path@) is None,
            },
    {
        match self.open_docs.get(path) {
            Some(doc) => Some(&doc.content),
            None => match self.forest_content.get(path) {
                Some(content) => Some(content),
                None => None,
            },
        }
    }
}

/// Locations as pairs of URI and range.
pub open spec fn places(locations: Seq<Location>) -> Seq<(Seq<char>, Range)> {
    Seq::new(locations.len(), |i: int| (locations[i].uri@, locations[i].range))
}

/// The definitions of a name in the files of the forest, given the URIs of the
/// files that have one.
pub fn find_definitions_with_uris(
    files: &Files,
    query: &Query,
    capture_name: &str,
    name: &str,
    uris: &PathMap<String>,
) -> (locations: Vec<Location>)
    ensures
        places(locations@) == files.definitions(*query, capture_name@, name@, uris@),
{
    let ghost names = syntax::query_capture_names(*query);
    let mut locations: Vec<Location> = Vec::new();
    let index = match query.capture_index_for_name(capture_name) {
        Some(index) => index,
        None => {
            assert(places(locations@) =~= seq![]);
            return locations;
        },
    };
    proof {
        assert(names.contains(names[index as int]));
        names.index_of_first_ensures(capture_name@);
    }
    let ghost order = files.forest.paths();
    let n = files.forest.len();
    let mut i: usize = 0;
    assert(order.take(0).len() == 0);
    assert(places(locations@) =~= seq![]);
    while i < n
        invariant
            order == files.forest.paths(),
            n == order.len(),
            i <= n,
            places(locations@) == files.definitions_in(
                order.take(i as int),
                *query,
                index,
                name@,
                uris@,
            ),
        decreases n - i,
    {
        let (path, tree) = files.forest.entry(i);
        let ghost found = files.definitions_at(path@, *query, index, name@, uris@);
        let ghost before = locations@;
        proof {
            assert(order.take(i + 1).drop_last() =~= order.take(i as int));
            assert(order.take(i + 1).last() == path@);
        }
        if let (Some(content), Some(uri)) = (files.content(path), uris.get(path)) {
            let source = ropes::rope_to_string(content);
            let matches = syntax::run_query(query, tree, source.as_str());
            let ranges = definitions_in_file(content, &matches, index, name);
            proof {
                assert(syntax::capture_lists(matches@) =~= syntax::query_matches(
                    *query,
                    **tree,
                    source@,
                ));
            }
            let mut j: usize = 0;
            while j < ranges.len()
                invariant
                    j <= ranges@.len(),
                    found.len() == ranges@.len(),
                    forall|k: int|
                        0 <= k < ranges@.len() ==> #[trigger] found[k] == (uri@, ranges@[k]),
                    places(locations@) == places(before) + found.take(j as int),
                decreases ranges@.len() - j,
            {
                let ghost shorter = locations@;
                locations.push(Location { uri: uri.clone(), range: ranges[j] });
                proof {
                    assert(places(locations@) =~= places(shorter).push(found[j as int]));
                    assert(found.take(j + 1) =~= found.take(j as int).push(found[j as int]));
                }
                j = j + 1;
            }
            assert(found.take(found.len() as int) =~= found);
        } else {
            assert(places(before) + found =~= places(before));
        }
        i = i + 1;
    }
    assert(order.take(order.len() as int) =~= order);
    locations
}

/// The URIs of the files of a forest that have one. Which have one, and which it
/// is, is up to the system.
fn forest_uris(forest: &PathMap<Arc<Tree>>) -> (uris: PathMap<String>)
    ensures
        are_uris_of(forest@.dom(), uris@),
{
    let n = forest.len();
    let ghost order = forest.paths();
    let mut found: PathMap<String> = PathMap::new();
    let mut i: usize = 0;
    while i < n
        invariant
            order == forest.paths(),
            order.no_duplicates(),
            n == order.len(),
            i <= n,
            are_uris_of(order.take(i as int).to_set(), found@),
        decreases n - i,
    {
        let (path, tree) = forest.entry(i);
        let ghost done = order.take(i as int);
        let ghost before = found@;
        proof {
            assert(order.take(i + 1) =~= done.push(path@));
            if done.contains(path@) {
                let k = done.index_of(path@);
                assert(order[k] == order[i as int]);
            }
        }
        if let Some(uri) = uris::uri_of(path) {
            found.insert(path.clone(), uri);
        }
        proof {
            let after = order.take(i + 1);
            assert(after[i as int] == path@);
            assert forall|other: PathView| #[trigger] after.to_set().contains(other) <==> (other
                == path@ || done.to_set().contains(other)) by {
                if done.contains(other) {
                    let k = done.index_of(other);
                    assert(after[k] == other);
                }
                if after.contains(other) && other != path@ {
                    let k = after.index_of(other);
                    assert(done[k] == other);
                }
            }
            assert forall|other: PathView| #[trigger] after.to_set().contains(other) implies uris::is_uri_of(
                other,
                uri_at(found@, other),
            ) by {
                if other != path@ {
                    assert(done.to_set().contains(other));
                    assert(uri_at(found@, other) == uri_at(before, other));
                }
            }
        }
        i = i + 1;
    }
    proof {
        assert(order.take(n as int) =~= order);
        assert(order.to_set() =~= forest@.dom());
    }
    found
}

/// The URI that a map holds of a path.
pub open spec fn uri_at(uris: Map<PathView, String>, path: PathView) -> Option<String> {
    if uris.dom().contains(path) {
        Some(uris[path])
    } else {
        None
    }
}

/// A map holds of each path what the system gave for it, and of nothing else: a
/// URI with the `file` scheme, or none.
pub open spec fn are_uris_of(paths: Set<PathView>, uris: Map<PathView, String>) -> bool {
    &&& uris.dom().subset_of(paths)
    &&& forall|path: PathView| #[trigger]
        uris.dom().contains(path) ==> "file://"@.is_prefix_of(uris[path]@)
    &&& forall|path: PathView| #[trigger]
        paths.contains(path) ==> uris::is_uri_of(path, uri_at(uris, path))
}

/// The definitions of a name in the files of the forest.
pub fn find_definitions(
    forest: &PathMap<Arc<Tree>>,
    open_docs: &PathMap<Arc<Document>>,
    forest_content: &PathMap<Arc<Rope>>,
    query: &Query,
    capture_name: &str,
    node_text: String,
) -> (locations: Vec<Location>)
    ensures
        exists|uris: Map<PathView, String>| #[trigger]
            are_uris_of(forest@.dom(), uris) && places(locations@) == (Files {
                forest,
                open_docs,
                forest_content,
            }).definitions(*query, capture_name@, node_text@, uris),
{
    let uris = forest_uris(forest);
    let files = Files { forest, open_docs, forest_content };
    find_definitions_with_uris(&files, query, capture_name, node_text.as_str(), &uris)
}

/// Why a definition could not be looked for.
#[derive(Clone, Debug)]
pub enum DefinitionError {
    /// The document is not known.
    Lookup(LookupError),
    /// The position cannot be converted.
    Conversion(ConversionError),
    /// The tree is not one of this text: the node under the cursor does not lie
    /// within it.
    StaleTree,
}

/// The queries that find definitions: one that captures the accounts that are
/// opened as `account`, and one that captures the commodities that are declared
/// as `currency`.
pub struct DefinitionQueries<'a> {
    pub account: &'a Query,
    pub commodity: &'a Query,
}

/// The query and the capture's name by which the definition of a kind of node is
/// found.
pub open spec fn query_for_kind(queries: DefinitionQueries<'_>, kind: NodeKind) -> Option<
    (Query, Seq<char>),
> {
    match kind {
        NodeKind::Account => Some((*queries.account, "account"@)),
        NodeKind::Currency => Some((*queries.commodity, "currency"@)),
        NodeKind::Other => None,
    }
}

/// A node lies within a text.
pub open spec fn lies_within(s: Seq<char>, node: Node) -> bool {
    node.start_byte <= node.end_byte <= text::utf8_len(s)
}

/// Links lead from one range to a sequence of places, in order.
pub open spec fn are_links(
    links: Seq<LocationLink>,
    origin: Range,
    targets: Seq<(Seq<char>, Range)>,
) -> bool {
    &&& links.len() == targets.len()
    &&& forall|i: int|
        0 <= i < links.len() ==> {
            &&& (#[trigger] links[i]).origin_selection_range == Some(origin)
            &&& links[i].target_uri@ == targets[i].0
            &&& links[i].target_range == targets[i].1
            &&& links[i].target_selection_range == targets[i].1
        }
}

/// The files of a snapshot.
pub open spec fn files_of<D>(snapshot: &LspServerStateSnapshot<D>) -> Files<'_> {
    Files {
        forest: &*snapshot.forest,
        open_docs: &*snapshot.open_docs,
        forest_content: &*snapshot.forest_content,
    }
}

/// What a request for a definition must be answered.
pub open spec fn is_definition<D>(
    snapshot: LspServerStateSnapshot<D>,
    path: FilePath,
    position: Position,
    queries: DefinitionQueries<'_>,
    uris: Map<PathView, String>,
    r: Result<Option<Vec<LocationLink>>, DefinitionError>,
) -> bool {
    if !snapshot.forest@.dom().contains(path@) {
        r matches Err(DefinitionError::Lookup(LookupError::NoTree { path: missing }))
            && file_path::spelled_alike(missing, path)
    } else if !snapshot.open_docs@.dom().contains(path@) {
        r matches Err(DefinitionError::Lookup(LookupError::NoDocument { path: missing }))
            && file_path::spelled_alike(missing, path)
    } else {
        let s = snapshot.open_docs@[path@].text();
        let left = treesitter_utils::left_of(position);
        if !treesitter_utils::position_fits(s, left) || !treesitter_utils::position_fits(
            s,
            position,
        ) {
            r matches Err(DefinitionError::Conversion(e))
        } else {
            match syntax::named_descendant(
                *snapshot.forest@[path@],
                treesitter_utils::position_point(s, left),
                treesitter_utils::position_point(s, position),
            ) {
                None => r matches Ok(None),
                Some((node, kind)) => match query_for_kind(queries, syntax::kind_of_name(kind)) {
                    None => r matches Ok(None),
                    Some((query, capture_name)) => {
                        let name = treesitter_utils::text_between(
                            s,
                            node.start_byte as int,
                            node.end_byte as int,
                        );
                        let found = files_of(&snapshot).definitions(query, capture_name, name, uris);
                        if !lies_within(s, node) {
                            r matches Err(DefinitionError::StaleTree)
                        } else if found.len() == 0 {
                            r matches Ok(None)
                        } else {
                            r matches Ok(Some(links)) && are_links(
                                links@,
                                treesitter_utils::range_of_node(s, node),
                                found,
                            )
                        }
                    },
                },
            }
        }
    }
}

/// The answer to a request for the definition of what stands at a position in a
/// file, given the URIs of the files that have one.
pub fn definition_with_uris<D>(
    snapshot: &LspServerStateSnapshot<D>,
    path: &FilePath,
    position: Position,
    queries: &DefinitionQueries,
    uris: &PathMap<String>,
) -> (r: Result<Option<Vec<LocationLink>>, DefinitionError>)
    ensures
        is_definition(*snapshot, *path, position, *queries, uris@, r),
{
    let (tree, doc) = match snapshot.tree_and_document_for_path(path) {
        Ok(found) => found,
        Err(e) => return Err(DefinitionError::Lookup(e)),
    };
    let content = &doc.content;
    let ghost s = doc.text();
    let (start, end) = match treesitter_utils::lsp_position_to_tree_sitter_point_range(
        content,
        position,
    ) {
        Ok(points) => points,
        Err(e) => return Err(DefinitionError::Conversion(e)),
    };
    let found = match syntax::named_descendant_for_point_range(tree, start, end) {
        Some(found) => found,
        None => return Ok(None),
    };
    let (query, capture_name) = match syntax::node_kind(found.kind.as_str()) {
        NodeKind::Account => (queries.account, "account"),
        NodeKind::Currency => (queries.commodity, "currency"),
        NodeKind::Other => return Ok(None),
    };
    let node = found.node;
    if node.start_byte > node.end_byte || node.end_byte > content.len_bytes() {
        return Err(DefinitionError::StaleTree);
    }
    proof {
        text::lemma_floor_byte(s, node.start_byte as int);
        text::lemma_byte_order(
            s,
            text::char_of_byte(s, node.start_byte as int) as int,
            node.end_byte as int,
        );
    }
    let origin = treesitter_utils::tree_sitter_node_to_lsp_range(content, &node);
    let name = treesitter_utils::text_for_tree_sitter_node(content, &node);
    let files = Files {
        forest: &snapshot.forest,
        open_docs: &snapshot.open_docs,
        forest_content: &snapshot.forest_content,
    };
    let locations = find_definitions_with_uris(&files, query, capture_name, name.as_str(), uris);
    let ghost targets = places(locations@);
    if locations.len() == 0 {
        return Ok(None);
    }
    let mut links: Vec<LocationLink> = Vec::with_capacity(locations.len());
    let mut i: usize = 0;
    while i < locations.len()
        invariant
            i <= locations@.len(),
            targets == places(locations@),
            are_links(links@, origin, targets.take(i as int)),
        decreases locations@.len() - i,
    {
        let location = &locations[i];
        links.push(
            LocationLink {
                origin_selection_range: Some(origin),
                target_uri: location.uri.clone(),
                target_range: location.range,
                target_selection_range: location.range,
            },
        );
        i = i + 1;
    }
    assert(targets.take(targets.len() as int) =~= targets);
    Ok(Some(links))
}

/// The answer to `textDocument/definition`.
///
/// Which path a URI stands for and which URI a path has is up to the system: the
/// answer is that for the path that the system gave for the document's URI and
/// the URIs that it gave for the files, or says that it gave no path.
pub fn definition<D>(
    snapshot: &LspServerStateSnapshot<D>,
    uri: &str,
    position: Position,
    queries: &DefinitionQueries,
) -> (r: Result<Option<Vec<LocationLink>>, DefinitionError>)
    ensures
        exists|path: Option<FilePath>| #[trigger]
            uris::is_path_of(uri@, path) && match path {
                Some(path) => exists|uris: Map<PathView, String>|
                    are_uris_of(snapshot.forest@.dom(), uris) && #[trigger] is_definition(
                        *snapshot,
                        path,
                        position,
                        *queries,
                        uris,
                        r,
                    ),
                None => r matches Err(DefinitionError::Lookup(LookupError::NotAFile { uri: refused }))
                    && refused@ == uri@,
            },
{
    let path = match uris::path_of(uri) {
        Some(path) => path,
        None => return Err(
            DefinitionError::Lookup(LookupError::NotAFile { uri: uri.to_owned() }),
        ),
    };
    let uris = forest_uris(&snapshot.forest);
    definition_with_uris(snapshot, &path, position, queries, &uris)
}

/// Every definition that is found in a file has the name as its text: the range
/// is that of a captured node whose text is the name.
pub proof fn law_definitions_bear_the_name(
    s: Seq<char>,
    matches: Seq<Seq<Capture>>,
    index: u32,
    name: Seq<char>,
    i: int,
)
    requires
        0 <= i < definition_ranges(s, matches, index, name).len(),
    ensures
        exists|k: int|
            0 <= k < matches.len() && #[trigger] defines(s, matches[k], index, name)
                && definition_ranges(s, matches, index, name)[i]
                == treesitter_utils::range_of_node(
                s,
                first_captured(matches[k], index).unwrap(),
            ),
    decreases matches.len(),
{
    let before = definition_ranges(s, matches.drop_last(), index, name);
    if i < before.len() {
        law_definitions_bear_the_name(s, matches.drop_last(), index, name, i);
        let k = choose|k: int|
            0 <= k < matches.drop_last().len() && #[trigger] defines(
                s,
                matches.drop_last()[k],
                index,
                name,
            ) && before[i] == treesitter_utils::range_of_node(
                s,
                first_captured(matches.drop_last()[k], index).unwrap(),
            );
        assert(defines(s, matches[k], index, name));
    } else {
        assert(defines(s, matches[matches.len() - 1], index, name));
    }
}

/// No definition is missed: every match that defines the name has its range among
/// the results.
pub proof fn law_no_definition_is_missed(
    s: Seq<char>,
    matches: Seq<Seq<Capture>>,
    index: u32,
    name: Seq<char>,
    k: int,
)
    requires
        0 <= k < matches.len(),
        defines(s, matches[k], index, name),
    ensures
        definition_ranges(s, matches, index, name).contains(
            treesitter_utils::range_of_node(s, first_captured(matches[k], index).unwrap()),
        ),
    decreases matches.len(),
{
    let before = definition_ranges(s, matches.drop_last(), index, name);
    let all = definition_ranges(s, matches, index, name);
    let range = treesitter_utils::range_of_node(s, first_captured(matches[k], index).unwrap());
    if k < matches.len() - 1 {
        law_no_definition_is_missed(s, matches.drop_last(), index, name, k);
        let i = before.index_of(range);
        assert(all[i] == range);
    } else {
        assert(all[all.len() - 1] == range);
    }
}

/// The search goes through every file and nothing else: a place is among the
/// definitions in a sequence of files exactly if it is among those in one of them.
pub proof fn law_every_file_is_searched(
    files: Files<'_>,
    paths: Seq<PathView>,
    query: Query,
    index: u32,
    name: Seq<char>,
    uris: Map<PathView, String>,
    place: (Seq<char>, Range),
)
    ensures
        files.definitions_in(paths, query, index, name, uris).contains(place) <==> exists|k: int|
            0 <= k < paths.len() && (#[trigger] files.definitions_at(
                paths[k],
                query,
                index,
                name,
                uris,
            )).contains(place),
    decreases paths.len(),
{
    if paths.len() > 0 {
        let fewer = paths.drop_last();
        let n = paths.len() - 1;
        let before = files.definitions_in(fewer, query, index, name, uris);
        let last = files.definitions_at(paths[n], query, index, name, uris);
        let all = files.definitions_in(paths, query, index, name, uris);
        law_every_file_is_searched(files, fewer, query, index, name, uris, place);
        assert(all == before + last);
        if all.contains(place) {
            let i = all.index_of(place);
            if i < before.len() {
                assert(before[i] == place);
                let k = choose|k: int|
                    0 <= k < fewer.len() && (#[trigger] files.definitions_at(
                        fewer[k],
                        query,
                        index,
                        name,
                        uris,
                    )).contains(place);
                assert(files.definitions_at(paths[k], query, index, name, uris).contains(place));
            } else {
                assert(last[i - before.len()] == place);
            }
        }
        if last.contains(place) {
            let i = last.index_of(place);
            assert(all[before.len() + i] == place);
        }
        if before.contains(place) {
            let i = before.index_of(place);
            assert(all[i] == place);
        }
        assert forall|k: int|
            0 <= k < paths.len() && (#[trigger] files.definitions_at(
                paths[k],
                query,
                index,
                name,
                uris,
            )).contains(place) implies all.contains(place) by {
            if k < n {
                assert(fewer[k] == paths[k]);
            }
        }
    }
}

/// One more match adds the range of the first node that it captures under the index
/// if that node lies within the text, on boundaries, and its text is the name; it
/// adds nothing otherwise. No matches have no definitions.
pub proof fn law_one_range_for_each_match(
    s: Seq<char>,
    matches: Seq<Seq<Capture>>,
    captures: Seq<Capture>,
    index: u32,
    name: Seq<char>,
    c: int,
)
    ensures
        definition_ranges(s, seq![], index, name).len() == 0,
        (forall|j: int| 0 <= j < captures.len() ==> (#[trigger] captures[j]).index != index)
            ==> definition_ranges(s, matches.push(captures), index, name) == definition_ranges(
            s,
            matches,
            index,
            name,
        ),
        0 <= c < captures.len() && captures[c].index == index && (forall|j: int|
            0 <= j < c ==> (#[trigger] captures[j]).index != index) ==> ({
            let node = captures[c].node;
            let start = node.start_byte as int;
            let end = node.end_byte as int;
            definition_ranges(s, matches.push(captures), index, name) == if start <= end
                <= utf8::encode_utf8(s).len() && (start == end || (text::is_boundary(s, start)
                && text::is_boundary(s, end))) && treesitter_utils::text_between(s, start, end)
                == name {
                definition_ranges(s, matches, index, name).push(
                    treesitter_utils::range_of_node(s, node),
                )
            } else {
                definition_ranges(s, matches, index, name)
            }
        }),
{
    let longer = matches.push(captures);
    assert(longer.drop_last() =~= matches);
    text::lemma_encode_len(s);
    if forall|j: int| 0 <= j < captures.len() ==> (#[trigger] captures[j]).index != index {
        lemma_first_captured(captures, index, captures.len() as int);
    }
    if 0 <= c < captures.len() && captures[c].index == index && (forall|j: int|
        0 <= j < c ==> (#[trigger] captures[j]).index != index) {
        lemma_first_captured(captures, index, c);
    }
}

proof fn lemma_first_captured(captures: Seq<Capture>, index: u32, c: int)
    requires
        0 <= c <= captures.len(),
        forall|j: int| 0 <= j < c ==> (#[trigger] captures[j]).index != index,
        c < captures.len() ==> captures[c].index == index,
    ensures
        first_captured(captures, index) == if c < captures.len() {
            Some(captures[c].node)
        } else {
            None
        },
    decreases captures.len(),
{
    if captures.len() > 0 && c > 0 {
        let rest = captures.drop_first();
        assert(captures[0].index != index);
        assert forall|j: int| 0 <= j < c - 1 implies (#[trigger] rest[j]).index != index by {
            assert(rest[j] == captures[j + 1]);
        }
        lemma_first_captured(rest, index, c - 1);
    }
}

/// Every range among the definitions in a file is that of a node whose text is the
/// name, and which is the first that a match captures under the index; and every
/// such node has its range there.
pub proof fn law_definitions_are_the_nodes_with_the_name(
    s: Seq<char>,
    matches: Seq<Seq<Capture>>,
    index: u32,
    name: Seq<char>,
    range: Range,
)
    ensures
        definition_ranges(s, matches, index, name).contains(range) <==> exists|k: int, c: int|
            #![trigger matches[k][c]]
            {
                &&& 0 <= k < matches.len()
                &&& 0 <= c < matches[k].len()
                &&& matches[k][c].index == index
                &&& forall|j: int| 0 <= j < c ==> (#[trigger] matches[k][j]).index != index
                &&& matches[k][c].node.start_byte <= matches[k][c].node.end_byte
                    <= utf8::encode_utf8(s).len()
                &&& matches[k][c].node.start_byte == matches[k][c].node.end_byte || (
                text::is_boundary(s, matches[k][c].node.start_byte as int) && text::is_boundary(
                    s,
                    matches[k][c].node.end_byte as int,
                ))
                &&& treesitter_utils::text_between(
                    s,
                    matches[k][c].node.start_byte as int,
                    matches[k][c].node.end_byte as int,
                ) == name
                &&& range == treesitter_utils::range_of_node(s, matches[k][c].node)
            },
    decreases matches.len(),
{
    let all = definition_ranges(s, matches, index, name);
    text::lemma_encode_len(s);
    if all.contains(range) {
        let i = all.index_of(range);
        law_definitions_bear_the_name(s, matches, index, name, i);
        let k = choose|k: int|
            0 <= k < matches.len() && #[trigger] defines(s, matches[k], index, name) && all[i]
                == treesitter_utils::range_of_node(s, first_captured(matches[k], index).unwrap());
        let c = lemma_captured_at(matches[k], index);
        assert(matches[k][c].index == index);
    }
    if exists|k: int, c: int|
        #![trigger matches[k][c]]
        {
            &&& 0 <= k < matches.len()
            &&& 0 <= c < matches[k].len()
            &&& matches[k][c].index == index
            &&& forall|j: int| 0 <= j < c ==> (#[trigger] matches[k][j]).index != index
            &&& matches[k][c].node.start_byte <= matches[k][c].node.end_byte
                <= utf8::encode_utf8(s).len()
            &&& matches[k][c].node.start_byte == matches[k][c].node.end_byte || (text::is_boundary(
                s,
                matches[k][c].node.start_byte as int,
            ) && text::is_boundary(s, matches[k][c].node.end_byte as int))
            &&& treesitter_utils::text_between(
                s,
                matches[k][c].node.start_byte as int,
                matches[k][c].node.end_byte as int,
            ) == name
            &&& range == treesitter_utils::range_of_node(s, matches[k][c].node)
        } {
        let (k, c) = choose|k: int, c: int|
            #![trigger matches[k][c]]
            {
                &&& 0 <= k < matches.len()
                &&& 0 <= c < matches[k].len()
                &&& matches[k][c].index == index
                &&& forall|j: int| 0 <= j < c ==> (#[trigger] matches[k][j]).index != index
                &&& matches[k][c].node.start_byte <= matches[k][c].node.end_byte
                    <= utf8::encode_utf8(s).len()
                &&& matches[k][c].node.start_byte == matches[k][c].node.end_byte || (
                text::is_boundary(s, matches[k][c].node.start_byte as int) && text::is_boundary(
                    s,
                    matches[k][c].node.end_byte as int,
                ))
                &&& treesitter_utils::text_between(
                    s,
                    matches[k][c].node.start_byte as int,
                    matches[k][c].node.end_byte as int,
                ) == name
                &&& range == treesitter_utils::range_of_node(s, matches[k][c].node)
            };
        lemma_first_captured(matches[k], index, c);
        law_no_definition_is_missed(s, matches, index, name, k);
    }
}

/// Where the first capture of an index stands.
proof fn lemma_captured_at(captures: Seq<Capture>, index: u32) -> (c: int)
    requires
        first_captured(captures, index) is Some,
    ensures
        0 <= c < captures.len(),
        captures[c].index == index,
        first_captured(captures, index) == Some(captures[c].node),
        forall|j: int| 0 <= j < c ==> (#[trigger] captures[j]).index != index,
    decreases captures.len(),
{
    if captures[0].index == index {
        0
    } else {
        let rest = captures.drop_first();
        let c = lemma_captured_at(rest, index);
        assert forall|j: int| 0 <= j < c + 1 implies (#[trigger] captures[j]).index != index by {
            if j > 0 {
                assert(rest[j - 1] == captures[j]);
            }
        }
        c + 1
    }
}

/// The definitions in one file are looked for in the text of its buffer while it is
/// open and in the cached text otherwise, and lead to the URI of the file. A file
/// whose text or URI is not known has none.
pub proof fn law_definitions_of_one_file(
    files: Files<'_>,
    path: PathView,
    query: Query,
    index: u32,
    name: Seq<char>,
    uris: Map<PathView, String>,
)
    ensures
        ({
            let found = files.definitions_at(path, query, index, name, uris);
            let s = if files.open_docs@.dom().contains(path) {
                ropes::rope_text(files.open_docs@[path].content)
            } else {
                ropes::rope_text(*files.forest_content@[path])
            };
            let ranges = definition_ranges(
                s,
                syntax::query_matches(query, *files.forest@[path], s),
                index,
                name,
            );
            if uris.dom().contains(path) && (files.open_docs@.dom().contains(path)
                || files.forest_content@.dom().contains(path)) {
                &&& found.len() == ranges.len()
                &&& forall|i: int|
                    0 <= i < ranges.len() ==> #[trigger] found[i] == (uris[path]@, ranges[i])
            } else {
                found.len() == 0
            }
        }),
{
}

/// The definitions in the forest are those in its files, one file after the other,
/// of what the query captures under the first index of the capture's name. A query
/// without such a capture finds none.
pub proof fn law_definitions_of_the_forest(
    files: Files<'_>,
    paths: Seq<PathView>,
    path: PathView,
    query: Query,
    capture_name: Seq<char>,
    index: u32,
    name: Seq<char>,
    uris: Map<PathView, String>,
)
    ensures
        files.definitions_in(seq![], query, index, name, uris).len() == 0,
        files.definitions_in(paths.push(path), query, index, name, uris) == files.definitions_in(
            paths,
            query,
            index,
            name,
            uris,
        ) + files.definitions_at(path, query, index, name, uris),
        index < syntax::query_capture_names(query).len() && syntax::query_capture_names(
            query,
        )[index as int] == capture_name && (forall|k: int|
            0 <= k < index ==> #[trigger] syntax::query_capture_names(query)[k] != capture_name)
            ==> files.definitions(query, capture_name, name, uris) == files.definitions_in(
            files.forest.paths(),
            query,
            index,
            name,
            uris,
        ),
        (forall|k: int|
            0 <= k < syntax::query_capture_names(query).len() ==> #[trigger] syntax::query_capture_names(
                query,
            )[k] != capture_name) ==> files.definitions(query, capture_name, name, uris).len() == 0,
{
    let names = syntax::query_capture_names(query);
    assert(paths.push(path).drop_last() =~= paths);
    if index < names.len() && names[index as int] == capture_name {
        assert(names.contains(names[index as int]));
        names.index_of_first_ensures(capture_name);
    }
}

/// What a request for a definition is answered, for a file that is open and has a
/// tree and positions that fit: nothing where no named node stands at the position,
/// or one that is neither an account nor a currency; else a link from the node's
/// range to every definition of its text, and nothing where there is none. The
/// definitions of accounts are found by the one query, those of currencies by the
/// other.
pub proof fn law_definition_links_to_every_definition<D>(
    snapshot: LspServerStateSnapshot<D>,
    path: FilePath,
    position: Position,
    queries: DefinitionQueries<'_>,
    uris: Map<PathView, String>,
    r: Result<Option<Vec<LocationLink>>, DefinitionError>,
    node: Node,
    kind: Seq<char>,
)
    requires
        is_definition(snapshot, path, position, queries, uris, r),
        snapshot.forest@.dom().contains(path@),
        snapshot.open_docs@.dom().contains(path@),
        utf8::encode_utf8(ropes::rope_text(snapshot.open_docs@[path@].content)).len() <= u32::MAX,
    ensures
        ({
            let s = ropes::rope_text(snapshot.open_docs@[path@].content);
            let left = Position {
                line: position.line,
                character: if position.character == 0 {
                    0
                } else {
                    (position.character - 1) as u32
                },
            };
            let at = syntax::named_descendant(
                *snapshot.forest@[path@],
                treesitter_utils::position_point(s, left),
                treesitter_utils::position_point(s, position),
            );
            let files = Files {
                forest: &*snapshot.forest,
                open_docs: &*snapshot.open_docs,
                forest_content: &*snapshot.forest_content,
            };
            let name = treesitter_utils::text_between(
                s,
                node.start_byte as int,
                node.end_byte as int,
            );
            let found = if kind == "account"@ {
                files.definitions(*queries.account, "account"@, name, uris)
            } else {
                files.definitions(*queries.commodity, "currency"@, name, uris)
            };
            &&& at is None ==> (r matches Ok(None))
            &&& at == Some((node, kind)) ==> {
                &&& kind != "account"@ && kind != "currency"@ ==> (r matches Ok(None))
                &&& (kind == "account"@ || kind == "currency"@) && node.start_byte <= node.end_byte
                    <= utf8::encode_utf8(s).len() ==> {
                    &&& found.len() == 0 ==> (r matches Ok(None))
                    &&& found.len() > 0 ==> (r matches Ok(Some(links)) && {
                        &&& links@.len() == found.len()
                        &&& forall|i: int|
                            0 <= i < found.len() ==> {
                                &&& (#[trigger] links@[i]).target_uri@ == found[i].0
                                &&& links@[i].target_range == found[i].1
                                &&& links@[i].target_selection_range == found[i].1
                                &&& links@[i].origin_selection_range == Some(
                                    Range {
                                        start: treesitter_utils::position_of_byte(
                                            s,
                                            node.start_byte as int,
                                        ),
                                        end: treesitter_utils::position_of_byte(
                                            s,
                                            node.end_byte as int,
                                        ),
                                    },
                                )
                            }
                    })
                }
            }
        }),
{
    let s = snapshot.open_docs@[path@].text();
    text::lemma_encode_len(s);
    text::lemma_len_order(s);
    treesitter_utils::lemma_position_char(s, position);
    treesitter_utils::lemma_position_char(s, treesitter_utils::left_of(position));
    syntax::law_kinds_go_by_their_names(kind);
    reveal_strlit("account");
    reveal_strlit("currency");
    assert("account"@.len() == 7);
    assert("currency"@.len() == 8);
}

/// A file that is not known is told with its path: first that it has no tree, then
/// that it is not open.
pub proof fn law_unknown_files_are_told<D>(
    snapshot: LspServerStateSnapshot<D>,
    path: FilePath,
    position: Position,
    queries: DefinitionQueries<'_>,
    uris: Map<PathView, String>,
    r: Result<Option<Vec<LocationLink>>, DefinitionError>,
)
    requires
        is_definition(snapshot, path, position, queries, uris, r),
    ensures
        !snapshot.forest@.dom().contains(path@) ==> (r matches Err(
            DefinitionError::Lookup(LookupError::NoTree { path: missing }),
        ) && missing@ == path@ && missing.source() == path.source()),
        snapshot.forest@.dom().contains(path@) && !snapshot.open_docs@.dom().contains(path@)
            ==> (r matches Err(DefinitionError::Lookup(LookupError::NoDocument { path: missing }))
            && missing@ == path@ && missing.source() == path.source()),
{
}

/// Where a position cannot be converted, that is told; a tree that is not of this
/// text is told too, where a definition would have been looked for.
pub proof fn law_misfits_are_told<D>(
    snapshot: LspServerStateSnapshot<D>,
    path: FilePath,
    position: Position,
    queries: DefinitionQueries<'_>,
    uris: Map<PathView, String>,
    r: Result<Option<Vec<LocationLink>>, DefinitionError>,
    node: Node,
    kind: Seq<char>,
)
    requires
        is_definition(snapshot, path, position, queries, uris, r),
        snapshot.forest@.dom().contains(path@),
        snapshot.open_docs@.dom().contains(path@),
    ensures
        ({
            let s = ropes::rope_text(snapshot.open_docs@[path@].content);
            let left = treesitter_utils::left_of(position);
            let fits = treesitter_utils::position_fits(s, left) && treesitter_utils::position_fits(
                s,
                position,
            );
            let at = syntax::named_descendant(
                *snapshot.forest@[path@],
                treesitter_utils::position_point(s, left),
                treesitter_utils::position_point(s, position),
            );
            &&& !fits <==> (r matches Err(DefinitionError::Conversion(e)))
            &&& fits && at == Some((node, kind)) && (kind == "account"@ || kind == "currency"@) && (
            node.end_byte < node.start_byte || node.end_byte > utf8::encode_utf8(s).len()) ==> (
            r matches Err(DefinitionError::StaleTree))
        }),
{
    text::lemma_encode_len(snapshot.open_docs@[path@].text());
    reveal_strlit("account");
    reveal_strlit("currency");
    assert("account"@.len() == 7);
    assert("currency"@.len() == 8);
}

/// A location is a place: its own URI with its own range, in the same order.
pub proof fn law_locations_are_places(locations: Seq<Location>, i: int)
    requires
        0 <= i < locations.len(),
    ensures
        places(locations).len() == locations.len(),
        places(locations)[i].0 == locations[i].uri@,
        places(locations)[i].1 == locations[i].range,
{
}

/// A file of the forest goes by the URI that the system gave for its path, and by
/// none if it gave none; no other path has a URI.
pub proof fn law_files_go_by_their_uris(
    paths: Set<PathView>,
    uris: Map<PathView, String>,
    path: PathView,
)
    requires
        are_uris_of(paths, uris),
    ensures
        uris.dom().contains(path) ==> paths.contains(path) && uris::is_uri_of(
            path,
            Some(uris[path]),
        ) && "file://"@.is_prefix_of(uris[path]@),
        paths.contains(path) && !uris.dom().contains(path) ==> uris::is_uri_of(path, None),
{
    let known = paths.contains(path);
}

} // verus!
