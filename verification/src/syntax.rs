//! Syntax trees: plain values for what the library reads off a tree, and
//! contracts for the calls into tree-sitter.
use std::ops::ControlFlow;
use std::time::Duration;
use std::time::Instant;
use tree_sitter_beancount::tree_sitter;
use tree_sitter_beancount::tree_sitter::Parser;
use tree_sitter_beancount::tree_sitter::Query;
use tree_sitter_beancount::tree_sitter::StreamingIterator;
use tree_sitter_beancount::tree_sitter::Tree;
use tree_sitter_beancount::tree_sitter::TreeCursor;
use vstd::prelude::*;

verus! {

/// A place in a text: a row, and a column counted in bytes.
#[derive(Clone, Copy, Debug, PartialEq, Eq, Structural)]
pub struct Point {
    pub row: usize,
    pub column: usize,
}

impl Point {
    pub fn new(row: usize, column: usize) -> (point: Point)
        ensures
            point.row == row,
            point.column == column,
    {
        Point { row, column }
    }
}

/// What the library reads off a node of a syntax tree: the bytes it covers, and
/// where it starts.
#[derive(Clone, Copy, Debug, PartialEq, Eq, Structural)]
pub struct Node {
    pub start_byte: usize,
    pub end_byte: usize,
    pub start_position: Point,
}

/// A change of a text, described for an incremental parse.
#[derive(Clone, Copy, Debug, PartialEq, Eq, Structural)]
pub struct InputEdit {
    pub start_byte: usize,
    pub old_end_byte: usize,
    pub new_end_byte: usize,
    pub start_position: Point,
    pub old_end_position: Point,
    pub new_end_position: Point,
}

/// A node that a query captured, and the index of the capture's name.
#[derive(Clone, Copy, Debug, PartialEq, Eq, Structural)]
pub struct Capture {
    pub index: u32,
    pub node: Node,
}

/// `tree_sitter::Tree`, a syntax tree.
#[verifier::external_type_specification]
#[verifier::external_body]
pub struct ExTree(Tree);

/// `tree_sitter::TreeCursor`, a place in a syntax tree.
#[verifier::external_type_specification]
#[verifier::external_body]
pub struct ExTreeCursor<'cursor>(TreeCursor<'cursor>);

/// `tree_sitter::Parser`, a parser that keeps state between parses.
#[verifier::external_type_specification]
#[verifier::external_body]
pub struct ExParser(Parser);

/// `tree_sitter::Query`, a compiled query over syntax trees.
#[verifier::external_type_specification]
#[verifier::external_body]
pub struct ExQuery(Query);

/// `std::time::Instant`, a reading of the clock.
#[verifier::external_type_specification]
#[verifier::external_body]
pub struct ExInstant(Instant);

// ── Walking a tree ───────────────────────────────────────────────────────────
/// The depths of the nodes of a tree, the root at depth zero, in the order in
/// which a walk meets them: every node before its children, and children from
/// first to last.
pub uninterp spec fn tree_depths(tree: Tree) -> Seq<nat>;

/// The depths of the nodes of the tree that a cursor walks.
pub uninterp spec fn cursor_depths(cursor: TreeCursor<'_>) -> Seq<nat>;

/// The index of the node that a cursor is on, in the order of the walk.
pub uninterp spec fn cursor_index(cursor: TreeCursor<'_>) -> nat;

/// What holds of the depths of any tree: there is one root, it comes first, and
/// each node is at most one level below the node before it.
pub open spec fn is_preorder(depths: Seq<nat>) -> bool {
    &&& depths.len() > 0
    &&& depths[0] == 0
    &&& forall|i: int| 0 < i < depths.len() ==> 1 <= #[trigger] depths[i] <= depths[i - 1] + 1
}

/// The index just past the descendants of node `i`, looked for from `j` on.
pub open spec fn descendants_end(depths: Seq<nat>, i: int, j: int) -> int
    decreases depths.len() - j,
{
    if j < depths.len() && depths[j] > depths[i] {
        descendants_end(depths, i, j + 1)
    } else {
        j
    }
}

/// The index just past the subtree of node `i`.
pub open spec fn subtree_end(depths: Seq<nat>, i: int) -> int {
    descendants_end(depths, i, i + 1)
}

/// The last node before `j`, `j` included, that is less deep than `depth`.
pub open spec fn ancestor_from(depths: Seq<nat>, depth: nat, j: int) -> int
    decreases j,
{
    if j <= 0 || depths[j] < depth {
        j
    } else {
        ancestor_from(depths, depth, j - 1)
    }
}

/// The parent of node `i`.
pub open spec fn parent_of(depths: Seq<nat>, i: int) -> int {
    ancestor_from(depths, depths[i], i - 1)
}

/// `tree_sitter::Tree::walk` starts at the root of the tree.
#[verifier::external_body]
pub(crate) fn walk<'t>(tree: &'t Tree) -> (cursor: TreeCursor<'t>)
    ensures
        cursor_depths(cursor) == tree_depths(*tree),
        is_preorder(cursor_depths(cursor)),
        cursor_index(cursor) == 0,
{
    tree.walk()
}

/// `tree_sitter::TreeCursor::goto_first_child` moves to the node that follows in
/// the walk if that is a child of the current one, and stays otherwise.
#[verifier::external_body]
pub(crate) fn goto_first_child(cursor: &mut TreeCursor<'_>) -> (moved: bool)
    requires
        cursor_index(*old(cursor)) < cursor_depths(*old(cursor)).len(),
    ensures
        ({
            let depths = cursor_depths(*old(cursor));
            let i = cursor_index(*old(cursor)) as int;
            &&& cursor_depths(*final(cursor)) == depths
            &&& moved == (i + 1 < depths.len() && depths[i + 1] == depths[i] + 1)
            &&& cursor_index(*final(cursor)) == if moved {
                i + 1
            } else {
                i
            }
        }),
{
    cursor.goto_first_child()
}

/// `tree_sitter::TreeCursor::goto_next_sibling` moves to the node just past the
/// subtree of the current one if it is as deep, and stays otherwise.
#[verifier::external_body]
pub(crate) fn goto_next_sibling(cursor: &mut TreeCursor<'_>) -> (moved: bool)
    requires
        cursor_index(*old(cursor)) < cursor_depths(*old(cursor)).len(),
    ensures
        ({
            let depths = cursor_depths(*old(cursor));
            let i = cursor_index(*old(cursor)) as int;
            let next = subtree_end(depths, i);
            &&& cursor_depths(*final(cursor)) == depths
            &&& moved == (next < depths.len() && depths[next] == depths[i])
            &&& cursor_index(*final(cursor)) == if moved {
                next
            } else {
                i
            }
        }),
{
    cursor.goto_next_sibling()
}

/// `tree_sitter::TreeCursor::goto_parent` moves to the parent, unless the cursor
/// is on the root.
#[verifier::external_body]
pub(crate) fn goto_parent(cursor: &mut TreeCursor<'_>) -> (moved: bool)
    requires
        cursor_index(*old(cursor)) < cursor_depths(*old(cursor)).len(),
    ensures
        ({
            let depths = cursor_depths(*old(cursor));
            let i = cursor_index(*old(cursor)) as int;
            &&& cursor_depths(*final(cursor)) == depths
            &&& moved == (i > 0)
            &&& cursor_index(*final(cursor)) == if moved {
                parent_of(depths, i)
            } else {
                i
            }
        }),
{
    cursor.goto_parent()
}

// ── Parsing ──────────────────────────────────────────────────────────────────
/// The parser's language is that of beancount.
pub uninterp spec fn parser_loaded(parser: Parser) -> bool;

/// The parser is not in the middle of a parse.
pub uninterp spec fn parser_idle(parser: Parser) -> bool;

/// The tree after an edit: the same nodes, moved to where the edit puts them.
pub uninterp spec fn edited_tree(tree: Tree, edit: InputEdit) -> Tree;

/// Wall-clock budget for a single parse, in milliseconds.
///
/// Error recovery is superlinear on some pathological input (tens of thousands
/// of nested `(`), and a parse of such a file goes on for minutes.
pub const PARSE_BUDGET: u128 = 5_000;

/// The time that a parse may take, and whether it ran out.
pub struct ParseBudget {
    started: Instant,
    cancelled: bool,
}

impl ParseBudget {
    pub closed spec fn is_cancelled(self) -> bool {
        self.cancelled
    }

    /// When the parse started.
    pub closed spec fn since(self) -> Instant {
        self.started
    }

    /// The clock, when it was asked, put the time since the start at `elapsed`
    /// milliseconds.
    pub closed spec fn spent(self, elapsed: u128) -> bool {
        exists|time: Duration| #[trigger]
            call_ensures(Instant::elapsed, (&self.started,), time) && duration_millis(time)
                == elapsed
    }

    /// A budget that starts now.
    pub fn start() -> (budget: ParseBudget)
        ensures
            !budget.is_cancelled(),
    {
        ParseBudget { started: Instant::now(), cancelled: false }
    }

    /// Whether the time ran out.
    pub fn cancelled(&self) -> (r: bool)
        ensures
            r == self.is_cancelled(),
    {
        self.cancelled
    }

    /// Whether to go on after `elapsed` milliseconds.
    pub fn spend(&mut self, elapsed: u128) -> (flow: ControlFlow<()>)
        ensures
            flow is Break <==> elapsed >= PARSE_BUDGET,
            final(self).is_cancelled() == (old(self).is_cancelled() || elapsed >= PARSE_BUDGET),
            final(self).since() == old(self).since(),
    {
        if elapsed >= PARSE_BUDGET {
            self.cancelled = true;
            ControlFlow::Break(())
        } else {
            ControlFlow::Continue(())
        }
    }

    /// Whether to go on now: until the clock shows that the time is used up.
    pub fn tick(&mut self) -> (flow: ControlFlow<()>)
        ensures
            exists|elapsed: u128| #[trigger]
                old(self).spent(elapsed) && (flow is Break <==> elapsed >= PARSE_BUDGET),
            final(self).is_cancelled() == (old(self).is_cancelled() || flow is Break),
            final(self).since() == old(self).since(),
    {
        let elapsed = self.started.elapsed().as_millis();
        assert(self.spent(elapsed));
        self.spend(elapsed)
    }
}

/// `std::time::Instant::now` reads the clock.
pub assume_specification[ Instant::now ]() -> Instant
;

/// `std::time::Instant::elapsed` is the time since a reading of the clock.
pub assume_specification[ Instant::elapsed ](since: &Instant) -> Duration
;

/// The whole milliseconds of a stretch of time.
pub uninterp spec fn duration_millis(time: Duration) -> nat;

/// `std::time::Duration::as_millis` is the number of whole milliseconds.
pub assume_specification[ Duration::as_millis ](time: &Duration) -> (millis: u128)
    ensures
        millis == duration_millis(*time),
;

/// The bytes from an offset on; none past the end.
pub(crate) fn bytes_from(bytes: &[u8], offset: usize) -> (rest: &[u8])
    ensures
        rest@ == if offset <= bytes@.len() {
            bytes@.skip(offset as int)
        } else {
            seq![]
        },
{
    if offset <= bytes.len() {
        vstd::slice::slice_subrange(bytes, offset, bytes.len())
    } else {
        vstd::slice::slice_subrange(bytes, 0, 0)
    }
}

/// A new `tree_sitter::Parser`, set by `set_language` to the language that
/// `tree_sitter_beancount::language` returns. `set_language` refuses languages
/// of another ABI version only, and the grammar's is one of those it supports.
#[verifier::external_body]
pub(crate) fn beancount_parser() -> (parser: Parser)
    ensures
        parser_loaded(parser),
        parser_idle(parser),
{
    let mut parser = Parser::new();
    parser
        .set_language(&tree_sitter_beancount::language())
        .expect("the beancount grammar has a supported ABI version");
    parser
}

/// `tree_sitter::Parser::parse_with_options` on a parser that is set up and
/// idle. The text is handed over as it stands and the budget is asked from time
/// to time, and handed back. There is a tree unless the budget was told that time
/// ran out. A parse that came to its end leaves the parser idle; the language
/// stays. Which tree it is goes unsaid: the grammar asks the C library which
/// characters are white space, and the answer differs between systems.
#[verifier::external_body]
pub(crate) fn parse(
    parser: &mut Parser,
    source: &str,
    old_tree: Option<&Tree>,
    budget: ParseBudget,
) -> (outcome: (Option<Tree>, ParseBudget))
    requires
        parser_loaded(*old(parser)),
        parser_idle(*old(parser)),
    ensures
        parser_loaded(*final(parser)),
        outcome.0 is Some ==> parser_idle(*final(parser)),
        outcome.0 is None ==> outcome.1.is_cancelled(),
{
    let bytes = source.as_bytes();
    let mut budget = budget;
    let mut progress = |_: &tree_sitter::ParseState| budget.tick();
    let options = tree_sitter::ParseOptions::new().progress_callback(&mut progress);
    let mut read = |offset: usize, _: tree_sitter::Point| bytes_from(bytes, offset);
    let tree = parser.parse_with_options(&mut read, old_tree, Some(options));
    (tree, budget)
}

/// `tree_sitter::Parser::reset` gives up a parse that was broken off; the
/// language stays.
pub assume_specification[ Parser::reset ](parser: &mut Parser)
    ensures
        parser_idle(*final(parser)),
        parser_loaded(*final(parser)) == parser_loaded(*old(parser)),
;

/// `clone` of a `tree_sitter::Tree` is the same tree.
pub assume_specification[ <Tree as Clone>::clone ](tree: &Tree) -> (copy: Tree)
    ensures
        copy == *tree,
;

/// `tree_sitter::Tree::edit` moves the nodes of a tree to where an edit of the
/// text puts them.
#[verifier::external_body]
pub(crate) fn edit_tree(tree: &mut Tree, edit: &InputEdit)
    ensures
        *final(tree) == edited_tree(*old(tree), *edit),
{
    let point = |p: Point| tree_sitter::Point::new(p.row, p.column);
    tree.edit(
        &tree_sitter::InputEdit {
            start_byte: edit.start_byte,
            old_end_byte: edit.old_end_byte,
            new_end_byte: edit.new_end_byte,
            start_position: point(edit.start_position),
            old_end_position: point(edit.old_end_position),
            new_end_position: point(edit.new_end_position),
        },
    );
}

// ── Reading a tree ───────────────────────────────────────────────────────────
/// The kinds of node that the library tells apart.
#[derive(Clone, Copy, Debug, PartialEq, Eq, Structural)]
pub enum NodeKind {
    Account,
    Currency,
    Other,
}

/// A node, and the name of its kind in the grammar.
pub struct NamedNode {
    pub node: Node,
    pub kind: String,
}

/// The smallest named node of a tree that spans a range of points, and the name
/// of its kind.
pub uninterp spec fn named_descendant(tree: Tree, start: Point, end: Point) -> Option<
    (Node, Seq<char>),
>;

/// The names of a query's captures, by index.
pub uninterp spec fn query_capture_names(query: Query) -> Seq<Seq<char>>;

/// The matches of a query in a tree, in the order in which they are found: for
/// each, its captures in order. The text is what the query's predicates read.
pub uninterp spec fn query_matches(query: Query, tree: Tree, source: Seq<char>) -> Seq<
    Seq<Capture>,
>;

/// The captures of a list of matches.
pub open spec fn capture_lists(matches: Seq<Vec<Capture>>) -> Seq<Seq<Capture>> {
    Seq::new(matches.len(), |i: int| matches[i]@)
}

/// The kind that a name in the grammar stands for.
pub open spec fn kind_of_name(name: Seq<char>) -> NodeKind {
    if name == "account"@ {
        NodeKind::Account
    } else if name == "currency"@ {
        NodeKind::Currency
    } else {
        NodeKind::Other
    }
}

/// `tree_sitter_beancount::NodeKind::from` looks up the kind of a node by its
/// name.
#[verifier::external_body]
pub(crate) fn node_kind(name: &str) -> (kind: NodeKind)
    ensures
        kind == kind_of_name(name@),
{
    match tree_sitter_beancount::NodeKind::from(name) {
        tree_sitter_beancount::NodeKind::Account => NodeKind::Account,
        tree_sitter_beancount::NodeKind::Currency => NodeKind::Currency,
        _ => NodeKind::Other,
    }
}

/// `tree_sitter::Node::named_descendant_for_point_range` on the root of a tree,
/// with what the library reads off the node that it finds.
#[verifier::external_body]
pub(crate) fn named_descendant_for_point_range(tree: &Tree, start: Point, end: Point) -> (r: Option<
    NamedNode,
>)
    ensures
        match r {
            Some(found) => named_descendant(*tree, start, end) == Some((found.node, found.kind@)),
            None => named_descendant(*tree, start, end) is None,
        },
{
    let start = tree_sitter::Point::new(start.row, start.column);
    let end = tree_sitter::Point::new(end.row, end.column);
    let found = tree.root_node().named_descendant_for_point_range(start, end)?;
    let first = found.start_position();
    let node = Node {
        start_byte: found.start_byte(),
        end_byte: found.end_byte(),
        start_position: Point { row: first.row, column: first.column },
    };
    Some(NamedNode { node, kind: found.kind().to_string() })
}

/// `tree_sitter::Query::capture_names` lists the names of the captures.
#[verifier::external_body]
pub(crate) fn capture_names(query: &Query) -> (names: Vec<String>)
    ensures
        names@.len() == query_capture_names(*query).len(),
        forall|i: int|
            0 <= i < names@.len() ==> (#[trigger] names@[i])@ == query_capture_names(*query)[i],
{
    query.capture_names().iter().map(|name| name.to_string()).collect()
}

/// `tree_sitter::Query::capture_index_for_name` is the index of the first capture
/// of that name.
pub assume_specification[ Query::capture_index_for_name ](query: &Query, name: &str) -> (r: Option<
    u32,
>)
    ensures
        match r {
            Some(i) => {
                &&& i < query_capture_names(*query).len()
                &&& query_capture_names(*query)[i as int] == name@
                &&& forall|k: int| 0 <= k < i ==> query_capture_names(*query)[k] != name@
            },
            None => !query_capture_names(*query).contains(name@),
        },
;

/// The bytes of a range; what of it lies past the end is cut off.
pub(crate) fn bytes_between(bytes: &[u8], start: usize, end: usize) -> (part: &[u8])
    ensures
        ({
            let last = if end < bytes@.len() {
                end as int
            } else {
                bytes@.len() as int
            };
            part@ == bytes@.subrange(
                if start < last {
                    start as int
                } else {
                    last
                },
                last,
            )
        }),
{
    let end = if end < bytes.len() {
        end
    } else {
        bytes.len()
    };
    let start = if start < end {
        start
    } else {
        end
    };
    vstd::slice::slice_subrange(bytes, start, end)
}

/// `tree_sitter::QueryCursor::matches` on the root of a tree, drawn to the end,
/// with what the library reads off the captured nodes. Predicates read the text
/// of a node from the source.
#[verifier::external_body]
pub(crate) fn run_query(query: &Query, tree: &Tree, source: &str) -> (found: Vec<Vec<Capture>>)
    ensures
        found@.len() == query_matches(*query, *tree, source@).len(),
        forall|i: int|
            0 <= i < found@.len() ==> (#[trigger] found@[i])@ == query_matches(
                *query,
                *tree,
                source@,
            )[i],
{
    let bytes = source.as_bytes();
    let text = |n: tree_sitter::Node|
        Some(bytes_between(bytes, n.start_byte(), n.end_byte())).into_iter();
    let read = |n: tree_sitter::Node| Node {
        start_byte: n.start_byte(),
        end_byte: n.end_byte(),
        start_position: Point { row: n.start_position().row, column: n.start_position().column },
    };
    let mut cursor = tree_sitter::QueryCursor::new();
    let mut matches = cursor.matches(query, tree.root_node(), text);
    let mut found = Vec::new();
    while let Some(m) = matches.next() {
        found.push(m.captures.iter().map(|c| Capture { index: c.index, node: read(c.node) }).collect());
    }
    found
}

/// The kinds of node that go by the names of the grammar.
pub proof fn law_kinds_go_by_their_names(name: Seq<char>)
    ensures
        kind_of_name("account"@) == NodeKind::Account,
        kind_of_name("currency"@) == NodeKind::Currency,
        name != "account"@ && name != "currency"@ ==> kind_of_name(name) == NodeKind::Other,
        PARSE_BUDGET == 5000,
{
    reveal_strlit("account");
    reveal_strlit("currency");
    assert("account"@.len() == 7);
    assert("currency"@.len() == 8);
}

/// What the captures of a list of matches are.
pub proof fn law_capture_lists(matches: Seq<Vec<Capture>>)
    ensures
        capture_lists(matches).len() == matches.len(),
        forall|i: int| 0 <= i < matches.len() ==> #[trigger] capture_lists(matches)[i] == matches[i]@,
{
}

/// The time that was spent is what the clock gave when it was asked about the start.
pub proof fn law_time_spent_is_since_the_start(budget: ParseBudget, elapsed: u128)
    ensures
        budget.spent(elapsed) <==> exists|time: Duration| #[trigger]
            call_ensures(Instant::elapsed, (&budget.since(),), time) && duration_millis(time)
                == elapsed,
{
    assert(budget.since() == budget.started);
    if budget.spent(elapsed) {
        let time = choose|time: Duration| #[trigger]
            call_ensures(Instant::elapsed, (&budget.started,), time) && duration_millis(time)
                == elapsed;
        assert(call_ensures(Instant::elapsed, (&budget.since(),), time));
    }
}

} // verus!
