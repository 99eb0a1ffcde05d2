//! The lines that take part in alignment, and the widths that they need.
use crate::strings;
use crate::syntax;
use crate::syntax::Capture;
use crate::syntax::Node;
use crate::text;
use crate::treesitter_utils;
use crate::treesitter_utils::LineIndex;
use tree_sitter_beancount::tree_sitter::Query;
use tree_sitter_beancount::tree_sitter::Tree;
use vstd::prelude::*;
use vstd::utf8;

verus! {

/// A line that can be aligned, in its components.
#[derive(Debug, Clone)]
pub struct FormatableLine {
    /// Line number in the document
    pub line_num: usize,
    /// Prefix text (account name or directive start)
    pub prefix: String,
    /// Number text (amount value)
    pub number: String,
    /// Rest of the line after the number (currency, comments, etc.)
    pub rest: String,
}

/// Widths to align to.
#[derive(Clone, Copy, Debug, PartialEq, Eq, Structural)]
pub struct FormatConfig {
    pub final_prefix_width: usize,
    pub final_num_width: usize,
}

/// Widths that the user asked for.
#[derive(Clone, Copy, Debug, PartialEq, Eq, Structural)]
pub struct FormattingConfig {
    pub prefix_width: Option<usize>,
    pub num_width: Option<usize>,
}

/// Why lines could not be extracted.
#[derive(Clone, Copy, Debug, PartialEq, Eq, Structural)]
pub enum ExtractionError {
    /// The tree is not one of this text: a node ends before the line starts that
    /// it is said to be on, or before it starts itself.
    StaleTree,
}

/// A byte offset, clamped to the end of the text.
pub open spec fn clamped(s: Seq<char>, byte: int) -> int {
    if byte < text::utf8_len(s) {
        byte
    } else {
        text::utf8_len(s) as int
    }
}

/// Byte offset at which the line of a row starts.
pub open spec fn row_start(s: Seq<char>, row: nat) -> nat {
    text::byte_of_char(
        s,
        text::line_start(s, treesitter_utils::clamped_line(s, row)) as int,
    )
}

/// Byte offset at which the line of a row ends, past its terminator.
pub open spec fn row_end(s: Seq<char>, row: nat) -> nat {
    text::byte_of_char(s, text::line_start(s, row + 1) as int)
}

/// A pair of nodes can be one of the text: the prefix does not end before its
/// line starts, and the number does not end before it starts.
pub open spec fn nodes_in_order(s: Seq<char>, prefix: Node, number: Node) -> bool {
    &&& row_start(s, prefix.start_position.row as nat) <= clamped(s, prefix.end_byte as int)
    &&& clamped(s, number.start_byte as int) <= clamped(s, number.end_byte as int)
}

/// A pair of nodes makes a line that can be rebuilt: both start on one row, and
/// nothing but white space stands between them.
pub open spec fn is_formatable(s: Seq<char>, prefix: Node, number: Node) -> bool {
    let prefix_end = clamped(s, prefix.end_byte as int);
    let number_start = clamped(s, number.start_byte as int);
    let number_end = clamped(s, number.end_byte as int);
    &&& number.start_position.row == prefix.start_position.row
    &&& prefix_end <= number_start
    &&& text::is_boundary(s, prefix_end)
    &&& text::is_boundary(s, number_start)
    &&& text::is_boundary(s, number_end)
    &&& text::all_white_space(treesitter_utils::text_between(s, prefix_end, number_start))
}

/// A line holds the components that two nodes mark.
pub open spec fn is_line_of(
    s: Seq<char>,
    prefix: Node,
    number: Node,
    line: FormatableLine,
) -> bool {
    let row = prefix.start_position.row;
    let prefix_end = clamped(s, prefix.end_byte as int);
    let number_start = clamped(s, number.start_byte as int);
    let number_end = clamped(s, number.end_byte as int);
    &&& line.line_num == row
    &&& line.prefix@ == treesitter_utils::text_between(
        s,
        row_start(s, row as nat) as int,
        prefix_end,
    )
    &&& line.number@ == treesitter_utils::text_between(s, number_start, number_end)
    &&& line.rest@ == treesitter_utils::text_between(s, number_end, row_end(s, row as nat) as int)
}

/// Extracts the components (prefix, number, rest) from a single line.
///
/// The rebuilt line is prefix, padding, number and rest, so anything that stands
/// between the prefix and the number would be silently deleted by the rebuild.
/// The grammar's error recovery produces such pairs on lines broken mid-edit.
pub fn extract_line_components(index: &LineIndex, prefix_node: Node, number_node: Node) -> (r:
    Option<FormatableLine>)
    requires
        is_formatable(index@, prefix_node, number_node) ==> nodes_in_order(
            index@,
            prefix_node,
            number_node,
        ),
    ensures
        match r {
            Some(line) => is_formatable(index@, prefix_node, number_node) && is_line_of(
                index@,
                prefix_node,
                number_node,
                line,
            ),
            None => !is_formatable(index@, prefix_node, number_node),
        },
{
    match checked_line_components(index, prefix_node, number_node) {
        Ok(line) => line,
        Err(e) => None,
    }
}

/// Like [`extract_line_components`], for nodes that may come from a tree of
/// another text.
fn checked_line_components(index: &LineIndex, prefix_node: Node, number_node: Node) -> (r: Result<
    Option<FormatableLine>,
    ExtractionError,
>)
    ensures
        match r {
            Ok(Some(line)) => {
                &&& is_formatable(index@, prefix_node, number_node)
                &&& nodes_in_order(index@, prefix_node, number_node)
                &&& is_line_of(index@, prefix_node, number_node, line)
            },
            Ok(None) => !is_formatable(index@, prefix_node, number_node),
            Err(e) => is_formatable(index@, prefix_node, number_node) && !nodes_in_order(
                index@,
                prefix_node,
                number_node,
            ),
        },
{
    let ghost s = index@;
    let line_num = prefix_node.start_position.row;
    let text = index.text();
    let len = strings::byte_len(text);
    let line_start = index.line_start_byte(line_num);
    let line_end = index.line_end_byte(line_num);
    let prefix_end = clamp(prefix_node.end_byte, len);
    let number_start = clamp(number_node.start_byte, len);
    let number_end = clamp(number_node.end_byte, len);
    if number_node.start_position.row != line_num || number_start < prefix_end
        || !strings::is_char_boundary(text, prefix_end) || !strings::is_char_boundary(
        text,
        number_start,
    ) || !strings::is_char_boundary(text, number_end) {
        return Ok(None);
    }
    proof {
        text::lemma_boundary_in_prefix(s, prefix_end as int, number_start as int);
    }
    if !strings::is_all_white_space(strings::slice(text, prefix_end, number_start)) {
        return Ok(None);
    }
    if prefix_end < line_start || number_end < number_start {
        return Err(ExtractionError::StaleTree);
    }
    proof {
        let first = text::line_start(s, treesitter_utils::clamped_line(s, line_num as nat)) as int;
        let last = text::line_start(s, line_num as nat + 1) as int;
        text::lemma_line_start(s, treesitter_utils::clamped_line(s, line_num as nat));
        text::lemma_line_start(s, line_num as nat + 1);
        text::lemma_char_boundary(s, first);
        text::lemma_char_boundary(s, last);
        text::lemma_boundary_in_prefix(s, line_start as int, prefix_end as int);
        text::lemma_boundary_in_prefix(s, number_start as int, number_end as int);
        if number_end < line_end {
            text::lemma_boundary_in_prefix(s, number_end as int, line_end as int);
        } else {
            text::lemma_boundary_in_prefix(s, line_end as int, number_end as int);
            assert(treesitter_utils::text_between(s, number_end as int, line_end as int)
                =~= seq![]);
        }
    }
    Ok(
        Some(
            FormatableLine {
                line_num,
                prefix: strings::slice(text, line_start, prefix_end).to_owned(),
                number: strings::slice(text, number_start, number_end).to_owned(),
                rest: if number_end < line_end {
                    strings::slice(text, number_end, line_end).to_owned()
                } else {
                    String::new()
                },
            },
        ),
    )
}

/// A capture goes by a name.
pub open spec fn is_named(names: Seq<Seq<char>>, capture: Capture, name: Seq<char>) -> bool {
    capture.index < names.len() && names[capture.index as int] == name
}

/// The node of the last capture of a name.
pub open spec fn last_named(
    names: Seq<Seq<char>>,
    captures: Seq<Capture>,
    name: Seq<char>,
) -> Option<Node>
    decreases captures.len(),
{
    if captures.len() == 0 {
        None
    } else if is_named(names, captures.last(), name) {
        Some(captures.last().node)
    } else {
        last_named(names, captures.drop_last(), name)
    }
}

/// The pairs of prefix and number that matches mark and that make a line that can
/// be rebuilt, in order.
pub open spec fn formatable_pairs(
    s: Seq<char>,
    names: Seq<Seq<char>>,
    matches: Seq<Seq<Capture>>,
) -> Seq<(Node, Node)>
    decreases matches.len(),
{
    if matches.len() == 0 {
        seq![]
    } else {
        let before = formatable_pairs(s, names, matches.drop_last());
        match (
            last_named(names, matches.last(), "prefix"@),
            last_named(names, matches.last(), "number"@),
        ) {
            (Some(prefix), Some(number)) if is_formatable(s, prefix, number) => before.push(
                (prefix, number),
            ),
            _ => before,
        }
    }
}

/// Lines hold the components that pairs of nodes mark.
pub open spec fn are_lines_of(
    s: Seq<char>,
    pairs: Seq<(Node, Node)>,
    lines: Seq<FormatableLine>,
) -> bool {
    &&& lines.len() == pairs.len()
    &&& forall|i: int|
        0 <= i < lines.len() ==> is_line_of(s, pairs[i].0, pairs[i].1, #[trigger] lines[i])
}

/// Every pair can be one of the text.
pub open spec fn pairs_in_order(s: Seq<char>, pairs: Seq<(Node, Node)>) -> bool {
    forall|i: int|
        0 <= i < pairs.len() ==> nodes_in_order(s, (#[trigger] pairs[i]).0, pairs[i].1)
}

/// The pairs of the first matches come first among all pairs.
proof fn lemma_pairs_prefix(
    s: Seq<char>,
    names: Seq<Seq<char>>,
    matches: Seq<Seq<Capture>>,
    n: int,
)
    requires
        0 <= n <= matches.len(),
    ensures
        formatable_pairs(s, names, matches.take(n)).len() <= formatable_pairs(
            s,
            names,
            matches,
        ).len(),
        forall|i: int|
            0 <= i < formatable_pairs(s, names, matches.take(n)).len() ==> #[trigger]
            formatable_pairs(s, names, matches.take(n))[i] == formatable_pairs(
                s,
                names,
                matches,
            )[i],
    decreases matches.len(),
{
    if n == matches.len() {
        assert(matches.take(n) =~= matches);
    } else {
        assert(matches.drop_last().take(n) =~= matches.take(n));
        lemma_pairs_prefix(s, names, matches.drop_last(), n);
    }
}

/// The node of the last capture of a name.
fn find_last_named(names: &Vec<String>, captures: &Vec<Capture>, name: &str) -> (r: Option<Node>)
    ensures
        r == last_named(views(names@), captures@, name@),
{
    let mut i: usize = captures.len();
    assert(captures@.take(i as int) =~= captures@);
    while i > 0
        invariant
            i <= captures@.len(),
            last_named(views(names@), captures@, name@) == last_named(
                views(names@),
                captures@.take(i as int),
                name@,
            ),
        decreases i,
    {
        i = i - 1;
        proof {
            assert(captures@.take(i + 1).drop_last() =~= captures@.take(i as int));
            assert(captures@.take(i + 1).last() == captures@[i as int]);
        }
        let capture = captures[i];
        let index = capture.index as usize;
        if index < names.len() && strings::equal(names[index].as_str(), name) {
            return Some(capture.node);
        }
    }
    None
}

/// The texts of a list of strings.
pub open spec fn views(strings: Seq<String>) -> Seq<Seq<char>> {
    Seq::new(strings.len(), |i: int| strings[i]@)
}

/// The lines that matches mark, given the names of the captures.
pub fn lines_from_matches(
    index: &LineIndex,
    names: &Vec<String>,
    matches: &Vec<Vec<Capture>>,
) -> (r: Result<Vec<FormatableLine>, ExtractionError>)
    ensures
        ({
            let pairs = formatable_pairs(index@, views(names@), syntax::capture_lists(matches@));
            match r {
                Ok(lines) => pairs_in_order(index@, pairs) && are_lines_of(
                    index@,
                    pairs,
                    lines@,
                ),
                Err(e) => !pairs_in_order(index@, pairs),
            }
        }),
{
    let ghost s = index@;
    let ghost all = syntax::capture_lists(matches@);
    let mut lines: Vec<FormatableLine> = Vec::new();
    let mut i: usize = 0;
    assert(all.take(0).len() == 0);
    while i < matches.len()
        invariant
            s == index@,
            all == syntax::capture_lists(matches@),
            i <= matches@.len(),
            pairs_in_order(s, formatable_pairs(s, views(names@), all.take(i as int))),
            are_lines_of(s, formatable_pairs(s, views(names@), all.take(i as int)), lines@),
        decreases matches@.len() - i,
    {
        let captures = &matches[i];
        let ghost before = formatable_pairs(s, views(names@), all.take(i as int));
        let ghost after = formatable_pairs(s, views(names@), all.take(i + 1));
        proof {
            assert(all.take(i + 1).drop_last() =~= all.take(i as int));
            assert(all.take(i + 1).last() == captures@);
        }
        let prefix = find_last_named(names, captures, "prefix");
        let number = find_last_named(names, captures, "number");
        if let (Some(prefix), Some(number)) = (prefix, number) {
            match checked_line_components(index, prefix, number) {
                Ok(Some(line)) => {
                    lines.push(line);
                },
                Ok(None) => {},
                Err(e) => {
                    proof {
                        lemma_pairs_prefix(s, views(names@), all, i + 1);
                        assert(after[before.len() as int] == (prefix, number));
                    }
                    return Err(e);
                },
            }
        }
        i = i + 1;
    }
    assert(all.take(all.len() as int) =~= all);
    Ok(lines)
}

/// Extracts the lines that can be aligned, as a query marks them: each match
/// captures a `prefix` and a `number`.
pub fn extract_formateable_lines(index: &LineIndex, tree: &Tree, query: &Query) -> (r: Result<
    Vec<FormatableLine>,
    ExtractionError,
>)
    ensures
        ({
            let pairs = formatable_pairs(
                index@,
                syntax::query_capture_names(*query),
                syntax::query_matches(*query, *tree, index@),
            );
            match r {
                Ok(lines) => pairs_in_order(index@, pairs) && are_lines_of(
                    index@,
                    pairs,
                    lines@,
                ),
                Err(e) => !pairs_in_order(index@, pairs),
            }
        }),
{
    let names = syntax::capture_names(query);
    let matches = syntax::run_query(query, tree, index.text());
    assert(views(names@) =~= syntax::query_capture_names(*query));
    assert(syntax::capture_lists(matches@) =~= syntax::query_matches(*query, *tree, index@));
    lines_from_matches(index, &names, &matches)
}

/// The smaller of an offset and a length.
fn clamp(byte: usize, len: usize) -> (r: usize)
    ensures
        r == if byte < len {
            byte
        } else {
            len
        },
{
    if byte < len {
        byte
    } else {
        len
    }
}

/// The components of a line make up the line: prefix, white space, number and
/// rest, joined, are the text of the line from its start to its end.
pub proof fn law_components_make_up_line(
    s: Seq<char>,
    prefix: Node,
    number: Node,
    line: FormatableLine,
)
    requires
        nodes_in_order(s, prefix, number),
        is_formatable(s, prefix, number),
        is_line_of(s, prefix, number, line),
        clamped(s, number.end_byte as int) <= row_end(s, line.line_num as nat),
    ensures
        ({
            let gap = treesitter_utils::text_between(
                s,
                clamped(s, prefix.end_byte as int),
                clamped(s, number.start_byte as int),
            );
            &&& text::all_white_space(gap)
            &&& line.prefix@ + gap + line.number@ + line.rest@ == treesitter_utils::line_of(
                s,
                treesitter_utils::clamped_line(s, line.line_num as nat),
            )
        }),
{
    let row = line.line_num as nat;
    let n = treesitter_utils::clamped_line(s, row);
    let first = text::line_start(s, n) as int;
    let last = text::line_start(s, row + 1) as int;
    let prefix_end = clamped(s, prefix.end_byte as int);
    let number_start = clamped(s, number.start_byte as int);
    let number_end = clamped(s, number.end_byte as int);
    text::lemma_line_start(s, n);
    text::lemma_line_start(s, n + 1);
    text::lemma_line_start(s, row + 1);
    text::lemma_char_boundary(s, first);
    text::lemma_char_boundary(s, last);
    text::lemma_boundary_in_prefix(s, row_start(s, row) as int, prefix_end);
    text::lemma_boundary_in_prefix(s, prefix_end, number_start);
    text::lemma_boundary_in_prefix(s, number_start, number_end);
    text::lemma_boundary_in_prefix(s, number_end, row_end(s, row) as int);
    let gap = treesitter_utils::text_between(s, prefix_end, number_start);
    assert(line.prefix@ + gap + line.number@ + line.rest@ =~= treesitter_utils::line_of(s, n));
}

/// The widest of a sequence of widths; zero where there is none.
pub open spec fn widest(widths: Seq<nat>) -> nat
    decreases widths.len(),
{
    if widths.len() == 0 {
        0
    } else {
        let before = widest(widths.drop_last());
        if before < widths.last() {
            widths.last()
        } else {
            before
        }
    }
}

/// The widths of the prefixes, in bytes, without the white space at their ends.
pub open spec fn prefix_widths(lines: Seq<FormatableLine>) -> Seq<nat> {
    Seq::new(lines.len(), |i: int| text::utf8_len(text::trimmed_end(lines[i].prefix@)))
}

/// The widths of the numbers, in bytes.
pub open spec fn number_widths(lines: Seq<FormatableLine>) -> Seq<nat> {
    Seq::new(lines.len(), |i: int| text::utf8_len(lines[i].number@))
}

/// Calculates the widths to align to: what the user asked for, else the widest
/// that occurs.
pub fn calculate_format_config(
    formateable_lines: &[FormatableLine],
    user_config: &FormattingConfig,
) -> (config: FormatConfig)
    ensures
        config.final_prefix_width == match user_config.prefix_width {
            Some(width) => width as nat,
            None => widest(prefix_widths(formateable_lines@)),
        },
        config.final_num_width == match user_config.num_width {
            Some(width) => width as nat,
            None => widest(number_widths(formateable_lines@)),
        },
        user_config.num_width is None ==> forall|i: int|
            0 <= i < formateable_lines@.len() ==> utf8::encode_utf8(
                (#[trigger] formateable_lines@[i]).number@,
            ).len() <= config.final_num_width,
        user_config.num_width is None && formateable_lines@.len() > 0 ==> exists|i: int|
            0 <= i < formateable_lines@.len() && utf8::encode_utf8(
                (#[trigger] formateable_lines@[i]).number@,
            ).len() == config.final_num_width,
        user_config.prefix_width is None ==> forall|i: int|
            0 <= i < formateable_lines@.len() ==> utf8::encode_utf8(
                text::trimmed_end((#[trigger] formateable_lines@[i]).prefix@),
            ).len() <= config.final_prefix_width,
        user_config.prefix_width is None && formateable_lines@.len() > 0 ==> exists|i: int|
            0 <= i < formateable_lines@.len() && utf8::encode_utf8(
                text::trimmed_end((#[trigger] formateable_lines@[i]).prefix@),
            ).len() == config.final_prefix_width,
        formateable_lines@.len() == 0 ==> (user_config.num_width is None ==> config.final_num_width
            == 0) && (user_config.prefix_width is None ==> config.final_prefix_width == 0),
{
    proof {
        law_columns_are_as_wide_as_needed(formateable_lines@);
    }
    let ghost lines = formateable_lines@;
    let mut max_prefix_width: usize = 0;
    let mut max_number_width: usize = 0;
    let mut i: usize = 0;
    assert(prefix_widths(lines).take(0).len() == 0);
    assert(number_widths(lines).take(0).len() == 0);
    while i < formateable_lines.len()
        invariant
            lines == formateable_lines@,
            i <= lines.len(),
            max_prefix_width == widest(prefix_widths(lines).take(i as int)),
            max_number_width == widest(number_widths(lines).take(i as int)),
        decreases lines.len() - i,
    {
        let line = &formateable_lines[i];
        let prefix_width = strings::trimmed_end_len(line.prefix.as_str());
        let number_width = strings::byte_len(line.number.as_str());
        proof {
            let prefixes = prefix_widths(lines);
            let numbers = number_widths(lines);
            assert(prefixes.take(i + 1).drop_last() =~= prefixes.take(i as int));
            assert(numbers.take(i + 1).drop_last() =~= numbers.take(i as int));
        }
        if max_prefix_width < prefix_width {
            max_prefix_width = prefix_width;
        }
        if max_number_width < number_width {
            max_number_width = number_width;
        }
        i = i + 1;
    }
    assert(prefix_widths(lines).take(lines.len() as int) =~= prefix_widths(lines));
    assert(number_widths(lines).take(lines.len() as int) =~= number_widths(lines));
    FormatConfig {
        final_prefix_width: match user_config.prefix_width {
            Some(width) => width,
            None => max_prefix_width,
        },
        final_num_width: match user_config.num_width {
            Some(width) => width,
            None => max_number_width,
        },
    }
}

proof fn lemma_widest(widths: Seq<nat>, i: int)
    requires
        0 <= i < widths.len(),
    ensures
        widths[i] <= widest(widths),
        widths.contains(widest(widths)),
    decreases widths.len(),
{
    let front = widths.drop_last();
    if front.len() == 0 {
        assert(widest(front) == 0);
        assert(widths[0] == widest(widths));
    } else {
        lemma_widest(front, if i < front.len() { i } else { 0 });
        let k = front.index_of(widest(front));
        assert(widths[k] == widest(front));
        assert(widths[widths.len() - 1] == widths.last());
    }
}

/// The widths to align to, where the user asked for none, leave room for every
/// line, and no more than some line needs.
pub proof fn law_widths_fit_every_line(lines: Seq<FormatableLine>, i: int)
    requires
        0 <= i < lines.len(),
    ensures
        text::utf8_len(text::trimmed_end(lines[i].prefix@)) <= widest(prefix_widths(lines)),
        text::utf8_len(lines[i].number@) <= widest(number_widths(lines)),
        prefix_widths(lines).contains(widest(prefix_widths(lines))),
        number_widths(lines).contains(widest(number_widths(lines))),
{
    lemma_widest(prefix_widths(lines), i);
    lemma_widest(number_widths(lines), i);
    assert(prefix_widths(lines)[i] == text::utf8_len(text::trimmed_end(lines[i].prefix@)));
    assert(number_widths(lines)[i] == text::utf8_len(lines[i].number@));
}

/// Where the user asked for no width, every line fits in the width of its column,
/// and some line needs all of it. Without lines, nothing is needed.
pub proof fn law_columns_are_as_wide_as_needed(lines: Seq<FormatableLine>)
    ensures
        forall|i: int|
            0 <= i < lines.len() ==> utf8::encode_utf8((#[trigger] lines[i]).number@).len()
                <= widest(number_widths(lines)),
        lines.len() > 0 ==> exists|i: int|
            0 <= i < lines.len() && utf8::encode_utf8((#[trigger] lines[i]).number@).len()
                == widest(number_widths(lines)),
        forall|i: int|
            0 <= i < lines.len() ==> utf8::encode_utf8(
                text::trimmed_end((#[trigger] lines[i]).prefix@),
            ).len() <= widest(prefix_widths(lines)),
        lines.len() > 0 ==> exists|i: int|
            0 <= i < lines.len() && utf8::encode_utf8(
                text::trimmed_end((#[trigger] lines[i]).prefix@),
            ).len() == widest(prefix_widths(lines)),
        lines.len() == 0 ==> widest(number_widths(lines)) == 0 && widest(prefix_widths(lines)) == 0,
{
    assert forall|i: int| 0 <= i < lines.len() implies utf8::encode_utf8(
        (#[trigger] lines[i]).number@,
    ).len() <= widest(number_widths(lines)) by {
        lemma_widest(number_widths(lines), i);
        text::lemma_encode_len(lines[i].number@);
        assert(number_widths(lines)[i] == text::utf8_len(lines[i].number@));
    }
    assert forall|i: int| 0 <= i < lines.len() implies utf8::encode_utf8(
        text::trimmed_end((#[trigger] lines[i]).prefix@),
    ).len() <= widest(prefix_widths(lines)) by {
        lemma_widest(prefix_widths(lines), i);
        text::lemma_encode_len(text::trimmed_end(lines[i].prefix@));
        assert(prefix_widths(lines)[i] == text::utf8_len(text::trimmed_end(lines[i].prefix@)));
    }
    if lines.len() > 0 {
        lemma_widest(number_widths(lines), 0);
        lemma_widest(prefix_widths(lines), 0);
        let i = number_widths(lines).index_of(widest(number_widths(lines)));
        text::lemma_encode_len(lines[i].number@);
        assert(utf8::encode_utf8(lines[i].number@).len() == widest(number_widths(lines)));
        let k = prefix_widths(lines).index_of(widest(prefix_widths(lines)));
        text::lemma_encode_len(text::trimmed_end(lines[k].prefix@));
        assert(utf8::encode_utf8(text::trimmed_end(lines[k].prefix@)).len() == widest(
            prefix_widths(lines),
        ));
    }
}

/// When a prefix and a number make a line: both start on one row, the number starts
/// at or after the end of the prefix, no offset cuts a character apart, and only
/// white space stands between. Offsets past the end count as the end.
pub proof fn law_when_nodes_make_a_line(
    s: Seq<char>,
    prefix: Node,
    number: Node,
    prefix_end: int,
    number_start: int,
    number_end: int,
)
    requires
        prefix_end == if prefix.end_byte < utf8::encode_utf8(s).len() {
            prefix.end_byte as int
        } else {
            utf8::encode_utf8(s).len() as int
        },
        number_start == if number.start_byte < utf8::encode_utf8(s).len() {
            number.start_byte as int
        } else {
            utf8::encode_utf8(s).len() as int
        },
        number_end == if number.end_byte < utf8::encode_utf8(s).len() {
            number.end_byte as int
        } else {
            utf8::encode_utf8(s).len() as int
        },
    ensures
        is_formatable(s, prefix, number) <==> {
            &&& number.start_position.row == prefix.start_position.row
            &&& prefix_end <= number_start
            &&& text::is_boundary(s, prefix_end)
            &&& text::is_boundary(s, number_start)
            &&& text::is_boundary(s, number_end)
            &&& forall|i: int|
                0 <= i < treesitter_utils::text_between(s, prefix_end, number_start).len()
                    ==> text::is_white_space(
                    #[trigger] treesitter_utils::text_between(s, prefix_end, number_start)[i],
                )
        },
{
    text::lemma_encode_len(s);
    let gap = treesitter_utils::text_between(s, prefix_end, number_start);
    assert(text::all_white_space(gap) <==> forall|i: int|
        0 <= i < gap.len() ==> text::is_white_space(#[trigger] gap[i]));
}

/// When a prefix and a number can be nodes of the text: the prefix does not end
/// before its row starts, nor the number before it starts. Rows past the last stand
/// for the last.
pub proof fn law_when_nodes_are_in_order(s: Seq<char>, prefix: Node, number: Node, row: nat)
    requires
        row == if prefix.start_position.row < text::newlines(s) {
            prefix.start_position.row as nat
        } else {
            text::newlines(s)
        },
    ensures
        nodes_in_order(s, prefix, number) <==> {
            &&& utf8::encode_utf8(s.take(text::line_start(s, row) as int)).len()
                <= prefix.end_byte
            &&& number.start_byte <= number.end_byte || utf8::encode_utf8(s).len()
                <= number.end_byte
        },
{
    text::lemma_encode_len(s);
    text::lemma_encode_len(s.take(text::line_start(s, row) as int));
    text::lemma_line_start(s, row);
    text::lemma_measure_monotone(
        s,
        text::utf8_widths(),
        text::line_start(s, row) as int,
        s.len() as int,
    );
    text::lemma_measure_whole(s, text::utf8_widths());
}

/// What a line holds: the number of its row, and the text from the start of the row
/// to the end of the prefix, that of the number, and that from the end of the number
/// to the end of the row.
pub proof fn law_what_a_line_holds(s: Seq<char>, prefix: Node, number: Node, line: FormatableLine)
    requires
        is_line_of(s, prefix, number, line),
    ensures
        ({
            let len = utf8::encode_utf8(s).len() as int;
            let prefix_end = if prefix.end_byte < len {
                prefix.end_byte as int
            } else {
                len
            };
            let number_start = if number.start_byte < len {
                number.start_byte as int
            } else {
                len
            };
            let number_end = if number.end_byte < len {
                number.end_byte as int
            } else {
                len
            };
            let row = prefix.start_position.row as nat;
            let last = if row < text::newlines(s) {
                row
            } else {
                text::newlines(s)
            };
            let row_start = utf8::encode_utf8(s.take(text::line_start(s, last) as int)).len();
            let row_end = utf8::encode_utf8(s.take(text::line_start(s, row + 1) as int)).len();
            &&& line.line_num == prefix.start_position.row
            &&& line.prefix@ == treesitter_utils::text_between(s, row_start as int, prefix_end)
            &&& line.number@ == treesitter_utils::text_between(s, number_start, number_end)
            &&& line.rest@ == treesitter_utils::text_between(s, number_end, row_end as int)
        }),
{
    let row = prefix.start_position.row as nat;
    text::lemma_encode_len(s);
    text::lemma_encode_len(
        s.take(text::line_start(s, treesitter_utils::clamped_line(s, row)) as int),
    );
    text::lemma_encode_len(s.take(text::line_start(s, row + 1) as int));
}

/// A match gives a line exactly if it captures a prefix and a number that make one;
/// of several captures of a name the last counts. The lines come in the order of
/// the matches.
pub proof fn law_one_line_for_each_match(
    s: Seq<char>,
    names: Seq<Seq<char>>,
    matches: Seq<Seq<Capture>>,
    captures: Seq<Capture>,
    p: int,
    n: int,
)
    requires
        -1 <= p < captures.len(),
        -1 <= n < captures.len(),
        p >= 0 ==> captures[p].index < names.len() && names[captures[p].index as int] == "prefix"@,
        n >= 0 ==> captures[n].index < names.len() && names[captures[n].index as int] == "number"@,
        forall|j: int|
            p < j < captures.len() ==> !((#[trigger] captures[j]).index < names.len()
                && names[captures[j].index as int] == "prefix"@),
        forall|j: int|
            n < j < captures.len() ==> !((#[trigger] captures[j]).index < names.len()
                && names[captures[j].index as int] == "number"@),
    ensures
        formatable_pairs(s, names, seq![]).len() == 0,
        formatable_pairs(s, names, matches.push(captures)) == if p >= 0 && n >= 0 && is_formatable(
            s,
            captures[p].node,
            captures[n].node,
        ) {
            formatable_pairs(s, names, matches).push((captures[p].node, captures[n].node))
        } else {
            formatable_pairs(s, names, matches)
        },
{
    assert(matches.push(captures).drop_last() =~= matches);
    lemma_last_named(names, captures, "prefix"@, p);
    lemma_last_named(names, captures, "number"@, n);
}

proof fn lemma_last_named(
    names: Seq<Seq<char>>,
    captures: Seq<Capture>,
    name: Seq<char>,
    p: int,
)
    requires
        -1 <= p < captures.len(),
        p >= 0 ==> captures[p].index < names.len() && names[captures[p].index as int] == name,
        forall|j: int|
            p < j < captures.len() ==> !((#[trigger] captures[j]).index < names.len()
                && names[captures[j].index as int] == name),
    ensures
        last_named(names, captures, name) == if p >= 0 {
            Some(captures[p].node)
        } else {
            None
        },
    decreases captures.len(),
{
    if captures.len() > 0 && p < captures.len() - 1 {
        let front = captures.drop_last();
        assert(!is_named(names, captures[captures.len() - 1], name));
        assert forall|j: int| p < j < front.len() implies !((#[trigger] front[j]).index
            < names.len() && names[front[j].index as int] == name) by {
            assert(front[j] == captures[j]);
        }
        lemma_last_named(names, front, name, p);
    }
}

/// Lines are those of their pairs, one for each; and pairs are in order if each is.
pub proof fn law_lines_of_pairs(
    s: Seq<char>,
    pairs: Seq<(Node, Node)>,
    lines: Seq<FormatableLine>,
    strings: Seq<String>,
)
    ensures
        are_lines_of(s, pairs, lines) <==> lines.len() == pairs.len() && forall|i: int|
            0 <= i < lines.len() ==> is_line_of(s, pairs[i].0, pairs[i].1, #[trigger] lines[i]),
        pairs_in_order(s, pairs) <==> forall|i: int|
            0 <= i < pairs.len() ==> nodes_in_order(s, (#[trigger] pairs[i]).0, pairs[i].1),
        views(strings).len() == strings.len(),
        forall|i: int| 0 <= i < strings.len() ==> #[trigger] views(strings)[i] == strings[i]@,
{
}

} // verus!
