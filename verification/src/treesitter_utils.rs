//! Conversions between document offsets, protocol positions and syntax trees.
use crate::protocol::Position;
use crate::protocol::Range;
use crate::protocol::TextDocumentContentChangeEvent;
use crate::protocol::TextDocumentContentChangePartial;
use crate::protocol::TextDocumentContentChangeWholeDocument;
use crate::ropes;
use crate::strings;
use crate::syntax;
use crate::syntax::InputEdit;
use crate::syntax::Node;
use crate::syntax::ParseBudget;
use crate::syntax::Point;
use crate::text;
use ropey::Rope;
use tree_sitter_beancount::tree_sitter::Parser;
use tree_sitter_beancount::tree_sitter::Tree;
use vstd::prelude::*;
use vstd::utf8;

verus! {

/// The protocol position of byte offset `b` of text `s`: the line it is on, and
/// the distance in UTF-16 code units from the start of that line to the
/// character that the offset falls into.
pub open spec fn position_of_byte(s: Seq<char>, b: int) -> Position {
    let c = text::char_of_byte(s, b) as int;
    let line = text::line_of_char(s, c);
    let column = text::utf16_of_char(s, c) - text::utf16_of_char(
        s,
        text::line_start(s, line) as int,
    );
    Position { line: line as u32, character: column as u32 }
}

/// The protocol range of a node.
pub open spec fn range_of_node(s: Seq<char>, node: Node) -> Range {
    Range {
        start: position_of_byte(s, node.start_byte as int),
        end: position_of_byte(s, node.end_byte as int),
    }
}

/// The text of line `n`, its terminator included.
pub open spec fn line_of(s: Seq<char>, n: nat) -> Seq<char> {
    s.subrange(text::line_start(s, n) as int, text::line_start(s, n + 1) as int)
}

/// The line that `n` stands for, where lines past the end stand for the last.
pub open spec fn clamped_line(s: Seq<char>, n: nat) -> nat {
    if n < text::newlines(s) {
        n
    } else {
        text::newlines(s)
    }
}

/// The characters from the one that byte offset `start` falls into up to the one
/// that `end` falls into; nothing where the latter comes first.
pub open spec fn text_between(s: Seq<char>, start: int, end: int) -> Seq<char> {
    let first = text::char_of_byte(s, start) as int;
    let last = text::char_of_byte(s, end) as int;
    if first <= last {
        s.subrange(first, last)
    } else {
        seq![]
    }
}

/// Byte offset to position lookups over a string, without a rope.
///
/// Building this index is one linear scan; each lookup is a binary search, plus
/// a short scan of the line prefix for lines that hold more than ASCII.
pub struct LineIndex<'a> {
    text: &'a str,
    /// Byte offset where each line starts; always begins with 0.
    line_starts: Vec<usize>,
    /// Whether each line is pure ASCII, in which case the UTF-16 column is the
    /// byte offset within the line.
    line_ascii: Vec<bool>,
}

impl<'a> View for LineIndex<'a> {
    type V = Seq<char>;

    closed spec fn view(&self) -> Seq<char> {
        self.text@
    }
}

impl<'a> LineIndex<'a> {
    /// The tables describe the lines of the text.
    #[verifier::type_invariant]
    spec fn describes_lines(self) -> bool {
        let s = self.text@;
        &&& self.line_starts@.len() == text::line_count(s)
        &&& self.line_ascii@.len() == text::line_count(s)
        &&& forall|n: int|
            0 <= n < self.line_starts@.len() ==> #[trigger] self.line_starts@[n]
                == text::byte_of_char(s, text::line_start(s, n as nat) as int)
        &&& forall|n: int|
            0 <= n < self.line_ascii@.len() ==> #[trigger] self.line_ascii@[n] == text::all_ascii(
                line_of(s, n as nat),
            )
    }

    pub fn new(text: &'a str) -> (index: Self)
        ensures
            index@ == text@,
    {
        let ghost s = text@;
        let len = strings::byte_len(text);
        let mut line_starts: Vec<usize> = Vec::with_capacity(len / 32 + 1);
        let mut line_ascii: Vec<bool> = Vec::with_capacity(len / 32 + 1);
        line_starts.push(0);
        let mut ascii = true;
        let mut offset: usize = 0;
        proof {
            text::lemma_measure_whole(s, text::utf8_widths());
            text::lemma_measure_whole(s, text::newline_widths());
            assert(s.subrange(0, 0).len() == 0);
        }
        for c in chars: text.chars()
            invariant
                chars.seq() == s,
                len == text::utf8_len(s),
                offset == text::byte_of_char(s, chars.index() as int),
                line_ascii@.len() == text::line_of_char(s, chars.index() as int),
                line_starts@.len() == line_ascii@.len() + 1,
                text::line_start(s, line_ascii@.len()) <= chars.index(),
                ascii == text::all_ascii(
                    s.subrange(
                        text::line_start(s, line_ascii@.len()) as int,
                        chars.index() as int,
                    ),
                ),
                forall|n: int|
                    0 <= n < line_starts@.len() ==> #[trigger] line_starts@[n]
                        == text::byte_of_char(s, text::line_start(s, n as nat) as int),
                forall|n: int|
                    0 <= n < line_ascii@.len() ==> #[trigger] line_ascii@[n] == text::all_ascii(
                        line_of(s, n as nat),
                    ),
        {
            let ghost i = chars.index() as int;
            let ghost start = text::line_start(s, line_ascii@.len()) as int;
            proof {
                text::lemma_measure_step(s, text::utf8_widths(), i);
                text::lemma_measure_monotone(s, text::utf8_widths(), i + 1, s.len() as int);
                text::lemma_measure_whole(s, text::utf8_widths());
                text::lemma_measure_step(s, text::newline_widths(), i);
                assert(s.subrange(start, i + 1) =~= s.subrange(start, i).push(c));
                assert(s.subrange(start, i + 1)[i - start] == c);
            }
            if (c as u32) >= 0x80 {
                ascii = false;
            }
            proof {
                assert(ascii == text::all_ascii(s.subrange(start, i + 1))) by {
                    let shorter = s.subrange(start, i);
                    let longer = s.subrange(start, i + 1);
                    if text::all_ascii(longer) {
                        assert forall|k: int| 0 <= k < shorter.len() implies (#[trigger] shorter[k]
                            as u32) < 0x80 by {
                            assert(longer[k] == shorter[k]);
                        }
                    } else if text::all_ascii(shorter) && (c as u32) < 0x80 {
                        assert forall|k: int| 0 <= k < longer.len() implies (#[trigger] longer[k]
                            as u32) < 0x80 by {
                            if k < shorter.len() {
                                assert(longer[k] == shorter[k]);
                            }
                        }
                    }
                }
            }
            offset = offset + strings::utf8_char_len(c);
            if c == '\n' {
                proof {
                    text::lemma_line_start_after_newline(s, i);
                    assert(s.subrange(i + 1, i + 1).len() == 0);
                }
                line_ascii.push(ascii);
                ascii = true;
                line_starts.push(offset);
            }
        }
        proof {
            text::lemma_measure_whole(s, text::newline_widths());
            text::lemma_line_start(s, text::newlines(s) + 1);
        }
        line_ascii.push(ascii);
        LineIndex { text, line_starts, line_ascii }
    }

    /// The whole document.
    pub fn text(&self) -> (text: &'a str)
        ensures
            text@ == self@,
    {
        self.text
    }

    /// The line containing `byte`.
    pub fn line_of(&self, byte: usize) -> (line: usize)
        ensures
            line == text::line_of_char(self@, text::char_of_byte(self@, byte as int) as int),
    {
        proof {
            use_type_invariant(self);
        }
        let ghost s = self@;
        let ghost c = text::char_of_byte(s, byte as int) as int;
        let ghost found = text::line_of_char(s, c);
        proof {
            text::lemma_locate(s, text::utf8_widths(), byte as int);
            text::lemma_line_start_before(s, c);
        }
        let mut low: usize = 0;
        let mut high: usize = self.line_starts.len();
        while low < high
            invariant
                low <= found + 1,
                found < high <= self.line_starts@.len() || low == high == found + 1,
                low <= high,
                high <= self.line_starts@.len() == text::newlines(s) + 1,
                s == self@,
                c == text::char_of_byte(s, byte as int),
                c <= s.len(),
                found == text::line_of_char(s, c),
                self.describes_lines(),
            decreases high - low,
        {
            let middle = low + (high - low) / 2;
            proof {
                let start = text::line_start(s, middle as nat) as int;
                text::lemma_line_start(s, middle as nat);
                text::lemma_line_start_order(s, middle as nat, c);
                text::lemma_byte_order(s, start, byte as int);
            }
            if self.line_starts[middle] <= byte {
                low = middle + 1;
            } else {
                high = middle;
            }
        }
        low - 1
    }

    /// Largest char boundary at or below `byte`, clamped to the document.
    pub fn floor_boundary(&self, byte: usize) -> (floor: usize)
        ensures
            floor == text::floor_byte(self@, byte as int),
    {
        let ghost s = self@;
        let len = strings::byte_len(self.text);
        let mut floor = if byte < len {
            byte
        } else {
            len
        };
        proof {
            text::lemma_floor_byte(s, byte as int);
            text::lemma_floor_byte(s, len as int);
            text::lemma_measure_whole(s, text::utf8_widths());
        }
        while floor > 0 && !strings::is_char_boundary(self.text, floor)
            invariant
                s == self.text@,
                text::floor_byte(s, byte as int) <= floor <= byte,
                text::is_boundary(s, text::floor_byte(s, byte as int) as int),
                forall|d: int|
                    text::floor_byte(s, byte as int) < d <= byte ==> !text::is_boundary(s, d),
            decreases floor,
        {
            floor = floor - 1;
        }
        floor
    }

    /// Position (line, UTF-16 column) of a byte offset.
    pub fn position(&self, byte: usize) -> (position: Position)
        ensures
            position == position_of_byte(self@, byte as int),
    {
        proof {
            use_type_invariant(self);
        }
        let ghost s = self@;
        let ghost c = text::char_of_byte(s, byte as int) as int;
        proof {
            text::lemma_floor_byte(s, byte as int);
        }
        let byte = self.floor_boundary(byte);
        let line = self.line_of(byte);
        let ghost first = text::line_start(s, line as nat) as int;
        proof {
            text::lemma_line_start_before(s, c);
            text::lemma_line_prefix(s, c);
        }
        let start = self.line_starts[line];
        let column = if self.line_ascii[line] {
            proof {
                let prefix = s.subrange(first, c);
                let whole = line_of(s, line as nat);
                assert forall|k: int| 0 <= k < prefix.len() implies (#[trigger] prefix[k] as u32)
                    < 0x80 by {
                    assert(whole[k] == prefix[k]);
                }
                text::lemma_ascii_widths(prefix);
            }
            byte - start
        } else {
            strings::utf16_count(strings::slice(self.text, start, byte))
        };
        Position::new(line as u32, column as u32)
    }

    /// Range covering a node.
    pub fn range(&self, node: &Node) -> (range: Range)
        ensures
            range == range_of_node(self@, *node),
    {
        Range { start: self.position(node.start_byte), end: self.position(node.end_byte) }
    }

    /// Byte offset where a line begins (clamped to the last line).
    pub fn line_start_byte(&self, line: usize) -> (byte: usize)
        ensures
            byte == text::byte_of_char(
                self@,
                text::line_start(self@, clamped_line(self@, line as nat)) as int,
            ),
    {
        proof {
            use_type_invariant(self);
        }
        let last = self.line_starts.len() - 1;
        if line < last {
            self.line_starts[line]
        } else {
            self.line_starts[last]
        }
    }

    /// Byte offset just past a line, that is the start of the next one. Includes
    /// the line's own terminator.
    pub fn line_end_byte(&self, line: usize) -> (byte: usize)
        ensures
            byte == text::byte_of_char(self@, text::line_start(self@, line as nat + 1) as int),
    {
        proof {
            use_type_invariant(self);
            text::lemma_line_start(self@, line as nat + 1);
            text::lemma_measure_whole(self@, text::utf8_widths());
        }
        if line < self.line_starts.len() - 1 {
            self.line_starts[line + 1]
        } else {
            strings::byte_len(self.text)
        }
    }

    /// Number of lines, counted the way a rope does (a trailing newline yields
    /// one final empty line).
    pub fn line_count(&self) -> (n: usize)
        ensures
            n == text::line_count(self@),
    {
        proof {
            use_type_invariant(self);
        }
        self.line_starts.len()
    }

    /// A line's text, terminator included.
    pub fn line_text(&self, line: usize) -> (text: &'a str)
        ensures
            text@ == line_of(self@, clamped_line(self@, line as nat)),
    {
        let ghost s = self@;
        let ghost n = clamped_line(s, line as nat);
        let start = self.line_start_byte(line);
        let end = self.line_end_byte(line);
        proof {
            text::lemma_line_start_monotone(s, n, n + 1);
            text::lemma_line_start(s, line as nat + 1);
            text::lemma_line_start(s, n + 1);
            text::lemma_char_boundary(s, text::line_start(s, n) as int);
            text::lemma_char_boundary(s, text::line_start(s, n + 1) as int);
            text::lemma_measure_monotone(
                s,
                text::utf8_widths(),
                text::line_start(s, n) as int,
                text::line_start(s, n + 1) as int,
            );
        }
        strings::slice(self.text, start, end)
    }

    /// A node's source text, borrowed rather than copied.
    pub fn slice(&self, node: &Node) -> (text: &'a str)
        ensures
            text@ == text_between(self@, node.start_byte as int, node.end_byte as int),
    {
        let ghost s = self@;
        let start = self.floor_boundary(node.start_byte);
        let floor = self.floor_boundary(node.end_byte);
        proof {
            text::lemma_floor_byte(s, node.start_byte as int);
            text::lemma_floor_byte(s, node.end_byte as int);
            text::lemma_byte_order(
                s,
                text::char_of_byte(s, node.start_byte as int) as int,
                node.end_byte as int,
            );
            text::lemma_byte_order(
                s,
                text::char_of_byte(s, node.start_byte as int) as int,
                floor as int,
            );
        }
        let end = if floor < start {
            start
        } else {
            floor
        };
        strings::slice(self.text, start, end)
    }
}

/// A place in a document, in every unit that the conversions need.
#[derive(Clone, Copy, Debug, PartialEq, Eq, Structural)]
pub struct TextPosition {
    pub char: u32,
    pub byte: u32,
    pub code: u32,
    pub point: Point,
}

/// Why a conversion failed.
#[derive(Clone, Copy, Debug, PartialEq, Eq, Structural)]
pub enum ConversionError {
    /// An offset does not fit in 32 bits.
    OffsetTooLarge,
}

/// The UTF-16 offset of a position: its column counted from the start of its
/// line, clamped to the end of the document.
pub open spec fn position_code(s: Seq<char>, position: Position) -> nat {
    let code = text::utf16_of_char(s, text::line_start(s, position.line as nat) as int)
        + position.character as nat;
    if code < text::utf16_len(s) {
        code
    } else {
        text::utf16_len(s)
    }
}

/// The character at a position.
pub open spec fn position_char(s: Seq<char>, position: Position) -> nat {
    text::char_of_utf16(s, position_code(s, position) as int)
}

/// The byte offset of a position.
pub open spec fn position_byte(s: Seq<char>, position: Position) -> nat {
    text::byte_of_char(s, position_char(s, position) as int)
}

/// The row of a position. What lies past the end of the document has degraded to
/// that end, which is on the last row.
pub open spec fn position_row(s: Seq<char>, position: Position) -> nat {
    if position_code(s, position) < text::utf16_len(s) {
        position.line as nat
    } else {
        text::newlines(s)
    }
}

/// The point of a position: its row, and its distance in bytes from the start of
/// that row.
pub open spec fn position_point(s: Seq<char>, position: Position) -> Point {
    let row = position_row(s, position);
    Point {
        row: row as usize,
        column: (position_byte(s, position) - text::byte_of_char(
            s,
            text::line_start(s, row) as int,
        )) as usize,
    }
}

/// Every offset of a position fits in 32 bits.
pub open spec fn position_fits(s: Seq<char>, position: Position) -> bool {
    position_byte(s, position) <= u32::MAX && position_code(s, position) <= u32::MAX
}

/// What a [`TextPosition`] of a position holds.
pub open spec fn is_text_position(s: Seq<char>, position: Position, core: TextPosition) -> bool {
    &&& core.char == position_char(s, position)
    &&& core.byte == position_byte(s, position)
    &&& core.code == position_code(s, position)
    &&& core.point == position_point(s, position)
}

/// The character at a position stands at or after the start of its line, and no
/// further than the end of the text.
pub proof fn lemma_position_char(s: Seq<char>, position: Position)
    ensures
        text::line_start(s, position.line as nat) <= position_char(s, position) <= s.len(),
        text::utf16_of_char(s, position_char(s, position) as int) <= position_code(s, position),
        text::byte_of_char(s, text::line_start(s, position.line as nat) as int) <= position_byte(
            s,
            position,
        ) <= text::utf8_len(s),
        position_char(s, position) <= position_byte(s, position),
{
    let first = text::line_start(s, position.line as nat) as int;
    let c = position_char(s, position) as int;
    let code = position_code(s, position) as int;
    text::lemma_line_start(s, position.line as nat);
    text::lemma_measure_monotone(s, text::utf16_widths(), first, s.len() as int);
    text::lemma_measure_whole(s, text::utf16_widths());
    text::lemma_measure_whole(s, text::utf8_widths());
    text::lemma_locate(s, text::utf16_widths(), code);
    if c < first {
        text::lemma_measure_monotone(s, text::utf16_widths(), c + 1, first);
    }
    text::lemma_measure_monotone(s, text::utf8_widths(), first, c);
    text::lemma_measure_monotone(s, text::utf8_widths(), c, s.len() as int);
    text::lemma_len_order(s.take(c));
}

/// The row of a position exists, and starts at or before the position.
proof fn lemma_position_row(s: Seq<char>, position: Position)
    ensures
        position_row(s, position) < text::line_count(s),
        text::line_start(s, position_row(s, position)) <= position_char(s, position),
        text::byte_of_char(s, text::line_start(s, position_row(s, position)) as int)
            <= position_byte(s, position),
        position_code(s, position) == text::utf16_len(s) ==> position_char(s, position) == s.len(),
{
    let row = position_row(s, position);
    lemma_position_char(s, position);
    text::lemma_line_start(s, position.line as nat);
    text::lemma_measure_whole(s, text::utf16_widths());
    if position_code(s, position) == text::utf16_len(s) {
        text::lemma_locate_start(s, text::utf16_widths(), s.len() as int);
        text::lemma_line_start(s, row);
    }
    text::lemma_measure_monotone(
        s,
        text::utf8_widths(),
        text::line_start(s, row) as int,
        position_char(s, position) as int,
    );
}

/// The UTF-16 offset of a position.
fn position_to_utf16_cu(source: &Rope, position: Position) -> (code: usize)
    ensures
        code == position_code(ropes::rope_text(*source), position),
{
    let ghost s = ropes::rope_text(*source);
    proof {
        text::lemma_line_start(s, position.line as nat);
        text::lemma_line_start(s, text::line_count(s));
    }
    // Clamp the line like the column below: `line_to_char` accepts at most the
    // number of lines, and a position beyond the document must degrade to its
    // end.
    let lines = source.len_lines();
    let line = position.line as usize;
    let row_char_idx = source.line_to_char(
        if line < lines {
            line
        } else {
            lines
        },
    );
    let row_utf16_cu_idx = source.char_to_utf16_cu(row_char_idx);
    let len_utf16_cu = source.len_utf16_cu();
    let code = row_utf16_cu_idx.saturating_add(position.character as usize);
    if code < len_utf16_cu {
        code
    } else {
        len_utf16_cu
    }
}

/// The character at a position.
pub fn lsp_position_to_char(source: &Rope, position: Position) -> (c: usize)
    ensures
        c == position_char(ropes::rope_text(*source), position),
{
    source.utf16_cu_to_char(position_to_utf16_cu(source, position))
}

/// Convert a position into every unit at once. Positions beyond the document
/// degrade to its end.
pub fn lsp_position_to_core(source: &Rope, position: Position) -> (r: Result<
    TextPosition,
    ConversionError,
>)
    ensures
        match r {
            Ok(core) => position_fits(ropes::rope_text(*source), position) && is_text_position(
                ropes::rope_text(*source),
                position,
                core,
            ),
            Err(e) => !position_fits(ropes::rope_text(*source), position),
        },
{
    let ghost s = ropes::rope_text(*source);
    proof {
        lemma_position_char(s, position);
        lemma_position_row(s, position);
    }
    let abs_utf16_cu_idx = position_to_utf16_cu(source, position);
    let row_idx = if abs_utf16_cu_idx < source.len_utf16_cu() {
        position.line as usize
    } else {
        source.len_lines() - 1
    };
    let abs_char_idx = source.utf16_cu_to_char(abs_utf16_cu_idx);
    let abs_byte_idx = source.char_to_byte(abs_char_idx);
    let row_byte_idx = source.line_to_byte(row_idx);
    let point = Point::new(row_idx, abs_byte_idx - row_byte_idx);
    if abs_byte_idx > u32::MAX as usize || abs_utf16_cu_idx > u32::MAX as usize {
        return Err(ConversionError::OffsetTooLarge);
    }
    Ok(
        TextPosition {
            char: abs_char_idx as u32,
            byte: abs_byte_idx as u32,
            code: abs_utf16_cu_idx as u32,
            point,
        },
    )
}

/// Convert a UTF-16 position into a point with a byte-based column.
pub fn lsp_position_to_tree_sitter_point(source: &Rope, position: Position) -> (r: Result<
    Point,
    ConversionError,
>)
    ensures
        match r {
            Ok(point) => position_fits(ropes::rope_text(*source), position) && point
                == position_point(ropes::rope_text(*source), position),
            Err(e) => !position_fits(ropes::rope_text(*source), position),
        },
{
    match lsp_position_to_core(source, position) {
        Ok(core) => Ok(core.point),
        Err(e) => Err(e),
    }
}

/// The position one UTF-16 code unit to the left, on the same line.
pub open spec fn left_of(position: Position) -> Position {
    Position {
        line: position.line,
        character: if position.character > 0 {
            (position.character - 1) as u32
        } else {
            0
        },
    }
}

/// The two points of a range one code unit wide that ends at the position, so
/// that a cursor on a token boundary still resolves to the intended node.
pub fn lsp_position_to_tree_sitter_point_range(source: &Rope, position: Position) -> (r: Result<
    (Point, Point),
    ConversionError,
>)
    ensures
        match r {
            Ok((start, end)) => {
                &&& position_fits(ropes::rope_text(*source), left_of(position))
                &&& position_fits(ropes::rope_text(*source), position)
                &&& start == position_point(ropes::rope_text(*source), left_of(position))
                &&& end == position_point(ropes::rope_text(*source), position)
            },
            Err(e) => !(position_fits(ropes::rope_text(*source), left_of(position))
                && position_fits(ropes::rope_text(*source), position)),
        },
{
    let start_pos = Position::new(position.line, position.character.saturating_sub(1));
    let start = match lsp_position_to_tree_sitter_point(source, start_pos) {
        Ok(start) => start,
        Err(e) => return Err(e),
    };
    let end = match lsp_position_to_tree_sitter_point(source, position) {
        Ok(end) => end,
        Err(e) => return Err(e),
    };
    Ok((start, end))
}

/// Position of a byte offset of a rope.
pub fn byte_to_lsp_position(source: &Rope, byte_idx: usize) -> (position: Position)
    requires
        byte_idx <= text::utf8_len(ropes::rope_text(*source)),
    ensures
        position == position_of_byte(ropes::rope_text(*source), byte_idx as int),
{
    let ghost s = ropes::rope_text(*source);
    let ghost c = text::char_of_byte(s, byte_idx as int) as int;
    proof {
        text::lemma_locate(s, text::utf8_widths(), byte_idx as int);
        text::lemma_line_start_before(s, c);
        text::lemma_line_prefix(s, c);
    }
    let line = source.byte_to_line(byte_idx);
    let line_utf16_cu_idx = source.char_to_utf16_cu(source.line_to_char(line));
    let character_utf16_cu_idx = source.char_to_utf16_cu(source.byte_to_char(byte_idx));
    let character = character_utf16_cu_idx - line_utf16_cu_idx;
    Position::new(line as u32, character as u32)
}

/// Range of a node of a rope's tree.
pub fn tree_sitter_node_to_lsp_range(source: &Rope, node: &Node) -> (range: Range)
    requires
        node.start_byte <= text::utf8_len(ropes::rope_text(*source)),
        node.end_byte <= text::utf8_len(ropes::rope_text(*source)),
    ensures
        range == range_of_node(ropes::rope_text(*source), *node),
{
    let start = byte_to_lsp_position(source, node.start_byte);
    let end = byte_to_lsp_position(source, node.end_byte);
    Range { start, end }
}

/// The point of a byte offset: the row it is on, and its distance in bytes from
/// the start of that row.
pub open spec fn point_of_byte(s: Seq<char>, b: int) -> Point {
    let row = text::line_of_char(s, text::char_of_byte(s, b) as int);
    Point {
        row: row as usize,
        column: (b - text::byte_of_char(s, text::line_start(s, row) as int)) as usize,
    }
}

/// The two coordinates of the point of a byte offset fit in 32 bits.
pub open spec fn point_fits(s: Seq<char>, b: int) -> bool {
    let row = text::line_of_char(s, text::char_of_byte(s, b) as int);
    row <= u32::MAX && b - text::byte_of_char(s, text::line_start(s, row) as int) <= u32::MAX
}

/// Point of a byte offset of a rope.
pub fn byte_to_tree_sitter_point(source: &Rope, byte_idx: usize) -> (r: Result<
    Point,
    ConversionError,
>)
    requires
        byte_idx <= text::utf8_len(ropes::rope_text(*source)),
    ensures
        match r {
            Ok(point) => point_fits(ropes::rope_text(*source), byte_idx as int) && point
                == point_of_byte(ropes::rope_text(*source), byte_idx as int),
            Err(e) => !point_fits(ropes::rope_text(*source), byte_idx as int),
        },
{
    let ghost s = ropes::rope_text(*source);
    let ghost c = text::char_of_byte(s, byte_idx as int) as int;
    proof {
        text::lemma_locate(s, text::utf8_widths(), byte_idx as int);
        text::lemma_line_start_before(s, c);
        text::lemma_byte_order(
            s,
            text::line_start(s, text::line_of_char(s, c)) as int,
            byte_idx as int,
        );
    }
    let row = source.byte_to_line(byte_idx);
    let column = byte_idx - source.line_to_byte(row);
    if row > u32::MAX as usize || column > u32::MAX as usize {
        return Err(ConversionError::OffsetTooLarge);
    }
    Ok(Point::new(row, column))
}

/// The source text of a node of a rope's tree.
pub fn text_for_tree_sitter_node(source: &Rope, node: &Node) -> (text: String)
    requires
        node.start_byte <= text::utf8_len(ropes::rope_text(*source)),
        node.end_byte <= text::utf8_len(ropes::rope_text(*source)),
        text::char_of_byte(ropes::rope_text(*source), node.start_byte as int)
            <= text::char_of_byte(ropes::rope_text(*source), node.end_byte as int),
    ensures
        text@ == text_between(
            ropes::rope_text(*source),
            node.start_byte as int,
            node.end_byte as int,
        ),
{
    let ghost s = ropes::rope_text(*source);
    proof {
        text::lemma_locate(s, text::utf8_widths(), node.end_byte as int);
    }
    let start = source.byte_to_char(node.start_byte);
    let end = source.byte_to_char(node.end_byte);
    ropes::rope_slice(source, start, end)
}

/// Positions give back the offsets they were made from: the position of a
/// character boundary denotes that boundary.
pub proof fn law_position_round_trip(s: Seq<char>, b: int)
    requires
        text::is_boundary(s, b),
        text::utf8_len(s) <= u32::MAX,
    ensures
        position_char(s, position_of_byte(s, b)) == text::char_of_byte(s, b),
        position_byte(s, position_of_byte(s, b)) == b,
        position_point(s, position_of_byte(s, b)) == point_of_byte(s, b),
        position_fits(s, position_of_byte(s, b)),
{
    let c = text::char_of_byte(s, b) as int;
    let n = text::line_of_char(s, c);
    let first = text::line_start(s, n) as int;
    text::lemma_locate(s, text::utf8_widths(), b);
    text::lemma_line_start_before(s, c);
    text::lemma_line_prefix(s, c);
    text::lemma_newlines_le_bytes(s);
    text::lemma_len_order(s);
    text::lemma_measure_monotone(s, text::utf16_widths(), c, s.len() as int);
    text::lemma_measure_whole(s, text::utf16_widths());
    text::lemma_locate_start(s, text::utf16_widths(), c);
    let position = position_of_byte(s, b);
    assert(position.line == n);
    assert(position.character == text::utf16_of_char(s, c) - text::utf16_of_char(s, first));
    assert(position_code(s, position) == text::utf16_of_char(s, c));
    lemma_position_row(s, position);
    assert(s.take(s.len() as int) =~= s);
}

/// The first `n` lines of a text, joined.
pub open spec fn joined_lines(s: Seq<char>, n: nat) -> Seq<char>
    decreases n,
{
    if n == 0 {
        seq![]
    } else {
        joined_lines(s, (n - 1) as nat) + line_of(s, (n - 1) as nat)
    }
}

/// The lines of a text, joined, make up the text: none of it is lost or doubled.
pub proof fn law_lines_make_up_text(s: Seq<char>)
    ensures
        joined_lines(s, text::line_count(s)) == s,
{
    text::lemma_line_start(s, text::line_count(s));
    lemma_joined_lines(s, text::line_count(s));
    assert(s.take(s.len() as int) =~= s);
}

proof fn lemma_joined_lines(s: Seq<char>, n: nat)
    ensures
        joined_lines(s, n) == s.take(text::line_start(s, n) as int),
    decreases n,
{
    if n == 0 {
        assert(s.take(0) =~= seq![]);
    } else {
        let m = (n - 1) as nat;
        lemma_joined_lines(s, m);
        text::lemma_line_start_monotone(s, m, n);
        assert(s.take(text::line_start(s, n) as int) =~= s.take(text::line_start(s, m) as int)
            + line_of(s, m));
    }
}

/// The text that a change puts in.
pub open spec fn change_text(change: TextDocumentContentChangeEvent) -> Seq<char> {
    match change {
        TextDocumentContentChangeEvent::TextDocumentContentChangePartial(partial) => partial.text@,
        TextDocumentContentChangeEvent::TextDocumentContentChangeWholeDocument(whole) => {
            whole.text@
        },
    }
}

/// The character at which a change starts.
pub open spec fn change_start_char(s: Seq<char>, change: TextDocumentContentChangeEvent) -> nat {
    match change {
        TextDocumentContentChangeEvent::TextDocumentContentChangePartial(partial) => position_char(
            s,
            partial.range.start,
        ),
        TextDocumentContentChangeEvent::TextDocumentContentChangeWholeDocument(whole) => 0,
    }
}

/// The character at which the replaced text ends, as the client gave it.
pub open spec fn change_end_char(s: Seq<char>, change: TextDocumentContentChangeEvent) -> nat {
    match change {
        TextDocumentContentChangeEvent::TextDocumentContentChangePartial(partial) => position_char(
            s,
            partial.range.end,
        ),
        TextDocumentContentChangeEvent::TextDocumentContentChangeWholeDocument(whole) => s.len(),
    }
}

/// The point at which a change starts.
pub open spec fn change_start_point(s: Seq<char>, change: TextDocumentContentChangeEvent) -> Point {
    match change {
        TextDocumentContentChangeEvent::TextDocumentContentChangePartial(partial) => position_point(
            s,
            partial.range.start,
        ),
        TextDocumentContentChangeEvent::TextDocumentContentChangeWholeDocument(whole) => {
            point_of_byte(s, 0)
        },
    }
}

/// The point at which the replaced text ends.
pub open spec fn change_end_point(s: Seq<char>, change: TextDocumentContentChangeEvent) -> Point {
    match change {
        TextDocumentContentChangeEvent::TextDocumentContentChangePartial(partial) => position_point(
            s,
            partial.range.end,
        ),
        TextDocumentContentChangeEvent::TextDocumentContentChangeWholeDocument(whole) => {
            point_of_byte(s, text::utf8_len(s) as int)
        },
    }
}

/// The point reached from `point` by passing over a text.
pub open spec fn advance(point: Point, inserted: Seq<char>) -> Point {
    let rows = text::newlines(inserted);
    if rows == 0 {
        Point { row: point.row, column: (point.column + text::utf8_len(inserted)) as usize }
    } else {
        Point {
            row: (point.row + rows) as usize,
            column: (text::utf8_len(inserted) - text::byte_of_char(
                inserted,
                text::line_start(inserted, rows) as int,
            )) as usize,
        }
    }
}

/// The edit that tells an incremental parse of a change.
pub open spec fn edit_of(s: Seq<char>, change: TextDocumentContentChangeEvent) -> InputEdit {
    let start = text::byte_of_char(s, change_start_char(s, change) as int);
    let inserted = change_text(change);
    InputEdit {
        start_byte: start as usize,
        old_end_byte: text::byte_of_char(s, change_end_char(s, change) as int) as usize,
        new_end_byte: (start + text::utf8_len(inserted)) as usize,
        start_position: change_start_point(s, change),
        old_end_position: change_end_point(s, change),
        new_end_position: advance(change_start_point(s, change), inserted),
    }
}

/// The offsets of a change fit in 32 bits, before and after.
pub open spec fn edit_fits(s: Seq<char>, change: TextDocumentContentChangeEvent) -> bool {
    &&& match change {
        TextDocumentContentChangeEvent::TextDocumentContentChangePartial(partial) => position_fits(
            s,
            partial.range.start,
        ) && position_fits(s, partial.range.end),
        TextDocumentContentChangeEvent::TextDocumentContentChangeWholeDocument(whole) => {
            text::utf8_len(s) <= u32::MAX
        },
    }
    &&& text::byte_of_char(s, change_start_char(s, change) as int) + text::utf8_len(
        change_text(change),
    ) <= u32::MAX
    &&& change_start_point(s, change).row + text::newlines(change_text(change)) <= usize::MAX
}

/// The range that a change replaces.
fn change_range(source: &Rope, change: &TextDocumentContentChangeEvent) -> (r: Result<
    Range,
    ConversionError,
>)
    ensures
        match (*change, r) {
            (
                TextDocumentContentChangeEvent::TextDocumentContentChangePartial(partial),
                Ok(range),
            ) => range == partial.range,
            (
                TextDocumentContentChangeEvent::TextDocumentContentChangeWholeDocument(whole),
                Ok(range),
            ) => {
                let s = ropes::rope_text(*source);
                &&& text::utf8_len(s) <= u32::MAX
                &&& range.start == position_of_byte(s, 0)
                &&& range.end == position_of_byte(s, text::utf8_len(s) as int)
            },
            (TextDocumentContentChangeEvent::TextDocumentContentChangePartial(partial), Err(e)) => {
                false
            },
            (
                TextDocumentContentChangeEvent::TextDocumentContentChangeWholeDocument(whole),
                Err(e),
            ) => text::utf8_len(ropes::rope_text(*source)) > u32::MAX,
        },
{
    match change {
        TextDocumentContentChangeEvent::TextDocumentContentChangePartial(partial) => Ok(
            partial.range,
        ),
        TextDocumentContentChangeEvent::TextDocumentContentChangeWholeDocument(whole) => {
            let len = source.len_bytes();
            if len > u32::MAX as usize {
                return Err(ConversionError::OffsetTooLarge);
            }
            let start = byte_to_lsp_position(source, 0);
            let end = byte_to_lsp_position(source, len);
            Ok(Range { start, end })
        },
    }
}

/// Convert a change into the edit for an incremental parse of the document.
///
/// The new end is the start plus the extent of the inserted text itself. It must
/// not be derived from `source`, which still holds the old document.
pub fn lsp_textdocchange_to_ts_inputedit(
    source: &Rope,
    change: &TextDocumentContentChangeEvent,
) -> (r: Result<InputEdit, ConversionError>)
    ensures
        match r {
            Ok(edit) => edit_fits(ropes::rope_text(*source), *change) && edit == edit_of(
                ropes::rope_text(*source),
                *change,
            ),
            Err(e) => !edit_fits(ropes::rope_text(*source), *change),
        },
{
    let ghost s = ropes::rope_text(*source);
    let inserted = match change {
        TextDocumentContentChangeEvent::TextDocumentContentChangePartial(partial) => {
            partial.text.as_str()
        },
        TextDocumentContentChangeEvent::TextDocumentContentChangeWholeDocument(whole) => {
            whole.text.as_str()
        },
    };
    let range = match change_range(source, change) {
        Ok(range) => range,
        Err(e) => return Err(e),
    };
    proof {
        if *change is TextDocumentContentChangeWholeDocument {
            text::lemma_char_boundary(s, 0);
            text::lemma_char_boundary(s, s.len() as int);
            text::lemma_measure_whole(s, text::utf8_widths());
            law_position_round_trip(s, 0);
            law_position_round_trip(s, text::utf8_len(s) as int);
        }
    }
    let start = match lsp_position_to_core(source, range.start) {
        Ok(start) => start,
        Err(e) => return Err(e),
    };
    let old_end = match lsp_position_to_core(source, range.end) {
        Ok(old_end) => old_end,
        Err(e) => return Err(e),
    };
    let inserted_len = strings::byte_len(inserted);
    let new_end_byte = match (start.byte as usize).checked_add(inserted_len) {
        Some(new_end_byte) => new_end_byte,
        None => return Err(ConversionError::OffsetTooLarge),
    };
    if new_end_byte > u32::MAX as usize {
        return Err(ConversionError::OffsetTooLarge);
    }
    proof {
        lemma_position_char(s, range.start);
        lemma_position_row(s, range.start);
        text::lemma_line_start(inserted@, text::newlines(inserted@));
        text::lemma_measure_monotone(
            inserted@,
            text::utf8_widths(),
            text::line_start(inserted@, text::newlines(inserted@)) as int,
            inserted@.len() as int,
        );
        text::lemma_measure_whole(inserted@, text::utf8_widths());
    }
    let index = LineIndex::new(inserted);
    let rows = index.line_count() - 1;
    let new_end_position = if rows == 0 {
        Point::new(start.point.row, start.point.column + inserted_len)
    } else {
        let row = match start.point.row.checked_add(rows) {
            Some(row) => row,
            None => return Err(ConversionError::OffsetTooLarge),
        };
        Point::new(row, inserted_len - index.line_start_byte(rows))
    };
    Ok(
        InputEdit {
            start_byte: start.byte as usize,
            old_end_byte: old_end.byte as usize,
            new_end_byte,
            start_position: start.point,
            old_end_position: old_end.point,
            new_end_position,
        },
    )
}

/// The text after a change: the characters between start and end give way to
/// the new text. An end before the start counts as the start.
pub open spec fn changed(s: Seq<char>, change: TextDocumentContentChangeEvent) -> Seq<char> {
    let start = change_start_char(s, change) as int;
    let end = change_end_char(s, change) as int;
    s.take(start) + change_text(change) + s.skip(
        if start <= end {
            end
        } else {
            start
        },
    )
}

/// A position on an existing line, no further right than that line reaches, or
/// one that denotes the end of the document. Left out are columns past the end of
/// a line that run on into later lines.
pub open spec fn in_bounds(s: Seq<char>, position: Position) -> bool {
    text::line_of_char(s, position_char(s, position) as int) == position_row(s, position)
}

/// A change starts within bounds.
pub open spec fn starts_in_bounds(s: Seq<char>, change: TextDocumentContentChangeEvent) -> bool {
    change matches TextDocumentContentChangeEvent::TextDocumentContentChangePartial(partial)
        ==> in_bounds(s, partial.range.start)
}

/// A change ends within bounds.
pub open spec fn ends_in_bounds(s: Seq<char>, change: TextDocumentContentChangeEvent) -> bool {
    change matches TextDocumentContentChangeEvent::TextDocumentContentChangePartial(partial)
        ==> in_bounds(s, partial.range.end)
}

/// Positions past the last line, and columns past the end of the document,
/// degrade to the end of the document, in every unit.
pub proof fn law_position_clamps_to_end(s: Seq<char>, position: Position)
    requires
        position.line >= text::line_count(s) || text::utf16_of_char(
            s,
            text::line_start(s, position.line as nat) as int,
        ) + position.character >= text::utf16_len(s),
    ensures
        position_char(s, position) == s.len(),
        position_byte(s, position) == text::utf8_len(s),
        position_code(s, position) == text::utf16_len(s),
        position_point(s, position) == point_of_byte(s, text::utf8_len(s) as int),
        in_bounds(s, position),
{
    text::lemma_line_start(s, position.line as nat);
    text::lemma_measure_whole(s, text::utf16_widths());
    text::lemma_measure_whole(s, text::utf8_widths());
    text::lemma_locate_start(s, text::utf16_widths(), s.len() as int);
    text::lemma_char_boundary(s, s.len() as int);
    assert(s.take(s.len() as int) =~= s);
}

/// A point lies at a byte offset: its row exists, and its column counts the bytes
/// from the start of that row to the offset. A column may run past its row.
pub open spec fn lies_at(s: Seq<char>, point: Point, b: int) -> bool {
    &&& point.row < text::line_count(s)
    &&& text::byte_of_char(s, text::line_start(s, point.row as nat) as int) + point.column == b
}

/// Whatever the position, its point lies at its byte offset.
pub proof fn law_point_lies_at_offset(s: Seq<char>, position: Position)
    requires
        position_fits(s, position),
    ensures
        lies_at(s, position_point(s, position), position_byte(s, position) as int),
{
    lemma_position_char(s, position);
    lemma_position_row(s, position);
    text::lemma_measure_whole(s, text::utf8_widths());
    text::lemma_newlines_le_bytes(s);
}

/// For a position within bounds, the point is that of the byte offset.
pub proof fn lemma_position_point(s: Seq<char>, position: Position)
    requires
        in_bounds(s, position),
    ensures
        position_point(s, position) == point_of_byte(s, position_byte(s, position) as int),
        position_row(s, position) <= position_byte(s, position),
{
    let c = position_char(s, position) as int;
    lemma_position_char(s, position);
    text::lemma_char_boundary(s, c);
    text::lemma_line_start_before(s, c);
    text::lemma_newlines_le_bytes(s.take(c));
}

/// Passing over an inserted text leads to the point at its end.
#[verifier::spinoff_prover]
#[verifier::rlimit(40)]
proof fn lemma_advance(a: Seq<char>, inserted: Seq<char>, rest: Seq<char>)
    requires
        text::utf8_len(a) + text::utf8_len(inserted) <= usize::MAX,
    ensures
        point_of_byte(
            a + inserted + rest,
            (text::utf8_len(a) + text::utf8_len(inserted)) as int,
        ) == advance(point_of_byte(a + inserted + rest, text::utf8_len(a) as int), inserted),
{
    let t = a + inserted + rest;
    let i = a.len() as int;
    let j = i + inserted.len();
    let rows = text::newlines(inserted);
    let row = text::newlines(a);
    assert(t.take(i) =~= a);
    assert(t.take(j) =~= a + inserted);
    text::lemma_measure_concat(a, inserted, text::utf8_widths());
    text::lemma_measure_concat(a, inserted, text::newline_widths());
    text::lemma_char_boundary(t, i);
    text::lemma_char_boundary(t, j);
    text::lemma_newlines_le_bytes(a);
    text::lemma_newlines_le_bytes(inserted);
    text::lemma_line_start_before(t, i);
    text::lemma_measure_monotone(t, text::utf8_widths(), text::line_start(t, row) as int, i);
    if rows > 0 {
        text::lemma_line_start_concat(a, inserted, rows);
        text::lemma_line_start_prefix(t, j, row + rows);
        let first = text::line_start(inserted, rows) as int;
        text::lemma_line_start(inserted, rows);
        assert(t.take(i + first) =~= a + inserted.take(first));
        text::lemma_measure_concat(a, inserted.take(first), text::utf8_widths());
        text::lemma_measure_monotone(inserted, text::utf8_widths(), first, inserted.len() as int);
        text::lemma_measure_whole(inserted, text::utf8_widths());
    }
}

/// The points of an edit in the old text lie at the offsets beside them.
proof fn lemma_edit_points(s: Seq<char>, change: TextDocumentContentChangeEvent)
    requires
        edit_fits(s, change),
    ensures
        lies_at(s, edit_of(s, change).start_position, edit_of(s, change).start_byte as int),
        lies_at(s, edit_of(s, change).old_end_position, edit_of(s, change).old_end_byte as int),
{
    if let TextDocumentContentChangeEvent::TextDocumentContentChangePartial(partial) = change {
        law_point_lies_at_offset(s, partial.range.start);
        law_point_lies_at_offset(s, partial.range.end);
    } else {
        text::lemma_char_boundary(s, 0);
        text::lemma_char_boundary(s, s.len() as int);
        text::lemma_line_start_before(s, 0);
        text::lemma_line_start_before(s, s.len() as int);
        text::lemma_newlines_le_bytes(s);
        text::lemma_measure_whole(s, text::utf8_widths());
        assert(s.take(s.len() as int) =~= s);
        text::lemma_measure_monotone(
            s,
            text::utf8_widths(),
            text::line_start(s, text::newlines(s)) as int,
            s.len() as int,
        );
    }
}

/// The bytes of the old and of the new text agree outside of an edit.
proof fn lemma_edit_bytes(s: Seq<char>, change: TextDocumentContentChangeEvent)
    requires
        edit_fits(s, change),
    ensures
        ({
            let edit = edit_of(s, change);
            let old_bytes = utf8::encode_utf8(s);
            let inserted = utf8::encode_utf8(change_text(change));
            &&& edit.start_byte <= old_bytes.len()
            &&& edit.old_end_byte <= old_bytes.len()
            &&& edit.new_end_byte == edit.start_byte + inserted.len()
            &&& edit.start_byte <= edit.old_end_byte ==> utf8::encode_utf8(changed(s, change))
                == old_bytes.take(edit.start_byte as int) + inserted + old_bytes.skip(
                edit.old_end_byte as int,
            )
        }),
{
    let edit = edit_of(s, change);
    let inserted = change_text(change);
    let start = change_start_char(s, change) as int;
    let end = change_end_char(s, change) as int;
    text::lemma_measure_whole(s, text::utf8_widths());
    if let TextDocumentContentChangeEvent::TextDocumentContentChangePartial(partial) = change {
        lemma_position_char(s, partial.range.start);
        lemma_position_char(s, partial.range.end);
    }
    text::lemma_encode_cut(s, start);
    text::lemma_encode_cut(s, end);
    text::lemma_encode_len(s);
    text::lemma_encode_len(inserted);
    let old_bytes = utf8::encode_utf8(s);
    if edit.start_byte <= edit.old_end_byte {
        let front = s.take(start);
        let back = s.skip(end);
        text::lemma_char_boundary(s, start);
        text::lemma_byte_order(s, start, edit.old_end_byte as int);
        text::lemma_char_boundary(s, end);
        text::lemma_encode_concat(front + inserted, back);
        text::lemma_encode_concat(front, inserted);
        assert(old_bytes.take(edit.start_byte as int) =~= utf8::encode_utf8(front));
        assert(old_bytes.skip(edit.old_end_byte as int) =~= utf8::encode_utf8(back));
    }
}

/// Where a change starts within bounds, the points at its start and at the end of
/// the new text are those of the offsets.
proof fn lemma_edit_starts_in_bounds(s: Seq<char>, change: TextDocumentContentChangeEvent)
    requires
        edit_fits(s, change),
        starts_in_bounds(s, change),
    ensures
        ({
            let edit = edit_of(s, change);
            let new = changed(s, change);
            &&& edit.start_position == point_of_byte(s, edit.start_byte as int)
            &&& edit.start_position == point_of_byte(new, edit.start_byte as int)
            &&& edit.new_end_position == point_of_byte(new, edit.new_end_byte as int)
        }),
{
    let new = changed(s, change);
    let start = change_start_char(s, change) as int;
    let end = change_end_char(s, change) as int;
    text::lemma_measure_whole(s, text::utf8_widths());
    if let TextDocumentContentChangeEvent::TextDocumentContentChangePartial(partial) = change {
        lemma_position_char(s, partial.range.start);
        lemma_position_point(s, partial.range.start);
    }
    let front = s.take(start);
    let back = s.skip(
        if start <= end {
            end
        } else {
            start
        },
    );
    lemma_advance(front, change_text(change), back);
    assert(new.take(start) =~= front);
    text::lemma_char_boundary(s, start);
    text::lemma_char_boundary(new, start);
    text::lemma_line_start_prefix(s, start, text::newlines(front));
    text::lemma_line_start_prefix(new, start, text::newlines(front));
    let first = text::line_start(s, text::newlines(front)) as int;
    text::lemma_line_start_before(s, start);
    assert(new.take(first) =~= s.take(first));
}

/// The edit handed to an incremental parse describes the change exactly.
///
/// Where the change ends at or after its start, the bytes of the old and of the new
/// text agree outside of it, and what stands between is the inserted text. Each
/// point of the old text lies at the offset beside it. Where the change starts or
/// ends within bounds, each point is the point of that offset, in the text that
/// the offset belongs to.
pub proof fn law_edit_describes_change(s: Seq<char>, change: TextDocumentContentChangeEvent)
    requires
        edit_fits(s, change),
    ensures
        ({
            let edit = edit_of(s, change);
            let new = changed(s, change);
            let old_bytes = utf8::encode_utf8(s);
            let inserted = utf8::encode_utf8(change_text(change));
            &&& edit.start_byte <= old_bytes.len()
            &&& edit.old_end_byte <= old_bytes.len()
            &&& edit.new_end_byte == edit.start_byte + inserted.len()
            &&& edit.start_byte <= edit.old_end_byte ==> utf8::encode_utf8(new) == old_bytes.take(
                edit.start_byte as int,
            ) + inserted + old_bytes.skip(edit.old_end_byte as int)
            &&& lies_at(s, edit.start_position, edit.start_byte as int)
            &&& lies_at(s, edit.old_end_position, edit.old_end_byte as int)
            &&& starts_in_bounds(s, change) ==> {
                &&& edit.start_position == point_of_byte(s, edit.start_byte as int)
                &&& edit.start_position == point_of_byte(new, edit.start_byte as int)
                &&& edit.new_end_position == point_of_byte(new, edit.new_end_byte as int)
            }
            &&& ends_in_bounds(s, change) ==> edit.old_end_position == point_of_byte(
                s,
                edit.old_end_byte as int,
            )
        }),
{
    lemma_edit_bytes(s, change);
    lemma_edit_points(s, change);
    if starts_in_bounds(s, change) {
        lemma_edit_starts_in_bounds(s, change);
    }
    if let TextDocumentContentChangeEvent::TextDocumentContentChangePartial(partial) = change {
        lemma_position_char(s, partial.range.end);
        if ends_in_bounds(s, change) {
            lemma_position_point(s, partial.range.end);
        }
    } else {
        text::lemma_measure_whole(s, text::utf8_widths());
    }
}

/// Maximum tree depth that the walkers will descend.
///
/// Real ledgers nest a handful of levels; pathological input does not.
pub const MAX_TREE_DEPTH: usize = 256;

/// Some node lies deeper than `limit`.
pub open spec fn deeper_than(depths: Seq<nat>, limit: nat) -> bool {
    exists|i: int| 0 <= i < depths.len() && #[trigger] depths[i] > limit
}

/// The nodes between a node and the end of its subtree are its descendants.
proof fn lemma_descendants(depths: Seq<nat>, i: int, j: int)
    requires
        0 <= i < j <= depths.len(),
    ensures
        j <= syntax::descendants_end(depths, i, j) <= depths.len(),
        forall|k: int|
            j <= k < syntax::descendants_end(depths, i, j) ==> #[trigger] depths[k] > depths[i],
        syntax::descendants_end(depths, i, j) < depths.len() ==> depths[syntax::descendants_end(
            depths,
            i,
            j,
        )] <= depths[i],
    decreases depths.len() - j,
{
    if j < depths.len() && depths[j] > depths[i] {
        lemma_descendants(depths, i, j + 1);
    }
}

/// Where all nodes up to `end` lie below node `i` and the next one does not, the
/// subtree ends there.
proof fn lemma_subtree_end(depths: Seq<nat>, i: int, j: int, end: int)
    requires
        0 <= i < j <= end <= depths.len(),
        forall|k: int| j <= k < end ==> #[trigger] depths[k] > depths[i],
        end < depths.len() ==> depths[end] <= depths[i],
    ensures
        syntax::descendants_end(depths, i, j) == end,
    decreases end - j,
{
    if j < end {
        lemma_subtree_end(depths, i, j + 1, end);
    }
}

/// The parent is one level up, and everything since it lies below it.
proof fn lemma_parent(depths: Seq<nat>, depth: nat, j: int)
    requires
        syntax::is_preorder(depths),
        0 <= j < depths.len(),
        depth > 0,
        depths[j] + 1 >= depth,
    ensures
        0 <= syntax::ancestor_from(depths, depth, j) <= j,
        depths[syntax::ancestor_from(depths, depth, j)] + 1 == depth,
        forall|k: int|
            syntax::ancestor_from(depths, depth, j) < k <= j ==> #[trigger] depths[k] >= depth,
    decreases j,
{
    if j > 0 && depths[j] >= depth {
        lemma_parent(depths, depth, j - 1);
    }
}

/// True when `tree` is deeper than `limit`.
///
/// Depth is the one property that makes an otherwise ordinary document
/// pathological for everything downstream: queries go superlinear on very deep
/// trees, and recursive walkers have to truncate.
pub fn tree_depth_exceeds(tree: &Tree, limit: usize) -> (r: bool)
    ensures
        r == deeper_than(syntax::tree_depths(*tree), limit as nat),
{
    let mut cursor = syntax::walk(tree);
    let mut depth: usize = 0;
    let ghost depths = syntax::tree_depths(*tree);
    // The first `seen` nodes have been visited.
    let ghost mut seen: int = 1;
    loop
        invariant
            depths == syntax::tree_depths(*tree),
            syntax::cursor_depths(cursor) == depths,
            syntax::is_preorder(depths),
            seen == syntax::cursor_index(cursor) + 1,
            seen <= depths.len(),
            depth == depths[seen - 1],
            depth <= limit,
            forall|k: int| 0 <= k < seen ==> #[trigger] depths[k] <= limit,
        decreases depths.len() - seen,
    {
        let ghost start = seen;
        let mut descending = true;
        while descending
            invariant
                depths == syntax::tree_depths(*tree),
                syntax::cursor_depths(cursor) == depths,
                syntax::is_preorder(depths),
                start <= seen,
                seen == syntax::cursor_index(cursor) + 1,
                seen <= depths.len(),
                depth == depths[seen - 1],
                depth <= limit,
                forall|k: int| 0 <= k < seen ==> #[trigger] depths[k] <= limit,
                !descending ==> seen == depths.len() || depths[seen] <= depths[seen - 1],
            decreases depths.len() - seen + if descending { 1int } else { 0 },
        {
            if syntax::goto_first_child(&mut cursor) {
                proof {
                    seen = seen + 1;
                }
                if depth >= limit {
                    assert(depths[seen - 1] > limit);
                    return true;
                }
                depth = depth + 1;
            } else {
                descending = false;
            }
        }
        proof {
            lemma_subtree_end(depths, seen - 1, seen, seen);
        }
        let mut climbing = true;
        while climbing
            invariant
                depths == syntax::tree_depths(*tree),
                syntax::cursor_depths(cursor) == depths,
                syntax::is_preorder(depths),
                start <= seen,
                syntax::cursor_index(cursor) < seen <= depths.len(),
                depth == depths[syntax::cursor_index(cursor) as int],
                depth <= limit,
                forall|k: int| 0 <= k < seen ==> #[trigger] depths[k] <= limit,
                climbing ==> seen == syntax::subtree_end(
                    depths,
                    syntax::cursor_index(cursor) as int,
                ),
                !climbing ==> start < seen && seen == syntax::cursor_index(cursor) + 1,
            decreases if climbing { syntax::cursor_index(cursor) + 1 } else { 0 },
        {
            let ghost i = syntax::cursor_index(cursor) as int;
            proof {
                lemma_descendants(depths, i, i + 1);
            }
            if syntax::goto_next_sibling(&mut cursor) {
                proof {
                    seen = seen + 1;
                }
                climbing = false;
            } else {
                if !syntax::goto_parent(&mut cursor) {
                    assert(seen == depths.len());
                    return false;
                }
                proof {
                    let parent = syntax::parent_of(depths, i);
                    lemma_parent(depths, depths[i], i - 1);
                    assert forall|k: int| parent + 1 <= k < seen implies #[trigger] depths[k]
                        > depths[parent] by {
                        if k < i {
                            assert(depths[k] >= depths[i]);
                        }
                    }
                    lemma_subtree_end(depths, parent, parent + 1, seen);
                }
                depth = depth - 1;
            }
        }
    }
}

/// What became of a parse that was started with a full budget: the parser was
/// handed this text and this older tree, it came back with `tree`, and the budget
/// was cancelled or not.
pub closed spec fn parse_attempted(
    source: Seq<char>,
    old_tree: Option<Tree>,
    tree: Option<Tree>,
    cancelled: bool,
) -> bool {
    exists|
        parser: &mut Parser,
        text: &str,
        older: Option<&Tree>,
        budget: ParseBudget,
        spent: ParseBudget,
    | #[trigger]
        call_ensures(syntax::parse, (parser, text, older, budget), (tree, spent)) && {
            &&& text@ == source
            &&& tree_of(older) == old_tree
            &&& !budget.is_cancelled()
            &&& spent.is_cancelled() == cancelled
        }
}

/// The tree behind a reference, where there is one.
pub open spec fn tree_of(tree: Option<&Tree>) -> Option<Tree> {
    match tree {
        Some(tree) => Some(*tree),
        None => None,
    }
}

/// What is kept of a parse: nothing of a cancelled one.
pub open spec fn settled(tree: Option<Tree>, cancelled: bool) -> Option<Tree> {
    if cancelled {
        None
    } else {
        tree
    }
}

/// What a parse with a budget returns: what is kept of an attempt on this text
/// with this older tree. That is the tree that the parser came back with, or
/// nothing, and nothing only if the attempt was cancelled.
pub open spec fn is_parse_of(source: Seq<char>, old_tree: Option<Tree>, r: Option<Tree>) -> bool {
    exists|tree: Option<Tree>, cancelled: bool| #[trigger]
        parse_attempted(source, old_tree, tree, cancelled) && r == settled(tree, cancelled) && (r
            is None ==> cancelled)
}

/// Take stock after a parse: drop what a cancelled one left behind.
pub fn settle_parse(parser: &mut Parser, tree: Option<Tree>, cancelled: bool) -> (r: Option<Tree>)
    requires
        syntax::parser_loaded(*old(parser)),
        !cancelled ==> syntax::parser_idle(*old(parser)),
    ensures
        syntax::parser_loaded(*final(parser)),
        syntax::parser_idle(*final(parser)),
        r == settled(tree, cancelled),
{
    if cancelled {
        // A cancelled parse leaves the parser mid-parse; the next call must
        // start clean.
        parser.reset();
        return None;
    }
    tree
}

/// Parse `text`, giving up after [`syntax::PARSE_BUDGET`].
///
/// Returns `None` when the budget is exhausted; callers must treat that like any
/// other parse failure rather than assuming a tree exists. How long a parse
/// takes is up to the machine, so nothing is said of when that happens.
pub fn parse_with_budget(parser: &mut Parser, text: &str, old_tree: Option<&Tree>) -> (r: Option<
    Tree,
>)
    requires
        syntax::parser_loaded(*old(parser)),
        syntax::parser_idle(*old(parser)),
    ensures
        syntax::parser_loaded(*final(parser)),
        syntax::parser_idle(*final(parser)),
        is_parse_of(text@, tree_of(old_tree), r),
{
    let budget = ParseBudget::start();
    let (tree, spent) = syntax::parse(parser, text, old_tree, budget);
    assert(parse_attempted(text@, tree_of(old_tree), tree, spent.is_cancelled()));
    settle_parse(parser, tree, spent.cancelled())
}

/// Parse a beancount document from scratch.
pub fn parse_beancount(text: &str) -> (r: Option<Tree>)
    ensures
        is_parse_of(text@, None, r),
{
    let mut parser = syntax::beancount_parser();
    parse_with_budget(&mut parser, text, None)
}

/// The tree, unless it is deeper than the walkers will follow: such a tree is
/// worse than none, because every query over it is unbounded work.
pub open spec fn usable(tree: Option<Tree>) -> Option<Tree> {
    match tree {
        Some(t) if !deeper_than(syntax::tree_depths(t), MAX_TREE_DEPTH as nat) => tree,
        _ => None,
    }
}

/// Reject a tree that is too deep.
pub fn usable_tree(tree: Option<Tree>) -> (r: Option<Tree>)
    ensures
        r == usable(tree),
{
    match tree {
        Some(tree) => {
            if tree_depth_exceeds(&tree, MAX_TREE_DEPTH) {
                None
            } else {
                Some(tree)
            }
        },
        None => None,
    }
}

// ── Laws of places ───────────────────────────────────────────────────────────
/// Where line `j` starts and no line feed stands between `j` and `i`, the place of
/// character `i` is named by the line feeds before it and by the code units since
/// `j`; its point has the bytes since `j` as its column. Offsets and positions lead
/// to each other.
pub proof fn law_position_of_a_place(s: Seq<char>, j: int, i: int)
    requires
        0 <= j <= i <= s.len(),
        j == 0 || s[j - 1] == '\n',
        forall|k: int| j <= k < i ==> s[k] != '\n',
        utf8::encode_utf8(s).len() <= u32::MAX,
    ensures
        ({
            let b = utf8::encode_utf8(s.take(i)).len();
            let position = Position {
                line: text::newlines(s.take(j)) as u32,
                character: text::utf16_len(s.subrange(j, i)) as u32,
            };
            let point = Point {
                row: text::newlines(s.take(j)) as usize,
                column: utf8::encode_utf8(s.subrange(j, i)).len() as usize,
            };
            &&& text::newlines(s.take(j)) <= u32::MAX
            &&& text::utf16_len(s.subrange(j, i)) <= u32::MAX
            &&& utf8::encode_utf8(s.subrange(j, i)).len() <= u32::MAX
            &&& position_of_byte(s, b as int) == position
            &&& position_char(s, position) == i
            &&& position_byte(s, position) == b
            &&& position_code(s, position) == text::utf16_len(s.take(i))
            &&& position_point(s, position) == point
            &&& point_of_byte(s, b as int) == point
            &&& position_fits(s, position)
        }),
{
    let n = text::newlines(s.take(j));
    let between = s.subrange(j, i);
    text::lemma_encode_len(s);
    text::lemma_encode_len(s.take(i));
    text::lemma_encode_len(between);
    text::law_lines_start_after_line_feeds(s, j, 0);
    text::lemma_measure_between(s, text::newline_widths(), j, i);
    lemma_no_line_feed(between);
    text::lemma_char_boundary(s, i);
    let b = text::byte_of_char(s, i) as int;
    text::lemma_measure_between(s, text::utf8_widths(), j, i);
    text::lemma_measure_between(s, text::utf16_widths(), j, i);
    text::lemma_measure_monotone(s, text::utf8_widths(), i, s.len() as int);
    text::lemma_measure_whole(s, text::utf8_widths());
    text::lemma_len_order(between);
    text::lemma_newlines_le_bytes(s.take(j));
    law_position_round_trip(s, b);
    text::law_offsets_of_a_character(s, i);
    let position = position_of_byte(s, b);
    assert(position.line == n);
    assert(position.character == text::utf16_len(between));
    text::lemma_measure_monotone(s, text::utf16_widths(), i, s.len() as int);
    text::lemma_measure_whole(s, text::utf16_widths());
}

proof fn lemma_no_line_feed(s: Seq<char>)
    requires
        forall|k: int| 0 <= k < s.len() ==> s[k] != '\n',
    ensures
        text::newlines(s) == 0,
    decreases s.len(),
{
    if s.len() > 0 {
        lemma_no_line_feed(s.drop_last());
        assert(s[s.len() - 1] != '\n');
    }
}

/// An offset inside a character, or past the end, has the position of the last
/// boundary before it.
pub proof fn law_position_rounds_down(s: Seq<char>, b: int)
    requires
        0 <= b,
    ensures
        position_of_byte(s, b) == position_of_byte(s, text::floor_byte(s, b) as int),
{
    text::lemma_floor_byte(s, b);
}

/// A column is counted from the start of its line, in code units, and no further
/// than to the end of the document. The character at a position is the one that
/// this offset falls into.
pub proof fn law_column_counts_from_its_line(s: Seq<char>, j: int, position: Position)
    requires
        0 <= j <= s.len(),
        j == 0 || s[j - 1] == '\n',
        position.line == text::newlines(s.take(j)),
    ensures
        ({
            let code = text::utf16_len(s.take(j)) + position.character;
            let c = position_char(s, position) as int;
            &&& position_code(s, position) == if code < text::utf16_len(s) {
                code
            } else {
                text::utf16_len(s) as int
            }
            &&& 0 <= c <= s.len()
            &&& text::utf16_len(s.take(c)) <= position_code(s, position)
            &&& c < s.len() ==> position_code(s, position) < text::utf16_len(s.take(c + 1))
            &&& position_byte(s, position) == utf8::encode_utf8(s.take(c)).len()
            &&& code < text::utf16_len(s) ==> position_row(s, position) == position.line
        }),
{
    let c = position_char(s, position) as int;
    text::law_lines_start_after_line_feeds(s, j, 0);
    text::law_offsets_fall_into_characters(s, position_code(s, position) as int);
    text::lemma_encode_len(s.take(c));
}

/// The text between two boundaries is what stands between the two characters, and
/// nothing where they come in the other order.
pub proof fn law_text_between_boundaries(s: Seq<char>, i: int, k: int)
    requires
        0 <= i <= s.len(),
        0 <= k <= s.len(),
    ensures
        text_between(
            s,
            utf8::encode_utf8(s.take(i)).len() as int,
            utf8::encode_utf8(s.take(k)).len() as int,
        ) == if i <= k {
            s.subrange(i, k)
        } else {
            seq![]
        },
{
    text::law_offsets_of_a_character(s, i);
    text::law_offsets_of_a_character(s, k);
}

/// Offsets inside characters count as those of the characters.
pub proof fn law_text_between_rounds_down(s: Seq<char>, start: int, end: int)
    requires
        0 <= start,
        0 <= end,
    ensures
        text_between(s, start, end) == text_between(
            s,
            text::floor_byte(s, start) as int,
            text::floor_byte(s, end) as int,
        ),
{
    text::lemma_floor_byte(s, start);
    text::lemma_floor_byte(s, end);
}

/// The range of a node goes from the position of its first byte to that of the byte
/// past its last.
pub proof fn law_range_of_node(s: Seq<char>, node: Node)
    ensures
        range_of_node(s, node).start == position_of_byte(s, node.start_byte as int),
        range_of_node(s, node).end == position_of_byte(s, node.end_byte as int),
{
}

/// A line reaches from its start up to and including the next line feed, or to the
/// end of the text. Lines past the last stand for the last.
pub proof fn law_line_ends_with_its_line_feed(s: Seq<char>, j: int, e: int, n: nat)
    requires
        0 <= j <= e <= s.len(),
        j == 0 || s[j - 1] == '\n',
        forall|k: int| j <= k < e - 1 ==> s[k] != '\n',
        e == s.len() && (j == e || s[e - 1] != '\n') || j < e && s[e - 1] == '\n',
    ensures
        line_of(s, text::newlines(s.take(j))) == s.subrange(j, e),
        n <= text::newlines(s) ==> clamped_line(s, n) == n,
        n > text::newlines(s) ==> clamped_line(s, n) == text::newlines(s),
{
    let first = text::newlines(s.take(j));
    text::law_lines_start_after_line_feeds(s, j, first + 1);
    text::lemma_measure_between(s, text::newline_widths(), j, e);
    if j < e && s[e - 1] == '\n' {
        text::lemma_line_start_after_newline(s, e - 1);
        text::lemma_measure_between(s, text::newline_widths(), j, e - 1);
        lemma_no_line_feed(s.subrange(j, e - 1));
    } else {
        lemma_no_line_feed(s.subrange(j, e));
        text::lemma_measure_whole(s, text::newline_widths());
    }
}

/// The position one to the left is on the same line.
pub proof fn law_left_of(position: Position)
    ensures
        left_of(position).line == position.line,
        position.character > 0 ==> left_of(position).character == position.character - 1,
        position.character == 0 ==> left_of(position).character == 0,
{
}

// ── Laws of changes ──────────────────────────────────────────────────────────
/// A change of a range puts its text in place of what stands from the start up to
/// the end of the range; where the end comes first, nothing goes. A change of the
/// whole document puts its text in place of everything.
pub proof fn law_change_replaces_its_range(
    s: Seq<char>,
    partial: TextDocumentContentChangePartial,
    whole: TextDocumentContentChangeWholeDocument,
)
    ensures
        ({
            let a = position_char(s, partial.range.start) as int;
            let b = position_char(s, partial.range.end) as int;
            let change = TextDocumentContentChangeEvent::TextDocumentContentChangePartial(partial);
            &&& a <= b ==> changed(s, change) == s.take(a) + partial.text@ + s.skip(b)
            &&& a > b ==> changed(s, change) == s.take(a) + partial.text@ + s.skip(a)
        }),
        changed(
            s,
            TextDocumentContentChangeEvent::TextDocumentContentChangeWholeDocument(whole),
        ) == whole.text@,
{
    let change = TextDocumentContentChangeEvent::TextDocumentContentChangeWholeDocument(whole);
    assert(changed(s, change) =~= whole.text@);
}

/// The edit of a change of a range has the offsets and points of the range's
/// positions, and ends where the new text, put in at the start, ends. That of a
/// change of the whole document reaches from the start to the end.
pub proof fn law_edit_has_the_places_of_its_change(
    s: Seq<char>,
    partial: TextDocumentContentChangePartial,
    whole: TextDocumentContentChangeWholeDocument,
)
    ensures
        ({
            let change = TextDocumentContentChangeEvent::TextDocumentContentChangePartial(partial);
            let edit = edit_of(s, change);
            edit_fits(s, change) ==> {
                &&& edit.start_byte == position_byte(s, partial.range.start)
                &&& edit.old_end_byte == position_byte(s, partial.range.end)
                &&& edit.new_end_byte == edit.start_byte + utf8::encode_utf8(partial.text@).len()
                &&& edit.start_position == position_point(s, partial.range.start)
                &&& edit.old_end_position == position_point(s, partial.range.end)
                &&& edit.new_end_position == advance(edit.start_position, partial.text@)
            }
        }),
        ({
            let change = TextDocumentContentChangeEvent::TextDocumentContentChangeWholeDocument(
                whole,
            );
            let edit = edit_of(s, change);
            edit_fits(s, change) ==> {
                &&& edit.start_byte == 0
                &&& edit.old_end_byte == utf8::encode_utf8(s).len()
                &&& edit.new_end_byte == utf8::encode_utf8(whole.text@).len()
                &&& edit.start_position == Point { row: 0, column: 0 }
                &&& edit.old_end_position == point_of_byte(s, utf8::encode_utf8(s).len() as int)
                &&& edit.new_end_position == advance(Point { row: 0, column: 0 }, whole.text@)
            }
        }),
{
    text::lemma_encode_len(s);
    text::lemma_encode_len(partial.text@);
    text::lemma_encode_len(whole.text@);
    text::lemma_measure_whole(s, text::utf8_widths());
    text::lemma_measure_whole(s, text::newline_widths());
    text::lemma_char_boundary(s, 0);
    text::lemma_line_start_before(s, 0);
}

/// Passing over a text without line feeds moves on by its bytes; over one with line
/// feeds, to the row that many further down, and to the bytes since the last one.
pub proof fn law_advance(point: Point, a: Seq<char>, b: Seq<char>)
    requires
        forall|k: int| 0 <= k < b.len() ==> b[k] != '\n',
        point.row + text::newlines(a) + 1 <= usize::MAX,
        point.column + utf8::encode_utf8(b).len() <= usize::MAX,
    ensures
        advance(point, b) == (Point {
            row: point.row,
            column: (point.column + utf8::encode_utf8(b).len()) as usize,
        }),
        advance(point, a.push('\n') + b) == (Point {
            row: (point.row + text::newlines(a) + 1) as usize,
            column: utf8::encode_utf8(b).len() as usize,
        }),
{
    let line = a.push('\n');
    let whole = line + b;
    lemma_no_line_feed(b);
    text::lemma_encode_len(b);
    assert(whole.take(a.len() as int) =~= a);
    text::lemma_line_start_after_newline(whole, a.len() as int);
    assert(whole.take(a.len() as int + 1) =~= line);
    text::lemma_measure_concat(line, b, text::newline_widths());
    text::lemma_measure_concat(line, b, text::utf8_widths());
}

/// A change can be described exactly if its offsets, and that of the end of the
/// new text, fit in 32 bits. In particular it can wherever the old document and the
/// new text together do.
pub proof fn law_small_changes_fit(
    s: Seq<char>,
    partial: TextDocumentContentChangePartial,
    whole: TextDocumentContentChangeWholeDocument,
)
    ensures
        edit_fits(s, TextDocumentContentChangeEvent::TextDocumentContentChangePartial(partial))
            <==> {
            &&& position_byte(s, partial.range.start) <= u32::MAX
            &&& position_byte(s, partial.range.end) <= u32::MAX
            &&& position_code(s, partial.range.start) <= u32::MAX
            &&& position_code(s, partial.range.end) <= u32::MAX
            &&& position_byte(s, partial.range.start) + utf8::encode_utf8(partial.text@).len()
                <= u32::MAX
        },
        utf8::encode_utf8(s).len() + utf8::encode_utf8(partial.text@).len() <= u32::MAX
            ==> edit_fits(
            s,
            TextDocumentContentChangeEvent::TextDocumentContentChangePartial(partial),
        ),
        edit_fits(s, TextDocumentContentChangeEvent::TextDocumentContentChangeWholeDocument(whole))
            <==> utf8::encode_utf8(s).len() <= u32::MAX && utf8::encode_utf8(whole.text@).len()
            <= u32::MAX,
{
    text::lemma_encode_len(s);
    text::lemma_encode_len(partial.text@);
    text::lemma_encode_len(whole.text@);
    text::lemma_newlines_le_bytes(partial.text@);
    text::lemma_newlines_le_bytes(whole.text@);
    text::lemma_len_order(s);
    lemma_position_char(s, partial.range.start);
    lemma_position_char(s, partial.range.end);
    lemma_row_within_bytes(s, partial.range.start);
    text::lemma_measure_whole(s, text::utf8_widths());
    text::lemma_measure_whole(s, text::newline_widths());
    text::lemma_char_boundary(s, 0);
}

/// A position lies at least as many bytes into the text as its row has rows before
/// it.
proof fn lemma_row_within_bytes(s: Seq<char>, position: Position)
    ensures
        position_row(s, position) <= position_byte(s, position),
{
    let row = position_row(s, position);
    let first = text::line_start(s, row) as int;
    lemma_position_row(s, position);
    lemma_position_char(s, position);
    text::lemma_line_start(s, row);
    text::lemma_newlines_le_bytes(s.take(first));
}

// ── Laws of parses ───────────────────────────────────────────────────────────
/// A tree is used exactly if no node of it lies more than 256 levels below the
/// root; no tree is made out of none.
pub proof fn law_usable_trees_are_shallow(tree: Tree)
    ensures
        (forall|i: int|
            0 <= i < syntax::tree_depths(tree).len() ==> #[trigger] syntax::tree_depths(tree)[i]
                <= 256) ==> usable(Some(tree)) == Some(tree),
        (exists|i: int|
            0 <= i < syntax::tree_depths(tree).len() && #[trigger] syntax::tree_depths(tree)[i]
                > 256) ==> usable(Some(tree)) is None,
        usable(None) is None,
        forall|limit: nat|
            #[trigger] deeper_than(syntax::tree_depths(tree), limit) <==> exists|i: int|
                0 <= i < syntax::tree_depths(tree).len() && #[trigger] syntax::tree_depths(tree)[i]
                    > limit,
{
}

/// What a parse gives back is what the parser, handed this text and this older tree
/// with a fresh budget, came back with, unless the budget ran out; nothing comes
/// back only if it did.
pub(crate) proof fn law_parse_hands_over_its_text(
    source: Seq<char>,
    old_tree: Option<Tree>,
    r: Option<Tree>,
)
    requires
        is_parse_of(source, old_tree, r),
    ensures
        exists|
            parser: &mut Parser,
            text: &str,
            older: Option<&Tree>,
            budget: ParseBudget,
            spent: ParseBudget,
            tree: Option<Tree>,
        | #[trigger]
            call_ensures(syntax::parse, (parser, text, older, budget), (tree, spent)) && {
                &&& text@ == source
                &&& match (older, old_tree) {
                    (Some(a), Some(b)) => *a == b,
                    (None, None) => true,
                    _ => false,
                }
                &&& !budget.is_cancelled()
                &&& spent.is_cancelled() ==> r is None
                &&& !spent.is_cancelled() ==> r == tree && r is Some
            },
{
}

/// Offsets that a position is converted to agree with each other: the bytes and the
/// code units are those before the character, and the point is as far from the start
/// of its row.
pub proof fn law_offsets_of_a_position_agree(s: Seq<char>, position: Position, core: TextPosition)
    requires
        is_text_position(s, position, core),
        position_fits(s, position),
    ensures
        core.char <= s.len(),
        core.byte == utf8::encode_utf8(s.take(core.char as int)).len(),
        text::utf16_len(s.take(core.char as int)) <= core.code <= text::utf16_len(s),
        core.char < s.len() ==> core.code < text::utf16_len(s.take(core.char + 1)),
        core.code == if text::utf16_len(
            s.take(text::line_start(s, position.line as nat) as int),
        ) + position.character <= text::utf16_len(s) {
            text::utf16_len(s.take(text::line_start(s, position.line as nat) as int))
                + position.character
        } else {
            text::utf16_len(s) as int
        },
        core.point.row == if core.code < text::utf16_len(s) {
            position.line as nat
        } else {
            text::newlines(s)
        },
        text::byte_of_char(s, text::line_start(s, core.point.row as nat) as int)
            + core.point.column == core.byte,
{
    lemma_position_char(s, position);
    text::lemma_encode_len(s.take(core.char as int));
    text::lemma_locate(s, text::utf16_widths(), core.code as int);
    lemma_position_row(s, position);
    lemma_row_within_bytes(s, position);
}

/// A byte offset has a point that fits where the line feeds before it and the bytes
/// since the last of them can be counted in 32 bits.
pub proof fn law_when_points_fit(s: Seq<char>, j: int, i: int)
    requires
        0 <= j <= i <= s.len(),
        j == 0 || s[j - 1] == '\n',
        forall|k: int| j <= k < i ==> s[k] != '\n',
    ensures
        point_fits(s, utf8::encode_utf8(s.take(i)).len() as int) <==> text::newlines(s.take(j))
            <= u32::MAX && utf8::encode_utf8(s.subrange(j, i)).len() <= u32::MAX,
{
    let between = s.subrange(j, i);
    text::lemma_encode_len(s.take(i));
    text::lemma_encode_len(between);
    text::law_lines_start_after_line_feeds(s, j, 0);
    text::lemma_measure_between(s, text::newline_widths(), j, i);
    lemma_no_line_feed(between);
    text::lemma_char_boundary(s, i);
    text::law_offsets_of_a_character(s, i);
    text::lemma_measure_between(s, text::utf8_widths(), j, i);
}

/// Joined from the first on, each line adds its text, from its start to the next.
pub proof fn law_lines_join_to_the_text(s: Seq<char>, n: nat)
    ensures
        joined_lines(s, 0) == Seq::<char>::empty(),
        joined_lines(s, n + 1) == joined_lines(s, n) + s.subrange(
            text::line_start(s, n) as int,
            text::line_start(s, n + 1) as int,
        ),
{
}

} // verus!
