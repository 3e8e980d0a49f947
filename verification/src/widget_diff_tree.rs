//! The tree of diffs and the cursor that moves through it.

use vstd::prelude::*;
use vstd::string::*;
use crate::canvas::{Canvas, Text, TextView, Token, TokenStyle};
use crate::strings::push_char;

verus! {

/// The widget that shows the unstaged and staged diffs as a tree.
#[derive(Debug)]
pub struct DiffTreeWidget {}

/// What a node of the diff tree shows and holds.
pub trait DiffTreeNodeContent {
    /// The type of the node's children, themselves nodes of the tree.
    type Child;

    /// The first line shown for the node.
    fn head_line_token(&self) -> Token;

    /// Whether the node can be staged, unstaged or discarded.
    fn can_alter(&self) -> bool;

    /// The node's children.
    fn children(&self) -> &[Self::Child];

    /// Whether the node overlaps `other`.
    fn is_intersect(&self, other: &Self) -> bool;
}

/// The decimal digit of value `d`, from 0 to 9.
pub open spec fn decimal_digit(d: nat) -> char {
    (48 + d) as char
}

/// The decimal digits of `n`, without leading zeros.
pub open spec fn decimal(n: nat) -> Seq<char>
    decreases n,
{
    if n < 10 {
        seq![decimal_digit(n)]
    } else {
        decimal(n / 10).push(decimal_digit(n % 10))
    }
}

/// The digit character of `d`.
fn digit_char(d: usize) -> (c: char)
    requires
        d < 10,
    ensures
        c == decimal_digit(d as nat),
{
    ((d as u8) + 48) as char
}

/// `n` written in decimal.
pub fn decimal_string(n: usize) -> (s: String)
    ensures
        s@ == decimal(n as nat),
    decreases n,
{
    let c = digit_char(n % 10);
    if n < 10 {
        let mut s = String::new();
        push_char(&mut s, c);
        assert(s@ =~= seq![c]);
        s
    } else {
        let mut s = decimal_string(n / 10);
        push_char(&mut s, c);
        s
    }
}

/// Which side of the index a set of diffs lies on.
#[derive(Debug, Clone, Copy, PartialEq, Eq, Structural)]
pub enum Phase {
    Unstaged,
    Staged,
}

/// The name of a phase, as the head line of its node shows it.
pub open spec fn phase_name(phase: Phase) -> Seq<char> {
    match phase {
        Phase::Unstaged => "Unstaged"@,
        Phase::Staged => "Staged"@,
    }
}

/// The head line of the node of a phase with `files` changed files:
/// `Unstaged changes (3 files)`.
pub fn phase_head_line(phase: Phase, files: usize) -> (t: Token)
    ensures
        t.text@ == phase_name(phase) + " changes ("@ + decimal(files as nat) + " files)"@,
        t.style == TokenStyle::Plain,
{
    let mut s = String::new();
    match phase {
        Phase::Unstaged => s.append("Unstaged"),
        Phase::Staged => s.append("Staged"),
    }
    s.append(" changes (");
    let n = decimal_string(files);
    s.append(n.as_str());
    s.append(" files)");
    Token::plain(s)
}

/// How a file changed.
#[derive(Debug, Clone, Copy, PartialEq, Eq, Structural)]
pub enum FileDiffKind {
    Update,
    New,
    Added,
    Rename,
    Delete,
    Chmod,
}

/// What the head line of a file's node shows: how the file changed, its
/// path and its old path, its number of chunks and of removed and added
/// lines, and its old and new modes as written.
#[derive(Debug, Clone)]
pub struct FileDiffHead {
    pub kind: FileDiffKind,
    pub path: String,
    pub old_path: String,
    pub chunks: usize,
    pub removed: usize,
    pub added: usize,
    pub old_mode: String,
    pub new_mode: String,
}

/// The head line of a file's node.
pub open spec fn file_head_text(h: FileDiffHead) -> Seq<char> {
    match h.kind {
        FileDiffKind::Update => "modified "@ + h.path@ + " ("@ + decimal(h.chunks as nat)
            + " chunks, -"@ + decimal(h.removed as nat) + " +"@ + decimal(h.added as nat)
            + " lines)"@,
        FileDiffKind::New | FileDiffKind::Added => "added "@ + h.path@,
        FileDiffKind::Rename => "renamed "@ + h.old_path@ + " -> "@ + h.path@,
        FileDiffKind::Delete => "deleted "@ + h.path@,
        FileDiffKind::Chmod => "mode changed "@ + h.path@ + " "@ + h.old_mode@ + " -> "@
            + h.new_mode@,
    }
}

/// The head line of a file's node, as `file_head_text` gives it, in the plain
/// style.
pub fn file_head_line(h: &FileDiffHead) -> (t: Token)
    ensures
        t.text@ == file_head_text(*h),
        t.style == TokenStyle::Plain,
{
    let mut s = String::new();
    match h.kind {
        FileDiffKind::Update => {
            s.append("modified ");
            s.append(h.path.as_str());
            s.append(" (");
            let c = decimal_string(h.chunks);
            s.append(c.as_str());
            s.append(" chunks, -");
            let r = decimal_string(h.removed);
            s.append(r.as_str());
            s.append(" +");
            let a = decimal_string(h.added);
            s.append(a.as_str());
            s.append(" lines)");
        },
        FileDiffKind::New | FileDiffKind::Added => {
            s.append("added ");
            s.append(h.path.as_str());
        },
        FileDiffKind::Rename => {
            s.append("renamed ");
            s.append(h.old_path.as_str());
            s.append(" -> ");
            s.append(h.path.as_str());
        },
        FileDiffKind::Delete => {
            s.append("deleted ");
            s.append(h.path.as_str());
        },
        FileDiffKind::Chmod => {
            s.append("mode changed ");
            s.append(h.path.as_str());
            s.append(" ");
            s.append(h.old_mode.as_str());
            s.append(" -> ");
            s.append(h.new_mode.as_str());
        },
    }
    Token::plain(s)
}

/// Whether `x` lies in the half-open range `r.0 .. r.1`.
pub open spec fn in_range(r: (usize, usize), x: usize) -> bool {
    r.0 <= x < r.1
}

/// Whether two chunks overlap, given the old and new line ranges of each: a
/// bound of one chunk's new range lies in the other's old range, or a bound of
/// its old range lies in the other's new range.
pub fn chunks_intersect(
    old: (usize, usize),
    new: (usize, usize),
    other_old: (usize, usize),
    other_new: (usize, usize),
) -> (r: bool)
    ensures
        r == (in_range(old, other_new.0) || in_range(old, other_new.1) || in_range(new, other_old.0)
            || in_range(new, other_old.1)),
{
    (old.0 <= other_new.0 && other_new.0 < old.1) || (old.0 <= other_new.1 && other_new.1 < old.1)
        || (new.0 <= other_old.0 && other_old.0 < new.1) || (new.0 <= other_old.1 && other_old.1
        < new.1)
}

/// Which side of a chunk a line belongs to.
#[derive(Debug, Clone, Copy, PartialEq, Eq, Structural)]
pub enum LineKind {
    Old,
    New,
    Both,
}

/// The style a diff line is drawn in: removed lines dim, added lines bold,
/// context lines plain.
pub fn line_style(kind: LineKind) -> (s: TokenStyle)
    ensures
        s == (match kind {
            LineKind::Old => TokenStyle::Dim,
            LineKind::New => TokenStyle::Bold,
            LineKind::Both => TokenStyle::Plain,
        }),
{
    match kind {
        LineKind::Old => TokenStyle::Dim,
        LineKind::New => TokenStyle::Bold,
        LineKind::Both => TokenStyle::Plain,
    }
}

/// Whether a diff line can be staged, unstaged or discarded: a removed or an
/// added line can, a context line cannot.
pub fn line_can_alter(kind: LineKind) -> (r: bool)
    ensures
        r == !(kind is Both),
{
    match kind {
        LineKind::Both => false,
        _ => true,
    }
}

/// The node of a phase: its diffs, one per file.
#[derive(Debug)]
pub struct PhasedDiff {
    pub phase: Phase,
    pub files: Vec<FileDiff>,
}

/// The node of a file: what its head line shows, and its chunks.
#[derive(Debug)]
pub struct FileDiff {
    pub head: FileDiffHead,
    pub chunks: Vec<ChunkDiff>,
}

/// The node of a chunk: its head line as written, its old and new line
/// ranges, and its lines.
#[derive(Debug)]
pub struct ChunkDiff {
    pub head_line: String,
    pub old_range: (usize, usize),
    pub new_range: (usize, usize),
    pub lines: Vec<LineDiff>,
}

/// The node of a diff line: its side and its text as shown.
#[derive(Debug, Clone)]
pub struct LineDiff {
    pub kind: LineKind,
    pub text: String,
}

impl DiffTreeNodeContent for PhasedDiff {
    type Child = FileDiff;

    fn head_line_token(&self) -> (t: Token)
        ensures
            t.text@ == phase_name(self.phase) + " changes ("@ + decimal(self.files@.len())
                + " files)"@,
            t.style == TokenStyle::Plain,
    {
        phase_head_line(self.phase, self.files.len())
    }

    fn can_alter(&self) -> (r: bool)
        ensures
            r == (self.files@.len() > 0),
    {
        self.files.len() > 0
    }

    fn children(&self) -> (r: &[FileDiff])
        ensures
            r@ == self.files@,
    {
        self.files.as_slice()
    }

    fn is_intersect(&self, other: &PhasedDiff) -> (r: bool)
        ensures
            r,
    {
        true
    }
}

impl DiffTreeNodeContent for FileDiff {
    type Child = ChunkDiff;

    fn head_line_token(&self) -> (t: Token)
        ensures
            t.text@ == file_head_text(self.head),
            t.style == TokenStyle::Plain,
    {
        file_head_line(&self.head)
    }

    fn can_alter(&self) -> (r: bool)
        ensures
            r,
    {
        true
    }

    fn children(&self) -> (r: &[ChunkDiff])
        ensures
            r@ == self.chunks@,
    {
        self.chunks.as_slice()
    }

    fn is_intersect(&self, other: &FileDiff) -> (r: bool)
        ensures
            r == (self.head.path@ == other.head.path@),
    {
        self.head.path == other.head.path
    }
}

impl DiffTreeNodeContent for ChunkDiff {
    type Child = LineDiff;

    fn head_line_token(&self) -> (t: Token)
        ensures
            t.text@ == self.head_line@,
            t.style == TokenStyle::Plain,
    {
        Token::plain(self.head_line.clone())
    }

    fn can_alter(&self) -> (r: bool)
        ensures
            r,
    {
        true
    }

    fn children(&self) -> (r: &[LineDiff])
        ensures
            r@ == self.lines@,
    {
        self.lines.as_slice()
    }

    fn is_intersect(&self, other: &ChunkDiff) -> (r: bool)
        ensures
            r == (in_range(self.old_range, other.new_range.0) || in_range(
                self.old_range,
                other.new_range.1,
            ) || in_range(self.new_range, other.old_range.0) || in_range(
                self.new_range,
                other.old_range.1,
            )),
    {
        chunks_intersect(self.old_range, self.new_range, other.old_range, other.new_range)
    }
}

impl DiffTreeNodeContent for LineDiff {
    type Child = LineDiff;

    fn head_line_token(&self) -> (t: Token)
        ensures
            t.text@ == self.text@,
            t.style == (match self.kind {
                LineKind::Old => TokenStyle::Dim,
                LineKind::New => TokenStyle::Bold,
                LineKind::Both => TokenStyle::Plain,
            }),
    {
        Token { text: self.text.clone(), style: line_style(self.kind) }
    }

    fn can_alter(&self) -> (r: bool)
        ensures
            r == !(self.kind is Both),
    {
        line_can_alter(self.kind)
    }

    fn children(&self) -> (r: &[LineDiff])
        ensures
            r@.len() == 0,
    {
        &[]
    }

    fn is_intersect(&self, other: &LineDiff) -> (r: bool)
        ensures
            !r,
    {
        false
    }
}

/// The path from the root of the tree to a node: the index of each node among
/// its siblings, from the top.
#[derive(Debug, Clone, PartialEq, Eq)]
pub struct NodePath(Vec<usize>);

impl View for NodePath {
    type V = Seq<usize>;

    closed spec fn view(&self) -> Seq<usize> {
        self.0@
    }
}

/// Whether `prefix` is a prefix of `s`.
pub open spec fn is_prefix(prefix: Seq<usize>, s: Seq<usize>) -> bool {
    prefix.len() <= s.len() && s.take(prefix.len() as int) == prefix
}

impl NodePath {
    /// The path of the root: `[0]`.
    pub fn root() -> (p: NodePath)
        ensures
            p@ == seq![0usize],
    {
        let mut v: Vec<usize> = Vec::new();
        v.push(0);
        NodePath(v)
    }

    /// The path of the child at `index` of the node at this path.
    pub fn join(&self, index: usize) -> (child: NodePath)
        ensures
            child@ == self@.push(index),
    {
        let mut v = self.0.clone();
        assert(v@ =~= self.0@);
        v.push(index);
        NodePath(v)
    }

    /// Whether `other` is a prefix of this path (the node at `other` is this
    /// node or one of its ancestors).
    pub fn starts_with(&self, other: &NodePath) -> (r: bool)
        ensures
            r == is_prefix(other@, self@),
    {
        let n = other.0.len();
        if n > self.0.len() {
            return false;
        }
        let mut i: usize = 0;
        while i < n
            invariant
                n == other@.len(),
                n <= self@.len(),
                i <= n,
                forall|j: int| 0 <= j < i ==> self@[j] == other@[j],
            decreases n - i,
        {
            if self.0[i] != other.0[i] {
                assert(self@.take(n as int)[i as int] != other@[i as int]);
                return false;
            }
            i = i + 1;
        }
        assert(self@.take(n as int) =~= other@);
        true
    }

    /// The number of indices in the path.
    pub fn len(&self) -> (r: usize)
        ensures
            r == self@.len(),
    {
        self.0.len()
    }

    /// Whether the path has no index.
    pub fn is_empty(&self) -> (r: bool)
        ensures
            r == (self@.len() == 0),
    {
        self.0.len() == 0
    }

    /// The indices of the path.
    pub fn as_slice(&self) -> (r: &[usize])
        ensures
            r@ == self@,
    {
        self.0.as_slice()
    }

    /// Whether the two paths hold the same indices.
    fn same_as(&self, other: &NodePath) -> (r: bool)
        ensures
            r == (self@ == other@),
    {
        if self.0.len() != other.0.len() {
            assert(self@.len() != other@.len());
            return false;
        }
        let r = self.starts_with(other);
        proof {
            assert(self@.take(other@.len() as int) =~= self@);
        }
        r
    }
}

/// The cursor of the diff tree: the path of the selected node.
#[derive(Debug, Clone, PartialEq, Eq)]
pub struct Cursor {
    pub path: NodePath,
}

impl Cursor {
    /// The cursor on the first child of the root: path `[0, 0]`.
    pub fn root() -> (c: Cursor)
        ensures
            c.path@ == seq![0usize, 0usize],
    {
        let path = NodePath::root().join(0);
        assert(path@ =~= seq![0usize, 0usize]);
        Cursor { path }
    }

    /// The cursor on the parent node, if the path is longer than two indices;
    /// the two top levels have no parent to move to.
    pub fn parent(&self) -> (r: Option<Cursor>)
        ensures
            self.path@.len() > 2 ==> (r matches Some(p) && p.path@ == self.path@.drop_last()),
            self.path@.len() <= 2 ==> r is None,
    {
        if self.path.len() > 2 {
            let mut v = self.path.0.clone();
            assert(v@ =~= self.path@);
            v.pop();
            Some(Cursor { path: NodePath(v) })
        } else {
            None
        }
    }

    /// The cursor on the first child of the selected node.
    pub fn first_child(&self) -> (c: Cursor)
        ensures
            c.path@ == self.path@.push(0),
    {
        let path = self.path.join(0);
        Cursor { path }
    }

    /// The cursor on the child at `index` of the selected node.
    pub fn join(&self, index: usize) -> (c: Cursor)
        ensures
            c.path@ == self.path@.push(index),
    {
        Cursor { path: self.path.join(index) }
    }

    /// The cursor on the next sibling of the selected node.
    pub fn next_sibling(&self) -> (c: Cursor)
        requires
            self.path@.len() > 0,
            self.path@.last() < usize::MAX,
        ensures
            c.path@ == self.path@.update(self.path@.len() - 1, (self.path@.last() + 1) as usize),
    {
        let mut v = self.path.0.clone();
        assert(v@ =~= self.path@);
        let last = v.len() - 1;
        let x = v[last];
        v.set(last, x + 1);
        Cursor { path: NodePath(v) }
    }

    /// The cursor on the previous sibling of the selected node, unless the
    /// node is the first of its siblings.
    pub fn prev_sibling(&self) -> (r: Option<Cursor>)
        requires
            self.path@.len() > 0,
        ensures
            self.path@.last() == 0 ==> r is None,
            self.path@.last() > 0 ==> (r matches Some(c) && c.path@ == self.path@.update(
                self.path@.len() - 1,
                (self.path@.last() - 1) as usize,
            )),
    {
        let mut v = self.path.0.clone();
        assert(v@ =~= self.path@);
        let last = v.len() - 1;
        let x = v[last];
        if x == 0 {
            return None;
        }
        v.set(last, x - 1);
        Some(Cursor { path: NodePath(v) })
    }
}

/// The two characters drawn at depth `i` in front of the node at `path`: a
/// colon where the cursor's subtree begins, a dash line on the selected node,
/// blanks otherwise.
pub open spec fn cursor_mark(cursor: Seq<usize>, path: Seq<usize>, i: int) -> Seq<char> {
    if i == cursor.len() && is_prefix(cursor, path) {
        seq![' ', ':']
    } else if path == cursor {
        seq!['-', '-']
    } else {
        seq![' ', ' ']
    }
}

/// The marks drawn for the depths from `i` up to the path's length.
pub open spec fn cursor_marks(cursor: Seq<usize>, path: Seq<usize>, i: int) -> Seq<char>
    decreases path.len() - i,
{
    if i >= path.len() {
        Seq::empty()
    } else {
        cursor_mark(cursor, path, i) + cursor_marks(cursor, path, i + 1)
    }
}

/// The text drawn in front of the node at `path`: a dash on the selected node
/// (a blank otherwise), the marks of the depths from 2 on, and an arrow head
/// on the selected node, a bar on the other nodes at the cursor's depth, or
/// blanks.
pub open spec fn cursor_prefix(cursor: Seq<usize>, path: Seq<usize>) -> Seq<char> {
    let selected = path == cursor;
    (if selected {
        seq!['-']
    } else {
        seq![' ']
    }) + cursor_marks(cursor, path, 2) + (if selected {
        seq!['>', '|', ' ']
    } else if path.len() == cursor.len() {
        seq![' ', '|', ' ']
    } else {
        seq![' ', ' ', ' ']
    })
}

impl Cursor {
    /// Draws, on the canvas's current row, the text that marks the node at
    /// `path` relative to the cursor.
    pub fn render(&self, canvas: &mut Canvas, path: &NodePath)
        ensures
            final(canvas).current_row_view() == old(canvas).current_row_view().push(
                TextView { text: cursor_prefix(self.path@, path@), attrs: Set::empty() },
            ),
            final(canvas).rows_seq() == old(canvas).rows_seq(),
            final(canvas).max_cols_view() == old(canvas).max_cols_view(),
    {
        let ghost cursor = self.path@;
        let ghost p = path@;
        let mut text = String::new();
        let selected = path.same_as(&self.path);
        if selected {
            push_char(&mut text, '-');
        } else {
            push_char(&mut text, ' ');
        }
        let ghost head = text@;
        let n = path.len();
        let cursor_len = self.path.len();
        let mut i: usize = 2;
        while i < n
            invariant
                n == p.len(),
                p == path@,
                cursor == self.path@,
                cursor_len == cursor.len(),
                selected == (p == cursor),
                2 <= i,
                i <= n || n < 2,
                head + cursor_marks(cursor, p, 2) == text@ + cursor_marks(cursor, p, i as int),
            decreases n - i,
        {
            let ghost before = text@;
            let at_cursor_depth = i == cursor_len && path.starts_with(&self.path);
            if at_cursor_depth {
                push_char(&mut text, ' ');
                push_char(&mut text, ':');
                assert(cursor_mark(cursor, p, i as int) == seq![' ', ':']);
            } else if selected {
                push_char(&mut text, '-');
                push_char(&mut text, '-');
                assert(cursor_mark(cursor, p, i as int) == seq!['-', '-']);
            } else {
                push_char(&mut text, ' ');
                push_char(&mut text, ' ');
                assert(cursor_mark(cursor, p, i as int) == seq![' ', ' ']);
            }
            assert(text@ =~= before + cursor_mark(cursor, p, i as int));
            assert(before + cursor_marks(cursor, p, i as int) =~= text@ + cursor_marks(
                cursor,
                p,
                i + 1,
            ));
            i = i + 1;
        }
        let ghost middle = text@;
        assert(cursor_marks(cursor, p, i as int) == Seq::<char>::empty());
        if selected {
            push_char(&mut text, '>');
            push_char(&mut text, '|');
            push_char(&mut text, ' ');
        } else if n == cursor_len {
            push_char(&mut text, ' ');
            push_char(&mut text, '|');
            push_char(&mut text, ' ');
        } else {
            push_char(&mut text, ' ');
            push_char(&mut text, ' ');
            push_char(&mut text, ' ');
        }
        assert(text@ =~= cursor_prefix(cursor, p));
        canvas.draw_text(Text::new(text.as_str()));
    }
}

/// Moving to a child and back to the parent returns to the same node, below
/// the two top levels.
pub proof fn law_parent_of_child(path: Seq<usize>, index: usize)
    requires
        path.len() >= 2,
    ensures
        path.push(index).len() > 2,
        path.push(index).drop_last() == path,
{
    assert(path.push(index).drop_last() =~= path);
}

/// A child's path starts with its parent's path.
pub proof fn law_child_starts_with_parent(path: Seq<usize>, index: usize)
    ensures
        is_prefix(path, path.push(index)),
{
    assert(path.push(index).take(path.len() as int) =~= path);
}

/// Every path starts with itself.
pub proof fn law_starts_with_itself(path: Seq<usize>)
    ensures
        is_prefix(path, path),
{
    assert(path.take(path.len() as int) =~= path);
}

/// Moving to the next sibling and then to the previous one returns to the
/// same node.
pub proof fn law_prev_undoes_next(path: Seq<usize>)
    requires
        path.len() > 0,
        path.last() < usize::MAX,
    ensures
        ({
            let next = path.update(path.len() - 1, (path.last() + 1) as usize);
            &&& next.len() > 0
            &&& next.last() > 0
            &&& next.update(next.len() - 1, (next.last() - 1) as usize) == path
        }),
{
    let next = path.update(path.len() - 1, (path.last() + 1) as usize);
    assert(next.update(next.len() - 1, (next.last() - 1) as usize) =~= path);
}

/// Moving to the previous sibling, where there is one, and then to the next
/// one returns to the same node.
pub proof fn law_next_undoes_prev(path: Seq<usize>)
    requires
        path.len() > 0,
        path.last() > 0,
    ensures
        ({
            let prev = path.update(path.len() - 1, (path.last() - 1) as usize);
            &&& prev.len() > 0
            &&& prev.last() < usize::MAX
            &&& prev.update(prev.len() - 1, (prev.last() + 1) as usize) == path
        }),
{
    let prev = path.update(path.len() - 1, (path.last() - 1) as usize);
    assert(prev.update(prev.len() - 1, (prev.last() + 1) as usize) =~= path);
}

/// The text drawn in front of the selected node starts with a dash and ends
/// with an arrow head, and the text drawn in front of any node has one
/// character, two per depth from 2 on, then three.
pub proof fn law_cursor_prefix_shape(cursor: Seq<usize>, path: Seq<usize>)
    ensures
        cursor_prefix(cursor, path).len() == 4 + 2 * (if path.len() >= 2 {
            path.len() - 2
        } else {
            0
        }),
        path == cursor ==> cursor_prefix(cursor, path)[0] == '-',
        path == cursor ==> cursor_prefix(cursor, path).last() == ' ',
        path == cursor ==> cursor_prefix(cursor, path)[cursor_prefix(cursor, path).len() - 2]
            == '|',
{
    lemma_cursor_marks_len(cursor, path, 2);
}

/// In front of every node of the cursor's subtree below the cursor, the
/// column of the cursor's depth holds a colon after a blank, whatever the
/// node's depth: the subtree mark runs down all of it.
pub proof fn law_subtree_marked_at_cursor_depth(cursor: Seq<usize>, path: Seq<usize>)
    requires
        cursor.len() >= 2,
        path.len() > cursor.len(),
        path.take(cursor.len() as int) == cursor,
    ensures
        cursor_prefix(cursor, path).len() > 2 * cursor.len() - 2,
        cursor_prefix(cursor, path)[2 * cursor.len() - 3] == ' ',
        cursor_prefix(cursor, path)[2 * cursor.len() - 2] == ':',
{
    let k = cursor.len() as int;
    lemma_cursor_marks_len(cursor, path, 2);
    lemma_cursor_marks_at(cursor, path, 2, k);
    assert(is_prefix(cursor, path));
    assert(path != cursor);
    assert(cursor_mark(cursor, path, k) == seq![' ', ':']);
    let head: Seq<char> = seq![' '];
    let marks = cursor_marks(cursor, path, 2);
    let tail: Seq<char> = if path.len() == cursor.len() {
        seq![' ', '|', ' ']
    } else {
        seq![' ', ' ', ' ']
    };
    assert(cursor_prefix(cursor, path) == head + marks + tail);
    assert((head + marks + tail)[2 * k - 3] == marks[2 * (k - 2)]);
    assert((head + marks + tail)[2 * k - 2] == marks[2 * (k - 2) + 1]);
}

/// What is drawn in front of the node at `path` for each depth `k` from 2
/// on, in columns `2k - 3` and `2k - 2`: a blank and a colon at the cursor's
/// depth for the nodes of the cursor's subtree other than the selected one, a
/// dash line on the selected node, blanks otherwise; the first column holds a
/// dash on the selected node and a blank elsewhere; and the last three hold an
/// arrow head on the selected node, a bar on the other nodes at the cursor's
/// depth, and blanks elsewhere.
pub proof fn law_cursor_prefix_columns(cursor: Seq<usize>, path: Seq<usize>)
    ensures
        ({
            let t = cursor_prefix(cursor, path);
            let m = if path.len() >= 2 {
                path.len() - 2
            } else {
                0
            };
            &&& t.len() == 4 + 2 * m
            &&& t[0] == (if path == cursor {
                '-'
            } else {
                ' '
            })
            &&& forall|k: int|
                2 <= k < path.len() ==> {
                    &&& #[trigger] t[2 * k - 3] == (if path == cursor {
                        '-'
                    } else {
                        ' '
                    })
                    &&& t[2 * k - 2] == (if path != cursor && k == cursor.len() && path.len()
                        >= cursor.len() && path.take(cursor.len() as int) == cursor {
                        ':'
                    } else if path == cursor {
                        '-'
                    } else {
                        ' '
                    })
                }
            &&& t.subrange(t.len() - 3, t.len() as int) == (if path == cursor {
                seq!['>', '|', ' ']
            } else if path.len() == cursor.len() {
                seq![' ', '|', ' ']
            } else {
                seq![' ', ' ', ' ']
            })
        }),
{
    lemma_cursor_marks_len(cursor, path, 2);
    let head: Seq<char> = if path == cursor {
        seq!['-']
    } else {
        seq![' ']
    };
    let marks = cursor_marks(cursor, path, 2);
    let tail: Seq<char> = if path == cursor {
        seq!['>', '|', ' ']
    } else if path.len() == cursor.len() {
        seq![' ', '|', ' ']
    } else {
        seq![' ', ' ', ' ']
    };
    let t = cursor_prefix(cursor, path);
    assert(t == head + marks + tail);
    assert forall|k: int| 2 <= k < path.len() implies {
        &&& #[trigger] t[2 * k - 3] == (if path == cursor {
            '-'
        } else {
            ' '
        })
        &&& t[2 * k - 2] == (if path != cursor && k == cursor.len() && path.len() >= cursor.len()
            && path.take(cursor.len() as int) == cursor {
            ':'
        } else if path == cursor {
            '-'
        } else {
            ' '
        })
    } by {
        lemma_cursor_marks_at(cursor, path, 2, k);
        assert(t[2 * k - 3] == marks[2 * (k - 2)]);
        assert(t[2 * k - 2] == marks[2 * (k - 2) + 1]);
    }
    assert(t.subrange(t.len() - 3, t.len() as int) =~= tail);
}

/// The two characters of the marks from depth `i` on that stand for depth
/// `k` are the mark of depth `k`.
proof fn lemma_cursor_marks_at(cursor: Seq<usize>, path: Seq<usize>, i: int, k: int)
    requires
        i <= k < path.len(),
    ensures
        cursor_marks(cursor, path, i).len() > 2 * (k - i) + 1,
        cursor_marks(cursor, path, i)[2 * (k - i)] == cursor_mark(cursor, path, k)[0],
        cursor_marks(cursor, path, i)[2 * (k - i) + 1] == cursor_mark(cursor, path, k)[1],
    decreases k - i,
{
    lemma_cursor_marks_len(cursor, path, i + 1);
    if i < k {
        lemma_cursor_marks_at(cursor, path, i + 1, k);
    }
}

/// The marks from depth `i` on have two characters per depth.
proof fn lemma_cursor_marks_len(cursor: Seq<usize>, path: Seq<usize>, i: int)
    ensures
        cursor_marks(cursor, path, i).len() == 2 * (if path.len() >= i {
            path.len() - i
        } else {
            0
        }),
    decreases path.len() - i,
{
    if i < path.len() {
        lemma_cursor_marks_len(cursor, path, i + 1);
    }
}

} // verus!
