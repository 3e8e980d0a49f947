use mamediff::canvas::Canvas;
use mamediff::widget_diff_tree::{Cursor, NodePath};
use mamediff::widget_legend::LegendWidget;

fn path(ids: &[usize]) -> NodePath {
    let mut p = NodePath::root();
    assert_eq!(p.as_slice(), &[0]);
    for &i in &ids[1..] {
        p = p.join(i);
    }
    p
}

fn rendered(cursor: &Cursor, p: &NodePath) -> String {
    let mut canvas = Canvas::new(100);
    cursor.render(&mut canvas, p);
    canvas.draw_newline();
    canvas.rows[0].texts[0].text.clone()
}

#[test]
fn node_path_basics() {
    let root = NodePath::root();
    assert_eq!(root.len(), 1);
    assert!(!root.is_empty());
    let child = root.join(3);
    assert_eq!(child.as_slice(), &[0, 3]);
    assert!(child.starts_with(&root));
    assert!(child.starts_with(&child));
    assert!(!root.starts_with(&child));
    assert!(!path(&[0, 1, 2]).starts_with(&path(&[0, 2])));
}

#[test]
fn cursor_moves() {
    let c = Cursor::root();
    assert_eq!(c.path.as_slice(), &[0, 0]);
    assert!(c.parent().is_none());
    let child = c.first_child();
    assert_eq!(child.path.as_slice(), &[0, 0, 0]);
    assert_eq!(child.parent(), Some(c.clone()));
    let next = child.next_sibling();
    assert_eq!(next.path.as_slice(), &[0, 0, 1]);
    assert_eq!(next.prev_sibling(), Some(child.clone()));
    assert!(child.prev_sibling().is_none());
    assert_eq!(c.join(4).path.as_slice(), &[0, 0, 4]);
}

#[test]
fn cursor_render_marks() {
    let cursor = Cursor { path: path(&[0, 0, 1]) };
    assert_eq!(rendered(&cursor, &path(&[0, 0, 1])), "--->| ");
    assert_eq!(rendered(&cursor, &path(&[0, 0, 2])), "    | ");
    assert_eq!(rendered(&cursor, &path(&[0, 0, 1, 5])), "    :   ");
    assert_eq!(rendered(&cursor, &path(&[0, 1])), "    ");
    assert_eq!(rendered(&cursor, &path(&[0])), "    ");
}

#[test]
fn legend_toggle() {
    let mut legend = LegendWidget::default();
    assert!(!legend.hide);
    legend.toggle_hide();
    assert!(legend.hide);
    legend.toggle_hide();
    assert!(!legend.hide);
}

use mamediff::canvas::TokenStyle;
use mamediff::widget_diff_tree::{
    chunks_intersect, decimal_string, file_head_line, line_can_alter, line_style, phase_head_line,
    ChunkDiff, DiffTreeNodeContent, FileDiff, FileDiffHead, FileDiffKind, LineDiff, LineKind,
    Phase, PhasedDiff,
};

fn head(kind: FileDiffKind) -> FileDiffHead {
    FileDiffHead {
        kind,
        path: "src/main.rs".to_string(),
        old_path: "src/old.rs".to_string(),
        chunks: 1,
        removed: 1,
        added: 12,
        old_mode: "100644".to_string(),
        new_mode: "100755".to_string(),
    }
}

#[test]
fn decimal_strings() {
    assert_eq!(decimal_string(0), "0");
    assert_eq!(decimal_string(7), "7");
    assert_eq!(decimal_string(10), "10");
    assert_eq!(decimal_string(1234567890), "1234567890");
}

#[test]
fn phase_head_lines() {
    let t = phase_head_line(Phase::Unstaged, 1);
    assert_eq!(t.text, "Unstaged changes (1 files)");
    assert_eq!(t.style, TokenStyle::Plain);
    assert_eq!(phase_head_line(Phase::Staged, 0).text, "Staged changes (0 files)");
}

#[test]
fn file_head_lines() {
    assert_eq!(
        file_head_line(&head(FileDiffKind::Update)).text,
        "modified src/main.rs (1 chunks, -1 +12 lines)"
    );
    assert_eq!(file_head_line(&head(FileDiffKind::New)).text, "added src/main.rs");
    assert_eq!(file_head_line(&head(FileDiffKind::Added)).text, "added src/main.rs");
    assert_eq!(
        file_head_line(&head(FileDiffKind::Rename)).text,
        "renamed src/old.rs -> src/main.rs"
    );
    assert_eq!(file_head_line(&head(FileDiffKind::Delete)).text, "deleted src/main.rs");
    assert_eq!(
        file_head_line(&head(FileDiffKind::Chmod)).text,
        "mode changed src/main.rs 100644 -> 100755"
    );
}

#[test]
fn chunk_overlaps() {
    assert!(chunks_intersect((1, 5), (1, 6), (10, 12), (4, 8)));
    assert!(chunks_intersect((1, 5), (1, 6), (5, 9), (10, 12)));
    assert!(!chunks_intersect((1, 5), (1, 6), (10, 12), (10, 13)));
    assert!(!chunks_intersect((1, 5), (1, 6), (6, 9), (5, 9)));
}

#[test]
fn line_styles_and_alterability() {
    assert_eq!(line_style(LineKind::Old), TokenStyle::Dim);
    assert_eq!(line_style(LineKind::New), TokenStyle::Bold);
    assert_eq!(line_style(LineKind::Both), TokenStyle::Plain);
    assert!(line_can_alter(LineKind::Old));
    assert!(line_can_alter(LineKind::New));
    assert!(!line_can_alter(LineKind::Both));
}

#[test]
fn tree_nodes() {
    let line = LineDiff { kind: LineKind::New, text: "+hi".to_string() };
    let chunk = ChunkDiff {
        head_line: "@@ -1,3 +1,3 @@".to_string(),
        old_range: (1, 4),
        new_range: (1, 4),
        lines: vec![line.clone()],
    };
    let other = ChunkDiff {
        head_line: "@@ -9 +9 @@".to_string(),
        old_range: (9, 10),
        new_range: (9, 10),
        lines: vec![],
    };
    assert_eq!(chunk.head_line_token().text, "@@ -1,3 +1,3 @@");
    assert!(chunk.can_alter());
    assert_eq!(chunk.children().len(), 1);
    assert!(!chunk.is_intersect(&other));
    assert!(chunk.is_intersect(&chunk));

    let t = line.head_line_token();
    assert_eq!((t.text.as_str(), t.style), ("+hi", TokenStyle::Bold));
    assert!(line.can_alter());
    assert!(line.children().is_empty());
    assert!(!line.is_intersect(&line));

    let file = FileDiff { head: head(FileDiffKind::Update), chunks: vec![chunk] };
    assert!(file.can_alter());
    assert_eq!(file.children().len(), 1);
    let other_file = FileDiff { head: head(FileDiffKind::Delete), chunks: vec![] };
    assert!(file.is_intersect(&other_file));

    let phase = PhasedDiff { phase: Phase::Unstaged, files: vec![file] };
    assert_eq!(phase.head_line_token().text, "Unstaged changes (1 files)");
    assert!(phase.can_alter());
    let empty = PhasedDiff { phase: Phase::Staged, files: vec![] };
    assert!(!empty.can_alter());
    assert_eq!(empty.head_line_token().text, "Staged changes (0 files)");
    assert!(phase.is_intersect(&empty));
}
