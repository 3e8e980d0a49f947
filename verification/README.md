mamediff
========

A terminal editor for staging, unstaging and discarding Git diffs, built
around a library verified with Verus.

Layout
------

- `src/` is the verified library:
  - `width.rs`: display widths from `unicode-width`, named by spec functions.
  - `canvas.rs`: tokens and texts cut at display columns, frame lines, frames
    and the lines to redraw, and the row canvas used by the diff tree.
  - `widget_diff_tree.rs`: the nodes of the diff tree (phases, files, chunks,
    lines), their head lines, which of them overlap or can be changed, node
    paths, the tree cursor and the marks drawn in front of each node.
  - `widget_legend.rs`: the legend of key bindings and the lines it shows.
  - `app.rs`: the scrolling, recentering and resizing decisions, and the
    state that actions change.
  - `action.rs`: the actions and the names that the configuration gives them.
  - `git.rs`: whether Git is usable, and the decoding of the octal escapes in
    the paths that Git prints.
- `tests/` runs the library on concrete values.
- `app/` is the program: arguments, the configuration file, `git`
  processes and the terminal.
