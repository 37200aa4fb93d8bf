# modal_editor

A modal text editor for the terminal, with views that can be split, a command
line with completions, and a clipboard. What the editor does is a verified
library; the terminal, the files and the clipboard of the system are around it.

## The library (`src/`)

- `text`, `strings`: lines of a rope, words, numbers, bytes and characters.
- `layout`, `divide`: sizes, anchors, and how a split shares out its rectangle.
- `tree`, `tree_growth`, `tree_layout`, `tree_pruning`, `nodes`: the tree of
  splits and leaves, as a mathematical value and as two arenas.
- `tame`, `orderly`: trees that can be laid out on the screen, and that every
  operation keeps them so.
- `settled`: what laying out a tree moves, and what it leaves no trace of.
- `buffers`, `views`, `motion`, `edits`, `history`: texts, cursors, edits, and
  what taking edits back promises.
- `cmd_line`, `commands`, `auto_complete`: the command line, its commands and
  their completions.
- `scene`, `exec`, `view_cmds`, `line_cmds`, `list_cmds`, `step`, `keys`: what each
  key and each command makes of the editor.
- `start`, `steady`, `ready`, `trial`, `records`: the editor as it starts, what
  holds of it from then on, and whether a key can be carried out.
- `screen`, `sketch`, `sketch_line`, `paint`: the picture, and the steps that
  bring a terminal up to date.
- `requests`: what a key asks of the world outside, and the answers.

A key is handled in three steps: `Editor::request` tells what has to be done
outside, the program does it, and `Editor::key_to_exec` takes the answer.

## The program (`app/`)

`main.rs` reads keys, answers requests and draws frames.
