# haltui

A terminal viewer for the HAL of a running LinuxCNC: a tree of components,
pins, parameters, signals, functions and threads; `hal show` output and a
`halcmd` command entry; a watch list of live values that can be set,
cleared or unlinked; a settings screen; and the `halshow.preferences` and
`.halshow` watch-file formats.

The library in `src/` is verified with Verus. Each public function states
in its contract what it computes, over spec functions of `Seq`, `Set` and
`Map` values; the laws that relate several functions are public proof
functions (`lemma_*`).

| module | what it holds |
| ------ | ------------- |
| `text` | characters, lines, words, trimming, searching, sorting texts |
| `num` | decimal and radix digits, parsing unsigned numbers |
| `hal` | HAL object kinds, `halcmd` answers, tokenizing, writability from `show` output, batch scripts |
| `tree` | the HAL tree: building it from the lists (regex filter), visible rows, selection, expanding |
| `watch` | watch items and the `.halshow` file format (both layouts) |
| `prefs` | the preferences file: reading and writing it |
| `fmt` | printf-style formats for integer values |
| `state` | plain application state, value alignment, line editing, path normalization |
| `keys` | where a key goes and what each pane does with it |
| `control` | the decisions of the application: watch list, history, settings, options, values |
| `dialog` | the input prompts and the file dialog |
| `view` | what the screen shows: row texts, hints, clipping, scrolling, help styling |

`app/` is the program around the library: the terminal and its drawing
(ratatui, crossterm), the `halcmd` process, files, the clock, and the
floating-point parts (the split ratio and float formats).

Outside calls made by the library go through a few trusted wrappers, each
with a doc comment saying what its contract claims: `String::push`,
`str::to_lowercase`, `char::is_uppercase`, and `regex::Regex` (compiling a
pattern and matching it).
