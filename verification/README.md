# bstl

A launcher for the terminal. It lists the desktop apps that are installed, or
the programs of a directory, lets the user search them, and starts the one that
is chosen: directly, in a terminal, through sway, or by printing its command
line.

`src/` is the library, written in Verus: every function states what it returns
or changes, and Verus proves that it does. `app/` is the program around it: the
terminal, the files, the SQLite database, sway's socket and the processes that
are started. `tests/` runs the library.

## The library

| module | what it holds |
| --- | --- |
| `text`, `paths`, `table`, `ranking` | texts, paths, maps from texts, and stable ordering |
| `clock` | points in time as texts |
| `color`, `config` | colours, themes and settings |
| `desktop`, `menu` | desktop files and menu fragments |
| `storage`, `storage_laws` | the cached apps, the scanned directories and the launches |
| `search` | how well a name matches a query |
| `catalog` | what the panes list |
| `input`, `keys` | the search line, keys and the mouse |
| `app`, `app_laws` | the state of the launcher |
| `events`, `event_laws` | what keys and the mouse do |
| `launch`, `session` | commands, the rounds of a run, and how it ends |

The state of each type is given by a mathematical view: `App` by `State`,
`Storage` by `Tables`, `AppEntry` by `Entry`. Contracts are written over the
views. What holds across several functions is proved in the modules whose names
end in `_laws`, and beside the functions in the smaller modules.

## What is taken on trust

The library calls `chrono`, `fuzzy_matcher`, `quick_xml`, `serde_json`,
`tui_input` and `crossterm`, and `str::to_lowercase` and `String::push` of the
standard library. What it relies on is stated at the functions marked
`external_body` and in the `assume_specification` items, each with the outside
function that it speaks of. Scores, lower-case forms, time stamps and the
search line are named there and not computed by the contracts.
