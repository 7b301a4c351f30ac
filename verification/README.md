# Uchikomi

A deterministic telemetry engine: it joins the complexity of functions, read from
syntax trees, with the history of their lines, read from Git, and tells of every
function how risky it is.

The library under `src/` is verified with Verus. What it takes from other crates
(parsing, hashing, regular expressions, time stamps, commit identifiers) is stated
at the few functions that call them. `app/` is the program around it: the command
line, reading files and commits, the cache on disk, the arithmetic on doubles, and
the JSON report.

| Module | What it holds |
| --- | --- |
| `ast` | syntax trees, complexity, quality of bodies, calls, reachability |
| `registry` | which language a file is written in |
| `git` | bug-fix patterns, commits, histories, renames, churn, incremental reading |
| `coverage`, `coupling`, `scoring` | what is told of functions beyond their source |
| `authors`, `ranking`, `stats` | what is told of the project |
| `cache`, `context`, `worker`, `gather`, `report` | the course of an analysis |
| `determinism`, `reruns` | that the same input always gives the same report |
| `text`, `order`, `table`, `path`, `digest`, `score`, `error` | the vocabulary |

```
uchikomi [PATH] --sort risk --limit 100 > report.json
```
