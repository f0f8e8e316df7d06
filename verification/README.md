# disk_scanner

A disk usage scanner: it walks a directory tree in parallel, builds the tree
of directories and files with their sizes and counts, aggregates small items
so the tree stays readable (by a size threshold, by coverage of each
directory, and by a depth limit), and shows it as a text tree, JSON, a visual
report or an HTML treemap.

The library in `src/` is verified with Verus:

- `topology`: the tree node, its constructors, and the passes computing sizes
  and counts.
- `aggregate`: threshold aggregation, coverage aggregation and the depth
  limit, each specified as a relation between the tree before and after.
- `pipeline`: what every pass keeps (totals within and equal to a
  directory's own).
- `assemble`: building the tree from the scanned directories, deepest first.
- `scan`: directory listings, the scan configuration, the full sequence of
  passes, and disk capacity figures.
- `sort`: a stable sort by size, largest first, and sums over sequences.
- `text`: byte sizes in binary units, digit grouping, size arguments.
- `json`, `render`, `report`, `cli`: the JSON text, the rows of the tree
  view, categories and totals of the report, and the command line.

`app/` is the program around it: file system walking with a thread pool,
progress display, disk statistics, and the report and treemap output, whose
percentages are floating point.
