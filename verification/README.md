# File explorer

The logic of a two-pane file explorer, verified with Verus: a directory tree
on the left that expands, collapses and follows the selection, and a file list
on the right that shows the entries of one directory.

- `src/path.rs`: absolute paths as byte-string components, each an ordinary
  name (no `.`, `..`, empty name or `/`), kept as the type's invariant
  (parent, ancestors, prefix test, display bytes).
- `src/text.rs`: UTF-8 and case-mapping calls into std, byte-string order.
- `src/size.rs`: the size column ("512 B", "1.5 KB", "2.0 MB"), computed on
  integers exactly as the float formatting of `{:.1}` rounds.
- `src/sort.rs`: the stable listing sort (directories first, then the
  lower-cased name) and its laws.
- `src/fs_data.rs`: nodes, rows and listings built from what reading the file
  system gave.
- `src/file_list.rs`: the state of the file list.
- `src/explorer.rs`, `src/explorer_laws.rs`: the explorer tree, its
  operations, and the laws they obey.
- `app/`: the window (gpui), and the file-system reads the library is handed.
