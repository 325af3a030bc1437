# NeXus Viewer

A viewer for NeXus/HDF5 files: the file tree on the left, values and plots on the right, a search
bar to narrow the tree down to matching PVs, and several files side by side to compare a PV across
runs.

- `src/` is the library: everything the viewer decides and computes, with contracts that Verus
  proves.
  - `order`, `text`, `path`, `number`: stable sorting, text, file paths, and floating-point numbers
    by their bit patterns.
  - `runs`, `run_files`, `run_search`: run lists, the files of runs, and the popups in which paths
    and run lists are typed.
  - `datatype`, `tree`, `browse`: HDF5 datatypes and values, the tree of a file, searching it.
  - `series`, `pv`: thinning, capping and interpolating series; a selected dataset and the pairing
    of two.
  - `session`, `panels`, `view`: what is open and selected, and what the window shows of it.
- `tests/` runs the library.
- `app/` is the program: the window, file and directory access, HDF5, and floating-point
  arithmetic and formatting.

Started without a file, the program asks for one. Preferences are kept in
`~/.config/venus_rust_tools`.
