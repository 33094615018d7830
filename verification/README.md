# everytree

A disk-usage treemap over the Everything file index, built around a verified
library.

- `src/` is the library, proved with Verus: the compact hierarchy and its
  builder (`model`, `finish`, `finished`, `totals`, `folder_index`), the
  paged import of the index (`ingest`, `everything`), the transfer format
  between the worker process and the viewer (`transfer`), the check that a
  hierarchy from elsewhere keeps what a finished one keeps (`validate`), the treemap's
  integer decisions (`layout`), the filesystem tree's rows (`tree`), the
  back/forward history (`navigation`), sample hierarchies (`synthetic`),
  and small text helpers (`numbers`, `palette`, `shell`, `utf8_text`).
  Public proof functions (`lemma_*`) state the laws the library keeps.
- `tests/` exercises the library on concrete values.
- `app/` is the program around it: command line, worker process, the
  Everything DLL and the Windows shell, and the egui window with its
  floating-point geometry.
