# project

The project model of a CAD application: documents and data held by a
project, recorded as an operation log that several replicas, sessions and
branches write to, and rebuilt into read-only views.

- `src/` is the verified library (Verus). Its main parts:
  - `path`: document paths with escaping, names, ancestors and numbered names;
  - `oplog`, `project`, `apply`, `edit`: the log, replicas and their merging,
    and recording and applying changes;
  - `manager`: project locations, and the manager that holds one instance
    of each project by location;
  - `resolve`, `replay`, `history`: which entries count after undo, redo and
    branch merges, the replay of the log into a view (documents, data and
    the content of every section, as the modules' code makes it), and the
    laws of undo, redo and convergence over all of it;
  - `view`, `access`, `cache`: views, the recording of reads made on them,
    and the validity of cached results;
  - `session`: a document shared by editing sessions, with one transaction
    history and undo and redo per session, stated over what the
    application's transactions do (`transaction` holds its plain
    transaction traits);
  - `viewport`: the checks on viewport plugins and the pipeline's chain of
    plugin types;
  - `ctype`: the C character functions of the web build.
- `app/` holds what lives outside the verified library: identifiers as UUIDs,
  error messages, the serialized form of a project, and the C exports of
  the character functions.
- `tests/` exercises the library.

Left out of both:

- The viewport's computation of scenes and primitives (running the plugins'
  compute graph and handing its result to the renderer) and the graph
  wiring of a connected plugin. These run `computegraph` graphs and `iced`
  primitives, crates that cannot be had here, and the decisions around them
  cannot be parted from those calls. The plugin checks, the chain of plugin
  types and the cache bookkeeping of a run are in `src/` (`viewport`,
  `cache`).
- The web build's allocator and C runtime shims (`malloc`, `free`,
  `realloc`, exception and thread stubs and the like). They manage raw
  memory for foreign code, which the verified library does not do; only the
  character functions, which are plain logic, are verified (`ctype`) and
  exported from `app/`.
