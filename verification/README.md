# Porchetta

Porchetta is a dotfile manager that synchronizes configuration *topics* between a machine and a
Git store with three-way merges. A manifest, written in Lua, declares the topics: which paths they
hold below which root, which hooks rewrite their content on the way in and out, and which filters
leave paths out.

The library in `src/` holds what Porchetta decides and computes. It is verified with Verus: each
function states in its contract what it returns or changes, and the functions called `law_*` prove
what holds across functions. It reads and writes no files, talks to no network and prints nothing.
Where those take part, the library is a state machine (`engine::sync`, `engine::reconcile`, `scan`,
`store::clone`): it says what is to be done next, and is told what came of it.

Two things go beyond computing. `lua_runtime` asks the machine for its name, for `hostname()` in a
manifest. And loading a manifest, running a hook or asking a filter runs the user's Lua code, in the
interpreter that the caller hands in: what that code may reach is for the caller to decide.

- `manifest`, `hooks`, `lua`, `lua_runtime`: manifests, and the calls into the Lua interpreter
- `scan`: the search for the files of a topic
- `engine`: synchronization, reconciliation of heads, conflicts, differences
- `store`: branches, heads, remotes, the clone of a store
- `chezmoi`: migration of a chezmoi source directory into a manifest
- `rooted_tree`: a directory as git objects
- `object`, `paths`, `bytes`, `text`, `order`: what the others are built of
- `ui`, `util`: how statuses are shown, the choice of an editor

The program in `app/` does the input and output around the library: the repository through `gix`,
the `git` command, the file system, the terminal.

The functions marked `external_body` call other crates. Their comments say what is taken for
granted of those crates.

`Cargo.toml` names `kstring`, which `gix` is built on, only to hold it at a release that builds with
the Rust version given there; no code here uses it.
