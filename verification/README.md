# git-cow

`git worktree add` that copies nothing. New worktrees are copy-on-write clones of an existing
one (APFS `clonefile`, btrfs/XFS/ZFS reflinks), including gitignored build caches like
`node_modules/`, `_build/`, `deps/` and `target/`.

`git cow populate` fills a fresh worktree (`git worktree add --no-checkout`):

1. The source worktree is cloned. Tracked files and ignored build caches are cloned; untracked
   scratch files are not.
2. The index is built for the new HEAD. For files the source index knows are clean, stat data is
   reused, so nothing is read. The rest is hashed, and only files that differ from HEAD are
   written by libgit2.
3. If anything fails, the worktree is made fresh again, and git's own checkout can take over.

## What gets carried into the new worktree

| | |
|---|---|
| tracked files | always (then fixed up to the new HEAD) |
| untracked, not ignored | never |
| gitignored | yes, except the ones below |
| never | sockets/fifos/devices, `.hg` `.jj` `.svn` ..., `.worktrees` `.conductor` `.entire`, nested worktrees or repos, virtualenvs (`pyvenv.cfg`), CMake build dirs (`CMakeCache.txt`); see below |
| not by default | `.venv/`, `venv/`, `.devenv/`, `.direnv/`, `tmp/`, `log/`, `*.pid`, `*.sock` |

An ignored directory is carried as a whole, with everything below it. Nested worktrees and repos
are looked for at any depth: a directory above one is walked, and only what is beside it is
carried. The other entries of the "never" row are looked for in the ignored path itself, and
virtualenvs and CMake build dirs also one level down; deeper inside a carried directory they are
carried with it.

With a `.worktreeinclude` (gitignore syntax) only ignored paths matching it are carried; this also
overrides the "not by default" list.

```sh
git config --add cow.exclude '.cache/'        # never carry (gitignore syntax, repeatable)
git config --add cow.exclude '!tmp/'          # carry a "not by default" entry anyway
git config cow.requireInclude true            # carry nothing without .worktreeinclude
git config cow.carryIgnored false             # only tracked files
```

## Layout

`src/` is the library, verified with Verus. It decides: each piece of work is a state that says
what has to be known or done next, and goes on when it is told what came of it. Its contracts say
exactly how.

| | |
|---|---|
| `populate` | the whole job: what is done in which order, and what happens on failure |
| `select`, `rules`, `globs`, `checkouts` | which paths are cloned |
| `cloning`, `copying`, `cow` | cloning them |
| `stat` | taking over stat data from the source index |
| `submodule` | leaving submodules empty |
| `lfs`, `smudge`, `digest` | git-lfs files |
| `worktree`, `time`, `report` | fresh worktrees, the wait at the end, what is printed |
| `tree`, `reorder`, `cloned` | what is selected and cloned of a worktree as a whole, and laws about it |
| `bytes`, `number`, `order`, `path`, `path_map`, `text` | the ground they stand on |

Functions named `law_...` state what holds of several functions together.

`app/` is the program around it: the command line, the file system and libgit2. `tests/` runs the
library on worktrees in memory.
