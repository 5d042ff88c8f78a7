//! Fill a freshly created git worktree (`git worktree add --no-checkout`) by copy-on-write
//! cloning an existing worktree, then let libgit2 write only the files whose content differs
//! from the worktree's HEAD. git itself handles branches, worktree metadata and every
//! `git worktree add` option.
//!
//! The library decides; whoever uses it does the work. [`populate`] says what has to be done
//! next ([`populate::Phase`]) and goes on when it is told what came of it
//! ([`populate::News`]):
//!
//! 1. snapshot the source worktree's index ([`stat`]), then copy-on-write clone it ([`cow`],
//!    [`cloning`], [`copying`]): tracked files plus ignored build caches, minus excludes
//!    ([`select`], [`rules`], [`checkouts`]); falls back to a regular checkout without CoW support
//! 2. load HEAD's tree into the index; leave submodules empty ([`submodule`]); reuse the
//!    snapshot's stat data for files it vouches for, hash the rest (read-only), accept verified
//!    smudged git-lfs files ([`lfs`], [`smudge`])
//! 3. force checkout: only differing files are written, untracked files removed; git-lfs
//!    pointers are smudged from the local LFS store
//!
//! What a walk selects and what is cloned of a worktree as a whole is said in [`tree`],
//! [`reorder`] and [`cloned`].
pub mod bytes;
pub mod checkouts;
pub mod cloned;
pub mod cloning;
pub mod copying;
pub mod cow;
pub mod digest;
pub mod globs;
pub mod lfs;
pub mod number;
pub mod order;
pub mod path;
pub mod path_map;
pub mod populate;
pub mod reorder;
pub mod report;
pub mod rules;
pub mod select;
pub mod smudge;
pub mod stat;
pub mod submodule;
pub mod text;
pub mod time;
pub mod tree;
pub mod worktree;

pub use populate::{populate, Job, PopulateOptions};
pub use report::Report;
pub use select::join as join_paths;
