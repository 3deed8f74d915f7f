pub mod checkout;
pub mod cherry;
pub mod clock;
pub mod dag;
pub mod diff;
pub mod error;
pub mod flat;
pub mod hashing;
pub mod history;
pub mod ignore;
pub mod json;
pub mod linediff;
pub mod merge;
pub mod objects;
pub mod oplog;
pub mod order;
pub mod rebuild;
pub mod remote;
pub mod repo;
pub mod screens;
pub mod snapshot;
pub mod snaprestore;
pub mod stash;
pub mod sync;
pub mod store;
pub mod term;
pub mod text;
pub mod treebuild;
pub mod workdir;
pub mod worktree;
