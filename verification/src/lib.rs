//! Reports which installed packages are outdated according to an upstream
//! tracking database.
//!
//! Three datasets are brought together: the packages that the running system
//! is built from (`installed`), the packages that the local package source
//! offers (`available`), and what upstream says of the projects of the
//! repository (`repology`, retrieved page by page as `fetch` decides).
//! `acquire` gathers the outcomes of the three acquisitions, `reconcile`
//! joins the datasets, and `report` says what is shown of the result.
//!
//! The library reads no file, runs no command and keeps no time: its caller
//! does, and hands it what came back. All that it asks of the machine is its
//! name.

pub mod acquire;
pub mod available;
pub mod cmd;
pub mod error;
pub mod fetch;
pub mod flake;
pub mod installed;
pub mod json;
pub mod ordered;
pub mod progress;
pub mod reconcile;
pub mod report;
pub mod repology;
mod tally;
pub mod text;
