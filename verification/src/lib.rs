//! Verified core of a small source-package manager: package names,
//! repository URLs, content digests, dependency ordering and the
//! bookkeeping of the package databases.

pub mod binaries;
pub mod commit;
pub mod digest;
pub mod error;
pub mod names;
pub mod order;
pub mod package;
pub mod recovery;
pub mod registry;
pub mod remote;
pub mod repos;
pub mod shell;
pub mod text;
pub mod url;

