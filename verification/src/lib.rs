//! Shortening the path of a working directory, as a shell prompt does.
//!
//! Every directory above the working directory is cut down to the shortest
//! prefix that tells it apart from the entries beside it; the working
//! directory's own name is kept in full; and a path under the home directory
//! starts with `~` in place of the home directory.
//!
//! - [`prefix`] finds the shortest unique prefix of a name among its siblings.
//! - [`listing`] takes the names out of a directory listing.
//! - [`path`] puts the shortened path together and writes it out as text.
//!
//! Nothing here touches the file system or the environment. The caller reads
//! the working directory, the listings and the home directory, and hands them
//! over as plain text; paths are sequences of components with `/` as the root.

pub mod listing;
pub mod path;
pub mod prefix;
