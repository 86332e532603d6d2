//! Collation of a directory of loosely numbered images into one archive.
//!
//! - [`natural`] and [`sort`] put file names in natural order, in which the
//!   numbers embedded in the names count as integers.
//! - [`naming`] gives the images canonical names: a zero-padded index, a dot
//!   and the normalized extension.
//! - [`rename`] plans the renames that give the images these names without
//!   overwriting any file, and [`directory`] says what renames make of a
//!   directory.
//! - [`member`] makes an archive member of each file, stored or compressed,
//!   whichever is smaller.
//! - [`archive`] assembles the members, and hands the archive out after it
//!   has read it back; [`container`] is the ground it stands on.
//! - [`pipeline`] leads from a directory listing to the plan, and from the
//!   files to the archive.
//!
//! The library reads no directory and writes no file: it takes names and
//! contents, and gives back names, renames and the bytes of the archive.

pub mod archive;
pub mod container;
pub mod directory;
pub mod member;
pub mod naming;
pub mod natural;
pub mod order;
pub mod pipeline;
pub mod rename;
pub mod sort;
pub mod text;
