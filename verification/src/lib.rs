//! Verified core of a self-contained Linux benchmark launcher: the cpio
//! "newc" archive format it builds and unpacks, the decisions that turn its
//! command line into a QEMU or chroot invocation, and the parsing of
//! `/proc/cpuinfo` and mount arguments.
pub mod assets;
pub mod bytes;
pub mod text;
pub mod cli;
pub mod system;
pub mod cpio;
pub mod overlay;
pub mod cpu;
pub mod mount;
pub mod launch;
pub mod image;
