//! Joins an untrusted path onto a trusted root directory so that neither
//! `..` segments nor symbolic links lead the result out of the root.

pub mod laws;
pub mod lexical;
pub mod oracle;
pub mod resolution;
pub mod secure_join;
pub mod text;
pub mod text_path;
pub mod walk;
