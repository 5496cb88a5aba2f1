//! A small remote shell: clients log in over an encrypted stream and then move through a
//! fixed directory tree with `cd`, `ls` and `pwd`, each reply a typed message.
//!
//! `protocol` holds the messages and their codec, `database` the credential store,
//! `crypto` the password digests, `filesys` the tree, `session` the server's state machine
//! and shell, `client` the client's reactions, `network` the address.

pub mod text;
pub mod filesys;
pub mod protocol;
pub mod network;
pub mod crypto;
pub mod database;
pub mod session;
pub mod client;
