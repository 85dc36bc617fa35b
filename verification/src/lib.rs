//! A hash map built from key-ordered bucket lists with two-phase deletion.
//!
//! Nodes live in an arena and refer to each other by slot index; a link
//! carries its deletion mark beside the slot it names, and the pair is
//! swapped as one unit. A deletion first marks a node and then unlinks it;
//! an unlinked slot is retired, and is released for new nodes only when
//! every registered client has been seen outside the operation it was in.
//!
//! Every operation takes the structure exclusively for the length of the
//! call and is verified against a mathematical map from keys to values.
//! Within `insert` and `delete` a compare-and-swap finds the link it
//! expects, which is proved where it is used, so neither has to retry.
//!
//! The list also offers the steps that these operations are made of, each
//! one walk or one swap: `find`, `locate`, `try_mark`, `try_link` and
//! `try_unlink`. A step accepts any slots, checks them as the swap would,
//! and either takes effect on one key or changes nothing. Clients that take
//! turns step by step therefore keep the list well formed in whatever
//! order their steps come.

pub mod node;
pub mod list;
pub mod hash;
pub mod table;
pub mod reclaim;
pub mod map;
