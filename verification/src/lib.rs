//! The rules of an endless runner: a ring of track rows that is spawned,
//! raised and recycled around the runner, the runner's locomotion, and the
//! conditions under which a run ends. Every quantity is fixed point; see
//! [`fixed`].

pub mod color;
pub mod direction;
pub mod fixed;
pub mod floor;
pub mod food;
pub mod game_over;
pub mod player;
pub mod random;
