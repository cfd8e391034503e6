//! Spotify identifiers (base-16, base-62 and raw 16-byte forms) and the
//! naming rules that turn a playlist row into a track file name.

pub mod digits;
pub mod spotify_id;
pub mod text;
pub mod naming;
pub mod playlist;
pub mod walk;
pub mod tz_offset;
