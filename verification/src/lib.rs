//! Effects for still character pictures: blinking, talking, backdrops and
//! export. Which pixels are drawn and in what order, how polygons are edited and
//! how an export runs is stated in contracts and proved; curves and colours in
//! floating point come from the caller.

pub mod audio;
pub mod background;
pub mod blink;
pub mod canvas;
pub mod codec;
pub mod color;
pub mod compose;
pub mod cover;
pub mod export;
pub mod fold;
pub mod frame;
pub mod keys;
pub mod motion;
pub mod notes;
pub mod poly;
pub mod seed;
pub mod talk;
pub mod text;
pub mod trace;
pub mod viz;
