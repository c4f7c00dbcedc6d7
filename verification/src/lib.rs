//! Shows from which side sound comes: from audio frames to the energy and the direction
//! of four frequency bands, and from there to balls on a strip at the top of the screen.
pub mod analyzer;
pub mod approach;
pub mod balance;
pub mod bands;
pub mod bounds;
pub mod channel;
pub mod color;
pub mod display;
pub mod easing;
pub mod frame;
pub mod gain;
pub mod hotkey;
pub mod icon;
pub mod keys;
pub mod layout;
pub mod levels;
pub mod mean;
pub mod measure;
pub mod middle;
pub mod mirror;
pub mod number;
pub mod overlay;
pub mod paint;
pub mod picture;
pub mod placing;
pub mod range;
pub mod room;
pub mod run;
pub mod settings;
pub mod sides;
pub mod smoothing;
pub mod timing;
pub mod step;
pub mod tracks;
pub mod tray;
