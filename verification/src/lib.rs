//! Renders still images and live camera frames as coloured terminal text.
//!
//! A picture goes through the modules in this order: [`fit`] finds the size at
//! which it is shown, [`frame`] resamples and mirrors it, [`shade`] turns its
//! colours into characters and other colours, and [`render`] writes the tokens of
//! [`text`]. [`screen`] puts these together, for an image and for a camera frame
//! with the rate of [`meter`] below it. [`terminal`] states what tokens show, and
//! [`display`] what is seen on a terminal that reads the text.
//!
//! Sizes and colours are computed in single precision, as bit patterns: see
//! [`single`] for the numbers and [`rounding`] for what rounding does.
//!
//! [`camera`] picks and lists cameras, [`capture`] turns what a camera delivers into
//! pictures, and [`session`] decides what a live session does next and when it is
//! given up.

pub mod camera;
pub mod capture;
pub mod display;
pub mod fit;
pub mod frame;
pub mod meter;
pub mod options;
pub mod render;
pub mod rounding;
pub mod screen;
pub mod session;
pub mod shade;
pub mod single;
pub mod terminal;
pub mod text;
