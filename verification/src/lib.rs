//! Water temperatures of the Gfrörli sensor network, answered and watched over Threema.

pub mod accuracy;
pub mod alert;
pub mod api;
pub mod binary64;
pub mod calendar;
pub mod chart;
pub mod client;
pub mod config;
pub mod decimals;
pub mod handler;
pub mod identity;
pub mod interpolation;
pub mod layout;
pub mod monotone;
pub mod numerals;
pub mod picture;
pub mod points;
pub mod replies;
pub mod rounding;
pub mod scheduler;
pub mod sequences;
pub mod statistics;
pub mod store;
pub mod straight;
pub mod tangents;
pub mod text;
