//! Finding the player of a game on a large map from pictures of the minimap, and
//! the way to the next point of a route.

pub mod angle;
pub mod axis;
pub mod binary32;
pub mod capture;
pub mod circle;
pub mod config;
pub mod direction;
pub mod follow;
pub mod heading;
pub mod hough;
pub mod launch;
pub mod locator;
pub mod outline;
pub mod overlay;
pub mod pixels;
pub mod resource;
pub mod route;
pub mod sample;
pub mod shares;
pub mod spot;
pub mod state;
pub mod text;
pub mod ui;
pub mod worker;
