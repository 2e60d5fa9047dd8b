//! What holds of the library as a whole.

pub mod configuration;
pub mod expansion;
pub mod forwarding;
pub mod labels;
pub mod menu;
pub mod ordering;
pub mod requests;
pub mod routes;
pub mod services;
pub mod surroundings;
pub mod texts;
pub mod validity;
pub mod views;
