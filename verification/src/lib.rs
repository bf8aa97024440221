//! Vote counting for game jams: forum posts are read, the games each voter
//! ranked are grouped into clusters of equivalent names, and the clusters are
//! scored by ranked choice.

pub mod ai;
pub mod chars;
pub mod clustering;
pub mod config;
pub mod ranked_choice;
pub mod runner;
pub mod scraping;
pub mod value;
