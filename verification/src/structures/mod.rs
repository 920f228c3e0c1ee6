//! Buildings: their components, construction, placement and production.
pub mod building_config;
pub mod construction;
pub mod construction_auto_pull;
pub mod production;
pub mod validation;
