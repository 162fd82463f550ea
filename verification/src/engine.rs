pub mod db;
pub mod event_listener;
pub mod ordered;
