pub mod academic_calendar;
pub mod classifier;
pub mod commands;
pub mod html;
pub mod ispace_provider;
pub mod links;
pub mod mail_provider;
pub mod mime;
pub mod models;
pub mod outgoing_mail;
pub mod secrets;
pub mod text;
pub mod times;
