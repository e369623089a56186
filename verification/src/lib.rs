//! A Discord webhook notifier: the payload a command line describes, the webhook
//! URL it resolves to, the UTC timestamp it carries, and the retry decisions of
//! its delivery, each with a verified contract.

pub mod civil;
pub mod text;
pub mod envfile;
pub mod payload;
pub mod send;
