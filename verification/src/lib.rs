//! Opening JumpServer `jms://` links with a remote desktop client.
//!
//! A link carries a Base64 text of a JSON document, which holds the configuration of a remote
//! desktop connection and the secret of a connection token. The library reads links, adapts the
//! configurations, and decides what the program does: it gives back the steps that are to be
//! taken, and what they report is handed to it in turn. It does no input or output itself.
pub mod action_laws;
pub mod base64;
pub mod base64_laws;
pub mod call_laws;
pub mod choice_laws;
pub mod cli;
pub mod credentials;
pub mod documents;
pub mod error;
pub mod events;
pub mod file_laws;
pub mod files;
pub mod gnome_laws;
pub mod json;
pub mod launch;
pub mod link;
pub mod option_laws;
pub mod paths;
pub mod payload_laws;
pub mod percent;
pub mod profile_laws;
pub mod profiles;
pub mod reading_laws;
pub mod redact;
pub mod registration;
pub mod rewriting;
pub mod rewriting_laws;
pub mod run;
pub mod run_laws;
pub mod settings;
pub mod settings_laws;
pub mod spelling;
pub mod steps;
pub mod template;
pub mod template_laws;
pub mod text;
pub mod text_laws;
pub mod utf;
