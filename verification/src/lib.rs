//! Verified core of the SayIt desktop dictation and subtitle engine.
pub mod asr_queue;
pub mod audio;
pub mod clock;
pub mod diff;
pub mod history;
pub mod idle_reclaim;
pub mod json;
pub mod learning;
pub mod llm_models;
pub mod overlay;
pub mod performance;
pub mod plugin_management;
pub mod reconnect;
pub mod retention;
pub mod smart_text;
pub mod sorting;
pub mod str_map;
pub mod subtitle_document;
pub mod subtitle_preview;
pub mod subtitle_session;
pub mod subtitles;
pub mod text;
pub mod transcription;
pub mod translation;
pub mod translation_queue;
pub mod window_lifecycle;
pub mod setup;
pub mod settings;
