//! Verified core of the MovieBox web front end: URL screening, playlist
//! handling, download-job bookkeeping, the decisions of the HTTP endpoints
//! and download workers, signed sessions, and recommendation scoring.

pub mod text;
pub mod strmap;
pub mod urls;
pub mod ssrf;
pub mod hls;
pub mod playlist;
pub mod jobs;
pub mod progress;
pub mod auth;
pub mod recs;
pub mod web;
