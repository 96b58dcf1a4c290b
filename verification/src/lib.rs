//! Privacy-preserving gateway for language-model inference.
//!
//! A client keeps its conversation and its memory to itself, redacts what it
//! sends, fits it into a token class and seals it for the gateway. A relay passes
//! envelopes on without reading them. The gateway opens an envelope, has its
//! ticket verified, reserves it durably, calls the model provider and answers in
//! an envelope again.
//!
//! Shared by all sides: [`token`], [`envelope`], [`types`], [`zk`], and below
//! them [`json`], [`crypto`], [`bytes`], [`text`] and [`clock`]. What the models of
//! their values say stands in [`views`].
//!
//! The gateway: [`admission`], [`gateway`], [`replay`], [`policy`], and the
//! verifiers [`actum`] and [`halo2`]. The relay: [`relay`].
//!
//! The client: [`agent`], with [`session`], [`redaction`], [`rehydration`], [`disclosure`],
//! [`memory_store`], [`prompt`], [`tickets`] and [`local_ai`], and around it
//! [`manager`], [`api`], [`repl`] and [`config`].

pub mod actum;
pub mod admission;
pub mod agent;
pub mod api;
pub mod bytes;
pub mod clock;
pub mod config;
pub mod crypto;
pub mod disclosure;
pub mod envelope;
pub mod gateway;
pub mod halo2;
pub mod json;
pub mod local_ai;
pub mod manager;
pub mod memory_store;
pub mod openapi;
pub mod policy;
pub mod prompt;
pub mod redaction;
pub mod rehydration;
pub mod relay;
pub mod repl;
pub mod replay;
pub mod session;
pub mod text;
pub mod tickets;
pub mod token;
pub mod types;
pub mod views;
pub mod zk;
