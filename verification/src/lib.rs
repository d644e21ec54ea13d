//! Resolution and installation of named, versioned software artifacts.
//!
//! An [`artifact::Artifact`] describes how one product is obtained. A
//! [`registry::Registry`] maps names to such descriptions, [`resolve`] turns a
//! set of requests into an installation order with dependencies first, and
//! [`installer::Installer`] walks that order against a
//! [`manifest::Manifest`] of what is already installed. What holds of every
//! resolution is proved in [`laws`], and [`manifest_text`] writes the
//! records of a manifest as lines of text and reads them back.

pub mod artifact;
pub mod commands;
pub mod error;
pub mod installer;
pub mod laws;
pub mod manifest;
pub mod manifest_text;
pub mod movement;
pub mod registry;
pub mod resolve;
