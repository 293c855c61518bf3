//! A programmer for S3 microcontrollers, verified with Verus.
//!
//! An Intel HEX file uploaded over the web is read into memory (`upload`, `record`, `hex`),
//! its records are walked to decide which blocks go where (`program`), and each command is
//! turned into the exact sequence of operations on the target's programming lines (`wire`,
//! `commands`). `text` and `signal` state what reading well-formed files yields and what the
//! target sees on its lines.
pub mod hex;
pub mod record;
pub mod upload;
pub mod wire;
pub mod signal;
pub mod program;
pub mod text;
pub mod commands;
