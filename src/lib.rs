// Per-key fade lighting for keyboards driven through a lighting-controller server.
//
// config       user settings and the base color
// fade         the per-LED fade state machine and one frame of the fade effect
// hid          decoding raw input reports, input device paths
// key_mappings the key-code to LED mapping and its file format
// text         the string operations taken from std
// connection   backoff between connection attempts
// worker       the lifecycle of one device worker
// registry     the controllers that currently have a worker
// calibration  recording a mapping one LED at a time
pub mod calibration;
pub mod config;
pub mod connection;
pub mod fade;
pub mod hid;
pub mod key_mappings;
pub mod registry;
pub mod text;
pub mod worker;
