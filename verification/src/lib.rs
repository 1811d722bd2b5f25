//! Verified core of FrameGen Manager: the rules that decide what to deploy,
//! what to back up, which proxy entry to use, and how upstream files are
//! parsed, all stated as contracts over plain values.

pub mod text;
pub mod scan;
pub mod util;
pub mod deploy;
pub mod flow;
pub mod files;
pub mod roundtrip;
pub mod anticheat;
pub mod paths;
pub mod pe;
pub mod gpu;
pub mod update;
pub mod verify;
pub mod importer;
pub mod log;
