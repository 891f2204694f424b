pub mod api;
pub mod bank;
pub mod binding;
pub mod blueprint;
pub mod calibration;
pub mod catalog;
pub mod clock;
pub mod content;
pub mod cors;
pub mod crypto;
pub mod cutter;
pub mod deploy;
pub mod difficulty;
pub mod domain;
pub mod error;
pub mod exposure;
pub mod features;
pub mod generator;
pub mod item;
pub mod itemref;
pub mod likelihood;
pub mod mastery;
pub mod meta;
pub mod number;
pub mod replay;
pub mod round;
pub mod rounding;
pub mod rounds;
pub mod seed;
pub mod service;
pub mod session;
pub mod shell;
pub mod signature;
pub mod starter;
pub mod table;
pub mod text;
pub mod usage;
pub mod voxels;
pub mod wire;
