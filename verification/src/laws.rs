//! What holds of the reader as a whole.

pub mod encoding;
pub mod changes;
pub mod frames;
pub mod tables;
pub mod sections;
pub mod readable;
pub mod blocks;
pub mod entries;
pub mod hierarchy;
pub mod unpacking;
pub mod written;
pub mod refusals;
pub mod files;
pub mod scanning;
pub mod signals;
pub mod ranges;
pub mod latest;
pub mod recent;
pub mod boundary;
pub mod points;
pub mod views;
