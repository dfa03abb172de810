//! A reader for Microsoft Project `.mpp` files, the format of Project 2010 and later (MPP14).
#![allow(unused_imports)]

pub mod calendar;
pub mod container;
pub mod dates;
pub mod fixed;
pub mod laws;
pub mod model;
pub mod mpp14;
pub mod order;
pub mod tasks;
pub mod text;
pub mod utf16;
pub mod util;
pub mod var;
