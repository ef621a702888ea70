//! Work-time logging core: conversion between the tracker's structured
//! comment documents and editable markdown-like text, parsing of human
//! durations and clock times, and the weekly aggregation of time entries.

pub mod calendar;
pub mod categories;
pub mod clock;
pub mod config;
pub mod document;
pub mod duration;
pub mod markdown;
pub mod model;
pub mod numbers;
pub mod render;
pub mod roundtrip;
pub mod spans;
pub mod text;
pub mod week;
