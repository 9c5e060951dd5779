//! Context Pack schema vocabulary and compiler stages, verified.

pub mod accounting;
pub mod budget;
pub mod causal;
pub mod compile;
pub mod correspondence;
pub mod dependence;
pub mod event;
pub mod expansion;
pub mod guarantee;
pub mod json;
pub mod minimality;
pub mod monitor;
pub mod name;
pub mod observer;
pub mod omission;
pub mod pack;
pub mod proof_slicing;
pub mod property;
pub mod scope;
pub mod selection;
pub mod text;
