//! Search over a tree, in which selection, expansion, evaluation and backpropagation
//! follow each other as separate tasks.
pub mod value;
pub mod tree;
pub mod ascii;
pub mod param;
pub mod select;
pub mod event;
pub mod backprop;
pub mod decision;
pub mod expand;
pub mod proofs;
pub mod shared;
pub mod complete;
pub mod walk;
pub mod batch;
pub mod publish;
pub mod answer;
pub mod reply;
pub mod evaluate;
pub mod run;
pub mod observer;
