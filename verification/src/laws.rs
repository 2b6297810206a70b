//! What the operations are for, in terms of the text they are given and of what comes of it.

pub mod blocks;
pub mod columns;
pub mod definitions;
pub mod delimiters;
pub mod entities;
pub mod flow;
pub mod html;
pub mod labels;
pub mod leaves;
pub mod lines;
pub mod links;
pub mod lists;
pub mod matter;
pub mod notes;
pub mod shapes;
pub mod starts;
pub mod tables;
pub mod tasks;
pub mod texts;
pub mod titles;
pub mod words;
