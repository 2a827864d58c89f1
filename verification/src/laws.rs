//! What the operations of the library are for, told of their inputs and results alone.

pub mod chapters;
pub mod children;
pub mod compiling;
pub mod contents;
pub mod definitions;
pub mod devices;
pub mod export;
pub mod extraction;
pub mod finding;
pub mod lines;
pub mod marks;
pub mod markup;
pub mod names;
pub mod notes;
pub mod numbers;
pub mod outline;
pub mod package;
pub mod paths;
pub mod rows;
pub mod samples;
pub mod screen;
pub mod shelf;
pub mod styles;
pub mod texts;
pub mod values;
pub mod verse;
pub mod vocabulary;
