pub mod director;
pub mod documents;
pub mod models;
pub mod numbers;
pub mod pptx;
pub mod reading;
pub mod shell;
pub mod speech;
pub mod text;
pub mod updates;
