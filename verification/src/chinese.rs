//! Chinese characters and what is known of them.
pub mod components;
pub mod data;
pub mod error;
pub mod factor;
pub mod han;
pub mod laws;
pub mod pinyin;
pub mod pinyin_laws;
pub mod source_laws;
pub mod spell;
pub mod strokes;
pub mod template;
pub mod words;

pub use crate::chinese::data::ChineseData;
pub use crate::chinese::error::{ChineseDataError, PinyinPatternError, WordTemplateError};
pub use crate::chinese::han::is_han;
