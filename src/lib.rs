//! Clipboard history core: a deduplicating ledger of captures (`history`),
//! register aliases kept consistent with it (`registry`), the visible list
//! with its selection and key handling (`view`, `keys`), fuzzy-search
//! ranking (`search_index`) and the decoded-image cache (`image_cache`).

pub mod clip;
pub mod history;
pub mod registry;
pub mod config;
pub mod storage;
pub mod image_cache;
pub mod search_index;
pub mod view;
pub mod logging;
pub mod keys;
