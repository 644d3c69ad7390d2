//! The history store of an interactive shell: identifiers, the JSON-lines record file and
//! its index, the in-memory store that merges new and file-backed items, and search.
pub mod history;
pub mod history_file;
pub mod id;
pub mod item;
pub mod json_doc;
pub mod lines;
pub mod paths;
pub mod record;
pub mod search;
pub mod text;
pub mod textmatch;
pub mod util;
pub mod yaml;

pub use history::History;
pub use history_file::HistoryFile;
pub use id::HistoryItemId;
pub use item::{HistoryItem, PersistenceMode, SearchDirection, SearchType};
pub use search::{HistorySearch, SearchFlags};
