//! Table Canon: finding the right entry of a campaign's canon while the players are waiting.
//!
//! Documents are cut into entries, entries are stored, and what a player says is turned into a
//! search for them. This library holds the rules of all that:
//!
//! - `formats` and `ingest` turn the bytes of a file into blocks and blocks into drafts;
//! - `segment`, `entries`, `cuts` and `split` refine long chapters into entries, with proposals of
//!   a language model put back onto the source text; `llm` says how the model is asked;
//! - `normalize`, `pinyin_idx` and `terms` turn what is typed into search terms;
//! - `search` says how the index is asked and how what was found is ranked; `embed` how texts are
//!   cut for encoding; `likeness` how alike two texts are;
//! - `db` holds the rules of the store: what is imported, how corrections come back, what players
//!   may see;
//! - `desktop` holds what the window shows.
//!
//! Files, the database, the network and the window are the program's own; it hands plain values
//! to this library and takes plain values back. Everything is stated over texts as sequences of
//! characters (`text`, `scan`, `number`, `offsets`, `order`). Calls into other crates stand in
//! `outside`, each with what is relied on.
pub mod cuts;
pub mod db;
pub mod desktop;
pub mod embed;
pub mod entries;
pub mod formats;
pub mod ingest;
pub mod likeness;
pub mod llm;
pub mod normalize;
pub mod number;
pub mod offsets;
pub mod order;
pub mod outside;
pub mod pinyin_idx;
pub mod scan;
pub mod search;
pub mod segment;
pub mod split;
pub mod terms;
pub mod text;
pub mod types;

pub use db::ImportOpts;
pub use llm::LlmConfig;
pub use split::{materialize_entries, parse_entries_json, EntrySplitter};
pub use types::{
    Block, Chunk, ChunkDetail, DraftChunk, ExtractedEntry, ImportReport, MetaPatch, StoreInfo, APP_ID,
    SCHEMA_VERSION, VIS_DM_ONLY, VIS_HIDDEN, VIS_PUBLIC, VIS_SECRET,
};
