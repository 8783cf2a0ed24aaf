//! The data that the library works on, and the mathematical values it stands for.
use crate::text::texts;
use vstd::prelude::*;

verus! {

/// Visible to the players.
pub const VIS_PUBLIC: i64 = 1;

/// For the game master only.
pub const VIS_DM_ONLY: i64 = 2;

/// A secret.
pub const VIS_SECRET: i64 = 4;

/// Hidden from the players.
pub const VIS_HIDDEN: i64 = 8;

/// The application identifier of a store file ("TCS1").
pub const APP_ID: i64 = 0x5443_5331;

/// The version of the store layout that this library writes.
pub const SCHEMA_VERSION: i32 = 2;

/// A campaign store in numbers.
#[derive(Debug, Clone)]
pub struct StoreInfo {
    pub campaign_id: i64,
    pub campaign_name: String,
    pub chunk_count: i64,
    pub semantic_ready: bool,
}

/// An entry of the store.
#[derive(Debug)]
pub struct Chunk {
    pub id: i64,
    pub source_document_id: i64,
    pub stable_key: String,
    pub ordinal: i64,
    pub entity_type: String,
    pub title: String,
    pub body: String,
    pub parent_path: String,
    pub visibility: i64,
    pub aliases: Vec<String>,
    pub source_rank: i64,
    pub file_name: String,
}

/// An entry with its neighbours in the source document.
#[derive(Debug, Clone)]
pub struct ChunkDetail {
    pub chunk: Chunk,
    pub prev_id: Option<i64>,
    pub next_id: Option<i64>,
}

/// What an import did.
#[derive(Debug, Clone)]
pub struct ImportReport {
    pub files_ok: usize,
    pub files_skip: usize,
    pub files_fail: usize,
    pub chunks: usize,
    pub unmatched_corrections: usize,
    pub errors: Vec<String>,
    pub warnings: Vec<String>,
}

/// Changes to the metadata of an entry; what is `None` stays.
#[derive(Debug, Clone)]
pub struct MetaPatch {
    pub entity_type: Option<String>,
    pub visibility: Option<i64>,
    pub aliases: Option<Vec<String>>,
}

/// An entry before it is stored.
#[derive(Debug)]
pub struct DraftChunk {
    pub stable_key: String,
    pub alt_anchor: String,
    pub ordinal: i64,
    pub entity_type: String,
    pub title: String,
    pub body: String,
    pub parent_path: String,
    pub visibility: i64,
    pub aliases: Vec<String>,
    pub content_hash: String,
}

/// A stretch of a document under one heading.
#[derive(Debug)]
pub struct Block {
    pub heading_level: u8,
    pub title: String,
    pub text: String,
}

/// An entry as a splitter proposes it. `start` and `end` are segment numbers, negative when they
/// are not given.
#[derive(Debug)]
pub struct ExtractedEntry {
    pub title: String,
    pub aliases: Vec<String>,
    pub entity_type: String,
    pub body: String,
    pub anchor: String,
    pub start: i64,
    pub end: i64,
    pub heading_level: u8,
}

// ---------------------------------------------------------------------------------------------
// Mathematical values
// ---------------------------------------------------------------------------------------------

/// A block as a mathematical value.
#[verifier::ext_equal]
pub struct BlockView {
    pub heading_level: int,
    pub title: Seq<char>,
    pub text: Seq<char>,
}

/// A proposed entry as a mathematical value.
#[verifier::ext_equal]
pub struct EntryView {
    pub title: Seq<char>,
    pub aliases: Seq<Seq<char>>,
    pub entity_type: Seq<char>,
    pub body: Seq<char>,
    pub anchor: Seq<char>,
    pub start: int,
    pub end: int,
    pub heading_level: int,
}

/// A draft as a mathematical value.
#[verifier::ext_equal]
pub struct DraftView {
    pub stable_key: Seq<char>,
    pub alt_anchor: Seq<char>,
    pub ordinal: int,
    pub entity_type: Seq<char>,
    pub title: Seq<char>,
    pub body: Seq<char>,
    pub parent_path: Seq<char>,
    pub visibility: int,
    pub aliases: Seq<Seq<char>>,
    pub content_hash: Seq<char>,
}

/// A stored entry as a mathematical value.
#[verifier::ext_equal]
pub struct ChunkView {
    pub id: int,
    pub source_document_id: int,
    pub stable_key: Seq<char>,
    pub ordinal: int,
    pub entity_type: Seq<char>,
    pub title: Seq<char>,
    pub body: Seq<char>,
    pub parent_path: Seq<char>,
    pub visibility: int,
    pub aliases: Seq<Seq<char>>,
    pub source_rank: int,
    pub file_name: Seq<char>,
}

impl View for Block {
    type V = BlockView;

    open spec fn view(&self) -> BlockView {
        BlockView {
            heading_level: self.heading_level as int,
            title: self.title@,
            text: self.text@,
        }
    }
}

impl View for ExtractedEntry {
    type V = EntryView;

    open spec fn view(&self) -> EntryView {
        EntryView {
            title: self.title@,
            aliases: texts(self.aliases@),
            entity_type: self.entity_type@,
            body: self.body@,
            anchor: self.anchor@,
            start: self.start as int,
            end: self.end as int,
            heading_level: self.heading_level as int,
        }
    }
}

impl View for DraftChunk {
    type V = DraftView;

    open spec fn view(&self) -> DraftView {
        DraftView {
            stable_key: self.stable_key@,
            alt_anchor: self.alt_anchor@,
            ordinal: self.ordinal as int,
            entity_type: self.entity_type@,
            title: self.title@,
            body: self.body@,
            parent_path: self.parent_path@,
            visibility: self.visibility as int,
            aliases: texts(self.aliases@),
            content_hash: self.content_hash@,
        }
    }
}

impl View for Chunk {
    type V = ChunkView;

    open spec fn view(&self) -> ChunkView {
        ChunkView {
            id: self.id as int,
            source_document_id: self.source_document_id as int,
            stable_key: self.stable_key@,
            ordinal: self.ordinal as int,
            entity_type: self.entity_type@,
            title: self.title@,
            body: self.body@,
            parent_path: self.parent_path@,
            visibility: self.visibility as int,
            aliases: texts(self.aliases@),
            source_rank: self.source_rank as int,
            file_name: self.file_name@,
        }
    }
}

/// The values of a sequence of blocks.
pub open spec fn block_views(v: Seq<Block>) -> Seq<BlockView> {
    Seq::new(v.len(), |i: int| v[i]@)
}

/// The values of a sequence of proposed entries.
pub open spec fn entry_views(v: Seq<ExtractedEntry>) -> Seq<EntryView> {
    Seq::new(v.len(), |i: int| v[i]@)
}

/// The values of a sequence of drafts.
pub open spec fn draft_views(v: Seq<DraftChunk>) -> Seq<DraftView> {
    Seq::new(v.len(), |i: int| v[i]@)
}

impl Clone for Block {
    fn clone(&self) -> (r: Self)
        ensures
            r@ == self@,
    {
        Block {
            heading_level: self.heading_level,
            title: self.title.clone(),
            text: self.text.clone(),
        }
    }
}

impl Clone for ExtractedEntry {
    fn clone(&self) -> (r: Self)
        ensures
            r@ == self@,
    {
        let aliases = self.aliases.clone();
        assert(texts(aliases@) =~= texts(self.aliases@));
        ExtractedEntry {
            title: self.title.clone(),
            aliases,
            entity_type: self.entity_type.clone(),
            body: self.body.clone(),
            anchor: self.anchor.clone(),
            start: self.start,
            end: self.end,
            heading_level: self.heading_level,
        }
    }
}

impl Clone for DraftChunk {
    fn clone(&self) -> (r: Self)
        ensures
            r@ == self@,
    {
        let aliases = self.aliases.clone();
        assert(texts(aliases@) =~= texts(self.aliases@));
        DraftChunk {
            stable_key: self.stable_key.clone(),
            alt_anchor: self.alt_anchor.clone(),
            ordinal: self.ordinal,
            entity_type: self.entity_type.clone(),
            title: self.title.clone(),
            body: self.body.clone(),
            parent_path: self.parent_path.clone(),
            visibility: self.visibility,
            aliases,
            content_hash: self.content_hash.clone(),
        }
    }
}

impl Clone for Chunk {
    fn clone(&self) -> (r: Self)
        ensures
            r@ == self@,
    {
        let aliases = self.aliases.clone();
        assert(texts(aliases@) =~= texts(self.aliases@));
        Chunk {
            id: self.id,
            source_document_id: self.source_document_id,
            stable_key: self.stable_key.clone(),
            ordinal: self.ordinal,
            entity_type: self.entity_type.clone(),
            title: self.title.clone(),
            body: self.body.clone(),
            parent_path: self.parent_path.clone(),
            visibility: self.visibility,
            aliases,
            source_rank: self.source_rank,
            file_name: self.file_name.clone(),
        }
    }
}

impl Default for ImportReport {
    fn default() -> (r: Self)
        ensures
            r.files_ok == 0 && r.files_skip == 0 && r.files_fail == 0,
            r.chunks == 0 && r.unmatched_corrections == 0,
            r.errors@.len() == 0 && r.warnings@.len() == 0,
    {
        ImportReport {
            files_ok: 0,
            files_skip: 0,
            files_fail: 0,
            chunks: 0,
            unmatched_corrections: 0,
            errors: Vec::new(),
            warnings: Vec::new(),
        }
    }
}

impl Default for MetaPatch {
    fn default() -> (r: Self)
        ensures
            r.entity_type is None && r.visibility is None && r.aliases is None,
    {
        MetaPatch { entity_type: None, visibility: None, aliases: None }
    }
}

} // verus!
