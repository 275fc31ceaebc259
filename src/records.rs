//! Plain records of the serving side: episodes, speakers, page statistics.

use std::collections::{HashMap, HashSet};

use vstd::prelude::*;

verus! {

/// Metadata of one episode.
pub struct EpisodeMetadata {
    pub title: Option<String>,
    pub number: Option<u32>,
    pub date: Option<String>,
    pub duration: Option<Vec<u32>>,
    pub description: Option<String>,
    pub speakers: Option<Vec<String>>,
}

/// One entry of a podcast's speaker index.
pub struct SpeakerInfo {
    pub speaker: String,
    pub slug: String,
    pub episodes_count: u32,
    pub utterances_count: u32,
    pub total_words: u32,
    pub has_profile: bool,
    pub image: Option<String>,
}

/// Extra data about a speaker.
pub struct SpeakerMeta {
    pub image: Option<String>,
}

/// Episode metadata with the time (seconds since the epoch) it was loaded.
pub struct CachedEpisodeMetadata {
    pub metadata: EpisodeMetadata,
    pub loaded_at: u64,
}

/// A podcast's episode numbers with the time they were loaded.
pub struct CachedEpisodeList {
    pub episode_numbers: Vec<u32>,
    pub loaded_at: u64,
}

/// A speaker profile text with the time it was loaded.
pub struct CachedSpeakerProfile {
    pub content: String,
    pub loaded_at: u64,
}

/// A speaker index with the time it was loaded.
pub struct CachedSpeakersIndex {
    pub speakers: Vec<SpeakerInfo>,
    pub loaded_at: u64,
}

/// Speaker metadata with the time it was loaded.
pub struct CachedSpeakerMeta {
    pub meta: SpeakerMeta,
    pub loaded_at: u64,
}

/// For each episode the topics it covers, with the time they were loaded and
/// the database they came from.
pub struct CachedEpisodeTopicsMap {
    pub topics_map: HashMap<u32, HashSet<String>>,
    pub loaded_at: u64,
    pub rag_db_path: String,
}

/// Settings of the search backend.
pub struct RagSettings {
    pub auth_token: Option<String>,
    pub bind_addr: Option<String>,
}

/// A page view to record.
pub struct TrackRequest {
    pub path: String,
    pub route_name: Option<String>,
    pub podcast: Option<String>,
    pub episode: Option<String>,
    pub referrer: Option<String>,
    pub user_agent: Option<String>,
}

pub struct TrackResponse {
    pub success: bool,
}

/// An episode play to record.
pub struct TrackEpisodePlayRequest {
    pub podcast: String,
    pub episode: String,
    pub user_agent: Option<String>,
}

pub struct PageStats {
    pub path: String,
    pub route_name: Option<String>,
    pub views: i64,
    pub unique_users: i64,
}

pub struct PodcastStats {
    pub podcast: String,
    pub views: i64,
    pub unique_users: i64,
}

pub struct EpisodeStats {
    pub podcast: String,
    pub episode: String,
    pub views: i64,
    pub unique_users: i64,
}

pub struct StatsQuery {
    pub days: Option<i64>,
}

pub struct TestDataQuery {
    pub count: Option<usize>,
}

/// A question to the chat endpoint.
pub struct ChatRequest {
    pub query: String,
    pub top_k: Option<usize>,
    pub speaker_slug: Option<String>,
    pub speaker_slug2: Option<String>,
    pub podcast_id: Option<String>,
}

/// A transcript: its entries in order.
pub struct TranscriptFile {
    pub transcript: Vec<TranscriptEntry>,
}

pub struct TranscriptEntry {
    pub speaker: Option<String>,
    pub time: String,
    pub text: String,
}

/// A cached value loaded at `cached_time` is still good for a file last
/// modified at `file_mtime`.
pub fn is_cache_valid(cached_time: u64, file_mtime: u64) -> (r: bool)
    ensures
        r == (file_mtime <= cached_time),
{
    file_mtime <= cached_time
}

/// The display name of the speaker with this slug in the index; the first
/// match, or `None` when no speaker has it.
pub fn get_speaker_name_from_slug(index: &Vec<SpeakerInfo>, slug: &String) -> (r: Option<String>)
    ensures
        r is None <==> forall|i: int| 0 <= i < index@.len() ==> #[trigger] index@[i].slug@ != slug@,
        r is Some ==> exists|i: int|
            0 <= i < index@.len() && #[trigger] index@[i].slug@ == slug@ && r->Some_0@ == index@[i].speaker@ && forall|j: int|
                0 <= j < i ==> index@[j].slug@ != slug@,
{
    let mut i: usize = 0;
    while i < index.len()
        invariant
            i <= index@.len(),
            forall|j: int| 0 <= j < i ==> #[trigger] index@[j].slug@ != slug@,
        decreases index@.len() - i,
    {
        if index[i].slug == *slug {
            let name = index[i].speaker.clone();
            return Some(name);
        }
        i = i + 1;
    }
    None
}

} // verus!
