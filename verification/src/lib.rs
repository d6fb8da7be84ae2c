//! Audio palette: a library that indexes audio files by content-derived
//! feature vectors ("fingerprints") and answers similarity queries that
//! localize the best-matching time range inside each indexed file.
//!
//! The verified core covers the palette store (sound records and fingerprint
//! payloads), the ranking and truncation of similarity scores, the sliding
//! window plan of the segment search, the frame layout shared by the feature
//! extractors, and the construction of the MIDI export. Audio decoding and
//! the floating-point feature extraction are left to the host layer, which
//! hands this library plain values.

mod api;
mod error;
mod frames;
mod midi;
mod rank;
mod search;
mod sorting;
mod store;
mod text;

pub use api::add_sound;
pub use api::remove_sound;
pub use error::AudioPaletteError;
pub use frames::SpectralExtractor;
pub use frames::frame_start_positions;
pub use frames::rms_frame_bounds;
pub use frames::rms_frames;
pub use frames::start_count;
pub use rank::ScoredSound;
pub use rank::rank_candidates;
pub use midi::MatchTiming;
pub use midi::MidiExportConfig;
pub use midi::NoteEvent;
pub use midi::export_matches_to_midi;
pub use search::MatchResult;
pub use search::MatchResultView;
pub use search::find_similar;
pub use search::build_whole_file_matches;
pub use search::best_window;
pub use search::coarse_candidates;
pub use search::finalize_matches;
pub use search::window_starts;
pub use store::PaletteDatabase;
pub use store::SoundRecord;
pub use store::SoundRecordView;
pub use text::filename_of_path;
pub use text::str_le;
pub use text::str_contains_ci;

pub use midi::lemma_note_event_ranges;
pub use midi::midi_encoding;
pub use midi::note_of;
pub use midi::plan_notes;
pub use midi::track_cap;
pub use rank::insert_ranked;
pub use rank::lemma_rank_by_score_multiset;
pub use rank::lemma_rank_by_score_sorted;
pub use rank::lemma_ranked_candidates_props;
pub use rank::rank_by_score;
pub use rank::ranked_candidates;
pub use rank::sorted_desc;
pub use rank::truncated;
pub use search::best_index;
pub use search::best_score;
pub use search::candidate_pairs;
pub use search::finalized_matches;
pub use search::index_scored;
pub use search::lemma_best_window_props;
pub use search::lemma_finalized_matches_meet_threshold;
pub use search::lemma_two_pass_scores;
pub use search::is_coarse_candidate;
pub use search::lemma_whole_file_match_bounds;
pub use search::match_of;
pub use search::whole_file_matches;
pub use search::window_hop;
pub use sorting::insert_record;
pub use sorting::sort_records;
pub use sorting::sorted_records_by;
pub use store::date_desc_keeps;
pub use store::filename_asc_keeps;
pub use store::filtered_by_name;
pub use store::has_filepath;
pub use store::has_fingerprint_id;
pub use store::has_sound_id;
pub use store::lemma_fingerprint_round_trip;
pub use store::lemma_name_search_props;
pub use store::lemma_sound_round_trip;
pub use store::lemma_sounds_by_date_desc_props;
pub use store::name_search_results;
pub use store::sound_at;
pub use store::sounds_by_date_desc;
pub use text::after_last_slash;
pub use text::chars_le;
pub use text::ci_match_at;
pub use text::contains_ci;
pub use text::filename_view;
pub use text::format_token;
pub use text::format_token_of_path;
pub use text::after_last_dot;
pub use text::has_extension;
pub use text::lower_char;
pub use text::lower_chars;
pub use text::lemma_chars_le_total;
pub use text::lemma_chars_le_trans;
pub use text::lower_code;
