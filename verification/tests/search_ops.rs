use audio_palette::MatchResult;
use audio_palette::PaletteDatabase;
use audio_palette::ScoredSound;
use audio_palette::best_window;
use audio_palette::coarse_candidates;
use audio_palette::finalize_matches;
use audio_palette::find_similar;
use audio_palette::rank_candidates;
use audio_palette::window_starts;

fn bits(x: f64) -> u64 {
    x.to_bits()
}

fn scored(id: i64, score: f64) -> ScoredSound {
    ScoredSound { sound_id: id, score_bits: bits(score) }
}

#[test]
fn rank_filters_sorts_and_truncates() {
    let input = vec![
        scored(1, 40.0),
        scored(2, 91.5),
        scored(3, 75.0),
        scored(4, 99.9),
        scored(5, 75.0),
    ];
    let ranked = rank_candidates(&input, bits(50.0), 3);
    let ids: Vec<i64> = ranked.iter().map(|e| e.sound_id).collect();
    // 40.0 falls under the threshold; descending by score; the two matches
    // at 75.0 keep their first-seen order; capped at three entries.
    assert_eq!(ids, vec![4, 2, 3]);
}

#[test]
fn rank_keeps_first_seen_order_on_ties() {
    let input = vec![scored(10, 80.0), scored(11, 80.0), scored(12, 80.0)];
    let ranked = rank_candidates(&input, bits(0.0), 10);
    let ids: Vec<i64> = ranked.iter().map(|e| e.sound_id).collect();
    assert_eq!(ids, vec![10, 11, 12]);
}

#[test]
fn ranking_is_deterministic() {
    let input = vec![scored(1, 10.0), scored(2, 93.0), scored(3, 93.0), scored(4, 50.0)];
    let a = rank_candidates(&input, bits(20.0), 10);
    let b = rank_candidates(&input, bits(20.0), 10);
    assert_eq!(a.len(), b.len());
    for (x, y) in a.iter().zip(b.iter()) {
        assert_eq!(x.sound_id, y.sound_id);
        assert_eq!(x.score_bits, y.score_bits);
    }
}

fn sample_db() -> (PaletteDatabase, i64, i64) {
    let mut db = PaletteDatabase::open_in_memory().unwrap();
    let sine = db
        .add_sound(
            "/lib/sine_440.wav".to_string(),
            "sine_440.wav".to_string(),
            (1.0f64).to_bits(),
            44100,
            1,
            "wav".to_string(),
            "2024-01-01 00:00:00".to_string(),
        )
        .unwrap();
    let noise = db
        .add_sound(
            "/lib/noise.wav".to_string(),
            "noise.wav".to_string(),
            (2.0f64).to_bits(),
            44100,
            1,
            "wav".to_string(),
            "2024-01-02 00:00:00".to_string(),
        )
        .unwrap();
    (db, sine, noise)
}

#[test]
fn find_similar_builds_whole_file_matches() {
    let (db, sine, noise) = sample_db();
    // The caller scores each stored fingerprint against the query; the sine
    // resembles the query, the noise does not (a threshold-filter scenario).
    let scores = vec![scored(sine, 99.995), scored(noise, 41.0)];
    let matches = find_similar(&db, &scores, bits(90.0), 10).unwrap();
    assert_eq!(matches.len(), 1);
    let m = &matches[0];
    assert_eq!(m.sound_id, sine);
    assert_eq!(m.filepath, "/lib/sine_440.wav");
    assert_eq!(f64::from_bits(m.score_bits), 99.995);
    assert_eq!(f64::from_bits(m.match_start_bits), 0.0);
    assert_eq!(f64::from_bits(m.match_end_bits), 1.0);
    assert_eq!(f64::from_bits(m.file_duration_bits), 1.0);
}

#[test]
fn find_similar_on_empty_store_returns_nothing() {
    let db = PaletteDatabase::open_in_memory().unwrap();
    let matches = find_similar(&db, &Vec::new(), bits(50.0), 10).unwrap();
    assert!(matches.is_empty());
}

#[test]
fn find_similar_skips_sounds_missing_from_store() {
    let (db, sine, _) = sample_db();
    let scores = vec![scored(777, 95.0), scored(sine, 92.0)];
    let matches = find_similar(&db, &scores, bits(50.0), 10).unwrap();
    assert_eq!(matches.len(), 1);
    assert_eq!(matches[0].sound_id, sine);
}

#[test]
fn coarse_candidates_apply_slack_threshold_and_cap() {
    let mut db = PaletteDatabase::open_in_memory().unwrap();
    let mut scores = Vec::new();
    for i in 0..30 {
        let id = db
            .add_sound(
                format!("/f{i}.wav"),
                format!("f{i}.wav"),
                (1.0f64).to_bits(),
                44100,
                1,
                "wav".to_string(),
                "2024-01-01 00:00:00".to_string(),
            )
            .unwrap();
        scores.push(scored(id, 60.0 + i as f64));
    }
    // Threshold 80 with the 0.8 slack of the segmented search.
    let coarse = bits(80.0 * 0.8);
    let cands = coarse_candidates(&db, &scores, coarse).unwrap();
    assert_eq!(cands.len(), 20);
    for (_, score_bits) in &cands {
        assert!(f64::from_bits(*score_bits) >= 64.0);
    }
    // Best coarse score first.
    assert_eq!(f64::from_bits(cands[0].1), 89.0);
}

#[test]
fn window_starts_follow_quarter_window_hop() {
    // hop = max(40 / 4, (100 - 40) / 50) = 10.
    let starts = window_starts(100, 40);
    assert_eq!(starts, vec![0, 10, 20, 30, 40, 50, 60]);
}

#[test]
fn window_starts_stretch_hop_to_cap_window_count() {
    // hop = max(10, (10040 - 40) / 50) = 200: 51 evaluated windows.
    let starts = window_starts(10040, 40);
    assert_eq!(starts.len(), 51);
    assert_eq!(starts[0], 0);
    assert_eq!(starts[50], 10000);
}

#[test]
fn rms_frame_bounds_truncate_and_drop_short_frames() {
    // Frames of 2048 samples advanced by 512 over 1000 samples: both start
    // positions stay, truncated at the signal end.
    let bounds = audio_palette::rms_frame_bounds(1000, 2048, 512);
    assert_eq!(bounds, vec![(0, 1000), (512, 1000)]);
    // A lone frame shorter than 64 samples is dropped.
    assert_eq!(audio_palette::rms_frame_bounds(60, 2048, 512), vec![]);
    assert_eq!(audio_palette::rms_frame_bounds(0, 2048, 512), vec![]);
}

#[test]
fn frame_starts_cover_exactly_the_full_frames() {
    // start + 2048 <= 4096 for starts 0, 512, ..., 2048.
    let starts = audio_palette::frame_start_positions(4096, 2048, 512);
    assert_eq!(starts, vec![0, 512, 1024, 1536, 2048]);
    // A signal of exactly one frame yields one frame.
    assert_eq!(audio_palette::frame_start_positions(2048, 2048, 512), vec![0]);
    // A shorter signal yields none.
    assert_eq!(audio_palette::frame_start_positions(2047, 2048, 512), Vec::<usize>::new());
}

#[test]
fn best_window_takes_first_of_equal_scores() {
    let scores = vec![bits(10.0), bits(88.0), bits(88.0), bits(30.0)];
    let (best, at) = best_window(&scores);
    assert_eq!(f64::from_bits(best), 88.0);
    assert_eq!(at, Some(1));
}

#[test]
fn best_window_of_all_silent_windows_is_none() {
    let scores = vec![bits(0.0), bits(0.0)];
    let (best, at) = best_window(&scores);
    assert_eq!(best, 0);
    assert_eq!(at, None);
}

fn mk_match(id: i64, score: f64, start: f64, end: f64, dur: f64) -> MatchResult {
    MatchResult {
        sound_id: id,
        filepath: format!("/m{id}.wav"),
        filename: format!("m{id}.wav"),
        score_bits: bits(score),
        match_start_bits: bits(start),
        match_end_bits: bits(end),
        file_duration_bits: bits(dur),
    }
}

#[test]
fn finalize_matches_filters_sorts_and_truncates() {
    let results = vec![
        mk_match(1, 71.0, 0.0, 2.0, 10.0),
        mk_match(2, 95.0, 8.0, 10.0, 10.0),
        mk_match(3, 64.0, 1.0, 3.0, 12.0),
        mk_match(4, 88.0, 0.5, 2.5, 4.0),
    ];
    let fin = finalize_matches(&results, bits(70.0), 2);
    let ids: Vec<i64> = fin.iter().map(|m| m.sound_id).collect();
    assert_eq!(ids, vec![2, 4]);
    // Every surfaced match meets the query threshold (the refined-pass
    // guarantee of the two-pass search).
    for m in &fin {
        assert!(f64::from_bits(m.score_bits) >= 70.0);
    }
    // Segment bounds carried through untouched.
    assert_eq!(f64::from_bits(fin[0].match_start_bits), 8.0);
    assert_eq!(f64::from_bits(fin[0].match_end_bits), 10.0);
}

#[test]
fn queries_over_an_unchanged_store_are_identical() {
    let (db, sine, noise) = sample_db();
    let scores = vec![scored(sine, 97.0), scored(noise, 97.0)];
    let a = find_similar(&db, &scores, bits(50.0), 10).unwrap();
    let b = find_similar(&db, &scores, bits(50.0), 10).unwrap();
    assert_eq!(a.len(), b.len());
    for (x, y) in a.iter().zip(b.iter()) {
        assert_eq!(x.sound_id, y.sound_id);
        assert_eq!(x.score_bits, y.score_bits);
        assert_eq!(x.match_start_bits, y.match_start_bits);
        assert_eq!(x.match_end_bits, y.match_end_bits);
    }
}
