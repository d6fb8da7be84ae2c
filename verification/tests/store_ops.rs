use audio_palette::AudioPaletteError;
use audio_palette::PaletteDatabase;

#[test]
fn test_database_operations() {
    let mut db = PaletteDatabase::open_in_memory().unwrap();

    // Add sound
    let id = db
        .add_sound(
            "/test/sound.wav".to_string(),
            "sound.wav".to_string(),
            (1.5f64).to_bits(),
            44100,
            2,
            "wav".to_string(),
            "2024-01-01 00:00:00".to_string(),
        )
        .unwrap();
    assert!(id > 0);

    // Get sound
    let sound = db.get_sound(id).unwrap().unwrap();
    assert_eq!(sound.filename, "sound.wav");

    // Search
    let results = db.search("sound").unwrap();
    assert_eq!(results.len(), 1);

    // Count
    assert_eq!(db.count().unwrap(), 1);

    // Remove
    db.remove_sound(id).unwrap();
    assert_eq!(db.count().unwrap(), 0);
}

#[test]
fn add_sound_is_insert_or_ignore() {
    let mut db = PaletteDatabase::open_in_memory().unwrap();
    let first = db
        .add_sound(
            "/a/kick.wav".to_string(),
            "kick.wav".to_string(),
            (0.25f64).to_bits(),
            48000,
            1,
            "wav".to_string(),
            "2024-01-01 00:00:00".to_string(),
        )
        .unwrap();
    let again = db
        .add_sound(
            "/a/kick.wav".to_string(),
            "other-name.wav".to_string(),
            (9.0f64).to_bits(),
            22050,
            2,
            "flac".to_string(),
            "2024-06-01 00:00:00".to_string(),
        )
        .unwrap();
    assert_eq!(first, again);
    assert_eq!(db.count().unwrap(), 1);
    // The first registration is untouched.
    let sound = db.get_sound(first).unwrap().unwrap();
    assert_eq!(sound.filename, "kick.wav");
    assert_eq!(sound.sample_rate, 48000);
}

#[test]
fn ids_are_never_reused() {
    let mut db = PaletteDatabase::open_in_memory().unwrap();
    let a = db
        .add_sound(
            "/a.wav".to_string(),
            "a.wav".to_string(),
            (1.0f64).to_bits(),
            44100,
            1,
            "wav".to_string(),
            "2024-01-01 00:00:00".to_string(),
        )
        .unwrap();
    db.remove_sound(a).unwrap();
    let b = db
        .add_sound(
            "/b.wav".to_string(),
            "b.wav".to_string(),
            (1.0f64).to_bits(),
            44100,
            1,
            "wav".to_string(),
            "2024-01-01 00:00:01".to_string(),
        )
        .unwrap();
    assert!(b > a);
    assert!(db.get_sound(a).unwrap().is_none());
}

#[test]
fn sound_round_trip_preserves_fields() {
    let mut db = PaletteDatabase::open_in_memory().unwrap();
    let dur = 2.7182818_f64;
    let id = db
        .add_sound(
            "/samples/bell.flac".to_string(),
            "bell.flac".to_string(),
            dur.to_bits(),
            96000,
            2,
            "flac".to_string(),
            "2023-11-30 12:34:56".to_string(),
        )
        .unwrap();
    let s = db.get_sound(id).unwrap().unwrap();
    assert_eq!(s.id, id);
    assert_eq!(s.filepath, "/samples/bell.flac");
    assert_eq!(s.filename, "bell.flac");
    assert_eq!(f64::from_bits(s.duration_bits), dur);
    assert_eq!(s.sample_rate, 96000);
    assert_eq!(s.channels, 2);
    assert_eq!(s.format, "flac");
    assert_eq!(s.date_added, "2023-11-30 12:34:56");
}

#[test]
fn fingerprint_round_trip_and_replace() {
    let mut db = PaletteDatabase::open_in_memory().unwrap();
    let id = db
        .add_sound(
            "/a.wav".to_string(),
            "a.wav".to_string(),
            (1.0f64).to_bits(),
            44100,
            1,
            "wav".to_string(),
            "2024-01-01 00:00:00".to_string(),
        )
        .unwrap();
    assert!(db.get_fingerprint(id).unwrap().is_none());
    db.store_fingerprint(id, "{\"mfcc_mean\":[1.0,2.0]}".to_string()).unwrap();
    assert_eq!(db.get_fingerprint(id).unwrap().unwrap(), "{\"mfcc_mean\":[1.0,2.0]}");
    // Insert-or-replace: a second store overwrites the payload.
    db.store_fingerprint(id, "{\"mfcc_mean\":[3.0]}".to_string()).unwrap();
    assert_eq!(db.get_fingerprint(id).unwrap().unwrap(), "{\"mfcc_mean\":[3.0]}");
}

#[test]
fn remove_sound_cascades_to_fingerprint() {
    let mut db = PaletteDatabase::open_in_memory().unwrap();
    let id = db
        .add_sound(
            "/a.wav".to_string(),
            "a.wav".to_string(),
            (1.0f64).to_bits(),
            44100,
            1,
            "wav".to_string(),
            "2024-01-01 00:00:00".to_string(),
        )
        .unwrap();
    db.store_fingerprint(id, "payload".to_string()).unwrap();
    db.remove_sound(id).unwrap();
    assert!(db.get_fingerprint(id).unwrap().is_none());
    assert_eq!(db.count().unwrap(), 0);
}

#[test]
fn get_all_fingerprints_is_ordered_by_id() {
    let mut db = PaletteDatabase::open_in_memory().unwrap();
    db.store_fingerprint(7, "seven".to_string()).unwrap();
    db.store_fingerprint(3, "three".to_string()).unwrap();
    db.store_fingerprint(5, "five".to_string()).unwrap();
    let all = db.get_all_fingerprints().unwrap();
    let ids: Vec<i64> = all.iter().map(|p| p.0).collect();
    assert_eq!(ids, vec![3, 5, 7]);
    assert_eq!(all[0].1, "three");
}

#[test]
fn get_all_sounds_orders_by_date_descending() {
    let mut db = PaletteDatabase::open_in_memory().unwrap();
    for (path, date) in [
        ("/one.wav", "2024-03-01 00:00:00"),
        ("/two.wav", "2024-01-01 00:00:00"),
        ("/three.wav", "2024-02-01 00:00:00"),
        ("/four.wav", "2024-01-01 00:00:00"),
    ] {
        db.add_sound(
            path.to_string(),
            path.trim_start_matches('/').to_string(),
            (1.0f64).to_bits(),
            44100,
            1,
            "wav".to_string(),
            date.to_string(),
        )
        .unwrap();
    }
    let all = db.get_all_sounds().unwrap();
    let names: Vec<&str> = all.iter().map(|s| s.filename.as_str()).collect();
    // Newest first; the two equal dates keep their insertion order.
    assert_eq!(names, vec!["one.wav", "three.wav", "two.wav", "four.wav"]);
}

#[test]
fn search_is_case_insensitive_and_ordered_by_name() {
    let mut db = PaletteDatabase::open_in_memory().unwrap();
    for (path, name) in [
        ("/x/Zulu-Kick.wav", "Zulu-Kick.wav"),
        ("/x/snare.wav", "snare.wav"),
        ("/x/AcousticKICK.flac", "AcousticKICK.flac"),
    ] {
        db.add_sound(
            path.to_string(),
            name.to_string(),
            (1.0f64).to_bits(),
            44100,
            1,
            "wav".to_string(),
            "2024-01-01 00:00:00".to_string(),
        )
        .unwrap();
    }
    let hits = db.search("kick").unwrap();
    let names: Vec<&str> = hits.iter().map(|s| s.filename.as_str()).collect();
    assert_eq!(names, vec!["AcousticKICK.flac", "Zulu-Kick.wav"]);
    assert!(db.search("bongo").unwrap().is_empty());
}

#[test]
fn api_add_sound_derives_filename_and_stores_payload() {
    let mut db = PaletteDatabase::open_in_memory().unwrap();
    let id = audio_palette::add_sound(
        &mut db,
        "/music/loops/groove.wav".to_string(),
        (4.0f64).to_bits(),
        44100,
        2,
        "2024-05-05 10:00:00".to_string(),
        "fp-payload".to_string(),
    )
    .unwrap();
    let s = db.get_sound(id).unwrap().unwrap();
    assert_eq!(s.filename, "groove.wav");
    assert_eq!(s.format, "wav");
    assert_eq!(db.get_fingerprint(id).unwrap().unwrap(), "fp-payload");
    audio_palette::remove_sound(&mut db, id).unwrap();
    assert!(db.get_sound(id).unwrap().is_none());
    assert!(db.get_fingerprint(id).unwrap().is_none());
}

#[test]
fn add_sound_never_returns_database_error_on_fresh_ids() {
    let mut db = PaletteDatabase::open_in_memory().unwrap();
    let r = db.add_sound(
        "/ok.wav".to_string(),
        "ok.wav".to_string(),
        0,
        8000,
        1,
        "wav".to_string(),
        "2024-01-01 00:00:00".to_string(),
    );
    assert!(!matches!(r, Err(AudioPaletteError::DatabaseError(_))));
    assert_eq!(r.unwrap(), 1);
}

#[test]
fn restore_sound_keeps_persisted_ids_and_consumes_them() {
    let mut db = PaletteDatabase::open_in_memory().unwrap();
    // A reloaded palette with a gap: rows arrive in id order.
    db.restore_sound(
        2,
        "/a.wav".to_string(),
        "a.wav".to_string(),
        (1.0f64).to_bits(),
        44100,
        1,
        "wav".to_string(),
        "2024-01-01 00:00:00".to_string(),
    )
    .unwrap();
    db.restore_sound(
        5,
        "/b.wav".to_string(),
        "b.wav".to_string(),
        (2.0f64).to_bits(),
        44100,
        1,
        "wav".to_string(),
        "2024-01-02 00:00:00".to_string(),
    )
    .unwrap();
    assert_eq!(db.get_sound(2).unwrap().unwrap().filename, "a.wav");
    assert_eq!(db.get_sound(5).unwrap().unwrap().filename, "b.wav");
    // An id at or below one already handed out is refused.
    let r = db.restore_sound(
        5,
        "/c.wav".to_string(),
        "c.wav".to_string(),
        0,
        44100,
        1,
        "wav".to_string(),
        "2024-01-03 00:00:00".to_string(),
    );
    assert!(matches!(r, Err(AudioPaletteError::DatabaseError(_))));
    // Fresh registrations continue above the restored ids.
    let fresh = db
        .add_sound(
            "/d.wav".to_string(),
            "d.wav".to_string(),
            0,
            44100,
            1,
            "wav".to_string(),
            "2024-01-04 00:00:00".to_string(),
        )
        .unwrap();
    assert_eq!(fresh, 6);
}

#[test]
fn mark_ids_used_blocks_reuse_of_removed_ids() {
    let mut db = PaletteDatabase::open_in_memory().unwrap();
    // A persisted high-water mark of 9: ids 1..=9 were handed out before,
    // even though their rows are gone.
    db.mark_ids_used(9);
    let id = db
        .add_sound(
            "/a.wav".to_string(),
            "a.wav".to_string(),
            0,
            44100,
            1,
            "wav".to_string(),
            "2024-01-01 00:00:00".to_string(),
        )
        .unwrap();
    assert_eq!(id, 10);
    // A mark below the ids already handed out changes nothing.
    db.mark_ids_used(3);
    let next = db
        .add_sound(
            "/b.wav".to_string(),
            "b.wav".to_string(),
            0,
            44100,
            1,
            "wav".to_string(),
            "2024-01-01 00:00:01".to_string(),
        )
        .unwrap();
    assert_eq!(next, 11);
}
