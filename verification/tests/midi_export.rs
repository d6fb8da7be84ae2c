use audio_palette::AudioPaletteError;
use audio_palette::MatchTiming;
use audio_palette::MidiExportConfig;
use audio_palette::export_matches_to_midi;

/// The velocity the exporter's callers derive from a 0-100 score before the
/// library clamps it.
fn velocity_of_score(score: f64) -> u8 {
    (40.0 + (score / 100.0) * 87.0) as u8
}

/// Ticks for a time in seconds at the given tempo and resolution.
fn ticks_of(seconds: f64, ticks_per_beat: u16, bpm: u32) -> u32 {
    (seconds * ticks_per_beat as f64 * bpm as f64 / 60.0).round() as u32
}

#[test]
fn midi_export_tempo_and_velocity() {
    let config = MidiExportConfig { tempo_bpm: 120, base_note: 60, ticks_per_beat: 480 };
    let timings = vec![
        MatchTiming {
            start_ticks: ticks_of(0.0, 480, 120),
            duration_ticks: ticks_of(1.0, 480, 120),
            velocity: velocity_of_score(50.0),
        },
        MatchTiming {
            start_ticks: ticks_of(2.0, 480, 120),
            duration_ticks: ticks_of(0.5, 480, 120),
            velocity: velocity_of_score(100.0),
        },
    ];
    let bytes = export_matches_to_midi(&timings, &config).unwrap();
    let smf = midly::Smf::parse(&bytes).unwrap();
    assert_eq!(smf.header.format, midly::Format::Parallel);
    assert_eq!(smf.header.timing, midly::Timing::Metrical(480.into()));
    assert_eq!(smf.tracks.len(), 3);

    // Tempo track: 60_000_000 / 120 microseconds per beat.
    match smf.tracks[0][0].kind {
        midly::TrackEventKind::Meta(midly::MetaMessage::Tempo(t)) => {
            assert_eq!(u32::from(t), 500_000);
        }
        ref other => panic!("expected a tempo event, got {:?}", other),
    }

    // First match: key 60, velocity clamp(40 + 43.5, 40, 127) = 83.
    match smf.tracks[1][0].kind {
        midly::TrackEventKind::Midi {
            message: midly::MidiMessage::NoteOn { key, vel },
            ..
        } => {
            assert_eq!(u8::from(key), 60);
            assert_eq!(u8::from(vel), 83);
        }
        ref other => panic!("expected NoteOn, got {:?}", other),
    }

    // Second match: key 61, velocity 127.
    match smf.tracks[2][0].kind {
        midly::TrackEventKind::Midi {
            message: midly::MidiMessage::NoteOn { key, vel },
            ..
        } => {
            assert_eq!(u8::from(key), 61);
            assert_eq!(u8::from(vel), 127);
        }
        ref other => panic!("expected NoteOn, got {:?}", other),
    }

    // NoteOff of the first match comes one second (960 ticks) after NoteOn.
    match smf.tracks[1][1] {
        midly::TrackEvent {
            delta,
            kind: midly::TrackEventKind::Midi { message: midly::MidiMessage::NoteOff { .. }, .. },
        } => {
            assert_eq!(u32::from(delta), 960);
        }
        ref other => panic!("expected NoteOff, got {:?}", other),
    }
}

#[test]
fn midi_export_of_no_matches_fails() {
    let config = MidiExportConfig::default();
    let timings: Vec<MatchTiming> = Vec::new();
    let r = export_matches_to_midi(&timings, &config);
    assert!(matches!(r, Err(AudioPaletteError::MidiError(_))));
}

#[test]
fn midi_export_clamps_durations_velocities_and_keys() {
    let config = MidiExportConfig { tempo_bpm: 90, base_note: 120, ticks_per_beat: 480 };
    let timings = vec![
        MatchTiming { start_ticks: 0, duration_ticks: 0, velocity: 5 },
        MatchTiming { start_ticks: u32::MAX, duration_ticks: 3, velocity: 200 },
        MatchTiming { start_ticks: 20, duration_ticks: 4, velocity: 90 },
        MatchTiming { start_ticks: 30, duration_ticks: 4, velocity: 90 },
        MatchTiming { start_ticks: 40, duration_ticks: 4, velocity: 90 },
        MatchTiming { start_ticks: 50, duration_ticks: 4, velocity: 90 },
        MatchTiming { start_ticks: 60, duration_ticks: 4, velocity: 90 },
        MatchTiming { start_ticks: 70, duration_ticks: 4, velocity: 90 },
        MatchTiming { start_ticks: 80, duration_ticks: 4, velocity: 90 },
    ];
    let bytes = export_matches_to_midi(&timings, &config).unwrap();
    let smf = midly::Smf::parse(&bytes).unwrap();
    // A zero-length match still lasts one tick.
    match smf.tracks[1][1] {
        midly::TrackEvent { delta, .. } => assert_eq!(u32::from(delta), 1),
    }
    // Velocity clamped into 40..=127.
    match smf.tracks[1][0].kind {
        midly::TrackEventKind::Midi {
            message: midly::MidiMessage::NoteOn { vel, .. },
            ..
        } => assert_eq!(u8::from(vel), 40),
        ref other => panic!("expected NoteOn, got {:?}", other),
    }
    // A start beyond the 28-bit delta-time range is capped, not masked.
    match smf.tracks[2][0] {
        midly::TrackEvent { delta, .. } => assert_eq!(u32::from(delta), 0xFFF_FFFF),
    }
    match smf.tracks[2][0].kind {
        midly::TrackEventKind::Midi {
            message: midly::MidiMessage::NoteOn { vel, .. },
            ..
        } => assert_eq!(u8::from(vel), 127),
        ref other => panic!("expected NoteOn, got {:?}", other),
    }
    // Pitch rises from the base note and is capped at 127.
    let keys: Vec<u8> = (1..smf.tracks.len())
        .map(|t| match smf.tracks[t][0].kind {
            midly::TrackEventKind::Midi {
                message: midly::MidiMessage::NoteOn { key, .. },
                ..
            } => u8::from(key),
            ref other => panic!("expected NoteOn, got {:?}", other),
        })
        .collect();
    assert_eq!(keys, vec![120, 121, 122, 123, 124, 125, 126, 127, 127]);
}

#[test]
fn midi_export_caps_tracks_at_fifteen_matches() {
    let config = MidiExportConfig::default();
    let timings: Vec<MatchTiming> = (0..40)
        .map(|i| MatchTiming { start_ticks: i * 10, duration_ticks: 5, velocity: 80 })
        .collect();
    let bytes = export_matches_to_midi(&timings, &config).unwrap();
    let smf = midly::Smf::parse(&bytes).unwrap();
    assert_eq!(smf.tracks.len(), 16);
}
