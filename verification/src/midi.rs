use vstd::prelude::*;

use crate::error::AudioPaletteError;
use midly::Format;
use midly::Header;
use midly::MetaMessage;
use midly::MidiMessage;
use midly::Smf;
use midly::Timing;
use midly::TrackEvent;
use midly::TrackEventKind;

verus! {

/// MIDI export configuration: tempo, the pitch of the first match track and
/// the metrical resolution of the file.
#[derive(Debug, Clone)]
pub struct MidiExportConfig {
    pub tempo_bpm: u32,
    pub base_note: u8,
    pub ticks_per_beat: u16,
}

impl Default for MidiExportConfig {
    /// 120 beats per minute, middle C, 480 ticks per beat.
    fn default() -> (r: Self)
        ensures
            r.tempo_bpm == 120,
            r.base_note == 60,
            r.ticks_per_beat == 480,
    {
        MidiExportConfig { tempo_bpm: 120, base_note: 60, ticks_per_beat: 480 }
    }
}

/// The timing of one match in MIDI ticks, plus the raw velocity derived
/// from its score. The caller converts the match's start, duration and
/// score at the boundary; this module clamps and caps them.
#[derive(Debug, Clone, Copy, PartialEq, Eq, Structural)]
pub struct MatchTiming {
    pub start_ticks: u32,
    pub duration_ticks: u32,
    pub velocity: u8,
}

/// One note track of the export: NoteOn `start_ticks` after the track
/// start, NoteOff `duration_ticks` later, then end of track.
#[derive(Debug, Clone, Copy, PartialEq, Eq, Structural)]
pub struct NoteEvent {
    pub start_ticks: u32,
    pub duration_ticks: u32,
    pub key: u8,
    pub velocity: u8,
}

/// The note of match number `i`: the start and duration are capped at the
/// 28-bit range of a MIDI delta time, the duration is at least one tick,
/// the velocity is clamped to 40..=127, and the pitch rises with `i` from
/// `base_note`, capped at 127.
pub open spec fn note_of(t: MatchTiming, base_note: u8, i: int) -> NoteEvent {
    NoteEvent {
        start_ticks: if t.start_ticks <= 0xFFF_FFFF {
            t.start_ticks
        } else {
            0xFFF_FFFF
        },
        duration_ticks: if t.duration_ticks < 1 {
            1
        } else if t.duration_ticks <= 0xFFF_FFFF {
            t.duration_ticks
        } else {
            0xFFF_FFFF
        },
        key: if base_note + i <= 127 {
            (base_note + i) as u8
        } else {
            127
        },
        velocity: if t.velocity < 40 {
            40
        } else if t.velocity > 127 {
            127
        } else {
            t.velocity
        },
    }
}

/// At most fifteen match tracks fit beside the tempo track.
pub open spec fn track_cap(n: nat) -> nat {
    if n < 15 {
        n
    } else {
        15
    }
}

/// The note tracks of an export: one note per match, for the first fifteen
/// matches.
pub open spec fn plan_notes(timings: Seq<MatchTiming>, base_note: u8) -> Seq<NoteEvent> {
    Seq::new(track_cap(timings.len()), |i: int| note_of(timings[i], base_note, i))
}

/// midly's in-memory standard MIDI file, the value the export assembles and
/// encodes. Opaque to the verifier; the two names below model what this
/// module puts into it.
#[verifier::external_type_specification]
#[verifier::external_body]
pub struct ExSmf<'a>(Smf<'a>);

/// The tempo (microseconds per beat) and metrical resolution a file was
/// started with by `empty_smf`.
pub uninterp spec fn smf_header(smf: Smf<'static>) -> (u32, u16);

/// The note tracks accumulated in a file: one `NoteEvent` per track pushed
/// by `push_note_track`, in push order.
pub uninterp spec fn smf_notes(smf: Smf<'static>) -> Seq<NoteEvent>;

/// What `Smf::write` returns for a tempo track of `tempo_us` microseconds
/// per beat followed by the given note tracks, at the given metrical
/// resolution: the bytes depend on the arguments alone.
pub uninterp spec fn midi_encoding(tempo_us: u32, ticks_per_beat: u16, notes: Seq<NoteEvent>) -> Seq<
    u8,
>;

/// Relies on midly's `Smf` and `Header`: a format 1 ("parallel") file with
/// metrical timing of `ticks_per_beat`, holding only the tempo track — a
/// tempo meta event of `tempo_us` microseconds per beat, then end of track.
/// midly masks a tempo to the 24-bit MIDI tempo field and a resolution to
/// the 15-bit metrical field, so values beyond those ranges are left out.
#[verifier::external_body]
fn empty_smf(tempo_us: u32, ticks_per_beat: u16) -> (r: Smf<'static>)
    requires
        tempo_us < 0x1000000,
        ticks_per_beat < 0x8000,
    ensures
        smf_header(r) == (tempo_us, ticks_per_beat),
        smf_notes(r) == Seq::<NoteEvent>::empty(),
{
    Smf {
        header: Header::new(Format::Parallel, Timing::Metrical(ticks_per_beat.into())),
        tracks: vec![
            vec![
                TrackEvent {
                    delta: 0.into(),
                    kind: TrackEventKind::Meta(MetaMessage::Tempo(tempo_us.into())),
                },
                TrackEvent { delta: 0.into(), kind: TrackEventKind::Meta(MetaMessage::EndOfTrack) },
            ],
        ],
    }
}

/// Relies on midly's track events: appends one note track — NoteOn on
/// channel 0 after `start_ticks`, NoteOff after `duration_ticks` more, end
/// of track. midly masks a key or velocity to 7 bits and a delta time to 28
/// bits, so values beyond those ranges are left out.
#[verifier::external_body]
fn push_note_track(smf: &mut Smf<'static>, n: &NoteEvent)
    requires
        n.key <= 127,
        n.velocity <= 127,
        n.start_ticks < 0x10000000,
        n.duration_ticks < 0x10000000,
    ensures
        smf_header(*final (smf)) == smf_header(*old(smf)),
        smf_notes(*final (smf)) == smf_notes(*old(smf)).push(*n),
{
    let on = MidiMessage::NoteOn { key: n.key.into(), vel: n.velocity.into() };
    let off = MidiMessage::NoteOff { key: n.key.into(), vel: 0.into() };
    smf.tracks.push(vec![
        TrackEvent {
            delta: n.start_ticks.into(),
            kind: TrackEventKind::Midi { channel: 0.into(), message: on },
        },
        TrackEvent {
            delta: n.duration_ticks.into(),
            kind: TrackEventKind::Midi { channel: 0.into(), message: off },
        },
        TrackEvent { delta: 0.into(), kind: TrackEventKind::Meta(MetaMessage::EndOfTrack) },
    ]);
}

/// Relies on midly's `Smf::write`: encodes the assembled file into a byte
/// buffer. Writing into a byte buffer cannot fail; `Smf::write` itself
/// fails only on more than 2^16 tracks or a track chunk over 2^32 bytes,
/// far beyond the sixteen three-event tracks this module ever assembles.
#[verifier::external_body]
fn smf_to_bytes(smf: &Smf<'static>) -> (r: Result<Vec<u8>, String>)
    ensures
        smf_notes(*smf).len() <= 15 ==> r is Ok,
        r matches Ok(bytes) ==> bytes@ == midi_encoding(
            smf_header(*smf).0,
            smf_header(*smf).1,
            smf_notes(*smf),
        ),
{
    let mut buf: Vec<u8> = Vec::new();
    match smf.write(&mut buf) {
        Ok(()) => Ok(buf),
        Err(e) => Err(e.to_string()),
    }
}

/// Encode the given match timings as a standard MIDI file: a tempo track at
/// `60_000_000 / tempo_bpm` microseconds per beat, then one note track per
/// match (at most fifteen), the velocity clamped to 40..=127 and the pitch
/// rising from `base_note`, capped at 127. Exactly the empty match list is
/// refused. The tempo must leave the microseconds per beat inside the
/// 24-bit MIDI tempo field (4 bpm or faster) and the resolution inside the
/// 15-bit metrical field. The caller writes the returned bytes to the
/// output file.
pub fn export_matches_to_midi(timings: &Vec<MatchTiming>, config: &MidiExportConfig) -> (r: Result<
    Vec<u8>,
    AudioPaletteError,
>)
    requires
        config.tempo_bpm >= 4,
        config.ticks_per_beat < 0x8000,
    ensures
        r is Ok <==> timings@.len() > 0,
        r matches Ok(bytes) ==> bytes@ == midi_encoding(
            60_000_000u32 / config.tempo_bpm,
            config.ticks_per_beat,
            plan_notes(timings@, config.base_note),
        ),
        r matches Err(e) ==> (e matches AudioPaletteError::MidiError(m) && m@
            == "No matches to export"@),
{
    if timings.len() == 0 {
        return Err(AudioPaletteError::MidiError("No matches to export".to_owned()));
    }
    let tempo_us: u32 = 60_000_000 / config.tempo_bpm;
    proof {
        assert(tempo_us < 0x1000000) by (nonlinear_arith)
            requires
                config.tempo_bpm >= 4,
                tempo_us == 60_000_000u32 as int / config.tempo_bpm as int,
        ;
    }
    let mut notes: Vec<NoteEvent> = Vec::new();
    let n = timings.len();
    let cap = if n < 15 {
        n
    } else {
        15
    };
    let mut i: usize = 0;
    while i < cap
        invariant
            n == timings@.len(),
            cap == track_cap(n as nat),
            i <= cap,
            notes@ =~= plan_notes(timings@, config.base_note).take(i as int),
        decreases cap - i,
    {
        let t = timings[i];
        let start = if t.start_ticks <= 0xFFF_FFFF {
            t.start_ticks
        } else {
            0xFFF_FFFF
        };
        let dur = if t.duration_ticks < 1 {
            1
        } else if t.duration_ticks <= 0xFFF_FFFF {
            t.duration_ticks
        } else {
            0xFFF_FFFF
        };
        let key_wide = config.base_note as u16 + i as u16;
        let key = if key_wide <= 127 {
            key_wide as u8
        } else {
            127
        };
        let vel = if t.velocity < 40 {
            40
        } else if t.velocity > 127 {
            127
        } else {
            t.velocity
        };
        let note = NoteEvent { start_ticks: start, duration_ticks: dur, key, velocity: vel };
        proof {
            assert(note == note_of(timings@[i as int], config.base_note, i as int));
        }
        notes.push(note);
        proof {
            assert(notes@ =~= plan_notes(timings@, config.base_note).take(i + 1));
        }
        i += 1;
    }
    proof {
        assert(notes@ =~= plan_notes(timings@, config.base_note));
    }
    let mut smf = empty_smf(tempo_us, config.ticks_per_beat);
    let mut k: usize = 0;
    let total = notes.len();
    while k < total
        invariant
            total == notes@.len(),
            total <= 15,
            k <= total,
            notes@ == plan_notes(timings@, config.base_note),
            smf_header(smf) == (tempo_us, config.ticks_per_beat),
            smf_notes(smf) == notes@.take(k as int),
        decreases total - k,
    {
        push_note_track(&mut smf, &notes[k]);
        proof {
            assert(notes@.take(k as int).push(notes@[k as int]) =~= notes@.take(k + 1));
        }
        k += 1;
    }
    proof {
        assert(notes@.take(total as int) =~= notes@);
    }
    match smf_to_bytes(&smf) {
        Ok(bytes) => Ok(bytes),
        Err(msg) => Err(AudioPaletteError::MidiError(msg)),
    }
}

/// What every exported note satisfies: at least one tick long, start and
/// duration within the 28-bit delta-time range, velocity within 40..=127,
/// pitch within the MIDI range.
pub proof fn lemma_note_event_ranges(t: MatchTiming, base_note: u8, i: int)
    requires
        0 <= i,
    ensures
        1 <= note_of(t, base_note, i).duration_ticks <= 0xFFF_FFFF,
        note_of(t, base_note, i).start_ticks <= 0xFFF_FFFF,
        40 <= note_of(t, base_note, i).velocity <= 127,
        note_of(t, base_note, i).key <= 127,
{
}

} // verus!
