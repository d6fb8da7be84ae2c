use vstd::prelude::*;

use crate::error::AudioPaletteError;
use crate::store::PaletteDatabase;
use crate::store::SoundRecordView;
use crate::store::has_filepath;
use crate::text::filename_view;
use crate::text::format_token;

verus! {

/// Register an audio file in the palette and store its fingerprint payload.
///
/// The caller decodes the file and extracts the fingerprint at the
/// boundary, then hands the metadata and the serialized payload here. The
/// filename is the path component after the last slash; the format column
/// records the path's extension token (lowercased, "unknown" for a name
/// without one). Insert-or-ignore on the path: registering a path a second
/// time returns the id it already has and replaces its fingerprint.
pub fn add_sound(
    db: &mut PaletteDatabase,
    filepath: String,
    duration_bits: u64,
    sample_rate: u32,
    channels: u16,
    date_added: String,
    fingerprint_payload: String,
) -> (r: Result<i64, AudioPaletteError>)
    requires
        old(db).wf(),
    ensures
        final (db).wf(),
        has_filepath(old(db).sounds(), filepath@) ==> {
            &&& final (db).sounds() == old(db).sounds()
            &&& exists|i: int|
                0 <= i < old(db).sounds().len() && (#[trigger] old(db).sounds()[i]).filepath
                    == filepath@ && r == Ok::<i64, AudioPaletteError>(old(db).sounds()[i].id)
        },
        !has_filepath(old(db).sounds(), filepath@) && old(db).next_id() < i64::MAX ==> {
            &&& r == Ok::<i64, AudioPaletteError>(old(db).next_id())
            &&& final (db).sounds() == old(db).sounds().push(
                SoundRecordView {
                    id: old(db).next_id(),
                    filepath: filepath@,
                    filename: filename_view(filepath@),
                    duration_bits: duration_bits,
                    sample_rate: sample_rate,
                    channels: channels,
                    format: format_token(filepath@),
                    date_added: date_added@,
                },
            )
        },
        !has_filepath(old(db).sounds(), filepath@) && old(db).next_id() == i64::MAX ==> {
            &&& r matches Err(AudioPaletteError::DatabaseError(_))
            &&& final (db).sounds() == old(db).sounds()
            &&& final (db).fingerprints() == old(db).fingerprints()
        },
        r matches Ok(id) ==> exists|k: int|
            0 <= k < final (db).fingerprints().len() && #[trigger] final (db).fingerprints()[k]
                == (id, fingerprint_payload@),
{
    let filename = crate::text::filename_of_path(filepath.as_str());
    let format = crate::text::format_token_of_path(filepath.as_str());
    let sound_id = match db.add_sound(
        filepath,
        filename,
        duration_bits,
        sample_rate,
        channels,
        format,
        date_added,
    ) {
        Ok(id) => id,
        Err(e) => {
            return Err(e);
        },
    };
    let ghost fps_mid = db.fingerprints();
    match db.store_fingerprint(sound_id, fingerprint_payload) {
        Ok(()) => {
            proof {
                let pair = (sound_id, fingerprint_payload@);
                if crate::store::has_fingerprint_id(fps_mid, sound_id) {
                    let i = choose|i: int|
                        0 <= i < fps_mid.len() && (#[trigger] fps_mid[i]).0 == sound_id && db
                            .fingerprints() == fps_mid.update(i, pair);
                    assert(db.fingerprints()[i] == pair);
                } else {
                    let i = choose|i: int|
                        0 <= i <= fps_mid.len() && db.fingerprints() == fps_mid.insert(i, pair);
                    assert(db.fingerprints()[i] == pair);
                }
            }
            Ok(sound_id)
        },
        Err(e) => Err(e),
    }
}

/// Remove a sound and its fingerprint from the palette, touching nothing
/// else: at most the one record and the one payload carrying the id leave,
/// every other entry stays in place and in order. Removing an id that is
/// not registered is a no-op; the id is never handed out again.
pub fn remove_sound(db: &mut PaletteDatabase, sound_id: i64) -> (r: Result<(), AudioPaletteError>)
    requires
        old(db).wf(),
    ensures
        r is Ok,
        final (db).wf(),
        final (db).next_id() == old(db).next_id(),
        crate::store::has_sound_id(old(db).sounds(), sound_id) ==> exists|i: int|
            0 <= i < old(db).sounds().len() && (#[trigger] old(db).sounds()[i]).id == sound_id
                && final (db).sounds() == old(db).sounds().remove(i),
        !crate::store::has_sound_id(old(db).sounds(), sound_id) ==> final (db).sounds() == old(db).sounds(),
        crate::store::has_fingerprint_id(old(db).fingerprints(), sound_id) ==> exists|i: int|
            0 <= i < old(db).fingerprints().len() && (#[trigger] old(db).fingerprints()[i]).0
                == sound_id && final (db).fingerprints() == old(db).fingerprints().remove(i),
        !crate::store::has_fingerprint_id(old(db).fingerprints(), sound_id) ==> final (db).fingerprints() == old(db).fingerprints(),
        !crate::store::has_sound_id(final (db).sounds(), sound_id),
        !crate::store::has_fingerprint_id(final (db).fingerprints(), sound_id),
{
    db.remove_sound(sound_id)
}

} // verus!
