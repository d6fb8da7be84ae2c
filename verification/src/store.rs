use vstd::prelude::*;

use crate::error::AudioPaletteError;
use crate::sorting::insert_record;
use crate::sorting::lemma_insert_record_at;
use crate::sorting::lemma_sort_records_multiset;
use crate::sorting::lemma_sort_records_sorted;
use crate::sorting::sort_records;
use crate::text::chars_le;
use crate::text::contains_ci;
use crate::text::lemma_chars_le_total;
use crate::text::lemma_chars_le_trans;
use crate::text::str_contains_ci;
use crate::text::str_le;

verus! {

/// Mathematical image of a stored sound: every string field is viewed as its
/// character sequence, the duration is carried as an opaque bit pattern.
pub ghost struct SoundRecordView {
    pub id: i64,
    pub filepath: Seq<char>,
    pub filename: Seq<char>,
    pub duration_bits: u64,
    pub sample_rate: u32,
    pub channels: u16,
    pub format: Seq<char>,
    pub date_added: Seq<char>,
}

/// A registered audio file. Immutable after insertion; removed only as a
/// whole together with its fingerprint.
///
/// `duration_bits` holds the IEEE 754 bit pattern of the duration in
/// seconds. The store never interprets it arithmetically; callers convert
/// at the boundary.
#[derive(Debug)]
pub struct SoundRecord {
    pub id: i64,
    pub filepath: String,
    pub filename: String,
    pub duration_bits: u64,
    pub sample_rate: u32,
    pub channels: u16,
    pub format: String,
    pub date_added: String,
}

impl View for SoundRecord {
    type V = SoundRecordView;

    open spec fn view(&self) -> SoundRecordView {
        SoundRecordView {
            id: self.id,
            filepath: self.filepath@,
            filename: self.filename@,
            duration_bits: self.duration_bits,
            sample_rate: self.sample_rate,
            channels: self.channels,
            format: self.format@,
            date_added: self.date_added@,
        }
    }
}

impl Clone for SoundRecord {
    fn clone(&self) -> (res: Self)
        ensures
            res@ == self@,
    {
        SoundRecord {
            id: self.id,
            filepath: self.filepath.clone(),
            filename: self.filename.clone(),
            duration_bits: self.duration_bits,
            sample_rate: self.sample_rate,
            channels: self.channels,
            format: self.format.clone(),
            date_added: self.date_added.clone(),
        }
    }
}

/// True when some record in `s` carries the file path `fp`.
pub open spec fn has_filepath(s: Seq<SoundRecordView>, fp: Seq<char>) -> bool {
    exists|i: int| 0 <= i < s.len() && (#[trigger] s[i]).filepath == fp
}

/// True when some record in `s` carries the id `id`.
pub open spec fn has_sound_id(s: Seq<SoundRecordView>, id: i64) -> bool {
    exists|i: int| 0 <= i < s.len() && (#[trigger] s[i]).id == id
}

/// True when some stored fingerprint belongs to the sound `id`.
pub open spec fn has_fingerprint_id(s: Seq<(i64, Seq<char>)>, id: i64) -> bool {
    exists|i: int| 0 <= i < s.len() && (#[trigger] s[i]).0 == id
}

/// The record carrying `id`, in a sequence whose ids are unique.
pub open spec fn sound_at(sounds: Seq<SoundRecordView>, id: i64) -> SoundRecordView {
    let i = choose|i: int| 0 <= i < sounds.len() && (#[trigger] sounds[i]).id == id;
    sounds[i]
}

/// Round trip of a fresh registration: a record appended under a fresh id
/// is exactly what a lookup of that id afterwards returns.
pub proof fn lemma_sound_round_trip(pre: Seq<SoundRecordView>, rec: SoundRecordView)
    requires
        forall|i: int| 0 <= i < pre.len() ==> (#[trigger] pre[i]).id != rec.id,
    ensures
        has_sound_id(pre.push(rec), rec.id),
        sound_at(pre.push(rec), rec.id) == rec,
{
    let s = pre.push(rec);
    assert(s[pre.len() as int] == rec);
    let i = choose|i: int| 0 <= i < s.len() && (#[trigger] s[i]).id == rec.id;
    assert(i == pre.len());
}

/// Round trip of a stored fingerprint payload: in a table with strictly
/// increasing ids, the entry carrying `id` is unique, so a lookup of `id`
/// returns exactly the payload stored for it.
pub proof fn lemma_fingerprint_round_trip(fps: Seq<(i64, Seq<char>)>, id: i64, p: Seq<char>)
    requires
        forall|i: int, j: int| 0 <= i < j < fps.len() ==> (#[trigger] fps[i]).0 < (#[trigger] fps[j]).0,
        exists|k: int| 0 <= k < fps.len() && #[trigger] fps[k] == (id, p),
    ensures
        forall|k: int| 0 <= k < fps.len() && (#[trigger] fps[k]).0 == id ==> fps[k] == (id, p),
{
    let w = choose|w: int| 0 <= w < fps.len() && #[trigger] fps[w] == (id, p);
    assert forall|k: int| 0 <= k < fps.len() && (#[trigger] fps[k]).0 == id implies fps[k] == (
    id,
    p,
    ) by {
        if k < w {
            assert(fps[k].0 < fps[w].0);
        } else if k > w {
            assert(fps[w].0 < fps[k].0);
        }
    }
}

/// The palette store: sound records plus one serialized fingerprint payload
/// per sound. Sounds are kept in insertion order with monotonically
/// increasing, never reused ids; fingerprint payloads are kept ordered by
/// their sound id, which is the enumeration order of a full scan.
pub struct PaletteDatabase {
    sounds: Vec<SoundRecord>,
    fingerprints: Vec<(i64, String)>,
    next_id: i64,
}

impl PaletteDatabase {
    /// The stored sounds, in insertion order.
    pub closed spec fn sounds(&self) -> Seq<SoundRecordView> {
        self.sounds@.map_values(|r: SoundRecord| r@)
    }

    /// The stored fingerprint payloads, ordered by sound id.
    pub closed spec fn fingerprints(&self) -> Seq<(i64, Seq<char>)> {
        self.fingerprints@.map_values(|p: (i64, String)| (p.0, p.1@))
    }

    /// The id the next freshly inserted sound will receive. Grows
    /// monotonically and is never reused, also after a removal.
    pub closed spec fn next_id(&self) -> i64 {
        self.next_id
    }

    /// Store invariant: ids are positive, unique and below `next_id`; file
    /// paths are unique; fingerprint ids are strictly increasing.
    pub open spec fn wf(&self) -> bool {
        &&& 1 <= self.next_id()
        &&& self.sounds().len() < self.next_id()
        &&& forall|i: int|
            0 <= i < self.sounds().len() ==> 1 <= (#[trigger] self.sounds()[i]).id
                < self.next_id()
        &&& forall|i: int, j: int|
            0 <= i < j < self.sounds().len() ==> (#[trigger] self.sounds()[i]).id != (
            #[trigger] self.sounds()[j]).id
        &&& forall|i: int, j: int|
            0 <= i < j < self.sounds().len() ==> (#[trigger] self.sounds()[i]).filepath != (
            #[trigger] self.sounds()[j]).filepath
        &&& forall|i: int, j: int|
            0 <= i < j < self.fingerprints().len() ==> (#[trigger] self.fingerprints()[i]).0 < (
            #[trigger] self.fingerprints()[j]).0
    }

    /// Create an empty store held in memory.
    pub fn open_in_memory() -> (r: Result<Self, AudioPaletteError>)
        ensures
            r is Ok,
            r.unwrap().wf(),
            r.unwrap().sounds() =~= Seq::<SoundRecordView>::empty(),
            r.unwrap().fingerprints() =~= Seq::<(i64, Seq<char>)>::empty(),
            r.unwrap().next_id() == 1,
    {
        Ok(PaletteDatabase { sounds: Vec::new(), fingerprints: Vec::new(), next_id: 1 })
    }

    /// Register a sound. Insert-or-ignore on the file path: if a record with
    /// the same path already exists its id is returned and nothing changes;
    /// otherwise the record is appended under the next fresh id. Fails only
    /// when the id space is exhausted.
    pub fn add_sound(
        &mut self,
        filepath: String,
        filename: String,
        duration_bits: u64,
        sample_rate: u32,
        channels: u16,
        format: String,
        date_added: String,
    ) -> (r: Result<i64, AudioPaletteError>)
        requires
            old(self).wf(),
        ensures
            final (self).wf(),
            final (self).fingerprints() == old(self).fingerprints(),
            has_filepath(old(self).sounds(), filepath@) ==> {
                &&& final (self).sounds() == old(self).sounds()
                &&& final (self).next_id() == old(self).next_id()
                &&& exists|i: int|
                    0 <= i < old(self).sounds().len() && (#[trigger] old(self).sounds()[i]).filepath
                        == filepath@ && r == Ok::<i64, AudioPaletteError>(old(self).sounds()[i].id)
            },
            !has_filepath(old(self).sounds(), filepath@) && old(self).next_id() < i64::MAX ==> {
                &&& r == Ok::<i64, AudioPaletteError>(old(self).next_id())
                &&& final (self).sounds() == old(self).sounds().push(
                    SoundRecordView {
                        id: old(self).next_id(),
                        filepath: filepath@,
                        filename: filename@,
                        duration_bits: duration_bits,
                        sample_rate: sample_rate,
                        channels: channels,
                        format: format@,
                        date_added: date_added@,
                    },
                )
                &&& final (self).next_id() == old(self).next_id() + 1
            },
            !has_filepath(old(self).sounds(), filepath@) && old(self).next_id() == i64::MAX ==> {
                &&& r matches Err(AudioPaletteError::DatabaseError(_))
                &&& final (self).sounds() == old(self).sounds()
                &&& final (self).next_id() == old(self).next_id()
            },
    {
        let n = self.sounds.len();
        let mut i: usize = 0;
        while i < n
            invariant
                n == self.sounds@.len(),
                forall|j: int| 0 <= j < i ==> (#[trigger] self.sounds()[j]).filepath != filepath@,
                self.wf(),
                self.sounds() == old(self).sounds(),
                self.fingerprints() == old(self).fingerprints(),
                self.next_id() == old(self).next_id(),
            decreases n - i,
        {
            if self.sounds[i].filepath == filepath {
                assert(self.sounds()[i as int].filepath == filepath@);
                return Ok(self.sounds[i].id);
            }
            i += 1;
        }
        assert(!has_filepath(self.sounds(), filepath@));
        if self.next_id == i64::MAX {
            return Err(
                AudioPaletteError::DatabaseError("sound id space is exhausted".to_owned()),
            );
        }
        let id = self.next_id;
        let ghost old_sounds = self.sounds();
        let record = SoundRecord {
            id,
            filepath,
            filename,
            duration_bits,
            sample_rate,
            channels,
            format,
            date_added,
        };
        self.sounds.push(record);
        self.next_id = id + 1;
        proof {
            assert(self.sounds() =~= old_sounds.push(
                SoundRecordView {
                    id: id,
                    filepath: filepath@,
                    filename: filename@,
                    duration_bits: duration_bits,
                    sample_rate: sample_rate,
                    channels: channels,
                    format: format@,
                    date_added: date_added@,
                },
            ));
            let t = self.sounds();
            assert forall|a: int, b: int| 0 <= a < b < t.len() implies (#[trigger] t[a]).id != (
            #[trigger] t[b]).id by {
                if b == t.len() - 1 {
                    assert(t[a] == old_sounds[a]);
                    assert(t[a].id < id);
                }
            };
            assert forall|a: int, b: int| 0 <= a < b < t.len() implies (#[trigger] t[a]).filepath
                != (#[trigger] t[b]).filepath by {
                if b == t.len() - 1 {
                    assert(t[a] == old_sounds[a]);
                }
            };
        }
        Ok(id)
    }

    /// Restore a persisted sound under the id it already carries. Rows must
    /// arrive in increasing id order (a persisted table read back in id
    /// order does); the restored id is consumed, so later fresh ids stay
    /// above it. An id below the ids already handed out, the last id of the
    /// id space, or a duplicate file path is refused.
    pub fn restore_sound(
        &mut self,
        id: i64,
        filepath: String,
        filename: String,
        duration_bits: u64,
        sample_rate: u32,
        channels: u16,
        format: String,
        date_added: String,
    ) -> (r: Result<(), AudioPaletteError>)
        requires
            old(self).wf(),
        ensures
            final (self).wf(),
            final (self).fingerprints() == old(self).fingerprints(),
            old(self).next_id() <= id < i64::MAX && !has_filepath(old(self).sounds(), filepath@)
                ==> {
                &&& r is Ok
                &&& final (self).sounds() == old(self).sounds().push(
                    SoundRecordView {
                        id: id,
                        filepath: filepath@,
                        filename: filename@,
                        duration_bits: duration_bits,
                        sample_rate: sample_rate,
                        channels: channels,
                        format: format@,
                        date_added: date_added@,
                    },
                )
                &&& final (self).next_id() == id + 1
            },
            !(old(self).next_id() <= id < i64::MAX && !has_filepath(
                old(self).sounds(),
                filepath@,
            )) ==> {
                &&& r matches Err(AudioPaletteError::DatabaseError(_))
                &&& final (self).sounds() == old(self).sounds()
                &&& final (self).next_id() == old(self).next_id()
            },
    {
        if id < self.next_id || id == i64::MAX {
            return Err(AudioPaletteError::DatabaseError("sound id is not restorable".to_owned()));
        }
        let n = self.sounds.len();
        let mut i: usize = 0;
        while i < n
            invariant
                n == self.sounds@.len(),
                forall|j: int| 0 <= j < i ==> (#[trigger] self.sounds()[j]).filepath != filepath@,
                self.wf(),
                self.sounds() == old(self).sounds(),
                self.fingerprints() == old(self).fingerprints(),
                self.next_id() == old(self).next_id(),
            decreases n - i,
        {
            if self.sounds[i].filepath == filepath {
                assert(self.sounds()[i as int].filepath == filepath@);
                return Err(
                    AudioPaletteError::DatabaseError("file path is already registered".to_owned()),
                );
            }
            i += 1;
        }
        assert(!has_filepath(self.sounds(), filepath@));
        let ghost old_sounds = self.sounds();
        let record = SoundRecord {
            id,
            filepath,
            filename,
            duration_bits,
            sample_rate,
            channels,
            format,
            date_added,
        };
        self.sounds.push(record);
        self.next_id = id + 1;
        proof {
            assert(self.sounds() =~= old_sounds.push(
                SoundRecordView {
                    id: id,
                    filepath: filepath@,
                    filename: filename@,
                    duration_bits: duration_bits,
                    sample_rate: sample_rate,
                    channels: channels,
                    format: format@,
                    date_added: date_added@,
                },
            ));
            let t = self.sounds();
            assert forall|a: int, b: int| 0 <= a < b < t.len() implies (#[trigger] t[a]).id != (
            #[trigger] t[b]).id by {
                if b == t.len() - 1 {
                    assert(t[a] == old_sounds[a]);
                    assert(t[a].id < id);
                }
            };
            assert forall|a: int, b: int| 0 <= a < b < t.len() implies (#[trigger] t[a]).filepath
                != (#[trigger] t[b]).filepath by {
                if b == t.len() - 1 {
                    assert(t[a] == old_sounds[a]);
                }
            };
        }
        Ok(())
    }

    /// Mark every id up to and including `up_to` as handed out, so no fresh
    /// registration reuses one of them. This carries a persisted store's
    /// high-water mark over a reload; ids already above the mark are
    /// untouched.
    pub fn mark_ids_used(&mut self, up_to: i64)
        requires
            old(self).wf(),
        ensures
            final (self).wf(),
            final (self).sounds() == old(self).sounds(),
            final (self).fingerprints() == old(self).fingerprints(),
            up_to < old(self).next_id() ==> final (self).next_id() == old(self).next_id(),
            old(self).next_id() <= up_to < i64::MAX ==> final (self).next_id() == up_to + 1,
            up_to == i64::MAX ==> final (self).next_id() == i64::MAX,
    {
        if up_to >= self.next_id {
            if up_to == i64::MAX {
                self.next_id = i64::MAX;
            } else {
                self.next_id = up_to + 1;
            }
        }
        proof {
            assert(self.sounds() =~= old(self).sounds());
            assert(self.fingerprints() =~= old(self).fingerprints());
        }
    }

    /// Look a sound up by id. Returns a copy of the record exactly when a
    /// record with this id is stored.
    pub fn get_sound(&self, id: i64) -> (r: Result<Option<SoundRecord>, AudioPaletteError>)
        requires
            self.wf(),
        ensures
            r is Ok,
            r.unwrap() is Some <==> has_sound_id(self.sounds(), id),
            r.unwrap() matches Some(rec) ==> exists|i: int|
                0 <= i < self.sounds().len() && (#[trigger] self.sounds()[i]).id == id && rec@
                    == self.sounds()[i],
    {
        let n = self.sounds.len();
        let mut i: usize = 0;
        while i < n
            invariant
                n == self.sounds@.len(),
                forall|j: int| 0 <= j < i ==> (#[trigger] self.sounds()[j]).id != id,
            decreases n - i,
        {
            if self.sounds[i].id == id {
                assert(self.sounds()[i as int].id == id);
                return Ok(Some(self.sounds[i].clone()));
            }
            i += 1;
        }
        Ok(None)
    }

    /// Store the serialized fingerprint payload of a sound, replacing any
    /// payload stored for the same id (insert-or-replace).
    pub fn store_fingerprint(&mut self, sound_id: i64, payload: String) -> (r: Result<
        (),
        AudioPaletteError,
    >)
        requires
            old(self).wf(),
        ensures
            r is Ok,
            final (self).wf(),
            final (self).sounds() == old(self).sounds(),
            final (self).next_id() == old(self).next_id(),
            has_fingerprint_id(old(self).fingerprints(), sound_id) ==> exists|i: int|
                0 <= i < old(self).fingerprints().len() && (#[trigger] old(
                    self,
                ).fingerprints()[i]).0 == sound_id && final (self).fingerprints() == old(
                    self,
                ).fingerprints().update(i, (sound_id, payload@)),
            !has_fingerprint_id(old(self).fingerprints(), sound_id) ==> {
                &&& final (self).fingerprints().len() == old(self).fingerprints().len() + 1
                &&& has_fingerprint_id(final (self).fingerprints(), sound_id)
                &&& exists|i: int|
                    0 <= i <= old(self).fingerprints().len() && final (self).fingerprints() == old(
                        self,
                    ).fingerprints().insert(i, (sound_id, payload@))
            },
    {
        let n = self.fingerprints.len();
        let mut i: usize = 0;
        while i < n
            invariant
                n == self.fingerprints@.len(),
                i <= n,
                forall|j: int| 0 <= j < i ==> (#[trigger] self.fingerprints()[j]).0 < sound_id,
                self.wf(),
                self.sounds() == old(self).sounds(),
                self.fingerprints() == old(self).fingerprints(),
                self.next_id() == old(self).next_id(),
            decreases n - i,
        {
            let existing = self.fingerprints[i].0;
            if existing == sound_id {
                let ghost old_fps = self.fingerprints();
                let _ = self.fingerprints.remove(i);
                self.fingerprints.insert(i, (sound_id, payload));
                proof {
                    assert(self.fingerprints() =~= old_fps.update(i as int, (sound_id, payload@)));
                    assert(old_fps[i as int].0 == sound_id);
                    lemma_ordered_update(old_fps, i as int, (sound_id, payload@));
                }
                return Ok(());
            }
            if existing > sound_id {
                let ghost old_fps = self.fingerprints();
                self.fingerprints.insert(i, (sound_id, payload));
                proof {
                    assert(self.fingerprints() =~= old_fps.insert(i as int, (sound_id, payload@)));
                    assert(self.fingerprints()[i as int].0 == sound_id);
                    lemma_ordered_insert(old_fps, i as int, (sound_id, payload@));
                }
                return Ok(());
            }
            i += 1;
        }
        let ghost old_fps = self.fingerprints();
        self.fingerprints.push((sound_id, payload));
        proof {
            assert(self.fingerprints() =~= old_fps.insert(old_fps.len() as int, (
                sound_id,
                payload@,
            )));
            assert(self.fingerprints()[old_fps.len() as int].0 == sound_id);
            lemma_ordered_insert(old_fps, old_fps.len() as int, (sound_id, payload@));
        }
        Ok(())
    }

    /// Fetch the stored fingerprint payload of a sound, if any.
    pub fn get_fingerprint(&self, sound_id: i64) -> (r: Result<Option<String>, AudioPaletteError>)
        requires
            self.wf(),
        ensures
            r is Ok,
            r.unwrap() is Some <==> has_fingerprint_id(self.fingerprints(), sound_id),
            r.unwrap() matches Some(payload) ==> exists|i: int|
                0 <= i < self.fingerprints().len() && #[trigger] self.fingerprints()[i] == (
                sound_id,
                payload@,
                ),
    {
        let n = self.fingerprints.len();
        let mut i: usize = 0;
        while i < n
            invariant
                n == self.fingerprints@.len(),
                forall|j: int| 0 <= j < i ==> (#[trigger] self.fingerprints()[j]).0 != sound_id,
            decreases n - i,
        {
            if self.fingerprints[i].0 == sound_id {
                assert(self.fingerprints()[i as int].0 == sound_id);
                return Ok(Some(self.fingerprints[i].1.clone()));
            }
            i += 1;
        }
        Ok(None)
    }

    /// Enumerate all stored fingerprint payloads, ordered by sound id. This
    /// is the scan the similarity search runs on.
    pub fn get_all_fingerprints(&self) -> (r: Result<Vec<(i64, String)>, AudioPaletteError>)
        requires
            self.wf(),
        ensures
            r is Ok,
            r.unwrap()@.map_values(|p: (i64, String)| (p.0, p.1@)) == self.fingerprints(),
    {
        let n = self.fingerprints.len();
        let mut out: Vec<(i64, String)> = Vec::new();
        let mut i: usize = 0;
        while i < n
            invariant
                n == self.fingerprints@.len(),
                out@.len() == i,
                i <= n,
                forall|j: int|
                    0 <= j < i ==> (#[trigger] out@[j]).0 == self.fingerprints()[j].0 && out@[j].1@
                        == self.fingerprints()[j].1,
            decreases n - i,
        {
            let id = self.fingerprints[i].0;
            let payload = self.fingerprints[i].1.clone();
            out.push((id, payload));
            i += 1;
        }
        proof {
            assert(out@.map_values(|p: (i64, String)| (p.0, p.1@)) =~= self.fingerprints());
        }
        Ok(out)
    }

    /// Remove a sound and its fingerprint. Removing an unknown id is a
    /// no-op. The id is not reused afterwards: `next_id` is unchanged.
    pub fn remove_sound(&mut self, id: i64) -> (r: Result<(), AudioPaletteError>)
        requires
            old(self).wf(),
        ensures
            r is Ok,
            final (self).wf(),
            final (self).next_id() == old(self).next_id(),
            has_sound_id(old(self).sounds(), id) ==> exists|i: int|
                0 <= i < old(self).sounds().len() && (#[trigger] old(self).sounds()[i]).id == id
                    && final (self).sounds() == old(self).sounds().remove(i),
            !has_sound_id(old(self).sounds(), id) ==> final (self).sounds() == old(self).sounds(),
            has_fingerprint_id(old(self).fingerprints(), id) ==> exists|i: int|
                0 <= i < old(self).fingerprints().len() && (#[trigger] old(
                    self,
                ).fingerprints()[i]).0 == id && final (self).fingerprints() == old(
                    self,
                ).fingerprints().remove(i),
            !has_fingerprint_id(old(self).fingerprints(), id) ==> final (self).fingerprints()
                == old(self).fingerprints(),
            !has_sound_id(final (self).sounds(), id),
            !has_fingerprint_id(final (self).fingerprints(), id),
    {
        let nf = self.fingerprints.len();
        let mut fp_at: Option<usize> = None;
        let mut i: usize = 0;
        while i < nf
            invariant
                nf == self.fingerprints@.len(),
                fp_at is Some ==> exists|k: int|
                    0 <= k < self.fingerprints().len() && (#[trigger] self.fingerprints()[k]).0
                        == id && fp_at == Some(k as usize),
                fp_at is None ==> forall|j: int|
                    0 <= j < i ==> (#[trigger] self.fingerprints()[j]).0 != id,
            decreases nf - i,
        {
            if self.fingerprints[i].0 == id {
                assert(self.fingerprints()[i as int].0 == id);
                fp_at = Some(i);
            }
            i += 1;
        }
        if let Some(k) = fp_at {
            let ghost old_fps = self.fingerprints();
            let _ = self.fingerprints.remove(k);
            proof {
                assert(self.fingerprints() =~= old_fps.remove(k as int));
            }
        }
        let ns = self.sounds.len();
        let mut snd_at: Option<usize> = None;
        let mut s: usize = 0;
        while s < ns
            invariant
                ns == self.sounds@.len(),
                snd_at is Some ==> exists|k: int|
                    0 <= k < self.sounds().len() && (#[trigger] self.sounds()[k]).id == id
                        && snd_at == Some(k as usize),
                snd_at is None ==> forall|j: int|
                    0 <= j < s ==> (#[trigger] self.sounds()[j]).id != id,
            decreases ns - s,
        {
            if self.sounds[s].id == id {
                assert(self.sounds()[s as int].id == id);
                snd_at = Some(s);
            }
            s += 1;
        }
        if let Some(k) = snd_at {
            let ghost old_sounds = self.sounds();
            let _ = self.sounds.remove(k);
            proof {
                assert(self.sounds() =~= old_sounds.remove(k as int));
            }
        }
        Ok(())
    }

    /// List every sound, ordered by the date added, newest first; records
    /// added under an equal date keep their insertion order.
    pub fn get_all_sounds(&self) -> (r: Result<Vec<SoundRecord>, AudioPaletteError>)
        requires
            self.wf(),
        ensures
            r is Ok,
            r.unwrap()@.map_values(|m: SoundRecord| m@) == sounds_by_date_desc(self.sounds()),
    {
        let ghost keep = |e: SoundRecordView, x: SoundRecordView| date_desc_keeps(e, x);
        let mut out: Vec<SoundRecord> = Vec::new();
        let n = self.sounds.len();
        let mut i: usize = 0;
        while i < n
            invariant
                n == self.sounds@.len(),
                i <= n,
                keep == (|e: SoundRecordView, x: SoundRecordView| date_desc_keeps(e, x)),
                out@.map_values(|m2: SoundRecord| m2@) == sort_records(
                    self.sounds().take(i as int),
                    keep,
                ),
                out@.len() == i,
            decreases n - i,
        {
            let x = self.sounds[i].clone();
            let ghost xv = x@;
            proof {
                assert(xv == self.sounds()[i as int]);
            }
            let ghost before = out@.map_values(|m2: SoundRecord| m2@);
            let m = out.len();
            let mut j: usize = 0;
            while j < m
                invariant
                    m == out@.len(),
                    j <= m,
                    out@.map_values(|m2: SoundRecord| m2@) == before,
                    xv == x@,
                    keep == (|e: SoundRecordView, x: SoundRecordView| date_desc_keeps(e, x)),
                    forall|k: int| 0 <= k < j ==> keep(#[trigger] before[k], xv),
                ensures
                    j <= m,
                    out@.map_values(|m2: SoundRecord| m2@) == before,
                    forall|k: int| 0 <= k < j ==> keep(#[trigger] before[k], xv),
                    j < m ==> !keep(before[j as int], xv),
                decreases m - j,
            {
                proof {
                    assert(before[j as int] == out@[j as int]@);
                }
                if str_le(&x.date_added, &out[j].date_added) {
                    j += 1;
                } else {
                    break ;
                }
            }
            out.insert(j, x);
            proof {
                lemma_insert_record_at(before, xv, keep, j as int);
                assert(out@.map_values(|m2: SoundRecord| m2@) =~= before.insert(j as int, xv));
                assert(self.sounds().take(i + 1).drop_last() =~= self.sounds().take(i as int));
                assert(self.sounds().take(i + 1).last() == self.sounds()[i as int]);
                assert(sort_records(self.sounds().take(i + 1), keep) == insert_record(
                    sort_records(self.sounds().take(i as int), keep),
                    xv,
                    keep,
                ));
            }
            i += 1;
        }
        proof {
            assert(self.sounds().take(n as int) =~= self.sounds());
        }
        Ok(out)
    }

    /// Search sounds whose filename contains `query`, compared without
    /// regard to ASCII case, ordered by filename ascending; equal names keep
    /// their insertion order.
    pub fn search(&self, query: &str) -> (r: Result<Vec<SoundRecord>, AudioPaletteError>)
        requires
            self.wf(),
        ensures
            r is Ok,
            r.unwrap()@.map_values(|m: SoundRecord| m@) == name_search_results(
                self.sounds(),
                query@,
            ),
    {
        let ghost keep = |e: SoundRecordView, x: SoundRecordView| filename_asc_keeps(e, x);
        let ghost pred = |rec: SoundRecordView| contains_ci(rec.filename, query@);
        let mut out: Vec<SoundRecord> = Vec::new();
        let n = self.sounds.len();
        let mut i: usize = 0;
        while i < n
            invariant
                n == self.sounds@.len(),
                i <= n,
                keep == (|e: SoundRecordView, x: SoundRecordView| filename_asc_keeps(e, x)),
                pred == (|rec: SoundRecordView| contains_ci(rec.filename, query@)),
                out@.map_values(|m2: SoundRecord| m2@) == sort_records(
                    self.sounds().take(i as int).filter(pred),
                    keep,
                ),
            decreases n - i,
        {
            proof {
                reveal_with_fuel(Seq::<SoundRecordView>::filter, 2);
                assert(self.sounds().take(i + 1).drop_last() =~= self.sounds().take(i as int));
                assert(self.sounds().take(i + 1).last() == self.sounds()[i as int]);
            }
            if str_contains_ci(&self.sounds[i].filename, query) {
                let x = self.sounds[i].clone();
                let ghost xv = x@;
                proof {
                    assert(xv == self.sounds()[i as int]);
                    assert(pred(xv));
                    assert(self.sounds().take(i + 1).filter(pred) =~= self.sounds().take(
                        i as int,
                    ).filter(pred).push(xv));
                }
                let ghost before = out@.map_values(|m2: SoundRecord| m2@);
                let m = out.len();
                let mut j: usize = 0;
                while j < m
                    invariant
                        m == out@.len(),
                        j <= m,
                        out@.map_values(|m2: SoundRecord| m2@) == before,
                        xv == x@,
                        keep == (|e: SoundRecordView, x: SoundRecordView| filename_asc_keeps(e, x)),
                        forall|k: int| 0 <= k < j ==> keep(#[trigger] before[k], xv),
                    ensures
                        j <= m,
                        out@.map_values(|m2: SoundRecord| m2@) == before,
                        forall|k: int| 0 <= k < j ==> keep(#[trigger] before[k], xv),
                        j < m ==> !keep(before[j as int], xv),
                    decreases m - j,
                {
                    proof {
                        assert(before[j as int] == out@[j as int]@);
                    }
                    if str_le(&out[j].filename, &x.filename) {
                        j += 1;
                    } else {
                        break ;
                    }
                }
                out.insert(j, x);
                proof {
                    lemma_insert_record_at(before, xv, keep, j as int);
                    assert(out@.map_values(|m2: SoundRecord| m2@) =~= before.insert(j as int, xv));
                    let f1 = self.sounds().take(i + 1).filter(pred);
                    assert(f1.len() > 0);
                    assert(f1.drop_last() =~= self.sounds().take(i as int).filter(pred));
                    assert(f1.last() == xv);
                    assert(sort_records(f1, keep) == insert_record(
                        sort_records(self.sounds().take(i as int).filter(pred), keep),
                        xv,
                        keep,
                    ));
                }
            } else {
                proof {
                    assert(!pred(self.sounds()[i as int]));
                    assert(self.sounds().take(i + 1).filter(pred) =~= self.sounds().take(
                        i as int,
                    ).filter(pred));
                }
            }
            i += 1;
        }
        proof {
            assert(self.sounds().take(n as int) =~= self.sounds());
        }
        Ok(out)
    }

    /// The number of registered sounds.
    pub fn count(&self) -> (r: Result<i64, AudioPaletteError>)
        requires
            self.wf(),
        ensures
            r is Ok,
            r.unwrap() == self.sounds().len(),
    {
        Ok(self.sounds.len() as i64)
    }
}

/// In the date-descending listing an earlier record `e` stays in front of a
/// later-inserted `x` when its date is no older.
pub open spec fn date_desc_keeps(e: SoundRecordView, x: SoundRecordView) -> bool {
    chars_le(x.date_added, e.date_added)
}

/// In the filename-ascending listing an earlier record `e` stays in front
/// of a later-inserted `x` when its name sorts no later.
pub open spec fn filename_asc_keeps(e: SoundRecordView, x: SoundRecordView) -> bool {
    chars_le(e.filename, x.filename)
}

/// The stored sounds ordered by `date_added` descending, records added
/// under an equal date keeping their insertion order.
pub open spec fn sounds_by_date_desc(s: Seq<SoundRecordView>) -> Seq<SoundRecordView> {
    sort_records(s, |e: SoundRecordView, x: SoundRecordView| date_desc_keeps(e, x))
}

/// The records whose filename contains `q`, compared without regard to
/// ASCII case.
pub open spec fn filtered_by_name(s: Seq<SoundRecordView>, q: Seq<char>) -> Seq<SoundRecordView> {
    s.filter(|r: SoundRecordView| contains_ci(r.filename, q))
}

/// The filename search results: the matching records ordered by filename
/// ascending, equal names keeping their insertion order.
pub open spec fn name_search_results(s: Seq<SoundRecordView>, q: Seq<char>) -> Seq<SoundRecordView> {
    sort_records(
        filtered_by_name(s, q),
        |e: SoundRecordView, x: SoundRecordView| filename_asc_keeps(e, x),
    )
}

/// The date-descending listing is a permutation of the store, ordered by
/// date: no record is dated older than a later one.
pub proof fn lemma_sounds_by_date_desc_props(s: Seq<SoundRecordView>)
    ensures
        sounds_by_date_desc(s).to_multiset() == s.to_multiset(),
        sounds_by_date_desc(s).len() == s.len(),
        forall|i: int, j: int|
            0 <= i < j < sounds_by_date_desc(s).len() ==> chars_le(
                (#[trigger] sounds_by_date_desc(s)[j]).date_added,
                (#[trigger] sounds_by_date_desc(s)[i]).date_added,
            ),
{
    broadcast use vstd::seq_lib::group_seq_properties;

    let keep = |e: SoundRecordView, x: SoundRecordView| date_desc_keeps(e, x);
    assert forall|p: SoundRecordView, q: SoundRecordView| #[trigger] keep(p, q) || #[trigger] keep(
        q,
        p,
    ) by {
        lemma_chars_le_total(q.date_added, p.date_added);
    }
    assert forall|p: SoundRecordView, q: SoundRecordView, r: SoundRecordView|
        #[trigger] keep(p, q) && #[trigger] keep(q, r) implies keep(p, r) by {
        lemma_chars_le_trans(r.date_added, q.date_added, p.date_added);
    }
    lemma_sort_records_sorted(s, keep);
    lemma_sort_records_multiset(s, keep);
    vstd::seq_lib::to_multiset_len(sounds_by_date_desc(s));
    vstd::seq_lib::to_multiset_len(s);
}

/// The filename search returns exactly the matching records, ordered by
/// filename: no name sorts later than a following one.
pub proof fn lemma_name_search_props(s: Seq<SoundRecordView>, q: Seq<char>)
    ensures
        name_search_results(s, q).to_multiset() == filtered_by_name(s, q).to_multiset(),
        name_search_results(s, q).len() == filtered_by_name(s, q).len(),
        forall|i: int|
            0 <= i < name_search_results(s, q).len() ==> contains_ci(
                (#[trigger] name_search_results(s, q)[i]).filename,
                q,
            ),
        forall|i: int, j: int|
            0 <= i < j < name_search_results(s, q).len() ==> chars_le(
                (#[trigger] name_search_results(s, q)[i]).filename,
                (#[trigger] name_search_results(s, q)[j]).filename,
            ),
{
    broadcast use vstd::seq_lib::group_seq_properties;

    let keep = |e: SoundRecordView, x: SoundRecordView| filename_asc_keeps(e, x);
    let pred = |r: SoundRecordView| contains_ci(r.filename, q);
    let f = filtered_by_name(s, q);
    assert forall|p: SoundRecordView, w: SoundRecordView| #[trigger] keep(p, w) || #[trigger] keep(
        w,
        p,
    ) by {
        lemma_chars_le_total(p.filename, w.filename);
    }
    assert forall|p: SoundRecordView, w: SoundRecordView, r: SoundRecordView|
        #[trigger] keep(p, w) && #[trigger] keep(w, r) implies keep(p, r) by {
        lemma_chars_le_trans(p.filename, w.filename, r.filename);
    }
    lemma_sort_records_sorted(f, keep);
    lemma_sort_records_multiset(f, keep);
    vstd::seq_lib::to_multiset_len(name_search_results(s, q));
    vstd::seq_lib::to_multiset_len(f);
    broadcast use vstd::seq_lib::group_filter_ensures;
    let t = name_search_results(s, q);
    assert forall|i: int| 0 <= i < t.len() implies contains_ci((#[trigger] t[i]).filename, q) by {
        assert(t.contains(t[i]));
        assert(t.to_multiset().count(t[i]) > 0);
        assert(f.to_multiset().count(t[i]) > 0);
        assert(f.contains(t[i]));
        let k = choose|k: int| 0 <= k < f.len() && f[k] == t[i];
        assert(pred(f[k]));
    }
}

/// Replacing the entry at `i` by one with the same id keeps the strict id
/// order of a fingerprint table.
proof fn lemma_ordered_update(s: Seq<(i64, Seq<char>)>, i: int, x: (i64, Seq<char>))
    requires
        0 <= i < s.len(),
        s[i].0 == x.0,
        forall|a: int, b: int| 0 <= a < b < s.len() ==> (#[trigger] s[a]).0 < (#[trigger] s[b]).0,
    ensures
        forall|a: int, b: int|
            0 <= a < b < s.update(i, x).len() ==> (#[trigger] s.update(i, x)[a]).0 < (
            #[trigger] s.update(i, x)[b]).0,
{
}

/// Inserting an entry between its strict neighbours keeps the strict id
/// order of a fingerprint table.
proof fn lemma_ordered_insert(s: Seq<(i64, Seq<char>)>, i: int, x: (i64, Seq<char>))
    requires
        0 <= i <= s.len(),
        forall|j: int| 0 <= j < i ==> (#[trigger] s[j]).0 < x.0,
        i < s.len() ==> x.0 < s[i].0,
        forall|a: int, b: int| 0 <= a < b < s.len() ==> (#[trigger] s[a]).0 < (#[trigger] s[b]).0,
    ensures
        forall|a: int, b: int|
            0 <= a < b < s.insert(i, x).len() ==> (#[trigger] s.insert(i, x)[a]).0 < (
            #[trigger] s.insert(i, x)[b]).0,
{
    let t = s.insert(i, x);
    assert forall|a: int, b: int| 0 <= a < b < t.len() implies (#[trigger] t[a]).0 < (
    #[trigger] t[b]).0 by {
        if a < i {
            assert(t[a] == s[a]);
        } else if a == i {
            assert(t[a] == x);
        } else {
            assert(t[a] == s[a - 1]);
        }
        if b < i {
            assert(t[b] == s[b]);
        } else if b == i {
            assert(t[b] == x);
        } else {
            assert(t[b] == s[b - 1]);
            if a == i && b - 1 > i {
                assert(s[i].0 < s[b - 1].0);
            }
        }
    }
}

} // verus!
