use vstd::prelude::*;

use crate::error::AudioPaletteError;
use crate::frames::frame_start_positions;
use crate::rank::ScoredSound;
use crate::rank::lemma_ranked_candidates_props;
use crate::rank::ranked_candidates;
use crate::store::PaletteDatabase;
use crate::store::SoundRecord;
use crate::store::SoundRecordView;
use crate::store::has_sound_id;
use crate::store::sound_at;

verus! {

/// Mathematical image of a query result.
pub ghost struct MatchResultView {
    pub sound_id: i64,
    pub filepath: Seq<char>,
    pub filename: Seq<char>,
    pub score_bits: u64,
    pub match_start_bits: u64,
    pub match_end_bits: u64,
    pub file_duration_bits: u64,
}

/// A query result: a sound, its similarity score and the time range inside
/// the file where the best resemblance occurs.
///
/// The score and the three times are carried as the IEEE 754 bit patterns
/// of the similarity value (0 to 100) and of the seconds values; all four
/// are non-negative, so the unsigned order of the patterns is the numeric
/// order. A bit pattern of `0` is the value zero.
#[derive(Debug)]
pub struct MatchResult {
    pub sound_id: i64,
    pub filepath: String,
    pub filename: String,
    pub score_bits: u64,
    pub match_start_bits: u64,
    pub match_end_bits: u64,
    pub file_duration_bits: u64,
}

impl View for MatchResult {
    type V = MatchResultView;

    open spec fn view(&self) -> MatchResultView {
        MatchResultView {
            sound_id: self.sound_id,
            filepath: self.filepath@,
            filename: self.filename@,
            score_bits: self.score_bits,
            match_start_bits: self.match_start_bits,
            match_end_bits: self.match_end_bits,
            file_duration_bits: self.file_duration_bits,
        }
    }
}

impl Clone for MatchResult {
    fn clone(&self) -> (res: Self)
        ensures
            res@ == self@,
    {
        MatchResult {
            sound_id: self.sound_id,
            filepath: self.filepath.clone(),
            filename: self.filename.clone(),
            score_bits: self.score_bits,
            match_start_bits: self.match_start_bits,
            match_end_bits: self.match_end_bits,
            file_duration_bits: self.file_duration_bits,
        }
    }
}

/// The whole-file match of a sound: the matched range is the entire file,
/// from zero to its duration.
pub open spec fn match_of(r: SoundRecordView, score_bits: u64) -> MatchResultView {
    MatchResultView {
        sound_id: r.id,
        filepath: r.filepath,
        filename: r.filename,
        score_bits: score_bits,
        match_start_bits: 0,
        match_end_bits: r.duration_bits,
        file_duration_bits: r.duration_bits,
    }
}

/// The matches built from a ranked candidate list: one whole-file match per
/// candidate, in rank order; candidates whose sound has meanwhile left the
/// store are silently skipped.
pub open spec fn whole_file_matches(
    sounds: Seq<SoundRecordView>,
    ranked: Seq<ScoredSound>,
) -> Seq<MatchResultView>
    decreases ranked.len(),
{
    if ranked.len() == 0 {
        Seq::empty()
    } else {
        let rest = whole_file_matches(sounds, ranked.drop_last());
        let e = ranked.last();
        if has_sound_id(sounds, e.sound_id) {
            rest.push(match_of(sound_at(sounds, e.sound_id), e.score_bits))
        } else {
            rest
        }
    }
}

/// Whole-file similarity query over scores computed against every stored
/// fingerprint: rank the scores (keep those at or above the threshold,
/// descending, stable, at most `max_results`), then emit one whole-file
/// match per surviving candidate. `scored` holds one entry per stored
/// fingerprint with the similarity of the query to it; the caller computes
/// those values at the boundary.
///
/// The result is a function of the store contents and the scores alone, so
/// repeating a query over an unchanged store returns the identical list.
pub fn find_similar(
    db: &PaletteDatabase,
    scored: &Vec<ScoredSound>,
    threshold_bits: u64,
    max_results: usize,
) -> (r: Result<Vec<MatchResult>, AudioPaletteError>)
    requires
        db.wf(),
    ensures
        r is Ok,
        r.unwrap()@.map_values(|m: MatchResult| m@) == whole_file_matches(
            db.sounds(),
            ranked_candidates(scored@, threshold_bits, max_results as nat),
        ),
{
    let ranked = crate::rank::rank_candidates(scored, threshold_bits, max_results);
    build_whole_file_matches(db, &ranked)
}

/// Emit one whole-file match per ranked candidate, skipping candidates
/// missing from the store.
pub fn build_whole_file_matches(db: &PaletteDatabase, ranked: &Vec<ScoredSound>) -> (r: Result<
    Vec<MatchResult>,
    AudioPaletteError,
>)
    requires
        db.wf(),
    ensures
        r is Ok,
        r.unwrap()@.map_values(|m: MatchResult| m@) == whole_file_matches(db.sounds(), ranked@),
{
    let mut out: Vec<MatchResult> = Vec::new();
    let n = ranked.len();
    let mut i: usize = 0;
    while i < n
        invariant
            db.wf(),
            n == ranked@.len(),
            i <= n,
            out@.map_values(|m: MatchResult| m@) == whole_file_matches(
                db.sounds(),
                ranked@.take(i as int),
            ),
        decreases n - i,
    {
        let e = ranked[i];
        proof {
            assert(ranked@.take(i + 1).drop_last() =~= ranked@.take(i as int));
            assert(ranked@.take(i + 1).last() == ranked@[i as int]);
        }
        let ghost prev = out@.map_values(|m: MatchResult| m@);
        match db.get_sound(e.sound_id) {
            Ok(Some(sound)) => {
                proof {
                    let k = choose|k: int|
                        0 <= k < db.sounds().len() && (#[trigger] db.sounds()[k]).id == e.sound_id
                            && sound@ == db.sounds()[k];
                    let c = choose|c: int|
                        0 <= c < db.sounds().len() && (#[trigger] db.sounds()[c]).id == e.sound_id;
                    assert(k == c);
                    assert(sound@ == sound_at(db.sounds(), e.sound_id));
                }
                let m = MatchResult {
                    sound_id: sound.id,
                    filepath: sound.filepath,
                    filename: sound.filename,
                    score_bits: e.score_bits,
                    match_start_bits: 0,
                    match_end_bits: sound.duration_bits,
                    file_duration_bits: sound.duration_bits,
                };
                assert(m@ == match_of(sound_at(db.sounds(), e.sound_id), e.score_bits));
                out.push(m);
                proof {
                    assert(out@.map_values(|m: MatchResult| m@) =~= prev.push(
                        match_of(sound_at(db.sounds(), e.sound_id), e.score_bits),
                    ));
                }
            },
            Ok(None) => {
                proof {
                    assert(out@.map_values(|m: MatchResult| m@) =~= prev);
                }
            },
            Err(_) => {
                proof {
                    assert(false);
                }
            },
        }
        i += 1;
    }
    proof {
        assert(ranked@.take(n as int) =~= ranked@);
    }
    Ok(out)
}

/// The candidate records of the coarse pass, each paired with its coarse
/// whole-file score; candidates missing from the store are skipped.
pub open spec fn candidate_pairs(sounds: Seq<SoundRecordView>, ranked: Seq<ScoredSound>) -> Seq<
    (SoundRecordView, u64),
>
    decreases ranked.len(),
{
    if ranked.len() == 0 {
        Seq::empty()
    } else {
        let rest = candidate_pairs(sounds, ranked.drop_last());
        let e = ranked.last();
        if has_sound_id(sounds, e.sound_id) {
            rest.push((sound_at(sounds, e.sound_id), e.score_bits))
        } else {
            rest
        }
    }
}

/// The coarse prefilter of the segmented search: rank the whole-file scores
/// against the slack threshold, keep the top twenty candidates, and fetch
/// their records for the localization pass. Every returned candidate scored
/// at least `coarse_threshold_bits` in the coarse pass.
pub fn coarse_candidates(
    db: &PaletteDatabase,
    scored: &Vec<ScoredSound>,
    coarse_threshold_bits: u64,
) -> (r: Result<Vec<(SoundRecord, u64)>, AudioPaletteError>)
    requires
        db.wf(),
    ensures
        r is Ok,
        r.unwrap()@.map_values(|p: (SoundRecord, u64)| (p.0@, p.1)) == candidate_pairs(
            db.sounds(),
            ranked_candidates(scored@, coarse_threshold_bits, 20),
        ),
        forall|i: int|
            0 <= i < r.unwrap()@.len() ==> (#[trigger] r.unwrap()@[i]).1 >= coarse_threshold_bits,
        r.unwrap()@.len() <= 20,
{
    let ranked = crate::rank::rank_candidates(scored, coarse_threshold_bits, 20);
    proof {
        lemma_ranked_candidates_props(scored@, coarse_threshold_bits, 20);
    }
    let mut out: Vec<(SoundRecord, u64)> = Vec::new();
    let n = ranked.len();
    let mut i: usize = 0;
    while i < n
        invariant
            db.wf(),
            n == ranked@.len(),
            i <= n,
            out@.map_values(|p: (SoundRecord, u64)| (p.0@, p.1)) == candidate_pairs(
                db.sounds(),
                ranked@.take(i as int),
            ),
            out@.len() <= i,
            forall|j: int|
                0 <= j < ranked@.len() ==> (#[trigger] ranked@[j]).score_bits
                    >= coarse_threshold_bits,
            forall|j: int| 0 <= j < out@.len() ==> (#[trigger] out@[j]).1 >= coarse_threshold_bits,
        decreases n - i,
    {
        let e = ranked[i];
        proof {
            assert(ranked@.take(i + 1).drop_last() =~= ranked@.take(i as int));
            assert(ranked@.take(i + 1).last() == ranked@[i as int]);
        }
        let ghost prev = out@.map_values(|p: (SoundRecord, u64)| (p.0@, p.1));
        match db.get_sound(e.sound_id) {
            Ok(Some(sound)) => {
                proof {
                    let k = choose|k: int|
                        0 <= k < db.sounds().len() && (#[trigger] db.sounds()[k]).id == e.sound_id
                            && sound@ == db.sounds()[k];
                    let c = choose|c: int|
                        0 <= c < db.sounds().len() && (#[trigger] db.sounds()[c]).id == e.sound_id;
                    assert(k == c);
                    assert(sound@ == sound_at(db.sounds(), e.sound_id));
                }
                out.push((sound, e.score_bits));
                proof {
                    assert(out@.map_values(|p: (SoundRecord, u64)| (p.0@, p.1)) =~= prev.push(
                        (sound_at(db.sounds(), e.sound_id), e.score_bits),
                    ));
                }
            },
            Ok(None) => {
                proof {
                    assert(out@.map_values(|p: (SoundRecord, u64)| (p.0@, p.1)) =~= prev);
                }
            },
            Err(_) => {
                proof {
                    assert(false);
                }
            },
        }
        i += 1;
    }
    proof {
        assert(ranked@.take(n as int) =~= ranked@);
    }
    Ok(out)
}

/// The hop of the sliding-window search over a file of `len` samples with a
/// window of `w` samples: a quarter window, enlarged so that roughly fifty
/// windows span the file.
pub open spec fn window_hop(len: nat, w: nat) -> int
    recommends
        w <= len,
{
    if w / 4 >= (len - w) / 50 {
        (w / 4) as int
    } else {
        (len - w) / 50
    }
}

/// The sliding-window plan of the segment search: start positions
/// `0, h, 2h, ...` with `h = max(window_samples / 4, (len - window_samples) / 50)`
/// for as long as the window fits in the file. The hop never drops below a
/// quarter window (75% overlap) and is enlarged so that roughly fifty
/// windows cover the file. The precondition admits exactly the inputs on
/// which that hop formula stays positive, so the scan always advances: a
/// window of at least four samples, or a file leaving at least fifty
/// samples of slack for the stretch term.
pub fn window_starts(len: usize, window_samples: usize) -> (r: Vec<usize>)
    requires
        1 <= window_samples <= len,
        window_samples >= 4 || len - window_samples >= 50,
    ensures
        r@.len() >= 1,
        forall|i: int|
            0 <= i < r@.len() ==> (#[trigger] r@[i]) == i * window_hop(
                len as nat,
                window_samples as nat,
            ) && r@[i] + window_samples <= len,
        r@.len() * window_hop(len as nat, window_samples as nat) + window_samples > len,
{
    let quarter = window_samples / 4;
    let stretch = (len - window_samples) / 50;
    let hop = if quarter >= stretch {
        quarter
    } else {
        stretch
    };
    frame_start_positions(len, window_samples, hop)
}

/// The best score of the per-window scores, zero when no window scored
/// above zero.
pub open spec fn best_score(s: Seq<u64>) -> u64
    decreases s.len(),
{
    if s.len() == 0 {
        0
    } else {
        let p = best_score(s.drop_last());
        if s.last() > p {
            s.last()
        } else {
            p
        }
    }
}

/// The window holding the best score: the first window whose score every
/// later window fails to beat. `None` when every score is zero.
pub open spec fn best_index(s: Seq<u64>) -> Option<int>
    decreases s.len(),
{
    if s.len() == 0 {
        None
    } else {
        if s.last() > best_score(s.drop_last()) {
            Some(s.len() - 1)
        } else {
            best_index(s.drop_last())
        }
    }
}

/// Pick the best window of the segment search. `scores` holds one score bit
/// pattern per evaluated window, in window order; a later window replaces
/// the champion only by scoring strictly higher, so the first of equally
/// scoring windows wins. `None` means every window scored zero.
pub fn best_window(scores: &Vec<u64>) -> (r: (u64, Option<usize>))
    ensures
        r.0 == best_score(scores@),
        r.1 is Some <==> best_index(scores@) is Some,
        r.1 matches Some(i) ==> best_index(scores@) == Some(i as int),
{
    let mut best: u64 = 0;
    let mut best_at: Option<usize> = None;
    let n = scores.len();
    let mut i: usize = 0;
    while i < n
        invariant
            n == scores@.len(),
            i <= n,
            best == best_score(scores@.take(i as int)),
            best_at is Some <==> best_index(scores@.take(i as int)) is Some,
            best_at matches Some(k) ==> best_index(scores@.take(i as int)) == Some(k as int),
        decreases n - i,
    {
        proof {
            assert(scores@.take(i + 1).drop_last() =~= scores@.take(i as int));
            assert(scores@.take(i + 1).last() == scores@[i as int]);
        }
        if scores[i] > best {
            best = scores[i];
            best_at = Some(i);
        }
        i += 1;
    }
    proof {
        assert(scores@.take(n as int) =~= scores@);
    }
    (best, best_at)
}

/// What the best-window pick guarantees: the reported score is the maximum,
/// the reported window is the first one attaining it, and no window is
/// reported exactly when every window scored zero.
pub proof fn lemma_best_window_props(s: Seq<u64>)
    ensures
        forall|j: int| 0 <= j < s.len() ==> (#[trigger] s[j]) <= best_score(s),
        best_index(s) matches Some(i) ==> 0 <= i < s.len() && s[i] == best_score(s) && s[i] > 0
            && forall|j: int| 0 <= j < i ==> (#[trigger] s[j]) < best_score(s),
        best_index(s) is None ==> forall|j: int| 0 <= j < s.len() ==> (#[trigger] s[j]) == 0,
        best_index(s) is None ==> best_score(s) == 0,
    decreases s.len(),
{
    if s.len() == 0 {
    } else {
        lemma_best_window_props(s.drop_last());
        assert forall|j: int| 0 <= j < s.len() implies (#[trigger] s[j]) <= best_score(s) by {
            if j < s.len() - 1 {
                assert(s[j] == s.drop_last()[j]);
            }
        }
        match best_index(s) {
            Some(i) => {
                if s.last() > best_score(s.drop_last()) {
                    assert forall|j: int| 0 <= j < i implies (#[trigger] s[j]) < best_score(s) by {
                        assert(s[j] == s.drop_last()[j]);
                    }
                } else {
                    assert forall|j: int| 0 <= j < i implies (#[trigger] s[j]) < best_score(s) by {
                        assert(s[j] == s.drop_last()[j]);
                    }
                    assert(s[i] == s.drop_last()[i]);
                }
            },
            None => {
                assert forall|j: int| 0 <= j < s.len() implies (#[trigger] s[j]) == 0 by {
                    if j < s.len() - 1 {
                        assert(s[j] == s.drop_last()[j]);
                    }
                }
            },
        }
    }
}

/// One scored entry per match, keyed by the match's position in the list.
pub open spec fn index_scored(rs: Seq<MatchResultView>) -> Seq<ScoredSound> {
    Seq::new(
        rs.len(),
        |i: int| ScoredSound { sound_id: i as i64, score_bits: rs[i].score_bits },
    )
}

/// The final selection of the segmented search: the matches scoring at
/// least `threshold_bits`, in descending score order with the stable
/// first-seen tiebreak, cut off after `cap` entries.
pub open spec fn finalized_matches(rs: Seq<MatchResultView>, threshold_bits: u64, cap: nat) -> Seq<
    MatchResultView,
> {
    ranked_candidates(index_scored(rs), threshold_bits, cap).map_values(
        |e: ScoredSound| rs[e.sound_id as int],
    )
}

/// The last step of the segmented search: drop refined matches scoring
/// under the query threshold, sort the rest by descending score (stable, so
/// equally scored matches keep their first-seen order) and truncate to
/// `max_results`.
pub fn finalize_matches(results: &Vec<MatchResult>, threshold_bits: u64, max_results: usize) -> (r:
    Vec<MatchResult>)
    requires
        results@.len() <= 0x7fff_ffff_ffff_ffff,
    ensures
        r@.map_values(|m: MatchResult| m@) == finalized_matches(
            results@.map_values(|m: MatchResult| m@),
            threshold_bits,
            max_results as nat,
        ),
{
    let ghost rv = results@.map_values(|m: MatchResult| m@);
    let n = results.len();
    let mut scored: Vec<ScoredSound> = Vec::new();
    let mut i: usize = 0;
    while i < n
        invariant
            n == results@.len(),
            n <= 0x7fff_ffff_ffff_ffff,
            i <= n,
            rv == results@.map_values(|m: MatchResult| m@),
            scored@ =~= index_scored(rv).take(i as int),
        decreases n - i,
    {
        scored.push(ScoredSound { sound_id: i as i64, score_bits: results[i].score_bits });
        proof {
            assert(scored@ =~= index_scored(rv).take(i + 1));
        }
        i += 1;
    }
    proof {
        assert(scored@ =~= index_scored(rv));
        lemma_ranked_candidates_props(index_scored(rv), threshold_bits, max_results as nat);
    }
    let ranked = crate::rank::rank_candidates(&scored, threshold_bits, max_results);
    let m = ranked.len();
    let mut out: Vec<MatchResult> = Vec::new();
    let mut k: usize = 0;
    while k < m
        invariant
            n == results@.len(),
            n <= 0x7fff_ffff_ffff_ffff,
            m == ranked@.len(),
            k <= m,
            rv == results@.map_values(|m: MatchResult| m@),
            ranked@ == ranked_candidates(index_scored(rv), threshold_bits, max_results as nat),
            forall|j: int|
                0 <= j < ranked@.len() ==> index_scored(rv).contains(#[trigger] ranked@[j]),
            out@.map_values(|m: MatchResult| m@) =~= finalized_matches(
                rv,
                threshold_bits,
                max_results as nat,
            ).take(k as int),
        decreases m - k,
    {
        let e = ranked[k];
        proof {
            assert(index_scored(rv).contains(e));
            let j = choose|j: int|
                0 <= j < index_scored(rv).len() && index_scored(rv)[j] == e;
            assert(e.sound_id == j as i64);
            assert(0 <= e.sound_id < n as i64);
            assert(rv[e.sound_id as int].score_bits == e.score_bits);
        }
        let idx = e.sound_id as usize;
        let picked = results[idx].clone();
        let ghost prev = out@.map_values(|m: MatchResult| m@);
        proof {
            assert(picked@ == rv[e.sound_id as int]);
        }
        out.push(picked);
        proof {
            let fin = finalized_matches(rv, threshold_bits, max_results as nat);
            assert(fin.len() == m);
            assert(ranked@[k as int] == e);
            assert(fin[k as int] == rv[e.sound_id as int]);
            assert(out@.map_values(|m: MatchResult| m@) =~= prev.push(rv[e.sound_id as int]));
            assert(fin.take(k + 1) =~= prev.push(rv[e.sound_id as int]));
            assert(out@.map_values(|m: MatchResult| m@) =~= fin.take(k + 1));
        }
        k += 1;
    }
    proof {
        assert(finalized_matches(rv, threshold_bits, max_results as nat).take(m as int)
            =~= finalized_matches(rv, threshold_bits, max_results as nat));
    }
    out
}

/// What the final selection guarantees: at most `cap` matches, each scoring
/// at least the query threshold, in descending score order. Together with
/// the coarse-pass guarantee of `coarse_candidates` (every candidate of the
/// localization pass scored at least the slack threshold) this is the
/// two-pass score guarantee of the segmented search.
pub proof fn lemma_finalized_matches_meet_threshold(
    rs: Seq<MatchResultView>,
    threshold_bits: u64,
    cap: nat,
)
    requires
        rs.len() <= 0x7fff_ffff_ffff_ffff,
    ensures
        finalized_matches(rs, threshold_bits, cap).len() <= cap,
        forall|i: int|
            0 <= i < finalized_matches(rs, threshold_bits, cap).len() ==> (
            #[trigger] finalized_matches(rs, threshold_bits, cap)[i]).score_bits >= threshold_bits,
        forall|i: int, j: int|
            0 <= i < j < finalized_matches(rs, threshold_bits, cap).len() ==> (
            #[trigger] finalized_matches(rs, threshold_bits, cap)[i]).score_bits >= (
            #[trigger] finalized_matches(rs, threshold_bits, cap)[j]).score_bits,
{
    lemma_ranked_candidates_props(index_scored(rs), threshold_bits, cap);
    let ranked = ranked_candidates(index_scored(rs), threshold_bits, cap);
    let fin = finalized_matches(rs, threshold_bits, cap);
    assert forall|i: int| 0 <= i < fin.len() implies (#[trigger] fin[i]).score_bits
        >= threshold_bits by {
        assert(index_scored(rs).contains(ranked[i]));
        let j = choose|j: int|
            0 <= j < index_scored(rs).len() && index_scored(rs)[j] == ranked[i];
        assert(ranked[i].sound_id == j as i64);
        assert(0 <= ranked[i].sound_id < rs.len());
        assert(fin[i] == rs[ranked[i].sound_id as int]);
        assert(fin[i].score_bits == ranked[i].score_bits);
    }
    assert forall|i: int, j: int| 0 <= i < j < fin.len() implies (
    #[trigger] fin[i]).score_bits >= (#[trigger] fin[j]).score_bits by {
        assert(index_scored(rs).contains(ranked[i]));
        let a = choose|a: int|
            0 <= a < index_scored(rs).len() && index_scored(rs)[a] == ranked[i];
        assert(ranked[i].sound_id == a as i64);
        assert(index_scored(rs).contains(ranked[j]));
        let b = choose|b: int|
            0 <= b < index_scored(rs).len() && index_scored(rs)[b] == ranked[j];
        assert(ranked[j].sound_id == b as i64);
        assert(fin[i].score_bits == ranked[i].score_bits);
        assert(fin[j].score_bits == ranked[j].score_bits);
        assert(ranked[i].score_bits >= ranked[j].score_bits);
    }
}

/// `id` survived the coarse pass: some candidate of the slack-threshold
/// ranking carries it, and that candidate's whole-file score met the slack
/// threshold.
pub open spec fn is_coarse_candidate(
    sounds: Seq<SoundRecordView>,
    scored: Seq<ScoredSound>,
    coarse_threshold_bits: u64,
    id: i64,
) -> bool {
    exists|j: int|
        0 <= j < candidate_pairs(
            sounds,
            ranked_candidates(scored, coarse_threshold_bits, 20),
        ).len() && (#[trigger] candidate_pairs(
            sounds,
            ranked_candidates(scored, coarse_threshold_bits, 20),
        )[j]).0.id == id && candidate_pairs(
            sounds,
            ranked_candidates(scored, coarse_threshold_bits, 20),
        )[j].1 >= coarse_threshold_bits
}

/// The two-pass score guarantee of the segmented search in one statement:
/// when every refined match was built for a coarse candidate — which is
/// where the localization pass gets its files — every match the final
/// selection surfaces scores at least the query threshold, and its sound
/// scored at least the slack threshold in the coarse whole-file pass.
pub proof fn lemma_two_pass_scores(
    sounds: Seq<SoundRecordView>,
    scored: Seq<ScoredSound>,
    coarse_threshold_bits: u64,
    threshold_bits: u64,
    rs: Seq<MatchResultView>,
    cap: nat,
)
    requires
        rs.len() <= 0x7fff_ffff_ffff_ffff,
        forall|i: int|
            0 <= i < rs.len() ==> is_coarse_candidate(
                sounds,
                scored,
                coarse_threshold_bits,
                (#[trigger] rs[i]).sound_id,
            ),
    ensures
        forall|i: int|
            0 <= i < finalized_matches(rs, threshold_bits, cap).len() ==> {
                let m = #[trigger] finalized_matches(rs, threshold_bits, cap)[i];
                m.score_bits >= threshold_bits && is_coarse_candidate(
                    sounds,
                    scored,
                    coarse_threshold_bits,
                    m.sound_id,
                )
            },
{
    lemma_finalized_matches_meet_threshold(rs, threshold_bits, cap);
    lemma_ranked_candidates_props(index_scored(rs), threshold_bits, cap);
    let ranked = ranked_candidates(index_scored(rs), threshold_bits, cap);
    let fin = finalized_matches(rs, threshold_bits, cap);
    assert forall|i: int| 0 <= i < fin.len() implies {
        let m = #[trigger] fin[i];
        m.score_bits >= threshold_bits && is_coarse_candidate(
            sounds,
            scored,
            coarse_threshold_bits,
            m.sound_id,
        )
    } by {
        assert(index_scored(rs).contains(ranked[i]));
        let j = choose|j: int| 0 <= j < index_scored(rs).len() && index_scored(rs)[j] == ranked[i];
        assert(ranked[i].sound_id == j as i64);
        assert(fin[i] == rs[j]);
        assert(is_coarse_candidate(sounds, scored, coarse_threshold_bits, rs[j].sound_id));
    }
}

/// Every whole-file match spans its file exactly: the range starts at zero
/// and ends at the file duration.
pub proof fn lemma_whole_file_match_bounds(sounds: Seq<SoundRecordView>, ranked: Seq<ScoredSound>)
    ensures
        forall|i: int|
            0 <= i < whole_file_matches(sounds, ranked).len() ==> {
                let m = #[trigger] whole_file_matches(sounds, ranked)[i];
                m.match_start_bits == 0 && m.match_end_bits == m.file_duration_bits
            },
    decreases ranked.len(),
{
    if ranked.len() == 0 {
    } else {
        lemma_whole_file_match_bounds(sounds, ranked.drop_last());
        let t = whole_file_matches(sounds, ranked);
        let rest = whole_file_matches(sounds, ranked.drop_last());
        assert forall|i: int| 0 <= i < t.len() implies {
            let m = #[trigger] t[i];
            m.match_start_bits == 0 && m.match_end_bits == m.file_duration_bits
        } by {
            if i < rest.len() {
                assert(t[i] == rest[i]);
            }
        }
    }
}

} // verus!
