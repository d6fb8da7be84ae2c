use vstd::prelude::*;

verus! {

/// Frame layout shared by the spectral feature extractors: analysis windows
/// of `n_fft` samples advanced by `hop_length` over the signal.
pub struct SpectralExtractor {
    pub n_fft: usize,
    pub hop_length: usize,
}

impl SpectralExtractor {
    pub fn new(n_fft: usize, hop_length: usize) -> (r: Self)
        ensures
            r.n_fft == n_fft,
            r.hop_length == hop_length,
    {
        SpectralExtractor { n_fft, hop_length }
    }

    /// Start positions of the full analysis frames over a signal of `len`
    /// samples: `0, hop, 2*hop, ...` for as long as `start + n_fft <= len`.
    /// A signal shorter than one frame yields no frames.
    pub fn frame_starts(&self, len: usize) -> (r: Vec<usize>)
        requires
            self.hop_length > 0,
            self.n_fft > 0,
        ensures
            forall|i: int|
                0 <= i < r@.len() ==> (#[trigger] r@[i]) == i * self.hop_length && r@[i] + self.n_fft <= len,
            r@.len() >= 1 <==> self.n_fft <= len,
            r@.len() * self.hop_length + self.n_fft > len,
    {
        frame_start_positions(len, self.n_fft, self.hop_length)
    }
}

/// The number of start positions `0, hop, 2*hop, ...` below `len`.
pub open spec fn start_count(len: nat, hop: nat) -> int
    recommends
        hop > 0,
{
    (len + hop - 1) as int / hop as int
}

/// The energy frames over the first `n` start positions: each frame spans
/// from its start to `frame` samples later, truncated at the signal end,
/// and is retained only when at least 64 samples long.
pub open spec fn rms_frames(len: nat, frame: nat, hop: nat, n: nat) -> Seq<(usize, usize)>
    decreases n,
{
    if n == 0 {
        Seq::empty()
    } else {
        let rest = rms_frames(len, frame, hop, (n - 1) as nat);
        let s = (n - 1) * hop;
        let e: int = if s + frame >= len {
            len as int
        } else {
            s + frame
        };
        if e - s >= 64 {
            rest.push((s as usize, e as usize))
        } else {
            rest
        }
    }
}

/// The frame bounds of the energy (RMS) analysis: frames of `frame` samples
/// advanced by `hop`, starting at every multiple of `hop` below `len`,
/// truncated at the signal end; frames shorter than 64 samples are dropped.
pub fn rms_frame_bounds(len: usize, frame: usize, hop: usize) -> (r: Vec<(usize, usize)>)
    requires
        hop > 0,
    ensures
        r@ == rms_frames(
            len as nat,
            frame as nat,
            hop as nat,
            start_count(len as nat, hop as nat) as nat,
        ),
{
    let mut r: Vec<(usize, usize)> = Vec::new();
    if len == 0 {
        proof {
            assert((hop - 1) as int / hop as int == 0) by (nonlinear_arith)
                requires
                    hop > 0,
            ;
            assert(r@ =~= rms_frames(0nat, frame as nat, hop as nat, 0nat));
        }
        return r;
    }
    let mut pos: usize = 0;
    let ghost mut i: nat = 0nat;
    loop
        invariant_except_break
            pos == i * hop,
            pos < len,
        invariant
            hop > 0,
            len > 0,
            r@ == rms_frames(len as nat, frame as nat, hop as nat, i),
        ensures
            r@ == rms_frames(len as nat, frame as nat, hop as nat, i),
            i >= 1,
            i * hop >= len,
            (i - 1) * hop < len,
        decreases len - pos,
    {
        let e = if frame >= len - pos {
            len
        } else {
            pos + frame
        };
        proof {
            assert((i + 1nat) * hop == i * hop + hop) by (nonlinear_arith);
            assert(rms_frames(len as nat, frame as nat, hop as nat, i + 1nat) == {
                let rest = rms_frames(len as nat, frame as nat, hop as nat, i);
                let s = i * hop;
                let ee: int = if s + frame >= len {
                    len as int
                } else {
                    s + frame
                };
                if ee - s >= 64 {
                    rest.push((s as usize, ee as usize))
                } else {
                    rest
                }
            });
        }
        if e - pos >= 64 {
            r.push((pos, e));
        }
        if hop >= len - pos {
            proof {
                i = i + 1nat;
                assert(i * hop == (i - 1) * hop + hop) by (nonlinear_arith);
            }
            break ;
        }
        pos = pos + hop;
        proof {
            i = i + 1nat;
            assert(i * hop == (i - 1) * hop + hop) by (nonlinear_arith);
        }
    }
    proof {
        let l = len as nat;
        let h = hop as nat;
        assert((l + h - 1) as int / h as int == i as int) by (nonlinear_arith)
            requires
                h > 0,
                i >= 1,
                (i - 1) * h < l,
                i * h >= l,
        ;
    }
    r
}

/// Start positions `0, hop, 2*hop, ...` of the frames of size `frame` that
/// fit wholly inside a signal of `len` samples.
pub fn frame_start_positions(len: usize, frame: usize, hop: usize) -> (r: Vec<usize>)
    requires
        hop > 0,
        frame > 0,
    ensures
        forall|i: int| 0 <= i < r@.len() ==> (#[trigger] r@[i]) == i * hop && r@[i] + frame <= len,
        r@.len() >= 1 <==> frame <= len,
        r@.len() * hop + frame > len,
{
    let mut r: Vec<usize> = Vec::new();
    if frame > len {
        proof {
            assert(0int * hop == 0) by (nonlinear_arith);
        }
        return r;
    }
    let limit = len - frame;
    let mut pos: usize = 0;
    loop
        invariant_except_break
            pos == r@.len() * hop,
            pos <= limit,
        invariant
            hop > 0,
            frame > 0,
            frame <= len,
            limit == len - frame,
            forall|i: int| 0 <= i < r@.len() ==> (#[trigger] r@[i]) == i * hop && r@[i] + frame <= len,
        ensures
            r@.len() >= 1,
            r@.len() * hop + frame > len,
        decreases limit - pos,
    {
        let ghost r0 = r@;
        r.push(pos);
        proof {
            let k = r@.len() as int;
            assert(k * hop == (k - 1) * hop + hop) by (nonlinear_arith);
            assert forall|i: int| 0 <= i < k implies (#[trigger] r@[i]) == i * hop && r@[i] + frame <= len by {
                if i < k - 1 {
                    assert(r@[i] == r0[i]);
                } else {
                    assert(r@[i] == pos);
                }
            }
        }
        if hop > limit - pos {
            break;
        }
        pos = pos + hop;
    }
    r
}

} // verus!
