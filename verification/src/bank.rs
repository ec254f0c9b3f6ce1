//! The waveform store: the instrument sample bank, read eagerly from bytes.

use vstd::prelude::*;

use crate::bytes::{be24, read_u24_be};
use crate::error::{ConfigError, IoError};

verus! {

/// Bytes reinterpreted as signed 8-bit PCM samples, two's complement.
pub open spec fn as_signed(s: Seq<u8>) -> Seq<i8> {
    Seq::new(s.len(), |i: int| s[i] as i8)
}

/// How many melodic waveforms the bank holds.
pub open spec fn melodic_count(data: Seq<u8>) -> int {
    data[0] as int
}

/// The fixed cycle length shared by all melodic waveforms.
pub open spec fn cycle_length(data: Seq<u8>) -> int {
    be24(data, 1)
}

/// Where melodic waveform `i` starts.
pub open spec fn melodic_start(data: Seq<u8>, i: int) -> int {
    4 + i * cycle_length(data)
}

/// Where the drum section starts: right after the melodic blocks.
pub open spec fn drum_section(data: Seq<u8>) -> int {
    4 + melodic_count(data) * cycle_length(data)
}

/// How many drum samples the bank holds.
pub open spec fn drum_count(data: Seq<u8>) -> int {
    data[drum_section(data)] as int
}

/// Where drum block `k` starts; each block is a 3-byte big-endian length
/// followed by that many sample bytes.
pub open spec fn drum_start(data: Seq<u8>, k: int) -> int
    decreases k,
{
    if k <= 0 {
        drum_section(data) + 3
    } else {
        drum_start(data, k - 1) + 3 + be24(data, drum_start(data, k - 1))
    }
}

/// The sample count of drum `k`.
pub open spec fn drum_len(data: Seq<u8>, k: int) -> int {
    be24(data, drum_start(data, k))
}

/// The first `k` drum blocks fit in `data`.
pub open spec fn drums_fit(data: Seq<u8>, k: int) -> bool
    decreases k,
{
    if k <= 0 {
        true
    } else {
        drums_fit(data, k - 1) && drum_start(data, k) <= data.len()
    }
}

/// Every block boundary of the first `b` drum blocks lies inside `data`.
pub proof fn lemma_drums_fit_prefix(data: Seq<u8>, a: int, b: int)
    requires
        0 <= a <= b,
        drums_fit(data, b),
    ensures
        drums_fit(data, a),
        a > 0 ==> drum_start(data, a) <= data.len(),
    decreases b,
{
    if a < b {
        lemma_drums_fit_prefix(data, a, b - 1);
    }
}

/// The whole bank fits in `data`: the melodic header and blocks, the drum
/// header, and every drum block.
pub open spec fn bank_ok(data: Seq<u8>) -> bool {
    &&& data.len() >= 4
    &&& drum_section(data) + 3 <= data.len()
    &&& drums_fit(data, drum_count(data))
}

/// Copies `data[start..start + n]` as signed 8-bit samples.
fn copy_signed(data: &Vec<u8>, start: usize, n: usize) -> (r: Vec<i8>)
    requires
        start + n <= data@.len(),
    ensures
        r@ == as_signed(data@.subrange(start as int, start + n)),
{
    let _n: usize = data.len();
    let mut out: Vec<i8> = Vec::new();
    let mut j: usize = 0;
    while j < n
        invariant
            start + n <= data@.len(),
            data@.len() <= usize::MAX,
            j <= n,
            out@.len() == j,
            forall|k: int| 0 <= k < j ==> out@[k] == data@[start + k] as i8,
        decreases n - j,
    {
        out.push(data[start + j] as i8);
        j = j + 1;
    }
    proof {
        assert(out@ =~= as_signed(data@.subrange(start as int, start + n)));
    }
    out
}

/// The loaded waveform bank: raw signed 8-bit PCM, one buffer per
/// instrument.
pub struct WaveformBank {
    /// The melodic waveforms, each one fixed cycle long.
    pub sounds: Vec<Vec<i8>>,
    /// The one-shot drum samples, each of its own length.
    pub drums: Vec<Vec<i8>>,
}

impl WaveformBank {
    /// Reads the whole bank eagerly out of `data`: a melodic count, the
    /// shared cycle length, the melodic blocks, then a drum count, two
    /// reserved bytes, and the length-prefixed drum blocks.
    pub fn load(data: &Vec<u8>) -> (r: Result<WaveformBank, IoError>)
        ensures
            match r {
                Ok(bank) => {
                    &&& bank_ok(data@)
                    &&& bank.sounds@.len() == melodic_count(data@)
                    &&& forall|i: int|
                        0 <= i < melodic_count(data@) ==> (#[trigger] bank.sounds@[i])@
                            == as_signed(
                            data@.subrange(
                                melodic_start(data@, i),
                                melodic_start(data@, i) + cycle_length(data@),
                            ),
                        )
                    &&& bank.drums@.len() == drum_count(data@)
                    &&& forall|k: int|
                        0 <= k < drum_count(data@) ==> (#[trigger] bank.drums@[k])@ == as_signed(
                            data@.subrange(
                                drum_start(data@, k) + 3,
                                drum_start(data@, k) + 3 + drum_len(data@, k),
                            ),
                        )
                },
                Err(_) => !bank_ok(data@),
            },
    {
        let len: usize = data.len();
        if len < 4 {
            return Err(IoError);
        }
        let mqty: usize = data[0] as usize;
        let mlen: usize = read_u24_be(data, 1) as usize;
        let mut sounds: Vec<Vec<i8>> = Vec::new();
        let mut ptr: usize = 4;
        let mut i: usize = 0;
        while i < mqty
            invariant
                len == data@.len(),
                len >= 4,
                data@.len() <= usize::MAX,
                mqty == melodic_count(data@),
                mlen == cycle_length(data@),
                i <= mqty,
                ptr == melodic_start(data@, i as int),
                ptr <= len,
                sounds@.len() == i,
                forall|k: int|
                    0 <= k < i ==> (#[trigger] sounds@[k])@ == as_signed(
                        data@.subrange(
                            melodic_start(data@, k),
                            melodic_start(data@, k) + cycle_length(data@),
                        ),
                    ),
            decreases mqty - i,
        {
            if len - ptr < mlen {
                proof {
                    assert((mqty - i) * mlen >= 1 * mlen) by (nonlinear_arith)
                        requires
                            mqty - i >= 1,
                            mlen >= 0,
                    ;
                    assert(drum_section(data@) == 4 + mqty * mlen);
                    assert(4 + mqty * mlen >= ptr + mlen) by (nonlinear_arith)
                        requires
                            ptr == 4 + i * mlen,
                            (mqty - i) * mlen >= 1 * mlen,
                    ;
                }
                return Err(IoError);
            }
            let block = copy_signed(data, ptr, mlen);
            sounds.push(block);
            ptr = ptr + mlen;
            i = i + 1;
            proof {
                assert(i * mlen == (i - 1) * mlen + mlen) by (nonlinear_arith);
            }
        }
        // ptr is now the drum section: count byte plus two reserved bytes.
        if len - ptr < 3 {
            return Err(IoError);
        }
        let dqty: usize = data[ptr] as usize;
        let mut drums: Vec<Vec<i8>> = Vec::new();
        let mut dptr: usize = ptr + 3;
        let mut k: usize = 0;
        while k < dqty
            invariant
                len == data@.len(),
                data@.len() <= usize::MAX,
                dqty == drum_count(data@),
                bank_ok_head(data@),
                k <= dqty,
                dptr == drum_start(data@, k as int),
                dptr <= len,
                drums_fit(data@, k as int),
                drums@.len() == k,
                forall|j: int|
                    0 <= j < k ==> (#[trigger] drums@[j])@ == as_signed(
                        data@.subrange(
                            drum_start(data@, j) + 3,
                            drum_start(data@, j) + 3 + drum_len(data@, j),
                        ),
                    ),
            decreases dqty - k,
        {
            if len - dptr < 3 {
                proof {
                    if drums_fit(data@, drum_count(data@)) {
                        lemma_drums_fit_prefix(data@, k + 1, drum_count(data@));
                    }
                }
                return Err(IoError);
            }
            let dl: usize = read_u24_be(data, dptr) as usize;
            if (len - dptr) - 3 < dl {
                proof {
                    if drums_fit(data@, drum_count(data@)) {
                        lemma_drums_fit_prefix(data@, k + 1, drum_count(data@));
                    }
                }
                return Err(IoError);
            }
            let block = copy_signed(data, dptr + 3, dl);
            drums.push(block);
            dptr = dptr + 3 + dl;
            k = k + 1;
        }
        Ok(WaveformBank { sounds, drums })
    }

    /// Resolves an instrument index and a drum/melodic flag into that
    /// instrument's waveform.
    pub fn resolve(&self, instrument: u8, is_drum: bool) -> (r: Result<&Vec<i8>, ConfigError>)
        ensures
            match r {
                Ok(w) => {
                    if is_drum {
                        instrument < self.drums@.len() && *w == self.drums@[instrument as int]
                    } else {
                        instrument < self.sounds@.len() && *w == self.sounds@[instrument as int]
                    }
                },
                Err(_) => {
                    if is_drum {
                        instrument >= self.drums@.len()
                    } else {
                        instrument >= self.sounds@.len()
                    }
                },
            },
    {
        if is_drum {
            if (instrument as usize) < self.drums.len() {
                Ok(&self.drums[instrument as usize])
            } else {
                Err(ConfigError)
            }
        } else {
            if (instrument as usize) < self.sounds.len() {
                Ok(&self.sounds[instrument as usize])
            } else {
                Err(ConfigError)
            }
        }
    }
}

/// The bank's two headers fit in `data`.
pub open spec fn bank_ok_head(data: Seq<u8>) -> bool {
    &&& data.len() >= 4
    &&& drum_section(data) + 3 <= data.len()
}

} // verus!
