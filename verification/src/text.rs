//! UTF-8 validity of a byte range, used to validate the song's format tag.

use vstd::prelude::*;

verus! {

/// A UTF-8 continuation byte.
pub open spec fn is_cont(b: u8) -> bool {
    0x80 <= b <= 0xBF
}

/// `s` is a well-formed UTF-8 byte sequence.
pub open spec fn is_utf8(s: Seq<u8>) -> bool
    decreases s.len(),
{
    if s.len() == 0 {
        true
    } else {
        let b0 = s[0];
        if b0 < 0x80 {
            is_utf8(s.skip(1))
        } else if 0xC2 <= b0 && b0 <= 0xDF {
            s.len() >= 2 && is_cont(s[1]) && is_utf8(s.skip(2))
        } else if b0 == 0xE0 {
            s.len() >= 3 && 0xA0 <= s[1] && s[1] <= 0xBF && is_cont(s[2]) && is_utf8(s.skip(3))
        } else if 0xE1 <= b0 && b0 <= 0xEC || 0xEE <= b0 && b0 <= 0xEF {
            s.len() >= 3 && is_cont(s[1]) && is_cont(s[2]) && is_utf8(s.skip(3))
        } else if b0 == 0xED {
            s.len() >= 3 && 0x80 <= s[1] && s[1] <= 0x9F && is_cont(s[2]) && is_utf8(s.skip(3))
        } else if b0 == 0xF0 {
            s.len() >= 4 && 0x90 <= s[1] && s[1] <= 0xBF && is_cont(s[2]) && is_cont(s[3])
                && is_utf8(s.skip(4))
        } else if 0xF1 <= b0 && b0 <= 0xF3 {
            s.len() >= 4 && is_cont(s[1]) && is_cont(s[2]) && is_cont(s[3]) && is_utf8(s.skip(4))
        } else if b0 == 0xF4 {
            s.len() >= 4 && 0x80 <= s[1] && s[1] <= 0x8F && is_cont(s[2]) && is_cont(s[3])
                && is_utf8(s.skip(4))
        } else {
            false
        }
    }
}

/// Decides whether `data[start..start + len]` is well-formed UTF-8.
pub fn check_utf8(data: &Vec<u8>, start: usize, len: usize) -> (r: bool)
    requires
        start + len <= data@.len(),
    ensures
        r == is_utf8(data@.subrange(start as int, start + len)),
{
    let ghost w = data@.subrange(start as int, start + len);
    let _n: usize = data.len();
    proof {
        assert(w.skip(0) =~= w);
    }
    let mut i: usize = 0;
    while i < len
        invariant
            start + len <= data@.len(),
            data@.len() <= usize::MAX,
            i <= len,
            w == data@.subrange(start as int, start + len),
            is_utf8(w) == is_utf8(w.skip(i as int)),
        decreases len - i,
    {
        proof {
            assert forall|k: int| 0 <= k < len - i implies w.skip(i as int)[k] == data@[start + i
                + k] by {}
        }
        let b0: u8 = data[start + i];
        let step: usize;
        if b0 < 0x80 {
            step = 1;
        } else if 0xC2 <= b0 && b0 <= 0xDF {
            if len - i < 2 {
                return false;
            }
            let b1: u8 = data[start + i + 1];
            if !(0x80 <= b1 && b1 <= 0xBF) {
                return false;
            }
            step = 2;
        } else if 0xE0 <= b0 && b0 <= 0xEF {
            if len - i < 3 {
                return false;
            }
            let b1: u8 = data[start + i + 1];
            let b2: u8 = data[start + i + 2];
            let lo: u8 = if b0 == 0xE0 {
                0xA0
            } else {
                0x80
            };
            let hi: u8 = if b0 == 0xED {
                0x9F
            } else {
                0xBF
            };
            if !(lo <= b1 && b1 <= hi) || !(0x80 <= b2 && b2 <= 0xBF) {
                return false;
            }
            step = 3;
        } else if 0xF0 <= b0 && b0 <= 0xF4 {
            if len - i < 4 {
                return false;
            }
            let b1: u8 = data[start + i + 1];
            let b2: u8 = data[start + i + 2];
            let b3: u8 = data[start + i + 3];
            let lo: u8 = if b0 == 0xF0 {
                0x90
            } else {
                0x80
            };
            let hi: u8 = if b0 == 0xF4 {
                0x8F
            } else {
                0xBF
            };
            if !(lo <= b1 && b1 <= hi) || !(0x80 <= b2 && b2 <= 0xBF) || !(0x80 <= b3 && b3
                <= 0xBF) {
                return false;
            }
            step = 4;
        } else {
            return false;
        }
        proof {
            assert(w.skip(i as int).skip(step as int) =~= w.skip(i + step));
        }
        i = i + step;
    }
    proof {
        assert(w.skip(i as int) =~= Seq::<u8>::empty());
    }
    true
}

} // verus!
