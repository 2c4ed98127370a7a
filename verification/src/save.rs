//! Tiny save blob: puzzle progress and settings. Front ends store it wherever
//! their platform keeps 12 bytes (a file, local storage, the SD card).

use crate::online::{le_seq, le_value, pow256};
use vstd::prelude::*;

verus! {

#[derive(Clone, Copy, Debug, PartialEq, Eq, Structural)]
pub struct SaveData {
    /// Bitmask of solved built-in puzzles.
    pub solved: u32,
    /// Strict mode: ghost preview disabled everywhere.
    pub strict: bool,
    /// Last Adversary difficulty (1–5).
    pub level: u8,
}

impl Default for SaveData {
    fn default() -> (s: SaveData)
        ensures
            s == (SaveData { solved: 0, strict: false, level: 2 }),
    {
        SaveData { solved: 0, strict: false, level: 2 }
    }
}

/// The magic bytes `TPL1`.
pub open spec fn save_magic() -> Seq<u8> {
    seq![0x54u8, 0x50, 0x4C, 0x31]
}

/// `TPL1`, the solved mask (LE), the strict flag, the level, and two
/// reserved zero bytes: twelve bytes in all.
pub open spec fn save_bytes_of(s: SaveData) -> Seq<u8> {
    save_magic() + le_seq(s.solved as nat, 4) + seq![if s.strict { 1u8 } else { 0u8 }, s.level, 0u8, 0u8]
}

/// Reading a blob: at least the ten meaningful bytes, starting with the magic; the level is clamped
/// into 1..=5; any non-zero strict byte means strict.
pub open spec fn save_from_bytes_of(b: Seq<u8>) -> Option<SaveData> {
    if b.len() < 10 || b.subrange(0, 4) != save_magic() {
        None
    } else {
        Some(
            SaveData {
                solved: le_value(b.subrange(4, 8)) as u32,
                strict: b[8] != 0,
                level: if b[9] < 1 {
                    1
                } else if b[9] > 5 {
                    5
                } else {
                    b[9]
                },
            },
        )
    }
}

impl SaveData {
    pub fn to_bytes(&self) -> (v: Vec<u8>)
        ensures
            v@ == save_bytes_of(*self),
            v@.len() == 12,
    {
        let mut v: Vec<u8> = Vec::new();
        v.push(0x54);
        v.push(0x50);
        v.push(0x4C);
        v.push(0x31);
        let ghost head = v@;
        let mut x: u32 = self.solved;
        let mut i: usize = 0;
        assert(pow256(0) == 1);
        while i < 4
            invariant
                i <= 4,
                head == save_magic(),
                x == (self.solved as nat) / pow256(i as nat),
                v@ == head + le_seq(self.solved as nat, i as nat),
            decreases 4 - i,
        {
            proof {
                crate::online::lemma_pow256_div(self.solved as nat, i as nat);
            }
            v.push((x % 256) as u8);
            x = x / 256;
            assert(v@ =~= head + le_seq(self.solved as nat, (i + 1) as nat));
            i = i + 1;
        }
        v.push(
            if self.strict {
                1
            } else {
                0
            },
        );
        v.push(self.level);
        v.push(0);
        v.push(0);
        v
    }

    pub fn from_bytes(b: &[u8]) -> (r: Option<SaveData>)
        ensures
            r == save_from_bytes_of(b@),
    {
        if b.len() < 10 || b[0] != 0x54 || b[1] != 0x50 || b[2] != 0x4C || b[3] != 0x31 {
            proof {
                if b@.len() >= 10 && b@.subrange(0, 4) == save_magic() {
                    assert(b@.subrange(0, 4)[0] == b@[0]);
                    assert(b@.subrange(0, 4)[1] == b@[1]);
                    assert(b@.subrange(0, 4)[2] == b@[2]);
                    assert(b@.subrange(0, 4)[3] == b@[3]);
                }
            }
            return None;
        }
        assert(b@.subrange(0, 4) =~= save_magic());
        let mut solved: u32 = 0;
        let mut j: usize = 8;
        assert(b@.subrange(8, 8) =~= Seq::<u8>::empty());
        while j > 4
            invariant
                4 <= j <= 8,
                b@.len() >= 10,
                solved as nat == le_value(b@.subrange(j as int, 8)),
            decreases j,
        {
            proof {
                let s = b@.subrange(j - 1, 8);
                assert(s.drop_first() =~= b@.subrange(j as int, 8));
                crate::online::lemma_le_bound(s);
                assert(pow256(4) == 0x1_0000_0000) by {
                    reveal_with_fuel(pow256, 5);
                }
                crate::online::lemma_pow256_mono(s.len(), 4);
            }
            solved = (b[j - 1] as u32) + 256 * solved;
            j = j - 1;
        }
        let lv = b[9];
        Some(
            SaveData {
                solved,
                strict: b[8] != 0,
                level: if lv < 1 {
                    1
                } else if lv > 5 {
                    5
                } else {
                    lv
                },
            },
        )
    }
}

/// A save blob reads back as the settings it was written from, for any level
/// in 1..=5.
pub proof fn lemma_save_round_trip(s: SaveData)
    requires
        1 <= s.level <= 5,
    ensures
        save_from_bytes_of(save_bytes_of(s)) == Some(s),
{
    let b = save_bytes_of(s);
    assert(b.subrange(0, 4) =~= save_magic());
    assert(b.subrange(4, 8) =~= le_seq(s.solved as nat, 4));
    assert(pow256(4) == 0x1_0000_0000) by {
        reveal_with_fuel(pow256, 5);
    }
    crate::online::lemma_le_round_trip(s.solved as nat, 4);
}

} // verus!
