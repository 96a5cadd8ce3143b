//! Zobrist hashing: a 64-bit fingerprint of a position, the XOR of one
//! pseudo-random word per feature. Features are indexed as follows:
//! piece-on-square words fill 0..768 (one block of 64 per piece code),
//! the four castling-rights bits take 768..772, the eight en-passant
//! files 772..780, and the side-to-move word is 780.
use vstd::prelude::*;
use vstd::std_specs::bits::u64_trailing_zeros;
use rand::{Rng, SeedableRng};
use crate::types::{EMPTY, BLACK, is_piece};

verus! {

pub const ZOBRIST_WORDS: usize = 781;

/// The word the pseudo-random stream assigns to feature `i`. The stream
/// is a fixed function of its fixed seed, so this is a constant table.
pub uninterp spec fn zobrist_word(i: int) -> u64;

/// Relies on rand's `StdRng`: seeded with `seed_from_u64`, its `next_u64`
/// stream is a fixed, reproducible function of the seed alone.
#[verifier::external_body]
fn gen_zobrist_words(n: usize) -> (r: Vec<u64>)
    ensures
        r@.len() == n,
        forall|i: int| 0 <= i < n ==> r@[i] == zobrist_word(i),
{
    let mut rng = rand::rngs::StdRng::seed_from_u64(0x9E3779B97F4A7C15);
    (0..n).map(|_| rng.next_u64()).collect()
}

/// The word XORed for piece code `pc` standing on square `sq`; an empty
/// square contributes nothing.
pub open spec fn piece_word(pc: u8, sq: int) -> u64 {
    if is_piece(pc) && 0 <= sq < 64 {
        zobrist_word((pc - 2) * 64 + sq)
    } else {
        0
    }
}

/// XOR of the piece words of the first `n` squares.
pub open spec fn sq_hash(sqs: Seq<u8>, n: int) -> u64
    decreases n,
{
    if n <= 0 {
        0
    } else {
        sq_hash(sqs, n - 1) ^ piece_word(sqs[n - 1], n - 1)
    }
}

/// XOR of one word per castling right held.
pub open spec fn castle_hash(c: u8) -> u64 {
    (if c & 1 != 0 {
        zobrist_word(768)
    } else {
        0
    }) ^ (if c & 2 != 0 {
        zobrist_word(769)
    } else {
        0
    }) ^ (if c & 4 != 0 {
        zobrist_word(770)
    } else {
        0
    }) ^ (if c & 8 != 0 {
        zobrist_word(771)
    } else {
        0
    })
}

/// The word of the en-passant file, when a target is set.
pub open spec fn ep_hash(ep: u64) -> u64 {
    if ep == 0 {
        0
    } else {
        zobrist_word(772 + u64_trailing_zeros(ep) % 8)
    }
}

/// The side-to-move word, XORed in when black is to move.
pub open spec fn side_hash(side: u8) -> u64 {
    if side == BLACK {
        zobrist_word(780)
    } else {
        0
    }
}

/// The hash of a position recomputed from scratch: the XOR of the
/// contributions of every square, the castling rights, the en-passant
/// file and the side to move.
pub open spec fn hash_of(sqs: Seq<u8>, castling: u8, ep: u64, side: u8) -> u64 {
    sq_hash(sqs, 64) ^ castle_hash(castling) ^ ep_hash(ep) ^ side_hash(side)
}

proof fn lemma_xor_shuffle(a: u64, b: u64, c: u64)
    by (bit_vector)
    ensures
        a ^ b == b ^ a,
        (a ^ b) ^ c == a ^ (b ^ c),
        a ^ 0 == a,
        a ^ b ^ b == a,
        (a ^ b) ^ c == (a ^ c) ^ b,
{
}

/// Rewriting one square rewrites the square fold by exactly the old and the
/// new word of that square.
pub proof fn lemma_sq_hash_update(sqs: Seq<u8>, n: int, i: int, v: u8)
    requires
        0 <= i < n <= sqs.len(),
    ensures
        sq_hash(sqs.update(i, v), n) == sq_hash(sqs, n) ^ piece_word(sqs[i], i) ^ piece_word(
            v,
            i,
        ),
    decreases n,
{
    let s2 = sqs.update(i, v);
    if n - 1 == i {
        assert(sq_hash(s2, n - 1) == sq_hash(sqs, n - 1)) by {
            lemma_sq_hash_agree(sqs, s2, n - 1);
        }
        lemma_xor_shuffle(sq_hash(sqs, n - 1), piece_word(sqs[i], i), piece_word(v, i));
        lemma_xor_shuffle(sq_hash(sqs, n), piece_word(sqs[i], i), piece_word(v, i));
    } else {
        lemma_sq_hash_update(sqs, n - 1, i, v);
        assert(s2[n - 1] == sqs[n - 1]);
        lemma_xor_shuffle(sq_hash(sqs, n - 1) ^ piece_word(sqs[i], i), piece_word(v, i), piece_word(
            sqs[n - 1],
            n - 1,
        ));
        lemma_xor_shuffle(sq_hash(sqs, n - 1), piece_word(sqs[i], i), piece_word(sqs[n - 1], n - 1));
    }
}

/// Two boards that agree on the first `n` squares share that fold.
pub proof fn lemma_sq_hash_agree(a: Seq<u8>, b: Seq<u8>, n: int)
    requires
        n <= a.len(),
        n <= b.len(),
        forall|j: int| 0 <= j < n ==> a[j] == b[j],
    ensures
        sq_hash(a, n) == sq_hash(b, n),
    decreases n,
{
    if n > 0 {
        lemma_sq_hash_agree(a, b, n - 1);
    }
}

/// The table of Zobrist words, generated once per position from the fixed
/// seed and carried with it.
pub struct Zobrist {
    pub keys: Vec<u64>,
}

pub open spec fn zobrist_ok(z: Zobrist) -> bool {
    &&& z.keys@.len() == ZOBRIST_WORDS
    &&& forall|i: int| 0 <= i < ZOBRIST_WORDS ==> z.keys@[i] == zobrist_word(i)
}

impl Zobrist {
    pub fn new() -> (r: Zobrist)
        ensures
            zobrist_ok(r),
    {
        Zobrist { keys: gen_zobrist_words(ZOBRIST_WORDS) }
    }

    pub fn duplicate(&self) -> (r: Zobrist)
        requires
            zobrist_ok(*self),
        ensures
            zobrist_ok(r),
            r.keys@ == self.keys@,
    {
        let mut keys: Vec<u64> = Vec::new();
        let mut i: usize = 0;
        while i < self.keys.len()
            invariant
                zobrist_ok(*self),
                i <= ZOBRIST_WORDS,
                keys@ == self.keys@.take(i as int),
            decreases ZOBRIST_WORDS - i,
        {
            keys.push(self.keys[i]);
            proof {
                assert(keys@ =~= self.keys@.take(i as int + 1));
            }
            i += 1;
        }
        proof {
            assert(self.keys@.take(self.keys@.len() as int) =~= self.keys@);
        }
        Zobrist { keys }
    }

    /// The word of piece `pc` on square `sq`, 0 for an empty square.
    pub fn piece_key(&self, pc: u8, sq: usize) -> (r: u64)
        requires
            zobrist_ok(*self),
            sq < 64,
            pc == EMPTY || is_piece(pc),
        ensures
            r == piece_word(pc, sq as int),
    {
        if pc == EMPTY {
            0
        } else {
            self.keys[(pc as usize - 2) * 64 + sq]
        }
    }

    /// The XOR of the words of all rights held in `c`.
    pub fn castle_key(&self, c: u8) -> (r: u64)
        requires
            zobrist_ok(*self),
        ensures
            r == castle_hash(c),
    {
        (if c & 1 != 0 {
            self.keys[768]
        } else {
            0
        }) ^ (if c & 2 != 0 {
            self.keys[769]
        } else {
            0
        }) ^ (if c & 4 != 0 {
            self.keys[770]
        } else {
            0
        }) ^ (if c & 8 != 0 {
            self.keys[771]
        } else {
            0
        })
    }

    /// The word of the file of a set en-passant target, 0 for none.
    pub fn ep_key(&self, ep: u64) -> (r: u64)
        requires
            zobrist_ok(*self),
        ensures
            r == ep_hash(ep),
    {
        if ep == 0 {
            0
        } else {
            let f = crate::bits::lsb(ep) % 8;
            self.keys[772 + f as usize]
        }
    }

    /// The side-to-move word.
    pub fn side_key(&self) -> (r: u64)
        requires
            zobrist_ok(*self),
        ensures
            r == zobrist_word(780),
    {
        self.keys[780]
    }
}

} // verus!
