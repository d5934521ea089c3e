//! The serialized binary form of the automaton.
//!
//! A state is encoded as a finality byte, a 2-byte big-endian arc count,
//! and one 5-byte record per arc: the label byte followed by the 4-byte
//! big-endian absolute offset of the target state. Targets are always
//! emitted before their referrers, so every target offset points backward.
//! A 24-byte trailer ends the buffer: the root state's offset (4 bytes),
//! the total key count (8 bytes), the total size in bytes (8 bytes) and
//! the format version (4 bytes), all big-endian.

use vstd::prelude::*;
use crate::codec::be_key;

verus! {

/// The format version written into, and required of, every trailer.
pub const FORMAT_VERSION: u32 = 1;

/// A 16-bit big-endian value assembled from two bytes.
pub open spec fn be16(hi: u8, lo: u8) -> u16 {
    ((hi as u16) << 8) | (lo as u16)
}

/// A 32-bit big-endian value assembled from four bytes.
pub open spec fn be32(b0: u8, b1: u8, b2: u8, b3: u8) -> u32 {
    ((b0 as u32) << 24) | ((b1 as u32) << 16) | ((b2 as u32) << 8) | (b3 as u32)
}

/// A 64-bit big-endian value assembled from eight bytes.
pub open spec fn be64(b0: u8, b1: u8, b2: u8, b3: u8, b4: u8, b5: u8, b6: u8, b7: u8) -> u64 {
    ((b0 as u64) << 56) | ((b1 as u64) << 48) | ((b2 as u64) << 40) | ((b3 as u64) << 32) | ((
    b4 as u64) << 24) | ((b5 as u64) << 16) | ((b6 as u64) << 8) | (b7 as u64)
}

/// The 32-bit big-endian value stored at position `p` of `b`.
pub open spec fn be32_at(b: Seq<u8>, p: int) -> u32 {
    be32(b[p], b[p + 1], b[p + 2], b[p + 3])
}

/// The 64-bit big-endian value stored at position `p` of `b`.
pub open spec fn be64_at(b: Seq<u8>, p: int) -> u64 {
    be64(b[p], b[p + 1], b[p + 2], b[p + 3], b[p + 4], b[p + 5], b[p + 6], b[p + 7])
}

/// Whether the state stored at `off` is accepting.
pub open spec fn st_final(b: Seq<u8>, off: int) -> bool {
    b[off] == 1u8
}

/// The arc count of the state stored at `off`.
pub open spec fn st_count(b: Seq<u8>, off: int) -> int {
    be16(b[off + 1], b[off + 2]) as int
}

/// The whole encoding of the state at `off` lies inside the buffer.
pub open spec fn st_readable(b: Seq<u8>, off: int) -> bool {
    &&& 0 <= off
    &&& off + 3 <= b.len()
    &&& off + 3 + 5 * st_count(b, off) <= b.len()
}

/// The label byte of arc `j` of the state at `off`.
pub open spec fn st_label(b: Seq<u8>, off: int, j: int) -> u8 {
    b[off + 3 + 5 * j]
}

/// The target offset of arc `j` of the state at `off`.
pub open spec fn st_target(b: Seq<u8>, off: int, j: int) -> u32 {
    be32_at(b, off + 3 + 5 * j + 1)
}

/// The arc a traversal takes for label `l`, scanning arcs from `j` on
/// and considering only arcs whose label exceeds every label seen so
/// far (`hi`); -1 when there is none. On a state whose labels are
/// strictly increasing this is simply the unique arc labeled `l`.
pub open spec fn eff_find(b: Seq<u8>, off: int, n: int, j: int, hi: int, l: u8) -> int
    decreases n - j,
{
    if j < 0 || j >= n {
        -1
    } else if st_label(b, off, j) > hi {
        if st_label(b, off, j) == l {
            j
        } else {
            eff_find(b, off, n, j + 1, st_label(b, off, j) as int, l)
        }
    } else {
        eff_find(b, off, n, j + 1, hi, l)
    }
}

/// The state at `off` accepts the byte suffix `sfx`: the deterministic
/// traversal of `sfx` from that state ends in an accepting state.
/// Total over arbitrary buffers; anything unreadable accepts nothing.
pub open spec fn aut_accepts(b: Seq<u8>, off: int, sfx: Seq<u8>) -> bool
    decreases sfx.len(),
{
    &&& st_readable(b, off)
    &&& if sfx.len() == 0 {
        st_final(b, off)
    } else {
        let j = eff_find(b, off, st_count(b, off), 0, -1, sfx[0]);
        &&& j >= 0
        &&& aut_accepts(b, st_target(b, off, j) as int, sfx.skip(1))
    }
}

/// A well-formed state: readable, labels strictly increasing, and every
/// target a smaller offset that is itself well-formed.
pub open spec fn st_valid(b: Seq<u8>, off: int) -> bool
    decreases off,
{
    &&& st_readable(b, off)
    &&& forall|j: int|
        0 <= j < st_count(b, off) - 1 ==> (#[trigger] st_label(b, off, j) as int) < st_label(
            b,
            off,
            j + 1,
        ) as int
    &&& forall|j: int|
        0 <= j < st_count(b, off) ==> (#[trigger] st_target(b, off, j) as int) < off && st_valid(
            b,
            st_target(b, off, j) as int,
        )
}

/// The trailer is present and coherent: version recognized, recorded
/// size equal to the buffer size, root offset inside the buffer.
pub open spec fn trailer_ok(b: Seq<u8>) -> bool {
    &&& b.len() >= 27
    &&& be32_at(b, b.len() - 4) == FORMAT_VERSION
    &&& be64_at(b, b.len() - 12) == b.len() as u64
    &&& be32_at(b, b.len() - 24) as int + 3 <= b.len() - 24
}

/// The root state's offset, as recorded in the trailer.
pub open spec fn root_of(b: Seq<u8>) -> int {
    be32_at(b, b.len() - 24) as int
}

/// The total key count, as recorded in the trailer.
pub open spec fn count_of(b: Seq<u8>) -> u64 {
    be64_at(b, b.len() - 20)
}

/// The buffer is a loadable automaton that holds key `k`.
pub open spec fn aut_has(b: Seq<u8>, k: u32) -> bool {
    &&& trailer_ok(b)
    &&& aut_accepts(b, root_of(b), be_key(k))
}

/// `eff_find` returns -1 or an arc index in `[j, n)` whose label is `l`
/// and exceeds `hi`.
pub proof fn lemma_eff_find_range(b: Seq<u8>, off: int, n: int, j: int, hi: int, l: u8)
    ensures
        ({
            let r = eff_find(b, off, n, j, hi, l);
            r == -1 || (j <= r < n && st_label(b, off, r) == l && st_label(b, off, r) as int > hi)
        }),
    decreases n - j,
{
    if 0 <= j < n {
        if st_label(b, off, j) > hi {
            if st_label(b, off, j) != l {
                lemma_eff_find_range(b, off, n, j + 1, st_label(b, off, j) as int, l);
                assert(st_label(b, off, j) as int > hi);
            }
        } else {
            lemma_eff_find_range(b, off, n, j + 1, hi, l);
        }
    }
}

/// On a sorted state, `eff_find` finds the arc labeled `l` whenever one
/// exists at or after `j`.
pub proof fn lemma_eff_find_hit(b: Seq<u8>, off: int, n: int, j: int, hi: int, l: u8, jt: int)
    requires
        0 <= j <= jt < n,
        forall|i: int|
            j <= i < n - 1 ==> (#[trigger] st_label(b, off, i) as int) < st_label(
                b,
                off,
                i + 1,
            ) as int,
        st_label(b, off, jt) == l,
        hi < st_label(b, off, j) as int,
    ensures
        eff_find(b, off, n, j, hi, l) == jt,
    decreases jt - j,
{
    lemma_label_mono(b, off, n, j);
    if jt == j {
    } else {
        assert((st_label(b, off, j) as int) < (st_label(b, off, jt) as int));
        lemma_eff_find_hit(b, off, n, j + 1, st_label(b, off, j) as int, l, jt);
    }
}

/// On a sorted state, `eff_find` reports -1 when no arc at or after `j`
/// carries label `l`.
pub proof fn lemma_eff_find_miss(b: Seq<u8>, off: int, n: int, j: int, hi: int, l: u8)
    requires
        0 <= j,
        forall|i: int|
            j <= i < n - 1 ==> (#[trigger] st_label(b, off, i) as int) < st_label(
                b,
                off,
                i + 1,
            ) as int,
        forall|i: int| j <= i < n ==> #[trigger] st_label(b, off, i) != l,
    ensures
        eff_find(b, off, n, j, hi, l) == -1,
    decreases n - j,
{
    if j < n {
        if st_label(b, off, j) > hi {
            lemma_eff_find_miss(b, off, n, j + 1, st_label(b, off, j) as int, l);
        } else {
            lemma_eff_find_miss(b, off, n, j + 1, hi, l);
        }
    }
}

/// Adjacent strict increase of labels gives pairwise strict increase.
pub proof fn lemma_label_mono(b: Seq<u8>, off: int, n: int, j: int)
    requires
        0 <= j,
        forall|i: int|
            j <= i < n - 1 ==> (#[trigger] st_label(b, off, i) as int) < st_label(
                b,
                off,
                i + 1,
            ) as int,
    ensures
        forall|i1: int, i2: int|
            j <= i1 < i2 < n ==> (#[trigger] st_label(b, off, i1) as int) < (#[trigger] st_label(
                b,
                off,
                i2,
            ) as int),
    decreases n - j,
{
    if j < n - 1 {
        lemma_label_mono(b, off, n, j + 1);
        assert forall|i1: int, i2: int| j <= i1 < i2 < n implies (#[trigger] st_label(
            b,
            off,
            i1,
        ) as int) < (#[trigger] st_label(b, off, i2) as int) by {
            if i1 == j {
                assert((st_label(b, off, j) as int) < (st_label(b, off, j + 1) as int));
                if i2 > j + 1 {
                    assert((st_label(b, off, j + 1) as int) < (st_label(b, off, i2) as int));
                }
            }
        }
    }
}

/// Appending bytes to a buffer leaves the content of an already
/// readable state unchanged.
pub proof fn lemma_frame_state(b1: Seq<u8>, b2: Seq<u8>, off: int)
    requires
        st_readable(b1, off),
        b1.len() <= b2.len(),
        forall|i: int| 0 <= i < b1.len() ==> b1[i] == #[trigger] b2[i],
    ensures
        st_readable(b2, off),
        st_count(b2, off) == st_count(b1, off),
        st_final(b2, off) == st_final(b1, off),
        forall|j: int|
            0 <= j < st_count(b1, off) ==> #[trigger] st_label(b2, off, j) == st_label(b1, off, j),
        forall|j: int|
            0 <= j < st_count(b1, off) ==> #[trigger] st_target(b2, off, j) == st_target(
                b1,
                off,
                j,
            ),
{
    assert(b2[off + 1] == b1[off + 1]);
    assert(b2[off + 2] == b1[off + 2]);
    assert(st_count(b2, off) == st_count(b1, off));
    assert forall|j: int| 0 <= j < st_count(b1, off) implies #[trigger] st_label(b2, off, j)
        == st_label(b1, off, j) && st_target(b2, off, j) == st_target(b1, off, j) by {
        assert(off + 3 + 5 * j + 4 < off + 3 + 5 * st_count(b1, off));
    }
}

/// Appending bytes preserves well-formedness of existing states.
pub proof fn lemma_frame_valid(b1: Seq<u8>, b2: Seq<u8>, off: int)
    requires
        st_valid(b1, off),
        b1.len() <= b2.len(),
        forall|i: int| 0 <= i < b1.len() ==> b1[i] == #[trigger] b2[i],
    ensures
        st_valid(b2, off),
    decreases off,
{
    lemma_frame_state(b1, b2, off);
    assert forall|j: int| 0 <= j < st_count(b2, off) implies (#[trigger] st_target(
        b2,
        off,
        j,
    ) as int) < off && st_valid(b2, st_target(b2, off, j) as int) by {
        assert(st_target(b2, off, j) == st_target(b1, off, j));
        lemma_frame_valid(b1, b2, st_target(b1, off, j) as int);
    }
}

/// `eff_find` sees only labels, so it is stable under appends.
pub proof fn lemma_frame_eff_find(
    b1: Seq<u8>,
    b2: Seq<u8>,
    off: int,
    n: int,
    j: int,
    hi: int,
    l: u8,
)
    requires
        forall|i: int| 0 <= i < n ==> #[trigger] st_label(b2, off, i) == st_label(b1, off, i),
    ensures
        eff_find(b2, off, n, j, hi, l) == eff_find(b1, off, n, j, hi, l),
    decreases n - j,
{
    if 0 <= j < n {
        if st_label(b1, off, j) > hi {
            if st_label(b1, off, j) != l {
                lemma_frame_eff_find(b1, b2, off, n, j + 1, st_label(b1, off, j) as int, l);
            }
        } else {
            lemma_frame_eff_find(b1, b2, off, n, j + 1, hi, l);
        }
    }
}

/// Appending bytes never changes what a well-formed state accepts.
pub proof fn lemma_frame_accepts(b1: Seq<u8>, b2: Seq<u8>, off: int, sfx: Seq<u8>)
    requires
        st_valid(b1, off),
        b1.len() <= b2.len(),
        forall|i: int| 0 <= i < b1.len() ==> b1[i] == #[trigger] b2[i],
    ensures
        aut_accepts(b2, off, sfx) == aut_accepts(b1, off, sfx),
    decreases sfx.len(),
{
    lemma_frame_state(b1, b2, off);
    if sfx.len() > 0 {
        let n = st_count(b1, off);
        lemma_frame_eff_find(b1, b2, off, n, 0, -1, sfx[0]);
        let j = eff_find(b1, off, n, 0, -1, sfx[0]);
        lemma_eff_find_range(b1, off, n, 0, -1, sfx[0]);
        if j >= 0 {
            assert(st_target(b2, off, j) == st_target(b1, off, j));
            lemma_frame_accepts(b1, b2, st_target(b1, off, j) as int, sfx.skip(1));
        }
    }
}

} // verus!
