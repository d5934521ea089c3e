//! Incremental construction of the minimal automaton.
//!
//! Keys arrive in strictly increasing order. A stack of unfinished
//! states mirrors the path of the previously inserted key; when the
//! next key departs from that path, every state below the shared
//! prefix is minimized against a registry of already-emitted states
//! and either reused (suffix sharing) or serialized at a fresh offset.

use vstd::prelude::*;
use crate::codec::{be_key, encode_key, lemma_key_injective, lemma_be_key_order};
use crate::format::{
    be16, be32_at, be64_at, st_final, st_count, st_readable, st_label, st_target, aut_accepts,
    st_valid, trailer_ok, root_of, count_of, aut_has, FORMAT_VERSION, lemma_eff_find_hit,
    lemma_eff_find_miss, lemma_frame_state, lemma_frame_valid, lemma_frame_accepts,
};

verus! {

/// One outgoing arc of an unfinished state: a label byte and the
/// absolute offset of the already-serialized target state.
#[derive(Clone, Copy, PartialEq, Eq, Structural)]
pub struct Edge {
    pub label: u8,
    pub target: u32,
}

/// An unfinished state: finality and the arcs frozen so far.
pub struct Node {
    pub is_final: bool,
    pub arcs: Vec<Edge>,
}

/// Errors reported by the builder and the reader.
#[derive(Clone, Copy, Debug, PartialEq, Eq, Structural)]
pub enum SetError {
    /// A key was inserted that is not strictly greater than its
    /// predecessor, or the builder was used after such a failure.
    OrderViolation,
    /// The in-memory sink cannot grow any further.
    IoError,
    /// The loaded buffer is not a recognizable automaton.
    FormatError,
}

/// Offsets are serialized in 4 bytes, so a buffer may never grow past
/// this limit; the margin below `u32::MAX` leaves room for the worst
/// case growth of a single insertion or finalization.
pub const MAX_AUTOMATON_BYTES: usize = 0xFFFE_0000;

/// First arc of `arcs` labeled `l`, scanning from `j`; -1 if none.
pub open spec fn edge_find(arcs: Seq<Edge>, j: int, l: u8) -> int
    decreases arcs.len() - j,
{
    if j < 0 || j >= arcs.len() {
        -1
    } else if arcs[j].label == l {
        j
    } else {
        edge_find(arcs, j + 1, l)
    }
}

/// Arc labels are pairwise strictly increasing.
pub open spec fn arcs_sorted(arcs: Seq<Edge>) -> bool {
    forall|i: int, j: int|
        0 <= i < j < arcs.len() ==> (#[trigger] arcs[i].label as int) < (
        #[trigger] arcs[j].label as int)
}

/// One traversal step through an arc list, then on through the buffer.
pub open spec fn node_step(b: Seq<u8>, arcs: Seq<Edge>, sfx: Seq<u8>) -> bool
    recommends
        sfx.len() > 0,
{
    let j = edge_find(arcs, 0, sfx[0]);
    &&& j >= 0
    &&& aut_accepts(b, arcs[j].target as int, sfx.skip(1))
}

/// What a state with content (`fin`, `arcs`) accepts, its arcs leading
/// into already-serialized states of `b`.
pub open spec fn node_accepts(b: Seq<u8>, fin: bool, arcs: Seq<Edge>, sfx: Seq<u8>) -> bool {
    if sfx.len() == 0 {
        fin
    } else {
        node_step(b, arcs, sfx)
    }
}

/// Every arc target is a well-formed serialized state.
pub open spec fn node_ok(b: Seq<u8>, nd: Node) -> bool {
    &&& arcs_sorted(nd.arcs@)
    &&& forall|j: int|
        0 <= j < nd.arcs@.len() ==> st_valid(b, (#[trigger] nd.arcs@[j]).target as int)
}

/// The serialized state at `off` carries exactly the content
/// (`fin`, `arcs`).
pub open spec fn node_matches(b: Seq<u8>, off: int, fin: bool, arcs: Seq<Edge>) -> bool {
    &&& st_readable(b, off)
    &&& st_final(b, off) == fin
    &&& st_count(b, off) == arcs.len()
    &&& forall|j: int|
        0 <= j < arcs.len() ==> st_label(b, off, j) == (#[trigger] arcs[j]).label && st_target(
            b,
            off,
            j,
        ) == arcs[j].target
}

/// `edge_find` returns -1 exactly when no arc from `j` on is labeled
/// `l`, and otherwise the first such arc.
pub proof fn lemma_edge_find_props(arcs: Seq<Edge>, j: int, l: u8)
    requires
        0 <= j,
    ensures
        ({
            let r = edge_find(arcs, j, l);
            if r == -1 {
                forall|i: int| j <= i < arcs.len() ==> (#[trigger] arcs[i]).label != l
            } else {
                j <= r < arcs.len() && arcs[r].label == l && forall|i: int|
                    j <= i < r ==> (#[trigger] arcs[i]).label != l
            }
        }),
    decreases arcs.len() - j,
{
    if j < arcs.len() && arcs[j].label != l {
        lemma_edge_find_props(arcs, j + 1, l);
    }
}

/// Appending an arc with a fresh label does not change where any other
/// label is found.
pub proof fn lemma_edge_find_push(arcs: Seq<Edge>, e: Edge, j: int, l: u8)
    requires
        0 <= j,
        e.label != l,
    ensures
        edge_find(arcs.push(e), j, l) == edge_find(arcs, j, l),
    decreases arcs.len() - j,
{
    let ext = arcs.push(e);
    if j < arcs.len() {
        assert(ext[j] == arcs[j]);
        if arcs[j].label != l {
            lemma_edge_find_push(arcs, e, j + 1, l);
        }
    } else if j == arcs.len() {
        assert(ext[j] == e);
        assert(edge_find(ext, j + 1, l) == -1);
    } else {
        assert(edge_find(ext, j, l) == -1);
        assert(edge_find(arcs, j, l) == -1);
    }
}

/// An appended arc whose label is absent from `arcs` is found at the
/// end.
pub proof fn lemma_edge_find_push_hit(arcs: Seq<Edge>, e: Edge, j: int)
    requires
        0 <= j,
        forall|i: int| 0 <= i < arcs.len() ==> (#[trigger] arcs[i]).label != e.label,
    ensures
        edge_find(arcs.push(e), j, e.label) == if j <= arcs.len() {
            arcs.len() as int
        } else {
            -1
        },
    decreases arcs.len() + 1 - j,
{
    let ext = arcs.push(e);
    if j < arcs.len() {
        assert(ext[j] == arcs[j]);
        lemma_edge_find_push_hit(arcs, e, j + 1);
    } else if j == arcs.len() {
        assert(ext[j] == e);
    }
}

/// A serialized state accepts exactly what its content accepts.
pub proof fn lemma_node_accepts_matches(
    b: Seq<u8>,
    off: int,
    fin: bool,
    arcs: Seq<Edge>,
    sfx: Seq<u8>,
)
    requires
        node_matches(b, off, fin, arcs),
        arcs_sorted(arcs),
    ensures
        aut_accepts(b, off, sfx) == node_accepts(b, fin, arcs, sfx),
{
    if sfx.len() > 0 {
        let n = st_count(b, off);
        let l = sfx[0];
        let je = edge_find(arcs, 0, l);
        lemma_edge_find_props(arcs, 0, l);
        assert forall|i: int| 0 <= i < n - 1 implies (#[trigger] st_label(b, off, i) as int)
            < st_label(b, off, i + 1) as int by {
            assert(st_label(b, off, i) == arcs[i].label);
            assert(st_label(b, off, i + 1) == arcs[i + 1].label);
        }
        if je >= 0 {
            assert(st_label(b, off, je) == l);
            lemma_eff_find_hit(b, off, n, 0, -1, l, je);
            assert(st_target(b, off, je) == arcs[je].target);
        } else {
            assert forall|i: int| 0 <= i < n implies #[trigger] st_label(b, off, i) != l by {
                assert(st_label(b, off, i) == arcs[i].label);
            }
            lemma_eff_find_miss(b, off, n, 0, -1, l);
        }
    }
}

/// What a content accepts is stable when the buffer only grows.
pub proof fn lemma_node_accepts_frame(
    b1: Seq<u8>,
    b2: Seq<u8>,
    fin: bool,
    arcs: Seq<Edge>,
    sfx: Seq<u8>,
)
    requires
        forall|j: int| 0 <= j < arcs.len() ==> st_valid(b1, (#[trigger] arcs[j]).target as int),
        b1.len() <= b2.len(),
        forall|i: int| 0 <= i < b1.len() ==> b1[i] == #[trigger] b2[i],
    ensures
        node_accepts(b2, fin, arcs, sfx) == node_accepts(b1, fin, arcs, sfx),
{
    if sfx.len() > 0 {
        let j = edge_find(arcs, 0, sfx[0]);
        lemma_edge_find_props(arcs, 0, sfx[0]);
        if j >= 0 {
            lemma_frame_accepts(b1, b2, arcs[j].target as int, sfx.skip(1));
        }
    }
}

/// Labels of a sorted arc list grow at least as fast as their index.
proof fn lemma_label_ge_index(arcs: Seq<Edge>, j: int)
    requires
        arcs_sorted(arcs),
        0 <= j < arcs.len(),
    ensures
        arcs[j].label as int >= j,
    decreases j,
{
    if j > 0 {
        lemma_label_ge_index(arcs, j - 1);
    }
}

/// A sorted arc list has at most one arc per label byte.
pub proof fn lemma_arcs_sorted_len(arcs: Seq<Edge>)
    requires
        arcs_sorted(arcs),
    ensures
        arcs.len() <= 256,
{
    if arcs.len() > 256 {
        lemma_label_ge_index(arcs, 256);
    }
}

/// What the construction stack accepts from level `i` on. Level `i`
/// owns one implicit pending arc labeled `pend[i]` that leads to the
/// next unfinished level; every other byte goes through the frozen
/// arcs into the serialized buffer.
pub open spec fn path_accepts(
    b: Seq<u8>,
    sts: Seq<Node>,
    pend: Seq<u8>,
    i: int,
    sfx: Seq<u8>,
) -> bool
    decreases sfx.len(),
{
    if sfx.len() == 0 {
        sts[i].is_final
    } else if i < pend.len() && sfx[0] == pend[i] {
        path_accepts(b, sts, pend, i + 1, sfx.skip(1))
    } else {
        node_step(b, sts[i].arcs@, sfx)
    }
}

/// The language of keys accepted from the top of the stack is `ks`.
pub open spec fn lang_ok(b: Seq<u8>, sts: Seq<Node>, pend: Seq<u8>, ks: Seq<u32>) -> bool {
    forall|k: u32| path_accepts(b, sts, pend, 0, #[trigger] be_key(k)) == ks.contains(k)
}

/// Freezing the deepest unfinished state — serializing it at `off` and
/// replacing the parent's pending arc by a frozen arc to `off` — does
/// not change what any level of the stack accepts.
pub proof fn lemma_pop_level(
    b1: Seq<u8>,
    b2: Seq<u8>,
    sts1: Seq<Node>,
    sts2: Seq<Node>,
    psrc: Seq<u8>,
    off: u32,
    i: int,
    sfx: Seq<u8>,
)
    requires
        2 <= sts1.len(),
        sts1.len() <= psrc.len() + 1,
        sts2.len() == sts1.len() - 1,
        forall|t: int| 0 <= t < sts1.len() - 2 ==> sts2[t] == sts1[t],
        sts2[sts1.len() - 2].is_final == sts1[sts1.len() - 2].is_final,
        sts2[sts1.len() - 2].arcs@ == sts1[sts1.len() - 2].arcs@.push(
            Edge { label: psrc[sts1.len() - 2], target: off },
        ),
        forall|t: int| 0 <= t < sts1.len() ==> node_ok(b1, #[trigger] sts1[t]),
        forall|t: int, j: int|
            0 <= t < sts1.len() - 1 && 0 <= j < sts1[t].arcs@.len() ==> ((#[trigger] sts1[t].arcs@[j]).label as int)
                < psrc[t] as int,
        b1.len() <= b2.len(),
        forall|x: int| 0 <= x < b1.len() ==> b1[x] == #[trigger] b2[x],
        node_matches(b2, off as int, sts1[sts1.len() - 1].is_final, sts1[sts1.len() - 1].arcs@),
        st_valid(b2, off as int),
        0 <= i <= sts1.len() - 2,
    ensures
        path_accepts(b2, sts2, psrc.take(sts1.len() - 2), i, sfx) == path_accepts(
            b1,
            sts1,
            psrc.take(sts1.len() - 1),
            i,
            sfx,
        ),
    decreases sfx.len(),
{
    let m = sts1.len() as int;
    let p2 = psrc.take(m - 2);
    let p1 = psrc.take(m - 1);
    let leaf = sts1[m - 1];
    let parent = sts1[m - 2];
    let e = Edge { label: psrc[m - 2], target: off };
    if sfx.len() == 0 {
        assert(sts2[i].is_final == sts1[i].is_final);
    } else if i < m - 2 {
        assert(sts2[i] == sts1[i]);
        if sfx[0] == psrc[i] {
            lemma_pop_level(b1, b2, sts1, sts2, psrc, off, i + 1, sfx.skip(1));
        } else {
            assert(node_ok(b1, sts1[i]));
            lemma_node_accepts_frame(b1, b2, sts1[i].is_final, sts1[i].arcs@, sfx);
        }
    } else {
        // i == m - 2: the parent of the frozen state.
        if sfx[0] == psrc[m - 2] {
            let rest = sfx.skip(1);
            // Old stack: the pending arc leads to the leaf level.
            assert(path_accepts(b1, sts1, p1, i, sfx) == path_accepts(b1, sts1, p1, m - 1, rest));
            assert(path_accepts(b1, sts1, p1, m - 1, rest) == node_accepts(
                b1,
                leaf.is_final,
                leaf.arcs@,
                rest,
            ));
            // New stack: the frozen arc leads to the serialized copy.
            assert forall|jj: int| 0 <= jj < parent.arcs@.len() implies (
            #[trigger] parent.arcs@[jj]).label != e.label by {
                assert((parent.arcs@[jj].label as int) < psrc[m - 2] as int);
            }
            lemma_edge_find_push_hit(parent.arcs@, e, 0);
            let ext = parent.arcs@.push(e);
            assert(edge_find(ext, 0, sfx[0]) == parent.arcs@.len());
            assert(ext[parent.arcs@.len() as int] == e);
            assert(path_accepts(b2, sts2, p2, i, sfx) == node_step(b2, ext, sfx));
            assert(node_step(b2, ext, sfx) == aut_accepts(b2, off as int, rest));
            assert(node_ok(b1, leaf));
            lemma_node_accepts_matches(b2, off as int, leaf.is_final, leaf.arcs@, rest);
            lemma_node_accepts_frame(b1, b2, leaf.is_final, leaf.arcs@, rest);
        } else {
            // Another byte: only the frozen arcs matter, and the new
            // arc's label does not match.
            let ext = parent.arcs@.push(e);
            lemma_edge_find_push(parent.arcs@, e, 0, sfx[0]);
            let j = edge_find(parent.arcs@, 0, sfx[0]);
            lemma_edge_find_props(parent.arcs@, 0, sfx[0]);
            assert(path_accepts(b2, sts2, p2, i, sfx) == node_step(b2, ext, sfx));
            assert(path_accepts(b1, sts1, p1, i, sfx) == node_step(b1, parent.arcs@, sfx));
            if j >= 0 {
                assert(ext[j] == parent.arcs@[j]);
                assert(node_ok(b1, parent));
                lemma_frame_accepts(b1, b2, parent.arcs@[j].target as int, sfx.skip(1));
            }
        }
    }
}

/// The freshly pushed tail of the stack accepts exactly the remaining
/// bytes of the new key and nothing else.
proof fn lemma_chain_path(b: Seq<u8>, sts2: Seq<Node>, q: Seq<u8>, l: int, i: int, sfx: Seq<u8>)
    requires
        q.len() == 4,
        sts2.len() == 5,
        0 <= l <= 3,
        forall|t: int|
            l < t <= 4 ==> (#[trigger] sts2[t]).arcs@.len() == 0 && (sts2[t].is_final <==> t == 4),
        l < i <= 4,
        sfx.len() == 4 - i,
    ensures
        path_accepts(b, sts2, q, i, sfx) == (sfx == q.skip(i)),
    decreases sfx.len(),
{
    if sfx.len() == 0 {
        assert(sts2[i].is_final);
        assert(sfx =~= q.skip(4));
    } else {
        if sfx[0] == q[i] {
            lemma_chain_path(b, sts2, q, l, i + 1, sfx.skip(1));
            if sfx.skip(1) == q.skip(i + 1) {
                assert(sfx =~= q.skip(i)) by {
                    assert forall|x: int| 0 <= x < sfx.len() implies sfx[x] == q.skip(i)[x] by {
                        if x > 0 {
                            assert(sfx.skip(1)[x - 1] == sfx[x]);
                            assert(q.skip(i + 1)[x - 1] == q.skip(i)[x]);
                        }
                    }
                }
            }
            if sfx == q.skip(i) {
                assert(sfx.skip(1) =~= q.skip(i + 1));
            }
        } else {
            assert(edge_find(sts2[i].arcs@, 0, sfx[0]) == -1);
            assert(!path_accepts(b, sts2, q, i, sfx));
            assert(q.skip(i)[0] == q[i]);
            assert(sfx != q.skip(i));
        }
    }
}

/// Extending the stack along the new key's bytes adds exactly that key
/// to the accepted language.
proof fn lemma_extend_path(
    b: Seq<u8>,
    sts1: Seq<Node>,
    sts2: Seq<Node>,
    q: Seq<u8>,
    l: int,
    i: int,
    sfx: Seq<u8>,
)
    requires
        q.len() == 4,
        0 <= l <= 3,
        sts1.len() == l + 1,
        sts2.len() == 5,
        forall|t: int| 0 <= t <= l ==> sts2[t] == sts1[t],
        forall|t: int|
            l < t <= 4 ==> (#[trigger] sts2[t]).arcs@.len() == 0 && (sts2[t].is_final <==> t == 4),
        forall|j: int|
            0 <= j < sts1[l].arcs@.len() ==> ((#[trigger] sts1[l].arcs@[j]).label as int) < q[l] as int,
        0 <= i <= l,
        sfx.len() == 4 - i,
    ensures
        path_accepts(b, sts2, q, i, sfx) == (path_accepts(b, sts1, q.take(l), i, sfx) || sfx
            == q.skip(i)),
    decreases sfx.len(),
{
    let p1 = q.take(l);
    assert(sfx.len() >= 1);
    if sfx[0] == q[i] {
        if i < l {
            lemma_extend_path(b, sts1, sts2, q, l, i + 1, sfx.skip(1));
            if sfx.skip(1) == q.skip(i + 1) {
                assert(sfx =~= q.skip(i)) by {
                    assert forall|x: int| 0 <= x < sfx.len() implies sfx[x] == q.skip(i)[x] by {
                        if x > 0 {
                            assert(sfx.skip(1)[x - 1] == sfx[x]);
                            assert(q.skip(i + 1)[x - 1] == q.skip(i)[x]);
                        }
                    }
                }
            }
            if sfx == q.skip(i) {
                assert(sfx.skip(1) =~= q.skip(i + 1));
            }
        } else {
            // i == l: the stack forks here. The old stack has no arc
            // for this byte; the new pending chain accepts exactly the
            // key's remaining bytes.
            lemma_chain_path(b, sts2, q, l, i + 1, sfx.skip(1));
            assert(sts2[i] == sts1[i]);
            lemma_edge_find_props(sts1[l].arcs@, 0, sfx[0]);
            let j = edge_find(sts1[l].arcs@, 0, sfx[0]);
            if j >= 0 {
                assert((sts1[l].arcs@[j].label as int) < q[l] as int);
                assert(false);
            }
            assert(!path_accepts(b, sts1, p1, i, sfx));
            if sfx.skip(1) == q.skip(i + 1) {
                assert(sfx =~= q.skip(i)) by {
                    assert forall|x: int| 0 <= x < sfx.len() implies sfx[x] == q.skip(i)[x] by {
                        if x > 0 {
                            assert(sfx.skip(1)[x - 1] == sfx[x]);
                            assert(q.skip(i + 1)[x - 1] == q.skip(i)[x]);
                        }
                    }
                }
            }
            if sfx == q.skip(i) {
                assert(sfx.skip(1) =~= q.skip(i + 1));
            }
        }
    } else {
        assert(sts2[i] == sts1[i]);
        assert(path_accepts(b, sts2, q, i, sfx) == node_step(b, sts2[i].arcs@, sfx));
        assert(path_accepts(b, sts1, p1, i, sfx) == node_step(b, sts1[i].arcs@, sfx));
        assert(q.skip(i)[0] == q[i]);
        assert(sfx != q.skip(i));
    }
}

/// Append the 4-byte big-endian form of `v`.
fn put_u32_be(out: &mut Vec<u8>, v: u32)
    requires
        old(out)@.len() + 4 <= usize::MAX,
    ensures
        final(out)@.len() == old(out)@.len() + 4,
        forall|i: int| 0 <= i < old(out)@.len() ==> final(out)@[i] == #[trigger] old(out)@[i],
        be32_at(final(out)@, old(out)@.len() as int) == v,
{
    out.push((v >> 24) as u8);
    out.push(((v >> 16) & 0xff) as u8);
    out.push(((v >> 8) & 0xff) as u8);
    out.push((v & 0xff) as u8);
    proof {
        assert(((((v >> 24) as u8) as u32) << 24) | ((((v >> 16) & 0xff) as u8) as u32) << 16 | ((
        ((v >> 8) & 0xff) as u8) as u32) << 8 | (((v & 0xff) as u8) as u32) == v) by (bit_vector);
    }
}

/// Append the 8-byte big-endian form of `v`.
fn put_u64_be(out: &mut Vec<u8>, v: u64)
    requires
        old(out)@.len() + 8 <= usize::MAX,
    ensures
        final(out)@.len() == old(out)@.len() + 8,
        forall|i: int| 0 <= i < old(out)@.len() ==> final(out)@[i] == #[trigger] old(out)@[i],
        be64_at(final(out)@, old(out)@.len() as int) == v,
{
    out.push((v >> 56) as u8);
    out.push(((v >> 48) & 0xff) as u8);
    out.push(((v >> 40) & 0xff) as u8);
    out.push(((v >> 32) & 0xff) as u8);
    out.push(((v >> 24) & 0xff) as u8);
    out.push(((v >> 16) & 0xff) as u8);
    out.push(((v >> 8) & 0xff) as u8);
    out.push((v & 0xff) as u8);
    proof {
        assert(((((v >> 56) as u8) as u64) << 56) | ((((v >> 48) & 0xff) as u8) as u64) << 48 | ((
        ((v >> 40) & 0xff) as u8) as u64) << 40 | ((((v >> 32) & 0xff) as u8) as u64) << 32 | ((((
        v >> 24) & 0xff) as u8) as u64) << 24 | ((((v >> 16) & 0xff) as u8) as u64) << 16 | ((((v
            >> 8) & 0xff) as u8) as u64) << 8 | (((v & 0xff) as u8) as u64) == v) by (bit_vector);
    }
}

/// Serialize one state at the end of the buffer and return its offset.
fn emit_state(out: &mut Vec<u8>, fin: bool, arcs: &Vec<Edge>) -> (off: u32)
    requires
        arcs_sorted(arcs@),
        forall|j: int|
            0 <= j < arcs@.len() ==> st_valid(old(out)@, (#[trigger] arcs@[j]).target as int),
        old(out)@.len() + 1283 <= 0xFFFF_FFFF,
    ensures
        off as int == old(out)@.len(),
        final(out)@.len() == off as int + 3 + 5 * arcs@.len(),
        forall|i: int| 0 <= i < old(out)@.len() ==> final(out)@[i] == #[trigger] old(out)@[i],
        node_matches(final(out)@, off as int, fin, arcs@),
        st_valid(final(out)@, off as int),
{
    proof {
        lemma_arcs_sorted_len(arcs@);
    }
    let off: usize = out.len();
    let n: usize = arcs.len();
    out.push(if fin { 1u8 } else { 0u8 });
    let ghost s1 = out@;
    let hi: u8 = if n >= 256 { 1u8 } else { 0u8 };
    let lo: u8 = (n % 256) as u8;
    out.push(hi);
    let ghost s2 = out@;
    out.push(lo);
    proof {
        if n >= 256 {
            assert(n == 256);
            assert((1u16 << 8) | (0u16 as u16) == 256) by (bit_vector);
            assert(be16(hi, lo) == 256);
        } else {
            let lov = lo;
            assert(((0u16 << 8) | (lov as u16)) == lov as u16) by (bit_vector);
            assert(be16(hi, lo) == n);
        }
    }
    let ghost base = out@;
    proof {
        assert forall|i: int| 0 <= i < old(out)@.len() implies base[i] == #[trigger] old(
            out,
        )@[i] by {
            assert(s1[i] == old(out)@[i]);
            assert(s2[i] == s1[i]);
            assert(base[i] == s2[i]);
        }
        assert(base[off as int] == (if fin { 1u8 } else { 0u8 }));
        assert(base[off as int + 1] == hi);
        assert(base[off as int + 2] == lo);
    }
    let mut k: usize = 0;
    while k < n
        invariant
            0 <= k <= n,
            n == arcs@.len(),
            n <= 256,
            off + 1283 <= 0xFFFF_FFFF,
            base.len() == off + 3,
            out@.len() == off + 3 + 5 * k,
            forall|i: int| 0 <= i < base.len() ==> out@[i] == #[trigger] base[i],
            forall|j: int|
                0 <= j < k ==> st_label(out@, off as int, j) == (#[trigger] arcs@[j]).label
                    && be32_at(out@, off + 3 + 5 * j + 1) == arcs@[j].target,
        decreases n - k,
    {
        let ghost prev = out@;
        let e = arcs[k];
        out.push(e.label);
        let ghost mid = out@;
        put_u32_be(out, e.target);
        k = k + 1;
        proof {
            assert(mid == prev.push(e.label));
            assert forall|i: int| 0 <= i < prev.len() implies out@[i] == #[trigger] prev[i] by {
                assert(mid[i] == prev[i]);
            }
            assert forall|i: int| 0 <= i < base.len() implies out@[i] == #[trigger] base[i] by {
                assert(out@[i] == prev[i]);
            }
            assert(out@[prev.len() as int] == mid[prev.len() as int]);
            assert(st_label(out@, off as int, k - 1) == e.label);
            assert(be32_at(out@, off + 3 + 5 * (k - 1) + 1) == e.target);
            assert forall|j: int| 0 <= j < k implies st_label(out@, off as int, j) == (
            #[trigger] arcs@[j]).label && be32_at(out@, off + 3 + 5 * j + 1) == arcs@[j].target by {
                if j < k - 1 {
                    assert(out@[off + 3 + 5 * j] == prev[off + 3 + 5 * j]);
                    assert(out@[off + 3 + 5 * j + 1] == prev[off + 3 + 5 * j + 1]);
                    assert(out@[off + 3 + 5 * j + 2] == prev[off + 3 + 5 * j + 2]);
                    assert(out@[off + 3 + 5 * j + 3] == prev[off + 3 + 5 * j + 3]);
                    assert(out@[off + 3 + 5 * j + 4] == prev[off + 3 + 5 * j + 4]);
                }
            }
        }
    }
    proof {
        let b2 = out@;
        let o = off as int;
        assert(b2[o] == base[o]);
        assert(b2[o + 1] == base[o + 1]);
        assert(b2[o + 2] == base[o + 2]);
        assert(st_count(b2, o) == n);
        assert(st_readable(b2, o));
        assert(node_matches(b2, o, fin, arcs@));
        assert forall|i: int| 0 <= i < old(out)@.len() implies b2[i] == #[trigger] old(
            out,
        )@[i] by {
            assert(b2[i] == base[i]);
        }
        assert forall|j: int| 0 <= j < st_count(b2, o) - 1 implies (#[trigger] st_label(
            b2,
            o,
            j,
        ) as int) < st_label(b2, o, j + 1) as int by {
            assert(st_label(b2, o, j) == arcs@[j].label);
            assert(st_label(b2, o, j + 1) == arcs@[j + 1].label);
        }
        assert forall|j: int| 0 <= j < st_count(b2, o) implies (#[trigger] st_target(
            b2,
            o,
            j,
        ) as int) < o && st_valid(b2, st_target(b2, o, j) as int) by {
            assert(st_target(b2, o, j) == arcs@[j].target);
            assert(st_valid(base, arcs@[j].target as int)) by {
                lemma_frame_valid(old(out)@, base, arcs@[j].target as int);
            }
            lemma_frame_valid(base, b2, arcs@[j].target as int);
        }
        assert(st_valid(b2, o));
    }
    off as u32
}

/// A registry entry: the canonical content of an already-serialized
/// state and the offset where it was emitted.
pub struct RegEntry {
    pub node: Node,
    pub off: u32,
}

/// Every registry entry points at a well-formed serialized state that
/// carries exactly the recorded content.
pub open spec fn registry_ok(b: Seq<u8>, reg: Seq<RegEntry>) -> bool {
    forall|e: int|
        0 <= e < reg.len() ==> {
            let en = #[trigger] reg[e];
            &&& node_matches(b, en.off as int, en.node.is_final, en.node.arcs@)
            &&& st_valid(b, en.off as int)
            &&& arcs_sorted(en.node.arcs@)
        }
}

/// Membership in a pushed sequence.
pub proof fn lemma_push_contains(s: Seq<u32>, x: u32, k: u32)
    ensures
        s.push(x).contains(k) == (s.contains(k) || k == x),
{
    if s.push(x).contains(k) {
        let i = choose|i: int| 0 <= i < s.push(x).len() && s.push(x)[i] == k;
        if i < s.len() {
            assert(s[i] == k);
        }
    }
    if s.contains(k) {
        let i = choose|i: int| 0 <= i < s.len() && s[i] == k;
        assert(s.push(x)[i] == k);
    }
    if k == x {
        assert(s.push(x)[s.len() as int] == k);
    }
}

/// Structural equality of two unfinished states.
fn nodes_equal(a: &Node, b: &Node) -> (r: bool)
    ensures
        r <==> (a.is_final == b.is_final && a.arcs@ == b.arcs@),
{
    if a.is_final != b.is_final {
        return false;
    }
    if a.arcs.len() != b.arcs.len() {
        return false;
    }
    let n = a.arcs.len();
    let mut i: usize = 0;
    while i < n
        invariant
            0 <= i <= n,
            n == a.arcs@.len(),
            n == b.arcs@.len(),
            forall|j: int| 0 <= j < i ==> a.arcs@[j] == b.arcs@[j],
        decreases n - i,
    {
        let ea = a.arcs[i];
        let eb = b.arcs[i];
        if ea.label != eb.label || ea.target != eb.target {
            proof {
                assert(a.arcs@[i as int] != b.arcs@[i as int]);
            }
            return false;
        }
        i = i + 1;
    }
    proof {
        assert(a.arcs@ =~= b.arcs@);
    }
    true
}

/// Minimize one unfinished state: reuse an equivalent state already in
/// the registry, or serialize it at a fresh offset and register it.
fn freeze(out: &mut Vec<u8>, registry: &mut Vec<RegEntry>, nd: Node) -> (off: u32)
    requires
        node_ok(old(out)@, nd),
        registry_ok(old(out)@, old(registry)@),
        old(out)@.len() + 1283 <= 0xFFFF_FFFF,
    ensures
        old(out)@.len() <= final(out)@.len() <= old(out)@.len() + 1283,
        forall|i: int| 0 <= i < old(out)@.len() ==> final(out)@[i] == #[trigger] old(out)@[i],
        node_matches(final(out)@, off as int, nd.is_final, nd.arcs@),
        st_valid(final(out)@, off as int),
        registry_ok(final(out)@, final(registry)@),
{
    let n = registry.len();
    let mut i: usize = 0;
    while i < n
        invariant
            0 <= i <= n,
            n == registry@.len(),
            registry_ok(out@, registry@),
        decreases n - i,
    {
        if nodes_equal(&registry[i].node, &nd) {
            let ghost en = registry@[i as int];
            proof {
                assert(node_matches(out@, en.off as int, en.node.is_final, en.node.arcs@));
                assert(node_matches(out@, en.off as int, nd.is_final, nd.arcs@));
            }
            return registry[i].off;
        }
        i = i + 1;
    }
    proof {
        lemma_arcs_sorted_len(nd.arcs@);
    }
    let off = emit_state(out, nd.is_final, &nd.arcs);
    proof {
        assert forall|e: int| 0 <= e < registry@.len() implies {
            let en = #[trigger] registry@[e];
            &&& node_matches(out@, en.off as int, en.node.is_final, en.node.arcs@)
            &&& st_valid(out@, en.off as int)
            &&& arcs_sorted(en.node.arcs@)
        } by {
            let en = registry@[e];
            lemma_frame_state(old(out)@, out@, en.off as int);
            lemma_frame_valid(old(out)@, out@, en.off as int);
        }
    }
    let ghost reg_before = registry@;
    registry.push(RegEntry { node: nd, off });
    proof {
        assert forall|e: int| 0 <= e < registry@.len() implies {
            let en = #[trigger] registry@[e];
            &&& node_matches(out@, en.off as int, en.node.is_final, en.node.arcs@)
            &&& st_valid(out@, en.off as int)
            &&& arcs_sorted(en.node.arcs@)
        } by {
            if e < reg_before.len() {
                assert(registry@[e] == reg_before[e]);
            } else {
                assert(registry@[e].node == nd);
            }
        }
    }
    off
}

/// Builds the serialized automaton from a strictly increasing stream
/// of keys, minimizing and emitting states as soon as they can no
/// longer change.
pub struct IntSetBuilder {
    out: Vec<u8>,
    stack: Vec<Node>,
    prev: u32,
    has_prev: bool,
    count: u64,
    failed: Option<SetError>,
    registry: Vec<RegEntry>,
    keys: Ghost<Seq<u32>>,
}

impl IntSetBuilder {
    /// The keys successfully inserted so far, in insertion order.
    pub closed spec fn keys(&self) -> Seq<u32> {
        self.keys@
    }

    /// The error that poisoned this builder, if any.
    pub closed spec fn failure(&self) -> Option<SetError> {
        self.failed
    }

    /// Bytes emitted to the in-memory sink so far.
    pub closed spec fn written(&self) -> int {
        self.out@.len() as int
    }

    /// The builder's internal invariant while it is healthy; the
    /// stack length varies only inside an operation.
    spec fn core_inv(&self) -> bool {
        let b = self.out@;
        let sts = self.stack@;
        let m = sts.len() as int;
        let psrc = be_key(self.prev);
        &&& 1 <= m <= 5
        &&& (!self.has_prev ==> m == 1 && sts[0].arcs@.len() == 0 && !sts[0].is_final)
        &&& forall|t: int| 0 <= t < m ==> node_ok(b, #[trigger] sts[t])
        &&& forall|t: int, j: int|
            0 <= t < m - 1 && 0 <= j < sts[t].arcs@.len() ==> ((#[trigger] sts[t].arcs@[j]).label as int)
                < psrc[t] as int
        &&& (self.has_prev && m <= 4 ==> forall|j: int|
            0 <= j < sts[m - 1].arcs@.len() ==> ((#[trigger] sts[m - 1].arcs@[j]).label as int)
                <= psrc[m - 1] as int)
        &&& (self.has_prev && m == 5 ==> sts[4].arcs@.len() == 0 && sts[4].is_final)
        &&& registry_ok(b, self.registry@)
        &&& lang_ok(b, sts, psrc.take(m - 1), self.keys@)
        &&& forall|i: int, j: int|
            0 <= i < j < self.keys@.len() ==> self.keys@[i] < self.keys@[j]
        &&& (self.has_prev ==> self.keys@.len() >= 1 && self.keys@.last() == self.prev
            && self.keys@.len() <= self.prev as int + 1)
        &&& (!self.has_prev ==> self.keys@.len() == 0)
        &&& self.count as int == self.keys@.len()
    }

    /// Between operations the whole key path is on the stack.
    spec fn healthy(&self) -> bool {
        &&& self.core_inv()
        &&& self.stack@.len() == if self.has_prev {
            5int
        } else {
            1int
        }
    }

    /// The public well-formedness of a builder.
    pub closed spec fn inv(&self) -> bool {
        self.failed is Some || self.healthy()
    }

    /// A fresh builder holding no keys.
    pub fn new() -> (r: IntSetBuilder)
        ensures
            r.inv(),
            r.failure() is None,
            r.keys() == Seq::<u32>::empty(),
            r.written() == 0,
    {
        let mut stack: Vec<Node> = Vec::new();
        stack.push(Node { is_final: false, arcs: Vec::new() });
        let r = IntSetBuilder {
            out: Vec::new(),
            stack,
            prev: 0,
            has_prev: false,
            count: 0,
            failed: None,
            registry: Vec::new(),
            keys: Ghost(Seq::empty()),
        };
        proof {
            assert forall|k: u32| path_accepts(
                r.out@,
                r.stack@,
                be_key(r.prev).take(0),
                0,
                #[trigger] be_key(k),
            ) == r.keys@.contains(k) by {
                let s = be_key(k);
                assert(s.len() == 4);
                assert(edge_find(r.stack@[0].arcs@, 0, s[0]) == -1);
                assert(!r.keys@.contains(k));
            }
            assert(r.healthy());
        }
        r
    }

    /// Bytes emitted to the sink so far, observable at any point.
    pub fn bytes_written(&self) -> (r: u64)
        ensures
            r as int == self.written(),
    {
        self.out.len() as u64
    }

    /// Minimize and serialize every unfinished state deeper than
    /// `keep` levels, wiring each frozen state into its parent.
    fn flush_to(&mut self, keep: usize)
        requires
            old(self).failed is None,
            old(self).core_inv(),
            1 <= keep <= old(self).stack@.len(),
            old(self).out@.len() <= MAX_AUTOMATON_BYTES,
        ensures
            final(self).failed is None,
            final(self).core_inv(),
            final(self).stack@.len() == keep,
            final(self).has_prev == old(self).has_prev,
            final(self).prev == old(self).prev,
            final(self).keys@ == old(self).keys@,
            final(self).count == old(self).count,
            old(self).out@.len() <= final(self).out@.len(),
            final(self).out@.len() as int <= old(self).out@.len() + 1283 * (
            old(self).stack@.len() - keep),
    {
        let pb = encode_key(self.prev);
        let ghost m0 = self.stack@.len() as int;
        while self.stack.len() > keep
            invariant
                self.failed is None,
                self.core_inv(),
                keep as int <= self.stack@.len() <= m0,
                m0 <= 5,
                1 <= keep,
                self.has_prev == old(self).has_prev,
                self.prev == old(self).prev,
                self.keys@ == old(self).keys@,
                self.count == old(self).count,
                pb@ == be_key(self.prev),
                old(self).out@.len() <= self.out@.len(),
                self.out@.len() as int <= old(self).out@.len() + 1283 * (m0
                    - self.stack@.len()),
                old(self).out@.len() <= MAX_AUTOMATON_BYTES,
            decreases self.stack@.len(),
        {
            proof {
                assert(self.has_prev);
            }
            let ghost b1 = self.out@;
            let ghost sts1 = self.stack@;
            let ghost m = sts1.len() as int;
            let ghost keys0 = self.keys@;
            let nd = self.stack.pop().unwrap();
            proof {
                assert(nd == sts1[m - 1]);
                assert(node_ok(b1, nd));
                assert(1283 * (m0 - m) <= 1283 * 4);
                assert(self.out@.len() + 1283 <= 0xFFFF_FFFF);
            }
            let off = freeze(&mut self.out, &mut self.registry, nd);
            let idx = self.stack.len() - 1;
            let lab = pb[idx];
            let mut parent = self.stack.pop().unwrap();
            let ghost old_arcs = parent.arcs@;
            parent.arcs.push(Edge { label: lab, target: off });
            self.stack.push(parent);
            proof {
                let b2 = self.out@;
                let sts2 = self.stack@;
                let psrc = be_key(self.prev);
                let e = Edge { label: lab, target: off };
                assert(sts2.len() == m - 1);
                assert(old_arcs == sts1[m - 2].arcs@);
                assert forall|t: int| 0 <= t < m - 2 implies sts2[t] == sts1[t] by {
                    assert(sts2[t] == sts1.drop_last().drop_last()[t]);
                }
                assert(sts2[m - 2].arcs@ == old_arcs.push(e));
                assert(lab == psrc[m - 2]);
                // Language is preserved level by level.
                assert forall|k: u32| path_accepts(
                    b2,
                    sts2,
                    psrc.take(m - 2),
                    0,
                    #[trigger] be_key(k),
                ) == keys0.contains(k) by {
                    lemma_pop_level(b1, b2, sts1, sts2, psrc, off, 0, be_key(k));
                    assert(path_accepts(b1, sts1, psrc.take(m - 1), 0, be_key(k)) == keys0.contains(
                        k,
                    ));
                }
                // Every remaining stack node is still well wired.
                assert forall|t: int| 0 <= t < sts2.len() implies node_ok(
                    b2,
                    #[trigger] sts2[t],
                ) by {
                    if t < m - 2 {
                        assert(node_ok(b1, sts1[t]));
                        assert forall|j: int| 0 <= j < sts2[t].arcs@.len() implies st_valid(
                            b2,
                            (#[trigger] sts2[t].arcs@[j]).target as int,
                        ) by {
                            lemma_frame_valid(b1, b2, sts1[t].arcs@[j].target as int);
                        }
                    } else {
                        assert(node_ok(b1, sts1[m - 2]));
                        assert forall|j: int| 0 <= j < sts2[t].arcs@.len() implies st_valid(
                            b2,
                            (#[trigger] sts2[t].arcs@[j]).target as int,
                        ) by {
                            if j < old_arcs.len() {
                                assert(sts2[t].arcs@[j] == old_arcs[j]);
                                lemma_frame_valid(b1, b2, old_arcs[j].target as int);
                            } else {
                                assert(sts2[t].arcs@[j] == e);
                            }
                        }
                        assert forall|x: int, y: int|
                            0 <= x < y < sts2[t].arcs@.len() implies ((
                        #[trigger] sts2[t].arcs@[x]).label as int) < ((
                        #[trigger] sts2[t].arcs@[y]).label as int) by {
                            if y < old_arcs.len() {
                                assert(sts2[t].arcs@[x] == old_arcs[x]);
                                assert(sts2[t].arcs@[y] == old_arcs[y]);
                            } else {
                                assert(sts2[t].arcs@[y] == e);
                                assert(sts2[t].arcs@[x] == old_arcs[x]);
                                assert((old_arcs[x].label as int) < psrc[m - 2] as int);
                            }
                        }
                        assert(arcs_sorted(sts2[t].arcs@));
                    }
                }
                assert(self.core_inv());
            }
        }
    }

    /// Append one key. Fails with `OrderViolation` if the key is not
    /// strictly greater than the previous one or if the builder was
    /// already poisoned, and with `IoError` if the sink is full; both
    /// failures poison the builder. On success the key is added to
    /// the set under construction.
    pub fn insert(&mut self, num: u32) -> (r: Result<(), SetError>)
        requires
            old(self).inv(),
        ensures
            final(self).inv(),
            r is Ok <==> (old(self).failure() is None && (old(self).keys().len() == 0 || num > old(self).keys().last()) && old(self).written() <= MAX_AUTOMATON_BYTES as int),
            r is Ok ==> final(self).keys() == old(self).keys().push(num) && final(self).failure()
                is None,
            r is Err ==> final(self).keys() == old(self).keys() && final(self).failure() is Some,
            old(self).failure() matches Some(e) ==> r == Err::<(), SetError>(e) && final(self).failure() == Some(e),
            old(self).failure() is None && old(self).keys().len() > 0 && num <= old(self).keys().last() ==> r == Err::<(), SetError>(SetError::OrderViolation) && final(self).failure() == Some(SetError::OrderViolation),
            old(self).failure() is None && (old(self).keys().len() == 0 || num > old(self).keys().last()) && old(self).written() > MAX_AUTOMATON_BYTES as int ==> r == Err::<
                (),
                SetError,
            >(SetError::IoError),
            final(self).written() >= old(self).written(),
    {
        match self.failed {
            Some(e) => {
                return Err(e);
            },
            None => {},
        }
        if self.has_prev && num <= self.prev {
            self.failed = Some(SetError::OrderViolation);
            return Err(SetError::OrderViolation);
        }
        if self.out.len() > MAX_AUTOMATON_BYTES {
            self.failed = Some(SetError::IoError);
            return Err(SetError::IoError);
        }
        let ghost old_prev = self.prev;
        let ghost had_prev = self.has_prev;
        let ghost keys0 = self.keys@;
        let kb = encode_key(num);
        let mut l: usize = 0;
        if self.has_prev {
            let pb = encode_key(self.prev);
            while l < 4 && pb[l] == kb[l]
                invariant
                    0 <= l <= 4,
                    pb@ == be_key(old_prev),
                    kb@ == be_key(num),
                    forall|i: int| 0 <= i < l ==> pb@[i] == kb@[i],
                decreases 4 - l,
            {
                l = l + 1;
            }
            proof {
                if l == 4 {
                    assert(pb@ =~= kb@);
                    lemma_key_injective(old_prev, num);
                    assert(false);
                }
                assert(pb@[l as int] != kb@[l as int]);
                if (pb@[l as int] as int) > (kb@[l as int] as int) {
                    lemma_be_key_order(num, old_prev, l as int);
                    assert(false);
                }
                assert((pb@[l as int] as int) < (kb@[l as int] as int));
            }
            self.flush_to(l + 1);
        }
        let ghost stsf = self.stack@;
        let ghost bf = self.out@;
        proof {
            assert(stsf.len() == l + 1);
        }
        // Extend the stack with fresh states for the new key's
        // remaining bytes; the last one is accepting.
        if l < 1 {
            self.stack.push(Node { is_final: false, arcs: Vec::new() });
        }
        if l < 2 {
            self.stack.push(Node { is_final: false, arcs: Vec::new() });
        }
        if l < 3 {
            self.stack.push(Node { is_final: false, arcs: Vec::new() });
        }
        self.stack.push(Node { is_final: true, arcs: Vec::new() });
        proof {
            assert(self.stack@.len() == 5);
            assert forall|t: int| 0 <= t < stsf.len() implies self.stack@[t] == stsf[t] by {}
            assert forall|t: int| stsf.len() <= t < 5 implies (
            #[trigger] self.stack@[t]).arcs@.len() == 0 && (self.stack@[t].is_final <==> t
                == 4) by {}
            let q = be_key(num);
            let sts2 = self.stack@;
            assert(be_key(old_prev).take(l as int) =~= q.take(l as int));
            assert forall|j: int| 0 <= j < stsf[l as int].arcs@.len() implies ((
            #[trigger] stsf[l as int].arcs@[j]).label as int) < q[l as int] as int by {
                if had_prev {
                    assert((stsf[l as int].arcs@[j].label as int) <= be_key(old_prev)[l as int] as int);
                    assert((be_key(old_prev)[l as int] as int) < q[l as int] as int);
                }
            }
            assert forall|k: u32| path_accepts(bf, sts2, q, 0, #[trigger] be_key(k)) == (
            keys0.contains(k) || k == num) by {
                lemma_extend_path(bf, stsf, sts2, q, l as int, 0, be_key(k));
                assert(q.skip(0) =~= q);
                if be_key(k) == q {
                    lemma_key_injective(k, num);
                }
                assert(path_accepts(bf, stsf, be_key(old_prev).take(l as int), 0, be_key(k))
                    == keys0.contains(k));
            }
        }
        self.prev = num;
        self.has_prev = true;
        self.count = self.count + 1;
        proof {
            self.keys@ = keys0.push(num);
        }
        proof {
            let q = be_key(num);
            assert(q.take(4) =~= q);
            assert forall|k: u32| path_accepts(
                self.out@,
                self.stack@,
                be_key(self.prev).take(self.stack@.len() - 1),
                0,
                #[trigger] be_key(k),
            ) == self.keys@.contains(k) by {
                lemma_push_contains(keys0, num, k);
            }
            assert forall|t: int, j: int|
                0 <= t < 4 && 0 <= j < self.stack@[t].arcs@.len() implies ((
            #[trigger] self.stack@[t].arcs@[j]).label as int) < be_key(num)[t] as int by {
                if t < l {
                    assert(self.stack@[t] == stsf[t]);
                    assert((stsf[t].arcs@[j].label as int) < be_key(old_prev)[t] as int);
                    assert(be_key(old_prev)[t] == be_key(num)[t]);
                } else if t == l {
                    assert(self.stack@[t] == stsf[t]);
                } else {
                    assert(self.stack@[t].arcs@.len() == 0);
                }
            }
            assert forall|t: int| 0 <= t < 5 implies node_ok(self.out@, #[trigger] self.stack@[t])
                by {
                if t <= l {
                    assert(self.stack@[t] == stsf[t]);
                }
            }
            assert forall|i: int, j: int| 0 <= i < j < self.keys@.len() implies self.keys@[i]
                < self.keys@[j] by {
                if j < keys0.len() {
                    assert(self.keys@[i] == keys0[i] && self.keys@[j] == keys0[j]);
                } else {
                    assert(self.keys@[j] == num);
                    if had_prev {
                        if i < keys0.len() - 1 {
                            assert(keys0[i] < keys0[keys0.len() - 1]);
                        }
                        assert(keys0[keys0.len() - 1] == old_prev);
                    }
                    assert(self.keys@[i] < num);
                }
            }
            assert(self.healthy());
        }
        Ok(())
    }

    /// Finalize the automaton: flush the whole remaining path, write
    /// the trailer and hand back the finished buffer. Consumes the
    /// builder. Fails with the poisoning error of an earlier `insert`,
    /// or with `IoError` when the sink is full.
    pub fn finish(self) -> (r: Result<Vec<u8>, SetError>)
        requires
            self.inv(),
        ensures
            r is Ok <==> (self.failure() is None && self.written()
                <= MAX_AUTOMATON_BYTES as int),
            self.failure() matches Some(e) ==> r == Err::<Vec<u8>, SetError>(e),
            self.failure() is None && self.written() > MAX_AUTOMATON_BYTES as int ==> r == Err::<
                Vec<u8>,
                SetError,
            >(SetError::IoError),
            r matches Ok(bytes) ==> {
                &&& trailer_ok(bytes@)
                &&& st_valid(bytes@, root_of(bytes@))
                &&& count_of(bytes@) as int == self.keys().len()
                &&& forall|k: u32| #[trigger] aut_has(bytes@, k) == self.keys().contains(k)
                &&& bytes@.len() >= 27
            },
    {
        let mut this = self;
        match this.failed {
            Some(e) => {
                return Err(e);
            },
            None => {},
        }
        if this.out.len() > MAX_AUTOMATON_BYTES {
            return Err(SetError::IoError);
        }
        let ghost keys0 = this.keys@;
        this.flush_to(1);
        let ghost b1 = this.out@;
        let ghost stsr = this.stack@;
        let ghost root_nd = this.stack@[0];
        let nd = this.stack.pop().unwrap();
        proof {
            assert(nd == root_nd);
            assert(node_ok(b1, nd));
            assert(this.out@.len() + 1283 <= 0xFFFF_FFFF);
        }
        let root_off = freeze(&mut this.out, &mut this.registry, nd);
        let ghost b2 = this.out@;
        proof {
            assert forall|k: u32| aut_accepts(b2, root_off as int, #[trigger] be_key(k))
                == keys0.contains(k) by {
                let s = be_key(k);
                assert(s.len() == 4);
                assert(path_accepts(b1, stsr, be_key(this.prev).take(0), 0, s) == keys0.contains(
                    k,
                ));
                assert(path_accepts(b1, stsr, be_key(this.prev).take(0), 0, s) == node_step(
                    b1,
                    root_nd.arcs@,
                    s,
                ));
                lemma_node_accepts_matches(b2, root_off as int, root_nd.is_final, root_nd.arcs@, s);
                lemma_node_accepts_frame(b1, b2, root_nd.is_final, root_nd.arcs@, s);
            }
        }
        // Trailer: root offset, key count, total size, format version.
        let count_v = this.count;
        let total: u64 = (this.out.len() as u64) + 24;
        let ghost p0 = b2.len() as int;
        put_u32_be(&mut this.out, root_off);
        let ghost s1 = this.out@;
        put_u64_be(&mut this.out, count_v);
        let ghost s2 = this.out@;
        put_u64_be(&mut this.out, total);
        let ghost s3 = this.out@;
        put_u32_be(&mut this.out, FORMAT_VERSION);
        let ghost b3 = this.out@;
        proof {
            let ll = b3.len() as int;
            assert(ll == p0 + 24);
            assert forall|i: int| 0 <= i < s2.len() implies b3[i] == #[trigger] s2[i] by {
                assert(s3[i] == s2[i]);
            }
            assert forall|i: int| 0 <= i < s1.len() implies b3[i] == #[trigger] s1[i] by {
                assert(s2[i] == s1[i]);
            }
            assert forall|i: int| 0 <= i < b2.len() implies b3[i] == #[trigger] b2[i] by {
                assert(s1[i] == b2[i]);
            }
            assert(st_readable(b2, root_off as int));
            assert(p0 >= root_off + 3 >= 3);
            assert(be32_at(b3, ll - 24) == root_off) by {
                assert(b3[p0] == s1[p0]);
                assert(b3[p0 + 1] == s1[p0 + 1]);
                assert(b3[p0 + 2] == s1[p0 + 2]);
                assert(b3[p0 + 3] == s1[p0 + 3]);
                assert(be32_at(s1, p0) == root_off);
            }
            assert(be64_at(b3, ll - 20) == count_v) by {
                assert(be64_at(s2, p0 + 4) == count_v);
                assert(b3[p0 + 4] == s2[p0 + 4]);
                assert(b3[p0 + 5] == s2[p0 + 5]);
                assert(b3[p0 + 6] == s2[p0 + 6]);
                assert(b3[p0 + 7] == s2[p0 + 7]);
                assert(b3[p0 + 8] == s2[p0 + 8]);
                assert(b3[p0 + 9] == s2[p0 + 9]);
                assert(b3[p0 + 10] == s2[p0 + 10]);
                assert(b3[p0 + 11] == s2[p0 + 11]);
            }
            assert(be64_at(b3, ll - 12) == total) by {
                assert(be64_at(s3, p0 + 12) == total);
                assert(b3[p0 + 12] == s3[p0 + 12]);
                assert(b3[p0 + 13] == s3[p0 + 13]);
                assert(b3[p0 + 14] == s3[p0 + 14]);
                assert(b3[p0 + 15] == s3[p0 + 15]);
                assert(b3[p0 + 16] == s3[p0 + 16]);
                assert(b3[p0 + 17] == s3[p0 + 17]);
                assert(b3[p0 + 18] == s3[p0 + 18]);
                assert(b3[p0 + 19] == s3[p0 + 19]);
            }
            assert(be32_at(b3, ll - 4) == FORMAT_VERSION);
            assert(total == ll as u64);
            assert(trailer_ok(b3));
            assert(root_of(b3) == root_off as int);
            lemma_frame_valid(b2, b3, root_off as int);
            assert forall|k: u32| #[trigger] aut_has(b3, k) == keys0.contains(k) by {
                lemma_frame_accepts(b2, b3, root_off as int, be_key(k));
            }
            assert(count_v as int == keys0.len());
        }
        Ok(this.out)
    }
}

} // verus!
