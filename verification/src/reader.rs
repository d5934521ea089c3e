//! Read-only queries over a finalized automaton buffer.
//!
//! Loading validates only the trailer; traversal bounds-checks every
//! byte it reads, so membership and range queries are total over the
//! buffer and mirror the specification functions exactly.

use vstd::prelude::*;
use crate::codec::{be_key, encode_key, pfx_eq, lemma_pfx_step, lemma_pfx_lt};
use crate::format::{
    be32_at, be64_at, st_final, st_count, st_readable, st_label, st_target, eff_find,
    aut_accepts, trailer_ok, root_of, aut_has, FORMAT_VERSION, lemma_eff_find_range,
};
use crate::builder::SetError;

verus! {

/// Read the 32-bit big-endian value at `p`.
fn get_u32_be(data: &Vec<u8>, p: usize) -> (r: u32)
    requires
        p + 4 <= data@.len(),
    ensures
        r == be32_at(data@, p as int),
{
    let _dl = data.len();
    ((data[p] as u32) << 24) | ((data[p + 1] as u32) << 16) | ((data[p + 2] as u32) << 8) | (
    data[p + 3] as u32)
}

/// Read the 64-bit big-endian value at `p`.
fn get_u64_be(data: &Vec<u8>, p: usize) -> (r: u64)
    requires
        p + 8 <= data@.len(),
    ensures
        r == be64_at(data@, p as int),
{
    let _dl = data.len();
    ((data[p] as u64) << 56) | ((data[p + 1] as u64) << 48) | ((data[p + 2] as u64) << 40) | ((
    data[p + 3] as u64) << 32) | ((data[p + 4] as u64) << 24) | ((data[p + 5] as u64) << 16) | ((
    data[p + 6] as u64) << 8) | (data[p + 7] as u64)
}

/// Read the arc count of the state at `off`, or `None` when the state
/// is not fully inside the buffer.
fn st_header(data: &Vec<u8>, off: u64) -> (r: Option<u16>)
    requires
        off < 0x1_0000_0000,
    ensures
        match r {
            None => !st_readable(data@, off as int),
            Some(n) => st_readable(data@, off as int) && n as int == st_count(data@, off as int),
        },
{
    let len = data.len();
    if off + 3 > (len as u64) {
        return None;
    }
    let o = off as usize;
    let n16: u16 = ((data[o + 1] as u16) << 8) | (data[o + 2] as u16);
    if (o as u64) + 3 + 5 * (n16 as u64) > (len as u64) {
        return None;
    }
    Some(n16)
}

/// Whether the state at `off` is readable and accepting.
fn st_is_final(data: &Vec<u8>, off: u64) -> (r: bool)
    requires
        off < 0x1_0000_0000,
    ensures
        r == (st_readable(data@, off as int) && st_final(data@, off as int)),
{
    match st_header(data, off) {
        None => false,
        Some(_) => data[off as usize] == 1,
    }
}

/// One deterministic traversal step: the target of the arc that the
/// traversal takes for `lbl` at the state at `off`, if any.
fn st_step(data: &Vec<u8>, off: u64, lbl: u8) -> (r: Option<u32>)
    requires
        off < 0x1_0000_0000,
    ensures
        ({
            let b = data@;
            let o = off as int;
            if !st_readable(b, o) {
                r is None
            } else {
                let j = eff_find(b, o, st_count(b, o), 0, -1, lbl);
                if j < 0 {
                    r is None
                } else {
                    r == Some(st_target(b, o, j))
                }
            }
        }),
{
    let n16 = match st_header(data, off) {
        None => {
            return None;
        },
        Some(n16) => n16,
    };
    let n = n16 as usize;
    let o = off as usize;
    let dl = data.len();
    let ghost b = data@;
    let mut j: usize = 0;
    let mut hi: i32 = -1;
    while j < n
        invariant
            0 <= j <= n,
            b == data@,
            o == off as int,
            off < 0x1_0000_0000,
            st_readable(b, o as int),
            n == st_count(b, o as int),
            dl == b.len(),
            n <= 0xffff,
            -1 <= hi < 256,
            eff_find(b, o as int, n as int, 0, -1, lbl) == eff_find(
                b,
                o as int,
                n as int,
                j as int,
                hi as int,
                lbl,
            ),
        decreases n - j,
    {
        let lab = data[o + 3 + 5 * j];
        proof {
            assert(st_label(b, o as int, j as int) == lab);
        }
        if (lab as i32) > hi {
            if lab == lbl {
                let t = get_u32_be(data, o + 3 + 5 * j + 1);
                proof {
                    assert(eff_find(b, o as int, n as int, j as int, hi as int, lbl) == j);
                    assert(st_target(b, o as int, j as int) == t);
                }
                return Some(t);
            }
            hi = lab as i32;
        }
        j = j + 1;
    }
    None
}

/// Key `k` appears in `v` at or after position `base`.
pub open spec fn in_seg(v: Seq<u32>, base: int, k: u32) -> bool {
    exists|x: int| base <= x < v.len() && v[x] == k
}

/// Membership in a segment survives appends that keep the prefix.
proof fn lemma_in_seg_extend(v1: Seq<u32>, v2: Seq<u32>, base: int, k: u32)
    requires
        v1.len() <= v2.len(),
        forall|x: int| 0 <= x < v1.len() ==> v2[x] == #[trigger] v1[x],
        in_seg(v1, base, k),
        base >= 0,
    ensures
        in_seg(v2, base, k),
{
    let x = choose|x: int| base <= x < v1.len() && v1[x] == k;
    assert(v2[x] == k);
}

/// Depth-first enumeration in ascending label order: appends to `out`,
/// in strictly increasing order, exactly the keys whose first `depth`
/// bytes are packed in `acc` and whose remaining bytes the state at
/// `off` accepts.
fn enum_keys(data: &Vec<u8>, off: u64, depth: usize, acc: u32, out: &mut Vec<u32>)
    requires
        depth <= 4,
        off < 0x1_0000_0000,
        depth == 0 ==> acc == 0,
        depth == 1 ==> acc < 0x100,
        depth == 2 ==> acc < 0x10000,
        depth == 3 ==> acc < 0x1000000,
    ensures
        final(out)@.len() >= old(out)@.len(),
        forall|x: int| 0 <= x < old(out)@.len() ==> final(out)@[x] == #[trigger] old(out)@[x],
        forall|x: int|
            old(out)@.len() <= x < final(out)@.len() ==> pfx_eq(
                #[trigger] final(out)@[x],
                depth as int,
                acc,
            ) && aut_accepts(data@, off as int, be_key(final(out)@[x]).skip(depth as int)),
        forall|k: u32|
            pfx_eq(k, depth as int, acc) && aut_accepts(
                data@,
                off as int,
                #[trigger] be_key(k).skip(depth as int),
            ) ==> in_seg(final(out)@, old(out)@.len() as int, k),
        forall|x: int, y: int|
            old(out)@.len() <= x < y < final(out)@.len() ==> final(out)@[x] < final(out)@[y],
    decreases 4 - depth,
{
    let ghost b = data@;
    let ghost base = out@.len() as int;
    if depth == 4 {
        let fin = st_is_final(data, off);
        proof {
            assert(be_key(acc).skip(4).len() == 0);
        }
        if fin {
            out.push(acc);
            proof {
                assert(out@[base] == acc);
                assert forall|k: u32|
                    pfx_eq(k, 4, acc) && aut_accepts(
                        b,
                        off as int,
                        #[trigger] be_key(k).skip(4),
                    ) implies in_seg(out@, base, k) by {
                    assert(k == acc);
                    assert(out@[base] == k);
                }
            }
        } else {
            proof {
                assert forall|k: u32|
                    pfx_eq(k, 4, acc) implies !aut_accepts(b, off as int, be_key(k).skip(4)) by {
                    assert(be_key(k).skip(4).len() == 0);
                }
            }
        }
        return ;
    }
    let d = depth;
    let ghost di = d as int;
    let n16 = match st_header(data, off) {
        None => {
            return ;
        },
        Some(n16) => n16,
    };
    let n = n16 as usize;
    let o = off as usize;
    let dl = data.len();
    let mut j: usize = 0;
    let mut hi: i32 = -1;
    while j < n
        invariant
            0 <= j <= n,
            d == depth,
            di == d as int,
            0 <= di < 4,
            depth == 0 ==> acc == 0,
            depth == 1 ==> acc < 0x100,
            depth == 2 ==> acc < 0x10000,
            depth == 3 ==> acc < 0x1000000,
            b == data@,
            dl == b.len(),
            o == off as int,
            off < 0x1_0000_0000,
            st_readable(b, o as int),
            n == st_count(b, o as int),
            n <= 0xffff,
            -1 <= hi < 256,
            base == old(out)@.len(),
            out@.len() >= base,
            forall|x: int| 0 <= x < base ==> out@[x] == #[trigger] old(out)@[x],
            forall|l: u8|
                (l as int) > hi ==> #[trigger] eff_find(b, o as int, n as int, 0, -1, l) == eff_find(
                    b,
                    o as int,
                    n as int,
                    j as int,
                    hi as int,
                    l,
                ),
            forall|x: int|
                base <= x < out@.len() ==> pfx_eq(#[trigger] out@[x], di, acc) && aut_accepts(
                    b,
                    o as int,
                    be_key(out@[x]).skip(di),
                ) && (be_key(out@[x])[di] as int) <= hi,
            forall|k: u32|
                pfx_eq(k, di, acc) && (be_key(k)[di] as int) <= hi && aut_accepts(
                    b,
                    o as int,
                    #[trigger] be_key(k).skip(di),
                ) ==> in_seg(out@, base, k),
            forall|x: int, y: int| base <= x < y < out@.len() ==> out@[x] < out@[y],
        decreases n - j,
    {
        let lab = data[o + 3 + 5 * j];
        proof {
            assert(st_label(b, o as int, j as int) == lab);
        }
        if (lab as i32) > hi {
            let t = get_u32_be(data, o + 3 + 5 * j + 1);
            proof {
                assert(st_target(b, o as int, j as int) == t);
                assert(acc == 0 ==> ((acc << 8) | (lab as u32)) < 0x100) by (bit_vector);
                assert(acc < 0x100 ==> ((acc << 8) | (lab as u32)) < 0x10000) by (bit_vector);
                assert(acc < 0x10000 ==> ((acc << 8) | (lab as u32)) < 0x1000000) by (bit_vector);
            }
            let child: u32 = (acc << 8) | (lab as u32);
            let ghost pre = out@;
            let ghost old_hi = hi as int;
            enum_keys(data, t as u64, d + 1, child, out);
            proof {
                let cur = out@;
                assert(eff_find(b, o as int, n as int, j as int, old_hi, lab) == j);
                assert(eff_find(b, o as int, n as int, 0, -1, lab) == j);
                // Bytes below the new label keep their old story.
                assert forall|x: int| 0 <= x < pre.len() implies cur[x] == #[trigger] pre[x] by {}
                // The recursion's keys translate down one level.
                assert forall|k: u32|
                    pfx_eq(k, di + 1, child) <==> (pfx_eq(k, di, acc) && be_key(k)[di]
                        == lab) by {
                    lemma_pfx_step(k, acc, child, lab, di);
                }
                assert forall|k: u32|
                    pfx_eq(k, di, acc) && be_key(k)[di] == lab implies (aut_accepts(
                        b,
                        o as int,
                        be_key(k).skip(di),
                    ) == aut_accepts(b, t as int, #[trigger] be_key(k).skip(di + 1))) by {
                    let sd = be_key(k).skip(di);
                    assert(sd[0] == be_key(k)[di]);
                    assert(sd.skip(1) =~= be_key(k).skip(di + 1));
                    assert(sd.len() > 0);
                }
                // Soundness of the whole segment so far.
                assert forall|x: int| base <= x < cur.len() implies pfx_eq(
                    #[trigger] cur[x],
                    di,
                    acc,
                ) && aut_accepts(b, o as int, be_key(cur[x]).skip(di)) && (be_key(
                    cur[x],
                )[di] as int) <= lab as int by {
                    if x < pre.len() {
                        assert(cur[x] == pre[x]);
                    } else {
                        assert(pfx_eq(cur[x], di + 1, child));
                    }
                }
                // Order: everything older sits strictly below the new keys.
                assert forall|x: int, y: int| base <= x < y < cur.len() implies cur[x]
                    < cur[y] by {
                    if y < pre.len() {
                        assert(cur[x] == pre[x] && cur[y] == pre[y]);
                    } else if x < pre.len() {
                        assert(cur[x] == pre[x]);
                        assert((be_key(cur[x])[di] as int) <= old_hi);
                        assert(pfx_eq(cur[y], di + 1, child));
                        assert(be_key(cur[y])[di] == lab);
                        lemma_pfx_lt(cur[x], cur[y], acc, di);
                    }
                }
                // Completeness up to the new label.
                assert forall|k: u32|
                    pfx_eq(k, di, acc) && (be_key(k)[di] as int) <= lab as int && aut_accepts(
                        b,
                        o as int,
                        #[trigger] be_key(k).skip(di),
                    ) implies in_seg(cur, base, k) by {
                    let byte = be_key(k)[di];
                    if (byte as int) <= old_hi {
                        lemma_in_seg_extend(pre, cur, base, k);
                    } else if byte == lab {
                        assert(pfx_eq(k, di + 1, child));
                        assert(aut_accepts(b, t as int, be_key(k).skip(di + 1)));
                        assert(in_seg(cur, pre.len() as int, k));
                        let x = choose|x: int| pre.len() <= x < cur.len() && cur[x] == k;
                        assert(base <= x);
                    } else {
                        // No arc can take this byte: the traversal skips
                        // labels at or below the one just consumed.
                        let sd = be_key(k).skip(di);
                        assert(sd[0] == byte);
                        assert(eff_find(b, o as int, n as int, 0, -1, byte) == eff_find(
                            b,
                            o as int,
                            n as int,
                            j as int,
                            old_hi,
                            byte,
                        ));
                        assert(eff_find(b, o as int, n as int, j as int, old_hi, byte)
                            == eff_find(b, o as int, n as int, j + 1, lab as int, byte));
                        lemma_eff_find_range(b, o as int, n as int, j + 1, lab as int, byte);
                        assert(eff_find(b, o as int, n as int, j + 1, lab as int, byte) == -1);
                        assert(!aut_accepts(b, o as int, sd));
                        assert(false);
                    }
                }
                // The suffix search is unchanged for labels above the new one.
                assert forall|l: u8|
                    (l as int) > lab as int implies #[trigger] eff_find(b, o as int, n as int, 0, -1, l)
                        == eff_find(b, o as int, n as int, j + 1, lab as int, l) by {
                    assert(eff_find(b, o as int, n as int, j as int, old_hi, l) == eff_find(
                        b,
                        o as int,
                        n as int,
                        j + 1,
                        lab as int,
                        l,
                    ));
                }
            }
            hi = lab as i32;
        } else {
            proof {
                assert forall|l: u8|
                    (l as int) > hi as int implies #[trigger] eff_find(b, o as int, n as int, 0, -1, l)
                        == eff_find(b, o as int, n as int, j + 1, hi as int, l) by {
                    assert(eff_find(b, o as int, n as int, j as int, hi as int, l) == eff_find(
                        b,
                        o as int,
                        n as int,
                        j + 1,
                        hi as int,
                        l,
                    ));
                }
            }
        }
        j = j + 1;
    }
    proof {
        assert forall|k: u32|
            pfx_eq(k, di, acc) && aut_accepts(
                b,
                o as int,
                #[trigger] be_key(k).skip(di),
            ) implies in_seg(out@, base, k) by {
            let byte = be_key(k)[di];
            if (byte as int) > hi {
                let sd = be_key(k).skip(di);
                assert(sd[0] == byte);
                assert(eff_find(b, o as int, n as int, n as int, hi as int, byte) == -1);
                assert(eff_find(b, o as int, n as int, 0, -1, byte) == -1);
                assert(false);
            }
        }
    }
}

/// A loaded, validated automaton over an owned byte buffer.
pub struct IntSet {
    data: Vec<u8>,
    root: u32,
}

impl IntSet {
    /// The underlying buffer.
    pub closed spec fn bytes(&self) -> Seq<u8> {
        self.data@
    }

    /// A loaded set always carries a coherent trailer whose root
    /// offset it caches.
    pub closed spec fn wf(&self) -> bool {
        &&& trailer_ok(self.data@)
        &&& self.root as int == root_of(self.data@)
    }

    /// Validate the trailer of `data` and take ownership of it.
    /// Fails with `FormatError` exactly when the buffer is too short,
    /// carries an unrecognized version, lies about its size, or points
    /// its root outside the buffer.
    pub fn new(data: Vec<u8>) -> (r: Result<IntSet, SetError>)
        ensures
            r matches Ok(s) ==> s.wf() && s.bytes() == data@ && trailer_ok(data@),
            r is Err <==> !trailer_ok(data@),
            r matches Err(e) ==> e == SetError::FormatError,
    {
        let len = data.len();
        if len < 27 {
            return Err(SetError::FormatError);
        }
        let version = get_u32_be(&data, len - 4);
        if version != FORMAT_VERSION {
            return Err(SetError::FormatError);
        }
        let size = get_u64_be(&data, len - 12);
        if size != len as u64 {
            return Err(SetError::FormatError);
        }
        let root = get_u32_be(&data, len - 24);
        if (root as u64) + 3 > (len as u64) - 24 {
            return Err(SetError::FormatError);
        }
        Ok(IntSet { data, root })
    }

    /// Total length of the underlying buffer, for diagnostics.
    pub fn size(&self) -> (r: u64)
        ensures
            r as int == self.bytes().len() as int,
    {
        self.data.len() as u64
    }

    /// Membership: encode the key and follow its four bytes from the
    /// root; `true` exactly when the walk ends in an accepting state.
    pub fn contains(&self, num: u32) -> (r: bool)
        requires
            self.wf(),
        ensures
            r == aut_has(self.bytes(), num),
    {
        let kb = encode_key(num);
        let ghost b = self.data@;
        let ghost s = be_key(num);
        let mut cur: u64 = self.root as u64;
        let mut alive: bool = true;
        let mut i: usize = 0;
        proof {
            assert(s.skip(0) =~= s);
        }
        while i < 4
            invariant
                0 <= i <= 4,
                kb@ == s,
                s == be_key(num),
                b == self.data@,
                self.wf(),
                alive ==> cur < 0x1_0000_0000,
                alive ==> aut_accepts(b, root_of(b), s) == aut_accepts(
                    b,
                    cur as int,
                    s.skip(i as int),
                ),
                !alive ==> !aut_accepts(b, root_of(b), s),
            decreases 4 - i,
        {
            if alive {
                let ghost si = s.skip(i as int);
                proof {
                    assert(si.len() == 4 - i);
                    assert(si[0] == s[i as int]);
                }
                match st_step(&self.data, cur, kb[i]) {
                    Some(t) => {
                        proof {
                            assert(si.skip(1) =~= s.skip(i as int + 1));
                            assert(aut_accepts(b, cur as int, si) == aut_accepts(
                                b,
                                t as int,
                                si.skip(1),
                            ));
                        }
                        cur = t as u64;
                    },
                    None => {
                        proof {
                            assert(!aut_accepts(b, cur as int, si));
                        }
                        alive = false;
                    },
                }
            }
            i = i + 1;
        }
        if !alive {
            return false;
        }
        let fin = st_is_final(&self.data, cur);
        proof {
            assert(s.skip(4).len() == 0);
        }
        fin
    }

    /// Every key of the set within `[low, high]`, in strictly
    /// increasing order: a fresh depth-first walk in ascending label
    /// order, so an empty sequence whenever `low > high`.
    pub fn range(&self, low: u32, high: u32) -> (r: Vec<u32>)
        requires
            self.wf(),
        ensures
            forall|x: int|
                0 <= x < r@.len() ==> low <= #[trigger] r@[x] <= high && aut_has(
                    self.bytes(),
                    r@[x],
                ),
            forall|x: int, y: int| 0 <= x < y < r@.len() ==> r@[x] < r@[y],
            forall|k: u32| low <= k <= high && aut_has(self.bytes(), k) ==> r@.contains(k),
    {
        let ghost b = self.data@;
        let mut all: Vec<u32> = Vec::new();
        enum_keys(&self.data, self.root as u64, 0, 0, &mut all);
        proof {
            assert forall|k: u32| #[trigger] aut_has(b, k) implies in_seg(all@, 0, k) by {
                assert(be_key(k).skip(0) =~= be_key(k));
            }
            assert forall|x: int| 0 <= x < all@.len() implies aut_has(b, #[trigger] all@[x]) by {
                assert(be_key(all@[x]).skip(0) =~= be_key(all@[x]));
            }
        }
        let m = all.len();
        let mut r: Vec<u32> = Vec::new();
        let mut i: usize = 0;
        while i < m
            invariant
                0 <= i <= m,
                m == all@.len(),
                b == self.data@,
                self.wf(),
                forall|x: int| 0 <= x < all@.len() ==> aut_has(b, #[trigger] all@[x]),
                forall|x: int, y: int| 0 <= x < y < all@.len() ==> all@[x] < all@[y],
                forall|x: int|
                    0 <= x < r@.len() ==> low <= #[trigger] r@[x] <= high && aut_has(b, r@[x]),
                forall|x: int|
                    0 <= x < r@.len() ==> exists|y: int| 0 <= y < i && all@[y] == #[trigger] r@[x],
                forall|y: int|
                    0 <= y < i && low <= #[trigger] all@[y] <= high ==> r@.contains(all@[y]),
                forall|x: int, y: int| 0 <= x < y < r@.len() ==> r@[x] < r@[y],
            decreases m - i,
        {
            let k = all[i];
            if low <= k && k <= high {
                let ghost r0 = r@;
                r.push(k);
                proof {
                    assert forall|x: int, y: int| 0 <= x < y < r@.len() implies r@[x] < r@[y] by {
                        if y == r0.len() {
                            assert(r@[x] == r0[x]);
                            let w = choose|w: int| 0 <= w < i && all@[w] == r0[x];
                            assert(all@[w] < all@[i as int]);
                        }
                    }
                    assert forall|y: int|
                        0 <= y < i + 1 && low <= #[trigger] all@[y] <= high implies r@.contains(
                        all@[y],
                    ) by {
                        if y < i {
                            let w = choose|w: int| 0 <= w < r0.len() && r0[w] == all@[y];
                            assert(r@[w] == all@[y]);
                        } else {
                            assert(r@[r0.len() as int] == all@[y]);
                        }
                    }
                }
            }
            i = i + 1;
        }
        proof {
            assert forall|k: u32| low <= k <= high && aut_has(b, k) implies r@.contains(k) by {
                assert(in_seg(all@, 0, k));
                let y = choose|y: int| 0 <= y < all@.len() && all@[y] == k;
                assert(low <= all@[y] <= high);
            }
        }
        r
    }
}

} // verus!
