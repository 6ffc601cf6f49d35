//! The reachability accumulator: per real location, one flag per service
//! category, set when that location is confirmed within threshold of the
//! category's virtual source.
//!
//! Flags start unset, are only ever set — marking twice is a no-op — and
//! are stored row-major in one flat vector: the flag of location row `j`
//! and category column `c` sits at `j * width + c`.

use vstd::prelude::*;
use vstd::pervasive::VecAdditionalExecFns;

verus! {

/// How many flag slots a table of `n` rows of width `w` has, and where the
/// slot of row `j`, column `c` sits: strictly inside the table.
proof fn lemma_slot_in_table(j: int, c: int, n: int, w: int)
    requires
        0 <= j < n,
        0 <= c < w,
    ensures
        0 <= j * w + c < n * w,
{
    assert(0 <= j * w + c < n * w) by (nonlinear_arith)
        requires
            0 <= j < n,
            0 <= c < w,
    ;
}

/// Two slots of the table coincide only for the same row and column.
proof fn lemma_slot_injective(j1: int, c1: int, j2: int, c2: int, w: int)
    requires
        0 <= c1 < w,
        0 <= c2 < w,
        j1 >= 0,
        j2 >= 0,
        j1 * w + c1 == j2 * w + c2,
    ensures
        j1 == j2 && c1 == c2,
{
    assert(j1 == j2 && c1 == c2) by (nonlinear_arith)
        requires
            0 <= c1 < w,
            0 <= c2 < w,
            j1 >= 0,
            j2 >= 0,
            j1 * w + c1 == j2 * w + c2,
    ;
}

/// The per-location reach flags of one run.
pub struct Accumulator {
    ids: Vec<u64>,
    width: usize,
    bits: Vec<bool>,
}

impl Accumulator {
    /// The tracked locations, in load order.
    pub closed spec fn ids_seq(self) -> Seq<u64> {
        self.ids@
    }

    /// The number of categories, `p`: the width of each row.
    pub closed spec fn width_spec(self) -> int {
        self.width as int
    }

    /// Whether the accumulator has a row for the location `v`.
    pub open spec fn tracks(self, v: u64) -> bool {
        self.ids_seq().contains(v)
    }

    /// The flag of row `j`, column `c`.
    pub closed spec fn bit_at(self, j: int, c: int) -> bool {
        self.bits@[j * self.width_spec() + c]
    }

    /// Well-formedness: no location twice, and one full row of flags per
    /// location.
    pub closed spec fn wf(self) -> bool {
        &&& forall|j: int, k: int|
            #![trigger self.ids_seq()[j], self.ids_seq()[k]]
            0 <= j < k < self.ids_seq().len() ==> self.ids_seq()[j] != self.ids_seq()[k]
        &&& self.bits@.len() == self.ids_seq().len() * self.width_spec()
    }

    /// The location of column `c` is confirmed reached for `v`.
    pub open spec fn reached(self, v: u64, c: int) -> bool {
        exists|j: int|
            0 <= j < self.ids_seq().len() && #[trigger] self.ids_seq()[j] == v && self.bit_at(j, c)
    }

    /// `v` is confirmed reached for every category.
    pub open spec fn all_marked(self, v: u64) -> bool {
        forall|c: int| 0 <= c < self.width_spec() ==> #[trigger] self.reached(v, c)
    }

    /// The locations whose first `n` rows are fully marked, in load order.
    pub open spec fn full_prefix(self, n: int) -> Seq<u64>
        decreases n,
    {
        if n <= 0 {
            Seq::empty()
        } else {
            let pre = self.full_prefix(n - 1);
            if self.all_marked(self.ids_seq()[n - 1]) {
                pre.push(self.ids_seq()[n - 1])
            } else {
                pre
            }
        }
    }

    /// The fully marked locations, in load order.
    pub open spec fn full_set(self) -> Seq<u64> {
        self.full_prefix(self.ids_seq().len() as int)
    }

    /// A table of all-unset flags, one row per location of `ids`.
    pub fn new(tracked_ids: &Vec<u64>, width: usize) -> (r: Accumulator)
        requires
            forall|j: int, k: int|
                #![trigger tracked_ids@[j], tracked_ids@[k]]
                0 <= j < k < tracked_ids@.len() ==> tracked_ids@[j] != tracked_ids@[k],
            tracked_ids@.len() * width <= usize::MAX,
        ensures
            r.wf(),
            r.ids_seq() == tracked_ids@,
            r.width_spec() == width,
            forall|v: u64, c: int| 0 <= c < width ==> !(#[trigger] r.reached(v, c)),
    {
        let mut ids: Vec<u64> = Vec::new();
        let mut m: usize = 0;
        while m < tracked_ids.len()
            invariant
                0 <= m <= tracked_ids@.len(),
                ids@ == tracked_ids@.subrange(0, m as int),
            decreases tracked_ids@.len() - m,
        {
            ids.push(tracked_ids[m]);
            proof {
                assert(ids@ =~= tracked_ids@.subrange(0, m + 1));
            }
            m = m + 1;
        }
        proof {
            assert(ids@ =~= tracked_ids@);
        }
        let n = ids.len();
        let total = n * width;
        let mut bits: Vec<bool> = Vec::new();
        let mut k: usize = 0;
        while k < total
            invariant
                bits@.len() == k,
                0 <= k <= total,
                forall|i: int| 0 <= i < k ==> !(#[trigger] bits@[i]),
            decreases total - k,
        {
            bits.push(false);
            k = k + 1;
        }
        let r = Accumulator { ids, width, bits };
        proof {
            assert forall|v: u64, c: int| 0 <= c < width implies !(#[trigger] r.reached(v, c)) by {
                if r.reached(v, c) {
                    let j = choose|j: int|
                        0 <= j < r.ids_seq().len() && #[trigger] r.ids_seq()[j] == v && r.bit_at(
                            j,
                            c,
                        );
                    lemma_slot_in_table(j, c, r.ids_seq().len() as int, width as int);
                }
            }
        }
        r
    }

    /// Set the flag of location `v` for category column `c`.  Setting a
    /// flag already set changes nothing; no flag is ever unset.
    pub fn mark(&mut self, v: u64, c: usize)
        requires
            old(self).wf(),
            old(self).tracks(v),
            c < old(self).width_spec(),
        ensures
            final(self).wf(),
            final(self).ids_seq() == old(self).ids_seq(),
            final(self).width_spec() == old(self).width_spec(),
            forall|v2: u64, c2: int| 0 <= c2 < old(self).width_spec()
                ==> ((#[trigger] final(self).reached(v2, c2)) <==> old(self).reached(v2, c2) || (
                v2 == v && c2 == c)),
    {
        let ghost w = self.width_spec();
        let ghost n = self.ids_seq().len() as int;
        let mut j: usize = 0;
        let mut row: usize = 0;
        let mut found = false;
        while j < self.ids.len()
            invariant
                0 <= j <= self.ids_seq().len(),
                !found ==> forall|j2: int| 0 <= j2 < j ==> #[trigger] self.ids_seq()[j2] != v,
                found ==> row < self.ids_seq().len() && self.ids_seq()[row as int] == v,
            decreases self.ids_seq().len() - j,
        {
            if self.ids[j] == v {
                row = j;
                found = true;
                j = self.ids.len();
            } else {
                j = j + 1;
            }
        }
        if !found {
            proof {
                let j2 = choose|j2: int|
                    0 <= j2 < self.ids_seq().len() && #[trigger] self.ids_seq()[j2] == v;
                assert(false);
            }
            return ;
        }
        let cap = self.bits.len();
        proof {
            lemma_slot_in_table(row as int, c as int, n, w);
            assert((row as int) * w + (c as int) < cap);
        }
        let slot = row * self.width + c;
        let ghost bits0 = self.bits@;
        self.bits.set(slot, true);
        proof {
            let rown = row as int;
            let cn = c as int;
            assert forall|v2: u64, c2: int| 0 <= c2 < w implies ((#[trigger] self.reached(v2, c2))
                <==> old(self).reached(v2, c2) || (v2 == v && c2 == cn)) by {
                if self.reached(v2, c2) {
                    let j2 = choose|j2: int|
                        0 <= j2 < self.ids_seq().len() && #[trigger] self.ids_seq()[j2] == v2
                            && self.bit_at(j2, c2);
                    lemma_slot_in_table(j2, c2, n, w);
                    if j2 * w + c2 == rown * w + cn {
                        lemma_slot_injective(j2, c2, rown, cn, w);
                        assert(v2 == v && c2 == cn);
                    } else {
                        assert(bits0[j2 * w + c2]);
                        assert(old(self).reached(v2, c2));
                    }
                }
                if old(self).reached(v2, c2) {
                    let j2 = choose|j2: int|
                        0 <= j2 < old(self).ids_seq().len() && #[trigger] old(self).ids_seq()[j2]
                            == v2 && old(self).bit_at(j2, c2);
                    lemma_slot_in_table(j2, c2, n, w);
                    assert(self.bits@[j2 * w + c2]);
                    assert(self.bit_at(j2, c2));
                    assert(self.reached(v2, c2));
                }
                if v2 == v && c2 == cn {
                    assert(self.bits@[rown * w + cn]);
                    assert(self.bit_at(rown, cn));
                    assert(self.reached(v2, c2));
                }
            }
        }
    }

    /// Whether every flag of row `j` is set.
    fn row_full(&self, j: usize) -> (r: bool)
        requires
            self.wf(),
            j < self.ids_seq().len(),
        ensures
            r == self.all_marked(self.ids_seq()[j as int]),
    {
        let ghost w = self.width_spec();
        let ghost n = self.ids_seq().len() as int;
        let ghost v = self.ids_seq()[j as int];
        let cap = self.bits.len();
        let mut c: usize = 0;
        let mut all = true;
        while c < self.width
            invariant
                self.wf(),
                j < self.ids_seq().len(),
                0 <= c <= w,
                w == self.width_spec(),
                n == self.ids_seq().len() as int,
                v == self.ids_seq()[j as int],
                cap == self.bits@.len(),
                all <==> forall|c2: int| 0 <= c2 < c ==> #[trigger] self.bit_at(j as int, c2),
            decreases w - c,
        {
            proof {
                lemma_slot_in_table(j as int, c as int, n, w);
                assert((j as int) * w + (c as int) < cap);
            }
            if !self.bits[j * self.width + c] {
                proof {
                    assert(!self.bit_at(j as int, c as int));
                }
                all = false;
                c = self.width;
            } else {
                proof {
                    assert(self.bit_at(j as int, c as int));
                }
                c = c + 1;
            }
        }
        proof {
            if all {
                assert forall|c2: int| 0 <= c2 < w implies #[trigger] self.reached(v, c2) by {
                    assert(self.bit_at(j as int, c2));
                    assert(self.ids_seq()[j as int] == v);
                }
            } else {
                let c2 = choose|c2: int| 0 <= c2 < w && !(#[trigger] self.bit_at(j as int, c2));
                if self.reached(v, c2) {
                    let j2 = choose|j2: int|
                        0 <= j2 < self.ids_seq().len() && #[trigger] self.ids_seq()[j2] == v
                            && self.bit_at(j2, c2);
                    assert(j2 == j as int);
                }
                assert(!self.all_marked(v));
            }
        }
        all
    }

    /// The locations confirmed reached for every category, in load order.
    pub fn fully_reached(&self) -> (r: Vec<u64>)
        requires
            self.wf(),
        ensures
            r@ == self.full_set(),
    {
        let mut r: Vec<u64> = Vec::new();
        let mut j: usize = 0;
        while j < self.ids.len()
            invariant
                self.wf(),
                0 <= j <= self.ids_seq().len(),
                r@ == self.full_prefix(j as int),
            decreases self.ids_seq().len() - j,
        {
            if self.row_full(j) {
                r.push(self.ids[j]);
            }
            j = j + 1;
        }
        r
    }
}

} // verus!
