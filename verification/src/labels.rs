//! The label index: service categories and the locations that carry them.
//!
//! Built once from the location records.  A record may carry any number of
//! category labels.  The categories stand in order of first appearance — a
//! stable, arbitrary order that only decides which reach-vector column a
//! category occupies — and each category's member list keeps the record
//! order.  A category never has an empty member list here, since a
//! category exists only by appearing on some record; an empty member list
//! would merely make the result set empty, not fail.

use vstd::prelude::*;
use crate::records::{label_matches, has_record_id, Node};

verus! {

/// `acc` extended by the labels of one record, in label order, skipping
/// those already present.
pub open spec fn add_labels(acc: Seq<Seq<char>>, labels: Seq<String>) -> Seq<Seq<char>>
    decreases labels.len(),
{
    if labels.len() == 0 {
        acc
    } else {
        let pre = add_labels(acc, labels.drop_last());
        if pre.contains(labels.last()@) {
            pre
        } else {
            pre.push(labels.last()@)
        }
    }
}

/// The distinct labels of the records, in order of first appearance.
pub open spec fn distinct_labels(recs: Seq<Node>) -> Seq<Seq<char>>
    decreases recs.len(),
{
    if recs.len() == 0 {
        Seq::empty()
    } else {
        add_labels(distinct_labels(recs.drop_last()), recs.last().labels@)
    }
}

/// The identifiers of the records carrying the label `cat`, in record
/// order; a record counts once however often its list repeats the label.
pub open spec fn ids_with_label(recs: Seq<Node>, cat: Seq<char>) -> Seq<u64>
    decreases recs.len(),
{
    if recs.len() == 0 {
        Seq::empty()
    } else {
        let pre = ids_with_label(recs.drop_last(), cat);
        if label_matches(recs.last().labels@, cat) {
            pre.push(recs.last().id)
        } else {
            pre
        }
    }
}

/// Folding in a record's labels repeats none of the accumulated ones.
proof fn lemma_add_labels_distinct(acc: Seq<Seq<char>>, labels: Seq<String>)
    requires
        forall|i: int, j: int|
            #![trigger acc[i], acc[j]]
            0 <= i < j < acc.len() ==> acc[i] != acc[j],
    ensures
        forall|i: int, j: int|
            #![trigger add_labels(acc, labels)[i], add_labels(acc, labels)[j]]
            0 <= i < j < add_labels(acc, labels).len() ==> add_labels(acc, labels)[i]
                != add_labels(acc, labels)[j],
    decreases labels.len(),
{
    if labels.len() > 0 {
        lemma_add_labels_distinct(acc, labels.drop_last());
        let pre = add_labels(acc, labels.drop_last());
        let all = add_labels(acc, labels);
        assert forall|i: int, j: int|
            #![trigger all[i], all[j]]
            0 <= i < j < all.len() implies all[i] != all[j] by {
            if j < pre.len() {
                assert(pre[j] == all[j] && pre[i] == all[i]);
            } else if j == pre.len() && all.len() == pre.len() + 1 {
                assert(all[i] == pre[i]);
                assert(!pre.contains(all[j]));
            }
        }
    }
}

/// The distinct labels never repeat.
pub proof fn lemma_distinct_labels(recs: Seq<Node>)
    ensures
        forall|i: int, j: int|
            #![trigger distinct_labels(recs)[i], distinct_labels(recs)[j]]
            0 <= i < j < distinct_labels(recs).len() ==> distinct_labels(recs)[i]
                != distinct_labels(recs)[j],
    decreases recs.len(),
{
    if recs.len() > 0 {
        lemma_distinct_labels(recs.drop_last());
        lemma_add_labels_distinct(distinct_labels(recs.drop_last()), recs.last().labels@);
    }
}

/// Every member of a category is the identifier of some record.
pub proof fn lemma_members_are_record_ids(recs: Seq<Node>, cat: Seq<char>)
    ensures
        forall|j: int| 0 <= j < ids_with_label(recs, cat).len() ==> has_record_id(
            recs,
            #[trigger] ids_with_label(recs, cat)[j],
        ),
    decreases recs.len(),
{
    if recs.len() > 0 {
        lemma_members_are_record_ids(recs.drop_last(), cat);
        let pre = ids_with_label(recs.drop_last(), cat);
        let all = ids_with_label(recs, cat);
        assert forall|j: int| 0 <= j < all.len() implies has_record_id(recs, #[trigger] all[j]) by {
            if j < pre.len() {
                assert(all[j] == pre[j]);
                assert(has_record_id(recs.drop_last(), pre[j]));
                let k = choose|k: int|
                    0 <= k < recs.drop_last().len() && (#[trigger] recs.drop_last()[k]).id == pre[j];
                assert(recs[k].id == pre[j]);
            } else {
                assert(all[j] == recs.last().id);
                assert(recs[recs.len() - 1].id == all[j]);
            }
        }
    }
}

/// The index from service category to the locations that carry it.
pub struct LabelIndex {
    cats: Vec<String>,
    members: Vec<Vec<u64>>,
}

impl LabelIndex {
    /// The number of categories, `p`.
    pub closed spec fn p(self) -> int {
        self.cats@.len() as int
    }

    /// The category occupying column `i`.
    pub closed spec fn cat_at(self, i: int) -> Seq<char> {
        self.cats@[i]@
    }

    /// The member locations of the category of column `i`, in record
    /// order.
    pub closed spec fn members_at(self, i: int) -> Seq<u64> {
        self.members@[i]@
    }

    /// Well-formedness: one member list per category, and no category
    /// repeated.
    pub closed spec fn wf(self) -> bool {
        &&& self.cats@.len() == self.members@.len()
        &&& forall|i: int, j: int|
            #![trigger self.cat_at(i), self.cat_at(j)]
            0 <= i < j < self.p() ==> self.cat_at(i) != self.cat_at(j)
    }

    /// What `build` makes of the records `recs`.
    pub open spec fn models(self, recs: Seq<Node>) -> bool {
        &&& self.p() == distinct_labels(recs).len()
        &&& forall|i: int| 0 <= i < self.p() ==> #[trigger] self.cat_at(i) == distinct_labels(
            recs,
        )[i]
        &&& forall|i: int| 0 <= i < self.p() ==> #[trigger] self.members_at(i) == ids_with_label(
            recs,
            distinct_labels(recs)[i],
        )
    }

    /// The categories, in column order.
    pub fn categories(&self) -> (r: &Vec<String>)
        ensures
            r@.len() == self.p(),
            forall|i: int| 0 <= i < self.p() ==> (#[trigger] r@[i])@ == self.cat_at(i),
    {
        &self.cats
    }

    /// The number of categories.
    pub fn count(&self) -> (r: usize)
        ensures
            r == self.p(),
    {
        self.cats.len()
    }

    /// The category occupying column `i`.
    pub fn category(&self, i: usize) -> (r: &String)
        requires
            i < self.p(),
        ensures
            r@ == self.cat_at(i as int),
    {
        &self.cats[i]
    }

    /// The member locations of the category of column `i`.
    pub fn locations_for(&self, i: usize) -> (r: &Vec<u64>)
        requires
            self.wf(),
            i < self.p(),
        ensures
            r@ == self.members_at(i as int),
    {
        &self.members[i]
    }

    /// Group the location records by their category labels: the categories
    /// in order of first appearance, each with the identifiers of the
    /// records carrying it, in record order.
    pub fn build(records: &Vec<Node>) -> (r: LabelIndex)
        ensures
            r.wf(),
            r.models(records@),
    {
        let mut cats: Vec<String> = Vec::new();
        let mut k: usize = 0;
        while k < records.len()
            invariant
                0 <= k <= records@.len(),
                cats@.len() == distinct_labels(records@.subrange(0, k as int)).len(),
                forall|i: int| 0 <= i < cats@.len() ==> (#[trigger] cats@[i])@ == distinct_labels(
                    records@.subrange(0, k as int),
                )[i],
            decreases records@.len() - k,
        {
            let ghost pre = distinct_labels(records@.subrange(0, k as int));
            proof {
                assert(records@.subrange(0, k + 1).drop_last() =~= records@.subrange(0, k as int));
                assert(records@.subrange(0, k + 1).last() == records@[k as int]);
            }
            let labs = &records[k].labels;
            let mut l: usize = 0;
            proof {
                assert(labs@.subrange(0, 0) =~= Seq::<String>::empty());
            }
            while l < labs.len()
                invariant
                    0 <= l <= labs@.len(),
                    cats@.len() == add_labels(pre, labs@.subrange(0, l as int)).len(),
                    forall|i: int| 0 <= i < cats@.len() ==> (#[trigger] cats@[i])@ == add_labels(
                        pre,
                        labs@.subrange(0, l as int),
                    )[i],
                decreases labs@.len() - l,
            {
                let ghost q = add_labels(pre, labs@.subrange(0, l as int));
                proof {
                    assert(labs@.subrange(0, l + 1).drop_last() =~= labs@.subrange(0, l as int));
                    assert(labs@.subrange(0, l + 1).last() == labs@[l as int]);
                }
                let lab = &labs[l];
                let mut found = false;
                let mut i: usize = 0;
                while i < cats.len()
                    invariant
                        0 <= i <= cats@.len(),
                        cats@.len() == q.len(),
                        forall|i2: int| 0 <= i2 < cats@.len() ==> (#[trigger] cats@[i2])@ == q[i2],
                        found <==> exists|i2: int| 0 <= i2 < i && (#[trigger] cats@[i2])@ == lab@,
                    decreases cats@.len() - i,
                {
                    if cats[i].eq(lab) {
                        found = true;
                        proof {
                            assert(cats@[i as int]@ == lab@);
                        }
                        i = cats.len();
                    } else {
                        i = i + 1;
                    }
                }
                proof {
                    if found {
                        let i2 = choose|i2: int|
                            0 <= i2 < cats@.len() && (#[trigger] cats@[i2])@ == lab@;
                        assert(q[i2] == lab@);
                        assert(q.contains(lab@));
                    } else {
                        if q.contains(lab@) {
                            let i2 = choose|i2: int| 0 <= i2 < q.len() && q[i2] == lab@;
                            assert(cats@[i2]@ == lab@);
                        }
                    }
                }
                if !found {
                    let ghost cats0 = cats@;
                    cats.push(lab.clone());
                    proof {
                        let now = add_labels(pre, labs@.subrange(0, l + 1));
                        assert(now =~= q.push(lab@));
                        assert forall|i2: int| 0 <= i2 < cats@.len() implies (
                        #[trigger] cats@[i2])@ == now[i2] by {
                            if i2 < q.len() {
                                assert(cats@[i2] == cats0[i2]);
                            }
                        }
                    }
                } else {
                    proof {
                        assert(add_labels(pre, labs@.subrange(0, l + 1)) =~= q);
                    }
                }
                l = l + 1;
            }
            proof {
                assert(labs@.subrange(0, labs@.len() as int) =~= labs@);
                assert(distinct_labels(records@.subrange(0, k + 1)) == add_labels(pre, labs@));
            }
            k = k + 1;
        }
        proof {
            assert(records@.subrange(0, records@.len() as int) =~= records@);
        }
        let mut members: Vec<Vec<u64>> = Vec::new();
        let mut i: usize = 0;
        while i < cats.len()
            invariant
                0 <= i <= cats@.len(),
                members@.len() == i,
                cats@.len() == distinct_labels(records@).len(),
                forall|i2: int| 0 <= i2 < cats@.len() ==> (#[trigger] cats@[i2])@
                    == distinct_labels(records@)[i2],
                forall|i2: int| 0 <= i2 < i ==> (#[trigger] members@[i2])@ == ids_with_label(
                    records@,
                    distinct_labels(records@)[i2],
                ),
            decreases cats@.len() - i,
        {
            let row = collect_members(records, &cats[i]);
            members.push(row);
            i = i + 1;
        }
        let r = LabelIndex { cats, members };
        proof {
            lemma_distinct_labels(records@);
        }
        r
    }
}

/// The identifiers of the records whose label list carries `cat`, in
/// record order.
fn collect_members(records: &Vec<Node>, cat: &String) -> (r: Vec<u64>)
    ensures
        r@ == ids_with_label(records@, cat@),
{
    let mut r: Vec<u64> = Vec::new();
    let mut k: usize = 0;
    while k < records.len()
        invariant
            0 <= k <= records@.len(),
            r@ == ids_with_label(records@.subrange(0, k as int), cat@),
        decreases records@.len() - k,
    {
        proof {
            assert(records@.subrange(0, k + 1).drop_last() =~= records@.subrange(0, k as int));
            assert(records@.subrange(0, k + 1).last() == records@[k as int]);
        }
        let labs = &records[k].labels;
        let mut found = false;
        let mut l: usize = 0;
        while l < labs.len()
            invariant
                0 <= l <= labs@.len(),
                found <==> exists|l2: int| 0 <= l2 < l && (#[trigger] labs@[l2])@ == cat@,
            decreases labs@.len() - l,
        {
            if labs[l].eq(cat) {
                found = true;
                proof {
                    assert(labs@[l as int]@ == cat@);
                }
                l = labs.len();
            } else {
                l = l + 1;
            }
        }
        proof {
            if found {
                let l2 = choose|l2: int| 0 <= l2 < labs@.len() && (#[trigger] labs@[l2])@ == cat@;
                assert(label_matches(labs@, cat@));
            } else {
                if label_matches(labs@, cat@) {
                    let l2 = choose|l2: int|
                        0 <= l2 < labs@.len() && (#[trigger] labs@[l2])@ == cat@;
                    assert(false);
                }
            }
            assert(found <==> label_matches(records@[k as int].labels@, cat@));
        }
        if found {
            r.push(records[k].id);
        }
        k = k + 1;
    }
    proof {
        assert(records@.subrange(0, records@.len() as int) =~= records@);
    }
    r
}

} // verus!
