//! The folded span tree: repeated samples of nested timing spans merged
//! into one aggregated tree.
//!
//! Folding merges spans by name, level by level: a span whose name already
//! has an entry at its level adds its duration to the entry's cumulative
//! duration, raises the occurrence count by one, and folds its children
//! into the entry's children; a span with a new name starts an entry with
//! count one, appended after the existing entries, so iteration order is
//! first-seen order. The occurrence count of an entry is the number of
//! samples in which its name actually appeared at that position, not the
//! window size.

use crate::imap::{name_index_entries, name_index_get, name_index_insert, name_index_new, NameIndex};
use crate::span::{
    forest_deep_duration, forest_node_count, forest_top_duration, path_names, span_deep_duration,
    span_node_count, Perf, SampleWindow, Span,
};
use vstd::prelude::*;

verus! {

/// The mathematical model of one folded entry: a name, the cumulative
/// duration over all folded occurrences, the occurrence count, and the
/// folded children.
pub ghost struct FSpan {
    pub name: Seq<char>,
    pub duration: nat,
    pub count: nat,
    pub children: Seq<FSpan>,
}

/// The first index whose entry carries `name`, or -1 if no entry does.
pub open spec fn index_of_name(t: Seq<FSpan>, name: Seq<char>) -> int
    decreases t.len(),
{
    if t.len() == 0 {
        -1
    } else if t[0].name == name {
        0
    } else {
        let r = index_of_name(t.drop_first(), name);
        if r < 0 {
            -1
        } else {
            r + 1
        }
    }
}

/// `index_of_name` returns -1 exactly when the name is absent, and
/// otherwise the first index that carries the name.
pub proof fn lemma_index_of_name(t: Seq<FSpan>, name: Seq<char>)
    ensures
        index_of_name(t, name) == -1 ==> forall|i: int|
            0 <= i < t.len() ==> (#[trigger] t[i]).name != name,
        index_of_name(t, name) >= 0 ==> {
            &&& index_of_name(t, name) < t.len()
            &&& t[index_of_name(t, name)].name == name
        },
    decreases t.len(),
{
    if t.len() > 0 && t[0].name != name {
        lemma_index_of_name(t.drop_first(), name);
        let r = index_of_name(t.drop_first(), name);
        if r == -1 {
            assert forall|i: int| 0 <= i < t.len() implies (#[trigger] t[i]).name != name by {
                if i > 0 {
                    assert(t.drop_first()[i - 1] == t[i]);
                }
            }
        } else {
            assert(t.drop_first()[r] == t[r + 1]);
        }
    }
}

/// The sum of the cumulative durations of the top-level entries.
pub open spec fn fold_top_duration(t: Seq<FSpan>) -> nat
    decreases t,
{
    if t.len() == 0 {
        0
    } else {
        fold_top_duration(t.drop_last()) + t[t.len() - 1].duration
    }
}

/// The cumulative duration of an entry and of everything below it.
pub open spec fn fentry_deep_duration(e: FSpan) -> nat
    decreases e, 1int,
{
    e.duration + ftree_deep_duration(e.children)
}

/// The sum of [`fentry_deep_duration`] over a level.
pub open spec fn ftree_deep_duration(t: Seq<FSpan>) -> nat
    decreases t, 0int,
{
    if t.len() == 0 {
        0
    } else {
        ftree_deep_duration(t.drop_last()) + fentry_deep_duration(t[t.len() - 1])
    }
}

/// The occurrence counts of an entry and of everything below it.
pub open spec fn fentry_count_sum(e: FSpan) -> nat
    decreases e, 1int,
{
    e.count + ftree_count_sum(e.children)
}

/// The sum of [`fentry_count_sum`] over a level.
pub open spec fn ftree_count_sum(t: Seq<FSpan>) -> nat
    decreases t, 0int,
{
    if t.len() == 0 {
        0
    } else {
        ftree_count_sum(t.drop_last()) + fentry_count_sum(t[t.len() - 1])
    }
}

/// The model invariants of a folded level: names are unique within the
/// level, every count is at least one, the duration and count sums still
/// fit the machine word, and the same holds below.
pub open spec fn model_wf(t: Seq<FSpan>) -> bool
    decreases t,
{
    &&& forall|i: int, j: int|
        0 <= i < j < t.len() ==> (#[trigger] t[i]).name != (#[trigger] t[j]).name
    &&& ftree_deep_duration(t) <= u64::MAX
    &&& ftree_count_sum(t) <= u64::MAX
    &&& forall|i: int|
        0 <= i < t.len() ==> (#[trigger] t[i]).count >= 1 && model_wf(t[i].children)
}

/// Merging one raw span into a folded level.
pub open spec fn spec_fold_span(t: Seq<FSpan>, s: Span) -> Seq<FSpan>
    decreases s, 1int, 0int,
{
    let i = index_of_name(t, s.name@);
    if i >= 0 {
        t.update(
            i,
            FSpan {
                name: t[i].name,
                duration: (t[i].duration + s.duration) as nat,
                count: (t[i].count + 1) as nat,
                children: spec_fold_forest(t[i].children, s.children@, s.children@.len() as int),
            },
        )
    } else {
        t.push(
            FSpan {
                name: s.name@,
                duration: s.duration as nat,
                count: 1,
                children: spec_fold_forest(
                    Seq::empty(),
                    s.children@,
                    s.children@.len() as int,
                ),
            },
        )
    }
}

/// Merging the first `k` spans of a raw forest into a folded level, in
/// order.
pub open spec fn spec_fold_forest(t: Seq<FSpan>, ss: Seq<Span>, k: int) -> Seq<FSpan>
    decreases ss, 0int, k,
{
    if k <= 0 || k > ss.len() {
        t
    } else {
        spec_fold_span(spec_fold_forest(t, ss, k - 1), ss[k - 1])
    }
}

/// A named entry of a folded level: its cumulative duration over all
/// folded occurrences, its occurrence count, and its folded children.
pub struct FoldedSpan {
    name: String,
    duration: u64,
    count: u64,
    children: FoldedSpans,
}

/// One level of the folded tree: entries in first-seen order, unique by
/// name, with a name index for constant-time lookup.
pub struct FoldedSpans {
    index: NameIndex,
    spans: Vec<FoldedSpan>,
}

pub(crate) closed spec fn fspan_view(s: FoldedSpan) -> FSpan
    decreases s, 1int,
{
    FSpan {
        name: s.name@,
        duration: s.duration as nat,
        count: s.count as nat,
        children: fvec_view(s.children.spans@),
    }
}

pub(crate) closed spec fn fvec_view(v: Seq<FoldedSpan>) -> Seq<FSpan>
    decreases v, 0int,
{
    if v.len() == 0 {
        Seq::empty()
    } else {
        fvec_view(v.drop_last()).push(fspan_view(v[v.len() - 1]))
    }
}

pub(crate) closed spec fn ftree_view(t: FoldedSpans) -> Seq<FSpan> {
    fvec_view(t.spans@)
}

/// The view of a vector of entries indexes to the views of its entries.
pub(crate) proof fn lemma_fvec_view(v: Seq<FoldedSpan>)
    ensures
        fvec_view(v).len() == v.len(),
        forall|i: int| 0 <= i < v.len() ==> #[trigger] fvec_view(v)[i] == fspan_view(v[i]),
    decreases v.len(),
{
    if v.len() > 0 {
        lemma_fvec_view(v.drop_last());
    }
}

impl View for FoldedSpan {
    type V = FSpan;

    closed spec fn view(&self) -> FSpan {
        fspan_view(*self)
    }
}

impl View for FoldedSpans {
    type V = Seq<FSpan>;

    closed spec fn view(&self) -> Seq<FSpan> {
        ftree_view(*self)
    }
}

impl FoldedSpan {
    /// The model invariants hold of this entry and the name index below it
    /// is consistent.
    pub closed spec fn wf(&self) -> bool
        decreases *self, 1int,
    {
        &&& self.count >= 1
        &&& self.children.wf()
    }
}

impl FoldedSpans {
    /// The name index maps exactly the entry names, each to its position,
    /// and the same holds below.
    pub(crate) closed spec fn index_ok(&self) -> bool
        decreases *self, 0int,
    {
        let es = name_index_entries(self.index);
        &&& forall|i: int|
            0 <= i < self.spans@.len() ==> es.dom().contains(
                (#[trigger] self.spans@[i]).name@,
            ) && es[self.spans@[i].name@] == i
        &&& forall|n: Seq<char>|
            es.dom().contains(n) ==> exists|i: int|
                0 <= i < self.spans@.len() && (#[trigger] self.spans@[i]).name@ == n
        &&& forall|i: int|
            0 <= i < self.spans@.len() ==> (#[trigger] self.spans@[i]).children.index_ok()
    }

    /// The level is well formed: the model invariants hold of its view and
    /// the name index is consistent with the entries.
    pub closed spec fn wf(&self) -> bool
        decreases *self, 0int,
    {
        &&& model_wf(self@)
        &&& self.index_ok()
        &&& forall|i: int| 0 <= i < self.spans@.len() ==> (#[trigger] self.spans@[i]).wf()
    }

    /// An empty folded tree.
    pub fn new() -> (r: Self)
        ensures
            r@ == Seq::<FSpan>::empty(),
            r.wf(),
    {
        let r = FoldedSpans { index: name_index_new(), spans: Vec::new() };
        proof {
            assert(r@ =~= Seq::<FSpan>::empty());
        }
        r
    }
}

/// Appending an entry adds its contributions to the level's sums.
proof fn lemma_fsums_push(t: Seq<FSpan>, e: FSpan)
    ensures
        ftree_deep_duration(t.push(e)) == ftree_deep_duration(t) + fentry_deep_duration(e),
        ftree_count_sum(t.push(e)) == ftree_count_sum(t) + fentry_count_sum(e),
        fold_top_duration(t.push(e)) == fold_top_duration(t) + e.duration,
{
    assert(t.push(e).drop_last() =~= t);
    assert(t.push(e)[t.push(e).len() - 1] == e);
}

/// Replacing an entry exchanges its contributions in the level's sums.
proof fn lemma_fsums_update(t: Seq<FSpan>, i: int, e: FSpan)
    requires
        0 <= i < t.len(),
    ensures
        ftree_deep_duration(t.update(i, e)) + fentry_deep_duration(t[i]) == ftree_deep_duration(t)
            + fentry_deep_duration(e),
        ftree_count_sum(t.update(i, e)) + fentry_count_sum(t[i]) == ftree_count_sum(t)
            + fentry_count_sum(e),
        fold_top_duration(t.update(i, e)) + t[i].duration == fold_top_duration(t) + e.duration,
    decreases t.len(),
{
    let u = t.update(i, e);
    if i == t.len() - 1 {
        assert(u.drop_last() =~= t.drop_last());
        assert(u[u.len() - 1] == e);
    } else {
        assert(u.drop_last() =~= t.drop_last().update(i, e));
        assert(u[u.len() - 1] == t[t.len() - 1]);
        lemma_fsums_update(t.drop_last(), i, e);
    }
}

/// Every entry contributes at most the whole level's sums.
proof fn lemma_fentry_le_sums(t: Seq<FSpan>, i: int)
    requires
        0 <= i < t.len(),
    ensures
        fentry_deep_duration(t[i]) <= ftree_deep_duration(t),
        fentry_count_sum(t[i]) <= ftree_count_sum(t),
    decreases t.len(),
{
    if i < t.len() - 1 {
        assert(t.drop_last()[i] == t[i]);
        lemma_fentry_le_sums(t.drop_last(), i);
    }
}

/// The top-level duration sum never exceeds the deep duration sum.
pub proof fn lemma_top_le_deep(t: Seq<FSpan>)
    ensures
        fold_top_duration(t) <= ftree_deep_duration(t),
    decreases t.len(),
{
    if t.len() > 0 {
        lemma_top_le_deep(t.drop_last());
        assert(t[t.len() - 1].duration <= fentry_deep_duration(t[t.len() - 1]));
    }
}

/// With unique names, the entry that carries a name is the one
/// `index_of_name` finds.
proof fn lemma_index_of_name_unique(t: Seq<FSpan>, name: Seq<char>, i: int)
    requires
        forall|a: int, b: int| 0 <= a < b < t.len() ==> (#[trigger] t[a]).name != (#[trigger] t[b]).name,
        0 <= i < t.len(),
        t[i].name == name,
    ensures
        index_of_name(t, name) == i,
    decreases t.len(),
{
    if i == 0 {
    } else {
        assert(t[0].name != name);
        let d = t.drop_first();
        assert forall|a: int, b: int| 0 <= a < b < d.len() implies (#[trigger] d[a]).name != (
        #[trigger] d[b]).name by {
            assert(d[a] == t[a + 1]);
            assert(d[b] == t[b + 1]);
        }
        assert(d[i - 1] == t[i]);
        lemma_index_of_name_unique(d, name, i - 1);
    }
}

/// Folding one span adds its deep duration, its node count, and its own
/// duration to the level's sums.
proof fn lemma_fold_span_sums(t: Seq<FSpan>, s: Span)
    ensures
        ftree_deep_duration(spec_fold_span(t, s)) == ftree_deep_duration(t) + span_deep_duration(
            s,
        ),
        ftree_count_sum(spec_fold_span(t, s)) == ftree_count_sum(t) + span_node_count(s),
        fold_top_duration(spec_fold_span(t, s)) == fold_top_duration(t) + s.duration,
    decreases s, 1int, 0int,
{
    lemma_index_of_name(t, s.name@);
    let i = index_of_name(t, s.name@);
    let cs = s.children@;
    if i >= 0 {
        lemma_fold_forest_sums(t[i].children, cs, cs.len() as int);
        assert(cs.subrange(0, cs.len() as int) =~= cs);
        let merged = FSpan {
            name: t[i].name,
            duration: (t[i].duration + s.duration) as nat,
            count: (t[i].count + 1) as nat,
            children: spec_fold_forest(t[i].children, cs, cs.len() as int),
        };
        assert(fentry_deep_duration(merged) == fentry_deep_duration(t[i]) + span_deep_duration(s));
        assert(fentry_count_sum(merged) == fentry_count_sum(t[i]) + span_node_count(s));
        lemma_fsums_update(t, i, merged);
    } else {
        lemma_fold_forest_sums(Seq::empty(), cs, cs.len() as int);
        assert(cs.subrange(0, cs.len() as int) =~= cs);
        let fresh = FSpan {
            name: s.name@,
            duration: s.duration as nat,
            count: 1,
            children: spec_fold_forest(Seq::empty(), cs, cs.len() as int),
        };
        assert(fentry_deep_duration(fresh) == span_deep_duration(s));
        assert(fentry_count_sum(fresh) == span_node_count(s));
        lemma_fsums_push(t, fresh);
    }
}

/// Merges one raw span into a folded level, keyed by name: a name that
/// already has an entry adds the span's duration to the entry's cumulative
/// duration, raises its occurrence count by one, and folds the span's
/// children into the entry's children; a new name appends an entry with
/// count one, exactly as [`spec_fold_span`] prescribes.
#[verifier::loop_isolation(false)]
pub fn fold_span_into(folded: &mut FoldedSpans, span: &Span)
    requires
        old(folded).wf(),
        ftree_deep_duration(old(folded)@) + span_deep_duration(*span) <= u64::MAX,
        ftree_count_sum(old(folded)@) + span_node_count(*span) <= u64::MAX,
    ensures
        final(folded)@ == spec_fold_span(old(folded)@, *span),
        final(folded).wf(),
    decreases *span, 1int,
{
    let ghost t0 = old(folded)@;
    proof {
        lemma_fvec_view(old(folded).spans@);
        lemma_fold_span_sums(t0, *span);
    }
    match name_index_get(&folded.index, span.name.as_str()) {
        Some(i) => {
            proof {
                let es = name_index_entries(folded.index);
                assert(es.dom().contains(span.name@));
                let j = choose|j: int|
                    0 <= j < folded.spans@.len() && folded.spans@[j].name@ == span.name@;
                assert(es[folded.spans@[j].name@] == j);
                assert(i == j);
                lemma_fentry_le_sums(t0, i as int);
                lemma_index_of_name_unique(t0, span.name@, i as int);
            }
            let ghost ventry = t0[i as int];
            let mut entry = folded.spans.remove(i);
            proof {
                assert(fspan_view(entry) == ventry);
                assert(ventry.duration <= fentry_deep_duration(ventry));
                assert(ventry.count <= fentry_count_sum(ventry));
                assert(span_deep_duration(*span) == span.duration + forest_deep_duration(
                    span.children@,
                ));
                assert(span_node_count(*span) == 1 + forest_node_count(span.children@));
            }
            entry.duration = entry.duration + span.duration;
            entry.count = entry.count + 1;
            let ghost cs0 = ventry.children;
            proof {
                assert(entry.children@ == cs0);
                assert(spec_fold_forest(cs0, span.children@, 0) == cs0);
            }
            let mut j: usize = 0;
            while j < span.children.len()
                invariant
                    j <= span.children@.len(),
                    entry.children@ == spec_fold_forest(cs0, span.children@, j as int),
                    entry.children.wf(),
                    entry.name@ == ventry.name,
                    entry.duration == ventry.duration + span.duration,
                    entry.count == ventry.count + 1,
                decreases span.children@.len() - j,
            {
                proof {
                    let cs = span.children@;
                    lemma_fold_forest_sums(cs0, cs, j as int);
                    let pre = cs.subrange(0, j as int);
                    let pre1 = cs.subrange(0, j as int + 1);
                    let suf = cs.subrange(j as int + 1, cs.len() as int);
                    assert(pre1.drop_last() =~= pre);
                    assert(pre1[pre1.len() - 1] == cs[j as int]);
                    assert(cs =~= pre1 + suf);
                    crate::span::lemma_forest_sums_concat(pre1, suf);
                    assert(ftree_deep_duration(cs0) + ventry.duration == fentry_deep_duration(
                        ventry,
                    ));
                    assert(ftree_count_sum(cs0) + ventry.count == fentry_count_sum(ventry));
                }
                fold_span_into(&mut entry.children, &span.children[j]);
                j = j + 1;
            }
            proof {
                assert(span.children@.subrange(0, span.children@.len() as int) =~= span.children@);
            }
            folded.spans.insert(i, entry);
            proof {
                assert(folded.spans@ =~= old(folded).spans@.update(i as int, entry));
                lemma_fvec_view(folded.spans@);
                let merged = FSpan {
                    name: ventry.name,
                    duration: (ventry.duration + span.duration) as nat,
                    count: (ventry.count + 1) as nat,
                    children: spec_fold_forest(cs0, span.children@, span.children@.len() as int),
                };
                assert(fspan_view(entry) == merged);
                assert forall|k: int| 0 <= k < folded.spans@.len() implies #[trigger] folded@[k]
                    == spec_fold_span(t0, *span)[k] by {
                    if k != i {
                        assert(folded.spans@[k] == old(folded).spans@[k]);
                    }
                }
                assert(folded@ =~= spec_fold_span(t0, *span));
                // well-formedness of the updated level
                assert forall|k: int| 0 <= k < folded.spans@.len() implies (
                #[trigger] folded.spans@[k]).wf() by {
                    if k != i {
                        assert(folded.spans@[k] == old(folded).spans@[k]);
                    }
                }
                assert forall|k: int| 0 <= k < folded.spans@.len() implies (
                #[trigger] folded@[k]).count >= 1 && model_wf(folded@[k].children) by {
                    if k != i {
                        assert(folded@[k] == t0[k]);
                    }
                }
                assert(folded.index_ok()) by {
                    let es = name_index_entries(folded.index);
                    assert(es == name_index_entries(old(folded).index));
                    assert forall|k: int| 0 <= k < folded.spans@.len() implies (
                    #[trigger] folded.spans@[k]).name@ == old(folded).spans@[k].name@ by {
                        if k != i {
                            assert(folded.spans@[k] == old(folded).spans@[k]);
                        }
                    }
                    assert forall|n: Seq<char>| es.dom().contains(n) implies exists|k: int|
                        0 <= k < folded.spans@.len() && (#[trigger] folded.spans@[k]).name@
                            == n by {
                        let k = choose|k: int|
                            0 <= k < old(folded).spans@.len() && (
                            #[trigger] old(folded).spans@[k]).name@ == n;
                        assert(folded.spans@[k].name@ == n);
                    }
                    assert forall|k: int| 0 <= k < folded.spans@.len() implies (
                    #[trigger] folded.spans@[k]).children.index_ok() by {
                        if k != i {
                            assert(folded.spans@[k] == old(folded).spans@[k]);
                        } else {
                            assert(folded.spans@[k] == entry);
                            assert(entry.children.wf());
                        }
                    }
                }
            }
        },
        None => {
            proof {
                let es = name_index_entries(folded.index);
                lemma_index_of_name(t0, span.name@);
                if index_of_name(t0, span.name@) >= 0 {
                    let i = index_of_name(t0, span.name@);
                    assert(t0[i].name == span.name@);
                    assert(es.dom().contains(folded.spans@[i].name@));
                }
                assert(index_of_name(t0, span.name@) == -1);
                assert(span_deep_duration(*span) == span.duration + forest_deep_duration(
                    span.children@,
                ));
                assert(span_node_count(*span) == 1 + forest_node_count(span.children@));
            }
            let children = fold_spans(&span.children);
            let pos = folded.spans.len();
            name_index_insert(&mut folded.index, span.name.clone(), pos);
            let entry = FoldedSpan { name: span.name.clone(), duration: span.duration, count: 1, children };
            folded.spans.push(entry);
            proof {
                lemma_fvec_view(folded.spans@);
                assert(folded.spans@ =~= old(folded).spans@.push(entry));
                let fresh = FSpan {
                    name: span.name@,
                    duration: span.duration as nat,
                    count: 1,
                    children: spec_fold_forest(
                        Seq::empty(),
                        span.children@,
                        span.children@.len() as int,
                    ),
                };
                assert(fspan_view(entry) == fresh);
                assert forall|k: int| 0 <= k < folded.spans@.len() implies #[trigger] folded@[k]
                    == spec_fold_span(t0, *span)[k] by {
                    if k < t0.len() {
                        assert(folded.spans@[k] == old(folded).spans@[k]);
                    }
                }
                assert(folded@ =~= spec_fold_span(t0, *span));
                assert forall|k: int| 0 <= k < folded.spans@.len() implies (
                #[trigger] folded.spans@[k]).wf() by {
                    if k < t0.len() {
                        assert(folded.spans@[k] == old(folded).spans@[k]);
                    }
                }
                assert forall|k: int| 0 <= k < folded.spans@.len() implies (
                #[trigger] folded@[k]).count >= 1 && model_wf(folded@[k].children) by {
                    if k < t0.len() {
                        assert(folded@[k] == t0[k]);
                    }
                }
                assert(folded.index_ok()) by {
                    let es0 = name_index_entries(old(folded).index);
                    let es1 = name_index_entries(folded.index);
                    assert(es1 == es0.insert(span.name@, pos as usize));
                    assert forall|n: Seq<char>| es1.dom().contains(n) implies exists|i: int|
                        0 <= i < folded.spans@.len() && (#[trigger] folded.spans@[i]).name@
                            == n by {
                        if n == span.name@ {
                            assert(folded.spans@[pos as int].name@ == n);
                        } else {
                            let i = choose|i: int|
                                0 <= i < old(folded).spans@.len() && (
                                #[trigger] old(folded).spans@[i]).name@ == n;
                            assert(folded.spans@[i].name@ == n);
                        }
                    }
                }
            }
        },
    }
}

/// Folds a forest of raw spans into a fresh folded tree, merging the spans
/// in order into one level keyed by name.
#[verifier::loop_isolation(false)]
pub fn fold_spans(spans: &Vec<Span>) -> (r: FoldedSpans)
    requires
        forest_deep_duration(spans@) <= u64::MAX,
        forest_node_count(spans@) <= u64::MAX,
    ensures
        r@ == spec_fold_forest(Seq::empty(), spans@, spans@.len() as int),
        r.wf(),
    decreases spans@, 0int,
{
    let mut folded = FoldedSpans::new();
    let mut j: usize = 0;
    while j < spans.len()
        invariant
            j <= spans@.len(),
            folded@ == spec_fold_forest(Seq::empty(), spans@, j as int),
            folded.wf(),
        decreases spans@.len() - j,
    {
        proof {
            let ss = spans@;
            lemma_fold_forest_sums(Seq::empty(), ss, j as int);
            let pre = ss.subrange(0, j as int);
            let pre1 = ss.subrange(0, j as int + 1);
            let suf = ss.subrange(j as int + 1, ss.len() as int);
            assert(pre1.drop_last() =~= pre);
            assert(pre1[pre1.len() - 1] == ss[j as int]);
            assert(ss =~= pre1 + suf);
            crate::span::lemma_forest_sums_concat(pre1, suf);
        }
        fold_span_into(&mut folded, &spans[j]);
        j = j + 1;
    }
    proof {
        assert(spans@.subrange(0, spans@.len() as int) =~= spans@);
    }
    folded
}

/// The folded level reached by walking the tree along `path[k..]`, or
/// `None` as soon as a name is unknown at its level.
pub open spec fn spec_lookup(t: Seq<FSpan>, path: Seq<Seq<char>>, k: int) -> Option<Seq<FSpan>>
    decreases path.len() - k,
{
    if k < 0 || k >= path.len() {
        Some(t)
    } else {
        let i = index_of_name(t, path[k]);
        if i >= 0 {
            spec_lookup(t[i].children, path, k + 1)
        } else {
            None::<Seq<FSpan>>
        }
    }
}

impl FoldedSpans {
    /// The entries of this level, in first-seen order.
    pub fn spans(&self) -> (r: &Vec<FoldedSpan>)
        ensures
            r@.len() == self@.len(),
            forall|i: int| 0 <= i < r@.len() ==> (#[trigger] r@[i])@ == self@[i],
            self.wf() ==> forall|i: int| 0 <= i < r@.len() ==> (#[trigger] r@[i]).wf(),
    {
        proof {
            lemma_fvec_view(self.spans@);
        }
        &self.spans
    }

    /// The number of entries at this level.
    pub fn len(&self) -> (r: usize)
        ensures
            r == self@.len(),
    {
        proof {
            lemma_fvec_view(self.spans@);
        }
        self.spans.len()
    }

    /// The total measured time at this level: the sum of the cumulative
    /// durations of all top-level entries, not divided by any count.
    #[verifier::loop_isolation(false)]
    pub fn duration(&self) -> (r: u64)
        requires
            self.wf(),
        ensures
            r == fold_top_duration(self@),
    {
        proof {
            lemma_top_le_deep(self@);
            lemma_fvec_view(self.spans@);
            assert(self@.subrange(0, 0) =~= Seq::<FSpan>::empty());
        }
        let mut total: u64 = 0;
        let mut j: usize = 0;
        while j < self.spans.len()
            invariant
                j <= self.spans@.len(),
                total == fold_top_duration(self@.subrange(0, j as int)),
            decreases self.spans@.len() - j,
        {
            proof {
                let pre = self@.subrange(0, j as int);
                let pre1 = self@.subrange(0, j as int + 1);
                let suf = self@.subrange(j as int + 1, self@.len() as int);
                assert(pre1.drop_last() =~= pre);
                assert(pre1[pre1.len() - 1] == self@[j as int]);
                assert(self@ =~= pre1 + suf);
                lemma_ftop_concat(pre1, suf);
                lemma_top_le_deep(self@);
            }
            total = total + self.spans[j].duration;
            j = j + 1;
        }
        proof {
            assert(self@.subrange(0, self@.len() as int) =~= self@);
        }
        total
    }

    /// Walks the tree along a path of names and returns the folded level
    /// under that path, or `None` as soon as a name is unknown at its
    /// level.
    pub fn get(&self, path: &[String]) -> (r: Option<&FoldedSpans>)
        requires
            self.wf(),
        ensures
            match r {
                Some(fs) => spec_lookup(self@, path_names(path@), 0) == Some(fs@) && fs.wf(),
                None => spec_lookup(self@, path_names(path@), 0) is None,
            },
    {
        self.get_from(path, 0)
    }

    fn get_from(&self, path: &[String], k: usize) -> (r: Option<&FoldedSpans>)
        requires
            self.wf(),
            k <= path@.len(),
        ensures
            match r {
                Some(fs) => spec_lookup(self@, path_names(path@), k as int) == Some(fs@)
                    && fs.wf(),
                None => spec_lookup(self@, path_names(path@), k as int) is None,
            },
        decreases path@.len() - k,
    {
        if k == path.len() {
            return Some(self);
        }
        proof {
            lemma_fvec_view(self.spans@);
        }
        match name_index_get(&self.index, path[k].as_str()) {
            Some(i) => {
                proof {
                    let es = name_index_entries(self.index);
                    assert(es.dom().contains(path@[k as int]@));
                    let j = choose|j: int|
                        0 <= j < self.spans@.len() && (#[trigger] self.spans@[j]).name@
                            == path@[k as int]@;
                    assert(es[self.spans@[j].name@] == j);
                    assert(i == j);
                    lemma_index_of_name_unique(self@, path@[k as int]@, i as int);
                }
                self.spans[i].children.get_from(path, k + 1)
            },
            None => {
                proof {
                    lemma_index_of_name(self@, path@[k as int]@);
                    let i = index_of_name(self@, path@[k as int]@);
                    if i >= 0 {
                        assert(self@[i].name == path@[k as int]@);
                        assert(name_index_entries(self.index).dom().contains(
                            self.spans@[i].name@,
                        ));
                    }
                }
                None
            },
        }
    }
}

impl FoldedSpan {
    /// The entry's name.
    pub fn name(&self) -> (r: &String)
        ensures
            r@ == self@.name,
    {
        &self.name
    }

    /// The cumulative duration over all folded occurrences of the name.
    pub fn duration(&self) -> (r: u64)
        ensures
            r == self@.duration,
    {
        self.duration
    }

    /// In how many folded samples the name appeared at this position.
    pub fn num_folded(&self) -> (r: u64)
        ensures
            r == self@.count,
    {
        self.count
    }

    /// The average duration of one occurrence: cumulative duration divided
    /// by occurrence count.
    pub fn average_duration(&self) -> (r: u64)
        requires
            self.wf(),
        ensures
            r == self@.duration / self@.count,
    {
        self.duration / self.count
    }

    /// The folded children of this entry.
    pub fn children(&self) -> (r: &FoldedSpans)
        ensures
            r@ == self@.children,
            self.wf() ==> r.wf(),
    {
        &self.children
    }
}

/// Concatenating levels adds their top-level duration sums.
proof fn lemma_ftop_concat(a: Seq<FSpan>, c: Seq<FSpan>)
    ensures
        fold_top_duration(a + c) == fold_top_duration(a) + fold_top_duration(c),
    decreases c.len(),
{
    if c.len() == 0 {
        assert(a + c =~= a);
    } else {
        assert((a + c).drop_last() =~= a + c.drop_last());
        assert((a + c)[(a + c).len() - 1] == c[c.len() - 1]);
        lemma_ftop_concat(a, c.drop_last());
    }
}

/// The tree folded from the first `k` samples of a window, oldest first.
pub open spec fn spec_fold_window(samples: Seq<Perf>, k: int) -> Seq<FSpan>
    decreases k,
{
    if k <= 0 || k > samples.len() {
        Seq::empty()
    } else {
        let prev = spec_fold_window(samples, k - 1);
        spec_fold_forest(prev, samples[k - 1]@, samples[k - 1]@.len() as int)
    }
}

/// The summed deep duration of the first `k` samples of a window.
pub open spec fn window_deep_duration(samples: Seq<Perf>, k: int) -> nat
    decreases k,
{
    if k <= 0 || k > samples.len() {
        0
    } else {
        window_deep_duration(samples, k - 1) + forest_deep_duration(samples[k - 1]@)
    }
}

/// The summed node count of the first `k` samples of a window.
pub open spec fn window_node_count(samples: Seq<Perf>, k: int) -> nat
    decreases k,
{
    if k <= 0 || k > samples.len() {
        0
    } else {
        window_node_count(samples, k - 1) + forest_node_count(samples[k - 1]@)
    }
}

/// The summed top-level duration of the first `k` samples of a window.
pub open spec fn window_top_duration(samples: Seq<Perf>, k: int) -> nat
    decreases k,
{
    if k <= 0 || k > samples.len() {
        0
    } else {
        window_top_duration(samples, k - 1) + forest_top_duration(samples[k - 1]@)
    }
}

/// Folding a window adds exactly the samples' contributions to the tree's
/// sums.
proof fn lemma_fold_window_sums(samples: Seq<Perf>, k: int)
    requires
        0 <= k <= samples.len(),
    ensures
        ftree_deep_duration(spec_fold_window(samples, k)) == window_deep_duration(samples, k),
        ftree_count_sum(spec_fold_window(samples, k)) == window_node_count(samples, k),
        fold_top_duration(spec_fold_window(samples, k)) == window_top_duration(samples, k),
    decreases k,
{
    if k > 0 {
        lemma_fold_window_sums(samples, k - 1);
        let prev = spec_fold_window(samples, k - 1);
        let ss = samples[k - 1]@;
        lemma_fold_forest_sums(prev, ss, ss.len() as int);
        assert(ss.subrange(0, ss.len() as int) =~= ss);
    }
}

/// The total duration of a folded window is the sum, over its samples, of
/// the samples' top-level durations: every folded span contributes its own
/// duration exactly once, in whatever order the samples are folded.
pub proof fn lemma_fold_window_duration(samples: Seq<Perf>, k: int)
    requires
        0 <= k <= samples.len(),
    ensures
        fold_top_duration(spec_fold_window(samples, k)) == window_top_duration(samples, k),
{
    lemma_fold_window_sums(samples, k);
}

/// Sum commutativity: folding the two samples in either order yields the
/// same total duration, even though the first-seen entry order can differ.
pub proof fn lemma_duration_commutative(a: Perf, b: Perf)
    ensures
        fold_top_duration(spec_fold_window(seq![a, b], 2)) == fold_top_duration(
            spec_fold_window(seq![b, a], 2),
        ),
{
    lemma_fold_window_duration(seq![a, b], 2);
    lemma_fold_window_duration(seq![b, a], 2);
    assert(window_top_duration(seq![a, b], 2) == forest_top_duration(a@) + forest_top_duration(
        b@,
    )) by {
        assert(window_top_duration(seq![a, b], 1) == window_top_duration(seq![a, b], 0)
            + forest_top_duration(a@));
    }
    assert(window_top_duration(seq![b, a], 2) == forest_top_duration(b@) + forest_top_duration(
        a@,
    )) by {
        assert(window_top_duration(seq![b, a], 1) == window_top_duration(seq![b, a], 0)
            + forest_top_duration(b@));
    }
}

/// How many top-level spans of a forest carry `name`.
pub open spec fn name_count(ss: Seq<Span>, name: Seq<char>) -> nat
    decreases ss.len(),
{
    if ss.len() == 0 {
        0
    } else {
        name_count(ss.drop_last(), name) + if ss[ss.len() - 1].name@ == name {
            1nat
        } else {
            0nat
        }
    }
}

/// The summed duration of the top-level spans of a forest that carry
/// `name`.
pub open spec fn name_duration(ss: Seq<Span>, name: Seq<char>) -> nat
    decreases ss.len(),
{
    if ss.len() == 0 {
        0
    } else {
        name_duration(ss.drop_last(), name) + if ss[ss.len() - 1].name@ == name {
            ss[ss.len() - 1].duration as nat
        } else {
            0nat
        }
    }
}

/// The occurrence count recorded for `name` at a folded level, or zero if
/// the level has no such entry.
pub open spec fn entry_count(t: Seq<FSpan>, name: Seq<char>) -> nat {
    let i = index_of_name(t, name);
    if i >= 0 {
        t[i].count
    } else {
        0
    }
}

/// The cumulative duration recorded for `name` at a folded level, or zero
/// if the level has no such entry.
pub open spec fn entry_duration(t: Seq<FSpan>, name: Seq<char>) -> nat {
    let i = index_of_name(t, name);
    if i >= 0 {
        t[i].duration
    } else {
        0
    }
}

/// Replacing an entry with one that keeps its name leaves every lookup
/// index unchanged.
proof fn lemma_index_update_same_name(t: Seq<FSpan>, i: int, e: FSpan, n: Seq<char>)
    requires
        0 <= i < t.len(),
        t[i].name == e.name,
    ensures
        index_of_name(t.update(i, e), n) == index_of_name(t, n),
    decreases t.len(),
{
    let u = t.update(i, e);
    if t.len() > 0 {
        if i == 0 {
            if t[0].name != n {
                assert(u.drop_first() =~= t.drop_first());
            }
        } else {
            assert(u[0] == t[0]);
            if t[0].name != n {
                assert(u.drop_first() =~= t.drop_first().update(i - 1, e));
                lemma_index_update_same_name(t.drop_first(), i - 1, e, n);
            }
        }
    }
}

/// Appending an entry keeps every present name's index, gives the new
/// entry's name the appended position if it was absent, and leaves every
/// other name absent.
proof fn lemma_index_push(t: Seq<FSpan>, e: FSpan, n: Seq<char>)
    ensures
        index_of_name(t, n) >= 0 ==> index_of_name(t.push(e), n) == index_of_name(t, n),
        index_of_name(t, n) == -1 && e.name == n ==> index_of_name(t.push(e), n) == t.len(),
        index_of_name(t, n) == -1 && e.name != n ==> index_of_name(t.push(e), n) == -1,
    decreases t.len(),
{
    let u = t.push(e);
    assert(index_of_name(Seq::<FSpan>::empty(), n) == -1);
    if t.len() == 0 {
        assert(u[0] == e);
        if e.name != n {
            assert(u.drop_first() =~= Seq::<FSpan>::empty());
        }
    } else {
        assert(u[0] == t[0]);
        if t[0].name != n {
            assert(u.drop_first() =~= t.drop_first().push(e));
            lemma_index_push(t.drop_first(), e, n);
        }
    }
}

/// Folding one span raises exactly its own name's count by one and its
/// own name's cumulative duration by its duration; every other name's
/// record is untouched.
proof fn lemma_fold_span_per_name(t: Seq<FSpan>, s: Span, n: Seq<char>)
    ensures
        entry_count(spec_fold_span(t, s), n) == entry_count(t, n) + if s.name@ == n {
            1nat
        } else {
            0nat
        },
        entry_duration(spec_fold_span(t, s), n) == entry_duration(t, n) + if s.name@ == n {
            s.duration as nat
        } else {
            0nat
        },
{
    lemma_index_of_name(t, s.name@);
    let i = index_of_name(t, s.name@);
    if i >= 0 {
        let merged = FSpan {
            name: t[i].name,
            duration: (t[i].duration + s.duration) as nat,
            count: (t[i].count + 1) as nat,
            children: spec_fold_forest(t[i].children, s.children@, s.children@.len() as int),
        };
        lemma_index_update_same_name(t, i, merged, n);
        lemma_index_of_name(t, n);
        if n == s.name@ {
            assert(index_of_name(t, n) == i);
        }
    } else {
        let fresh = FSpan {
            name: s.name@,
            duration: s.duration as nat,
            count: 1,
            children: spec_fold_forest(Seq::empty(), s.children@, s.children@.len() as int),
        };
        lemma_index_push(t, fresh, n);
        lemma_index_of_name(t, n);
        if n == s.name@ {
            assert(index_of_name(t, n) == -1);
            assert(t.push(fresh)[t.len() as int] == fresh);
        }
    }
}

/// Folding a forest gives every name the count and the summed duration of
/// the folded top-level spans that carried it.
pub proof fn lemma_fold_forest_per_name(t: Seq<FSpan>, ss: Seq<Span>, k: int, n: Seq<char>)
    requires
        0 <= k <= ss.len(),
    ensures
        entry_count(spec_fold_forest(t, ss, k), n) == entry_count(t, n) + name_count(
            ss.subrange(0, k),
            n,
        ),
        entry_duration(spec_fold_forest(t, ss, k), n) == entry_duration(t, n) + name_duration(
            ss.subrange(0, k),
            n,
        ),
    decreases k,
{
    if k == 0 {
        assert(ss.subrange(0, 0) =~= Seq::<Span>::empty());
    } else {
        lemma_fold_forest_per_name(t, ss, k - 1, n);
        lemma_fold_span_per_name(spec_fold_forest(t, ss, k - 1), ss[k - 1], n);
        let p = ss.subrange(0, k);
        assert(p.drop_last() =~= ss.subrange(0, k - 1));
        assert(p[p.len() - 1] == ss[k - 1]);
    }
}

/// The number of top-level spans carrying `name` across the first `k`
/// samples of a window.
pub open spec fn window_name_count(samples: Seq<Perf>, k: int, name: Seq<char>) -> nat
    decreases k,
{
    if k <= 0 || k > samples.len() {
        0
    } else {
        window_name_count(samples, k - 1, name) + name_count(samples[k - 1]@, name)
    }
}

/// The summed duration of the top-level spans carrying `name` across the
/// first `k` samples of a window.
pub open spec fn window_name_duration(samples: Seq<Perf>, k: int, name: Seq<char>) -> nat
    decreases k,
{
    if k <= 0 || k > samples.len() {
        0
    } else {
        window_name_duration(samples, k - 1, name) + name_duration(samples[k - 1]@, name)
    }
}

/// Occurrence counting, exactly: after folding a window, each name's
/// occurrence count is the number of folded top-level spans that carried
/// it — a name present in only three samples has count three, whatever the
/// window size — and each name's cumulative duration is the sum of those
/// spans' durations. The recorded average is therefore the average over
/// actual occurrences, and both records are unchanged by permuting the
/// samples.
pub proof fn lemma_fold_window_per_name(samples: Seq<Perf>, k: int, n: Seq<char>)
    requires
        0 <= k <= samples.len(),
    ensures
        entry_count(spec_fold_window(samples, k), n) == window_name_count(samples, k, n),
        entry_duration(spec_fold_window(samples, k), n) == window_name_duration(samples, k, n),
    decreases k,
{
    if k > 0 {
        lemma_fold_window_per_name(samples, k - 1, n);
        let prev = spec_fold_window(samples, k - 1);
        let ss = samples[k - 1]@;
        lemma_fold_forest_per_name(prev, ss, ss.len() as int, n);
        assert(ss.subrange(0, ss.len() as int) =~= ss);
    } else {
        assert(index_of_name(Seq::<FSpan>::empty(), n) == -1);
    }
}

/// The names of a level's entries, in iteration order.
pub open spec fn level_names(t: Seq<FSpan>) -> Seq<Seq<char>> {
    t.map_values(|e: FSpan| e.name)
}

/// First-seen order: folding one span never reorders the entries already
/// at a level — a known name keeps every position as it is, and a new
/// name is appended after all existing entries.
pub proof fn lemma_fold_keeps_first_seen_order(t: Seq<FSpan>, s: Span)
    ensures
        index_of_name(t, s.name@) >= 0 ==> level_names(spec_fold_span(t, s)) == level_names(t),
        index_of_name(t, s.name@) == -1 ==> level_names(spec_fold_span(t, s)) == level_names(
            t,
        ).push(s.name@),
{
    lemma_index_of_name(t, s.name@);
    let i = index_of_name(t, s.name@);
    if i >= 0 {
        assert(level_names(spec_fold_span(t, s)) =~= level_names(t));
    } else {
        assert(level_names(spec_fold_span(t, s)) =~= level_names(t).push(s.name@));
    }
}

/// Folding two samples in either order records the same occurrence count
/// and the same cumulative duration for every name, and so the same
/// average; only the first-seen entry order can differ.
pub proof fn lemma_per_name_commutative(a: Perf, b: Perf, n: Seq<char>)
    ensures
        entry_count(spec_fold_window(seq![a, b], 2), n) == entry_count(
            spec_fold_window(seq![b, a], 2),
            n,
        ),
        entry_duration(spec_fold_window(seq![a, b], 2), n) == entry_duration(
            spec_fold_window(seq![b, a], 2),
            n,
        ),
{
    lemma_fold_window_per_name(seq![a, b], 2, n);
    lemma_fold_window_per_name(seq![b, a], 2, n);
    assert(window_name_count(seq![a, b], 1, n) == window_name_count(seq![a, b], 0, n)
        + name_count(a@, n));
    assert(window_name_count(seq![b, a], 1, n) == window_name_count(seq![b, a], 0, n)
        + name_count(b@, n));
    assert(window_name_duration(seq![a, b], 1, n) == window_name_duration(seq![a, b], 0, n)
        + name_duration(a@, n));
    assert(window_name_duration(seq![b, a], 1, n) == window_name_duration(seq![b, a], 0, n)
        + name_duration(b@, n));
}

impl SampleWindow {
    /// Folds the samples currently in the window, oldest first, into one
    /// aggregated tree. The tree is rebuilt from scratch on every call, so
    /// it reflects only the samples currently retained.
    #[verifier::loop_isolation(false)]
    pub fn fold(&self) -> (r: FoldedSpans)
        requires
            window_deep_duration(self@, self@.len() as int) <= u64::MAX,
            window_node_count(self@, self@.len() as int) <= u64::MAX,
        ensures
            r@ == spec_fold_window(self@, self@.len() as int),
            r.wf(),
    {
        let mut folded = FoldedSpans::new();
        let mut k: usize = 0;
        while k < self.len()
            invariant
                k <= self@.len(),
                folded@ == spec_fold_window(self@, k as int),
                folded.wf(),
            decreases self@.len() - k,
        {
            proof {
                lemma_window_sums_mono(self@, k as int + 1, self@.len() as int);
            }
            let sample = self.sample(k);
            let spans = sample.spans();
            let ghost prev = folded@;
            let mut j: usize = 0;
            while j < spans.len()
                invariant
                    j <= spans@.len(),
                    folded@ == spec_fold_forest(prev, spans@, j as int),
                    folded.wf(),
                decreases spans@.len() - j,
            {
                proof {
                    lemma_fold_window_sums(self@, k as int);
                    lemma_fold_forest_sums(prev, spans@, j as int);
                    let ss = spans@;
                    let pre = ss.subrange(0, j as int);
                    let pre1 = ss.subrange(0, j as int + 1);
                    let suf = ss.subrange(j as int + 1, ss.len() as int);
                    assert(pre1.drop_last() =~= pre);
                    assert(pre1[pre1.len() - 1] == ss[j as int]);
                    assert(ss =~= pre1 + suf);
                    crate::span::lemma_forest_sums_concat(pre1, suf);
                }
                fold_span_into(&mut folded, &spans[j]);
                j = j + 1;
            }
            proof {
                assert(spans@.subrange(0, spans@.len() as int) =~= spans@);
            }
            k = k + 1;
        }
        folded
    }
}

/// The window sums only grow as more samples are taken in.
proof fn lemma_window_sums_mono(samples: Seq<Perf>, k1: int, k2: int)
    requires
        0 <= k1 <= k2 <= samples.len(),
    ensures
        window_deep_duration(samples, k1) <= window_deep_duration(samples, k2),
        window_node_count(samples, k1) <= window_node_count(samples, k2),
    decreases k2 - k1,
{
    if k1 < k2 {
        lemma_window_sums_mono(samples, k1 + 1, k2);
        assert(window_deep_duration(samples, k1 + 1) == window_deep_duration(samples, k1)
            + forest_deep_duration(samples[k1]@));
        assert(window_node_count(samples, k1 + 1) == window_node_count(samples, k1)
            + forest_node_count(samples[k1]@));
    }
}

impl Perf {
    /// Folds this sample's forest alone into an aggregated tree.
    pub fn folded(&self) -> (r: FoldedSpans)
        requires
            forest_deep_duration(self@) <= u64::MAX,
            forest_node_count(self@) <= u64::MAX,
        ensures
            r@ == spec_fold_forest(Seq::empty(), self@, self@.len() as int),
            r.wf(),
    {
        fold_spans(self.spans())
    }
}

/// Folding the first `k` spans of a forest adds their summed contributions
/// to the level's sums.
proof fn lemma_fold_forest_sums(t: Seq<FSpan>, ss: Seq<Span>, k: int)
    requires
        k <= ss.len(),
    ensures
        ftree_deep_duration(spec_fold_forest(t, ss, k)) == ftree_deep_duration(t)
            + forest_deep_duration(ss.subrange(0, if k < 0 { 0 } else { k })),
        ftree_count_sum(spec_fold_forest(t, ss, k)) == ftree_count_sum(t) + forest_node_count(
            ss.subrange(0, if k < 0 { 0 } else { k }),
        ),
        fold_top_duration(spec_fold_forest(t, ss, k)) == fold_top_duration(t)
            + forest_top_duration(ss.subrange(0, if k < 0 { 0 } else { k })),
    decreases ss, 0int, k,
{
    if k <= 0 {
        assert(ss.subrange(0, 0) =~= Seq::<Span>::empty());
    } else {
        lemma_fold_forest_sums(t, ss, k - 1);
        lemma_fold_span_sums(spec_fold_forest(t, ss, k - 1), ss[k - 1]);
        let p = ss.subrange(0, k);
        assert(p.drop_last() =~= ss.subrange(0, k - 1));
        assert(p[p.len() - 1] == ss[k - 1]);
    }
}

} // verus!
