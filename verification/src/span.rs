//! Raw execution-timing spans: the per-sample input of the aggregator.
//!
//! A [`Span`] is one named, measured interval with nested child spans; one
//! forest of spans is captured per sample. A [`Perf`] holds one such forest,
//! and a [`SampleWindow`] keeps a bounded, first-in-first-out window of the
//! most recent samples for folding.

use vstd::prelude::*;

verus! {

/// One named, measured interval of execution time, with the intervals
/// measured inside it as children. Durations are in an integer time unit
/// chosen by the caller.
pub struct Span {
    pub name: String,
    pub duration: u64,
    pub children: Vec<Span>,
}

/// The duration of the span itself plus the durations of all descendants.
pub open spec fn span_deep_duration(s: Span) -> nat
    decreases s, 1int,
{
    (s.duration + forest_deep_duration(s.children@)) as nat
}

/// The sum of [`span_deep_duration`] over a forest.
pub open spec fn forest_deep_duration(ss: Seq<Span>) -> nat
    decreases ss, 0int,
{
    if ss.len() == 0 {
        0
    } else {
        forest_deep_duration(ss.drop_last()) + span_deep_duration(ss[ss.len() - 1])
    }
}

/// The number of spans in the tree rooted at `s`, itself included.
pub open spec fn span_node_count(s: Span) -> nat
    decreases s, 1int,
{
    1 + forest_node_count(s.children@)
}

/// The total number of spans in a forest.
pub open spec fn forest_node_count(ss: Seq<Span>) -> nat
    decreases ss, 0int,
{
    if ss.len() == 0 {
        0
    } else {
        forest_node_count(ss.drop_last()) + span_node_count(ss[ss.len() - 1])
    }
}

/// The sum of the top-level durations of a forest, descendants not counted.
pub open spec fn forest_top_duration(ss: Seq<Span>) -> nat
    decreases ss,
{
    if ss.len() == 0 {
        0
    } else {
        (forest_top_duration(ss.drop_last()) + ss[ss.len() - 1].duration) as nat
    }
}

/// Splitting a forest at any point splits its deep duration, its node
/// count, and its top-level duration sum.
pub proof fn lemma_forest_sums_concat(a: Seq<Span>, c: Seq<Span>)
    ensures
        forest_deep_duration(a + c) == forest_deep_duration(a) + forest_deep_duration(c),
        forest_node_count(a + c) == forest_node_count(a) + forest_node_count(c),
        forest_top_duration(a + c) == forest_top_duration(a) + forest_top_duration(c),
    decreases c.len(),
{
    if c.len() == 0 {
        assert(a + c =~= a);
    } else {
        assert((a + c).drop_last() =~= a + c.drop_last());
        assert((a + c)[(a + c).len() - 1] == c[c.len() - 1]);
        lemma_forest_sums_concat(a, c.drop_last());
    }
}

/// The names of a path, as character sequences.
pub open spec fn path_names(p: Seq<String>) -> Seq<Seq<char>> {
    p.map_values(|s: String| s@)
}

/// Merges two optional durations: absent stays absent, and two matches
/// add up.
pub open spec fn opt_sum(a: Option<nat>, b: Option<nat>) -> Option<nat> {
    match (a, b) {
        (None, None) => None::<nat>,
        (Some(x), None) => Some(x),
        (None, Some(y)) => Some(y),
        (Some(x), Some(y)) => Some((x + y) as nat),
    }
}

/// The duration found by walking one raw span along `path[k..]`: its own
/// duration if the span's name is the last path segment, the query of its
/// children along the rest of the path if the name matches an earlier
/// segment, and nothing otherwise.
pub open spec fn spec_query_span(s: Span, path: Seq<Seq<char>>, k: int) -> Option<nat>
    decreases s, 1int,
{
    if k < 0 || k >= path.len() {
        None::<nat>
    } else if s.name@ == path[k] {
        if k == path.len() - 1 {
            Some(s.duration as nat)
        } else {
            spec_query_forest(s.children@, path, k + 1)
        }
    } else {
        None::<nat>
    }
}

/// The summed duration over all spans of a forest that match the path:
/// absent only when no span matches.
pub open spec fn spec_query_forest(ss: Seq<Span>, path: Seq<Seq<char>>, k: int) -> Option<nat>
    decreases ss, 0int,
{
    if ss.len() == 0 {
        None::<nat>
    } else {
        opt_sum(
            spec_query_forest(ss.drop_last(), path, k),
            spec_query_span(ss[ss.len() - 1], path, k),
        )
    }
}

/// A matched duration never exceeds the deep duration of what was
/// searched.
proof fn lemma_query_le_deep(ss: Seq<Span>, path: Seq<Seq<char>>, k: int)
    ensures
        spec_query_forest(ss, path, k) matches Some(v) ==> v <= forest_deep_duration(ss),
    decreases ss, 0int,
{
    if ss.len() > 0 {
        lemma_query_le_deep(ss.drop_last(), path, k);
        lemma_query_span_le_deep(ss[ss.len() - 1], path, k);
    }
}

proof fn lemma_query_span_le_deep(s: Span, path: Seq<Seq<char>>, k: int)
    ensures
        spec_query_span(s, path, k) matches Some(v) ==> v <= span_deep_duration(s),
    decreases s, 1int,
{
    if 0 <= k < path.len() && s.name@ == path[k] && k < path.len() - 1 {
        lemma_query_le_deep(s.children@, path, k + 1);
    }
}

/// Queries one raw span along `path[k..]`, as [`spec_query_span`]
/// prescribes.
pub fn get_perf_from_span(s: &Span, path: &[String], k: usize) -> (r: Option<u64>)
    requires
        span_deep_duration(*s) <= u64::MAX,
        k <= path@.len(),
    ensures
        match r {
            Some(d) => spec_query_span(*s, path_names(path@), k as int) == Some(d as nat),
            None => spec_query_span(*s, path_names(path@), k as int) is None,
        },
    decreases *s, 1int,
{
    if k >= path.len() {
        return None;
    }
    if s.name.eq(&path[k]) {
        if k == path.len() - 1 {
            Some(s.duration)
        } else {
            get_perf_from_spans(&s.children, path, k + 1)
        }
    } else {
        None
    }
}

/// Queries a forest of raw spans along `path[k..]`, summing the durations
/// of every span that matches, as [`spec_query_forest`] prescribes.
#[verifier::loop_isolation(false)]
pub fn get_perf_from_spans(spans: &Vec<Span>, path: &[String], k: usize) -> (r: Option<u64>)
    requires
        forest_deep_duration(spans@) <= u64::MAX,
        k <= path@.len(),
    ensures
        match r {
            Some(d) => spec_query_forest(spans@, path_names(path@), k as int) == Some(d as nat),
            None => spec_query_forest(spans@, path_names(path@), k as int) is None,
        },
    decreases spans@, 0int,
{
    let ghost pn = path_names(path@);
    let mut acc: Option<u64> = None;
    let mut j: usize = 0;
    proof {
        assert(spans@.subrange(0, 0) =~= Seq::<Span>::empty());
    }
    while j < spans.len()
        invariant
            j <= spans@.len(),
            match acc {
                Some(a) => spec_query_forest(spans@.subrange(0, j as int), pn, k as int) == Some(
                    a as nat,
                ),
                None => spec_query_forest(spans@.subrange(0, j as int), pn, k as int) is None,
            },
        decreases spans@.len() - j,
    {
        proof {
            let pre = spans@.subrange(0, j as int);
            let pre1 = spans@.subrange(0, j as int + 1);
            let suf = spans@.subrange(j as int + 1, spans@.len() as int);
            assert(pre1.drop_last() =~= pre);
            assert(pre1[pre1.len() - 1] == spans@[j as int]);
            assert(spans@ =~= pre1 + suf);
            lemma_forest_sums_concat(pre1, suf);
            lemma_forest_sums_concat(pre, spans@.subrange(j as int, spans@.len() as int));
            assert(pre + spans@.subrange(j as int, spans@.len() as int) =~= spans@);
            assert(spans@.subrange(j as int, spans@.len() as int)[0] == spans@[j as int]);
            lemma_query_le_deep(pre, pn, k as int);
            lemma_query_span_le_deep(spans@[j as int], pn, k as int);
            assert(span_deep_duration(spans@[j as int]) <= forest_deep_duration(
                spans@.subrange(j as int, spans@.len() as int),
            )) by {
                let rest = spans@.subrange(j as int, spans@.len() as int);
                assert(rest =~= rest.subrange(0, 1) + rest.subrange(1, rest.len() as int));
                lemma_forest_sums_concat(
                    rest.subrange(0, 1),
                    rest.subrange(1, rest.len() as int),
                );
                assert(rest.subrange(0, 1).drop_last() =~= Seq::<Span>::empty());
                assert(rest.subrange(0, 1)[0] == spans@[j as int]);
            }
        }
        match get_perf_from_span(&spans[j], path, k) {
            Some(d) => {
                acc = match acc {
                    Some(a) => Some(a + d),
                    None => Some(d),
                };
            },
            None => {},
        }
        j = j + 1;
    }
    proof {
        assert(spans@.subrange(0, spans@.len() as int) =~= spans@);
    }
    acc
}

/// One captured forest of spans: the trace of a single sample.
pub struct Perf {
    spans: Vec<Span>,
}

impl View for Perf {
    type V = Seq<Span>;

    closed spec fn view(&self) -> Seq<Span> {
        self.spans@
    }
}

impl Perf {
    pub fn new(spans: Vec<Span>) -> (r: Self)
        ensures
            r@ == spans@,
    {
        Perf { spans }
    }

    pub fn spans(&self) -> (r: &Vec<Span>)
        ensures
            r@ == self@,
    {
        &self.spans
    }

    /// The summed duration of the spans of this sample that match the
    /// path of names, or `None` when no span matches.
    pub fn get_perf(&self, path: &[String]) -> (r: Option<u64>)
        requires
            forest_deep_duration(self@) <= u64::MAX,
        ensures
            match r {
                Some(d) => spec_query_forest(self@, path_names(path@), 0) == Some(d as nat),
                None => spec_query_forest(self@, path_names(path@), 0) is None,
            },
    {
        get_perf_from_spans(&self.spans, path, 0)
    }
}

/// A caller-owned, bounded, first-in-first-out window of the most recent
/// samples: pushing onto a full window evicts the oldest sample.
pub struct SampleWindow {
    capacity: usize,
    samples: Vec<Perf>,
}

impl View for SampleWindow {
    type V = Seq<Perf>;

    closed spec fn view(&self) -> Seq<Perf> {
        self.samples@
    }
}

impl SampleWindow {
    pub closed spec fn spec_capacity(&self) -> usize {
        self.capacity
    }

    /// The window never holds more samples than its capacity.
    pub open spec fn wf(&self) -> bool {
        &&& self@.len() <= self.spec_capacity()
        &&& self.spec_capacity() >= 1
    }

    pub fn new(capacity: usize) -> (r: Self)
        requires
            capacity >= 1,
        ensures
            r.wf(),
            r.spec_capacity() == capacity,
            r@ == Seq::<Perf>::empty(),
    {
        SampleWindow { capacity, samples: Vec::new() }
    }

    pub fn capacity(&self) -> (r: usize)
        ensures
            r == self.spec_capacity(),
    {
        self.capacity
    }

    pub fn len(&self) -> (r: usize)
        ensures
            r == self@.len(),
    {
        self.samples.len()
    }

    pub fn sample(&self, i: usize) -> (r: &Perf)
        requires
            i < self@.len(),
        ensures
            *r == self@[i as int],
    {
        &self.samples[i]
    }

    /// Appends the newest sample; if the window is full, the oldest sample
    /// is evicted first.
    pub fn push(&mut self, sample: Perf)
        requires
            old(self).wf(),
        ensures
            final(self).wf(),
            final(self).spec_capacity() == old(self).spec_capacity(),
            final(self)@ == if old(self)@.len() < old(self).spec_capacity() {
                old(self)@.push(sample)
            } else {
                old(self)@.drop_first().push(sample)
            },
    {
        if self.samples.len() == self.capacity {
            self.samples.remove(0);
            proof {
                assert(self.samples@ =~= old(self)@.drop_first());
            }
        }
        self.samples.push(sample);
    }
}

} // verus!
