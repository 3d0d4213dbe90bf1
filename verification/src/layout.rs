//! A declarative recursive layout tree: a rectangle is subdivided among
//! weighted rows and columns, overlaid layers, and tagged leaves.
//!
//! `Row` and `Column` nodes split their rectangle proportionally to the
//! children's weights with the running-cursor primitive of [`crate::geom`],
//! so the children tile the parent exactly. `Layers` nodes hand every child
//! the same, full rectangle. `Leaf` nodes bind a caller-defined tag to the
//! rectangle that reaches them.

use crate::geom::{
    all_nonneg, cursor_point, lemma_partition_exact, lemma_seg_bound_in_range,
    lemma_sum_prefix_bounds, seg_bound, seg_width, sum_all, sum_prefix, Rect,
};
use vstd::prelude::*;
use vstd::std_specs::cmp::PartialEqSpec;

verus! {

/// The direction in which a [`Flex`] node splits its rectangle.
#[derive(Clone, Copy, Debug)]
pub enum FlexKind {
    Row,
    Column,
}

/// One weighted child of a [`Flex`] node.
pub struct FlexItem<T> {
    pub weight: u64,
    pub item: Layout<T>,
}

/// A weighted row or column of layouts.
pub struct Flex<T> {
    pub items: Vec<FlexItem<T>>,
    pub kind: FlexKind,
}

/// A recursive subdivision of a rectangle among tagged regions.
pub enum Layout<T> {
    Flex(Flex<T>),
    Layers(Vec<Layout<T>>),
    Leaf(T),
}

/// A configuration error found in a layout tree. A `Flex` node must have at
/// least one child, a strictly positive total weight, and a total weight
/// that is still representable.
#[derive(Clone, Copy, Debug, PartialEq, Eq, Structural)]
pub enum ConfigError {
    EmptyFlex,
    ZeroTotalWeight,
    WeightOverflow,
}

/// The weights of a flex node's children, as mathematical integers.
pub open spec fn weights_of<T>(items: Seq<FlexItem<T>>) -> Seq<int> {
    Seq::new(items.len(), |i: int| items[i].weight as int)
}

impl<T> Flex<T> {
    /// The rectangle handed to child `k`: a slice of `b` along the flex
    /// direction, between the running-cursor boundaries `k` and `k + 1`.
    pub open spec fn slice(self, b: Rect, k: int) -> Rect {
        let ws = weights_of(self.items@);
        match self.kind {
            FlexKind::Row => Rect {
                x: seg_bound(b.x as int, b.w as int, ws, k) as u64,
                y: b.y,
                w: seg_width(b.x as int, b.w as int, ws, k) as u64,
                h: b.h,
            },
            FlexKind::Column => Rect {
                x: b.x,
                y: seg_bound(b.y as int, b.h as int, ws, k) as u64,
                w: b.w,
                h: seg_width(b.y as int, b.h as int, ws, k) as u64,
            },
        }
    }

    /// The first configuration error of this node or its children, in
    /// pre-order: an own error is reported before any child's.
    pub open spec fn config_error(self) -> Option<ConfigError>
        decreases self, 1int, 0int,
    {
        if self.items@.len() == 0 {
            Some(ConfigError::EmptyFlex)
        } else if sum_all(weights_of(self.items@)) == 0 {
            Some(ConfigError::ZeroTotalWeight)
        } else if sum_all(weights_of(self.items@)) > u64::MAX {
            Some(ConfigError::WeightOverflow)
        } else {
            flex_error_upto(self, self.items@.len() as int)
        }
    }

    /// No configuration error anywhere in this node or below it.
    pub open spec fn wf(self) -> bool {
        self.config_error() is None
    }

    /// The pre-order leaf entries of this node over rectangle `b`.
    pub open spec fn entries(self, b: Rect) -> Seq<(T, Rect)>
        decreases self, 1int, 0int,
    {
        flex_entries_upto(self, b, self.items@.len() as int)
    }
}

/// The first configuration error among children `0..k` of a flex node.
pub open spec fn flex_error_upto<T>(f: Flex<T>, k: int) -> Option<ConfigError>
    decreases f, 0int, k,
{
    if k <= 0 || k > f.items@.len() {
        None
    } else {
        match flex_error_upto(f, k - 1) {
            Some(e) => Some(e),
            None => f.items@[k - 1].item.config_error(),
        }
    }
}

/// The concatenated entries of children `0..k` of a flex node.
pub open spec fn flex_entries_upto<T>(f: Flex<T>, b: Rect, k: int) -> Seq<(T, Rect)>
    decreases f, 0int, k,
{
    if k <= 0 || k > f.items@.len() {
        Seq::empty()
    } else {
        flex_entries_upto(f, b, k - 1) + f.items@[k - 1].item.entries(f.slice(b, k - 1))
    }
}

/// The first configuration error among layers `0..k`.
pub open spec fn layers_error_upto<T>(ls: Seq<Layout<T>>, k: int) -> Option<ConfigError>
    decreases ls, 0int, k,
{
    if k <= 0 || k > ls.len() {
        None
    } else {
        match layers_error_upto(ls, k - 1) {
            Some(e) => Some(e),
            None => ls[k - 1].config_error(),
        }
    }
}

/// The concatenated entries of layers `0..k`, each over the same rectangle.
pub open spec fn layers_entries_upto<T>(ls: Seq<Layout<T>>, b: Rect, k: int) -> Seq<(T, Rect)>
    decreases ls, 0int, k,
{
    if k <= 0 || k > ls.len() {
        Seq::empty()
    } else {
        layers_entries_upto(ls, b, k - 1) + ls[k - 1].entries(b)
    }
}

impl<T> Layout<T> {
    /// The first configuration error in pre-order, or `None` if the tree is
    /// well formed.
    pub open spec fn config_error(self) -> Option<ConfigError>
        decreases self, 2int, 0int,
    {
        match self {
            Layout::Leaf(_) => None,
            Layout::Layers(ls) => layers_error_upto(ls@, ls@.len() as int),
            Layout::Flex(f) => f.config_error(),
        }
    }

    /// No configuration error anywhere in the tree.
    pub open spec fn wf(self) -> bool {
        self.config_error() is None
    }

    /// The (tag, rectangle) pairs of all leaves in pre-order, with every
    /// rectangle subdivided as the tree prescribes.
    pub open spec fn entries(self, b: Rect) -> Seq<(T, Rect)>
        decreases self, 2int, 0int,
    {
        match self {
            Layout::Leaf(t) => seq![(t, b)],
            Layout::Layers(ls) => layers_entries_upto(ls@, b, ls@.len() as int),
            Layout::Flex(f) => f.entries(b),
        }
    }
}

impl<T> Flex<T> {
    /// Builds a row layout: the children split the width proportionally to
    /// their weights. A row with no children, with total weight zero, or
    /// with a total weight beyond `u64::MAX` is rejected.
    pub fn row(items: Vec<FlexItem<T>>) -> (r: Result<Layout<T>, ConfigError>)
        ensures
            ({
                let total = sum_all(weights_of(items@));
                if items@.len() == 0 {
                    r == Err::<Layout<T>, ConfigError>(ConfigError::EmptyFlex)
                } else if total == 0 {
                    r == Err::<Layout<T>, ConfigError>(ConfigError::ZeroTotalWeight)
                } else if total > u64::MAX {
                    r == Err::<Layout<T>, ConfigError>(ConfigError::WeightOverflow)
                } else {
                    r == Ok::<Layout<T>, ConfigError>(
                        Layout::Flex(Flex { items, kind: FlexKind::Row }),
                    )
                }
            }),
    {
        match check_flex_weights(&items) {
            Some(e) => Err(e),
            None => Ok(Layout::Flex(Flex { items, kind: FlexKind::Row })),
        }
    }

    /// Builds a column layout: as [`Flex::row`], but splitting the height.
    pub fn column(items: Vec<FlexItem<T>>) -> (r: Result<Layout<T>, ConfigError>)
        ensures
            ({
                let total = sum_all(weights_of(items@));
                if items@.len() == 0 {
                    r == Err::<Layout<T>, ConfigError>(ConfigError::EmptyFlex)
                } else if total == 0 {
                    r == Err::<Layout<T>, ConfigError>(ConfigError::ZeroTotalWeight)
                } else if total > u64::MAX {
                    r == Err::<Layout<T>, ConfigError>(ConfigError::WeightOverflow)
                } else {
                    r == Ok::<Layout<T>, ConfigError>(
                        Layout::Flex(Flex { items, kind: FlexKind::Column }),
                    )
                }
            }),
    {
        match check_flex_weights(&items) {
            Some(e) => Err(e),
            None => Ok(Layout::Flex(Flex { items, kind: FlexKind::Column })),
        }
    }
}

/// `rs` holds references to exactly the tags of `es`, with the same
/// rectangles, in the same order.
pub open spec fn refs_match<T>(rs: Seq<(&T, Rect)>, es: Seq<(T, Rect)>) -> bool {
    &&& rs.len() == es.len()
    &&& forall|i: int|
        0 <= i < rs.len() ==> *(#[trigger] rs[i]).0 == es[i].0 && rs[i].1 == es[i].1
}

/// `new_s` is `old_s` with references to the entries `es` appended.
pub open spec fn extended_by<T>(
    old_s: Seq<(&T, Rect)>,
    new_s: Seq<(&T, Rect)>,
    es: Seq<(T, Rect)>,
) -> bool {
    &&& new_s.len() == old_s.len() + es.len()
    &&& new_s.subrange(0, old_s.len() as int) == old_s
    &&& refs_match(new_s.subrange(old_s.len() as int, new_s.len() as int), es)
}

proof fn lemma_extend_push<T>(s: Seq<(&T, Rect)>, t: &T, tv: T, b: Rect)
    requires
        *t == tv,
    ensures
        extended_by(s, s.push((t, b)), seq![(tv, b)]),
{
    let n = s.push((t, b));
    assert(n.subrange(0, s.len() as int) =~= s);
    assert(n.subrange(s.len() as int, n.len() as int) =~= seq![(t, b)]);
}

proof fn lemma_extend_trans<T>(
    a: Seq<(&T, Rect)>,
    m: Seq<(&T, Rect)>,
    c: Seq<(&T, Rect)>,
    e1: Seq<(T, Rect)>,
    e2: Seq<(T, Rect)>,
)
    requires
        extended_by(a, m, e1),
        extended_by(m, c, e2),
    ensures
        extended_by(a, c, e1 + e2),
{
    assert(c.subrange(0, a.len() as int) =~= a) by {
        assert forall|i: int| 0 <= i < a.len() implies c[i] == a[i] by {
            assert(c.subrange(0, m.len() as int)[i] == c[i]);
            assert(m.subrange(0, a.len() as int)[i] == m[i]);
        }
    }
    let suffix = c.subrange(a.len() as int, c.len() as int);
    let es = e1 + e2;
    assert forall|i: int| 0 <= i < suffix.len() implies *(#[trigger] suffix[i]).0 == es[i].0
        && suffix[i].1 == es[i].1 by {
        if i < e1.len() {
            assert(suffix[i] == c[a.len() + i]);
            assert(c.subrange(0, m.len() as int)[a.len() + i] == c[a.len() + i]);
            assert(m.subrange(a.len() as int, m.len() as int)[i] == m[a.len() + i]);
        } else {
            assert(suffix[i] == c[a.len() + i]);
            assert(c.subrange(m.len() as int, c.len() as int)[i - e1.len()] == c[a.len() + i]);
        }
    }
}

impl<T> Flex<T> {
    /// Visits the children in declaration order, slicing the rectangle
    /// proportionally to the weights, and appends every leaf's (tag,
    /// rectangle) pair to `out`. Stops at the first configuration error.
    #[verifier::loop_isolation(false)]
    fn visit_into<'a>(&'a self, b: Rect, out: &mut Vec<(&'a T, Rect)>) -> (r: Result<
        (),
        ConfigError,
    >)
        requires
            b.wf(),
        ensures
            match self.config_error() {
                Some(e) => r == Err::<(), ConfigError>(e),
                None => r == Ok::<(), ConfigError>(()) && extended_by(
                    old(out)@,
                    final(out)@,
                    self.entries(b),
                ),
            },
        decreases *self, 1int, 0int,
    {
        if let Some(e) = check_flex_weights(&self.items) {
            return Err(e);
        }
        let ghost ws = weights_of(self.items@);
        let total128 = sum_weights_upto(&self.items, self.items.len());
        let total: u64 = total128 as u64;
        let (pos0, size) = match self.kind {
            FlexKind::Row => (b.x, b.w),
            FlexKind::Column => (b.y, b.h),
        };
        proof {
            assert(all_nonneg(ws));
            assert(total == sum_all(ws));
            lemma_partition_exact(pos0 as int, size as int, ws);
            assert(out@.subrange(0, out@.len() as int) =~= out@);
            assert(out@.subrange(out@.len() as int, out@.len() as int) =~= Seq::<
                (&T, Rect),
            >::empty());
        }
        let mut cum: u64 = 0;
        let mut start: u64 = pos0;
        let mut k: usize = 0;
        while k < self.items.len()
            invariant
                b.wf(),
                ws == weights_of(self.items@),
                all_nonneg(ws),
                0 < sum_all(ws) <= u64::MAX,
                total == sum_all(ws),
                pos0 == (match self.kind {
                    FlexKind::Row => b.x,
                    FlexKind::Column => b.y,
                }),
                size == (match self.kind {
                    FlexKind::Row => b.w,
                    FlexKind::Column => b.h,
                }),
                k <= self.items@.len(),
                cum == sum_prefix(ws, k as int),
                start == seg_bound(pos0 as int, size as int, ws, k as int),
                flex_error_upto(*self, k as int) is None,
                extended_by(old(out)@, out@, flex_entries_upto(*self, b, k as int)),
            decreases self.items@.len() - k,
        {
            proof {
                lemma_sum_prefix_bounds(ws, k as int);
                lemma_sum_prefix_bounds(ws, k + 1 as int);
                lemma_partition_exact(pos0 as int, size as int, ws);
            }
            let item = &self.items[k];
            proof {
                assert(ws[k as int] == item.weight);
                assert(sum_prefix(ws, k as int + 1) == sum_prefix(ws, k as int) + ws[k as int]);
            }
            let cum2: u64 = cum + item.weight;
            let next: u64 = cursor_point(pos0, size, cum2, total);
            proof {
                assert(next == seg_bound(pos0 as int, size as int, ws, k as int + 1));
                assert(seg_bound(pos0 as int, size as int, ws, k as int) <= seg_bound(
                    pos0 as int,
                    size as int,
                    ws,
                    k as int + 1,
                ));
            }
            let child_b = match self.kind {
                FlexKind::Row => Rect { x: start, y: b.y, w: next - start, h: b.h },
                FlexKind::Column => Rect { x: b.x, y: start, w: b.w, h: next - start },
            };
            proof {
                assert(child_b == self.slice(b, k as int));
                assert(child_b.wf());
            }
            let ghost mid = out@;
            match item.item.visit_into(child_b, out) {
                Err(e) => {
                    proof {
                        lemma_flex_error_first(*self, k as int, e);
                    }
                    return Err(e);
                },
                Ok(_) => {
                    proof {
                        lemma_extend_trans(
                            old(out)@,
                            mid,
                            out@,
                            flex_entries_upto(*self, b, k as int),
                            self.items@[k as int].item.entries(self.slice(b, k as int)),
                        );
                    }
                },
            }
            cum = cum2;
            start = next;
            k = k + 1;
        }
        Ok(())
    }

    /// Visits this flex node over `bounds` and returns the leaves'
    /// (tag, rectangle) pairs in visit order, or the first configuration
    /// error found in pre-order.
    pub fn try_visit(&self, bounds: Rect) -> (r: Result<Vec<(&T, Rect)>, ConfigError>)
        requires
            bounds.wf(),
        ensures
            match self.config_error() {
                Some(e) => r == Err::<Vec<(&T, Rect)>, ConfigError>(e),
                None => r matches Ok(v) && refs_match(v@, self.entries(bounds)),
            },
    {
        let mut out: Vec<(&T, Rect)> = Vec::new();
        match self.visit_into(bounds, &mut out) {
            Ok(_) => {
                proof {
                    assert(out@.subrange(0, out@.len() as int) =~= out@);
                }
                Ok(out)
            },
            Err(e) => Err(e),
        }
    }
}

/// Once a configuration error is found at child `k`, it is the error of
/// every longer prefix as well.
proof fn lemma_flex_error_first<T>(f: Flex<T>, k: int, e: ConfigError)
    requires
        0 <= k < f.items@.len(),
        flex_error_upto(f, k) is None,
        f.items@[k].item.config_error() == Some(e),
    ensures
        flex_error_upto(f, f.items@.len() as int) == Some(e),
{
    lemma_flex_error_stable(f, k + 1, f.items@.len() as int, e);
}

proof fn lemma_flex_error_stable<T>(f: Flex<T>, k: int, j: int, e: ConfigError)
    requires
        0 < k <= j <= f.items@.len(),
        flex_error_upto(f, k) == Some(e),
    ensures
        flex_error_upto(f, j) == Some(e),
    decreases j - k,
{
    if k < j {
        lemma_flex_error_stable(f, k + 1, j, e);
    }
}

proof fn lemma_layers_error_first<T>(ls: Seq<Layout<T>>, k: int, e: ConfigError)
    requires
        0 <= k < ls.len(),
        layers_error_upto(ls, k) is None,
        ls[k].config_error() == Some(e),
    ensures
        layers_error_upto(ls, ls.len() as int) == Some(e),
{
    lemma_layers_error_stable(ls, k + 1, ls.len() as int, e);
}

proof fn lemma_layers_error_stable<T>(ls: Seq<Layout<T>>, k: int, j: int, e: ConfigError)
    requires
        0 < k <= j <= ls.len(),
        layers_error_upto(ls, k) == Some(e),
    ensures
        layers_error_upto(ls, j) == Some(e),
    decreases j - k,
{
    if k < j {
        lemma_layers_error_stable(ls, k + 1, j, e);
    }
}

impl<T> Layout<T> {
    /// Pre-order traversal: appends every leaf's (tag, rectangle) pair to
    /// `out`, or stops at the first configuration error.
    #[verifier::loop_isolation(false)]
    fn visit_into<'a>(&'a self, b: Rect, out: &mut Vec<(&'a T, Rect)>) -> (r: Result<
        (),
        ConfigError,
    >)
        requires
            b.wf(),
        ensures
            match self.config_error() {
                Some(e) => r == Err::<(), ConfigError>(e),
                None => r == Ok::<(), ConfigError>(()) && extended_by(
                    old(out)@,
                    final(out)@,
                    self.entries(b),
                ),
            },
        decreases *self, 2int, 0int,
    {
        match self {
            Layout::Leaf(t) => {
                out.push((t, b));
                proof {
                    lemma_extend_push(old(out)@, t, *t, b);
                }
                Ok(())
            },
            Layout::Flex(f) => f.visit_into(b, out),
            Layout::Layers(ls) => {
                proof {
                    assert(out@.subrange(0, out@.len() as int) =~= out@);
                    assert(out@.subrange(out@.len() as int, out@.len() as int) =~= Seq::<
                        (&T, Rect),
                    >::empty());
                }
                let mut k: usize = 0;
                while k < ls.len()
                    invariant
                        b.wf(),
                        k <= ls@.len(),
                        layers_error_upto(ls@, k as int) is None,
                        extended_by(old(out)@, out@, layers_entries_upto(ls@, b, k as int)),
                    decreases ls@.len() - k,
                {
                    let ghost mid = out@;
                    match ls[k].visit_into(b, out) {
                        Err(e) => {
                            proof {
                                lemma_layers_error_first(ls@, k as int, e);
                            }
                            return Err(e);
                        },
                        Ok(_) => {
                            proof {
                                lemma_extend_trans(
                                    old(out)@,
                                    mid,
                                    out@,
                                    layers_entries_upto(ls@, b, k as int),
                                    ls@[k as int].entries(b),
                                );
                            }
                        },
                    }
                    k = k + 1;
                }
                Ok(())
            },
        }
    }

    /// Visits the tree over `bounds` and returns the leaves' (tag,
    /// rectangle) pairs in pre-order, or the first configuration error.
    pub fn try_visit(&self, bounds: Rect) -> (r: Result<Vec<(&T, Rect)>, ConfigError>)
        requires
            bounds.wf(),
        ensures
            match self.config_error() {
                Some(e) => r == Err::<Vec<(&T, Rect)>, ConfigError>(e),
                None => r matches Ok(v) && refs_match(v@, self.entries(bounds)),
            },
    {
        let mut out: Vec<(&T, Rect)> = Vec::new();
        match self.visit_into(bounds, &mut out) {
            Ok(_) => {
                proof {
                    assert(out@.subrange(0, out@.len() as int) =~= out@);
                }
                Ok(out)
            },
            Err(e) => Err(e),
        }
    }
}

/// The rectangle of the first entry whose tag equals `tag`, or `None` if no
/// entry matches.
pub open spec fn find_first<T: PartialEq>(es: Seq<(T, Rect)>, tag: T) -> Option<Rect>
    decreases es.len(),
{
    if es.len() == 0 {
        None
    } else if es[0].0.eq_spec(&tag) {
        Some(es[0].1)
    } else {
        find_first(es.drop_first(), tag)
    }
}

/// Searching a concatenation finds the first match of the left part, and
/// falls back to the right part only if the left has none.
proof fn lemma_find_first_concat<T: PartialEq>(a: Seq<(T, Rect)>, c: Seq<(T, Rect)>, tag: T)
    ensures
        find_first(a + c, tag) == (match find_first(a, tag) {
            Some(r) => Some(r),
            None => find_first(c, tag),
        }),
    decreases a.len(),
{
    if a.len() == 0 {
        assert(a + c =~= c);
    } else {
        assert((a + c).drop_first() =~= a.drop_first() + c);
        lemma_find_first_concat(a.drop_first(), c, tag);
    }
}

/// If a flex node has no configuration error through its first `j` children,
/// none of those children has one.
proof fn lemma_flex_child_wf<T>(f: Flex<T>, j: int, k: int)
    requires
        0 <= k < j <= f.items@.len(),
        flex_error_upto(f, j) is None,
    ensures
        f.items@[k].item.config_error() is None,
    decreases j,
{
    if k < j - 1 {
        lemma_flex_child_wf(f, j - 1, k);
    }
}

/// If a layers node has no configuration error through its first `j`
/// children, none of those children has one.
proof fn lemma_layers_child_wf<T>(ls: Seq<Layout<T>>, j: int, k: int)
    requires
        0 <= k < j <= ls.len(),
        layers_error_upto(ls, j) is None,
    ensures
        ls[k].config_error() is None,
    decreases j,
{
    if k < j - 1 {
        lemma_layers_child_wf(ls, j - 1, k);
    }
}

impl<T: PartialEq> Flex<T> {
    /// Short-circuiting search below a well-formed flex node: stops at the
    /// first leaf whose tag equals `tag`.
    #[verifier::loop_isolation(false)]
    fn find_in(&self, tag: &T, b: Rect) -> (r: Option<Rect>)
        requires
            b.wf(),
            self.wf(),
        ensures
            T::obeys_eq_spec() ==> r == find_first(self.entries(b), *tag),
        decreases *self, 1int, 0int,
    {
        let ghost ws = weights_of(self.items@);
        let total128 = sum_weights_upto(&self.items, self.items.len());
        let total: u64 = total128 as u64;
        let (pos0, size) = match self.kind {
            FlexKind::Row => (b.x, b.w),
            FlexKind::Column => (b.y, b.h),
        };
        proof {
            assert(all_nonneg(ws));
            lemma_partition_exact(pos0 as int, size as int, ws);
        }
        let mut cum: u64 = 0;
        let mut start: u64 = pos0;
        let mut k: usize = 0;
        while k < self.items.len()
            invariant
                k <= self.items@.len(),
                cum == sum_prefix(ws, k as int),
                start == seg_bound(pos0 as int, size as int, ws, k as int),
                T::obeys_eq_spec() ==> find_first(flex_entries_upto(*self, b, k as int), *tag)
                    is None,
            decreases self.items@.len() - k,
        {
            proof {
                lemma_sum_prefix_bounds(ws, k as int);
                lemma_sum_prefix_bounds(ws, k as int + 1);
            }
            let item = &self.items[k];
            proof {
                assert(ws[k as int] == item.weight);
            }
            let cum2: u64 = cum + item.weight;
            let next: u64 = cursor_point(pos0, size, cum2, total);
            proof {
                assert(next == seg_bound(pos0 as int, size as int, ws, k as int + 1));
            }
            let child_b = match self.kind {
                FlexKind::Row => Rect { x: start, y: b.y, w: next - start, h: b.h },
                FlexKind::Column => Rect { x: b.x, y: start, w: b.w, h: next - start },
            };
            proof {
                assert(child_b == self.slice(b, k as int));
                assert(child_b.wf());
                lemma_flex_child_wf(*self, self.items@.len() as int, k as int);
            }
            if let Some(found) = item.item.find_in(tag, child_b) {
                proof {
                    if T::obeys_eq_spec() {
                        lemma_find_first_concat(
                            flex_entries_upto(*self, b, k as int),
                            self.items@[k as int].item.entries(self.slice(b, k as int)),
                            *tag,
                        );
                        lemma_flex_find_stable(*self, b, k as int + 1, *tag);
                    }
                }
                return Some(found);
            }
            proof {
                if T::obeys_eq_spec() {
                    lemma_find_first_concat(
                        flex_entries_upto(*self, b, k as int),
                        self.items@[k as int].item.entries(self.slice(b, k as int)),
                        *tag,
                    );
                }
            }
            cum = cum2;
            start = next;
            k = k + 1;
        }
        None
    }
}

/// A match found among the first `k` children keeps being the result for
/// every longer prefix.
proof fn lemma_flex_find_stable<T: PartialEq>(f: Flex<T>, b: Rect, k: int, tag: T)
    requires
        0 < k <= f.items@.len(),
        find_first(flex_entries_upto(f, b, k), tag) is Some,
    ensures
        find_first(f.entries(b), tag) == find_first(flex_entries_upto(f, b, k), tag),
    decreases f.items@.len() - k,
{
    if k < f.items@.len() {
        lemma_find_first_concat(
            flex_entries_upto(f, b, k),
            f.items@[k].item.entries(f.slice(b, k)),
            tag,
        );
        lemma_flex_find_stable(f, b, k + 1, tag);
    }
}

/// A match found among the first `k` layers keeps being the result for
/// every longer prefix.
proof fn lemma_layers_find_stable<T: PartialEq>(ls: Seq<Layout<T>>, b: Rect, k: int, tag: T)
    requires
        0 < k <= ls.len(),
        find_first(layers_entries_upto(ls, b, k), tag) is Some,
    ensures
        find_first(layers_entries_upto(ls, b, ls.len() as int), tag) == find_first(
            layers_entries_upto(ls, b, k),
            tag,
        ),
    decreases ls.len() - k,
{
    if k < ls.len() {
        lemma_find_first_concat(layers_entries_upto(ls, b, k), ls[k].entries(b), tag);
        lemma_layers_find_stable(ls, b, k + 1, tag);
    }
}

impl<T: PartialEq> Layout<T> {
    /// Short-circuiting pre-order search: stops at the first matching leaf.
    #[verifier::loop_isolation(false)]
    fn find_in(&self, tag: &T, b: Rect) -> (r: Option<Rect>)
        requires
            b.wf(),
            self.wf(),
        ensures
            T::obeys_eq_spec() ==> r == find_first(self.entries(b), *tag),
        decreases *self, 2int, 0int,
    {
        match self {
            Layout::Leaf(t) => {
                proof {
                    let es = seq![(*t, b)];
                    assert(self.entries(b) == es);
                    assert(es.drop_first() =~= Seq::<(T, Rect)>::empty());
                    assert(find_first(Seq::<(T, Rect)>::empty(), *tag) is None);
                }
                if t.eq(tag) {
                    Some(b)
                } else {
                    None
                }
            },
            Layout::Flex(f) => f.find_in(tag, b),
            Layout::Layers(ls) => {
                let mut k: usize = 0;
                while k < ls.len()
                    invariant
                        k <= ls@.len(),
                        T::obeys_eq_spec() ==> find_first(
                            layers_entries_upto(ls@, b, k as int),
                            *tag,
                        ) is None,
                    decreases ls@.len() - k,
                {
                    proof {
                        lemma_layers_child_wf(ls@, ls@.len() as int, k as int);
                    }
                    if let Some(found) = ls[k].find_in(tag, b) {
                        proof {
                            if T::obeys_eq_spec() {
                                lemma_find_first_concat(
                                    layers_entries_upto(ls@, b, k as int),
                                    ls@[k as int].entries(b),
                                    *tag,
                                );
                                lemma_layers_find_stable(ls@, b, k as int + 1, *tag);
                            }
                        }
                        return Some(found);
                    }
                    proof {
                        if T::obeys_eq_spec() {
                            lemma_find_first_concat(
                                layers_entries_upto(ls@, b, k as int),
                                ls@[k as int].entries(b),
                                *tag,
                            );
                        }
                    }
                    k = k + 1;
                }
                None
            },
        }
    }

    /// Finds the rectangle of the *first* leaf in pre-order whose tag equals
    /// `item`, or `None` if no leaf carries that tag. The traversal stops at
    /// the first match.
    pub fn get(&self, item: &T, bounds: Rect) -> (r: Option<Rect>)
        requires
            bounds.wf(),
            self.wf(),
        ensures
            T::obeys_eq_spec() ==> r == find_first(self.entries(bounds), *item),
    {
        self.find_in(item, bounds)
    }
}

/// The mapping from tags to rectangles built by walking the entries in
/// order: a tag that recurs keeps its last rectangle.
pub open spec fn map_of_entries<T>(es: Seq<(T, Rect)>) -> Map<T, Rect>
    decreases es.len(),
{
    if es.len() == 0 {
        Map::empty()
    } else {
        map_of_entries(es.drop_last()).insert(es.last().0, es.last().1)
    }
}

impl<T: Copy + Eq + core::hash::Hash> Layout<T> {
    /// Lays the tree out over `bounds` and returns the tag-to-rectangle
    /// mapping of its leaves; a tag that occurs at several leaves keeps the
    /// last-visited rectangle.
    #[verifier::loop_isolation(false)]
    pub fn layout(&self, bounds: Rect) -> (r: std::collections::HashMap<T, Rect>)
        requires
            bounds.wf(),
            self.wf(),
        ensures
            vstd::std_specs::hash::obeys_key_model::<T>() ==> r@ == map_of_entries(
                self.entries(bounds),
            ),
    {
        let ghost es = self.entries(bounds);
        let pairs = match self.try_visit(bounds) {
            Ok(v) => v,
            Err(_) => {
                proof {
                    assert(false);
                }
                Vec::new()
            },
        };
        let mut m: std::collections::HashMap<T, Rect> = std::collections::HashMap::new();
        let mut i: usize = 0;
        while i < pairs.len()
            invariant
                i <= pairs@.len(),
                refs_match(pairs@, es),
                vstd::std_specs::hash::obeys_key_model::<T>() ==> m@ == map_of_entries(
                    es.subrange(0, i as int),
                ),
            decreases pairs@.len() - i,
        {
            let (t, rc) = pairs[i];
            m.insert(*t, rc);
            proof {
                let pre = es.subrange(0, i as int + 1);
                assert(pre.drop_last() =~= es.subrange(0, i as int));
                assert(pre.last() == es[i as int]);
            }
            i = i + 1;
        }
        proof {
            assert(es.subrange(0, es.len() as int) =~= es);
        }
        m
    }
}

/// Overlay: both children of a two-layer `Layers` node are laid out over
/// the same, full rectangle, and the node's entries are the two children's
/// entries in order.
pub proof fn lemma_layers_overlay<T>(ls: Vec<Layout<T>>, b: Rect)
    requires
        ls@.len() == 2,
    ensures
        Layout::Layers(ls).entries(b) == ls@[0].entries(b) + ls@[1].entries(b),
{
    let e0 = ls@[0].entries(b);
    let e1 = ls@[1].entries(b);
    assert(layers_entries_upto(ls@, b, 0) =~= Seq::<(T, Rect)>::empty());
    assert(layers_entries_upto(ls@, b, 1) == layers_entries_upto(ls@, b, 0) + e0);
    assert(layers_entries_upto(ls@, b, 2) == layers_entries_upto(ls@, b, 1) + e1);
    assert((Seq::<(T, Rect)>::empty() + e0) + e1 =~= e0 + e1);
}

/// Row and column exactness: in a flex node whose own level is well formed,
/// the children's slices tile the parent rectangle exactly. The first slice
/// starts at the parent's edge, each next slice starts where the previous
/// one ends, the last slice ends at the parent's far edge, and the cross
/// axis is handed down unchanged, so the slice sizes sum exactly to the
/// parent's size with no gap or overlap.
pub proof fn lemma_flex_tiles<T>(f: Flex<T>, b: Rect)
    requires
        f.items@.len() > 0,
        0 < sum_all(weights_of(f.items@)) <= u64::MAX,
        b.wf(),
    ensures
        match f.kind {
            FlexKind::Row => {
                let n = f.items@.len() as int;
                &&& f.slice(b, 0).x == b.x
                &&& f.slice(b, n - 1).x + f.slice(b, n - 1).w == b.x + b.w
                &&& forall|k: int|
                    0 <= k < n - 1 ==> #[trigger] f.slice(b, k).x + f.slice(b, k).w == f.slice(
                        b,
                        k + 1,
                    ).x
                &&& forall|k: int|
                    0 <= k < n ==> #[trigger] f.slice(b, k).y == b.y && f.slice(b, k).h == b.h
            },
            FlexKind::Column => {
                let n = f.items@.len() as int;
                &&& f.slice(b, 0).y == b.y
                &&& f.slice(b, n - 1).y + f.slice(b, n - 1).h == b.y + b.h
                &&& forall|k: int|
                    0 <= k < n - 1 ==> #[trigger] f.slice(b, k).y + f.slice(b, k).h == f.slice(
                        b,
                        k + 1,
                    ).y
                &&& forall|k: int|
                    0 <= k < n ==> #[trigger] f.slice(b, k).x == b.x && f.slice(b, k).w == b.w
            },
        },
{
    let ws = weights_of(f.items@);
    let n = f.items@.len() as int;
    assert(all_nonneg(ws));
    let (pos0, size) = match f.kind {
        FlexKind::Row => (b.x as int, b.w as int),
        FlexKind::Column => (b.y as int, b.h as int),
    };
    lemma_partition_exact(pos0, size, ws);
    assert forall|k: int| 0 <= k <= n implies pos0 <= #[trigger] seg_bound(pos0, size, ws, k)
        <= pos0 + size by {
        lemma_seg_bound_in_range(pos0, size, ws, k);
    }
}

/// Sums the weights of `items[0..k]` without overflow.
fn sum_weights_upto<T>(items: &Vec<FlexItem<T>>, k: usize) -> (r: u128)
    requires
        k <= items@.len(),
    ensures
        r == sum_prefix(weights_of(items@), k as int),
{
    let mut total: u128 = 0;
    let mut i: usize = 0;
    while i < k
        invariant
            i <= k <= items@.len(),
            total == sum_prefix(weights_of(items@), i as int),
            total <= i * (u64::MAX as int),
        decreases k - i,
    {
        proof {
            assert(items@.len() <= usize::MAX) by {
                assert(items.len() == items@.len());
            }
            assert((i + 1) * (u64::MAX as int) == i * (u64::MAX as int) + u64::MAX) by (nonlinear_arith);
            assert(i * (u64::MAX as int) <= items@.len() * (u64::MAX as int)) by (nonlinear_arith)
                requires
                    0 <= i <= items@.len(),
            ;
            assert(items@.len() * (u64::MAX as int) < u128::MAX) by (nonlinear_arith)
                requires
                    items@.len() <= usize::MAX,
            ;
        }
        total = total + (items[i].weight as u128);
        i = i + 1;
    }
    total
}

/// The configuration error of a single flex level, if any.
fn check_flex_weights<T>(items: &Vec<FlexItem<T>>) -> (r: Option<ConfigError>)
    ensures
        ({
            let total = sum_all(weights_of(items@));
            if items@.len() == 0 {
                r == Some(ConfigError::EmptyFlex)
            } else if total == 0 {
                r == Some(ConfigError::ZeroTotalWeight)
            } else if total > u64::MAX {
                r == Some(ConfigError::WeightOverflow)
            } else {
                r == None::<ConfigError>
            }
        }),
{
    if items.len() == 0 {
        return Some(ConfigError::EmptyFlex);
    }
    let total = sum_weights_upto(items, items.len());
    if total == 0 {
        Some(ConfigError::ZeroTotalWeight)
    } else if total > u64::MAX as u128 {
        Some(ConfigError::WeightOverflow)
    } else {
        None
    }
}

} // verus!
