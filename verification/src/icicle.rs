//! The icicle geometry plan: a folded span tree rendered as nested,
//! time-proportional bands.
//!
//! Each level of the tree becomes a horizontal band of fixed height. The
//! width of the level is divided among the entries in proportion to their
//! cumulative durations with the running-cursor primitive of
//! [`crate::geom`], so the bands tile the level exactly. Below each entry's
//! header band its children are rendered the same way; duration measured
//! in an entry but not attributable to any child is rendered as an
//! explicit `Missing` band. The plan is a pure function of the tree, the
//! rectangle and the configuration; no pixels are drawn here.

use crate::folded::{
    fold_top_duration, ftree_deep_duration, lemma_top_le_deep, FSpan, FoldedSpan, FoldedSpans,
};
use crate::geom::{
    all_nonneg, cursor_point, lemma_partition_exact, lemma_sum_prefix_bounds, seg_bound, sum_all,
    sum_prefix, Rect,
};
use vstd::prelude::*;

verus! {

/// An estimate of how wide a piece of text renders, supplied by the
/// caller: the engine never measures fonts itself.
pub trait TextMeasure {
    /// The estimated width of `s` rendered at `font_height`.
    spec fn spec_width(&self, s: Seq<char>, font_height: u64) -> u64;

    fn width(&self, s: &str, font_height: u64) -> (r: u64)
        ensures
            r == self.spec_width(s@, font_height),
    ;
}

/// A measure that charges a fixed width per character, whatever the font
/// height; wide enough for monospace estimates.
pub struct CharCellMeasure {
    pub char_width: u64,
}

impl TextMeasure for CharCellMeasure {
    open spec fn spec_width(&self, s: Seq<char>, font_height: u64) -> u64 {
        if s.len() * self.char_width > u64::MAX {
            u64::MAX
        } else {
            (s.len() * self.char_width) as u64
        }
    }

    fn width(&self, s: &str, font_height: u64) -> (r: u64) {
        let n = s.unicode_len();
        proof {
            assert(n <= u64::MAX);
            assert((n as u128) * (self.char_width as u128) <= u128::MAX) by (nonlinear_arith)
                requires
                    n <= u64::MAX,
                    self.char_width <= u64::MAX,
            ;
        }
        let prod: u128 = (n as u128) * (self.char_width as u128);
        if prod > u64::MAX as u128 {
            u64::MAX
        } else {
            prod as u64
        }
    }
}

/// The configuration of the icicle plan: the fixed height of one band, the
/// narrowest band still drawn, the font height labels are measured at, and
/// the fill palette cycled through by nesting depth.
pub struct IcicleConfig {
    pub layer_height: u64,
    pub min_band_width: u64,
    pub font_height: u64,
    pub palette: Vec<u32>,
}

impl IcicleConfig {
    /// Bands have a positive height and the palette has a colour to pick.
    pub open spec fn wf(&self) -> bool {
        &&& self.layer_height >= 1
        &&& self.palette@.len() >= 1
    }

    pub fn new(layer_height: u64, min_band_width: u64, font_height: u64, palette: Vec<u32>) -> (r:
        Self)
        requires
            layer_height >= 1,
            palette@.len() >= 1,
        ensures
            r.wf(),
            r == (IcicleConfig { layer_height, min_band_width, font_height, palette }),
    {
        IcicleConfig { layer_height, min_band_width, font_height, palette }
    }
}

/// One planned band: its fitted label, if any text fits, its nesting
/// depth, its absolute rectangle, and its fill colour.
pub struct PlanEntry {
    pub label: Option<String>,
    pub depth: u64,
    pub rect: Rect,
    pub color: u32,
}

/// The model of one planned band.
pub ghost struct PlanItem {
    pub label: Option<Seq<char>>,
    pub depth: u64,
    pub rect: Rect,
    pub color: u32,
}

impl View for PlanEntry {
    type V = PlanItem;

    open spec fn view(&self) -> PlanItem {
        PlanItem {
            label: match self.label {
                Some(s) => Some(s@),
                None => None,
            },
            depth: self.depth,
            rect: self.rect,
            color: self.color,
        }
    }
}

/// The models of a plan's bands, in emission order.
pub open spec fn plan_view(s: Seq<PlanEntry>) -> Seq<PlanItem> {
    s.map_values(|e: PlanEntry| e@)
}

/// The label that fits a band: the name is truncated from the end, one
/// character at a time, until the rendered text fits the width; a name
/// truncated to nothing yields no label at all.
pub open spec fn fit_label<M: TextMeasure>(m: M, name: Seq<char>, cfg: IcicleConfig, w: u64) -> Option<
    Seq<char>,
>
    decreases name.len(),
{
    if name.len() == 0 {
        None::<Seq<char>>
    } else if m.spec_width(name, cfg.font_height) <= w {
        Some(name)
    } else {
        fit_label(m, name.subrange(0, name.len() - 1), cfg, w)
    }
}

/// The fill colour for a nesting depth: the palette entry at depth modulo
/// the palette length.
pub open spec fn depth_color(cfg: IcicleConfig, depth: u64) -> u32 {
    if cfg.palette@.len() == 0 {
        0
    } else {
        cfg.palette@[depth as int % cfg.palette@.len() as int]
    }
}

/// The header band of one named entry.
pub open spec fn header_item<M: TextMeasure>(
    m: M,
    name: Seq<char>,
    x: u64,
    y: u64,
    w: u64,
    depth: u64,
    cfg: IcicleConfig,
) -> PlanItem {
    PlanItem {
        label: fit_label(m, name, cfg, w),
        depth,
        rect: Rect { x, y, w, h: cfg.layer_height },
        color: depth_color(cfg, depth),
    }
}

/// The cumulative durations of a level's entries, as subdivision weights.
pub open spec fn durations_of(t: Seq<FSpan>) -> Seq<int> {
    Seq::new(t.len(), |i: int| t[i].duration as int)
}

/// The left edge of entry `k`'s band when `w` units starting at `x` are
/// divided among the level's durations.
pub open spec fn band_left(t: Seq<FSpan>, x: u64, w: u64, k: int) -> int {
    seg_bound(x as int, w as int, durations_of(t), k)
}

/// The height of a folded entry: its own band plus its children's bands.
pub open spec fn fspan_height(e: FSpan) -> nat
    decreases e, 1int,
{
    1 + ftree_height(e.children)
}

/// The number of band rows a folded level occupies.
pub open spec fn ftree_height(t: Seq<FSpan>) -> nat
    decreases t, 0int,
{
    if t.len() == 0 {
        0
    } else {
        let rest = ftree_height(t.drop_last());
        let last = fspan_height(t[t.len() - 1]);
        if rest >= last {
            rest
        } else {
            last
        }
    }
}

/// No entry is taller than its level.
proof fn lemma_fspan_height_le(t: Seq<FSpan>, i: int)
    requires
        0 <= i < t.len(),
    ensures
        fspan_height(t[i]) <= ftree_height(t),
    decreases t.len(),
{
    if i < t.len() - 1 {
        assert(t.drop_last()[i] == t[i]);
        lemma_fspan_height_le(t.drop_last(), i);
    }
}

/// The plan of a folded level over the band starting at `(x, y)` with
/// width `w`: nothing for an empty level; a single unlabeled placeholder
/// band over the full width when every duration is zero; otherwise one
/// band per entry, subdivided by duration, each skipped entirely when
/// narrower than the configured minimum.
pub open spec fn spans_plan<M: TextMeasure>(
    m: M,
    t: Seq<FSpan>,
    x: u64,
    y: u64,
    w: u64,
    depth: u64,
    cfg: IcicleConfig,
) -> Seq<PlanItem>
    decreases t, 3int, 0int,
{
    if t.len() == 0 {
        Seq::empty()
    } else if fold_top_duration(t) == 0 {
        if w < cfg.min_band_width {
            Seq::empty()
        } else {
            seq![
                PlanItem {
                    label: None,
                    depth,
                    rect: Rect { x, y, w, h: cfg.layer_height },
                    color: depth_color(cfg, depth),
                },
            ]
        }
    } else {
        spans_plan_upto(m, t, x, y, w, depth, cfg, t.len() as int)
    }
}

/// The plan of the first `k` entries of a level.
pub open spec fn spans_plan_upto<M: TextMeasure>(
    m: M,
    t: Seq<FSpan>,
    x: u64,
    y: u64,
    w: u64,
    depth: u64,
    cfg: IcicleConfig,
    k: int,
) -> Seq<PlanItem>
    decreases t, 2int, k,
{
    if k <= 0 || k > t.len() {
        Seq::empty()
    } else {
        spans_plan_upto(m, t, x, y, w, depth, cfg, k - 1) + band_plan(
            m,
            t,
            x,
            y,
            w,
            depth,
            cfg,
            k - 1,
        )
    }
}

/// The plan of entry `k`'s band: nothing when the band is narrower than
/// the configured minimum, else the entry's own plan over its band.
pub open spec fn band_plan<M: TextMeasure>(
    m: M,
    t: Seq<FSpan>,
    x: u64,
    y: u64,
    w: u64,
    depth: u64,
    cfg: IcicleConfig,
    k: int,
) -> Seq<PlanItem>
    decreases t, 1int, 0int,
{
    if k < 0 || k >= t.len() {
        Seq::empty()
    } else {
        let x0 = band_left(t, x, w, k);
        let x1 = band_left(t, x, w, k + 1);
        let bw = x1 - x0;
        if bw < cfg.min_band_width {
            Seq::empty()
        } else {
            span_plan(m, t[k], x0 as u64, y, bw as u64, depth, cfg)
        }
    }
}

/// The `Missing` band: duration measured in the owning entry but not
/// attributable to any child, skipped like any band narrower than the
/// minimum.
pub open spec fn missing_band<M: TextMeasure>(
    m: M,
    x: u64,
    y: u64,
    w: u64,
    depth: u64,
    cfg: IcicleConfig,
) -> Seq<PlanItem> {
    if w < cfg.min_band_width {
        Seq::empty()
    } else {
        seq![header_item(m, "Missing"@, x, y, w, depth, cfg)]
    }
}

/// The plan of one entry over its band: the header, then, if the entry has
/// children, the children's plan stacked below. If the children's summed
/// duration falls short of the entry's own duration, the children receive
/// only the matching share of the width and the leftover becomes a
/// `Missing` band at the children's depth; if it reaches or exceeds the
/// entry's own duration, the children receive the full width and no
/// `Missing` band appears.
pub open spec fn span_plan<M: TextMeasure>(
    m: M,
    e: FSpan,
    x: u64,
    y: u64,
    w: u64,
    depth: u64,
    cfg: IcicleConfig,
) -> Seq<PlanItem>
    decreases e, 4int, 0int,
{
    let header = header_item(m, e.name, x, y, w, depth, cfg);
    let covered = fold_top_duration(e.children);
    let cy = (y + cfg.layer_height) as u64;
    let cdepth = (depth + 1) as u64;
    if e.children.len() == 0 {
        seq![header]
    } else if covered < e.duration {
        let cw = (w * covered / (e.duration as int)) as u64;
        seq![header] + spans_plan(m, e.children, x, cy, cw, cdepth, cfg) + missing_band(
            m,
            (x + cw) as u64,
            cy,
            (w - cw) as u64,
            cdepth,
            cfg,
        )
    } else {
        seq![header] + spans_plan(m, e.children, x, cy, w, cdepth, cfg)
    }
}

/// The duration weights of a level sum to its top-level duration total,
/// prefix by prefix.
proof fn lemma_dur_prefix(t: Seq<FSpan>, k: int)
    requires
        0 <= k <= t.len(),
    ensures
        sum_prefix(durations_of(t), k) == fold_top_duration(t.subrange(0, k)),
    decreases k,
{
    if k == 0 {
        assert(t.subrange(0, 0) =~= Seq::<FSpan>::empty());
    } else {
        lemma_dur_prefix(t, k - 1);
        let p = t.subrange(0, k);
        assert(p.drop_last() =~= t.subrange(0, k - 1));
        assert(p[p.len() - 1] == t[k - 1]);
    }
}

proof fn lemma_dur_all(t: Seq<FSpan>)
    ensures
        sum_all(durations_of(t)) == fold_top_duration(t),
        all_nonneg(durations_of(t)),
{
    lemma_dur_prefix(t, t.len() as int);
    assert(t.subrange(0, t.len() as int) =~= t);
}

/// The palette colour for a depth.
fn pick_color(cfg: &IcicleConfig, depth: u64) -> (r: u32)
    requires
        cfg.wf(),
    ensures
        r == depth_color(*cfg, depth),
{
    let len: u64 = cfg.palette.len() as u64;
    let idx: usize = (depth % len) as usize;
    cfg.palette[idx]
}

/// Truncates `name` from the end, one character at a time, until the
/// measured text fits `w`; a name truncated to nothing yields no label.
#[verifier::loop_isolation(false)]
fn make_label<M: TextMeasure>(m: &M, name: &str, cfg: &IcicleConfig, w: u64) -> (r: Option<String>)
    ensures
        (match r {
            Some(s) => fit_label(*m, name@, *cfg, w) == Some(s@),
            None => fit_label(*m, name@, *cfg, w) is None,
        }),
{
    let n = name.unicode_len();
    let mut k = n;
    proof {
        assert(name@.subrange(0, n as int) =~= name@);
    }
    while k > 0
        invariant
            k <= name@.len(),
            fit_label(*m, name@, *cfg, w) == fit_label(*m, name@.subrange(0, k as int), *cfg, w),
        decreases k,
    {
        let prefix = name.substring_char(0, k);
        let pw = m.width(prefix, cfg.font_height);
        if pw <= w {
            return Some(prefix.to_owned());
        }
        proof {
            assert(name@.subrange(0, k as int).subrange(0, k as int - 1) =~= name@.subrange(
                0,
                k as int - 1,
            ));
        }
        k = k - 1;
    }
    None
}

/// Emits the header band of one named entry: the fitted label, the band's
/// rectangle of the configured layer height, and the fill colour for the
/// depth.
pub fn draw_span_header<M: TextMeasure>(
    m: &M,
    name: &str,
    x: u64,
    y: u64,
    w: u64,
    depth: u64,
    cfg: &IcicleConfig,
    out: &mut Vec<PlanEntry>,
)
    requires
        cfg.wf(),
    ensures
        plan_view(final(out)@) == plan_view(old(out)@).push(
            header_item(*m, name@, x, y, w, depth, *cfg),
        ),
{
    let label = make_label(m, name, cfg, w);
    let color = pick_color(cfg, depth);
    out.push(PlanEntry { label, depth, rect: Rect { x, y, w, h: cfg.layer_height }, color });
    proof {
        assert(plan_view(out@) =~= plan_view(old(out)@).push(
            header_item(*m, name@, x, y, w, depth, *cfg),
        ));
    }
}

/// Plans one entry's band: the header, then the children stacked below,
/// with the duration not covered by the children rendered as a `Missing`
/// band, exactly as [`span_plan`] prescribes.
#[verifier::loop_isolation(false)]
pub fn draw_span<M: TextMeasure>(
    e: &FoldedSpan,
    x: u64,
    y: u64,
    w: u64,
    depth: u64,
    cfg: &IcicleConfig,
    m: &M,
    out: &mut Vec<PlanEntry>,
)
    requires
        e.wf(),
        cfg.wf(),
        x + w <= u64::MAX,
        y + (fspan_height(e@) + 1) * cfg.layer_height <= u64::MAX,
        depth + fspan_height(e@) <= u64::MAX,
    ensures
        plan_view(final(out)@) == plan_view(old(out)@) + span_plan(*m, e@, x, y, w, depth, *cfg),
    decreases e@, 4int, 0int,
{
    let ghost header = header_item(*m, e@.name, x, y, w, depth, *cfg);
    proof {
        let h = fspan_height(e@);
        assert(h >= 1);
        assert((h + 1) * cfg.layer_height >= 2 * cfg.layer_height) by (nonlinear_arith)
            requires
                h >= 1,
                cfg.layer_height >= 1,
        ;
    }
    draw_span_header(m, e.name().as_str(), x, y, w, depth, cfg, out);
    let children = e.children();
    if children.len() == 0 {
        proof {
            assert(plan_view(out@) =~= plan_view(old(out)@) + seq![header]);
        }
        return ;
    }
    let covered = children.duration();
    let d = e.duration();
    let cy = y + cfg.layer_height;
    let cdepth = depth + 1;
    proof {
        let h = fspan_height(e@);
        let hc = ftree_height(e@.children);
        assert(h == 1 + hc);
        assert((h + 1) * cfg.layer_height == h * cfg.layer_height + cfg.layer_height)
            by (nonlinear_arith);
        assert((hc + 1) * cfg.layer_height == hc * cfg.layer_height + cfg.layer_height)
            by (nonlinear_arith);
        assert(h * cfg.layer_height == hc * cfg.layer_height + cfg.layer_height)
            by (nonlinear_arith)
            requires
                h == 1 + hc,
        ;
    }
    if covered < d {
        let cw = cursor_point(0, w, covered, d);
        draw_spans(children, x, cy, cw, cdepth, cfg, m, out);
        let rest = w - cw;
        if rest >= cfg.min_band_width {
            draw_span_header(m, "Missing", x + cw, cy, rest, cdepth, cfg, out);
        }
        proof {
            let sub = spans_plan(*m, e@.children, x, cy, cw, cdepth, *cfg);
            let miss = missing_band(*m, (x + cw) as u64, cy, rest, cdepth, *cfg);
            assert(plan_view(out@) =~= plan_view(old(out)@) + (seq![header] + sub + miss));
        }
    } else {
        draw_spans(children, x, cy, w, cdepth, cfg, m, out);
        proof {
            let sub = spans_plan(*m, e@.children, x, cy, w, cdepth, *cfg);
            assert(plan_view(out@) =~= plan_view(old(out)@) + (seq![header] + sub));
        }
    }
}

/// Plans one folded level over the band starting at `(x, y)` with width
/// `w`: the width is divided among the entries in proportion to their
/// cumulative durations with a running cursor, so the bands tile exactly;
/// a level whose durations are all zero becomes a single placeholder band;
/// bands narrower than the configured minimum are skipped entirely.
#[verifier::loop_isolation(false)]
pub fn draw_spans<M: TextMeasure>(
    t: &FoldedSpans,
    x: u64,
    y: u64,
    w: u64,
    depth: u64,
    cfg: &IcicleConfig,
    m: &M,
    out: &mut Vec<PlanEntry>,
)
    requires
        t.wf(),
        cfg.wf(),
        x + w <= u64::MAX,
        y + (ftree_height(t@) + 1) * cfg.layer_height <= u64::MAX,
        depth + ftree_height(t@) <= u64::MAX,
    ensures
        plan_view(final(out)@) == plan_view(old(out)@) + spans_plan(*m, t@, x, y, w, depth, *cfg),
    decreases t@, 3int, 0int,
{
    let n = t.len();
    if n == 0 {
        proof {
            assert(plan_view(out@) =~= plan_view(old(out)@) + spans_plan(
                *m,
                t@,
                x,
                y,
                w,
                depth,
                *cfg,
            ));
        }
        return ;
    }
    let total = t.duration();
    let ghost ws = durations_of(t@);
    proof {
        lemma_dur_all(t@);
    }
    if total == 0 {
        if w >= cfg.min_band_width {
            let color = pick_color(cfg, depth);
            out.push(PlanEntry { label: None, depth, rect: Rect { x, y, w, h: cfg.layer_height }, color });
        }
        proof {
            assert(plan_view(out@) =~= plan_view(old(out)@) + spans_plan(
                *m,
                t@,
                x,
                y,
                w,
                depth,
                *cfg,
            ));
        }
        return ;
    }
    proof {
        lemma_partition_exact(x as int, w as int, ws);
    }
    let spansv = t.spans();
    let mut cum: u64 = 0;
    let mut x0: u64 = x;
    let mut k: usize = 0;
    while k < n
        invariant
            k <= t@.len(),
            n == t@.len(),
            cum == sum_prefix(ws, k as int),
            x0 == band_left(t@, x, w, k as int),
            plan_view(out@) == plan_view(old(out)@) + spans_plan_upto(
                *m,
                t@,
                x,
                y,
                w,
                depth,
                *cfg,
                k as int,
            ),
        decreases t@.len() - k,
    {
        let entry = &spansv[k];
        proof {
            lemma_sum_prefix_bounds(ws, k as int);
            lemma_sum_prefix_bounds(ws, k as int + 1);
            assert(ws[k as int] == t@[k as int].duration as int);
            assert(entry@ == t@[k as int]);
        }
        let cum2 = cum + entry.duration();
        let x1 = cursor_point(x, w, cum2, total);
        proof {
            assert(x1 == band_left(t@, x, w, k as int + 1));
            assert(x0 <= x1);
        }
        let bw = x1 - x0;
        let ghost before = out@;
        if bw >= cfg.min_band_width {
            proof {
                lemma_fspan_height_le(t@, k as int);
                let h = fspan_height(t@[k as int]);
                let ht = ftree_height(t@);
                assert((h + 1) * cfg.layer_height <= (ht + 1) * cfg.layer_height)
                    by (nonlinear_arith)
                    requires
                        h <= ht,
                        cfg.layer_height >= 1,
                ;
            }
            draw_span(entry, x0, y, bw, depth, cfg, m, out);
        }
        proof {
            let upto_k = spans_plan_upto(*m, t@, x, y, w, depth, *cfg, k as int);
            let band = band_plan(*m, t@, x, y, w, depth, *cfg, k as int);
            assert(plan_view(out@) =~= plan_view(old(out)@) + (upto_k + band));
        }
        cum = cum2;
        x0 = x1;
        k = k + 1;
    }
    proof {
        assert(spans_plan(*m, t@, x, y, w, depth, *cfg) == spans_plan_upto(
            *m,
            t@,
            x,
            y,
            w,
            depth,
            *cfg,
            t@.len() as int,
        ));
    }
}

/// Renders a folded tree over `bounds` into its icicle geometry plan: a
/// pure function of the tree, the rectangle, and the configuration, safe
/// to recompute every frame. Band rows are stacked downward from the top
/// edge of `bounds`, in the units of `bounds`; clipping to the rectangle's
/// height is the pixel renderer's concern.
pub fn render<M: TextMeasure>(
    tree: &FoldedSpans,
    bounds: Rect,
    cfg: &IcicleConfig,
    measure: &M,
) -> (r: Vec<PlanEntry>)
    requires
        tree.wf(),
        cfg.wf(),
        bounds.wf(),
        bounds.y + (ftree_height(tree@) + 1) * cfg.layer_height <= u64::MAX,
    ensures
        plan_view(r@) == spans_plan(*measure, tree@, bounds.x, bounds.y, bounds.w, 0, *cfg),
{
    proof {
        let h = ftree_height(tree@);
        assert(h + 1 <= (h + 1) * cfg.layer_height) by (nonlinear_arith)
            requires
                cfg.layer_height >= 1,
                h >= 0,
        ;
    }
    let mut out: Vec<PlanEntry> = Vec::new();
    draw_spans(tree, bounds.x, bounds.y, bounds.w, 0, cfg, measure, &mut out);
    proof {
        assert(plan_view(out@) =~= spans_plan(
            *measure,
            tree@,
            bounds.x,
            bounds.y,
            bounds.w,
            0,
            *cfg,
        ));
    }
    out
}

/// When the children's summed duration reaches the entry's own duration,
/// the full width goes to the children and no `Missing` band is planned.
pub proof fn lemma_no_missing_when_covered<M: TextMeasure>(
    m: M,
    e: FSpan,
    x: u64,
    y: u64,
    w: u64,
    depth: u64,
    cfg: IcicleConfig,
)
    requires
        e.children.len() > 0,
        fold_top_duration(e.children) >= e.duration,
    ensures
        span_plan(m, e, x, y, w, depth, cfg) == seq![
            header_item(m, e.name, x, y, w, depth, cfg),
        ] + spans_plan(
            m,
            e.children,
            x,
            (y + cfg.layer_height) as u64,
            w,
            (depth + 1) as u64,
            cfg,
        ),
{
}

} // verus!
