//! Scan ranges for the subpixel pass.
//!
//! Nearby coordinate values are clustered into scan ranges, so that cameras
//! which observed roughly the same projector coordinate are swept by a single
//! shared scan line.

use vstd::prelude::*;

use crate::listing::{lemma_mapped_members, lemma_same_members};
use crate::types::Span;

verus! {

/// Groups of nearby coordinate values clustered into scan ranges.
#[derive(Debug)]
pub struct CoordinateSpans {
    /// One inclusive scan range (in projector px) per cluster.
    pub spans: Vec<Span>,
    /// Camera ids belonging to each span, parallel to `spans`.
    pub tag_groups: Vec<Vec<usize>>,
}

// ---- clustering ----

/// The pairs stand in ascending order of their values.
pub open spec fn ascending(pairs: Seq<(i32, usize)>) -> bool {
    forall|i: int, j: int| 0 <= i <= j < pairs.len() ==> pairs[i].0 <= pairs[j].0
}

/// `sorted` holds the pairs of `pairs` in ascending order of their values.
/// Pairs of the same value may stand in any order.
pub open spec fn sorted_form(pairs: Seq<(i32, usize)>, sorted: Seq<(i32, usize)>) -> bool {
    sorted.to_multiset() == pairs.to_multiset() && ascending(sorted)
}

/// `<[T]>::sort_unstable_by_key` by the value of each pair: the pairs stay the
/// same and end up in ascending order of their values. Nothing is claimed of
/// the order among pairs of the same value.
#[verifier::external_body]
fn sort_by_value(pairs: &mut Vec<(i32, usize)>)
    ensures
        sorted_form(old(pairs)@, final(pairs)@),
{
    pairs.sort_unstable_by_key(|pair| pair.0);
}

/// The clusters of ascending pairs: a pair joins the cluster of its predecessor
/// if their values differ by at most `h`, and starts a new one otherwise.
pub open spec fn clusters(h: int, pairs: Seq<(i32, usize)>) -> Seq<Seq<(i32, usize)>>
    decreases pairs.len(),
{
    if pairs.len() == 0 {
        seq![]
    } else if pairs.len() == 1 {
        seq![pairs]
    } else {
        let before = clusters(h, pairs.drop_last());
        if pairs.last().0 - pairs[pairs.len() - 2].0 <= h {
            before.drop_last().push(before.last().push(pairs.last()))
        } else {
            before.push(seq![pairs.last()])
        }
    }
}

/// The scan range of a cluster: its values, padded by `h` on both sides.
pub open spec fn padded(h: int, cluster: Seq<(i32, usize)>) -> Span {
    Span { start: (cluster.first().0 - h) as i32, end: (cluster.last().0 + h) as i32 }
}

/// The tags of a cluster, in its order.
pub open spec fn tags(cluster: Seq<(i32, usize)>) -> Seq<usize> {
    cluster.map_values(|pair: (i32, usize)| pair.1)
}

/// `r` has one padded range and one tag group per cluster.
pub open spec fn one_per_cluster(h: int, groups: Seq<Seq<(i32, usize)>>, r: CoordinateSpans) -> bool {
    &&& r.spans@.len() == groups.len()
    &&& r.tag_groups@.len() == groups.len()
    &&& forall|c: int| 0 <= c < groups.len() ==> #[trigger] r.spans@[c] == padded(h, groups[c])
    &&& forall|c: int| 0 <= c < groups.len() ==> (#[trigger] r.tag_groups@[c])@ == tags(groups[c])
}

/// `r` is a clustering of `pairs`.
pub open spec fn clusters_of(h: int, pairs: Seq<(i32, usize)>, r: CoordinateSpans) -> bool {
    exists|sorted: Seq<(i32, usize)>|
        #![trigger clusters(h, sorted)]
        sorted_form(pairs, sorted) && one_per_cluster(h, clusters(h, sorted), r)
}

/// Facts about clusters that the clustering loop relies on.
proof fn lemma_clusters_shape(h: int, pairs: Seq<(i32, usize)>)
    requires
        pairs.len() > 0,
    ensures
        clusters(h, pairs).len() > 0,
        forall|c: int| 0 <= c < clusters(h, pairs).len() ==> (#[trigger] clusters(h, pairs)[c]).len() > 0,
        clusters(h, pairs).last().last() == pairs.last(),
    decreases pairs.len(),
{
    if pairs.len() > 1 {
        lemma_clusters_shape(h, pairs.drop_last());
    }
}

/// Every member of a cluster is one of the pairs.
proof fn lemma_clusters_members(h: int, pairs: Seq<(i32, usize)>)
    ensures
        forall|c: int, k: int|
            0 <= c < clusters(h, pairs).len() && 0 <= k < clusters(h, pairs)[c].len()
                ==> pairs.contains(#[trigger] clusters(h, pairs)[c][k]),
    decreases pairs.len(),
{
    let groups = clusters(h, pairs);
    if pairs.len() == 1 {
        assert(pairs[0] == groups[0][0]);
    } else if pairs.len() > 1 {
        let head = pairs.drop_last();
        lemma_clusters_members(h, head);
        lemma_clusters_shape(h, head);
        assert forall|c: int, k: int|
            0 <= c < groups.len() && 0 <= k < groups[c].len() implies pairs.contains(
            #[trigger] groups[c][k],
        ) by {
            let before = clusters(h, head);
            if groups[c][k] == pairs.last() {
                assert(pairs[pairs.len() - 1] == groups[c][k]);
            } else {
                assert(0 <= c < before.len() && 0 <= k < before[c].len());
                assert(groups[c][k] == before[c][k]);
                assert(head.contains(before[c][k]));
                let j = choose|j: int| 0 <= j < head.len() && head[j] == before[c][k];
                assert(pairs[j] == groups[c][k]);
            }
        }
    }
}

/// Every pair is in some cluster.
proof fn lemma_clusters_cover(h: int, pairs: Seq<(i32, usize)>, i: int)
    requires
        0 <= i < pairs.len(),
    ensures
        exists|c: int, k: int|
            0 <= c < clusters(h, pairs).len() && 0 <= k < clusters(h, pairs)[c].len()
                && #[trigger] clusters(h, pairs)[c][k] == pairs[i],
    decreases pairs.len(),
{
    let groups = clusters(h, pairs);
    lemma_clusters_shape(h, pairs);
    if i == pairs.len() - 1 {
        let c = groups.len() - 1;
        assert(groups[c][groups[c].len() - 1] == pairs[i]);
    } else {
        let head = pairs.drop_last();
        let before = clusters(h, head);
        lemma_clusters_cover(h, head, i);
        lemma_clusters_shape(h, head);
        let (c, k) = choose|c: int, k: int|
            0 <= c < before.len() && 0 <= k < before[c].len() && #[trigger] before[c][k] == head[i];
        assert(groups[c][k] == before[c][k]);
    }
}

/// Clusters of ascending pairs are ascending.
proof fn lemma_clusters_ascending(h: int, pairs: Seq<(i32, usize)>, c: int)
    requires
        ascending(pairs),
        0 <= c < clusters(h, pairs).len(),
    ensures
        ascending(clusters(h, pairs)[c]),
    decreases pairs.len(),
{
    if pairs.len() > 1 {
        let head = pairs.drop_last();
        let before = clusters(h, head);
        lemma_clusters_shape(h, head);
        if c < before.len() {
            let (old_group, group) = (before[c], clusters(h, pairs)[c]);
            lemma_clusters_ascending(h, head, c);
            lemma_clusters_members(h, head);
            assert(group == old_group || group == old_group.push(pairs.last()));
            assert forall|i: int, j: int| 0 <= i <= j < group.len() implies group[i].0
                <= group[j].0 by {
                if i < old_group.len() && j == old_group.len() {
                    assert(head.contains(before[c][i]));
                }
            }
        }
    }
}

/// A cluster starts more than `h` after the end of the one before it.
proof fn lemma_clusters_gaps(h: int, pairs: Seq<(i32, usize)>, c: int)
    requires
        0 < c < clusters(h, pairs).len(),
    ensures
        clusters(h, pairs)[c].first().0 - clusters(h, pairs)[c - 1].last().0 > h,
    decreases pairs.len(),
{
    if pairs.len() > 1 {
        let head = pairs.drop_last();
        let before = clusters(h, head);
        let groups = clusters(h, pairs);
        lemma_clusters_shape(h, head);
        assert(groups[c - 1] == before[c - 1]);
        if c < before.len() {
            lemma_clusters_gaps(h, head, c);
            assert(groups[c] == before[c] || groups[c] == before[c].push(pairs.last()));
            assert(groups[c].first() == before[c].first());
        } else {
            assert(groups[c] == seq![pairs.last()]);
        }
    }
}

/// A value stays a coordinate when `h` is added to it or taken away.
pub open spec fn can_be_padded(value: i32, h: i32) -> bool {
    i32::MIN <= value - h <= i32::MAX && i32::MIN <= value + h <= i32::MAX
}

/// Cluster `(value, tag)` pairs into [`CoordinateSpans`]: values within `h` of
/// each other join one cluster, and each cluster's range is padded by `h` on
/// both sides. `tag` is the camera id contributing that value. A negative `h` joins
/// nothing, and gives inverted ranges.
pub fn build_coordinate_spans(h: i32, value_tag_pairs: Vec<(i32, usize)>) -> (r: CoordinateSpans)
    requires
        forall|i: int|
            0 <= i < value_tag_pairs@.len() ==> can_be_padded((#[trigger] value_tag_pairs@[i]).0, h),
    ensures
        clusters_of(h as int, value_tag_pairs@, r),
{
    let mut pairs = value_tag_pairs;
    sort_by_value(&mut pairs);
    let ghost sorted = pairs@;
    assert(sorted_form(value_tag_pairs@, sorted));
    let mut spans: Vec<Span> = Vec::new();
    let mut tag_groups: Vec<Vec<usize>> = Vec::new();
    if pairs.len() == 0 {
        let r = CoordinateSpans { spans, tag_groups };
        assert(one_per_cluster(h as int, clusters(h as int, sorted), r));
        return r;
    }
    assert forall|i: int| 0 <= i < sorted.len() implies can_be_padded((#[trigger] sorted[i]).0, h) by {
        lemma_same_members(sorted, value_tag_pairs@, i);
    }
    let mut min_val: i32 = pairs[0].0;
    let mut max_val: i32 = pairs[0].0;
    let mut current_tags: Vec<usize> = Vec::new();
    current_tags.push(pairs[0].1);
    let mut i: usize = 1;
    proof {
        assert(sorted.take(1) =~= seq![sorted[0]]);
        assert(current_tags@ =~= tags(clusters(h as int, sorted.take(1)).last()));
    }
    while i < pairs.len()
        invariant
            pairs@ == sorted,
            1 <= i <= sorted.len(),
            forall|j: int| 0 <= j < sorted.len() ==> can_be_padded((#[trigger] sorted[j]).0, h),
            ascending(sorted),
            clusters(h as int, sorted.take(i as int)).len() > 0,
            one_per_cluster(
                h as int,
                clusters(h as int, sorted.take(i as int)).drop_last(),
                CoordinateSpans { spans, tag_groups },
            ),
            clusters(h as int, sorted.take(i as int)).last().len() > 0,
            min_val == clusters(h as int, sorted.take(i as int)).last().first().0,
            max_val == clusters(h as int, sorted.take(i as int)).last().last().0,
            max_val == sorted[i - 1].0,
            can_be_padded(min_val, h),
            can_be_padded(max_val, h),
            current_tags@ == tags(clusters(h as int, sorted.take(i as int)).last()),
        decreases sorted.len() - i,
    {
        let (value, tag) = pairs[i];
        let ghost seen = sorted.take(i as int);
        let ghost next = sorted.take(i + 1);
        let ghost groups = clusters(h as int, seen);
        proof {
            assert(next.drop_last() =~= seen);
            assert(next.last() == sorted[i as int]);
            assert(next[next.len() - 2] == sorted[i - 1]);
            lemma_clusters_shape(h as int, seen);
            lemma_clusters_shape(h as int, next);
        }
        if value as i64 - max_val as i64 <= h as i64 {
            let ghost old_tags = current_tags@;
            max_val = value;
            current_tags.push(tag);
            proof {
                assert(clusters(h as int, next) =~= groups.drop_last().push(
                    groups.last().push(sorted[i as int]),
                ));
                assert(clusters(h as int, next).drop_last() =~= groups.drop_last());
                assert(current_tags@ =~= tags(clusters(h as int, next).last()));
            }
        } else {
            let ghost old_spans = spans@;
            let ghost old_groups = tag_groups@;
            spans.push(Span { start: min_val - h, end: max_val + h });
            tag_groups.push(current_tags);
            min_val = value;
            max_val = value;
            current_tags = Vec::new();
            current_tags.push(tag);
            proof {
                assert(clusters(h as int, next) =~= groups.push(seq![sorted[i as int]]));
                assert(clusters(h as int, next).drop_last() =~= groups);
                assert(current_tags@ =~= tags(clusters(h as int, next).last()));
                let r = CoordinateSpans { spans, tag_groups };
                assert forall|c: int| 0 <= c < groups.len() implies #[trigger] r.spans@[c] == padded(
                    h as int,
                    groups[c],
                ) by {
                    if c < groups.len() - 1 {
                        assert(r.spans@[c] == old_spans[c]);
                        assert(groups.drop_last()[c] == groups[c]);
                    }
                }
                assert forall|c: int| 0 <= c < groups.len() implies (#[trigger] r.tag_groups@[c])@
                    == tags(groups[c]) by {
                    if c < groups.len() - 1 {
                        assert(r.tag_groups@[c] == old_groups[c]);
                        assert(groups.drop_last()[c] == groups[c]);
                    }
                }
            }
        }
        i += 1;
    }
    let ghost old_spans = spans@;
    let ghost old_groups = tag_groups@;
    let ghost groups = clusters(h as int, sorted);
    assert(sorted.take(i as int) =~= sorted);
    spans.push(Span { start: min_val - h, end: max_val + h });
    tag_groups.push(current_tags);
    let r = CoordinateSpans { spans, tag_groups };
    proof {
        assert forall|c: int| 0 <= c < groups.len() implies #[trigger] r.spans@[c] == padded(
            h as int,
            groups[c],
        ) by {
            if c < groups.len() - 1 {
                assert(r.spans@[c] == old_spans[c]);
                assert(groups.drop_last()[c] == groups[c]);
            }
        }
        assert forall|c: int| 0 <= c < groups.len() implies (#[trigger] r.tag_groups@[c])@ == tags(
            groups[c],
        ) by {
            if c < groups.len() - 1 {
                assert(r.tag_groups@[c] == old_groups[c]);
                assert(groups.drop_last()[c] == groups[c]);
            }
        }
        assert(one_per_cluster(h as int, groups, r));
    }
    r
}

// ---- sweeping ----

/// How many coordinates a range holds.
pub open spec fn span_len(span: Span) -> int {
    span.end - span.start + 1
}

/// The length of the longest range, 0 if there is none.
pub open spec fn longest(spans: Seq<Span>) -> int
    decreases spans.len(),
{
    if spans.len() == 0 {
        0
    } else {
        let before = longest(spans.drop_last());
        if span_len(spans.last()) > before {
            span_len(spans.last())
        } else {
            before
        }
    }
}

/// The `i`-th coordinate of a range, if it has that many.
pub open spec fn value_at(span: Span, i: int) -> Option<i32> {
    if span.start + i <= span.end {
        Some((span.start + i) as i32)
    } else {
        None
    }
}

/// The `i`-th coordinates of those ranges that have that many, in order.
pub open spec fn scan_line(spans: Seq<Span>, i: int) -> Seq<i32>
    decreases spans.len(),
{
    if spans.len() == 0 {
        seq![]
    } else {
        match value_at(spans.last(), i) {
            Some(v) => scan_line(spans.drop_last(), i).push(v),
            None => scan_line(spans.drop_last(), i),
        }
    }
}

/// The first group that holds `tag` is the `c`-th.
pub open spec fn first_group(groups: Seq<Vec<usize>>, tag: usize, c: int) -> bool {
    &&& 0 <= c < groups.len()
    &&& groups[c]@.contains(tag)
    &&& forall|d: int| 0 <= d < c ==> !(#[trigger] groups[d])@.contains(tag)
}

impl CoordinateSpans {
    /// One group of tags per range, no range is empty, and the length of each
    /// fits its type.
    pub open spec fn wf(self) -> bool {
        &&& self.spans@.len() == self.tag_groups@.len()
        &&& forall|c: int|
            0 <= c < self.spans@.len() ==> 1 <= span_len(#[trigger] self.spans@[c]) <= i32::MAX
    }

    /// The range of the first group that holds `tag`.
    pub open spec fn span_of(self, tag: usize) -> Option<Span> {
        if self.has_tag(tag) {
            Some(self.spans@[choose|c: int| first_group(self.tag_groups@, tag, c)])
        } else {
            None
        }
    }

    /// Whether some group holds `tag`.
    pub open spec fn has_tag(self, tag: usize) -> bool {
        exists|c: int| 0 <= c < self.tag_groups@.len() && (#[trigger] self.tag_groups@[c])@.contains(tag)
    }

    /// Whether the ranges are well formed.
    pub fn is_well_formed(&self) -> (r: bool)
        ensures
            r == self.wf(),
    {
        if self.spans.len() != self.tag_groups.len() {
            return false;
        }
        let mut c: usize = 0;
        while c < self.spans.len()
            invariant
                c <= self.spans.len(),
                forall|d: int| 0 <= d < c ==> 1 <= span_len(#[trigger] self.spans@[d]) <= i32::MAX,
            decreases self.spans.len() - c,
        {
            let len: i64 = self.spans[c].end as i64 - self.spans[c].start as i64 + 1;
            if len < 1 || len > i32::MAX as i64 {
                assert(!(1 <= span_len(self.spans@[c as int]) <= i32::MAX));
                return false;
            }
            c += 1;
        }
        true
    }

    /// The value of each span at the given index.
    pub fn get_values_at(&self, index: usize) -> (r: Vec<Option<i32>>)
        requires
            self.wf(),
        ensures
            r@.len() == self.spans@.len(),
            forall|c: int| 0 <= c < r@.len() ==> #[trigger] r@[c] == value_at(self.spans@[c], index as int),
    {
        let mut r: Vec<Option<i32>> = Vec::new();
        let mut c: usize = 0;
        while c < self.spans.len()
            invariant
                self.wf(),
                c <= self.spans.len(),
                r@.len() == c,
                forall|d: int|
                    0 <= d < c ==> #[trigger] r@[d] == value_at(self.spans@[d], index as int),
            decreases self.spans.len() - c,
        {
            let span = self.spans[c];
            assert(1 <= span_len(self.spans@[c as int]) <= i32::MAX);
            let reach: i32 = span.end - span.start;
            if index as u64 <= reach as u64 {
                r.push(Some(span.start + index as i32));
            } else {
                r.push(None);
            }
            c += 1;
        }
        r
    }

    /// Take the i-th element of every span, in order, for every i that some
    /// span has: `[1, 2, 3]` and `[5, 6]` give `[[1, 5], [2, 6], [3]]`.
    pub fn rotate(&self) -> (r: Vec<Vec<i32>>)
        requires
            self.wf(),
        ensures
            r@.len() == longest(self.spans@),
            forall|i: int| 0 <= i < r@.len() ==> (#[trigger] r@[i])@ == scan_line(self.spans@, i),
    {
        let n: usize = self.max_len();
        let mut r: Vec<Vec<i32>> = Vec::new();
        let mut i: usize = 0;
        while i < n
            invariant
                self.wf(),
                i <= n,
                r@.len() == i,
                forall|j: int| 0 <= j < i ==> (#[trigger] r@[j])@ == scan_line(self.spans@, j),
            decreases n - i,
        {
            r.push(self.scan_line_at(i));
            i += 1;
        }
        r
    }

    /// The coordinates lit by the `i`-th scan line.
    pub fn scan_line_at(&self, i: usize) -> (line: Vec<i32>)
        requires
            self.wf(),
        ensures
            line@ == scan_line(self.spans@, i as int),
    {
        let values = self.get_values_at(i);
        let mut line: Vec<i32> = Vec::new();
        let mut c: usize = 0;
        while c < values.len()
            invariant
                values@.len() == self.spans@.len(),
                forall|d: int|
                    0 <= d < values@.len() ==> #[trigger] values@[d] == value_at(
                        self.spans@[d],
                        i as int,
                    ),
                c <= values.len(),
                line@ == scan_line(self.spans@.take(c as int), i as int),
            decreases values.len() - c,
        {
            proof {
                assert(self.spans@.take(c + 1).drop_last() =~= self.spans@.take(c as int));
                assert(values@[c as int] == value_at(self.spans@[c as int], i as int));
            }
            if let Some(v) = values[c] {
                line.push(v);
            }
            c += 1;
        }
        assert(self.spans@.take(c as int) =~= self.spans@);
        line
    }

    /// The number of scan lines that sweep all spans.
    pub fn max_len(&self) -> (n: usize)
        requires
            self.wf(),
        ensures
            n == longest(self.spans@),
            n <= i32::MAX,
    {
        let mut n: usize = 0;
        let mut c: usize = 0;
        assert(self.spans@.take(0) =~= seq![]);
        while c < self.spans.len()
            invariant
                self.wf(),
                c <= self.spans.len(),
                n == longest(self.spans@.take(c as int)),
                n <= i32::MAX,
            decreases self.spans.len() - c,
        {
            let span = self.spans[c];
            assert(1 <= span_len(self.spans@[c as int]) <= i32::MAX);
            assert(self.spans@.take(c + 1).drop_last() =~= self.spans@.take(c as int));
            let len: usize = (span.end - span.start + 1) as usize;
            if len > n {
                n = len;
            }
            c += 1;
        }
        assert(self.spans@.take(c as int) =~= self.spans@);
        n
    }

    /// The span for a tag.
    pub fn get_span_by_tag(&self, tag: usize) -> (r: Option<Span>)
        requires
            self.tag_groups@.len() <= self.spans@.len(),
        ensures
            r == self.span_of(tag),
    {
        let mut c: usize = 0;
        while c < self.tag_groups.len()
            invariant
                self.tag_groups@.len() <= self.spans@.len(),
                c <= self.tag_groups.len(),
                forall|d: int| 0 <= d < c ==> !(#[trigger] self.tag_groups@[d])@.contains(tag),
            decreases self.tag_groups.len() - c,
        {
            if holds_tag(&self.tag_groups[c], tag) {
                proof {
                    assert(first_group(self.tag_groups@, tag, c as int));
                    let d = choose|d: int| first_group(self.tag_groups@, tag, d);
                    assert(d == c);
                }
                return Some(self.spans[c]);
            }
            c += 1;
        }
        None
    }
}

/// Whether `tag` is among `group`.
fn holds_tag(group: &Vec<usize>, tag: usize) -> (r: bool)
    ensures
        r == group@.contains(tag),
{
    let mut i: usize = 0;
    while i < group.len()
        invariant
            i <= group.len(),
            forall|j: int| 0 <= j < i ==> group@[j] != tag,
        decreases group.len() - i,
    {
        if group[i] == tag {
            return true;
        }
        i += 1;
    }
    false
}

// ---- laws ----

/// A clustering has one group per range and no empty range.
pub proof fn law_spans_parallel(h: int, pairs: Seq<(i32, usize)>, r: CoordinateSpans)
    requires
        0 <= h,
        forall|i: int|
            0 <= i < pairs.len() ==> i32::MIN <= (#[trigger] pairs[i]).0 - h && pairs[i].0 + h
                <= i32::MAX,
        clusters_of(h, pairs, r),
    ensures
        r.spans@.len() == r.tag_groups@.len(),
        forall|c: int| 0 <= c < r.spans@.len() ==> 1 <= span_len(#[trigger] r.spans@[c]),
{
    let sorted = choose|sorted: Seq<(i32, usize)>|
        #![trigger clusters(h, sorted)]
        sorted_form(pairs, sorted) && one_per_cluster(h, clusters(h, sorted), r);
    let groups = clusters(h, sorted);
    if sorted.len() > 0 {
        lemma_clusters_shape(h, sorted);
    }
    assert forall|c: int| 0 <= c < r.spans@.len() implies 1 <= span_len(#[trigger] r.spans@[c]) by {
        let g = groups[c];
        lemma_clusters_ascending(h, sorted, c);
        assert(g.first() == g[0] && g.last() == g[g.len() - 1]);
        lemma_member_in_range(h, pairs, sorted, c, 0);
        lemma_member_in_range(h, pairs, sorted, c, g.len() - 1);
    }
}

/// A member of a cluster can be padded without leaving the coordinate type.
proof fn lemma_member_in_range(
    h: int,
    pairs: Seq<(i32, usize)>,
    sorted: Seq<(i32, usize)>,
    c: int,
    k: int,
)
    requires
        forall|i: int|
            0 <= i < pairs.len() ==> i32::MIN <= (#[trigger] pairs[i]).0 - h && pairs[i].0 + h
                <= i32::MAX,
        sorted_form(pairs, sorted),
        0 <= c < clusters(h, sorted).len(),
        0 <= k < clusters(h, sorted)[c].len(),
    ensures
        i32::MIN <= clusters(h, sorted)[c][k].0 - h,
        clusters(h, sorted)[c][k].0 + h <= i32::MAX,
        pairs.contains(clusters(h, sorted)[c][k]),
{
    lemma_clusters_members(h, sorted);
    let member = clusters(h, sorted)[c][k];
    assert(sorted.contains(member));
    let j = choose|j: int| 0 <= j < sorted.len() && sorted[j] == member;
    lemma_same_members(sorted, pairs, j);
}

/// A tag has a range exactly if some pair carries it.
pub proof fn law_every_tag_has_a_span(h: int, pairs: Seq<(i32, usize)>, r: CoordinateSpans, tag: usize)
    requires
        clusters_of(h, pairs, r),
    ensures
        r.has_tag(tag) <==> exists|i: int| 0 <= i < pairs.len() && (#[trigger] pairs[i]).1 == tag,
{
    let sorted = choose|sorted: Seq<(i32, usize)>|
        #![trigger clusters(h, sorted)]
        sorted_form(pairs, sorted) && one_per_cluster(h, clusters(h, sorted), r);
    let groups = clusters(h, sorted);
    if r.has_tag(tag) {
        let c = choose|c: int|
            0 <= c < r.tag_groups@.len() && (#[trigger] r.tag_groups@[c])@.contains(tag);
        assert(r.tag_groups@[c]@ == tags(groups[c]));
        let k = choose|k: int| 0 <= k < tags(groups[c]).len() && tags(groups[c])[k] == tag;
        lemma_clusters_members(h, sorted);
        assert(sorted.contains(groups[c][k]));
        let j = choose|j: int| 0 <= j < sorted.len() && sorted[j] == groups[c][k];
        lemma_same_members(sorted, pairs, j);
        let i = choose|i: int| 0 <= i < pairs.len() && pairs[i] == sorted[j];
        assert(pairs[i].1 == tag);
    }
    if exists|i: int| 0 <= i < pairs.len() && (#[trigger] pairs[i]).1 == tag {
        let i = choose|i: int| 0 <= i < pairs.len() && (#[trigger] pairs[i]).1 == tag;
        lemma_same_members(pairs, sorted, i);
        let j = choose|j: int| 0 <= j < sorted.len() && sorted[j] == pairs[i];
        lemma_clusters_cover(h, sorted, j);
        let (c, k) = choose|c: int, k: int|
            0 <= c < groups.len() && 0 <= k < groups[c].len() && #[trigger] groups[c][k] == sorted[j];
        assert(tags(groups[c])[k] == tag);
        assert(r.tag_groups@[c]@.contains(tag));
    }
}

/// Where no tag occurs twice, the range of a tag reaches at least `h` to both
/// sides of the value that came with it.
pub proof fn law_span_surrounds_value(h: int, pairs: Seq<(i32, usize)>, r: CoordinateSpans, i: int)
    requires
        0 <= h,
        forall|j: int|
            0 <= j < pairs.len() ==> i32::MIN <= (#[trigger] pairs[j]).0 - h && pairs[j].0 + h
                <= i32::MAX,
        forall|j: int, k: int|
            0 <= j < pairs.len() && 0 <= k < pairs.len() && (#[trigger] pairs[j]).1 == (
            #[trigger] pairs[k]).1 ==> j == k,
        clusters_of(h, pairs, r),
        0 <= i < pairs.len(),
    ensures
        r.span_of(pairs[i].1) is Some,
        r.span_of(pairs[i].1)->Some_0.start <= pairs[i].0 - h,
        pairs[i].0 + h <= r.span_of(pairs[i].1)->Some_0.end,
{
    let tag = pairs[i].1;
    law_every_tag_has_a_span(h, pairs, r, tag);
    let sorted = choose|sorted: Seq<(i32, usize)>|
        #![trigger clusters(h, sorted)]
        sorted_form(pairs, sorted) && one_per_cluster(h, clusters(h, sorted), r);
    let groups = clusters(h, sorted);
    let d = choose|d: int|
        0 <= d < r.tag_groups@.len() && (#[trigger] r.tag_groups@[d])@.contains(tag);
    lemma_first_group(r.tag_groups@, tag, d);
    let c = choose|c: int| first_group(r.tag_groups@, tag, c);
    assert(r.tag_groups@[c]@ == tags(groups[c]));
    let k = choose|k: int| 0 <= k < tags(groups[c]).len() && tags(groups[c])[k] == tag;
    lemma_member_in_range(h, pairs, sorted, c, k);
    let j = choose|j: int| 0 <= j < pairs.len() && pairs[j] == groups[c][k];
    assert(pairs[j].1 == pairs[i].1);
    assert(groups[c][k] == pairs[i]);
    lemma_clusters_ascending(h, sorted, c);
    let g = groups[c];
    assert(g.first() == g[0] && g.last() == g[g.len() - 1]);
    lemma_member_in_range(h, pairs, sorted, c, 0);
    lemma_member_in_range(h, pairs, sorted, c, g.len() - 1);
    assert(r.spans@[c] == padded(h, g));
}

/// If some group holds a tag, there is a first one that does.
proof fn lemma_first_group(groups: Seq<Vec<usize>>, tag: usize, d: int)
    requires
        0 <= d < groups.len(),
        groups[d]@.contains(tag),
    ensures
        exists|c: int| first_group(groups, tag, c),
    decreases d,
{
    if exists|e: int| 0 <= e < d && (#[trigger] groups[e])@.contains(tag) {
        let e = choose|e: int| 0 <= e < d && (#[trigger] groups[e])@.contains(tag);
        lemma_first_group(groups, tag, e);
    } else {
        assert(first_group(groups, tag, d));
    }
}

/// The range of a tag is one of the ranges.
pub proof fn law_span_of_is_a_span(r: CoordinateSpans, tag: usize)
    requires
        r.has_tag(tag),
    ensures
        exists|c: int|
            0 <= c < r.tag_groups@.len() && r.span_of(tag) == Some(#[trigger] r.spans@[c])
                && r.tag_groups@[c]@.contains(tag),
{
    let d = choose|d: int|
        0 <= d < r.tag_groups@.len() && (#[trigger] r.tag_groups@[d])@.contains(tag);
    lemma_first_group(r.tag_groups@, tag, d);
    let c = choose|c: int| first_group(r.tag_groups@, tag, c);
    assert(r.span_of(tag) == Some(r.spans@[c]));
}

/// A clustering of values between `low` and `high` is well formed, if the
/// padded distance between the two fits its type.
pub proof fn law_spans_well_formed(
    h: int,
    pairs: Seq<(i32, usize)>,
    r: CoordinateSpans,
    low: int,
    high: int,
)
    requires
        0 <= h,
        forall|i: int|
            0 <= i < pairs.len() ==> i32::MIN <= (#[trigger] pairs[i]).0 - h && pairs[i].0 + h
                <= i32::MAX,
        forall|i: int| 0 <= i < pairs.len() ==> low <= (#[trigger] pairs[i]).0 <= high,
        high - low + 2 * h + 1 <= i32::MAX,
        clusters_of(h, pairs, r),
    ensures
        r.wf(),
{
    law_spans_parallel(h, pairs, r);
    let sorted = choose|sorted: Seq<(i32, usize)>|
        #![trigger clusters(h, sorted)]
        sorted_form(pairs, sorted) && one_per_cluster(h, clusters(h, sorted), r);
    let groups = clusters(h, sorted);
    if sorted.len() > 0 {
        lemma_clusters_shape(h, sorted);
    }
    assert forall|c: int| 0 <= c < r.spans@.len() implies 1 <= span_len(#[trigger] r.spans@[c])
        <= i32::MAX by {
        let g = groups[c];
        lemma_clusters_ascending(h, sorted, c);
        assert(g.first() == g[0] && g.last() == g[g.len() - 1]);
        lemma_member_in_range(h, pairs, sorted, c, 0);
        lemma_member_in_range(h, pairs, sorted, c, g.len() - 1);
        let a = choose|a: int| 0 <= a < pairs.len() && pairs[a] == g[0];
        let b = choose|b: int| 0 <= b < pairs.len() && pairs[b] == g[g.len() - 1];
        assert(low <= pairs[a].0 <= high && low <= pairs[b].0 <= high);
        assert(r.spans@[c] == padded(h, g));
    }
}

/// Ranges stand in ascending order, and the values of two successive clusters
/// lie more than `h` apart: no cluster could have been joined to the next.
pub proof fn law_clusters_apart(h: int, pairs: Seq<(i32, usize)>, r: CoordinateSpans, c: int)
    requires
        0 <= h,
        forall|j: int|
            0 <= j < pairs.len() ==> i32::MIN <= (#[trigger] pairs[j]).0 - h && pairs[j].0 + h
                <= i32::MAX,
        clusters_of(h, pairs, r),
        0 < c < r.spans@.len(),
    ensures
        (r.spans@[c].start + h) - (r.spans@[c - 1].end - h) > h,
{
    let sorted = choose|sorted: Seq<(i32, usize)>|
        #![trigger clusters(h, sorted)]
        sorted_form(pairs, sorted) && one_per_cluster(h, clusters(h, sorted), r);
    let groups = clusters(h, sorted);
    lemma_clusters_gaps(h, sorted, c);
    lemma_clusters_shape(h, sorted);
    let (a, b) = (groups[c - 1], groups[c]);
    assert(a.last() == a[a.len() - 1] && b.first() == b[0]);
    lemma_member_in_range(h, pairs, sorted, c - 1, a.len() - 1);
    lemma_member_in_range(h, pairs, sorted, c, 0);
    assert(r.spans@[c] == padded(h, b));
    assert(r.spans@[c - 1] == padded(h, a));
}

/// The values of two arrangements of the same pairs, each in ascending order, are
/// the same one by one.
proof fn lemma_sorted_values(a: Seq<(i32, usize)>, b: Seq<(i32, usize)>)
    requires
        a.to_multiset() == b.to_multiset(),
        ascending(a),
        ascending(b),
    ensures
        a.len() == b.len(),
        forall|i: int| 0 <= i < a.len() ==> (#[trigger] a[i]).0 == (#[trigger] b[i]).0,
{
    let value = |pair: (i32, usize)| pair.0;
    let leq = |x: i32, y: i32| x <= y;
    let (va, vb) = (a.map_values(value), b.map_values(value));
    lemma_mapped_members(a, b, value);
    vstd::seq_lib::lemma_sorted_unique(va, vb, leq);
    assert(va.len() == vb.len());
    assert forall|i: int| 0 <= i < a.len() implies (#[trigger] a[i]).0 == (#[trigger] b[i]).0 by {
        assert(va[i] == a[i].0 && vb[i] == b[i].0);
    }
}

/// How pairs are cut into clusters depends on their values alone.
proof fn lemma_clusters_by_value(h: int, a: Seq<(i32, usize)>, b: Seq<(i32, usize)>)
    requires
        a.len() == b.len(),
        forall|i: int| 0 <= i < a.len() ==> (#[trigger] a[i]).0 == (#[trigger] b[i]).0,
    ensures
        clusters(h, a).len() == clusters(h, b).len(),
        forall|c: int|
            0 <= c < clusters(h, a).len() ==> {
                let (ga, gb) = (#[trigger] clusters(h, a)[c], #[trigger] clusters(h, b)[c]);
                &&& ga.len() == gb.len()
                &&& ga.len() > 0
                &&& ga.first().0 == gb.first().0
                &&& ga.last().0 == gb.last().0
            },
    decreases a.len(),
{
    if a.len() > 1 {
        let (ha, hb) = (a.drop_last(), b.drop_last());
        assert forall|i: int| 0 <= i < ha.len() implies (#[trigger] ha[i]).0 == (#[trigger] hb[i]).0 by {
            assert(ha[i] == a[i] && hb[i] == b[i]);
        }
        lemma_clusters_by_value(h, ha, hb);
        lemma_clusters_shape(h, ha);
        lemma_clusters_shape(h, hb);
        let n = a.len();
        assert(a[n - 1].0 == b[n - 1].0 && a[n - 2].0 == b[n - 2].0);
        let (before_a, before_b) = (clusters(h, ha), clusters(h, hb));
        let m = before_a.len() - 1;
        assert(before_a[m].len() == before_b[m].len());
        assert forall|c: int| 0 <= c < clusters(h, a).len() implies ({
            let (ga, gb) = (#[trigger] clusters(h, a)[c], #[trigger] clusters(h, b)[c]);
            &&& ga.len() == gb.len()
            &&& ga.len() > 0
            &&& ga.first().0 == gb.first().0
            &&& ga.last().0 == gb.last().0
        }) by {
            if c <= m {
                assert(before_a[c].first().0 == before_b[c].first().0);
            }
        }
    } else if a.len() == 1 {
        assert(a[0].0 == b[0].0);
    }
}

/// A cluster of ascending pairs holds all pairs between its first and its last
/// value, as often as they occur, and no others.
proof fn lemma_cluster_count(h: int, pairs: Seq<(i32, usize)>, c: int, x: (i32, usize))
    requires
        0 <= h,
        ascending(pairs),
        0 <= c < clusters(h, pairs).len(),
    ensures
        clusters(h, pairs)[c].to_multiset().count(x) == if clusters(h, pairs)[c].first().0 <= x.0
            <= clusters(h, pairs)[c].last().0 {
            pairs.to_multiset().count(x)
        } else {
            0
        },
    decreases pairs.len(),
{
    broadcast use vstd::seq_lib::group_to_multiset_ensures;

    let group = clusters(h, pairs)[c];
    if pairs.len() == 1 {
        assert(group == pairs);
        if pairs.to_multiset().count(x) > 0 {
            assert(pairs.contains(x));
        }
    } else {
        let head = pairs.drop_last();
        let e = pairs.last();
        let before = clusters(h, head);
        lemma_clusters_shape(h, head);
        lemma_clusters_shape(h, pairs);
        assert(pairs =~= head.push(e));
        assert(pairs.to_multiset().count(x) == head.to_multiset().count(x) + if x == e {
            1int
        } else {
            0int
        });
        assert(ascending(head));
        let end = head.last();
        assert(end == pairs[pairs.len() - 2]);
        assert(end.0 <= e.0);
        if head.to_multiset().count(x) > 0 {
            assert(head.contains(x));
            let j = choose|j: int| 0 <= j < head.len() && head[j] == x;
            assert(pairs[j].0 <= pairs[pairs.len() - 2].0);
        }
        if c < before.len() {
            lemma_cluster_count(h, head, c, x);
            lemma_clusters_ascending(h, head, c);
            let old_group = before[c];
            assert(old_group.first() == old_group[0]);
            assert(old_group.last() == old_group[old_group.len() - 1]);
            if c == before.len() - 1 && e.0 - end.0 <= h {
                assert(group == old_group.push(e));
                assert(old_group.last() == end);
                assert(group.first() == old_group.first() && group.last() == e);
                assert(group.to_multiset().count(x) == old_group.to_multiset().count(x) + if x == e {
                    1int
                } else {
                    0int
                });
            } else {
                assert(group == old_group);
                lemma_group_below_last(h, pairs, c);
            }
        } else {
            assert(group == seq![e]);
            assert(group =~= Seq::<(i32, usize)>::empty().push(e));
            assert(Seq::<(i32, usize)>::empty().to_multiset().count(x) == 0) by {
                assert(!Seq::<(i32, usize)>::empty().contains(x));
            }
            assert(group.to_multiset().count(x) == if x == e {
                1int
            } else {
                0int
            });
        }
    }
}

/// The values of a cluster that is not the last lie below the last pair.
proof fn lemma_group_below_last(h: int, pairs: Seq<(i32, usize)>, c: int)
    requires
        0 <= h,
        ascending(pairs),
        0 <= c < clusters(h, pairs).len() - 1,
    ensures
        clusters(h, pairs)[c].last().0 < pairs.last().0,
{
    let groups = clusters(h, pairs);
    lemma_clusters_shape(h, pairs);
    lemma_clusters_gaps(h, pairs, c + 1);
    let next = groups[c + 1];
    assert(next.first() == next[0]);
    lemma_clusters_members(h, pairs);
    assert(pairs.contains(groups[c + 1][0]));
    let j = choose|j: int| 0 <= j < pairs.len() && pairs[j] == next[0];
    assert(pairs[j].0 <= pairs[pairs.len() - 1].0);
}

/// The order in which the pairs come does not matter: the ranges are the same, each
/// has the same tags, though perhaps in another order, and so each tag has the same
/// range.
pub proof fn law_order_of_pairs_is_irrelevant(
    h: int,
    p1: Seq<(i32, usize)>,
    p2: Seq<(i32, usize)>,
    a: CoordinateSpans,
    b: CoordinateSpans,
)
    requires
        0 <= h,
        p1.to_multiset() == p2.to_multiset(),
        clusters_of(h, p1, a),
        clusters_of(h, p2, b),
    ensures
        a.spans@ == b.spans@,
        a.tag_groups@.len() == b.tag_groups@.len(),
        forall|c: int|
            0 <= c < a.tag_groups@.len() ==> (#[trigger] a.tag_groups@[c])@.to_multiset() == (
            #[trigger] b.tag_groups@[c])@.to_multiset(),
        forall|tag: usize| #[trigger] a.span_of(tag) == #[trigger] b.span_of(tag),
{
    let s1 = choose|sorted: Seq<(i32, usize)>|
        #![trigger clusters(h, sorted)]
        sorted_form(p1, sorted) && one_per_cluster(h, clusters(h, sorted), a);
    let s2 = choose|sorted: Seq<(i32, usize)>|
        #![trigger clusters(h, sorted)]
        sorted_form(p2, sorted) && one_per_cluster(h, clusters(h, sorted), b);
    let (g1, g2) = (clusters(h, s1), clusters(h, s2));
    lemma_sorted_values(s1, s2);
    lemma_clusters_by_value(h, s1, s2);
    assert forall|c: int| 0 <= c < a.spans@.len() implies a.spans@[c] == b.spans@[c] by {
        assert(a.spans@[c] == padded(h, g1[c]));
        assert(b.spans@[c] == padded(h, g2[c]));
        assert(g1[c].first().0 == g2[c].first().0);
    }
    assert(a.spans@ =~= b.spans@);
    assert forall|c: int| 0 <= c < a.tag_groups@.len() implies (
    #[trigger] a.tag_groups@[c])@.to_multiset() == (#[trigger] b.tag_groups@[c])@.to_multiset() by {
        assert(g1[c].first().0 == g2[c].first().0);
        assert forall|x: (i32, usize)| #[trigger]
            g1[c].to_multiset().count(x) == g2[c].to_multiset().count(x) by {
            lemma_cluster_count(h, s1, c, x);
            lemma_cluster_count(h, s2, c, x);
        }
        assert(g1[c].to_multiset() =~= g2[c].to_multiset());
        lemma_mapped_members(g1[c], g2[c], |pair: (i32, usize)| pair.1);
        assert(a.tag_groups@[c]@ == tags(g1[c]));
        assert(b.tag_groups@[c]@ == tags(g2[c]));
    }
    assert forall|tag: usize| #[trigger] a.span_of(tag) == #[trigger] b.span_of(tag) by {
        lemma_span_of_members(a, b, tag);
    }
}

/// The range of a tag depends on which tags a group has, not on their order.
proof fn lemma_span_of_members(a: CoordinateSpans, b: CoordinateSpans, tag: usize)
    requires
        a.spans@ == b.spans@,
        a.tag_groups@.len() == b.tag_groups@.len(),
        forall|c: int|
            0 <= c < a.tag_groups@.len() ==> (#[trigger] a.tag_groups@[c])@.to_multiset() == (
            #[trigger] b.tag_groups@[c])@.to_multiset(),
    ensures
        a.span_of(tag) == b.span_of(tag),
{
    broadcast use vstd::seq_lib::group_to_multiset_ensures;

    assert forall|c: int| 0 <= c < a.tag_groups@.len() implies (
    #[trigger] a.tag_groups@[c])@.contains(tag) == (#[trigger] b.tag_groups@[c])@.contains(tag) by {
        let (ga, gb) = (a.tag_groups@[c]@, b.tag_groups@[c]@);
        assert(ga.contains(tag) <==> ga.to_multiset().count(tag) > 0);
        assert(gb.contains(tag) <==> gb.to_multiset().count(tag) > 0);
    }
    if a.has_tag(tag) {
        let d = choose|d: int|
            0 <= d < a.tag_groups@.len() && (#[trigger] a.tag_groups@[d])@.contains(tag);
        assert(b.tag_groups@[d]@.contains(tag));
        lemma_first_group(a.tag_groups@, tag, d);
        let c = choose|c: int| first_group(a.tag_groups@, tag, c);
        assert(b.tag_groups@[c]@.contains(tag));
        assert forall|e: int| 0 <= e < c implies !(#[trigger] b.tag_groups@[e])@.contains(tag) by {
            assert(!a.tag_groups@[e]@.contains(tag));
        }
        assert(first_group(b.tag_groups@, tag, c));
        let e = choose|e: int| first_group(b.tag_groups@, tag, e);
        assert(e == c) by {
            if e < c {
                assert(!b.tag_groups@[e]@.contains(tag));
            }
            if c < e {
                assert(!b.tag_groups@[c]@.contains(tag));
            }
        }
    } else if b.has_tag(tag) {
        let d = choose|d: int|
            0 <= d < b.tag_groups@.len() && (#[trigger] b.tag_groups@[d])@.contains(tag);
        assert(a.tag_groups@[d]@.contains(tag));
    }
}

/// The sweep lights every coordinate of every range, in the scan line of its
/// offset within the range, and that line is one of the sweep.
pub proof fn law_sweep_covers(spans: Seq<Span>, c: int, v: i32)
    requires
        0 <= c < spans.len(),
        spans[c].start <= v <= spans[c].end,
    ensures
        scan_line(spans, v - spans[c].start).contains(v),
        v - spans[c].start < longest(spans),
    decreases spans.len(),
{
    let i = v - spans[c].start;
    if c == spans.len() - 1 {
        let line = scan_line(spans, i);
        assert(line[line.len() - 1] == v);
    } else {
        law_sweep_covers(spans.drop_last(), c, v);
        let head = scan_line(spans.drop_last(), i);
        let k = choose|k: int| 0 <= k < head.len() && head[k] == v;
        assert(scan_line(spans, i)[k] == v);
    }
}

/// The sweep lights nothing else: every lit coordinate belongs to some range.
pub proof fn law_sweep_stays_inside(spans: Seq<Span>, i: int, v: i32)
    requires
        0 <= i,
        scan_line(spans, i).contains(v),
    ensures
        exists|c: int| 0 <= c < spans.len() && (#[trigger] spans[c]).start + i == v && v <= spans[c].end,
    decreases spans.len(),
{
    let line = scan_line(spans, i);
    let k = choose|k: int| 0 <= k < line.len() && line[k] == v;
    let n = spans.len() - 1;
    let head = scan_line(spans.drop_last(), i);
    if k < head.len() {
        assert(head[k] == v);
        law_sweep_stays_inside(spans.drop_last(), i, v);
        let c = choose|c: int|
            0 <= c < n && (#[trigger] spans.drop_last()[c]).start + i == v && v
                <= spans.drop_last()[c].end;
        assert(spans[c].start + i == v);
    } else {
        assert(spans[n].start + i == v);
    }
}

/// Two successive members of a cluster differ by at most `h`.
proof fn lemma_clusters_inner(h: int, pairs: Seq<(i32, usize)>, c: int, k: int)
    requires
        0 <= c < clusters(h, pairs).len(),
        0 <= k < clusters(h, pairs)[c].len() - 1,
    ensures
        clusters(h, pairs)[c][k + 1].0 - clusters(h, pairs)[c][k].0 <= h,
    decreases pairs.len(),
{
    if pairs.len() > 1 {
        let head = pairs.drop_last();
        let before = clusters(h, head);
        lemma_clusters_shape(h, head);
        if c < before.len() {
            assert(clusters(h, pairs)[c] == before[c] || clusters(h, pairs)[c] == before[c].push(
                pairs.last(),
            ));
            if k < before[c].len() - 1 {
                lemma_clusters_inner(h, head, c, k);
            }
        }
    }
}

/// In a cluster, a value that is not the last has another at most `h` above it.
proof fn lemma_next_value(h: int, pairs: Seq<(i32, usize)>, c: int, k: int)
    requires
        ascending(pairs),
        0 <= c < clusters(h, pairs).len(),
        0 <= k < clusters(h, pairs)[c].len(),
        clusters(h, pairs)[c][k].0 < clusters(h, pairs)[c].last().0,
    ensures
        exists|m: int|
            0 <= m < clusters(h, pairs)[c].len() && clusters(h, pairs)[c][k].0 < (
            #[trigger] clusters(h, pairs)[c][m]).0 <= clusters(h, pairs)[c][k].0 + h,
    decreases clusters(h, pairs)[c].len() - k,
{
    let g = clusters(h, pairs)[c];
    assert(g.last() == g[g.len() - 1]);
    lemma_clusters_inner(h, pairs, c, k);
    lemma_clusters_ascending(h, pairs, c);
    assert(g[k].0 <= g[k + 1].0);
    if g[k + 1].0 == g[k].0 {
        lemma_next_value(h, pairs, c, k + 1);
        let m = choose|m: int|
            0 <= m < g.len() && g[k + 1].0 < (#[trigger] clusters(h, pairs)[c][m]).0 <= g[k + 1].0 + h;
        assert(g[k].0 < clusters(h, pairs)[c][m].0);
    } else {
        assert(g[k].0 < clusters(h, pairs)[c][k + 1].0);
    }
}

/// How many tags the groups have in all.
pub open spec fn tag_total(groups: Seq<Vec<usize>>) -> nat
    decreases groups.len(),
{
    if groups.len() == 0 {
        0
    } else {
        tag_total(groups.drop_last()) + groups.last()@.len()
    }
}

/// How many pairs the clusters have in all.
spec fn pair_total(groups: Seq<Seq<(i32, usize)>>) -> nat
    decreases groups.len(),
{
    if groups.len() == 0 {
        0
    } else {
        pair_total(groups.drop_last()) + groups.last().len()
    }
}

/// Clusters lose no pair.
proof fn lemma_pair_total(h: int, pairs: Seq<(i32, usize)>)
    ensures
        pair_total(clusters(h, pairs)) == pairs.len(),
    decreases pairs.len(),
{
    let groups = clusters(h, pairs);
    if pairs.len() == 1 {
        reveal_with_fuel(pair_total, 2);
        assert(groups.drop_last() =~= seq![]);
    } else if pairs.len() > 1 {
        let head = pairs.drop_last();
        let before = clusters(h, head);
        lemma_pair_total(h, head);
        lemma_clusters_shape(h, head);
        if pairs.last().0 - pairs[pairs.len() - 2].0 <= h {
            assert(groups.drop_last() =~= before.drop_last());
        } else {
            assert(groups.drop_last() =~= before);
        }
    }
}

/// Tag groups that are as long as clusters have as many tags.
proof fn lemma_same_total(groups: Seq<Seq<(i32, usize)>>, tagged: Seq<Vec<usize>>)
    requires
        groups.len() == tagged.len(),
        forall|c: int| 0 <= c < groups.len() ==> (#[trigger] tagged[c])@.len() == groups[c].len(),
    ensures
        tag_total(tagged) == pair_total(groups),
    decreases groups.len(),
{
    if groups.len() > 0 {
        lemma_same_total(groups.drop_last(), tagged.drop_last());
        assert(tagged.last()@.len() == groups.last().len());
    }
}

/// Clustering loses no tag and doubles none.
pub proof fn law_no_tag_is_lost(h: i32, pairs: Vec<(i32, usize)>, r: CoordinateSpans)
    requires
        call_ensures(build_coordinate_spans, (h, pairs), r),
    ensures
        r.spans@.len() == r.tag_groups@.len(),
        tag_total(r.tag_groups@) == pairs@.len(),
{
    let sorted = choose|sorted: Seq<(i32, usize)>|
        #![trigger clusters(h as int, sorted)]
        sorted_form(pairs@, sorted) && one_per_cluster(h as int, clusters(h as int, sorted), r);
    let groups = clusters(h as int, sorted);
    lemma_pair_total(h as int, sorted);
    assert forall|c: int| 0 <= c < groups.len() implies (#[trigger] r.tag_groups@[c])@.len()
        == groups[c].len() by {
        assert(r.tag_groups@[c]@ == tags(groups[c]));
    }
    lemma_same_total(groups, r.tag_groups@);
    broadcast use vstd::seq_lib::group_to_multiset_ensures;

    assert(sorted.to_multiset().len() == pairs@.to_multiset().len());
}

/// Every pair lies in a group that has its tag, whose range reaches `h` to both sides
/// of its value.
pub proof fn lemma_pair_in_group(h: i32, pairs: Seq<(i32, usize)>, r: CoordinateSpans, i: int)
    requires
        clusters_of(h as int, pairs, r),
        0 <= h,
        forall|j: int|
            0 <= j < pairs.len() ==> i32::MIN <= (#[trigger] pairs[j]).0 - h && pairs[j].0 + h
                <= i32::MAX,
        0 <= i < pairs.len(),
    ensures
        exists|c: int|
            0 <= c < r.spans@.len() && (#[trigger] r.tag_groups@[c])@.contains(pairs[i].1)
                && r.spans@[c].start <= pairs[i].0 - h && pairs[i].0 + h <= r.spans@[c].end,
{
    let sorted = choose|sorted: Seq<(i32, usize)>|
        #![trigger clusters(h as int, sorted)]
        sorted_form(pairs, sorted) && one_per_cluster(h as int, clusters(h as int, sorted), r);
    let groups = clusters(h as int, sorted);
    if sorted.len() > 0 {
        lemma_clusters_shape(h as int, sorted);
    }
    lemma_same_members(pairs, sorted, i);
    let j = choose|j: int| 0 <= j < sorted.len() && sorted[j] == pairs[i];
    lemma_clusters_cover(h as int, sorted, j);
    let (c, k) = choose|c: int, k: int|
        0 <= c < groups.len() && 0 <= k < groups[c].len() && #[trigger] groups[c][k] == sorted[j];
    lemma_span_holds(h as int, pairs, sorted, r, c, k);
    assert(r.tag_groups@[c]@ == tags(groups[c]));
    assert(tags(groups[c])[k] == pairs[i].1);
    assert(r.tag_groups@[c]@.contains(pairs[i].1));
}

/// Every pair lies in a group that has its tag, whose range reaches `h` to both sides
/// of its value.
pub proof fn law_every_pair_is_in_a_group(h: i32, pairs: Vec<(i32, usize)>, r: CoordinateSpans, i: int)
    requires
        call_ensures(build_coordinate_spans, (h, pairs), r),
        0 <= h,
        forall|j: int|
            0 <= j < pairs@.len() ==> i32::MIN <= (#[trigger] pairs@[j]).0 - h && pairs@[j].0 + h
                <= i32::MAX,
        0 <= i < pairs@.len(),
    ensures
        exists|c: int|
            0 <= c < r.spans@.len() && (#[trigger] r.tag_groups@[c])@.contains(pairs@[i].1)
                && r.spans@[c].start <= pairs@[i].0 - h && pairs@[i].0 + h <= r.spans@[c].end,
{
    lemma_pair_in_group(h, pairs@, r, i);
}

/// Every tag of a group comes from a pair whose value lies in the range without its
/// padding.
pub proof fn lemma_tag_has_pair(
    h: i32,
    pairs: Seq<(i32, usize)>,
    r: CoordinateSpans,
    c: int,
    k: int,
)
    requires
        clusters_of(h as int, pairs, r),
        0 <= h,
        forall|j: int|
            0 <= j < pairs.len() ==> i32::MIN <= (#[trigger] pairs[j]).0 - h && pairs[j].0 + h
                <= i32::MAX,
        0 <= c < r.tag_groups@.len(),
        0 <= k < r.tag_groups@[c]@.len(),
    ensures
        exists|i: int|
            0 <= i < pairs.len() && (#[trigger] pairs[i]).1 == r.tag_groups@[c]@[k]
                && r.spans@[c].start <= pairs[i].0 - h && pairs[i].0 + h <= r.spans@[c].end,
{
    let sorted = choose|sorted: Seq<(i32, usize)>|
        #![trigger clusters(h as int, sorted)]
        sorted_form(pairs, sorted) && one_per_cluster(h as int, clusters(h as int, sorted), r);
    let groups = clusters(h as int, sorted);
    if sorted.len() > 0 {
        lemma_clusters_shape(h as int, sorted);
    }
    assert(r.tag_groups@[c]@ == tags(groups[c]));
    lemma_span_holds(h as int, pairs, sorted, r, c, k);
    let i = choose|i: int| 0 <= i < pairs.len() && pairs[i] == groups[c][k];
    assert(pairs[i].1 == r.tag_groups@[c]@[k]);
}

/// Every tag of a group comes from a pair whose value lies in the range without its
/// padding.
pub proof fn law_every_tag_has_its_pair(
    h: i32,
    pairs: Vec<(i32, usize)>,
    r: CoordinateSpans,
    c: int,
    k: int,
)
    requires
        call_ensures(build_coordinate_spans, (h, pairs), r),
        0 <= h,
        forall|j: int|
            0 <= j < pairs@.len() ==> i32::MIN <= (#[trigger] pairs@[j]).0 - h && pairs@[j].0 + h
                <= i32::MAX,
        0 <= c < r.tag_groups@.len(),
        0 <= k < r.tag_groups@[c]@.len(),
    ensures
        exists|i: int|
            0 <= i < pairs@.len() && (#[trigger] pairs@[i]).1 == r.tag_groups@[c]@[k]
                && r.spans@[c].start <= pairs@[i].0 - h && pairs@[i].0 + h <= r.spans@[c].end,
{
    lemma_tag_has_pair(h, pairs@, r, c, k);
}

/// The ends of a range are values of pairs, `h` further out: ranges are no longer than
/// they must be.
pub proof fn lemma_ends(h: i32, pairs: Seq<(i32, usize)>, r: CoordinateSpans, c: int)
    requires
        clusters_of(h as int, pairs, r),
        0 <= h,
        forall|j: int|
            0 <= j < pairs.len() ==> i32::MIN <= (#[trigger] pairs[j]).0 - h && pairs[j].0 + h
                <= i32::MAX,
        0 <= c < r.spans@.len(),
    ensures
        exists|i: int| 0 <= i < pairs.len() && (#[trigger] pairs[i]).0 - h == r.spans@[c].start,
        exists|i: int| 0 <= i < pairs.len() && (#[trigger] pairs[i]).0 + h == r.spans@[c].end,
{
    let sorted = choose|sorted: Seq<(i32, usize)>|
        #![trigger clusters(h as int, sorted)]
        sorted_form(pairs, sorted) && one_per_cluster(h as int, clusters(h as int, sorted), r);
    let groups = clusters(h as int, sorted);
    if sorted.len() > 0 {
        lemma_clusters_shape(h as int, sorted);
    }
    let g = groups[c];
    assert(r.spans@[c] == padded(h as int, g));
    lemma_member_in_range(h as int, pairs, sorted, c, 0);
    lemma_member_in_range(h as int, pairs, sorted, c, g.len() - 1);
    let a = choose|a: int| 0 <= a < pairs.len() && pairs[a] == g[0];
    let b = choose|b: int| 0 <= b < pairs.len() && pairs[b] == g[g.len() - 1];
    assert(pairs[a].0 - h == r.spans@[c].start);
    assert(pairs[b].0 + h == r.spans@[c].end);
}

/// The ends of a range are values of pairs, `h` further out: ranges are no longer than
/// they must be.
pub proof fn law_ends_are_values(h: i32, pairs: Vec<(i32, usize)>, r: CoordinateSpans, c: int)
    requires
        call_ensures(build_coordinate_spans, (h, pairs), r),
        0 <= h,
        forall|j: int|
            0 <= j < pairs@.len() ==> i32::MIN <= (#[trigger] pairs@[j]).0 - h && pairs@[j].0 + h
                <= i32::MAX,
        0 <= c < r.spans@.len(),
    ensures
        exists|i: int| 0 <= i < pairs@.len() && (#[trigger] pairs@[i]).0 - h == r.spans@[c].start,
        exists|i: int| 0 <= i < pairs@.len() && (#[trigger] pairs@[i]).0 + h == r.spans@[c].end,
{
    lemma_ends(h, pairs@, r, c);
}

/// A group has no gap: above a value of it that is not the highest there is another at
/// most `h` higher.
pub proof fn lemma_connected(
    h: i32,
    pairs: Seq<(i32, usize)>,
    r: CoordinateSpans,
    c: int,
    i: int,
)
    requires
        clusters_of(h as int, pairs, r),
        0 <= h,
        forall|j: int|
            0 <= j < pairs.len() ==> i32::MIN <= (#[trigger] pairs[j]).0 - h && pairs[j].0 + h
                <= i32::MAX,
        0 <= c < r.spans@.len(),
        0 <= i < pairs.len(),
        r.spans@[c].start <= pairs[i].0 - h,
        pairs[i].0 + h < r.spans@[c].end,
    ensures
        exists|j: int|
            0 <= j < pairs.len() && pairs[i].0 < (#[trigger] pairs[j]).0 <= pairs[i].0 + h,
{
    let sorted = choose|sorted: Seq<(i32, usize)>|
        #![trigger clusters(h as int, sorted)]
        sorted_form(pairs, sorted) && one_per_cluster(h as int, clusters(h as int, sorted), r);
    let groups = clusters(h as int, sorted);
    if sorted.len() > 0 {
        lemma_clusters_shape(h as int, sorted);
    }
    let g = groups[c];
    assert(r.spans@[c] == padded(h as int, g));
    lemma_member_in_range(h as int, pairs, sorted, c, 0);
    lemma_member_in_range(h as int, pairs, sorted, c, g.len() - 1);
    lemma_cluster_count(h as int, sorted, c, pairs[i]);
    lemma_same_members(pairs, sorted, i);
    let k = lemma_counted(sorted, g, pairs[i]);
    lemma_next_value(h as int, sorted, c, k);
    let m = choose|m: int|
        0 <= m < g.len() && g[k].0 < (#[trigger] clusters(h as int, sorted)[c][m]).0 <= g[k].0 + h;
    lemma_member_in_range(h as int, pairs, sorted, c, m);
    let j = choose|j: int| 0 <= j < pairs.len() && pairs[j] == groups[c][m];
    assert(pairs[i].0 < pairs[j].0);
}

/// A group has no gap: above a value of it that is not the highest there is another at
/// most `h` higher.
pub proof fn law_groups_are_connected(
    h: i32,
    pairs: Vec<(i32, usize)>,
    r: CoordinateSpans,
    c: int,
    i: int,
)
    requires
        call_ensures(build_coordinate_spans, (h, pairs), r),
        0 <= h,
        forall|j: int|
            0 <= j < pairs@.len() ==> i32::MIN <= (#[trigger] pairs@[j]).0 - h && pairs@[j].0 + h
                <= i32::MAX,
        0 <= c < r.spans@.len(),
        0 <= i < pairs@.len(),
        r.spans@[c].start <= pairs@[i].0 - h,
        pairs@[i].0 + h < r.spans@[c].end,
    ensures
        exists|j: int|
            0 <= j < pairs@.len() && pairs@[i].0 < (#[trigger] pairs@[j]).0 <= pairs@[i].0 + h,
{
    lemma_connected(h, pairs@, r, c, i);
}

/// Groups are apart: the values of one and of the next differ by more than `h`.
pub proof fn lemma_apart(h: i32, pairs: Seq<(i32, usize)>, r: CoordinateSpans, c: int)
    requires
        clusters_of(h as int, pairs, r),
        0 <= h,
        forall|j: int|
            0 <= j < pairs.len() ==> i32::MIN <= (#[trigger] pairs[j]).0 - h && pairs[j].0 + h
                <= i32::MAX,
        0 <= c < r.spans@.len() - 1,
    ensures
        (r.spans@[c + 1].start + h) - (r.spans@[c].end - h) > h,
{
    law_clusters_apart(h as int, pairs, r, c + 1);
}

/// Groups are apart: the values of one and of the next differ by more than `h`.
pub proof fn law_groups_are_apart(h: i32, pairs: Vec<(i32, usize)>, r: CoordinateSpans, c: int)
    requires
        call_ensures(build_coordinate_spans, (h, pairs), r),
        0 <= h,
        forall|j: int|
            0 <= j < pairs@.len() ==> i32::MIN <= (#[trigger] pairs@[j]).0 - h && pairs@[j].0 + h
                <= i32::MAX,
        0 <= c < r.spans@.len() - 1,
    ensures
        (r.spans@[c + 1].start + h) - (r.spans@[c].end - h) > h,
{
    lemma_apart(h, pairs@, r, c);
}

/// A member of a sequence that is counted as often in a part is in the part.
proof fn lemma_counted(whole: Seq<(i32, usize)>, part: Seq<(i32, usize)>, x: (i32, usize)) -> (k: int)
    requires
        whole.contains(x),
        part.to_multiset().count(x) == whole.to_multiset().count(x),
    ensures
        0 <= k < part.len(),
        part[k] == x,
{
    broadcast use vstd::seq_lib::group_to_multiset_ensures;

    assert(whole.to_multiset().count(x) > 0);
    assert(part.contains(x));
    choose|k: int| 0 <= k < part.len() && part[k] == x
}

/// The range of a cluster reaches `h` to both sides of its members.
proof fn lemma_span_holds(
    h: int,
    pairs: Seq<(i32, usize)>,
    sorted: Seq<(i32, usize)>,
    r: CoordinateSpans,
    c: int,
    k: int,
)
    requires
        0 <= h,
        forall|i: int|
            0 <= i < pairs.len() ==> i32::MIN <= (#[trigger] pairs[i]).0 - h && pairs[i].0 + h
                <= i32::MAX,
        sorted_form(pairs, sorted),
        one_per_cluster(h, clusters(h, sorted), r),
        0 <= c < clusters(h, sorted).len(),
        0 <= k < clusters(h, sorted)[c].len(),
    ensures
        r.spans@[c].start <= clusters(h, sorted)[c][k].0 - h,
        clusters(h, sorted)[c][k].0 + h <= r.spans@[c].end,
        pairs.contains(clusters(h, sorted)[c][k]),
{
    let g = clusters(h, sorted)[c];
    assert(r.spans@[c] == padded(h, g));
    lemma_clusters_ascending(h, sorted, c);
    lemma_member_in_range(h, pairs, sorted, c, 0);
    lemma_member_in_range(h, pairs, sorted, c, k);
    lemma_member_in_range(h, pairs, sorted, c, g.len() - 1);
    assert(g[0].0 <= g[k].0 <= g[g.len() - 1].0);
}

/// `line` has, of those ranges that have so many coordinates, the `i`-th coordinate of
/// each, in order: `picked` lists these ranges.
pub open spec fn takes_from(spans: Seq<Span>, i: int, picked: Seq<int>, line: Seq<i32>) -> bool {
    &&& picked.len() == line.len()
    &&& forall|j: int, k: int| 0 <= j < k < picked.len() ==> picked[j] < picked[k]
    &&& forall|j: int|
        0 <= j < picked.len() ==> 0 <= #[trigger] picked[j] < spans.len() && line[j]
            == spans[picked[j]].start + i && line[j] <= spans[picked[j]].end
    &&& forall|c: int|
        0 <= c < spans.len() && (#[trigger] spans[c]).start + i <= spans[c].end ==> exists|j: int|
            0 <= j < picked.len() && #[trigger] picked[j] == c
}

/// A scan line takes one coordinate of every range that is long enough.
pub proof fn law_scan_line_takes_from(spans: Seq<Span>, i: int)
    requires
        0 <= i,
    ensures
        exists|picked: Seq<int>| #[trigger] takes_from(spans, i, picked, scan_line(spans, i)),
    decreases spans.len(),
{
    if spans.len() == 0 {
        assert(takes_from(spans, i, seq![], scan_line(spans, i)));
    } else {
        let head = spans.drop_last();
        let n = spans.len() - 1;
        law_scan_line_takes_from(head, i);
        let before = choose|picked: Seq<int>| #[trigger]
            takes_from(head, i, picked, scan_line(head, i));
        let last = spans.last();
        let picked = if last.start + i <= last.end {
            before.push(n)
        } else {
            before
        };
        let line = scan_line(spans, i);
        assert forall|c: int| 0 <= c < spans.len() && (#[trigger] spans[c]).start + i
            <= spans[c].end implies exists|j: int| 0 <= j < picked.len() && #[trigger] picked[j] == c by {
            if c < n {
                assert(head[c] == spans[c]);
                let j = choose|j: int| 0 <= j < before.len() && #[trigger] before[j] == c;
                assert(picked[j] == c);
            } else {
                assert(picked[picked.len() - 1] == c);
            }
        }
        assert forall|j: int| 0 <= j < picked.len() implies 0 <= #[trigger] picked[j] < spans.len()
            && line[j] == spans[picked[j]].start + i && line[j] <= spans[picked[j]].end by {
            if j < before.len() {
                assert(before[j] == picked[j]);
                assert(head[before[j]] == spans[picked[j]]);
            }
        }
        assert(takes_from(spans, i, picked, line));
    }
}

/// The sweep has as many lines as the longest range has coordinates, and each line
/// takes one coordinate of every range that is long enough.
pub proof fn law_rotation(spans: &CoordinateSpans, r: Vec<Vec<i32>>, i: int)
    requires
        call_ensures(CoordinateSpans::rotate, (spans,), r),
        spans.wf(),
    ensures
        0 <= i < r@.len() ==> exists|picked: Seq<int>| #[trigger]
            takes_from(spans.spans@, i, picked, r@[i]@),
        forall|c: int|
            0 <= c < spans.spans@.len() ==> (#[trigger] spans.spans@[c]).end - spans.spans@[c].start + 1
                <= r@.len(),
        r@.len() > 0 ==> exists|c: int|
            0 <= c < spans.spans@.len() && (#[trigger] spans.spans@[c]).end - spans.spans@[c].start + 1
                == r@.len(),
{
    if 0 <= i < r@.len() {
        assert(r@[i]@ == scan_line(spans.spans@, i));
        law_scan_line_takes_from(spans.spans@, i);
    }
    law_longest_is_longest(spans.spans@);
}

/// The longest length is that of a range, and no range is longer.
pub proof fn law_longest_is_longest(spans: Seq<Span>)
    ensures
        forall|c: int|
            0 <= c < spans.len() ==> (#[trigger] spans[c]).end - spans[c].start + 1 <= longest(spans),
        longest(spans) == 0 || exists|c: int|
            0 <= c < spans.len() && (#[trigger] spans[c]).end - spans[c].start + 1 == longest(spans),
        longest(spans) >= 0,
    decreases spans.len(),
{
    if spans.len() > 0 {
        let head = spans.drop_last();
        let n = spans.len() - 1;
        law_longest_is_longest(head);
        assert forall|c: int| 0 <= c < spans.len() implies (#[trigger] spans[c]).end - spans[c].start + 1
            <= longest(spans) by {
            if c < n {
                assert(head[c] == spans[c]);
            }
        }
        if longest(spans) != 0 {
            if longest(spans) == span_len(spans.last()) {
                assert(spans[n].end - spans[n].start + 1 == longest(spans));
            } else {
                let c = choose|c: int|
                    0 <= c < head.len() && (#[trigger] head[c]).end - head[c].start + 1 == longest(head);
                assert(spans[c].end - spans[c].start + 1 == longest(spans));
            }
        }
    }
}

/// The number of scan lines is the length of the longest range.
pub proof fn law_line_count(spans: &CoordinateSpans, n: usize)
    requires
        call_ensures(CoordinateSpans::max_len, (spans,), n),
    ensures
        forall|c: int|
            0 <= c < spans.spans@.len() ==> (#[trigger] spans.spans@[c]).end - spans.spans@[c].start + 1
                <= n,
        n > 0 ==> exists|c: int|
            0 <= c < spans.spans@.len() && (#[trigger] spans.spans@[c]).end - spans.spans@[c].start + 1
                == n,
{
    law_longest_is_longest(spans.spans@);
}

/// One scan line takes one coordinate of every range that is long enough.
pub proof fn law_line_at(spans: &CoordinateSpans, i: usize, line: Vec<i32>)
    requires
        call_ensures(CoordinateSpans::scan_line_at, (spans, i), line),
    ensures
        exists|picked: Seq<int>| #[trigger] takes_from(spans.spans@, i as int, picked, line@),
{
    law_scan_line_takes_from(spans.spans@, i as int);
}

/// The value of a range at an index is its start plus the index, where the range
/// reaches so far.
pub proof fn law_values_at(spans: &CoordinateSpans, index: usize, r: Vec<Option<i32>>, c: int)
    requires
        call_ensures(CoordinateSpans::get_values_at, (spans, index), r),
        0 <= c < spans.spans@.len(),
    ensures
        r@.len() == spans.spans@.len(),
        spans.spans@[c].start + index <= spans.spans@[c].end ==> r@[c] is Some && r@[c]->Some_0
            == spans.spans@[c].start + index,
        spans.spans@[c].start + index > spans.spans@[c].end ==> r@[c] is None,
{
    assert(r@[c] == value_at(spans.spans@[c], index as int));
}

/// The range of a tag is that of the first group that has it.
pub proof fn law_span_by_tag(spans: &CoordinateSpans, tag: usize, r: Option<Span>)
    requires
        call_ensures(CoordinateSpans::get_span_by_tag, (spans, tag), r),
    ensures
        r is None <==> forall|c: int|
            0 <= c < spans.tag_groups@.len() ==> !(#[trigger] spans.tag_groups@[c])@.contains(tag),
        r is Some ==> exists|c: int|
            0 <= c < spans.tag_groups@.len() && (#[trigger] spans.tag_groups@[c])@.contains(tag)
                && r->Some_0 == spans.spans@[c] && forall|d: int|
                0 <= d < c ==> !(#[trigger] spans.tag_groups@[d])@.contains(tag),
{
    if r is Some {
        assert(spans.has_tag(tag));
        let d = choose|d: int|
            0 <= d < spans.tag_groups@.len() && (#[trigger] spans.tag_groups@[d])@.contains(tag);
        lemma_first_group(spans.tag_groups@, tag, d);
        let c = choose|c: int| first_group(spans.tag_groups@, tag, c);
        assert(spans.tag_groups@[c]@.contains(tag));
    }
}

/// Ranges are well formed if every group has one range, and no range is empty or has
/// more values than can be counted.
pub proof fn law_well_formed(spans: &CoordinateSpans, r: bool)
    requires
        call_ensures(CoordinateSpans::is_well_formed, (spans,), r),
    ensures
        r <==> spans.spans@.len() == spans.tag_groups@.len() && forall|c: int|
            0 <= c < spans.spans@.len() ==> (#[trigger] spans.spans@[c]).start <= spans.spans@[c].end
                && spans.spans@[c].end - spans.spans@[c].start < i32::MAX,
{
    if r {
        assert forall|c: int| 0 <= c < spans.spans@.len() implies (#[trigger] spans.spans@[c]).start
            <= spans.spans@[c].end && spans.spans@[c].end - spans.spans@[c].start < i32::MAX by {
            assert(span_len(spans.spans@[c]) >= 1);
        }
    }
}

} // verus!
