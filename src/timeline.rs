//! Consolidation of per-frame matching results into a timeline.
use vstd::prelude::*;

verus! {

/// The result of matching one sampled video frame against the candidate pages.
///
/// `image` is the index of the matched page in the candidate list; `None` stands
/// both for "no visible match" and for the end-of-video sentinel.
#[derive(Clone, Copy, Debug)]
pub struct Matching {
    pub video_time_ms: u64,
    pub video_frame_idx: usize,
    pub image: Option<usize>,
}

impl Matching {
    pub fn new(video_time_ms: u64, video_frame_idx: usize, image: Option<usize>) -> (r: Matching)
        ensures
            r.video_time_ms == video_time_ms,
            r.video_frame_idx == video_frame_idx,
            r.image == image,
    {
        Matching { video_time_ms, video_frame_idx, image }
    }

    /// The end-of-video entry: no image, carrying the video's length.
    pub open spec fn sentinel_spec(total_time_ms: u64, total_frames: usize) -> Matching {
        Matching { video_time_ms: total_time_ms, video_frame_idx: total_frames, image: None }
    }

    /// The end-of-video entry: no image, carrying the video's length.
    pub fn sentinel(total_time_ms: u64, total_frames: usize) -> (r: Matching)
        ensures
            r == Matching::sentinel_spec(total_time_ms, total_frames),
    {
        Matching { video_time_ms: total_time_ms, video_frame_idx: total_frames, image: None }
    }
}

/// Whether two results name the same page (both "no match" counts as the same).
pub fn same_image(a: Option<usize>, b: Option<usize>) -> (r: bool)
    ensures
        r == (a == b),
{
    match (a, b) {
        (Some(x), Some(y)) => x == y,
        (None, None) => true,
        _ => false,
    }
}

/// Ascending by time offset.
pub open spec fn is_time_sorted(s: Seq<Matching>) -> bool {
    forall|i: int, j: int| 0 <= i < j < s.len() ==> s[i].video_time_ms <= s[j].video_time_ms
}

/// Strictly ascending by time offset.
pub open spec fn is_strictly_time_sorted(s: Seq<Matching>) -> bool {
    forall|i: int, j: int| 0 <= i < j < s.len() ==> s[i].video_time_ms < s[j].video_time_ms
}

/// No two entries share a time offset.
pub open spec fn has_distinct_times(s: Seq<Matching>) -> bool {
    forall|i: int, j: int|
        0 <= i < s.len() && 0 <= j < s.len() && i != j ==> s[i].video_time_ms != s[j].video_time_ms
}

/// Inserts `m` into a time-sorted sequence after every entry that is not later
/// than it, so that entries with equal times keep their order of arrival.
pub open spec fn insert_by_time(s: Seq<Matching>, m: Matching) -> Seq<Matching>
    decreases s.len(),
{
    if s.len() == 0 {
        seq![m]
    } else if s.last().video_time_ms <= m.video_time_ms {
        s.push(m)
    } else {
        insert_by_time(s.drop_last(), m).push(s.last())
    }
}

/// The stable sort of `s` by time offset.
pub open spec fn sort_by_time(s: Seq<Matching>) -> Seq<Matching>
    decreases s.len(),
{
    if s.len() == 0 {
        s
    } else {
        insert_by_time(sort_by_time(s.drop_last()), s.last())
    }
}

/// Drops every entry whose image equals that of the entry just before it; the
/// first entry of each run of equal images is kept.
pub open spec fn dedup_by_image(s: Seq<Matching>) -> Seq<Matching>
    decreases s.len(),
{
    if s.len() <= 1 {
        s
    } else if s.last().image == s[s.len() - 2].image {
        dedup_by_image(s.drop_last())
    } else {
        dedup_by_image(s.drop_last()).push(s.last())
    }
}

/// The timeline made of a set of per-frame results.
pub open spec fn timeline_of(s: Seq<Matching>) -> Seq<Matching> {
    dedup_by_image(sort_by_time(s))
}

/// Whether `s[i]` starts a run of equal images.
pub open spec fn starts_run(s: Seq<Matching>, i: int) -> bool {
    i == 0 || s[i].image != s[i - 1].image
}

proof fn lemma_insert_props(s: Seq<Matching>, m: Matching)
    ensures
        insert_by_time(s, m).len() == s.len() + 1,
        forall|x: Matching| #[trigger]
            insert_by_time(s, m).contains(x) <==> (s.contains(x) || x == m),
        is_time_sorted(s) ==> is_time_sorted(insert_by_time(s, m)),
        is_strictly_time_sorted(s) && (forall|k: int|
            0 <= k < s.len() ==> s[k].video_time_ms != m.video_time_ms) ==> is_strictly_time_sorted(
            insert_by_time(s, m),
        ),
    decreases s.len(),
{
    if s.len() == 0 {
        assert forall|x: Matching| #[trigger]
            insert_by_time(s, m).contains(x) <==> (s.contains(x) || x == m) by {
            if insert_by_time(s, m).contains(x) {
                assert(insert_by_time(s, m)[0] == m);
            }
            if x == m {
                assert(insert_by_time(s, m)[0] == m);
            }
        }
    } else if s.last().video_time_ms <= m.video_time_ms {
        let r = s.push(m);
        assert forall|x: Matching| #[trigger] r.contains(x) <==> (s.contains(x) || x == m) by {
            if r.contains(x) {
                let k = choose|k: int| 0 <= k < r.len() && r[k] == x;
                if k < s.len() {
                    assert(s[k] == x);
                }
            }
            if s.contains(x) {
                let k = choose|k: int| 0 <= k < s.len() && s[k] == x;
                assert(r[k] == x);
            }
            if x == m {
                assert(r[s.len() as int] == m);
            }
        }
    } else {
        let d = s.drop_last();
        let t = insert_by_time(d, m);
        lemma_insert_props(d, m);
        let r = t.push(s.last());
        assert forall|x: Matching| #[trigger] r.contains(x) <==> (s.contains(x) || x == m) by {
            if r.contains(x) {
                let k = choose|k: int| 0 <= k < r.len() && r[k] == x;
                if k < t.len() {
                    assert(t[k] == x);
                    assert(t.contains(x));
                    if d.contains(x) {
                        let j = choose|j: int| 0 <= j < d.len() && d[j] == x;
                        assert(s[j] == x);
                    }
                } else {
                    assert(s[s.len() - 1] == x);
                }
            }
            if s.contains(x) {
                let k = choose|k: int| 0 <= k < s.len() && s[k] == x;
                if k < d.len() {
                    assert(d[k] == x);
                    assert(d.contains(x));
                    assert(insert_by_time(d, m).contains(x));
                    let j = choose|j: int| 0 <= j < t.len() && t[j] == x;
                    assert(r[j] == x);
                } else {
                    assert(r[t.len() as int] == x);
                }
            }
            if x == m {
                assert(insert_by_time(d, m).contains(m));
                let j = choose|j: int| 0 <= j < t.len() && t[j] == m;
                assert(r[j] == x);
            }
        }
        if is_time_sorted(s) {
            assert(is_time_sorted(d));
            assert forall|i: int, j: int| 0 <= i < j < r.len() implies r[i].video_time_ms
                <= r[j].video_time_ms by {
                if j == r.len() - 1 && i < t.len() {
                    assert(t.contains(t[i]));
                    if d.contains(t[i]) {
                        let k = choose|k: int| 0 <= k < d.len() && d[k] == t[i];
                        assert(s[k] == t[i]);
                    }
                }
            }
        }
        if is_strictly_time_sorted(s) && (forall|k: int|
            0 <= k < s.len() ==> s[k].video_time_ms != m.video_time_ms) {
            assert(is_strictly_time_sorted(d));
            assert forall|k: int| 0 <= k < d.len() implies d[k].video_time_ms
                != m.video_time_ms by {
                assert(s[k] == d[k]);
            }
            assert forall|i: int, j: int| 0 <= i < j < r.len() implies r[i].video_time_ms
                < r[j].video_time_ms by {
                if j == r.len() - 1 && i < t.len() {
                    assert(t.contains(t[i]));
                    if d.contains(t[i]) {
                        let k = choose|k: int| 0 <= k < d.len() && d[k] == t[i];
                        assert(s[k] == t[i]);
                    }
                }
            }
        }
    }
}

/// Inserting at the first position whose entry is later than `m` is the
/// insertion that `insert_by_time` describes.
proof fn lemma_insert_at(s: Seq<Matching>, m: Matching, p: int)
    requires
        is_time_sorted(s),
        0 <= p <= s.len(),
        forall|k: int| 0 <= k < p ==> s[k].video_time_ms <= m.video_time_ms,
        p < s.len() ==> s[p].video_time_ms > m.video_time_ms,
    ensures
        insert_by_time(s, m) == s.insert(p, m),
    decreases s.len(),
{
    if s.len() == 0 {
        assert(s.insert(p, m) =~= seq![m]);
    } else if s.last().video_time_ms <= m.video_time_ms {
        assert(p == s.len());
        assert(s.insert(p, m) =~= s.push(m));
    } else {
        let d = s.drop_last();
        assert(p < s.len());
        lemma_insert_at(d, m, p);
        assert(s.insert(p, m) =~= d.insert(p, m).push(s.last()));
    }
}

/// The stable sort keeps length, elements and order properties.
pub proof fn lemma_sort_props(s: Seq<Matching>)
    ensures
        sort_by_time(s).len() == s.len(),
        is_time_sorted(sort_by_time(s)),
        forall|x: Matching| #[trigger] sort_by_time(s).contains(x) <==> s.contains(x),
        has_distinct_times(s) ==> is_strictly_time_sorted(sort_by_time(s)),
    decreases s.len(),
{
    if s.len() > 0 {
        let d = s.drop_last();
        lemma_sort_props(d);
        let sd = sort_by_time(d);
        lemma_insert_props(sd, s.last());
        assert forall|x: Matching| #[trigger] sort_by_time(s).contains(x) <==> s.contains(x) by {
            if d.contains(x) {
                let k = choose|k: int| 0 <= k < d.len() && d[k] == x;
                assert(s[k] == x);
            }
            if s.contains(x) {
                let k = choose|k: int| 0 <= k < s.len() && s[k] == x;
                if k < d.len() {
                    assert(d[k] == x);
                }
            }
        }
        if has_distinct_times(s) {
            assert(has_distinct_times(d)) by {
                assert forall|i: int, j: int|
                    0 <= i < d.len() && 0 <= j < d.len() && i != j implies d[i].video_time_ms
                    != d[j].video_time_ms by {
                    assert(s[i] == d[i] && s[j] == d[j]);
                }
            }
            assert forall|k: int| 0 <= k < sd.len() implies sd[k].video_time_ms
                != s.last().video_time_ms by {
                assert(sd.contains(sd[k]));
                let j = choose|j: int| 0 <= j < d.len() && d[j] == sd[k];
                assert(s[j] == d[j]);
            }
        }
    } else {
        assert(sort_by_time(s) =~= s);
    }
}

/// What deduplication keeps: a non-empty subsequence of a non-empty input,
/// ending with the image and at most the time of the input's last entry.
pub proof fn lemma_dedup_props(s: Seq<Matching>)
    ensures
        dedup_by_image(s).len() <= s.len(),
        s.len() > 0 ==> dedup_by_image(s).len() > 0,
        s.len() > 0 ==> dedup_by_image(s).last().image == s.last().image,
        is_time_sorted(s) && s.len() > 0 ==> dedup_by_image(s).last().video_time_ms
            <= s.last().video_time_ms,
        forall|x: Matching| #[trigger] dedup_by_image(s).contains(x) ==> s.contains(x),
    decreases s.len(),
{
    if s.len() > 1 {
        let d = s.drop_last();
        lemma_dedup_props(d);
        let dd = dedup_by_image(d);
        assert(d.last() == s[s.len() - 2]);
        if is_time_sorted(s) {
            assert(is_time_sorted(d));
        }
        if s.last().image != s[s.len() - 2].image {
            let r = dd.push(s.last());
            assert forall|x: Matching| #[trigger] r.contains(x) implies s.contains(x) by {
                let k = choose|k: int| 0 <= k < r.len() && r[k] == x;
                if k < dd.len() {
                    assert(dd[k] == x);
                    assert(dd.contains(x));
                    let j = choose|j: int| 0 <= j < d.len() && d[j] == x;
                    assert(s[j] == x);
                } else {
                    assert(s[s.len() - 1] == x);
                }
            }
        } else {
            assert forall|x: Matching| #[trigger] dd.contains(x) implies s.contains(x) by {
                let j = choose|j: int| 0 <= j < d.len() && d[j] == x;
                assert(s[j] == x);
            }
            if is_time_sorted(s) {
                assert(s[s.len() - 2].video_time_ms <= s.last().video_time_ms);
            }
        }
    }
}

/// Deduplication keeps the time order of a time-sorted input, strict or not,
/// and never leaves the same image twice in a row.
#[verifier::spinoff_prover]
pub proof fn lemma_dedup_order(s: Seq<Matching>)
    ensures
        is_strictly_time_sorted(s) ==> is_strictly_time_sorted(dedup_by_image(s)),
        is_time_sorted(s) ==> is_time_sorted(dedup_by_image(s)),
        forall|i: int|
            0 <= i < dedup_by_image(s).len() - 1 ==> #[trigger] dedup_by_image(s)[i].image
                != dedup_by_image(s)[i + 1].image,
    decreases s.len(),
{
    if s.len() > 1 {
        let d = s.drop_last();
        lemma_dedup_order(d);
        lemma_dedup_props(d);
        let dd = dedup_by_image(d);
        assert(d.last() == s[s.len() - 2]);
        if is_time_sorted(s) {
            assert(is_time_sorted(d));
        }
        if is_strictly_time_sorted(s) {
            assert(is_strictly_time_sorted(d));
        }
        if s.last().image != s[s.len() - 2].image {
            let r = dd.push(s.last());
            if is_time_sorted(s) {
                assert forall|i: int, j: int| 0 <= i < j < r.len() implies r[i].video_time_ms
                    <= r[j].video_time_ms by {
                    if j == r.len() - 1 && i < dd.len() - 1 {
                        assert(dd[i].video_time_ms <= dd.last().video_time_ms);
                    }
                }
            }
            if is_strictly_time_sorted(s) {
                assert forall|i: int, j: int| 0 <= i < j < r.len() implies r[i].video_time_ms
                    < r[j].video_time_ms by {
                    if j == r.len() - 1 && i < dd.len() - 1 {
                        assert(dd[i].video_time_ms < dd.last().video_time_ms);
                    }
                }
            }
            assert forall|i: int| 0 <= i < r.len() - 1 implies #[trigger] r[i].image != r[i
                + 1].image by {
                if i < dd.len() - 1 {
                    assert(dd[i].image != dd[i + 1].image);
                }
            }
        }
    }
}

/// Each entry that starts a run of equal images is kept: deduplication drops an
/// entry only when the entry just before it shows the same image.
pub proof fn lemma_dedup_keeps_run_starts(s: Seq<Matching>, i: int)
    requires
        0 <= i < s.len(),
        starts_run(s, i),
    ensures
        dedup_by_image(s).contains(s[i]),
    decreases s.len(),
{
    if s.len() > 1 {
        let d = s.drop_last();
        if i == s.len() - 1 {
            let dd = dedup_by_image(d);
            assert(dedup_by_image(s)[dd.len() as int] == s[i]);
        } else {
            assert(starts_run(d, i));
            lemma_dedup_keeps_run_starts(d, i);
            let dd = dedup_by_image(d);
            let k = choose|k: int| 0 <= k < dd.len() && dd[k] == s[i];
            if s.last().image != s[s.len() - 2].image {
                assert(dedup_by_image(s)[k] == s[i]);
            }
        }
    } else {
        assert(dedup_by_image(s)[0] == s[0]);
    }
}

/// Sorts the results by time offset; results with equal times keep their order.
pub fn sort_results_by_time(v: &Vec<Matching>) -> (r: Vec<Matching>)
    ensures
        r@ == sort_by_time(v@),
{
    let mut r: Vec<Matching> = Vec::new();
    let mut i: usize = 0;
    while i < v.len()
        invariant
            0 <= i <= v.len(),
            r@ == sort_by_time(v@.take(i as int)),
        decreases v.len() - i,
    {
        let m = v[i];
        proof {
            lemma_sort_props(v@.take(i as int));
        }
        let mut p: usize = 0;
        while p < r.len() && r[p].video_time_ms <= m.video_time_ms
            invariant
                p <= r.len(),
                forall|k: int| 0 <= k < p ==> r@[k].video_time_ms <= m.video_time_ms,
            decreases r.len() - p,
        {
            p += 1;
        }
        proof {
            lemma_insert_at(r@, m, p as int);
            assert(v@.take(i + 1).drop_last() =~= v@.take(i as int));
        }
        r.insert(p, m);
        i += 1;
    }
    assert(v@.take(v.len() as int) =~= v@);
    r
}

/// Drops each result whose image equals that of the result just before it.
pub fn dedup_results_by_image(v: &Vec<Matching>) -> (r: Vec<Matching>)
    ensures
        r@ == dedup_by_image(v@),
{
    let mut r: Vec<Matching> = Vec::new();
    let mut i: usize = 0;
    while i < v.len()
        invariant
            0 <= i <= v.len(),
            r@ == dedup_by_image(v@.take(i as int)),
        decreases v.len() - i,
    {
        let ghost before = v@.take(i as int);
        proof {
            assert(v@.take(i + 1).drop_last() =~= before);
        }
        if i == 0 {
            r.push(v[i]);
            assert(r@ =~= v@.take(1));
        } else if !same_image(v[i - 1].image, v[i].image) {
            r.push(v[i]);
        }
        i += 1;
    }
    assert(v@.take(v.len() as int) =~= v@);
    r
}

/// Consolidates per-frame results into a timeline: sorted by time offset, with
/// every run of consecutive results on the same image folded into its first.
pub fn build_timeline(results: &Vec<Matching>) -> (r: Vec<Matching>)
    ensures
        r@ == timeline_of(results@),
        is_time_sorted(r@),
        forall|i: int| 0 <= i < r@.len() - 1 ==> #[trigger] r@[i].image != r@[i + 1].image,
{
    let sorted = sort_results_by_time(results);
    proof {
        lemma_sort_props(results@);
        lemma_dedup_order(sorted@);
    }
    dedup_results_by_image(&sorted)
}

/// A well-formed set of per-frame results: exactly one entry, the end-of-video
/// sentinel at index `k`, has no image, it is later than every other entry, and
/// no two entries share a time offset.
pub open spec fn well_formed_results(s: Seq<Matching>, k: int) -> bool {
    &&& 0 <= k < s.len()
    &&& s[k].image is None
    &&& forall|i: int| 0 <= i < s.len() && i != k ==> (#[trigger] s[i]).image is Some
    &&& forall|i: int| 0 <= i < s.len() && i != k ==> (#[trigger] s[i]).video_time_ms < s[k].video_time_ms
    &&& has_distinct_times(s)
}

/// A timeline built from well-formed results is strictly ascending by time
/// offset, and its one entry without an image is its last entry, the sentinel.
pub proof fn lemma_timeline_shape(s: Seq<Matching>, k: int)
    requires
        well_formed_results(s, k),
    ensures
        is_strictly_time_sorted(timeline_of(s)),
        timeline_of(s).len() > 0,
        timeline_of(s).last() == s[k],
        forall|i: int| 0 <= i < timeline_of(s).len() - 1 ==> (#[trigger] timeline_of(s)[i]).image is Some,
{
    let t = sort_by_time(s);
    lemma_sort_props(s);
    lemma_dedup_props(t);
    lemma_dedup_order(t);
    let r = dedup_by_image(t);
    assert(s.contains(s[k]));
    assert(t.contains(s[k]));
    let p = choose|p: int| 0 <= p < t.len() && t[p] == s[k];
    // The sentinel is the latest entry, so it is the last one after sorting.
    if p < t.len() - 1 {
        let q = t.len() - 1;
        assert(t.contains(t[q]));
        let j = choose|j: int| 0 <= j < s.len() && s[j] == t[q];
        if j == k {
            assert(t[q].video_time_ms == t[p].video_time_ms);
        } else {
            assert(t[q].video_time_ms < s[k].video_time_ms);
        }
        assert(false);
    }
    assert(t.last() == s[k]);
    if t.len() > 1 {
        let q = t.len() - 2;
        assert(t.contains(t[q]));
        let j = choose|j: int| 0 <= j < s.len() && s[j] == t[q];
        assert(j != k);
        assert(t[q].image is Some);
        lemma_dedup_keeps_run_starts(t, t.len() - 1);
    }
    assert(r.last().image is None);
    // Every kept entry with no image is the sentinel, which is the last one.
    assert forall|i: int| 0 <= i < r.len() - 1 implies (#[trigger] r[i]).image is Some by {
        assert(r.contains(r[i]));
        assert(t.contains(r[i]));
        let j = choose|j: int| 0 <= j < s.len() && s[j] == r[i];
        if j == k {
            assert(r[i].video_time_ms < r.last().video_time_ms);
            assert(r.last().image is None);
            assert(r.contains(r.last()));
            assert(t.contains(r.last()));
            let j2 = choose|j2: int| 0 <= j2 < s.len() && s[j2] == r.last();
            if j2 != k {
                assert(false);
            }
        }
    }
    assert(r.contains(r.last()));
    assert(t.contains(r.last()));
    let j = choose|j: int| 0 <= j < s.len() && s[j] == r.last();
    assert(j == k);
}

/// No two consecutive timeline entries show the same image, and an entry that
/// starts a run of equal images among the sorted results is never dropped, so a
/// page that is shown again after another one appears again.
pub proof fn lemma_timeline_dedup(s: Seq<Matching>, i: int)
    requires
        0 <= i < sort_by_time(s).len(),
        starts_run(sort_by_time(s), i),
    ensures
        forall|j: int|
            0 <= j < timeline_of(s).len() - 1 ==> #[trigger] timeline_of(s)[j].image
                != timeline_of(s)[j + 1].image,
        timeline_of(s).contains(sort_by_time(s)[i]),
{
    lemma_dedup_order(sort_by_time(s));
    lemma_dedup_keeps_run_starts(sort_by_time(s), i);
}

proof fn lemma_sort_of_sorted(s: Seq<Matching>)
    requires
        is_time_sorted(s),
    ensures
        sort_by_time(s) == s,
    decreases s.len(),
{
    if s.len() > 0 {
        let d = s.drop_last();
        assert(is_time_sorted(d));
        lemma_sort_of_sorted(d);
        if d.len() > 0 {
            assert(d.last() == s[s.len() - 2]);
            assert(d.push(s.last()) =~= s);
        } else {
            assert(seq![s.last()] =~= s);
        }
    }
}

proof fn lemma_dedup_of_deduped(s: Seq<Matching>)
    requires
        forall|i: int| 0 <= i < s.len() - 1 ==> #[trigger] s[i].image != s[i + 1].image,
    ensures
        dedup_by_image(s) == s,
    decreases s.len(),
{
    if s.len() > 1 {
        let d = s.drop_last();
        assert forall|i: int| 0 <= i < d.len() - 1 implies #[trigger] d[i].image != d[i + 1].image by {
            assert(s[i].image != s[i + 1].image);
        }
        lemma_dedup_of_deduped(d);
        assert(s[s.len() - 2].image != s[s.len() - 1].image);
        assert(d.push(s.last()) =~= s);
    }
}

/// Consolidating a timeline again changes nothing: it is already sorted and has
/// no run of equal images to fold.
pub proof fn lemma_timeline_idempotent(s: Seq<Matching>)
    ensures
        timeline_of(timeline_of(s)) == timeline_of(s),
{
    let t = timeline_of(s);
    lemma_sort_props(s);
    lemma_dedup_order(sort_by_time(s));
    lemma_sort_of_sorted(t);
    lemma_dedup_of_deduped(t);
}

} // verus!
