//! The decisions that pick the page a sampled video frame shows.
//!
//! Matching one frame alternates image work (feature extraction, descriptor
//! search, affine estimation, warping) with decisions on its results. The image
//! work is done by the caller; this module takes its results as plain values:
//! descriptor distances as integers (Hamming distances of binary descriptors),
//! ratings as inlier counts, and photometric similarities in parts per billion.
use vstd::prelude::*;

verus! {

/// How many nearest neighbours are looked up for each frame descriptor.
pub const KNN_NEIGHBOURS: usize = 30;

/// How many candidate pages, ranked by match count, get an affine estimation.
pub const MAX_RANKED_CANDIDATES: usize = 40;

/// How many candidates, ranked by geometric rating, are considered further.
pub const MAX_RATED_CANDIDATES: usize = 10;

/// An affine estimation needs at least this many correspondences.
pub const MIN_CORRESPONDENCES: usize = 10;

/// A candidate needs strictly more inliers than this.
pub const GEOMETRIC_MIN_RATING: u64 = 50;

/// One part in this many is the unit of photometric similarity.
pub const SIMILARITY_SCALE: u64 = 1_000_000_000;

/// A match needs a photometric similarity strictly above one half.
pub const PHOTOMETRIC_MIN_SIMILARITY: u64 = 500_000_000;

/// A hit of a frame descriptor in the index built over all candidate pages.
#[derive(Clone, Copy, Debug, PartialEq, Eq)]
pub struct KeyedDMatch {
    /// Index of the frame descriptor.
    pub query_idx: i32,
    /// Index of the descriptor within its page.
    pub train_idx: i32,
    /// Index of the candidate page the descriptor belongs to.
    pub source: usize,
    /// Hamming distance between the two descriptors.
    pub distance: u32,
}

/// The smallest distance among the hits of one query.
pub open spec fn min_distance(row: Seq<KeyedDMatch>) -> u32
    decreases row.len(),
{
    if row.len() == 0 {
        0
    } else if row.len() == 1 || row.last().distance <= min_distance(row.drop_last()) {
        row.last().distance
    } else {
        min_distance(row.drop_last())
    }
}

/// A distance is within five percent of the best one (at most 1.05 times it).
pub open spec fn is_near_best(distance: u32, best: u32) -> bool {
    20 * (distance as int) <= 21 * (best as int)
}

/// The hits of `row` whose distance is near `best`, in their order.
pub open spec fn keep_near(row: Seq<KeyedDMatch>, best: u32) -> Seq<KeyedDMatch>
    decreases row.len(),
{
    if row.len() == 0 {
        row
    } else if is_near_best(row.last().distance, best) {
        keep_near(row.drop_last(), best).push(row.last())
    } else {
        keep_near(row.drop_last(), best)
    }
}

/// The near-best hits of all queries, query after query.
pub open spec fn near_matches(rows: Seq<Seq<KeyedDMatch>>) -> Seq<KeyedDMatch>
    decreases rows.len(),
{
    if rows.len() == 0 {
        Seq::empty()
    } else {
        near_matches(rows.drop_last()) + keep_near(rows.last(), min_distance(rows.last()))
    }
}

/// The hits of `s` on page `page`, in their order.
pub open spec fn matches_of_page(s: Seq<KeyedDMatch>, page: usize) -> Seq<KeyedDMatch>
    decreases s.len(),
{
    if s.len() == 0 {
        s
    } else if s.last().source == page {
        matches_of_page(s.drop_last(), page).push(s.last())
    } else {
        matches_of_page(s.drop_last(), page)
    }
}

/// Inserts `x` into a sequence sorted by descending score, after every entry
/// whose score is not lower, so that equal scores keep their order.
pub open spec fn insert_by_score(s: Seq<(usize, u64)>, x: (usize, u64)) -> Seq<(usize, u64)>
    decreases s.len(),
{
    if s.len() == 0 {
        seq![x]
    } else if s.last().1 >= x.1 {
        s.push(x)
    } else {
        insert_by_score(s.drop_last(), x).push(s.last())
    }
}

/// The stable sort of (page, score) pairs by descending score.
pub open spec fn sort_by_score(s: Seq<(usize, u64)>) -> Seq<(usize, u64)>
    decreases s.len(),
{
    if s.len() == 0 {
        s
    } else {
        insert_by_score(sort_by_score(s.drop_last()), s.last())
    }
}

/// Descending by score.
pub open spec fn is_score_sorted(s: Seq<(usize, u64)>) -> bool {
    forall|i: int, j: int| 0 <= i < j < s.len() ==> s[i].1 >= s[j].1
}

/// The pages that have at least one hit, each with its number of hits, in page order.
pub open spec fn match_counts(buckets: Seq<Seq<KeyedDMatch>>) -> Seq<(usize, u64)>
    decreases buckets.len(),
{
    if buckets.len() == 0 {
        Seq::empty()
    } else if buckets.last().len() > 0 {
        match_counts(buckets.drop_last()).push(
            ((buckets.len() - 1) as usize, buckets.last().len() as u64),
        )
    } else {
        match_counts(buckets.drop_last())
    }
}

/// The pages worth a geometric check: by descending hit count, at most forty.
pub open spec fn ranked_candidates(buckets: Seq<Seq<KeyedDMatch>>) -> Seq<usize> {
    let sorted = sort_by_score(match_counts(buckets));
    let n = if sorted.len() < MAX_RANKED_CANDIDATES {
        sorted.len() as int
    } else {
        MAX_RANKED_CANDIDATES as int
    };
    sorted.take(n).map_values(|x: (usize, u64)| x.0)
}

/// A rating passes when it is above the minimum and at least a fifth of the best.
pub open spec fn is_competitive(rating: u64, best: u64) -> bool {
    rating > GEOMETRIC_MIN_RATING && 5 * (rating as int) >= best as int
}

/// The entries of `s` whose rating is competitive with `best`, in their order.
pub open spec fn keep_competitive(s: Seq<(usize, u64)>, best: u64) -> Seq<(usize, u64)>
    decreases s.len(),
{
    if s.len() == 0 {
        s
    } else if is_competitive(s.last().1, best) {
        keep_competitive(s.drop_last(), best).push(s.last())
    } else {
        keep_competitive(s.drop_last(), best)
    }
}

/// The candidates that pass the geometric check: the ten best rated, of which
/// those whose rating is competitive with the best one.
pub open spec fn geometric_survivors(rated: Seq<(usize, u64)>) -> Seq<(usize, u64)> {
    let sorted = sort_by_score(rated);
    let top = if sorted.len() < MAX_RATED_CANDIDATES {
        sorted
    } else {
        sorted.take(MAX_RATED_CANDIDATES as int)
    };
    let best = if top.len() > 0 {
        top[0].1
    } else {
        0
    };
    keep_competitive(top, best)
}

/// The page chosen by photometric similarity: the most similar candidate (the
/// first of equals), if its similarity is above one half.
pub open spec fn photometric_choice(similarities: Seq<(usize, u64)>) -> Option<usize> {
    let sorted = sort_by_score(similarities);
    if sorted.len() > 0 && sorted[0].1 > PHOTOMETRIC_MIN_SIMILARITY {
        Some(sorted[0].0)
    } else {
        None
    }
}

/// The number of inliers, or none where too few correspondences were estimated.
pub open spec fn rating_of(inliers: Seq<bool>) -> u64 {
    if inliers.len() < MIN_CORRESPONDENCES {
        0
    } else {
        inliers.filter(|b: bool| b).len() as u64
    }
}

proof fn lemma_insert_by_score_props(s: Seq<(usize, u64)>, x: (usize, u64))
    ensures
        insert_by_score(s, x).len() == s.len() + 1,
        forall|y: (usize, u64)| #[trigger]
            insert_by_score(s, x).contains(y) <==> (s.contains(y) || y == x),
        is_score_sorted(s) ==> is_score_sorted(insert_by_score(s, x)),
    decreases s.len(),
{
    if s.len() == 0 {
        assert forall|y: (usize, u64)| #[trigger]
            insert_by_score(s, x).contains(y) <==> (s.contains(y) || y == x) by {
            assert(insert_by_score(s, x)[0] == x);
        }
    } else if s.last().1 >= x.1 {
        let r = s.push(x);
        assert forall|y: (usize, u64)| #[trigger] r.contains(y) <==> (s.contains(y) || y == x) by {
            if r.contains(y) {
                let k = choose|k: int| 0 <= k < r.len() && r[k] == y;
                if k < s.len() {
                    assert(s[k] == y);
                }
            }
            if s.contains(y) {
                let k = choose|k: int| 0 <= k < s.len() && s[k] == y;
                assert(r[k] == y);
            }
            assert(r[s.len() as int] == x);
        }
    } else {
        let d = s.drop_last();
        let t = insert_by_score(d, x);
        lemma_insert_by_score_props(d, x);
        let r = t.push(s.last());
        assert forall|y: (usize, u64)| #[trigger] r.contains(y) <==> (s.contains(y) || y == x) by {
            if r.contains(y) {
                let k = choose|k: int| 0 <= k < r.len() && r[k] == y;
                if k < t.len() {
                    assert(t[k] == y);
                    assert(t.contains(y));
                    if d.contains(y) {
                        let j = choose|j: int| 0 <= j < d.len() && d[j] == y;
                        assert(s[j] == y);
                    }
                } else {
                    assert(s[s.len() - 1] == y);
                }
            }
            if s.contains(y) {
                let k = choose|k: int| 0 <= k < s.len() && s[k] == y;
                if k < d.len() {
                    assert(d[k] == y);
                    assert(insert_by_score(d, x).contains(y));
                    let j = choose|j: int| 0 <= j < t.len() && t[j] == y;
                    assert(r[j] == y);
                } else {
                    assert(r[t.len() as int] == y);
                }
            }
            if y == x {
                assert(insert_by_score(d, x).contains(x));
                let j = choose|j: int| 0 <= j < t.len() && t[j] == x;
                assert(r[j] == y);
            }
        }
        if is_score_sorted(s) {
            assert(is_score_sorted(d));
            assert forall|i: int, j: int| 0 <= i < j < r.len() implies r[i].1 >= r[j].1 by {
                if j == r.len() - 1 && i < t.len() {
                    assert(t.contains(t[i]));
                    if d.contains(t[i]) {
                        let k = choose|k: int| 0 <= k < d.len() && d[k] == t[i];
                        assert(s[k] == t[i]);
                    }
                }
            }
        }
    }
}

proof fn lemma_insert_by_score_at(s: Seq<(usize, u64)>, x: (usize, u64), p: int)
    requires
        is_score_sorted(s),
        0 <= p <= s.len(),
        forall|k: int| 0 <= k < p ==> s[k].1 >= x.1,
        p < s.len() ==> s[p].1 < x.1,
    ensures
        insert_by_score(s, x) == s.insert(p, x),
    decreases s.len(),
{
    if s.len() == 0 {
        assert(s.insert(p, x) =~= seq![x]);
    } else if s.last().1 >= x.1 {
        assert(p == s.len());
        assert(s.insert(p, x) =~= s.push(x));
    } else {
        let d = s.drop_last();
        assert(p < s.len());
        lemma_insert_by_score_at(d, x, p);
        assert(s.insert(p, x) =~= d.insert(p, x).push(s.last()));
    }
}

/// The descending sort keeps length and elements and is sorted.
pub proof fn lemma_sort_by_score_props(s: Seq<(usize, u64)>)
    ensures
        sort_by_score(s).len() == s.len(),
        is_score_sorted(sort_by_score(s)),
        forall|y: (usize, u64)| #[trigger] sort_by_score(s).contains(y) <==> s.contains(y),
    decreases s.len(),
{
    if s.len() > 0 {
        let d = s.drop_last();
        lemma_sort_by_score_props(d);
        lemma_insert_by_score_props(sort_by_score(d), s.last());
        assert forall|y: (usize, u64)| #[trigger] sort_by_score(s).contains(y) <==> s.contains(
            y,
        ) by {
            if d.contains(y) {
                let k = choose|k: int| 0 <= k < d.len() && d[k] == y;
                assert(s[k] == y);
            }
            if s.contains(y) {
                let k = choose|k: int| 0 <= k < s.len() && s[k] == y;
                if k < d.len() {
                    assert(d[k] == y);
                }
            }
        }
    } else {
        assert(sort_by_score(s) =~= s);
    }
}

/// Sorts (page, score) pairs by descending score; equal scores keep their order.
pub fn sort_scored(v: &Vec<(usize, u64)>) -> (r: Vec<(usize, u64)>)
    ensures
        r@ == sort_by_score(v@),
{
    let mut r: Vec<(usize, u64)> = Vec::new();
    let mut i: usize = 0;
    while i < v.len()
        invariant
            0 <= i <= v.len(),
            r@ == sort_by_score(v@.take(i as int)),
        decreases v.len() - i,
    {
        let x = v[i];
        proof {
            lemma_sort_by_score_props(v@.take(i as int));
        }
        let mut p: usize = 0;
        while p < r.len() && r[p].1 >= x.1
            invariant
                p <= r.len(),
                forall|k: int| 0 <= k < p ==> r@[k].1 >= x.1,
            decreases r.len() - p,
        {
            p += 1;
        }
        proof {
            lemma_insert_by_score_at(r@, x, p as int);
            assert(v@.take(i + 1).drop_last() =~= v@.take(i as int));
        }
        r.insert(p, x);
        i += 1;
    }
    assert(v@.take(v.len() as int) =~= v@);
    r
}

/// The hits of one query whose distance is within five percent of the query's
/// best distance.
pub fn near_best_matches(row: &Vec<KeyedDMatch>) -> (r: Vec<KeyedDMatch>)
    ensures
        r@ == keep_near(row@, min_distance(row@)),
{
    let mut best: u32 = 0;
    let mut i: usize = 0;
    while i < row.len()
        invariant
            0 <= i <= row.len(),
            best == min_distance(row@.take(i as int)),
        decreases row.len() - i,
    {
        proof {
            assert(row@.take(i + 1).drop_last() =~= row@.take(i as int));
        }
        if i == 0 || row[i].distance <= best {
            best = row[i].distance;
        }
        i += 1;
    }
    assert(row@.take(row.len() as int) =~= row@);
    let mut r: Vec<KeyedDMatch> = Vec::new();
    let mut j: usize = 0;
    while j < row.len()
        invariant
            0 <= j <= row.len(),
            best == min_distance(row@),
            r@ == keep_near(row@.take(j as int), best),
        decreases row.len() - j,
    {
        proof {
            assert(row@.take(j + 1).drop_last() =~= row@.take(j as int));
        }
        let m = row[j];
        if 20 * (m.distance as u64) <= 21 * (best as u64) {
            r.push(m);
        }
        j += 1;
    }
    r
}

/// Groups the near-best hits of all queries by candidate page: entry `p` of the
/// result holds the hits on page `p`, in query order.
pub fn group_near_matches(knn: &Vec<Vec<KeyedDMatch>>, page_count: usize) -> (r: Vec<
    Vec<KeyedDMatch>,
>)
    ensures
        r@.len() == page_count,
        forall|p: int|
            0 <= p < page_count ==> (#[trigger] r@[p])@ == matches_of_page(
                near_matches(knn@.map_values(|row: Vec<KeyedDMatch>| row@)),
                p as usize,
            ),
{
    let ghost rows = knn@.map_values(|row: Vec<KeyedDMatch>| row@);
    let mut near: Vec<KeyedDMatch> = Vec::new();
    let mut i: usize = 0;
    while i < knn.len()
        invariant
            0 <= i <= knn.len(),
            rows == knn@.map_values(|row: Vec<KeyedDMatch>| row@),
            near@ == near_matches(rows.take(i as int)),
        decreases knn.len() - i,
    {
        let kept = near_best_matches(&knn[i]);
        proof {
            assert(rows.take(i + 1).drop_last() =~= rows.take(i as int));
            assert(rows.take(i + 1).last() == knn@[i as int]@);
        }
        let mut j: usize = 0;
        let ghost start = near@;
        while j < kept.len()
            invariant
                0 <= j <= kept.len(),
                near@ == start + kept@.take(j as int),
            decreases kept.len() - j,
        {
            near.push(kept[j]);
            proof {
                assert(start + kept@.take(j + 1) =~= (start + kept@.take(j as int)).push(kept@[j as int]));
            }
            j += 1;
        }
        assert(kept@.take(kept.len() as int) =~= kept@);
        i += 1;
    }
    assert(rows.take(knn.len() as int) =~= rows);
    let mut r: Vec<Vec<KeyedDMatch>> = Vec::new();
    let mut p: usize = 0;
    while p < page_count
        invariant
            0 <= p <= page_count,
            r@.len() == p,
            near@ == near_matches(rows),
            forall|q: int| 0 <= q < p ==> (#[trigger] r@[q])@ == matches_of_page(near@, q as usize),
        decreases page_count - p,
    {
        let mut bucket: Vec<KeyedDMatch> = Vec::new();
        let mut k: usize = 0;
        while k < near.len()
            invariant
                0 <= k <= near.len(),
                bucket@ == matches_of_page(near@.take(k as int), p),
            decreases near.len() - k,
        {
            proof {
                assert(near@.take(k + 1).drop_last() =~= near@.take(k as int));
            }
            if near[k].source == p {
                bucket.push(near[k]);
            }
            k += 1;
        }
        assert(near@.take(near.len() as int) =~= near@);
        r.push(bucket);
        p += 1;
    }
    r
}

/// The candidate pages worth a geometric check: those with hits, by descending
/// number of hits (lower page first among equals), at most forty.
pub fn rank_candidates(buckets: &Vec<Vec<KeyedDMatch>>) -> (r: Vec<usize>)
    ensures
        r@ == ranked_candidates(buckets@.map_values(|b: Vec<KeyedDMatch>| b@)),
{
    let ghost bs = buckets@.map_values(|b: Vec<KeyedDMatch>| b@);
    let mut counts: Vec<(usize, u64)> = Vec::new();
    let mut p: usize = 0;
    while p < buckets.len()
        invariant
            0 <= p <= buckets.len(),
            bs == buckets@.map_values(|b: Vec<KeyedDMatch>| b@),
            counts@ == match_counts(bs.take(p as int)),
        decreases buckets.len() - p,
    {
        proof {
            assert(bs.take(p + 1).drop_last() =~= bs.take(p as int));
            assert(bs.take(p + 1).last() == buckets@[p as int]@);
        }
        let n = buckets[p].len();
        if n > 0 {
            counts.push((p, n as u64));
        }
        p += 1;
    }
    assert(bs.take(buckets.len() as int) =~= bs);
    let sorted = sort_scored(&counts);
    proof {
        lemma_sort_by_score_props(counts@);
    }
    let n = if sorted.len() < MAX_RANKED_CANDIDATES {
        sorted.len()
    } else {
        MAX_RANKED_CANDIDATES
    };
    let mut r: Vec<usize> = Vec::new();
    let mut i: usize = 0;
    while i < n
        invariant
            0 <= i <= n,
            n <= sorted.len(),
            r@ == sorted@.take(i as int).map_values(|x: (usize, u64)| x.0),
        decreases n - i,
    {
        r.push(sorted[i].0);
        proof {
            assert(sorted@.take(i + 1).map_values(|x: (usize, u64)| x.0) =~= sorted@.take(
                i as int,
            ).map_values(|x: (usize, u64)| x.0).push(sorted@[i as int].0));
        }
        i += 1;
    }
    r
}

/// The geometric rating of a candidate from the inlier flags of its affine
/// estimation: the number of inliers, or zero where fewer correspondences than
/// an estimation needs were given.
pub fn count_inliers(inliers: &Vec<bool>) -> (r: u64)
    ensures
        r == rating_of(inliers@),
{
    if inliers.len() < MIN_CORRESPONDENCES {
        return 0;
    }
    let mut n: u64 = 0;
    let mut i: usize = 0;
    while i < inliers.len()
        invariant
            0 <= i <= inliers.len(),
            n == inliers@.take(i as int).filter(|b: bool| b).len(),
            n <= i,
        decreases inliers.len() - i,
    {
        proof {
            let s = inliers@.take(i + 1);
            assert(s.drop_last() =~= inliers@.take(i as int));
            s.lemma_filter_push(s.last(), |b: bool| b);
        }
        proof {
            assert(inliers@.take(i + 1) =~= inliers@.take(i as int).push(inliers@[i as int]));
            inliers@.take(i as int).lemma_filter_push(inliers@[i as int], |b: bool| b);
        }
        if inliers[i] {
            n += 1;
        }
        i += 1;
    }
    assert(inliers@.take(inliers.len() as int) =~= inliers@);
    n
}

proof fn lemma_keep_competitive(s: Seq<(usize, u64)>, best: u64)
    ensures
        keep_competitive(s, best).len() <= s.len(),
        forall|i: int|
            0 <= i < keep_competitive(s, best).len() ==> is_competitive(
                #[trigger] keep_competitive(s, best)[i].1,
                best,
            ) && s.contains(keep_competitive(s, best)[i]),
    decreases s.len(),
{
    if s.len() > 0 {
        let d = s.drop_last();
        lemma_keep_competitive(d, best);
        let k = keep_competitive(d, best);
        assert forall|i: int| 0 <= i < k.len() implies s.contains(k[i]) by {
            assert(is_competitive(k[i].1, best) && d.contains(k[i]));
            let j = choose|j: int| 0 <= j < d.len() && d[j] == k[i];
            assert(s[j] == k[i]);
        }
        if is_competitive(s.last().1, best) {
            let r = k.push(s.last());
            assert forall|i: int| 0 <= i < r.len() implies is_competitive(#[trigger] r[i].1, best)
                && s.contains(r[i]) by {
                if i < k.len() {
                    assert(r[i] == k[i]);
                    assert(is_competitive(k[i].1, best) && s.contains(k[i]));
                } else {
                    assert(s[s.len() - 1] == r[i]);
                }
            }
        }
    }
}

/// Keeps the candidates that pass the geometric check: of the ten best rated,
/// those rated above fifty and at least a fifth of the best rating, best first.
pub fn select_geometric(rated: &Vec<(usize, u64)>) -> (r: Vec<(usize, u64)>)
    ensures
        r@ == geometric_survivors(rated@),
        r@.len() <= MAX_RATED_CANDIDATES,
        forall|i: int|
            0 <= i < r@.len() ==> (#[trigger] r@[i]).1 > GEOMETRIC_MIN_RATING && rated@.contains(
                r@[i],
            ),
{
    let sorted = sort_scored(rated);
    proof {
        lemma_sort_by_score_props(rated@);
    }
    let mut top: Vec<(usize, u64)> = Vec::new();
    let mut i: usize = 0;
    while i < sorted.len() && i < MAX_RATED_CANDIDATES
        invariant
            0 <= i <= sorted.len(),
            i <= MAX_RATED_CANDIDATES,
            top@ == sorted@.take(i as int),
        decreases sorted.len() - i,
    {
        top.push(sorted[i]);
        proof {
            assert(sorted@.take(i + 1) =~= sorted@.take(i as int).push(sorted@[i as int]));
        }
        i += 1;
    }
    proof {
        if sorted.len() < MAX_RATED_CANDIDATES {
            assert(sorted@.take(sorted.len() as int) =~= sorted@);
        }
    }
    let best: u64 = if top.len() > 0 {
        top[0].1
    } else {
        0
    };
    let mut r: Vec<(usize, u64)> = Vec::new();
    let mut j: usize = 0;
    while j < top.len()
        invariant
            0 <= j <= top.len(),
            r@ == keep_competitive(top@.take(j as int), best),
        decreases top.len() - j,
    {
        proof {
            assert(top@.take(j + 1).drop_last() =~= top@.take(j as int));
        }
        let x = top[j];
        if x.1 > GEOMETRIC_MIN_RATING && 5 * (x.1 as u128) >= best as u128 {
            r.push(x);
        }
        j += 1;
    }
    assert(top@.take(top.len() as int) =~= top@);
    proof {
        lemma_keep_competitive(top@, best);
        assert forall|i: int| 0 <= i < r@.len() implies rated@.contains(#[trigger] r@[i]) by {
            assert(keep_competitive(top@, best)[i] == r@[i]);
            assert(is_competitive(keep_competitive(top@, best)[i].1, best));
            assert(top@.contains(r@[i]));
            let k = choose|k: int| 0 <= k < top@.len() && top@[k] == r@[i];
            assert(sorted@[k] == r@[i]);
            assert(sorted@.contains(r@[i]));
        }
    }
    r
}

/// Picks the page by photometric similarity (in parts per billion): the most
/// similar candidate, the first of equals, if its similarity is above one half.
pub fn select_photometric(similarities: &Vec<(usize, u64)>) -> (r: Option<usize>)
    ensures
        r == photometric_choice(similarities@),
        r is None <==> forall|i: int|
            0 <= i < similarities@.len() ==> (#[trigger] similarities@[i]).1
                <= PHOTOMETRIC_MIN_SIMILARITY,
        r is Some ==> exists|i: int|
            0 <= i < similarities@.len() && (#[trigger] similarities@[i]).0 == r->0
                && similarities@[i].1 > PHOTOMETRIC_MIN_SIMILARITY,
{
    let sorted = sort_scored(similarities);
    proof {
        lemma_sort_by_score_props(similarities@);
        let t = sort_by_score(similarities@);
        if t.len() > 0 {
            assert(t.contains(t[0]));
            let k = choose|k: int| 0 <= k < similarities@.len() && similarities@[k] == t[0];
            assert forall|i: int| 0 <= i < similarities@.len() implies (
            #[trigger] similarities@[i]).1 <= t[0].1 by {
                assert(similarities@.contains(similarities@[i]));
                assert(t.contains(similarities@[i]));
                let j = choose|j: int| 0 <= j < t.len() && t[j] == similarities@[i];
                if j > 0 {
                    assert(t[0].1 >= t[j].1);
                }
            }
            if t[0].1 > PHOTOMETRIC_MIN_SIMILARITY {
                assert(similarities@[k].0 == t[0].0);
            }
        }
    }
    if sorted.len() > 0 && sorted[0].1 > PHOTOMETRIC_MIN_SIMILARITY {
        Some(sorted[0].0)
    } else {
        None
    }
}

} // verus!
