use vstd::prelude::*;

use crate::glue::{
    continued, count_next, count_prev, ended, fresh_track, glue_spec, glue_upto, last_next, new_tracks,
    pad_tracks, step_ok, ActiveView,
};
use crate::ids::{ids_link, IdView, PairView};

verus! {

/// Entry `j` of a track names an existing element of slide `j`, if any.
pub open spec fn entry_in_range(slides: Seq<Seq<PairView>>, t: Seq<Option<usize>>, j: int) -> bool {
    t[j] matches Some(e) ==> (e as int) < slides[j].len()
}

/// The passage of a track from slide `j` to slide `j + 1` follows the IDs: two
/// consecutive elements are linked, a track ends only where nothing on the next
/// slide continues its element, and starts only where nothing on the previous
/// slide leads to its element.
pub open spec fn step_consistent(slides: Seq<Seq<PairView>>, t: Seq<Option<usize>>, j: int) -> bool {
    match (t[j], t[j + 1]) {
        (Some(p), Some(e)) => ids_link(slides[j][p as int].1, slides[j + 1][e as int].0),
        (Some(p), None) => forall|e: int|
            0 <= e < slides[j + 1].len() ==> !ids_link(
                slides[j][p as int].1,
                #[trigger] slides[j + 1][e].0,
            ),
        (None, Some(e)) => forall|p: int|
            0 <= p < slides[j].len() ==> !ids_link(
                #[trigger] slides[j][p].1,
                slides[j + 1][e as int].0,
            ),
        (None, None) => true,
    }
}

/// A track over the first `i` slides that follows the IDs between every two
/// consecutive slides.
pub open spec fn good_track(slides: Seq<Seq<PairView>>, i: int, t: Seq<Option<usize>>) -> bool {
    &&& t.len() == i
    &&& forall|j: int| 0 <= j < i ==> #[trigger] entry_in_range(slides, t, j)
    &&& forall|j: int| 0 <= j && j + 1 < i ==> #[trigger] step_consistent(slides, t, j)
}

/// How many tracks have the element `e` of slide `j`.
pub open spec fn holders(tracks: Seq<Seq<Option<usize>>>, j: int, e: int) -> nat
    decreases tracks.len(),
{
    if tracks.len() == 0 {
        0
    } else {
        holders(tracks.drop_last(), j, e) + if tracks.last()[j] == Some(e as usize) {
            1nat
        } else {
            0nat
        }
    }
}

/// Some track holds the element `e` of slide `j`.
pub open spec fn on_some_track(tracks: Seq<Seq<Option<usize>>>, j: int, e: int) -> bool {
    exists|k: int| 0 <= k < tracks.len() && #[trigger] tracks[k][j] == Some(e as usize)
}

/// No element of `prev` hands on the ID that `from` asks for.
pub open spec fn no_link_into(prev: Seq<PairView>, from: Option<IdView>) -> bool {
    forall|p: int| 0 <= p < prev.len() ==> !ids_link(#[trigger] prev[p].1, from)
}

proof fn lemma_holders_concat(a: Seq<Seq<Option<usize>>>, b: Seq<Seq<Option<usize>>>, j: int, e: int)
    ensures
        holders(a + b, j, e) == holders(a, j, e) + holders(b, j, e),
    decreases b.len(),
{
    if b.len() == 0 {
        assert(a + b =~= a);
    } else {
        lemma_holders_concat(a, b.drop_last(), j, e);
        assert((a + b).drop_last() =~= a + b.drop_last());
        assert((a + b).last() == b.last());
    }
}

proof fn lemma_holders_witness(t: Seq<Seq<Option<usize>>>, j: int, e: int) -> (k: int)
    requires
        holders(t, j, e) >= 1,
    ensures
        0 <= k < t.len(),
        t[k][j] == Some(e as usize),
    decreases t.len(),
{
    if t.last()[j] == Some(e as usize) {
        t.len() - 1
    } else {
        let k = lemma_holders_witness(t.drop_last(), j, e);
        k
    }
}

proof fn lemma_holders_unique(t: Seq<Seq<Option<usize>>>, j: int, e: int, k1: int, k2: int)
    requires
        holders(t, j, e) <= 1,
        0 <= k1 < t.len(),
        0 <= k2 < t.len(),
        t[k1][j] == Some(e as usize),
        t[k2][j] == Some(e as usize),
    ensures
        k1 == k2,
    decreases t.len(),
{
    let last = t.len() - 1;
    if k1 != last && k2 != last {
        lemma_holders_unique(t.drop_last(), j, e, k1, k2);
    } else if k1 != k2 {
        let other = if k1 == last { k2 } else { k1 };
        lemma_holders_at_least(t.drop_last(), j, e, other);
    }
}

proof fn lemma_holders_at_least(t: Seq<Seq<Option<usize>>>, j: int, e: int, k: int)
    requires
        0 <= k < t.len(),
        t[k][j] == Some(e as usize),
    ensures
        holders(t, j, e) >= 1,
    decreases t.len(),
{
    if k != t.len() - 1 {
        lemma_holders_at_least(t.drop_last(), j, e, k);
    }
}

proof fn lemma_count_next_zero(slide: Seq<PairView>, to: Option<IdView>, k: int, e: int)
    requires
        count_next(slide, to, k) == 0,
        0 <= e < k,
    ensures
        !ids_link(to, slide[e].0),
    decreases k,
{
    if e < k - 1 {
        lemma_count_next_zero(slide, to, k - 1, e);
    }
}

proof fn lemma_last_next_links(slide: Seq<PairView>, to: Option<IdView>, k: int)
    requires
        count_next(slide, to, k) >= 1,
    ensures
        0 <= last_next(slide, to, k) < k,
        ids_link(to, slide[last_next(slide, to, k)].0),
    decreases k,
{
    if !ids_link(to, slide[k - 1].0) {
        lemma_last_next_links(slide, to, k - 1);
    }
}

proof fn lemma_count_next_two(slide: Seq<PairView>, to: Option<IdView>, k: int, e1: int, e2: int)
    requires
        0 <= e1 < k,
        0 <= e2 < k,
        e1 != e2,
        ids_link(to, slide[e1].0),
        ids_link(to, slide[e2].0),
    ensures
        count_next(slide, to, k) >= 2,
    decreases k,
{
    if e1 == k - 1 {
        lemma_count_next_one(slide, to, k - 1, e2);
    } else if e2 == k - 1 {
        lemma_count_next_one(slide, to, k - 1, e1);
    } else {
        lemma_count_next_two(slide, to, k - 1, e1, e2);
    }
}

proof fn lemma_count_next_one(slide: Seq<PairView>, to: Option<IdView>, k: int, e: int)
    requires
        0 <= e < k,
        ids_link(to, slide[e].0),
    ensures
        count_next(slide, to, k) >= 1,
    decreases k,
{
    if e < k - 1 {
        lemma_count_next_one(slide, to, k - 1, e);
    }
}

proof fn lemma_count_prev_one(active: Seq<ActiveView>, from: Option<IdView>, k: int, m: int)
    requires
        0 <= m < k,
        ids_link(active[m].0, from),
    ensures
        count_prev(active, from, k) >= 1,
    decreases k,
{
    if m < k - 1 {
        lemma_count_prev_one(active, from, k - 1, m);
    }
}

/// With at most one match per open track, the open track `a` is continued by element
/// `e` exactly when it links to it.
proof fn lemma_continues_iff_links(slide: Seq<PairView>, to: Option<IdView>, e: int)
    requires
        count_next(slide, to, slide.len() as int) <= 1,
        0 <= e < slide.len(),
    ensures
        (count_next(slide, to, slide.len() as int) == 1 && last_next(slide, to, slide.len() as int)
            == e) <==> ids_link(to, slide[e].0),
{
    let n = slide.len() as int;
    if ids_link(to, slide[e].0) {
        lemma_count_next_one(slide, to, n, e);
        lemma_last_next_links(slide, to, n);
        let j = last_next(slide, to, n);
        if j != e {
            lemma_count_next_two(slide, to, n, e, j);
        }
    }
    if count_next(slide, to, n) == 1 && last_next(slide, to, n) == e {
        lemma_last_next_links(slide, to, n);
    }
}

/// Every slide has at most as many elements as a `usize` can count.
pub open spec fn slides_fit(slides: Seq<Seq<PairView>>) -> bool {
    forall|i: int| 0 <= i < slides.len() ==> #[trigger] slides[i].len() <= usize::MAX
}

/// An open track after the first `i` slides: it follows the IDs and ends at an
/// element of slide `i - 1` whose `to` ID it hands on.
pub open spec fn open_track_ok(slides: Seq<Seq<PairView>>, i: int, x: ActiveView) -> bool {
    &&& good_track(slides, i, x.1)
    &&& i >= 1
    &&& x.1[i - 1] is Some
    &&& x.0 == slides[i - 1][x.1[i - 1].unwrap() as int].1
}

pub open spec fn all_tracks(finished: Seq<Seq<Option<usize>>>, active: Seq<ActiveView>) -> Seq<
    Seq<Option<usize>>,
> {
    finished + active.map_values(|x: ActiveView| x.1)
}

/// What holds of the closed and open tracks after the first `i` slides.
pub open spec fn glue_inv(
    slides: Seq<Seq<PairView>>,
    i: int,
    finished: Seq<Seq<Option<usize>>>,
    active: Seq<ActiveView>,
) -> bool {
    &&& 0 <= i <= slides.len()
    &&& (i == 0 ==> finished.len() == 0 && active.len() == 0)
    &&& forall|k: int|
        0 <= k < finished.len() ==> good_track(slides, i, #[trigger] finished[k]) && (i >= 1
            ==> finished[k][i - 1] is None)
    &&& forall|m: int| 0 <= m < active.len() ==> open_track_ok(slides, i, #[trigger] active[m])
    &&& forall|j: int, e: int|
        0 <= j < i && 0 <= e < slides[j].len() ==> #[trigger] holders(
            all_tracks(finished, active),
            j,
            e,
        ) == 1
}

proof fn lemma_good_push(slides: Seq<Seq<PairView>>, i: int, t: Seq<Option<usize>>, x: Option<usize>)
    requires
        0 <= i < slides.len(),
        good_track(slides, i, t),
        entry_in_range(slides, t.push(x), i),
        i >= 1 ==> step_consistent(slides, t.push(x), i - 1),
    ensures
        good_track(slides, i + 1, t.push(x)),
{
    let u = t.push(x);
    assert forall|j: int| 0 <= j < i + 1 implies #[trigger] entry_in_range(slides, u, j) by {
        if j < i {
            assert(u[j] == t[j]);
            assert(entry_in_range(slides, t, j));
        }
    }
    assert forall|j: int| 0 <= j && j + 1 < i + 1 implies #[trigger] step_consistent(slides, u, j) by {
        if j + 1 < i {
            assert(u[j] == t[j]);
            assert(u[j + 1] == t[j + 1]);
            assert(step_consistent(slides, t, j));
        }
    }
}

proof fn lemma_empty_track_good(slides: Seq<Seq<PairView>>, i: int)
    requires
        0 <= i <= slides.len(),
    ensures
        good_track(slides, i, Seq::new(i as nat, |_j: int| None::<usize>)),
{
    let t = Seq::new(i as nat, |_j: int| None::<usize>);
    assert forall|j: int| 0 <= j < i implies #[trigger] entry_in_range(slides, t, j) by {}
    assert forall|j: int| 0 <= j && j + 1 < i implies #[trigger] step_consistent(slides, t, j) by {
        assert(t[j] is None);
        assert(t[j + 1] is None);
    }
}

proof fn lemma_pad_good(slides: Seq<Seq<PairView>>, i: int, f: Seq<Seq<Option<usize>>>)
    requires
        0 <= i < slides.len(),
        forall|k: int|
            0 <= k < f.len() ==> good_track(slides, i, #[trigger] f[k]) && (i >= 1 ==> f[k][i
                - 1] is None),
    ensures
        forall|k: int|
            0 <= k < pad_tracks(f).len() ==> good_track(slides, i + 1, #[trigger] pad_tracks(f)[k])
                && pad_tracks(f)[k][i] is None,
{
    assert forall|k: int| 0 <= k < pad_tracks(f).len() implies good_track(
        slides,
        i + 1,
        #[trigger] pad_tracks(f)[k],
    ) && pad_tracks(f)[k][i] is None by {
        assert(pad_tracks(f)[k] == f[k].push(None));
        assert(good_track(slides, i, f[k]));
        if i >= 1 {
            assert(f[k].push(None)[i - 1] is None);
        }
        lemma_good_push(slides, i, f[k], None);
    }
}

proof fn lemma_ended_good(slides: Seq<Seq<PairView>>, i: int, a: Seq<ActiveView>, k: int)
    requires
        slides_fit(slides),
        0 <= i < slides.len(),
        0 <= k <= a.len(),
        forall|m: int| 0 <= m < a.len() ==> open_track_ok(slides, i, #[trigger] a[m]),
    ensures
        forall|q: int|
            0 <= q < ended(a, slides[i], k).len() ==> good_track(
                slides,
                i + 1,
                #[trigger] ended(a, slides[i], k)[q],
            ) && ended(a, slides[i], k)[q][i] is None,
    decreases k,
{
    if k > 0 {
        lemma_ended_good(slides, i, a, k - 1);
        let sl = slides[i];
        let x = a[k - 1];
        if count_next(sl, x.0, sl.len() as int) == 0 {
            assert(open_track_ok(slides, i, x));
            let t = x.1.push(None);
            let p = x.1[i - 1].unwrap() as int;
            assert(t[i - 1] == Some(p as usize));
            assert forall|e: int| 0 <= e < slides[i].len() implies !ids_link(
                slides[i - 1][p].1,
                #[trigger] slides[i][e].0,
            ) by {
                lemma_count_next_zero(sl, x.0, sl.len() as int, e);
            }
            assert(step_consistent(slides, t, i - 1));
            lemma_good_push(slides, i, x.1, None);
            let prev = ended(a, sl, k - 1);
            assert(ended(a, sl, k) == prev + seq![t]);
            assert forall|q: int| 0 <= q < ended(a, sl, k).len() implies good_track(
                slides,
                i + 1,
                #[trigger] ended(a, sl, k)[q],
            ) && ended(a, sl, k)[q][i] is None by {
                if q < prev.len() {
                    assert(ended(a, sl, k)[q] == prev[q]);
                } else {
                    assert(ended(a, sl, k)[q] == t);
                }
            }
        } else {
            assert(ended(a, sl, k) == ended(a, sl, k - 1));
        }
    }
}

proof fn lemma_continued_good(slides: Seq<Seq<PairView>>, i: int, a: Seq<ActiveView>, k: int)
    requires
        slides_fit(slides),
        0 <= i < slides.len(),
        0 <= k <= a.len(),
        forall|m: int| 0 <= m < a.len() ==> open_track_ok(slides, i, #[trigger] a[m]),
    ensures
        forall|q: int|
            0 <= q < continued(a, slides[i], k).len() ==> open_track_ok(
                slides,
                i + 1,
                #[trigger] continued(a, slides[i], k)[q],
            ),
    decreases k,
{
    if k > 0 {
        lemma_continued_good(slides, i, a, k - 1);
        let sl = slides[i];
        let x = a[k - 1];
        if count_next(sl, x.0, sl.len() as int) == 1 {
            assert(open_track_ok(slides, i, x));
            lemma_last_next_links(sl, x.0, sl.len() as int);
            let j = last_next(sl, x.0, sl.len() as int);
            let t = x.1.push(Some(j as usize));
            let p = x.1[i - 1].unwrap() as int;
            assert(t[i - 1] == Some(p as usize));
            assert(t[i] == Some(j as usize));
            assert(step_consistent(slides, t, i - 1));
            assert(entry_in_range(slides, t, i));
            lemma_good_push(slides, i, x.1, Some(j as usize));
            let y = (sl[j].1, t);
            assert(open_track_ok(slides, i + 1, y));
            let prev = continued(a, sl, k - 1);
            assert(continued(a, sl, k) == prev + seq![y]);
            assert forall|q: int| 0 <= q < continued(a, sl, k).len() implies open_track_ok(
                slides,
                i + 1,
                #[trigger] continued(a, sl, k)[q],
            ) by {
                if q < prev.len() {
                    assert(continued(a, sl, k)[q] == prev[q]);
                } else {
                    assert(continued(a, sl, k)[q] == y);
                }
            }
        } else {
            assert(continued(a, sl, k) == continued(a, sl, k - 1));
        }
    }
}

proof fn lemma_new_good(slides: Seq<Seq<PairView>>, i: int, a: Seq<ActiveView>, k: int)
    requires
        slides_fit(slides),
        0 <= i < slides.len(),
        0 <= k <= slides[i].len(),
        i == 0 ==> a.len() == 0,
        forall|e: int|
            0 <= e < slides[i].len() && count_prev(a, #[trigger] slides[i][e].0, a.len() as int)
                == 0 && i >= 1 ==> no_link_into(slides[i - 1], slides[i][e].0),
    ensures
        forall|q: int|
            0 <= q < new_tracks(a, slides[i], i as nat, k).len() ==> open_track_ok(
                slides,
                i + 1,
                #[trigger] new_tracks(a, slides[i], i as nat, k)[q],
            ),
    decreases k,
{
    if k > 0 {
        lemma_new_good(slides, i, a, k - 1);
        let sl = slides[i];
        let e = k - 1;
        if count_prev(a, sl[e].0, a.len() as int) == 0 {
            let z = Seq::new(i as nat, |_j: int| None::<usize>);
            lemma_empty_track_good(slides, i);
            let t = fresh_track(i as nat, e);
            assert(t == z.push(Some(e as usize)));
            assert(t[i] == Some(e as usize));
            assert(entry_in_range(slides, t, i));
            if i >= 1 {
                assert(t[i - 1] is None);
                assert(no_link_into(slides[i - 1], sl[e].0));
                assert(step_consistent(slides, t, i - 1));
            }
            lemma_good_push(slides, i, z, Some(e as usize));
            let y = (sl[e].1, t);
            assert(open_track_ok(slides, i + 1, y));
            let prev = new_tracks(a, sl, i as nat, k - 1);
            assert(new_tracks(a, sl, i as nat, k) == prev + seq![y]);
            assert forall|q: int| 0 <= q < new_tracks(a, sl, i as nat, k).len() implies open_track_ok(
                slides,
                i + 1,
                #[trigger] new_tracks(a, sl, i as nat, k)[q],
            ) by {
                if q < prev.len() {
                    assert(new_tracks(a, sl, i as nat, k)[q] == prev[q]);
                } else {
                    assert(new_tracks(a, sl, i as nat, k)[q] == y);
                }
            }
        } else {
            assert(new_tracks(a, sl, i as nat, k) == new_tracks(a, sl, i as nat, k - 1));
        }
    }
}

proof fn lemma_holders_single(t: Seq<Option<usize>>, j: int, e: int)
    ensures
        holders(seq![t], j, e) == if t[j] == Some(e as usize) {
            1nat
        } else {
            0nat
        },
{
    let u = seq![t];
    assert(u.drop_last() =~= Seq::<Seq<Option<usize>>>::empty());
    assert(u.last() == t);
    assert(holders(u.drop_last(), j, e) == 0);
}

proof fn lemma_pad_holders(f: Seq<Seq<Option<usize>>>, i: int, j: int, e: int)
    requires
        forall|k: int| 0 <= k < f.len() ==> (#[trigger] f[k]).len() == i,
        0 <= j <= i,
    ensures
        j < i ==> holders(pad_tracks(f), j, e) == holders(f, j, e),
        j == i ==> holders(pad_tracks(f), j, e) == 0,
    decreases f.len(),
{
    if f.len() > 0 {
        let g = f.drop_last();
        assert(pad_tracks(f).drop_last() =~= pad_tracks(g));
        assert(pad_tracks(f).last() == f.last().push(None));
        assert(f.last() == f[f.len() - 1]);
        lemma_pad_holders(g, i, j, e);
    }
}

proof fn lemma_open_holders(a: Seq<ActiveView>, sl: Seq<PairView>, i: int, k: int, j: int, e: int)
    requires
        forall|m: int| 0 <= m < a.len() ==> (#[trigger] a[m]).1.len() == i,
        forall|m: int| 0 <= m < a.len() ==> count_next(sl, #[trigger] a[m].0, sl.len() as int) <= 1,
        0 <= k <= a.len(),
        0 <= j <= i,
        sl.len() <= usize::MAX,
    ensures
        j < i ==> holders(ended(a, sl, k), j, e) + holders(
            continued(a, sl, k).map_values(|x: ActiveView| x.1),
            j,
            e,
        ) == holders(a.subrange(0, k).map_values(|x: ActiveView| x.1), j, e),
        j == i ==> holders(ended(a, sl, k), j, e) == 0,
        j == i && 0 <= e < sl.len() ==> holders(
            continued(a, sl, k).map_values(|x: ActiveView| x.1),
            j,
            e,
        ) == count_prev(a, sl[e].0, k),
    decreases k,
{
    if k > 0 {
        lemma_open_holders(a, sl, i, k - 1, j, e);
        let x = a[k - 1];
        assert(x.1.len() == i);
        assert(count_next(sl, x.0, sl.len() as int) <= 1);
        if 0 <= e < sl.len() {
            lemma_continues_iff_links(sl, x.0, e);
        }
        let en0 = ended(a, sl, k - 1);
        let co0 = continued(a, sl, k - 1).map_values(|y: ActiveView| y.1);
        let op0 = a.subrange(0, k - 1).map_values(|y: ActiveView| y.1);
        assert(a.subrange(0, k).map_values(|y: ActiveView| y.1) =~= op0 + seq![x.1]);
        lemma_holders_concat(op0, seq![x.1], j, e);
        lemma_holders_single(x.1, j, e);
        let c = count_next(sl, x.0, sl.len() as int);
        if c == 0 {
            assert(ended(a, sl, k) == en0 + seq![x.1.push(None)]);
            lemma_holders_concat(en0, seq![x.1.push(None)], j, e);
            lemma_holders_single(x.1.push(None), j, e);
            assert(continued(a, sl, k) == continued(a, sl, k - 1));
            if j < i {
                assert(x.1.push(None)[j] == x.1[j]);
            }
        } else {
            assert(c == 1);
            lemma_last_next_links(sl, x.0, sl.len() as int);
            let jj = last_next(sl, x.0, sl.len() as int);
            let y = (sl[jj].1, x.1.push(Some(jj as usize)));
            assert(continued(a, sl, k) == continued(a, sl, k - 1) + seq![y]);
            assert(continued(a, sl, k).map_values(|z: ActiveView| z.1) =~= co0 + seq![y.1]);
            lemma_holders_concat(co0, seq![y.1], j, e);
            lemma_holders_single(y.1, j, e);
            assert(ended(a, sl, k) == en0);
            if j < i {
                assert(y.1[j] == x.1[j]);
            } else {
                assert(y.1[j] == Some(jj as usize));
            }
        }
    } else {
        assert(a.subrange(0, 0).map_values(|y: ActiveView| y.1) =~= Seq::<Seq<Option<usize>>>::empty());
        assert(continued(a, sl, 0).map_values(|y: ActiveView| y.1) =~= Seq::<Seq<Option<usize>>>::empty());
    }
}

proof fn lemma_new_holders(a: Seq<ActiveView>, sl: Seq<PairView>, i: int, k: int, j: int, e: int)
    requires
        0 <= k <= sl.len(),
        sl.len() <= usize::MAX,
        0 <= j <= i,
        0 <= e <= usize::MAX,
    ensures
        j < i ==> holders(new_tracks(a, sl, i as nat, k).map_values(|x: ActiveView| x.1), j, e)
            == 0,
        j == i ==> holders(new_tracks(a, sl, i as nat, k).map_values(|x: ActiveView| x.1), j, e)
            == if e < k && count_prev(a, sl[e].0, a.len() as int) == 0 {
            1nat
        } else {
            0nat
        },
    decreases k,
{
    if k > 0 {
        lemma_new_holders(a, sl, i, k - 1, j, e);
        let nw0 = new_tracks(a, sl, i as nat, k - 1).map_values(|x: ActiveView| x.1);
        if count_prev(a, sl[k - 1].0, a.len() as int) == 0 {
            let t = fresh_track(i as nat, k - 1);
            assert(new_tracks(a, sl, i as nat, k).map_values(|x: ActiveView| x.1) =~= nw0 + seq![t]);
            lemma_holders_concat(nw0, seq![t], j, e);
            lemma_holders_single(t, j, e);
            if j < i {
                assert(t[j] is None);
            } else {
                assert(t[j] == Some((k - 1) as usize));
            }
        } else {
            assert(new_tracks(a, sl, i as nat, k) == new_tracks(a, sl, i as nat, k - 1));
        }
    } else {
        assert(new_tracks(a, sl, i as nat, 0).map_values(|x: ActiveView| x.1) =~= Seq::<Seq<Option<usize>>>::empty());
    }
}

/// Elements that continue no open track are reached by no element of the previous slide.
proof fn lemma_unmatched_has_no_source(
    slides: Seq<Seq<PairView>>,
    i: int,
    f: Seq<Seq<Option<usize>>>,
    a: Seq<ActiveView>,
    e: int,
)
    requires
        slides_fit(slides),
        glue_inv(slides, i, f, a),
        1 <= i < slides.len(),
        0 <= e < slides[i].len(),
        count_prev(a, slides[i][e].0, a.len() as int) == 0,
    ensures
        no_link_into(slides[i - 1], slides[i][e].0),
{
    let prev = slides[i - 1];
    let from = slides[i][e].0;
    assert forall|p: int| 0 <= p < prev.len() implies !ids_link(#[trigger] prev[p].1, from) by {
        if ids_link(prev[p].1, from) {
            let t = all_tracks(f, a);
            assert(holders(t, i - 1, p) == 1);
            let k = lemma_holders_witness(t, i - 1, p);
            if k < f.len() {
                assert(t[k] == f[k]);
                assert(f[k][i - 1] is None);
            } else {
                let m = k - f.len();
                assert(t[k] == a[m].1);
                assert(open_track_ok(slides, i, a[m]));
                assert(a[m].1[i - 1] == Some(p as usize));
                lemma_count_prev_one(a, from, a.len() as int, m);
            }
        }
    }
}

/// The invariant holds after every slide that gluing gets through.
proof fn lemma_glue_inv(slides: Seq<Seq<PairView>>, i: int)
    requires
        slides_fit(slides),
        0 <= i <= slides.len(),
        glue_upto(slides, i) is Some,
    ensures
        glue_inv(slides, i, glue_upto(slides, i).unwrap().0, glue_upto(slides, i).unwrap().1),
    decreases i,
{
    if i == 0 {
        let (f, a) = glue_upto(slides, i).unwrap();
        assert(f.len() == 0 && a.len() == 0);
    } else {
        let h = i - 1;
        lemma_glue_inv(slides, h);
        let (f, a) = glue_upto(slides, h).unwrap();
        let sl = slides[h];
        assert(step_ok(a, sl));
        let f2 = pad_tracks(f) + ended(a, sl, a.len() as int);
        let nw = new_tracks(a, sl, h as nat, sl.len() as int);
        let co = continued(a, sl, a.len() as int);
        let a2 = nw + co;
        assert(glue_upto(slides, i) == Some((f2, a2)));
        assert(sl.len() <= usize::MAX);

        // closed tracks
        lemma_pad_good(slides, h, f);
        lemma_ended_good(slides, h, a, a.len() as int);
        assert forall|k: int| 0 <= k < f2.len() implies good_track(slides, i, #[trigger] f2[k])
            && f2[k][i - 1] is None by {
            if k < pad_tracks(f).len() {
                assert(f2[k] == pad_tracks(f)[k]);
            } else {
                assert(f2[k] == ended(a, sl, a.len() as int)[k - pad_tracks(f).len()]);
            }
        }

        // open tracks
        assert forall|e: int|
            0 <= e < slides[h].len() && count_prev(a, #[trigger] slides[h][e].0, a.len() as int)
                == 0 && h >= 1 implies no_link_into(slides[h - 1], slides[h][e].0) by {
            lemma_unmatched_has_no_source(slides, h, f, a, e);
        }
        lemma_new_good(slides, h, a, sl.len() as int);
        lemma_continued_good(slides, h, a, a.len() as int);
        assert forall|m: int| 0 <= m < a2.len() implies open_track_ok(slides, i, #[trigger] a2[m]) by {
            if m < nw.len() {
                assert(a2[m] == nw[m]);
            } else {
                assert(a2[m] == co[m - nw.len()]);
            }
        }

        // every element is held by exactly one track
        assert forall|j: int, e: int|
            0 <= j < i && 0 <= e < slides[j].len() implies #[trigger] holders(
            all_tracks(f2, a2),
            j,
            e,
        ) == 1 by {
            let en = ended(a, sl, a.len() as int);
            let nwm = nw.map_values(|x: ActiveView| x.1);
            let com = co.map_values(|x: ActiveView| x.1);
            assert(all_tracks(f2, a2) =~= pad_tracks(f) + en + nwm + com);
            lemma_holders_concat(pad_tracks(f) + en + nwm, com, j, e);
            lemma_holders_concat(pad_tracks(f) + en, nwm, j, e);
            lemma_holders_concat(pad_tracks(f), en, j, e);
            assert forall|k: int| 0 <= k < f.len() implies (#[trigger] f[k]).len() == h by {
                assert(good_track(slides, h, f[k]));
            }
            assert forall|m: int| 0 <= m < a.len() implies (#[trigger] a[m]).1.len() == h by {
                assert(open_track_ok(slides, h, a[m]));
            }
            lemma_pad_holders(f, h, j, e);
            lemma_open_holders(a, sl, h, a.len() as int, j, e);
            lemma_new_holders(a, sl, h, sl.len() as int, j, e);
            if j < h {
                assert(a.subrange(0, a.len() as int) =~= a);
                lemma_holders_concat(f, a.map_values(|x: ActiveView| x.1), j, e);
                assert(holders(all_tracks(f, a), j, e) == 1);
            } else {
                assert(count_prev(a, sl[e].0, a.len() as int) <= 1);
            }
        }
    }
}

proof fn lemma_element_on_track(slides: Seq<Seq<PairView>>, j: int, e: int)
    requires
        slides_fit(slides),
        glue_spec(slides) is Some,
        0 <= j < slides.len(),
        0 <= e < slides[j].len(),
    ensures
        on_some_track(glue_spec(slides).unwrap(), j, e),
{
    let n = slides.len() as int;
    lemma_glue_inv(slides, n);
    let (f, a) = glue_upto(slides, n).unwrap();
    assert(glue_spec(slides).unwrap() == all_tracks(f, a));
    assert(holders(all_tracks(f, a), j, e) == 1);
    let k = lemma_holders_witness(all_tracks(f, a), j, e);
    assert(glue_spec(slides).unwrap()[k][j] == Some(e as usize));
}

/// The tracks that gluing produces follow the IDs: each has one entry per slide;
/// two consecutive elements of a track are linked by equal IDs; a track ends only
/// where no element of the next slide asks for its element's `to` ID, and starts
/// only where no element of the previous slide hands on its element's `from` ID; and
/// every temporal element of every slide lies on exactly one track.
pub proof fn lemma_glued_tracks_follow_ids(slides: Seq<Seq<PairView>>)
    requires
        slides_fit(slides),
        glue_spec(slides) is Some,
    ensures
        forall|k: int|
            0 <= k < glue_spec(slides).unwrap().len() ==> good_track(
                slides,
                slides.len() as int,
                #[trigger] glue_spec(slides).unwrap()[k],
            ),
        forall|j: int, e: int|
            0 <= j < slides.len() && 0 <= e < slides[j].len() ==> #[trigger] on_some_track(
                glue_spec(slides).unwrap(),
                j,
                e,
            ),
        forall|j: int, k1: int, k2: int|
            0 <= j < slides.len() && 0 <= k1 < glue_spec(slides).unwrap().len() && 0 <= k2
                < glue_spec(slides).unwrap().len() && (#[trigger] glue_spec(slides).unwrap()[k1][j])
                is Some && glue_spec(slides).unwrap()[k1][j] == #[trigger] glue_spec(
                slides,
            ).unwrap()[k2][j] ==> k1 == k2,
{
    let n = slides.len() as int;
    lemma_glue_inv(slides, n);
    let (f, a) = glue_upto(slides, n).unwrap();
    let t = glue_spec(slides).unwrap();
    assert(t == all_tracks(f, a));
    assert forall|k: int| 0 <= k < t.len() implies good_track(slides, n, #[trigger] t[k]) by {
        if k < f.len() {
            assert(t[k] == f[k]);
        } else {
            assert(t[k] == a[k - f.len()].1);
            assert(open_track_ok(slides, n, a[k - f.len()]));
        }
    }
    assert forall|j: int, e: int|
        0 <= j < slides.len() && 0 <= e < slides[j].len() implies #[trigger] on_some_track(
        glue_spec(slides).unwrap(),
        j,
        e,
    ) by {
        lemma_element_on_track(slides, j, e);
    }
    assert forall|j: int, k1: int, k2: int|
        0 <= j < n && 0 <= k1 < t.len() && 0 <= k2 < t.len() && (#[trigger] t[k1][j]) is Some
            && t[k1][j] == #[trigger] t[k2][j] implies k1 == k2 by {
        let e = t[k1][j].unwrap() as int;
        assert(good_track(slides, n, t[k1]));
        assert(entry_in_range(slides, t[k1], j));
        assert(holders(all_tracks(f, a), j, e) == 1);
        lemma_holders_unique(t, j, e, k1, k2);
    }
}


/// Element `p` of slide `j` hands its `to` ID to element `e` of slide `j + 1`.
pub open spec fn hands_on(slides: Seq<Seq<PairView>>, j: int, p: int, e: int) -> bool {
    ids_link(slides[j][p].1, slides[j + 1][e].0)
}

/// Between slides `j` and `j + 1` the IDs are ambiguous: an element of slide `j + 1`
/// takes up the `to` IDs of two elements of slide `j`, or an element of slide `j`
/// hands its `to` ID to two elements of slide `j + 1`.
pub open spec fn ambiguous_link(slides: Seq<Seq<PairView>>, j: int) -> bool {
    ||| exists|e: int, p1: int, p2: int|
        #![trigger hands_on(slides, j, p1, e), hands_on(slides, j, p2, e)]
        0 <= e < slides[j + 1].len() && 0 <= p1 < slides[j].len() && 0 <= p2 < slides[j].len()
            && p1 != p2 && hands_on(slides, j, p1, e) && hands_on(slides, j, p2, e)
    ||| exists|p: int, e1: int, e2: int|
        #![trigger hands_on(slides, j, p, e1), hands_on(slides, j, p, e2)]
        0 <= p < slides[j].len() && 0 <= e1 < slides[j + 1].len() && 0 <= e2 < slides[
            j + 1
        ].len() && e1 != e2 && hands_on(slides, j, p, e1) && hands_on(slides, j, p, e2)
}

proof fn lemma_count_prev_witness(active: Seq<ActiveView>, from: Option<IdView>, k: int) -> (m: int)
    requires
        count_prev(active, from, k) >= 1,
    ensures
        0 <= m < k,
        ids_link(active[m].0, from),
    decreases k,
{
    if ids_link(active[k - 1].0, from) {
        k - 1
    } else {
        lemma_count_prev_witness(active, from, k - 1)
    }
}

proof fn lemma_count_prev_two_witness(active: Seq<ActiveView>, from: Option<IdView>, k: int) -> (r:
    (int, int))
    requires
        count_prev(active, from, k) >= 2,
    ensures
        0 <= r.0 < k,
        0 <= r.1 < k,
        r.0 != r.1,
        ids_link(active[r.0].0, from),
        ids_link(active[r.1].0, from),
    decreases k,
{
    if ids_link(active[k - 1].0, from) {
        let m = lemma_count_prev_witness(active, from, k - 1);
        (m, k - 1)
    } else {
        lemma_count_prev_two_witness(active, from, k - 1)
    }
}

proof fn lemma_count_prev_two(active: Seq<ActiveView>, from: Option<IdView>, k: int, m1: int, m2: int)
    requires
        0 <= m1 < k,
        0 <= m2 < k,
        m1 != m2,
        ids_link(active[m1].0, from),
        ids_link(active[m2].0, from),
    ensures
        count_prev(active, from, k) >= 2,
    decreases k,
{
    if m1 == k - 1 {
        lemma_count_prev_one(active, from, k - 1, m2);
    } else if m2 == k - 1 {
        lemma_count_prev_one(active, from, k - 1, m1);
    } else {
        lemma_count_prev_two(active, from, k - 1, m1, m2);
    }
}

proof fn lemma_count_next_witness(slide: Seq<PairView>, to: Option<IdView>, k: int) -> (e: int)
    requires
        count_next(slide, to, k) >= 1,
    ensures
        0 <= e < k,
        ids_link(to, slide[e].0),
    decreases k,
{
    if ids_link(to, slide[k - 1].0) {
        k - 1
    } else {
        lemma_count_next_witness(slide, to, k - 1)
    }
}

proof fn lemma_count_next_two_witness(slide: Seq<PairView>, to: Option<IdView>, k: int) -> (r: (
    int,
    int,
))
    requires
        count_next(slide, to, k) >= 2,
    ensures
        0 <= r.0 < k,
        0 <= r.1 < k,
        r.0 != r.1,
        ids_link(to, slide[r.0].0),
        ids_link(to, slide[r.1].0),
    decreases k,
{
    if ids_link(to, slide[k - 1].0) {
        let e = lemma_count_next_witness(slide, to, k - 1);
        (e, k - 1)
    } else {
        lemma_count_next_two_witness(slide, to, k - 1)
    }
}

/// After slide `h - 1`, every element of that slide ends exactly one open track, and
/// that track hands on the element's `to` ID.
proof fn lemma_open_holder(
    slides: Seq<Seq<PairView>>,
    h: int,
    f: Seq<Seq<Option<usize>>>,
    a: Seq<ActiveView>,
    p: int,
) -> (m: int)
    requires
        slides_fit(slides),
        glue_inv(slides, h, f, a),
        1 <= h <= slides.len(),
        0 <= p < slides[h - 1].len(),
    ensures
        0 <= m < a.len(),
        a[m].1[h - 1] == Some(p as usize),
        a[m].0 == slides[h - 1][p].1,
{
    let t = all_tracks(f, a);
    assert(holders(t, h - 1, p) == 1);
    let k = lemma_holders_witness(t, h - 1, p);
    if k < f.len() {
        assert(t[k] == f[k]);
        assert(f[k][h - 1] is None);
    }
    let m = k - f.len();
    assert(t[k] == a[m].1);
    assert(open_track_ok(slides, h, a[m]));
    assert(slides[h - 1].len() <= usize::MAX);
    assert(a[m].1[h - 1].unwrap() as int == p);
    m
}

/// Two different open tracks end at different elements.
proof fn lemma_open_distinct(
    slides: Seq<Seq<PairView>>,
    h: int,
    f: Seq<Seq<Option<usize>>>,
    a: Seq<ActiveView>,
    m1: int,
    m2: int,
)
    requires
        glue_inv(slides, h, f, a),
        1 <= h <= slides.len(),
        0 <= m1 < a.len(),
        0 <= m2 < a.len(),
        m1 != m2,
    ensures
        a[m1].1[h - 1] != a[m2].1[h - 1],
{
    assert(open_track_ok(slides, h, a[m1]));
    assert(open_track_ok(slides, h, a[m2]));
    if a[m1].1[h - 1] == a[m2].1[h - 1] {
        let t = all_tracks(f, a);
        let p = a[m1].1[h - 1].unwrap() as int;
        assert(entry_in_range(slides, a[m1].1, h - 1));
        assert(holders(t, h - 1, p) == 1);
        assert(t[f.len() + m1] == a[m1].1);
        assert(t[f.len() + m2] == a[m2].1);
        lemma_holders_unique(t, h - 1, p, f.len() + m1, f.len() + m2);
    }
}

/// Once slides up to `h - 1` are glued, slide `h` can be added exactly when the IDs
/// between slides `h - 1` and `h` are not ambiguous.
proof fn lemma_step_ok_iff_unambiguous(slides: Seq<Seq<PairView>>, h: int)
    requires
        slides_fit(slides),
        1 <= h < slides.len(),
        glue_upto(slides, h) is Some,
    ensures
        step_ok(glue_upto(slides, h).unwrap().1, slides[h]) <==> !ambiguous_link(slides, h - 1),
{
    lemma_glue_inv(slides, h);
    let (f, a) = glue_upto(slides, h).unwrap();
    let sl = slides[h];
    let prev = slides[h - 1];
    let n = a.len() as int;
    if !step_ok(a, sl) {
        if exists|e: int| 0 <= e < sl.len() && count_prev(a, #[trigger] sl[e].0, n) > 1 {
            let e = choose|e: int| 0 <= e < sl.len() && count_prev(a, #[trigger] sl[e].0, n) > 1;
            let (m1, m2) = lemma_count_prev_two_witness(a, sl[e].0, n);
            lemma_open_distinct(slides, h, f, a, m1, m2);
            assert(open_track_ok(slides, h, a[m1]));
            assert(open_track_ok(slides, h, a[m2]));
            let p1 = a[m1].1[h - 1].unwrap() as int;
            let p2 = a[m2].1[h - 1].unwrap() as int;
            assert(entry_in_range(slides, a[m1].1, h - 1));
            assert(entry_in_range(slides, a[m2].1, h - 1));
            assert(hands_on(slides, h - 1, p1, e));
            assert(hands_on(slides, h - 1, p2, e));
        } else {
            let m = choose|m: int| 0 <= m < n && count_next(sl, #[trigger] a[m].0, sl.len() as int) > 1;
            let (e1, e2) = lemma_count_next_two_witness(sl, a[m].0, sl.len() as int);
            assert(open_track_ok(slides, h, a[m]));
            let p = a[m].1[h - 1].unwrap() as int;
            assert(entry_in_range(slides, a[m].1, h - 1));
            assert(hands_on(slides, h - 1, p, e1));
            assert(hands_on(slides, h - 1, p, e2));
        }
    }
    if ambiguous_link(slides, h - 1) {
        if exists|e: int, p1: int, p2: int|
            #![trigger hands_on(slides, h - 1, p1, e), hands_on(slides, h - 1, p2, e)]
            0 <= e < sl.len() && 0 <= p1 < prev.len() && 0 <= p2 < prev.len() && p1 != p2
                && hands_on(slides, h - 1, p1, e) && hands_on(slides, h - 1, p2, e) {
            let (e, p1, p2) = choose|e: int, p1: int, p2: int|
                #![trigger hands_on(slides, h - 1, p1, e), hands_on(slides, h - 1, p2, e)]
                0 <= e < sl.len() && 0 <= p1 < prev.len() && 0 <= p2 < prev.len() && p1 != p2
                    && hands_on(slides, h - 1, p1, e) && hands_on(slides, h - 1, p2, e);
            let m1 = lemma_open_holder(slides, h, f, a, p1);
            let m2 = lemma_open_holder(slides, h, f, a, p2);
            lemma_count_prev_two(a, sl[e].0, n, m1, m2);
            assert(count_prev(a, sl[e].0, n) > 1);
        } else {
            let (p, e1, e2) = choose|p: int, e1: int, e2: int|
                #![trigger hands_on(slides, h - 1, p, e1), hands_on(slides, h - 1, p, e2)]
                0 <= p < prev.len() && 0 <= e1 < sl.len() && 0 <= e2 < sl.len() && e1 != e2
                    && hands_on(slides, h - 1, p, e1) && hands_on(slides, h - 1, p, e2);
            let m = lemma_open_holder(slides, h, f, a, p);
            lemma_count_next_two(sl, a[m].0, sl.len() as int, e1, e2);
            assert(count_next(sl, a[m].0, sl.len() as int) > 1);
        }
    }
}

proof fn lemma_glue_upto_fails_iff(slides: Seq<Seq<PairView>>, i: int)
    requires
        slides_fit(slides),
        0 <= i <= slides.len(),
    ensures
        glue_upto(slides, i) is None <==> exists|j: int|
            0 <= j && j + 1 < i && #[trigger] ambiguous_link(slides, j),
    decreases i,
{
    if i > 0 {
        let h = i - 1;
        lemma_glue_upto_fails_iff(slides, h);
        if glue_upto(slides, h) is Some {
            let (f, a) = glue_upto(slides, h).unwrap();
            if h == 0 {
                assert(a.len() == 0);
                assert(step_ok(a, slides[h]));
            } else {
                lemma_step_ok_iff_unambiguous(slides, h);
                if ambiguous_link(slides, h - 1) {
                    assert(ambiguous_link(slides, h - 1));
                }
            }
            assert forall|j: int| 0 <= j && j + 1 < i && #[trigger] ambiguous_link(slides, j)
                implies j == h - 1 by {
                if j + 1 < h {
                    assert(exists|jj: int| 0 <= jj && jj + 1 < h && #[trigger] ambiguous_link(slides, jj));
                }
            }
        } else {
            let j = choose|j: int| 0 <= j && j + 1 < h && #[trigger] ambiguous_link(slides, j);
            assert(ambiguous_link(slides, j));
        }
    }
}

/// Gluing fails exactly when, between some two consecutive slides, an element takes
/// up the `to` IDs of two elements of the slide before it, or hands its `to` ID to two
/// elements of the slide after it.
pub proof fn lemma_glue_fails_iff_ambiguous(slides: Seq<Seq<PairView>>)
    requires
        slides_fit(slides),
    ensures
        glue_spec(slides) is None <==> exists|j: int|
            0 <= j && j + 1 < slides.len() && #[trigger] ambiguous_link(slides, j),
{
    lemma_glue_upto_fails_iff(slides, slides.len() as int);
}

} // verus!
