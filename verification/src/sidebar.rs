//! What the sidebar lists: the artists, albums, genres and years of the library, each with
//! the number of its tracks.
use vstd::prelude::*;

use crate::folder_tree::{index_of_text, insert_by_key};
use crate::library::{LibraryTrack, TrackView};
use crate::player::{text_less, views};
use crate::text::{chars_of, spec_to_lowercase, to_lowercase};

verus! {

/// A text field the library can be browsed by.
#[derive(Debug, Clone, Copy, PartialEq, Eq, Structural)]
pub enum Facet {
    Artist,
    Album,
    Genre,
}

/// The value of field `f` of a track.
pub open spec fn facet_of(t: TrackView, f: Facet) -> Seq<char> {
    match f {
        Facet::Artist => t.artist,
        Facet::Album => t.album,
        Facet::Genre => t.genre,
    }
}

/// Number of tracks of `tracks` whose field `f` is `v`.
pub open spec fn count_with(tracks: Seq<TrackView>, f: Facet, v: Seq<char>) -> nat
    decreases tracks.len(),
{
    if tracks.len() == 0 {
        0
    } else {
        count_with(tracks.drop_last(), f, v) + if facet_of(tracks.last(), f) == v {
            1nat
        } else {
            0nat
        }
    }
}

/// Whether `v` is one of the texts of `names`.
spec fn named(names: Seq<String>, v: Seq<char>) -> bool {
    exists|j: int| 0 <= j < names.len() && (#[trigger] names[j])@ == v
}

spec fn distinct_names(names: Seq<String>) -> bool {
    forall|a: int, b: int| 0 <= a < b < names.len() ==> (#[trigger] names[a])@ != (#[trigger] names[b])@
}

fn facet_text(t: &LibraryTrack, f: Facet) -> (s: &String)
    ensures
        s@ == facet_of(t@, f),
{
    match f {
        Facet::Artist => &t.artist,
        Facet::Album => &t.album,
        Facet::Genre => &t.genre,
    }
}

/// The non-empty values of field `f`, in order of first appearance, with their counts.
fn facet_names(tracks: &Vec<LibraryTrack>, f: Facet) -> (r: (Vec<String>, Vec<usize>))
    ensures
        r.1@.len() == r.0@.len(),
        distinct_names(r.0@),
        forall|j: int|
            0 <= j < r.0@.len() ==> (#[trigger] r.0@[j])@.len() > 0 && r.1@[j] == count_with(
                views(tracks@),
                f,
                r.0@[j]@,
            ) && r.1@[j] > 0,
        forall|k: int|
            0 <= k < tracks@.len() && facet_of(#[trigger] views(tracks@)[k], f).len() > 0 ==> named(
                r.0@,
                facet_of(views(tracks@)[k], f),
            ),
{
    let ghost tv = views(tracks@);
    let mut names: Vec<String> = Vec::new();
    let mut counts: Vec<usize> = Vec::new();
    let mut i: usize = 0;
    while i < tracks.len()
        invariant
            tv == views(tracks@),
            i <= tracks@.len(),
            counts@.len() == names@.len(),
            distinct_names(names@),
            forall|j: int|
                0 <= j < names@.len() ==> (#[trigger] names@[j])@.len() > 0 && counts@[j] == count_with(
                    tv.take(i as int),
                    f,
                    names@[j]@,
                ) && 0 < counts@[j] <= i,
            forall|v: Seq<char>|
                v.len() > 0 && !named(names@, v) ==> #[trigger] count_with(tv.take(i as int), f, v) == 0,
            forall|k: int|
                0 <= k < i && facet_of(#[trigger] tv[k], f).len() > 0 ==> named(names@, facet_of(tv[k], f)),
        decreases tracks@.len() - i,
    {
        let ghost pre = tv.take(i as int);
        let ghost next = tv.take(i as int + 1);
        assert(next.drop_last() =~= pre);
        assert(next.last() == tv[i as int]);
        let v = facet_text(&tracks[i], f);
        let vv = chars_of(v.as_str());
        let ghost old_names = names@;
        let ghost old_counts = counts@;
        if vv.len() == 0 {
            assert forall|j: int| 0 <= j < names@.len() implies (#[trigger] names@[j])@.len() > 0 && counts@[j]
                == count_with(next, f, names@[j]@) && 0 < counts@[j] <= i + 1 by {}
            assert forall|w: Seq<char>| w.len() > 0 && !named(names@, w) implies #[trigger] count_with(next, f, w) == 0 by {
                assert(count_with(pre, f, w) == 0);
            }
        } else {
            match index_of_text(&names, v) {
                Some(j) => {
                    let c = counts[j] + 1;
                    counts.set(j, c);
                    assert forall|k: int| 0 <= k < names@.len() implies (#[trigger] names@[k])@.len() > 0
                        && counts@[k] == count_with(next, f, names@[k]@) && 0 < counts@[k] <= i + 1 by {
                        if k != j {
                            assert(names@[k]@ != names@[j as int]@);
                        }
                    }
                    assert forall|w: Seq<char>| w.len() > 0 && !named(names@, w) implies #[trigger] count_with(
                        next,
                        f,
                        w,
                    ) == 0 by {
                        if w == v@ {
                            assert(names@[j as int]@ == w);
                        }
                        assert(count_with(pre, f, w) == 0);
                    }
                },
                None => {
                    names.push(v.clone());
                    counts.push(1);
                    assert(names@[names@.len() - 1]@ == v@);
                    assert forall|w: Seq<char>| named(old_names, w) implies named(names@, w) by {
                        let q = choose|q: int| 0 <= q < old_names.len() && (#[trigger] old_names[q])@ == w;
                        assert(names@[q] == old_names[q]);
                    }
                    assert forall|k: int| 0 <= k < names@.len() implies (#[trigger] names@[k])@.len() > 0
                        && counts@[k] == count_with(next, f, names@[k]@) && 0 < counts@[k] <= i + 1 by {
                        if k < old_names.len() {
                            assert(names@[k] == old_names[k]);
                            assert(counts@[k] == old_counts[k]);
                            assert(old_names[k]@ != v@);
                        } else {
                            assert(!named(old_names, v@));
                            assert(count_with(pre, f, v@) == 0);
                        }
                    }
                    assert forall|w: Seq<char>| w.len() > 0 && !named(names@, w) implies #[trigger] count_with(
                        next,
                        f,
                        w,
                    ) == 0 by {
                        if w == v@ {
                            assert(names@[names@.len() - 1]@ == w);
                        }
                        assert(count_with(pre, f, w) == 0);
                    }
                    assert forall|a: int, b: int| 0 <= a < b < names@.len() implies (#[trigger] names@[a])@
                        != (#[trigger] names@[b])@ by {
                        if b == names@.len() - 1 {
                            assert(names@[a] == old_names[a]);
                        } else {
                            assert(names@[a] == old_names[a] && names@[b] == old_names[b]);
                        }
                    }
                },
            }
        }
        assert forall|k: int|
            0 <= k < i + 1 && facet_of(#[trigger] tv[k], f).len() > 0 implies named(names@, facet_of(tv[k], f)) by {
            if k < i {
                assert(named(old_names, facet_of(tv[k], f)));
                let q = choose|q: int| 0 <= q < old_names.len() && (#[trigger] old_names[q])@ == facet_of(tv[k], f);
                assert(names@[q] == old_names[q]);
            } else {
                assert(facet_of(tv[k], f) == v@);
            }
        }
        i = i + 1;
    }
    assert(tv.take(tracks@.len() as int) =~= tv);
    (names, counts)
}

/// The distinct non-empty values of field `f` among `tracks`, each with the number of
/// tracks that have it, sorted by their lower-case text.
pub fn facet_counts(tracks: &Vec<LibraryTrack>, f: Facet) -> (r: Vec<(String, usize)>)
    ensures
        forall|i: int|
            0 <= i < r@.len() ==> (#[trigger] r@[i]).0@.len() > 0 && r@[i].1 == count_with(
                views(tracks@),
                f,
                r@[i].0@,
            ) && r@[i].1 > 0,
        forall|i: int, j: int| 0 <= i < j < r@.len() ==> (#[trigger] r@[i]).0@ != (#[trigger] r@[j]).0@,
        forall|k: int|
            0 <= k < tracks@.len() && facet_of(#[trigger] views(tracks@)[k], f).len() > 0 ==> exists|i: int|
                0 <= i < r@.len() && (#[trigger] r@[i]).0@ == facet_of(views(tracks@)[k], f),
        forall|i: int, j: int|
            0 <= i < j < r@.len() ==> !text_less(
                spec_to_lowercase((#[trigger] r@[j]).0@),
                spec_to_lowercase((#[trigger] r@[i]).0@),
            ),
{
    let (names, counts) = facet_names(tracks, f);
    let n = names.len();
    let mut keys: Vec<Vec<char>> = Vec::new();
    let mut a: usize = 0;
    while a < n
        invariant
            n == names@.len(),
            a <= n,
            keys@.len() == a,
            forall|k: int| 0 <= k < a ==> (#[trigger] keys@[k])@ == spec_to_lowercase(names@[k]@),
        decreases n - a,
    {
        let lower = to_lowercase(names[a].as_str());
        keys.push(chars_of(lower.as_str()));
        a = a + 1;
    }
    let mut order: Vec<usize> = Vec::new();
    proof {
        broadcast use vstd::seq_lib::group_to_multiset_ensures;

        assert forall|y: usize| #[trigger] order@.to_multiset().count(y) == 0 by {
            assert(!order@.contains(y));
        }
    }
    let mut x: usize = 0;
    while x < n
        invariant
            n == names@.len(),
            keys@.len() == n,
            x <= n,
            order@.len() == x,
            forall|k: int| 0 <= k < order@.len() ==> #[trigger] order@[k] < keys@.len(),
            forall|i: int, j: int|
                0 <= i < j < order@.len() ==> !text_less(
                    keys@[#[trigger] order@[j] as int]@,
                    keys@[#[trigger] order@[i] as int]@,
                ),
            forall|y: usize| #[trigger] order@.to_multiset().count(y) == if y < x {
                1nat
            } else {
                0nat
            },
        decreases n - x,
    {
        let ghost before = order@;
        insert_by_key(&mut order, &keys, x);
        assert forall|y: usize| #[trigger] order@.to_multiset().count(y) == if y < x + 1 {
            1nat
        } else {
            0nat
        } by {
            assert(before.to_multiset().count(y) == if y < x {
                1nat
            } else {
                0nat
            });
        }
        x = x + 1;
    }
    proof {
        broadcast use vstd::seq_lib::group_to_multiset_ensures;

        order@.lemma_multiset_has_no_duplicates_conv();
    }
    let mut r: Vec<(String, usize)> = Vec::new();
    let mut k: usize = 0;
    while k < n
        invariant
            n == names@.len(),
            counts@.len() == n,
            keys@.len() == n,
            order@.len() == n,
            order@.no_duplicates(),
            k <= n,
            r@.len() == k,
            forall|q: int| 0 <= q < order@.len() ==> #[trigger] order@[q] < n,
            forall|q: int| 0 <= q < k ==> (#[trigger] r@[q]).0@ == names@[order@[q] as int]@ && r@[q].1
                == counts@[order@[q] as int],
        decreases n - k,
    {
        let idx = order[k];
        r.push((names[idx].clone(), counts[idx]));
        k = k + 1;
    }
    proof {
        broadcast use vstd::seq_lib::group_to_multiset_ensures;

        let tv = views(tracks@);
        assert forall|i: int, j: int| 0 <= i < j < r@.len() implies (#[trigger] r@[i]).0@ != (#[trigger] r@[j]).0@ by {
            assert(order@[i] != order@[j]);
        }
        assert forall|i: int, j: int| 0 <= i < j < r@.len() implies !text_less(
            spec_to_lowercase((#[trigger] r@[j]).0@),
            spec_to_lowercase((#[trigger] r@[i]).0@),
        ) by {
            assert(keys@[order@[j] as int]@ == spec_to_lowercase(names@[order@[j] as int]@));
            assert(keys@[order@[i] as int]@ == spec_to_lowercase(names@[order@[i] as int]@));
        }
        assert forall|t: int|
            0 <= t < tracks@.len() && facet_of(#[trigger] views(tracks@)[t], f).len() > 0 implies exists|i: int|
                0 <= i < r@.len() && (#[trigger] r@[i]).0@ == facet_of(views(tracks@)[t], f) by {
            let w = facet_of(tv[t], f);
            assert(named(names@, w));
            let j = choose|j: int| 0 <= j < names@.len() && (#[trigger] names@[j])@ == w;
            assert(order@.to_multiset().count(j as usize) == 1);
            assert(order@.contains(j as usize));
            let q = choose|q: int| 0 <= q < order@.len() && order@[q] == j as usize;
            assert(r@[q].0@ == w);
        }
    }
    r
}

/// Number of tracks of `tracks` from year `y`.
pub open spec fn count_year(tracks: Seq<TrackView>, y: i32) -> nat
    decreases tracks.len(),
{
    if tracks.len() == 0 {
        0
    } else {
        count_year(tracks.drop_last(), y) + if tracks.last().year == Some(y) {
            1nat
        } else {
            0nat
        }
    }
}

/// Whether year `y` is listed in `r`.
pub open spec fn has_year(r: Seq<(i32, usize)>, y: i32) -> bool {
    exists|q: int| 0 <= q < r.len() && (#[trigger] r[q]).0 == y
}

/// The years of `tracks`, newest first, each with the number of tracks from it.
pub fn year_counts(tracks: &Vec<LibraryTrack>) -> (r: Vec<(i32, usize)>)
    ensures
        forall|q: int|
            0 <= q < r@.len() ==> (#[trigger] r@[q]).1 == count_year(views(tracks@), r@[q].0) && r@[q].1 > 0,
        forall|a: int, b: int| 0 <= a < b < r@.len() ==> (#[trigger] r@[a]).0 > (#[trigger] r@[b]).0,
        forall|k: int|
            0 <= k < tracks@.len() ==> ((#[trigger] views(tracks@)[k]).year matches Some(y) ==> has_year(r@, y)),
{
    let ghost tv = views(tracks@);
    let mut r: Vec<(i32, usize)> = Vec::new();
    let mut i: usize = 0;
    while i < tracks.len()
        invariant
            tv == views(tracks@),
            i <= tracks@.len(),
            forall|q: int|
                0 <= q < r@.len() ==> (#[trigger] r@[q]).1 == count_year(tv.take(i as int), r@[q].0) && r@[q].1
                    > 0 && r@[q].1 <= i,
            forall|a: int, b: int| 0 <= a < b < r@.len() ==> (#[trigger] r@[a]).0 > (#[trigger] r@[b]).0,
            forall|y: i32| !has_year(r@, y) ==> #[trigger] count_year(tv.take(i as int), y) == 0,
            forall|k: int| 0 <= k < i ==> ((#[trigger] tv[k]).year matches Some(y) ==> has_year(r@, y)),
        decreases tracks@.len() - i,
    {
        let ghost pre = tv.take(i as int);
        let ghost next = tv.take(i as int + 1);
        assert(next.drop_last() =~= pre);
        assert(next.last() == tv[i as int]);
        let ghost before = r@;
        match tracks[i].year {
            None => {
                assert forall|q: int| 0 <= q < r@.len() implies (#[trigger] r@[q]).1 == count_year(next, r@[q].0)
                    && r@[q].1 > 0 && r@[q].1 <= i + 1 by {}
                assert forall|y: i32| !has_year(r@, y) implies #[trigger] count_year(next, y) == 0 by {
                    assert(count_year(pre, y) == 0);
                }
            },
            Some(y) => {
                let mut p: usize = 0;
                while p < r.len() && r[p].0 > y
                    invariant
                        p <= r@.len(),
                        forall|q: int| 0 <= q < p ==> (#[trigger] r@[q]).0 > y,
                    decreases r@.len() - p,
                {
                    p = p + 1;
                }
                if p < r.len() && r[p].0 == y {
                    let c = r[p].1 + 1;
                    r.set(p, (y, c));
                    assert forall|q: int| 0 <= q < r@.len() implies (#[trigger] r@[q]).1 == count_year(next, r@[q].0)
                        && r@[q].1 > 0 && r@[q].1 <= i + 1 by {
                        if q != p {
                            assert(r@[q] == before[q]);
                            if q < p {
                                assert(before[q].0 > before[p as int].0);
                            } else {
                                assert(before[p as int].0 > before[q].0);
                            }
                        }
                    }
                    assert forall|a: int, b: int| 0 <= a < b < r@.len() implies (#[trigger] r@[a]).0 > (
                    #[trigger] r@[b]).0 by {
                        assert(before[a].0 > before[b].0);
                    }
                    assert forall|w: i32| !has_year(r@, w) implies #[trigger] count_year(next, w) == 0 by {
                        if has_year(before, w) {
                            let q = choose|q: int| 0 <= q < before.len() && (#[trigger] before[q]).0 == w;
                            assert(r@[q].0 == w);
                        }
                        if w == y {
                            assert(r@[p as int].0 == w);
                        }
                        assert(count_year(pre, w) == 0);
                    }
                    assert forall|w: i32| has_year(before, w) implies has_year(r@, w) by {
                        let q = choose|q: int| 0 <= q < before.len() && (#[trigger] before[q]).0 == w;
                        assert(r@[q].0 == w);
                    }
                    assert(r@[p as int].0 == y);
                } else {
                    assert(!has_year(before, y)) by {
                        if has_year(before, y) {
                            let q = choose|q: int| 0 <= q < before.len() && (#[trigger] before[q]).0 == y;
                            if q < p {
                                assert(before[q].0 > y);
                            } else if q > p {
                                assert(before[p as int].0 > before[q].0);
                                assert(before[p as int].0 <= y);
                            }
                        }
                    }
                    assert(count_year(pre, y) == 0);
                    r.insert(p, (y, 1));
                    assert(r@ =~= before.take(p as int).push((y, 1usize)) + before.skip(p as int));
                    assert forall|q: int| 0 <= q < r@.len() implies (#[trigger] r@[q]).1 == count_year(next, r@[q].0)
                        && r@[q].1 > 0 && r@[q].1 <= i + 1 by {
                        if q < p {
                            assert(r@[q] == before[q]);
                            assert(before[q].0 != y);
                        } else if q > p {
                            assert(r@[q] == before[q - 1]);
                            assert(before[q - 1].0 != y);
                        }
                    }
                    assert forall|a: int, b: int| 0 <= a < b < r@.len() implies (#[trigger] r@[a]).0 > (
                    #[trigger] r@[b]).0 by {
                        if b < p {
                            assert(r@[a] == before[a] && r@[b] == before[b]);
                        } else if b == p {
                            assert(r@[a] == before[a]);
                        } else if a < p {
                            assert(r@[a] == before[a] && r@[b] == before[b - 1]);
                        } else if a == p {
                            assert(r@[b] == before[b - 1]);
                            if b - 1 > p {
                                assert(before[p as int].0 > before[b - 1].0);
                            }
                        } else {
                            assert(r@[a] == before[a - 1] && r@[b] == before[b - 1]);
                        }
                    }
                    assert forall|w: i32| has_year(before, w) implies has_year(r@, w) by {
                        let q = choose|q: int| 0 <= q < before.len() && (#[trigger] before[q]).0 == w;
                        if q < p {
                            assert(r@[q].0 == w);
                        } else {
                            assert(r@[q + 1].0 == w);
                        }
                    }
                    assert(r@[p as int].0 == y);
                    assert forall|w: i32| !has_year(r@, w) implies #[trigger] count_year(next, w) == 0 by {
                        if w == y {
                            assert(r@[p as int].0 == w);
                        }
                        assert(count_year(pre, w) == 0);
                    }
                }
                assert(has_year(r@, y));
            },
        }
        assert forall|k: int| 0 <= k < i + 1 implies ((#[trigger] tv[k]).year matches Some(w) ==> has_year(r@, w)) by {
            if k < i {
                if let Some(w) = tv[k].year {
                    assert(has_year(before, w));
                }
            }
        }
        i = i + 1;
    }
    assert(tv.take(tracks@.len() as int) =~= tv);
    r
}

/// How many tracks have been played at least once.
pub open spec fn played_count(tracks: Seq<TrackView>) -> nat
    decreases tracks.len(),
{
    if tracks.len() == 0 {
        0
    } else {
        played_count(tracks.drop_last()) + if tracks.last().play_count > 0 {
            1nat
        } else {
            0nat
        }
    }
}

/// The number shown beside the most-played entry: tracks played at least once.
pub fn played_track_count(tracks: &Vec<LibraryTrack>) -> (c: usize)
    ensures
        c == played_count(views(tracks@)),
{
    let ghost tv = views(tracks@);
    let mut c: usize = 0;
    let mut i: usize = 0;
    while i < tracks.len()
        invariant
            tv == views(tracks@),
            i <= tracks@.len(),
            c == played_count(tv.take(i as int)),
            c <= i,
        decreases tracks@.len() - i,
    {
        assert(tv.take(i as int + 1).drop_last() =~= tv.take(i as int));
        assert(tv.take(i as int + 1).last() == tv[i as int]);
        if tracks[i].play_count > 0 {
            c = c + 1;
        }
        i = i + 1;
    }
    assert(tv.take(tracks@.len() as int) =~= tv);
    c
}


/// The sidebar's counts count tracks by the named field: the number listed for an artist,
/// album or genre `v` is the number of tracks whose artist, album or genre is `v`, and the
/// number listed for year `y` that of tracks from year `y`.
pub proof fn lemma_counts_follow_the_field(s: Seq<TrackView>, v: Seq<char>, y: i32)
    ensures
        count_with(s, Facet::Artist, v) == s.filter(|t: TrackView| t.artist == v).len(),
        count_with(s, Facet::Album, v) == s.filter(|t: TrackView| t.album == v).len(),
        count_with(s, Facet::Genre, v) == s.filter(|t: TrackView| t.genre == v).len(),
        count_year(s, y) == s.filter(|t: TrackView| t.year == Some(y)).len(),
    decreases s.len(),
{
    reveal(Seq::filter);
    if s.len() > 0 {
        lemma_counts_follow_the_field(s.drop_last(), v, y);
    }
}

} // verus!
