//! The folder tree of the sidebar and the time labels of the track list.
use vstd::prelude::*;

use crate::duration::{Duration, NANOS_PER_SEC};
use crate::library::{LibraryTrack, TrackView};
use crate::paths::{
    path_file_name, path_less, path_parent, path_starts_with, spec_path_file_name, spec_path_less, spec_path_parent,
    spec_path_starts_with,
};
use crate::player::{text_less, views};
use crate::text::{
    chars_equal, chars_of, decimal, spec_to_lowercase, to_lowercase, two_digits, u64_to_string,
    u64_to_two_digits,
};

verus! {

/// The panes of the main window.
#[derive(Debug, Clone, Copy, PartialEq, Eq, Structural)]
pub enum PlayerPane {
    Sidebar,
    Main,
}

/// `h:mm:ss` for an hour or more, `mm:ss` below (whole seconds).
pub open spec fn spec_format_duration(total_secs: nat) -> Seq<char> {
    let hours = total_secs / 3600;
    let mins = (total_secs % 3600) / 60;
    let secs = total_secs % 60;
    if hours > 0 {
        decimal(hours) + ":"@ + two_digits(mins) + ":"@ + two_digits(secs)
    } else {
        two_digits(mins) + ":"@ + two_digits(secs)
    }
}

/// The label of a track length or position.
pub fn format_duration(duration: Duration) -> (s: String)
    ensures
        s@ == spec_format_duration(duration@ / (NANOS_PER_SEC as nat)),
{
    let total_secs = duration.as_secs();
    let hours: u64 = total_secs / 3600;
    let mins: u64 = (total_secs % 3600) / 60;
    let secs: u64 = total_secs % 60;
    let mut s = String::new();
    if hours > 0 {
        let h = u64_to_string(hours);
        s.append(h.as_str());
        s.append(":");
    }
    let m = u64_to_two_digits(mins);
    s.append(m.as_str());
    s.append(":");
    let sec = u64_to_two_digits(secs);
    s.append(sec.as_str());
    s
}


/// A directory of the sidebar tree. Children are indices into the tree's node list.
#[derive(Debug, Clone)]
pub struct FolderTreeNode {
    pub name: String,
    pub path: String,
    pub track_count: usize,
    pub children: Vec<usize>,
}

/// The sidebar's folder tree: its nodes and the indices of the top-level ones.
#[derive(Debug, Clone)]
pub struct FolderTree {
    pub nodes: Vec<FolderTreeNode>,
    pub roots: Vec<usize>,
}

/// Number of tracks of `tracks` inside the directory `dir`.
pub open spec fn tracks_under(tracks: Seq<TrackView>, dir: Seq<char>) -> nat
    decreases tracks.len(),
{
    if tracks.len() == 0 {
        0
    } else {
        tracks_under(tracks.drop_last(), dir) + if spec_path_starts_with(tracks.last().path, dir) {
            1nat
        } else {
            0nat
        }
    }
}

/// The name a directory is shown by: its last component, or the whole path.
pub open spec fn node_name(path: Seq<char>) -> Seq<char> {
    match spec_path_file_name(path) {
        Some(n) => n,
        None => path,
    }
}

/// The sort key of a node: its name in lower case.
pub open spec fn name_key(n: FolderTreeNode) -> Seq<char> {
    spec_to_lowercase(n.name@)
}

/// Whether the nodes listed by `order` are sorted by lower-case name.
pub open spec fn sorted_by_name(nodes: Seq<FolderTreeNode>, order: Seq<usize>) -> bool {
    forall|i: int, j: int|
        0 <= i < j < order.len() ==> !text_less(
            name_key(nodes[#[trigger] order[j] as int]),
            name_key(nodes[#[trigger] order[i] as int]),
        )
}

impl FolderTree {
    /// Every index refers to a node; every node is named after its directory, counts the
    /// tracks inside it and lists, sorted by name and each once, a node for each of its
    /// subdirectories in the tree and for nothing else; the top-level nodes are sorted by
    /// name too.
    pub open spec fn describes(&self, tracks: Seq<TrackView>) -> bool {
        &&& forall|k: int| 0 <= k < self.roots@.len() ==> #[trigger] self.roots@[k] < self.nodes@.len()
        &&& sorted_by_name(self.nodes@, self.roots@)
        &&& forall|i: int| 0 <= i < self.nodes@.len() ==> #[trigger] node_ok(self.nodes@, i, tracks)
    }
}

fn count_under(tracks: &Vec<LibraryTrack>, dir: &str) -> (c: usize)
    ensures
        c == tracks_under(views(tracks@), dir@),
{
    let mut c: usize = 0;
    let mut i: usize = 0;
    while i < tracks.len()
        invariant
            i <= tracks@.len(),
            c == tracks_under(views(tracks@).take(i as int), dir@),
            c <= i,
        decreases tracks@.len() - i,
    {
        assert(views(tracks@).take(i as int + 1).drop_last() =~= views(tracks@).take(i as int));
        assert(views(tracks@).take(i as int + 1).last() == tracks@[i as int]@);
        if path_starts_with(tracks[i].path.as_str(), dir) {
            c = c + 1;
        }
        i = i + 1;
    }
    assert(views(tracks@).take(tracks@.len() as int) =~= views(tracks@));
    c
}

pub(crate) fn index_of_text(list: &Vec<String>, s: &String) -> (r: Option<usize>)
    ensures
        r matches Some(i) ==> i < list@.len() && list@[i as int]@ == s@,
        r is None ==> forall|j: int| 0 <= j < list@.len() ==> list@[j]@ != s@,
{
    let sv = chars_of(s.as_str());
    let mut i: usize = 0;
    while i < list.len()
        invariant
            i <= list@.len(),
            sv@ == s@,
            forall|j: int| 0 <= j < i ==> list@[j]@ != s@,
        decreases list@.len() - i,
    {
        let lv = chars_of(list[i].as_str());
        if chars_equal(lv.as_slice(), sv.as_slice()) {
            return Some(i);
        }
        i = i + 1;
    }
    None
}

/// Inserts `x` into `order`, kept sorted by `keys`, after every entry whose key is not
/// greater.
pub(crate) fn insert_by_key(order: &mut Vec<usize>, keys: &Vec<Vec<char>>, x: usize)
    requires
        x < keys@.len(),
        forall|k: int| 0 <= k < old(order)@.len() ==> #[trigger] old(order)@[k] < keys@.len(),
        forall|i: int, j: int|
            0 <= i < j < old(order)@.len() ==> !text_less(
                keys@[#[trigger] old(order)@[j] as int]@,
                keys@[#[trigger] old(order)@[i] as int]@,
            ),
    ensures
        final(order)@.len() == old(order)@.len() + 1,
        final(order)@.to_multiset() == old(order)@.to_multiset().insert(x),
        forall|k: int| 0 <= k < final(order)@.len() ==> #[trigger] final(order)@[k] < keys@.len(),
        forall|i: int, j: int|
            0 <= i < j < final(order)@.len() ==> !text_less(
                keys@[#[trigger] final(order)@[j] as int]@,
                keys@[#[trigger] final(order)@[i] as int]@,
            ),
        exists|p: int|
            0 <= p <= old(order)@.len() && final(order)@ == old(order)@.insert(p, x) && (forall|i: int|
                0 <= i < p ==> !text_less(keys@[x as int]@, keys@[#[trigger] old(order)@[i] as int]@)) && (p
                < old(order)@.len() ==> text_less(keys@[x as int]@, keys@[old(order)@[p] as int]@)),
{
    let mut p: usize = 0;
    while p < order.len() && !crate::player::text_less_exec(keys[x].as_slice(), keys[order[p]].as_slice())
        invariant
            p <= order@.len(),
            order@ == old(order)@,
            x < keys@.len(),
            forall|k: int| 0 <= k < order@.len() ==> #[trigger] order@[k] < keys@.len(),
            forall|j: int| 0 <= j < p ==> !text_less(keys@[x as int]@, keys@[#[trigger] order@[j] as int]@),
        decreases order@.len() - p,
    {
        p = p + 1;
    }
    let ghost before = order@;
    order.insert(p, x);
    proof {
        broadcast use vstd::seq_lib::group_to_multiset_ensures;
        assert(order@ == before.insert(p as int, x));
        assert(order@ =~= before.take(p as int).push(x) + before.skip(p as int));
        assert(before =~= before.take(p as int) + before.skip(p as int));
        vstd::seq_lib::lemma_multiset_commutative(before.take(p as int).push(x), before.skip(p as int));
        vstd::seq_lib::lemma_multiset_commutative(before.take(p as int), before.skip(p as int));
        assert(order@.to_multiset() =~= before.to_multiset().insert(x));
        let kx = keys@[x as int]@;
        assert forall|i: int, j: int|
            0 <= i < j < order@.len() implies !text_less(
                keys@[#[trigger] order@[j] as int]@,
                keys@[#[trigger] order@[i] as int]@,
            ) by {
            if j < p {
                assert(order@[i] == before[i] && order@[j] == before[j]);
            } else if j == p {
                assert(order@[i] == before[i] && order@[j] == x);
            } else if i < p {
                assert(order@[i] == before[i] && order@[j] == before[j - 1]);
            } else if i == p {
                assert(order@[i] == x && order@[j] == before[j - 1]);
                let kj = keys@[before[j - 1] as int]@;
                let kp = keys@[before[p as int] as int]@;
                if text_less(kj, kx) {
                    crate::player::lemma_text_less_transitive(kj, kx, kp);
                    if j - 1 == p {
                        crate::player::lemma_text_less_irreflexive(kp);
                    }
                }
            } else {
                assert(order@[i] == before[i - 1] && order@[j] == before[j - 1]);
            }
        }
    }
}


/// Number of tracks of `tracks` directly inside the directory `dir`.
pub open spec fn tracks_directly_in(tracks: Seq<TrackView>, dir: Seq<char>) -> nat
    decreases tracks.len(),
{
    if tracks.len() == 0 {
        0
    } else {
        tracks_directly_in(tracks.drop_last(), dir) + if spec_path_parent(tracks.last().path) == Some(dir) {
            1nat
        } else {
            0nat
        }
    }
}

/// The `k`-th ancestor of the directory `p`: `p` itself for 0, then its parent's, and so on.
pub open spec fn ancestor(p: Seq<char>, k: nat) -> Option<Seq<char>>
    decreases k,
{
    if k == 0 {
        Some(p)
    } else {
        match ancestor(p, (k - 1) as nat) {
            Some(q) => spec_path_parent(q),
            None => None,
        }
    }
}

/// The `k`-th ancestor of the directory that holds track `t`.
pub open spec fn track_ancestor(tracks: Seq<TrackView>, t: int, k: nat) -> Option<Seq<char>> {
    match spec_path_parent(tracks[t].path) {
        Some(p) => ancestor(p, k),
        None => None,
    }
}

/// `d` is a directory of the tree of `tracks`: one that holds a track, or an ancestor of one.
pub open spec fn tree_folder(tracks: Seq<TrackView>, d: Seq<char>) -> bool {
    exists|t: int, k: nat| 0 <= t < tracks.len() && #[trigger] track_ancestor(tracks, t, k) == Some(d)
}

/// `d` is a directory of the tree whose parent is `n`.
pub open spec fn subfolder(tracks: Seq<TrackView>, n: Seq<char>, d: Seq<char>) -> bool {
    tree_folder(tracks, d) && spec_path_parent(d) == Some(n)
}

/// `d` is a directory of the tree whose parent is not in the tree.
pub open spec fn top_folder(tracks: Seq<TrackView>, d: Seq<char>) -> bool {
    tree_folder(tracks, d) && !(spec_path_parent(d) matches Some(p) && tree_folder(tracks, p))
}

/// `x` is the one subdirectory of `n` in the tree.
pub open spec fn sole_subfolder(tracks: Seq<TrackView>, n: Seq<char>, x: Seq<char>) -> bool {
    subfolder(tracks, n, x) && forall|y: Seq<char>| #[trigger] subfolder(tracks, n, y) ==> y == x
}

/// `n` holds no track directly and has exactly one subdirectory in the tree.
pub open spec fn passes_through(tracks: Seq<TrackView>, n: Seq<char>) -> bool {
    tracks_directly_in(tracks, n) == 0 && exists|x: Seq<char>| #[trigger] sole_subfolder(tracks, n, x)
}

/// Going down `k` times from `s` to the sole subdirectory of a directory that is passed
/// through ends at `p`.
pub open spec fn skips_to(tracks: Seq<TrackView>, s: Seq<char>, p: Seq<char>, k: nat) -> bool
    decreases k,
{
    if k == 0 {
        p == s
    } else {
        passes_through(tracks, s) && skips_to(
            tracks,
            choose|x: Seq<char>| sole_subfolder(tracks, s, x),
            p,
            (k - 1) as nat,
        )
    }
}

/// Going down from `s` through directories that are passed through ends at `p`.
pub open spec fn lands_on(tracks: Seq<TrackView>, s: Seq<char>, p: Seq<char>) -> bool {
    (exists|k: nat| #[trigger] skips_to(tracks, s, p, k)) && !passes_through(tracks, p)
}

/// Where a top-level node starts: a top directory, or, in place of a top directory that
/// holds no track directly, each of its subdirectories.
pub open spec fn start_folder(tracks: Seq<TrackView>, s: Seq<char>) -> bool {
    ||| top_folder(tracks, s) && !(tracks_directly_in(tracks, s) == 0 && exists|d: Seq<char>|
        #[trigger] subfolder(tracks, s, d))
    ||| exists|r: Seq<char>|
        top_folder(tracks, r) && tracks_directly_in(tracks, r) == 0 && #[trigger] subfolder(tracks, r, s)
}

/// The directory of a top-level node: reached from a start by skipping directories that
/// are passed through.
pub open spec fn effective_root(tracks: Seq<TrackView>, p: Seq<char>) -> bool {
    exists|s: Seq<char>| start_folder(tracks, s) && #[trigger] lands_on(tracks, s, p)
}

/// The top directory a start belongs to: the start itself, or its parent.
pub open spec fn start_owner(tracks: Seq<TrackView>, s: Seq<char>) -> Seq<char> {
    if top_folder(tracks, s) {
        s
    } else {
        spec_path_parent(s)->0
    }
}

/// Start `a` comes before start `b`: by their top directories in `Path` order, and within
/// one top directory by their own paths.
pub open spec fn start_less(tracks: Seq<TrackView>, a: Seq<char>, b: Seq<char>) -> bool {
    if start_owner(tracks, a) != start_owner(tracks, b) {
        spec_path_less(start_owner(tracks, a), start_owner(tracks, b))
    } else {
        spec_path_less(a, b)
    }
}

/// The start that the directory `p` of a top-level node is reached from.
pub open spec fn start_of(tracks: Seq<TrackView>, p: Seq<char>) -> Seq<char> {
    choose|s: Seq<char>| start_folder(tracks, s) && lands_on(tracks, s, p)
}

/// Top-level nodes with equal lower-case names are in the order of the starts they are
/// reached from.
pub open spec fn roots_in_start_order(tracks: Seq<TrackView>, nodes: Seq<FolderTreeNode>, roots: Seq<usize>) -> bool {
    forall|i: int, j: int|
        0 <= i < j < roots.len() && name_key(nodes[#[trigger] roots[i] as int]) == name_key(
            nodes[#[trigger] roots[j] as int],
        ) ==> !start_less(
            tracks,
            start_of(tracks, nodes[roots[j] as int].path@),
            start_of(tracks, nodes[roots[i] as int].path@),
        )
}

/// No two nodes are for the same directory.
pub open spec fn paths_distinct(nodes: Seq<FolderTreeNode>) -> bool {
    forall|a: int, b: int| 0 <= a < b < nodes.len() ==> (#[trigger] nodes[a]).path@ != (#[trigger] nodes[b]).path@
}

/// The parent of a directory of the tree is in the tree.
proof fn lemma_tree_parent(tracks: Seq<TrackView>, d: Seq<char>, p: Seq<char>)
    requires
        tree_folder(tracks, d),
        spec_path_parent(d) == Some(p),
    ensures
        tree_folder(tracks, p),
{
    let (t, k) = choose|t: int, k: nat| 0 <= t < tracks.len() && #[trigger] track_ancestor(tracks, t, k) == Some(d);
    assert(track_ancestor(tracks, t, k + 1) == Some(p));
}

/// The unique subdirectory is unique.
proof fn lemma_sole_unique(tracks: Seq<TrackView>, n: Seq<char>, x: Seq<char>, y: Seq<char>)
    requires
        sole_subfolder(tracks, n, x),
        sole_subfolder(tracks, n, y),
    ensures
        x == y,
{
    assert(subfolder(tracks, n, y));
}

/// One more skip past a directory that is passed through.
proof fn lemma_skip_step(tracks: Seq<TrackView>, s: Seq<char>, p: Seq<char>, k: nat)
    requires
        skips_to(tracks, s, p, k),
        passes_through(tracks, p),
    ensures
        skips_to(tracks, s, choose|x: Seq<char>| sole_subfolder(tracks, p, x), k + 1),
    decreases k,
{
    let np = choose|x: Seq<char>| sole_subfolder(tracks, p, x);
    if k > 0 {
        let nx = choose|x: Seq<char>| sole_subfolder(tracks, s, x);
        lemma_skip_step(tracks, nx, p, (k - 1) as nat);
        assert(skips_to(tracks, nx, np, k));
    } else {
        assert(skips_to(tracks, np, np, 0));
    }
}

/// Skipping from one start ends at one directory.
proof fn lemma_skip_unique(tracks: Seq<TrackView>, s: Seq<char>, p1: Seq<char>, k1: nat, p2: Seq<char>, k2: nat)
    requires
        skips_to(tracks, s, p1, k1),
        !passes_through(tracks, p1),
        skips_to(tracks, s, p2, k2),
        !passes_through(tracks, p2),
    ensures
        p1 == p2,
    decreases k1,
{
    if k1 > 0 && k2 > 0 {
        let nx = choose|x: Seq<char>| sole_subfolder(tracks, s, x);
        lemma_skip_unique(tracks, nx, p1, (k1 - 1) as nat, p2, (k2 - 1) as nat);
    }
}

/// A track directly inside `d` witnesses that `d` holds one.
proof fn lemma_direct_witness(s: Seq<TrackView>, d: Seq<char>)
    requires
        tracks_directly_in(s, d) > 0,
    ensures
        exists|t: int| 0 <= t < s.len() && #[trigger] spec_path_parent(s[t].path) == Some(d),
    decreases s.len(),
{
    if spec_path_parent(s.last().path) == Some(d) {
        assert(spec_path_parent(s[s.len() - 1].path) == Some(d));
    } else {
        lemma_direct_witness(s.drop_last(), d);
        let t = choose|t: int| 0 <= t < s.drop_last().len() && #[trigger] spec_path_parent(s.drop_last()[t].path) == Some(d);
        assert(s.drop_last()[t] == s[t]);
    }
}

/// A directory that holds a track directly is in the tree.
proof fn lemma_direct_in_tree(s: Seq<TrackView>, d: Seq<char>)
    requires
        tracks_directly_in(s, d) > 0,
    ensures
        tree_folder(s, d),
{
    lemma_direct_witness(s, d);
    let t = choose|t: int| 0 <= t < s.len() && #[trigger] spec_path_parent(s[t].path) == Some(d);
    assert(track_ancestor(s, t, 0) == Some(d));
}

/// Inserting a new element into a list without duplicates keeps it without duplicates.
proof fn lemma_insert_new_no_dup(before: Seq<usize>, after: Seq<usize>, x: usize)
    requires
        before.no_duplicates(),
        !before.contains(x),
        after.to_multiset() == before.to_multiset().insert(x),
    ensures
        after.no_duplicates(),
{
    broadcast use vstd::seq_lib::group_to_multiset_ensures;

    before.lemma_multiset_has_no_duplicates();
    assert forall|y: usize| after.to_multiset().contains(y) implies after.to_multiset().count(y) == 1 by {
        if y != x {
            assert(before.to_multiset().contains(y));
        }
    }
    after.lemma_multiset_has_no_duplicates_conv();
}

/// Whatever starts with `child` starts with `parent` too.
spec fn starts_inherit(child: Seq<char>, parent: Seq<char>) -> bool {
    forall|x: Seq<char>| #[trigger] spec_path_starts_with(x, child) ==> spec_path_starts_with(x, parent)
}

/// Track `t` starts with the directory that holds it.
spec fn track_in_folder(tracks: Seq<TrackView>, t: int) -> bool {
    spec_path_parent(tracks[t].path) matches Some(p) ==> spec_path_starts_with(tracks[t].path, p)
}

/// The texts of `dirs` are pairwise different.
spec fn distinct_texts(dirs: Seq<String>) -> bool {
    forall|a: int, b: int| 0 <= a < b < dirs.len() ==> (#[trigger] dirs[a])@ != (#[trigger] dirs[b])@
}

/// Whether `d` is one of `dirs`.
spec fn listed(dirs: Seq<String>, d: Seq<char>) -> bool {
    exists|j: int| 0 <= j < dirs.len() && (#[trigger] dirs[j])@ == d
}

/// The directories that directly hold a track, each with the number of tracks directly
/// inside it.
fn direct_dirs(tracks: &Vec<LibraryTrack>) -> (r: (Vec<String>, Vec<usize>, Ghost<nat>))
    ensures
        r.1@.len() == r.0@.len(),
        distinct_texts(r.0@),
        forall|j: int| 0 <= j < r.0@.len() ==> (#[trigger] r.0@[j])@.len() < r.2@,
        forall|j: int|
            0 <= j < r.0@.len() ==> #[trigger] r.1@[j] == tracks_directly_in(views(tracks@), r.0@[j]@),
        forall|j: int| 0 <= j < r.0@.len() ==> #[trigger] r.1@[j] > 0,
        forall|d: Seq<char>|
            !listed(r.0@, d) ==> #[trigger] tracks_directly_in(views(tracks@), d) == 0,
        forall|t: int| 0 <= t < tracks@.len() ==> #[trigger] track_in_folder(views(tracks@), t),
{
    let mut dirs: Vec<String> = Vec::new();
    let mut direct: Vec<usize> = Vec::new();
    let ghost mut bound: nat = 0;
    let mut i: usize = 0;
    while i < tracks.len()
        invariant
            i <= tracks@.len(),
            direct@.len() == dirs@.len(),
            distinct_texts(dirs@),
            forall|j: int| 0 <= j < dirs@.len() ==> (#[trigger] dirs@[j])@.len() < bound,
            forall|j: int|
                0 <= j < dirs@.len() ==> #[trigger] direct@[j] == tracks_directly_in(
                    views(tracks@).take(i as int),
                    dirs@[j]@,
                ),
            forall|j: int| 0 <= j < dirs@.len() ==> 0 < #[trigger] direct@[j] <= i,
            forall|d: Seq<char>|
                !listed(dirs@, d) ==> #[trigger] tracks_directly_in(views(tracks@).take(i as int), d) == 0,
            forall|t: int| 0 <= t < i ==> #[trigger] track_in_folder(views(tracks@), t),
        decreases tracks@.len() - i,
    {
        let ghost pre = views(tracks@).take(i as int);
        let ghost next = views(tracks@).take(i as int + 1);
        assert(next.drop_last() =~= pre);
        assert(next.last() == tracks@[i as int]@);
        let parent = path_parent(tracks[i].path.as_str());
        assert(track_in_folder(views(tracks@), i as int));
        match parent {
            Some(p) => {
                assert(spec_path_parent(next.last().path) == Some(p@));
                match index_of_text(&dirs, &p) {
                    Some(j) => {
                        let v = direct[j] + 1;
                        direct.set(j, v);
                        assert forall|k: int| 0 <= k < dirs@.len() implies #[trigger] direct@[k]
                            == tracks_directly_in(next, dirs@[k]@) by {
                            if k != j {
                                assert(dirs@[k]@ != dirs@[j as int]@);
                            }
                        }
                        assert forall|d: Seq<char>| !listed(dirs@, d) implies #[trigger] tracks_directly_in(next, d)
                            == 0 by {
                            if d == p@ {
                                assert(dirs@[j as int]@ == d);
                            }
                            assert(tracks_directly_in(pre, d) == 0);
                        }
                    },
                    None => {
                        let ghost old_dirs = dirs@;
                        let ghost old_direct = direct@;
                        proof {
                            if p@.len() + 1 > bound {
                                bound = p@.len() + 1;
                            }
                        }
                        dirs.push(p);
                        direct.push(1);
                        assert(dirs@[dirs@.len() - 1]@ == p@);
                        assert forall|k: int| 0 <= k < dirs@.len() implies #[trigger] direct@[k]
                            == tracks_directly_in(next, dirs@[k]@) by {
                            if k < old_dirs.len() {
                                assert(dirs@[k] == old_dirs[k]);
                                assert(direct@[k] == old_direct[k]);
                                assert(old_dirs[k]@ != p@);
                            } else {
                                assert(!listed(old_dirs, p@));
                                assert(tracks_directly_in(pre, p@) == 0);
                            }
                        }
                        assert forall|d: Seq<char>| !listed(dirs@, d) implies #[trigger] tracks_directly_in(next, d)
                            == 0 by {
                            if listed(old_dirs, d) {
                                let q = choose|q: int| 0 <= q < old_dirs.len() && (#[trigger] old_dirs[q])@ == d;
                                assert(dirs@[q] == old_dirs[q]);
                            }
                            if d == p@ {
                                assert(dirs@[dirs@.len() - 1]@ == d);
                            }
                            assert(tracks_directly_in(pre, d) == 0);
                        }
                        assert forall|a: int, b: int| 0 <= a < b < dirs@.len() implies (#[trigger] dirs@[a])@
                            != (#[trigger] dirs@[b])@ by {
                            if b == dirs@.len() - 1 {
                                assert(dirs@[a] == old_dirs[a]);
                            } else {
                                assert(dirs@[a] == old_dirs[a] && dirs@[b] == old_dirs[b]);
                            }
                        }
                    },
                }
            },
            None => {
                assert(spec_path_parent(next.last().path) is None);
                assert forall|k: int| 0 <= k < dirs@.len() implies #[trigger] direct@[k]
                    == tracks_directly_in(next, dirs@[k]@) by {}
                assert forall|d: Seq<char>| !listed(dirs@, d) implies #[trigger] tracks_directly_in(next, d)
                    == 0 by {
                    assert(tracks_directly_in(pre, d) == 0);
                }
            },
        }
        i = i + 1;
    }
    assert(views(tracks@).take(tracks@.len() as int) =~= views(tracks@));
    (dirs, direct, Ghost(bound))
}

proof fn lemma_listed_push(dirs: Seq<String>, s: String, d: Seq<char>)
    requires
        listed(dirs, d),
    ensures
        listed(dirs.push(s), d),
{
    let j = choose|j: int| 0 <= j < dirs.len() && (#[trigger] dirs[j])@ == d;
    assert(dirs.push(s)[j] == dirs[j]);
}

/// Every listed directory that has a parent has its parent listed too.
spec fn closed_under_parent(dirs: Seq<String>) -> bool {
    forall|j: int|
        0 <= j < dirs.len() ==> (spec_path_parent((#[trigger] dirs[j])@) matches Some(p) ==> listed(dirs, p))
}

/// Lists every ancestor of the listed directories, with no track directly inside.
fn add_ancestors(
    dirs: &mut Vec<String>,
    direct: &mut Vec<usize>,
    Ghost(bound): Ghost<nat>,
    Ghost(tracks): Ghost<Seq<TrackView>>,
)
    requires
        forall|j: int| 0 <= j < old(dirs)@.len() ==> tree_folder(tracks, (#[trigger] old(dirs)@[j])@),
        old(direct)@.len() == old(dirs)@.len(),
        distinct_texts(old(dirs)@),
        forall|j: int| 0 <= j < old(dirs)@.len() ==> (#[trigger] old(dirs)@[j])@.len() < bound,
    ensures
        final(direct)@.len() == final(dirs)@.len(),
        old(dirs)@.len() <= final(dirs)@.len(),
        distinct_texts(final(dirs)@),
        forall|j: int| 0 <= j < final(dirs)@.len() ==> (#[trigger] final(dirs)@[j])@.len() < bound,
        forall|j: int| 0 <= j < old(dirs)@.len() ==> #[trigger] final(dirs)@[j] == old(dirs)@[j],
        forall|j: int| 0 <= j < old(dirs)@.len() ==> #[trigger] final(direct)@[j] == old(direct)@[j],
        forall|j: int| old(dirs)@.len() <= j < final(dirs)@.len() ==> #[trigger] final(direct)@[j] == 0,
        closed_under_parent(final(dirs)@),
        forall|j: int| 0 <= j < final(dirs)@.len() ==> tree_folder(tracks, (#[trigger] final(dirs)@[j])@),
{
    let n0 = dirs.len();
    let mut q: usize = 0;
    while q < n0
        invariant
            q <= n0,
            n0 == old(dirs)@.len(),
            direct@.len() == dirs@.len(),
            n0 <= dirs@.len(),
            distinct_texts(dirs@),
            forall|j: int| 0 <= j < dirs@.len() ==> (#[trigger] dirs@[j])@.len() < bound,
                forall|j: int| 0 <= j < dirs@.len() ==> tree_folder(tracks, (#[trigger] dirs@[j])@),
            forall|j: int| 0 <= j < n0 ==> #[trigger] dirs@[j] == old(dirs)@[j],
            forall|j: int| 0 <= j < n0 ==> #[trigger] direct@[j] == old(direct)@[j],
            forall|j: int| n0 <= j < dirs@.len() ==> #[trigger] direct@[j] == 0,
            forall|j: int|
                0 <= j < dirs@.len() ==> (q <= j < n0) || (spec_path_parent((#[trigger] dirs@[j])@) matches Some(
                    p,
                ) ==> listed(dirs@, p)),
        decreases n0 - q,
    {
        let mut cur = dirs[q].clone();
        loop
            invariant_except_break
                q < n0,
                n0 == old(dirs)@.len(),
                direct@.len() == dirs@.len(),
                n0 <= dirs@.len(),
                distinct_texts(dirs@),
                forall|j: int| 0 <= j < dirs@.len() ==> (#[trigger] dirs@[j])@.len() < bound,
                forall|j: int| 0 <= j < dirs@.len() ==> tree_folder(tracks, (#[trigger] dirs@[j])@),
                forall|j: int| 0 <= j < n0 ==> #[trigger] dirs@[j] == old(dirs)@[j],
                forall|j: int| 0 <= j < n0 ==> #[trigger] direct@[j] == old(direct)@[j],
                forall|j: int| n0 <= j < dirs@.len() ==> #[trigger] direct@[j] == 0,
                listed(dirs@, cur@),
                forall|j: int|
                    0 <= j < dirs@.len() ==> (q < j < n0) || (#[trigger] dirs@[j])@ == cur@ || (spec_path_parent(
                        dirs@[j]@,
                    ) matches Some(p) ==> listed(dirs@, p)),
            ensures
                direct@.len() == dirs@.len(),
                n0 <= dirs@.len(),
                distinct_texts(dirs@),
                forall|j: int| 0 <= j < dirs@.len() ==> (#[trigger] dirs@[j])@.len() < bound,
                forall|j: int| 0 <= j < dirs@.len() ==> tree_folder(tracks, (#[trigger] dirs@[j])@),
                forall|j: int| 0 <= j < n0 ==> #[trigger] dirs@[j] == old(dirs)@[j],
                forall|j: int| 0 <= j < n0 ==> #[trigger] direct@[j] == old(direct)@[j],
                forall|j: int| n0 <= j < dirs@.len() ==> #[trigger] direct@[j] == 0,
                forall|j: int|
                    0 <= j < dirs@.len() ==> (q < j < n0) || (spec_path_parent((#[trigger] dirs@[j])@) matches Some(
                        p,
                    ) ==> listed(dirs@, p)),
            decreases cur@.len(),
        {
            match path_parent(cur.as_str()) {
                None => {
                    break;
                },
                Some(p) => {
                    let ghost old_dirs = dirs@;
                    let ghost old_direct = direct@;
                    let ghost old_cur = cur@;
                    match index_of_text(&dirs, &p) {
                        Some(_) => {},
                        None => {
                            proof {
                                let bj = choose|j: int| 0 <= j < dirs@.len() && (#[trigger] dirs@[j])@ == cur@;
                                assert(dirs@[bj]@.len() < bound);
                                assert(tree_folder(tracks, dirs@[bj]@));
                                lemma_tree_parent(tracks, cur@, p@);
                            }
                            dirs.push(p.clone());
                            direct.push(0);
                            proof {
                                assert forall|d: Seq<char>| listed(old_dirs, d) implies listed(dirs@, d) by {
                                    lemma_listed_push(old_dirs, p, d);
                                }
                                assert(dirs@[dirs@.len() - 1]@ == p@);
                                assert forall|a: int, b: int| 0 <= a < b < dirs@.len() implies (#[trigger] dirs@[a])@
                                    != (#[trigger] dirs@[b])@ by {
                                    if b == dirs@.len() - 1 {
                                        assert(dirs@[a] == old_dirs[a]);
                                    } else {
                                        assert(dirs@[a] == old_dirs[a] && dirs@[b] == old_dirs[b]);
                                    }
                                }
                            }
                        },
                    }
                    assert(listed(dirs@, p@));
                    assert(forall|d: Seq<char>| listed(old_dirs, d) ==> listed(dirs@, d));
                    assert forall|j: int|
                        0 <= j < dirs@.len() implies (q < j < n0) || (#[trigger] dirs@[j])@ == p@ || (
                        spec_path_parent(dirs@[j]@) matches Some(pp) ==> listed(dirs@, pp)) by {
                        if j < old_dirs.len() {
                            assert(dirs@[j] == old_dirs[j]);
                            if dirs@[j]@ == old_cur {
                                assert(spec_path_parent(dirs@[j]@) == Some(p@));
                            } else if !(q < j < n0) {
                                if let Some(pp) = spec_path_parent(dirs@[j]@) {
                                    assert(listed(old_dirs, pp));
                                }
                            }
                        }
                    }
                    cur = p;
                },
            }
        }
        q = q + 1;
    }
}

proof fn lemma_insert_members(before: Seq<usize>, after: Seq<usize>, x: usize)
    requires
        after.to_multiset() == before.to_multiset().insert(x),
    ensures
        forall|y: usize| after.contains(y) <==> (y == x || before.contains(y)),
{
    broadcast use vstd::seq_lib::group_to_multiset_ensures;

    assert forall|y: usize| after.contains(y) <==> (y == x || before.contains(y)) by {
        assert(after.contains(y) <==> after.to_multiset().count(y) > 0);
        assert(before.contains(y) <==> before.to_multiset().count(y) > 0);
    }
}

/// Every ancestor of a listed directory is listed, when the list is closed under parents.
proof fn lemma_ancestor_listed(dirs: Seq<String>, p: Seq<char>, k: nat, d: Seq<char>)
    requires
        closed_under_parent(dirs),
        listed(dirs, p),
        ancestor(p, k) == Some(d),
    ensures
        listed(dirs, d),
    decreases k,
{
    if k > 0 {
        if let Some(q) = ancestor(p, (k - 1) as nat) {
            lemma_ancestor_listed(dirs, p, (k - 1) as nat, q);
            let j = choose|j: int| 0 <= j < dirs.len() && (#[trigger] dirs[j])@ == q;
            assert(spec_path_parent(dirs[j]@) == Some(d));
        }
    }
}

/// The directories listed by `order` are in `Path` order: none sorts before an earlier one.
spec fn path_sorted(dirs: Seq<String>, order: Seq<usize>) -> bool {
    forall|i: int, j: int|
        0 <= i < j < order.len() ==> !spec_path_less(
            dirs[#[trigger] order[j] as int]@,
            dirs[#[trigger] order[i] as int]@,
        )
}

/// Among the entries of `order` with equal keys, `ok` holds of each earlier and later one.
pub open spec fn ties_ordered(
    order: Seq<usize>,
    key: spec_fn(usize) -> Seq<char>,
    ok: spec_fn(usize, usize) -> bool,
) -> bool {
    forall|i: int, j: int| 0 <= i < j < order.len() && key(#[trigger] order[i]) == key(#[trigger] order[j]) ==> ok(order[i], order[j])
}

/// A stable insertion into a list sorted by key keeps ties ordered, when the new entry may
/// follow every earlier entry with its key.
proof fn lemma_ties_insert(
    before: Seq<usize>,
    x: usize,
    p: int,
    key: spec_fn(usize) -> Seq<char>,
    ok: spec_fn(usize, usize) -> bool,
)
    requires
        0 <= p <= before.len(),
        ties_ordered(before, key, ok),
        forall|i: int, j: int| 0 <= i < j < before.len() ==> !text_less(key(#[trigger] before[j]), key(#[trigger] before[i])),
        forall|i: int| 0 <= i < p && key(#[trigger] before[i]) == key(x) ==> ok(before[i], x),
        p < before.len() ==> text_less(key(x), key(before[p])),
    ensures
        ties_ordered(before.insert(p, x), key, ok),
{
    let after = before.insert(p, x);
    assert forall|i: int, j: int| 0 <= i < j < after.len() && key(#[trigger] after[i]) == key(#[trigger] after[j]) implies ok(
        after[i],
        after[j],
    ) by {
        if j < p {
            assert(after[i] == before[i] && after[j] == before[j]);
        } else if j == p {
            assert(after[i] == before[i] && after[j] == x);
        } else if i < p {
            assert(after[i] == before[i] && after[j] == before[j - 1]);
        } else if i == p {
            assert(after[i] == x && after[j] == before[j - 1]);
            crate::player::lemma_text_less_irreflexive(key(x));
            if j - 1 > p {
                assert(!text_less(key(before[j - 1]), key(before[p])));
            }
        } else {
            assert(after[i] == before[i - 1] && after[j] == before[j - 1]);
        }
    }
}

/// Inserts `x` into `order`, kept in `Path` order, after every entry whose directory does
/// not sort after that of `x`.
fn insert_by_path(order: &mut Vec<usize>, dirs: &Vec<String>, x: usize)
    requires
        x < dirs@.len(),
        forall|k: int| 0 <= k < old(order)@.len() ==> #[trigger] old(order)@[k] < dirs@.len(),
        path_sorted(dirs@, old(order)@),
    ensures
        final(order)@.len() == old(order)@.len() + 1,
        final(order)@.to_multiset() == old(order)@.to_multiset().insert(x),
        forall|k: int| 0 <= k < final(order)@.len() ==> #[trigger] final(order)@[k] < dirs@.len(),
        path_sorted(dirs@, final(order)@),
{
    let mut p: usize = 0;
    loop
        invariant_except_break
            p <= order@.len(),
            order@ == old(order)@,
            x < dirs@.len(),
            forall|k: int| 0 <= k < order@.len() ==> #[trigger] order@[k] < dirs@.len(),
            forall|j: int| 0 <= j < p ==> !spec_path_less(dirs@[x as int]@, dirs@[#[trigger] order@[j] as int]@),
        ensures
            p <= order@.len(),
            order@ == old(order)@,
            forall|j: int| 0 <= j < p ==> !spec_path_less(dirs@[x as int]@, dirs@[#[trigger] order@[j] as int]@),
            p < order@.len() ==> spec_path_less(dirs@[x as int]@, dirs@[order@[p as int] as int]@)
                && !spec_path_less(dirs@[order@[p as int] as int]@, dirs@[x as int]@) && forall|c: Seq<char>|
                #[trigger] spec_path_less(c, dirs@[x as int]@) ==> spec_path_less(c, dirs@[order@[p as int] as int]@),
        decreases order@.len() - p,
    {
        if p >= order.len() {
            break;
        }
        if path_less(dirs[x].as_str(), dirs[order[p]].as_str()) {
            break;
        }
        p = p + 1;
    }
    let ghost before = order@;
    order.insert(p, x);
    proof {
        broadcast use vstd::seq_lib::group_to_multiset_ensures;

        assert(order@ =~= before.take(p as int).push(x) + before.skip(p as int));
        assert(before =~= before.take(p as int) + before.skip(p as int));
        vstd::seq_lib::lemma_multiset_commutative(before.take(p as int).push(x), before.skip(p as int));
        vstd::seq_lib::lemma_multiset_commutative(before.take(p as int), before.skip(p as int));
        assert forall|k: int| 0 <= k < order@.len() implies #[trigger] order@[k] < dirs@.len() by {
            if k > p {
                assert(order@[k] == before[k - 1]);
            }
        }
        let dx = dirs@[x as int]@;
        assert forall|i: int, j: int| 0 <= i < j < order@.len() implies !spec_path_less(
            dirs@[#[trigger] order@[j] as int]@,
            dirs@[#[trigger] order@[i] as int]@,
        ) by {
            if j < p {
                assert(order@[i] == before[i] && order@[j] == before[j]);
            } else if j == p {
                assert(order@[i] == before[i] && order@[j] == x);
            } else if i < p {
                assert(order@[i] == before[i] && order@[j] == before[j - 1]);
            } else if i == p {
                assert(order@[i] == x && order@[j] == before[j - 1]);
                let dj = dirs@[before[j - 1] as int]@;
                let dp = dirs@[before[p as int] as int]@;
                if spec_path_less(dj, dx) {
                    assert(spec_path_less(dj, dp));
                    if j - 1 > p {
                        assert(!spec_path_less(dirs@[before[j - 1] as int]@, dirs@[before[p as int] as int]@));
                    }
                }
            } else {
                assert(order@[i] == before[i - 1] && order@[j] == before[j - 1]);
            }
        }
    }
}

/// For each directory, the index of its parent directory, if that is listed.
fn parent_indices(dirs: &Vec<String>) -> (r: Vec<Option<usize>>)
    requires
        distinct_texts(dirs@),
        closed_under_parent(dirs@),
    ensures
        r@.len() == dirs@.len(),
        forall|d: int|
            0 <= d < dirs@.len() ==> match #[trigger] r@[d] {
                Some(j) => j < dirs@.len() && spec_path_parent(dirs@[d]@) == Some(dirs@[j as int]@)
                    && dirs@[j as int]@.len() < dirs@[d]@.len() && starts_inherit(dirs@[d]@, dirs@[j as int]@),
                None => spec_path_parent(dirs@[d]@) is None,
            },
{
    let mut r: Vec<Option<usize>> = Vec::new();
    let mut d: usize = 0;
    while d < dirs.len()
        invariant
            d <= dirs@.len(),
            r@.len() == d,
            closed_under_parent(dirs@),
            forall|e: int|
                0 <= e < d ==> match #[trigger] r@[e] {
                    Some(j) => j < dirs@.len() && spec_path_parent(dirs@[e]@) == Some(dirs@[j as int]@)
                        && dirs@[j as int]@.len() < dirs@[e]@.len() && starts_inherit(dirs@[e]@, dirs@[j as int]@),
                    None => spec_path_parent(dirs@[e]@) is None,
                },
        decreases dirs@.len() - d,
    {
        let ghost dd = dirs@[d as int];
        let entry = match path_parent(dirs[d].as_str()) {
            Some(p) => {
                let found = index_of_text(dirs, &p);
                proof {
                    if found is None {
                        assert(spec_path_parent(dd@) == Some(p@));
                        assert(listed(dirs@, p@));
                        let w = choose|w: int| 0 <= w < dirs@.len() && (#[trigger] dirs@[w])@ == p@;
                        assert(dirs@[w]@ != p@);
                    }
                }
                found
            },
            None => None,
        };
        r.push(entry);
        d = d + 1;
    }
    r
}

/// The directories whose parent index is `target`, in `Path` order.
fn dirs_with_parent(dirs: &Vec<String>, parents: &Vec<Option<usize>>, target: Option<usize>) -> (r: Vec<usize>)
    requires
        parents@.len() == dirs@.len(),
    ensures
        forall|k: int| 0 <= k < r@.len() ==> #[trigger] r@[k] < dirs@.len() && parents@[r@[k] as int] == target,
        forall|d: usize| d < dirs@.len() && parents@[d as int] == target ==> r@.contains(d),
        r@.no_duplicates(),
        path_sorted(dirs@, r@),
{
    let mut r: Vec<usize> = Vec::new();
    let mut d: usize = 0;
    while d < dirs.len()
        invariant
            d <= dirs@.len(),
            parents@.len() == dirs@.len(),
            forall|k: int| 0 <= k < r@.len() ==> #[trigger] r@[k] < d && parents@[r@[k] as int] == target,
            forall|e: usize| e < d && parents@[e as int] == target ==> r@.contains(e),
            r@.no_duplicates(),
            path_sorted(dirs@, r@),
        decreases dirs@.len() - d,
    {
        let matches_target = match (parents[d], target) {
            (Some(a), Some(b)) => a == b,
            (None, None) => true,
            _ => false,
        };
        if matches_target {
            let ghost before = r@;
            insert_by_path(&mut r, dirs, d);
            proof {
                lemma_insert_members(before, r@, d);
                if before.contains(d) {
                    let w = choose|w: int| 0 <= w < before.len() && before[w] == d;
                    assert(before[w] < d);
                }
                lemma_insert_new_no_dup(before, r@, d);
                assert forall|k: int| 0 <= k < r@.len() implies #[trigger] r@[k] < d + 1 && parents@[r@[k] as int]
                    == target by {
                    assert(r@.contains(r@[k]));
                    if r@[k] != d {
                        assert(before.contains(r@[k]));
                    }
                }
            }
        }
        d = d + 1;
    }
    r
}

/// The directory facts the tree is built from.
struct DirTable {
    /// Every directory that holds a track, directly or below.
    dirs: Vec<String>,
    /// Tracks directly inside each directory.
    direct: Vec<usize>,
    /// Tracks inside each directory, at any depth.
    totals: Vec<usize>,
    /// The index of each directory's parent; `None` for a file-system root.
    parents: Vec<Option<usize>>,
    /// Subdirectories of each directory, in path order.
    children: Vec<Vec<usize>>,
    /// One more than the longest directory path.
    bound: Ghost<nat>,
}

impl DirTable {
    spec fn wf(&self, tracks: Seq<TrackView>) -> bool {
        &&& self.direct@.len() == self.dirs@.len()
        &&& self.totals@.len() == self.dirs@.len()
        &&& self.parents@.len() == self.dirs@.len()
        &&& self.children@.len() == self.dirs@.len()
        &&& distinct_texts(self.dirs@)
        &&& forall|i: int| 0 <= i < self.dirs@.len() ==> (#[trigger] self.dirs@[i])@.len() < self.bound@
        &&& forall|i: int|
            0 <= i < self.dirs@.len() ==> #[trigger] self.totals@[i] == tracks_under(tracks, self.dirs@[i]@)
        &&& forall|i: int|
            0 <= i < self.dirs@.len() ==> #[trigger] self.direct@[i] == tracks_directly_in(tracks, self.dirs@[i]@)
        &&& forall|d: int|
            0 <= d < self.dirs@.len() ==> match #[trigger] self.parents@[d] {
                Some(j) => j < self.dirs@.len() && spec_path_parent(self.dirs@[d]@) == Some(self.dirs@[j as int]@)
                    && self.dirs@[j as int]@.len() < self.dirs@[d]@.len() && starts_inherit(
                    self.dirs@[d]@,
                    self.dirs@[j as int]@,
                ),
                None => spec_path_parent(self.dirs@[d]@) is None,
            }
        &&& forall|i: int, k: int|
            0 <= i < self.dirs@.len() && 0 <= k < self.children@[i]@.len() ==> {
                let c = #[trigger] self.children@[i]@[k];
                &&& c < self.dirs@.len()
                &&& self.parents@[c as int] == Some(i as usize)
                &&& spec_path_parent(self.dirs@[c as int]@) == Some(self.dirs@[i]@)
                &&& self.dirs@[i]@.len() < self.dirs@[c as int]@.len()
            }
        &&& forall|i: int, c: usize|
            0 <= i < self.dirs@.len() && c < self.dirs@.len() && self.parents@[c as int] == Some(i as usize)
                ==> #[trigger] self.children@[i]@.contains(c)
        &&& forall|i: int| 0 <= i < self.dirs@.len() ==> (#[trigger] self.children@[i])@.no_duplicates()
        &&& forall|i: int| 0 <= i < self.dirs@.len() ==> path_sorted(self.dirs@, (#[trigger] self.children@[i])@)
        &&& forall|i: int| 0 <= i < self.dirs@.len() ==> tree_folder(tracks, (#[trigger] self.dirs@[i])@)
        &&& forall|d: Seq<char>| #[trigger] tree_folder(tracks, d) ==> listed(self.dirs@, d)
    }
}

/// Each parent index refers to a shorter listed directory.
spec fn parents_shrink(t: DirTable) -> bool {
    forall|d: int|
        0 <= d < t.dirs@.len() ==> (#[trigger] t.parents@[d] matches Some(j) ==> j < t.dirs@.len()
            && t.dirs@[j as int]@.len() < t.dirs@[d]@.len())
}

/// Directory `d` is `a` or lies below it, following parent indices.
spec fn below(t: DirTable, d: int, a: int) -> bool
    decreases t.dirs@[d]@.len(),
    when 0 <= d < t.dirs@.len() && parents_shrink(t)
{
    if d == a {
        true
    } else {
        match t.parents@[d] {
            Some(p) => below(t, p as int, a),
            None => false,
        }
    }
}

proof fn lemma_wf_shrink(t: DirTable, tracks: Seq<TrackView>)
    requires
        t.wf(tracks),
    ensures
        parents_shrink(t),
{
    assert forall|d: int| 0 <= d < t.dirs@.len() implies (#[trigger] t.parents@[d] matches Some(j) ==> j
        < t.dirs@.len() && t.dirs@[j as int]@.len() < t.dirs@[d]@.len()) by {
        match t.parents@[d] {
            Some(j) => {},
            None => {},
        }
    }
}

/// A directory strictly below `x` lies below one of the subdirectories of `x`.
proof fn lemma_below_child(t: DirTable, tracks: Seq<TrackView>, d: int, x: int) -> (y: usize)
    requires
        t.wf(tracks),
        0 <= d < t.dirs@.len(),
        0 <= x < t.dirs@.len(),
        below(t, d, x),
        d != x,
    ensures
        y < t.dirs@.len(),
        t.parents@[y as int] == Some(x as usize),
        t.children@[x]@.contains(y),
        below(t, d, y as int),
    decreases t.dirs@[d]@.len(),
{
    lemma_wf_shrink(t, tracks);
    let p = t.parents@[d]->0;
    assert(t.parents@[d] is Some);
    if p as int == x {
        assert(t.dirs@.len() == t.dirs.len());
        assert((d as usize) as int == d);
        d as usize
    } else {
        let y = lemma_below_child(t, tracks, p as int, x);
        if d != y as int {
            assert(below(t, d, y as int));
        }
        y
    }
}

/// Every directory lies below a file-system root.
proof fn lemma_below_root(t: DirTable, tracks: Seq<TrackView>, d: int) -> (r: usize)
    requires
        t.wf(tracks),
        0 <= d < t.dirs@.len(),
    ensures
        r < t.dirs@.len(),
        t.parents@[r as int] is None,
        below(t, d, r as int),
    decreases t.dirs@[d]@.len(),
{
    lemma_wf_shrink(t, tracks);
    match t.parents@[d] {
        None => {
            assert(t.dirs@.len() == t.dirs.len());
            assert((d as usize) as int == d);
            d as usize
        },
        Some(p) => {
            let r = lemma_below_root(t, tracks, p as int);
            if d != r as int {
                assert(below(t, d, r as int));
            }
            r
        },
    }
}

/// Equal texts in the table are the same entry.
proof fn lemma_same_text(t: DirTable, tracks: Seq<TrackView>, a: int, b: int)
    requires
        t.wf(tracks),
        0 <= a < t.dirs@.len(),
        0 <= b < t.dirs@.len(),
        t.dirs@[a]@ == t.dirs@[b]@,
    ensures
        a == b,
{
    if a < b {
        assert(t.dirs@[a]@ != t.dirs@[b]@);
    } else if b < a {
        assert(t.dirs@[b]@ != t.dirs@[a]@);
    }
}

/// The subdirectories of a listed directory in the tree are those of its child list.
proof fn lemma_sub(t: DirTable, tracks: Seq<TrackView>, j: int, d: Seq<char>)
    requires
        t.wf(tracks),
        0 <= j < t.dirs@.len(),
    ensures
        subfolder(tracks, t.dirs@[j]@, d) <==> exists|k: int|
            0 <= k < t.children@[j]@.len() && t.dirs@[#[trigger] t.children@[j]@[k] as int]@ == d,
{
    if subfolder(tracks, t.dirs@[j]@, d) {
        assert(listed(t.dirs@, d));
        let w = choose|w: int| 0 <= w < t.dirs@.len() && (#[trigger] t.dirs@[w])@ == d;
        match t.parents@[w] {
            Some(p) => {
                lemma_same_text(t, tracks, p as int, j);
                assert(t.dirs@.len() == t.dirs.len());
                assert((w as usize) as int == w);
                assert(t.children@[j]@.contains(w as usize));
                let k = choose|k: int| 0 <= k < t.children@[j]@.len() && t.children@[j]@[k] == w as usize;
                assert(t.dirs@[t.children@[j]@[k] as int]@ == d);
            },
            None => {},
        }
    }
    if exists|k: int| 0 <= k < t.children@[j]@.len() && t.dirs@[#[trigger] t.children@[j]@[k] as int]@ == d {
        let k = choose|k: int| 0 <= k < t.children@[j]@.len() && t.dirs@[#[trigger] t.children@[j]@[k] as int]@ == d;
        let c = t.children@[j]@[k];
        assert(tree_folder(tracks, t.dirs@[c as int]@));
    }
}

/// A listed directory is passed through exactly when it holds no track directly and has one
/// child; that child is then its sole subdirectory.
proof fn lemma_pass(t: DirTable, tracks: Seq<TrackView>, j: int)
    requires
        t.wf(tracks),
        0 <= j < t.dirs@.len(),
    ensures
        passes_through(tracks, t.dirs@[j]@) <==> (t.direct@[j] == 0 && t.children@[j]@.len() == 1),
        t.children@[j]@.len() == 1 ==> sole_subfolder(tracks, t.dirs@[j]@, t.dirs@[t.children@[j]@[0] as int]@),
        t.children@[j]@.len() == 1 ==> (choose|x: Seq<char>| sole_subfolder(tracks, t.dirs@[j]@, x))
            == t.dirs@[t.children@[j]@[0] as int]@,
{
    let n = t.dirs@[j]@;
    let kids = t.children@[j]@;
    if kids.len() == 1 {
        let x = t.dirs@[kids[0] as int]@;
        lemma_sub(t, tracks, j, x);
        assert(t.dirs@[kids[0] as int]@ == x);
        assert forall|y: Seq<char>| #[trigger] subfolder(tracks, n, y) implies y == x by {
            lemma_sub(t, tracks, j, y);
        }
        assert(sole_subfolder(tracks, n, x));
        let c = choose|x: Seq<char>| sole_subfolder(tracks, n, x);
        lemma_sole_unique(tracks, n, x, c);
    }
    if passes_through(tracks, n) {
        let x = choose|x: Seq<char>| sole_subfolder(tracks, n, x);
        lemma_sub(t, tracks, j, x);
        let k = choose|k: int| 0 <= k < kids.len() && t.dirs@[#[trigger] kids[k] as int]@ == x;
        if kids.len() >= 2 {
            let y0 = t.dirs@[kids[0] as int]@;
            let y1 = t.dirs@[kids[1] as int]@;
            lemma_sub(t, tracks, j, y0);
            lemma_sub(t, tracks, j, y1);
            assert(t.dirs@[kids[0] as int]@ == y0);
            assert(t.dirs@[kids[1] as int]@ == y1);
            assert(kids[0] != kids[1]);
            lemma_same_text(t, tracks, kids[0] as int, kids[1] as int);
        }
    }
}

/// A listed directory is a top directory exactly when it has no parent.
proof fn lemma_top(t: DirTable, tracks: Seq<TrackView>, j: int)
    requires
        t.wf(tracks),
        0 <= j < t.dirs@.len(),
    ensures
        top_folder(tracks, t.dirs@[j]@) <==> t.parents@[j] is None,
{
    match t.parents@[j] {
        Some(p) => {
            assert(tree_folder(tracks, t.dirs@[p as int]@));
        },
        None => {},
    }
}

/// Below is ordered by path length.
proof fn lemma_below_len(t: DirTable, tracks: Seq<TrackView>, x: int, a: int)
    requires
        t.wf(tracks),
        0 <= x < t.dirs@.len(),
        0 <= a < t.dirs@.len(),
        below(t, x, a),
    ensures
        t.dirs@[a]@.len() <= t.dirs@[x]@.len(),
        x != a ==> t.dirs@[a]@.len() < t.dirs@[x]@.len(),
    decreases t.dirs@[x]@.len(),
{
    lemma_wf_shrink(t, tracks);
    if x != a {
        let p = t.parents@[x]->0;
        lemma_below_len(t, tracks, p as int, a);
    }
}

/// Below is transitive.
proof fn lemma_below_trans(t: DirTable, tracks: Seq<TrackView>, x: int, y: int, z: int)
    requires
        t.wf(tracks),
        0 <= x < t.dirs@.len(),
        0 <= y < t.dirs@.len(),
        0 <= z < t.dirs@.len(),
        below(t, x, y),
        below(t, y, z),
    ensures
        below(t, x, z),
    decreases t.dirs@[x]@.len(),
{
    lemma_wf_shrink(t, tracks);
    if x != y {
        let p = t.parents@[x]->0;
        lemma_below_trans(t, tracks, p as int, y, z);
    }
}

/// Two directories above one directory are one above the other.
proof fn lemma_below_linear(t: DirTable, tracks: Seq<TrackView>, x: int, a: int, b: int)
    requires
        t.wf(tracks),
        0 <= x < t.dirs@.len(),
        0 <= a < t.dirs@.len(),
        0 <= b < t.dirs@.len(),
        below(t, x, a),
        below(t, x, b),
    ensures
        below(t, a, b) || below(t, b, a),
    decreases t.dirs@[x]@.len(),
{
    lemma_wf_shrink(t, tracks);
    if x != a && x != b {
        let p = t.parents@[x]->0;
        lemma_below_linear(t, tracks, p as int, a, b);
    }
}

/// Nothing lies below two different children of one directory.
proof fn lemma_siblings_apart(t: DirTable, tracks: Seq<TrackView>, x: int, c1: int, c2: int)
    requires
        t.wf(tracks),
        0 <= x < t.dirs@.len(),
        0 <= c1 < t.dirs@.len(),
        0 <= c2 < t.dirs@.len(),
        c1 != c2,
        t.parents@[c1] is Some,
        t.parents@[c1] == t.parents@[c2],
    ensures
        !(below(t, x, c1) && below(t, x, c2)),
{
    lemma_wf_shrink(t, tracks);
    if below(t, x, c1) && below(t, x, c2) {
        lemma_below_linear(t, tracks, x, c1, c2);
        let p = t.parents@[c1]->0;
        if below(t, c1, c2) {
            lemma_below_len(t, tracks, p as int, c2);
        } else {
            lemma_below_len(t, tracks, p as int, c1);
        }
    }
}

/// Directory `s` starts a top-level node: a file-system root, unless it holds no track
/// directly and has children, in which case each of those children.
spec fn start_idx(t: DirTable, s: int) -> bool {
    ||| t.parents@[s] is None && !(t.direct@[s] == 0 && t.children@[s]@.len() > 0)
    ||| t.parents@[s] matches Some(r) && t.parents@[r as int] is None && t.direct@[r as int] == 0
        && t.children@[r as int]@.len() > 0
}

/// The root a start belongs to.
spec fn owner(t: DirTable, s: int) -> int {
    match t.parents@[s] {
        Some(p) => p as int,
        None => s,
    }
}

proof fn lemma_start_idx(t: DirTable, tracks: Seq<TrackView>, j: int)
    requires
        t.wf(tracks),
        0 <= j < t.dirs@.len(),
    ensures
        start_idx(t, j) <==> start_folder(tracks, t.dirs@[j]@),
{
    let n = t.dirs@[j]@;
    lemma_top(t, tracks, j);
    if t.parents@[j] is None {
        if t.direct@[j] == 0 && t.children@[j]@.len() > 0 {
            let c = t.children@[j]@[0];
            lemma_sub(t, tracks, j, t.dirs@[c as int]@);
            assert(subfolder(tracks, n, t.dirs@[c as int]@));
        }
        assert forall|d: Seq<char>| #[trigger] subfolder(tracks, n, d) implies t.children@[j]@.len() > 0 by {
            lemma_sub(t, tracks, j, d);
        }
    }
    if let Some(r) = t.parents@[j] {
        if t.parents@[r as int] is None && t.direct@[r as int] == 0 && t.children@[r as int]@.len() > 0 {
            lemma_top(t, tracks, r as int);
            assert(tree_folder(tracks, n));
            assert(subfolder(tracks, t.dirs@[r as int]@, n));
        }
    }
    if start_folder(tracks, n) && !(top_folder(tracks, n) && !(tracks_directly_in(tracks, n) == 0 && exists|d: Seq<char>|
        #[trigger] subfolder(tracks, n, d))) {
        let r = choose|r: Seq<char>|
            top_folder(tracks, r) && tracks_directly_in(tracks, r) == 0 && #[trigger] subfolder(tracks, r, n);
        assert(tree_folder(tracks, r));
        assert(listed(t.dirs@, r));
        let w = choose|w: int| 0 <= w < t.dirs@.len() && (#[trigger] t.dirs@[w])@ == r;
        lemma_top(t, tracks, w);
        match t.parents@[j] {
            Some(p) => {
                lemma_same_text(t, tracks, p as int, w);
                assert(t.dirs@.len() == t.dirs.len());
                assert((j as usize) as int == j);
                assert(t.children@[w]@.contains(j as usize));
            },
            None => {},
        }
    }
}

/// A start never lies below another start.
proof fn lemma_start_not_below(t: DirTable, tracks: Seq<TrackView>, a: int, b: int)
    requires
        t.wf(tracks),
        0 <= a < t.dirs@.len(),
        0 <= b < t.dirs@.len(),
        a != b,
        start_idx(t, a),
        start_idx(t, b),
    ensures
        !below(t, b, a),
{
    lemma_wf_shrink(t, tracks);
    if below(t, b, a) {
        let pb = t.parents@[b]->0;
        assert(below(t, pb as int, a));
    }
}

/// Nothing lies below two different starts.
proof fn lemma_starts_apart(t: DirTable, tracks: Seq<TrackView>, x: int, a: int, b: int)
    requires
        t.wf(tracks),
        0 <= x < t.dirs@.len(),
        0 <= a < t.dirs@.len(),
        0 <= b < t.dirs@.len(),
        a != b,
        start_idx(t, a),
        start_idx(t, b),
    ensures
        !(below(t, x, a) && below(t, x, b)),
{
    lemma_wf_shrink(t, tracks);
    if below(t, x, a) && below(t, x, b) {
        lemma_below_linear(t, tracks, x, a, b);
        lemma_start_not_below(t, tracks, a, b);
        lemma_start_not_below(t, tracks, b, a);
    }
}

/// Text `p` is that of a directory below `i`.
spec fn under(t: DirTable, p: Seq<char>, i: int) -> bool {
    exists|x: int| 0 <= x < t.dirs@.len() && #[trigger] below(t, x, i) && t.dirs@[x]@ == p
}

/// Text `p` is that of a directory below one of the first `k` entries of `tops`.
spec fn under_some(t: DirTable, p: Seq<char>, tops: Seq<usize>, k: int) -> bool {
    exists|q: int| 0 <= q < k && #[trigger] under(t, p, tops[q] as int)
}

proof fn lemma_under_trans(t: DirTable, tracks: Seq<TrackView>, p: Seq<char>, c: int, i: int)
    requires
        t.wf(tracks),
        0 <= c < t.dirs@.len(),
        0 <= i < t.dirs@.len(),
        under(t, p, c),
        below(t, c, i),
    ensures
        under(t, p, i),
{
    let x = choose|x: int| 0 <= x < t.dirs@.len() && #[trigger] below(t, x, c) && t.dirs@[x]@ == p;
    lemma_below_trans(t, tracks, x, c, i);
}

proof fn lemma_under_common(t: DirTable, tracks: Seq<TrackView>, p: Seq<char>, a: int, b: int) -> (x: int)
    requires
        t.wf(tracks),
        under(t, p, a),
        under(t, p, b),
    ensures
        0 <= x < t.dirs@.len(),
        below(t, x, a),
        below(t, x, b),
        t.dirs@[x]@ == p,
{
    let x = choose|x: int| 0 <= x < t.dirs@.len() && #[trigger] below(t, x, a) && t.dirs@[x]@ == p;
    let y = choose|y: int| 0 <= y < t.dirs@.len() && #[trigger] below(t, y, b) && t.dirs@[y]@ == p;
    lemma_same_text(t, tracks, x, y);
    x
}

/// A child lies below its parent.
proof fn lemma_child_below(t: DirTable, tracks: Seq<TrackView>, j: int, k: int)
    requires
        t.wf(tracks),
        0 <= j < t.dirs@.len(),
        0 <= k < t.children@[j]@.len(),
    ensures
        below(t, t.children@[j]@[k] as int, j),
        t.parents@[t.children@[j]@[k] as int] == Some(j as usize),
{
    lemma_wf_shrink(t, tracks);
    let c = t.children@[j]@[k];
    assert(t.parents@[c as int] == Some(j as usize));
    assert(below(t, j, j));
}

/// Skipping down from a listed directory stays below it.
proof fn lemma_skips_below(t: DirTable, tracks: Seq<TrackView>, j: int, p: Seq<char>, k: nat)
    requires
        t.wf(tracks),
        0 <= j < t.dirs@.len(),
        skips_to(tracks, t.dirs@[j]@, p, k),
    ensures
        under(t, p, j),
    decreases k,
{
    lemma_wf_shrink(t, tracks);
    if k == 0 {
        assert(below(t, j, j));
    } else {
        lemma_pass(t, tracks, j);
        let c = t.children@[j]@[0];
        lemma_child_below(t, tracks, j, 0);
        lemma_skips_below(t, tracks, c as int, p, (k - 1) as nat);
        lemma_under_trans(t, tracks, p, c as int, j);
    }
}

/// A start is a directory of the tree.
proof fn lemma_start_in_tree(tracks: Seq<TrackView>, s: Seq<char>)
    requires
        start_folder(tracks, s),
    ensures
        tree_folder(tracks, s),
{
    if exists|r: Seq<char>| top_folder(tracks, r) && tracks_directly_in(tracks, r) == 0 && #[trigger] subfolder(tracks, r, s) {
        let r = choose|r: Seq<char>| top_folder(tracks, r) && tracks_directly_in(tracks, r) == 0 && #[trigger] subfolder(tracks, r, s);
        assert(subfolder(tracks, r, s));
    }
}

/// A directory is reached from at most one start.
proof fn lemma_start_unique(t: DirTable, tracks: Seq<TrackView>, s1: Seq<char>, s2: Seq<char>, p: Seq<char>)
    requires
        t.wf(tracks),
        start_folder(tracks, s1),
        start_folder(tracks, s2),
        lands_on(tracks, s1, p),
        lands_on(tracks, s2, p),
    ensures
        s1 == s2,
{
    lemma_start_in_tree(tracks, s1);
    lemma_start_in_tree(tracks, s2);
    assert(listed(t.dirs@, s1));
    assert(listed(t.dirs@, s2));
    let j1 = choose|j: int| 0 <= j < t.dirs@.len() && (#[trigger] t.dirs@[j])@ == s1;
    let j2 = choose|j: int| 0 <= j < t.dirs@.len() && (#[trigger] t.dirs@[j])@ == s2;
    lemma_start_idx(t, tracks, j1);
    lemma_start_idx(t, tracks, j2);
    let k1 = choose|k: nat| #[trigger] skips_to(tracks, s1, p, k);
    let k2 = choose|k: nat| #[trigger] skips_to(tracks, s2, p, k);
    lemma_skips_below(t, tracks, j1, p, k1);
    lemma_skips_below(t, tracks, j2, p, k2);
    let x = lemma_under_common(t, tracks, p, j1, j2);
    if j1 != j2 {
        lemma_starts_apart(t, tracks, x, j1, j2);
    }
}

/// The top directory of a start is that of its root entry.
proof fn lemma_start_owner(t: DirTable, tracks: Seq<TrackView>, j: int)
    requires
        t.wf(tracks),
        0 <= j < t.dirs@.len(),
    ensures
        start_owner(tracks, t.dirs@[j]@) == t.dirs@[owner(t, j)]@,
        0 <= owner(t, j) < t.dirs@.len(),
{
    lemma_top(t, tracks, j);
}

/// Directory `d` lies below a directory whose text is `p`.
spec fn reaches(t: DirTable, d: int, p: Seq<char>) -> bool {
    exists|x: int| 0 <= x < t.dirs@.len() && t.dirs@[x]@ == p && #[trigger] below(t, d, x)
}

/// Directory `d` lies below the directory of one of the nodes listed by `top`.
spec fn root_reaches(t: DirTable, nodes: Seq<FolderTreeNode>, top: Seq<usize>, d: int) -> bool {
    exists|k: int| 0 <= k < top.len() && reaches(t, d, nodes[#[trigger] top[k] as int].path@)
}

/// Whatever starts with a directory starts with every directory above it.
proof fn lemma_below_starts(t: DirTable, tracks: Seq<TrackView>, d: int, a: int, y: Seq<char>)
    requires
        t.wf(tracks),
        0 <= d < t.dirs@.len(),
        0 <= a < t.dirs@.len(),
        below(t, d, a),
        spec_path_starts_with(y, t.dirs@[d]@),
    ensures
        spec_path_starts_with(y, t.dirs@[a]@),
    decreases t.dirs@[d]@.len(),
{
    lemma_wf_shrink(t, tracks);
    if d != a {
        let p = t.parents@[d]->0;
        assert(starts_inherit(t.dirs@[d]@, t.dirs@[p as int]@));
        lemma_below_starts(t, tracks, p as int, a, y);
    }
}

/// A track directly inside `dir` makes the count of tracks directly inside `dir` positive.
proof fn lemma_directly_in_positive(s: Seq<TrackView>, k: int)
    requires
        0 <= k < s.len(),
        spec_path_parent(s[k].path) is Some,
    ensures
        tracks_directly_in(s, spec_path_parent(s[k].path)->0) > 0,
    decreases s.len(),
{
    if k < s.len() - 1 {
        assert(s.drop_last()[k] == s[k]);
        lemma_directly_in_positive(s.drop_last(), k);
    }
}

/// Some node of `nodes` is for the directory `path`.
pub open spec fn has_node(nodes: Seq<FolderTreeNode>, path: Seq<char>) -> bool {
    exists|k: int| 0 <= k < nodes.len() && (#[trigger] nodes[k]).path@ == path
}

/// Node `k` is a top-level node or the child of a node.
pub open spec fn linked(nodes: Seq<FolderTreeNode>, roots: Seq<usize>, k: usize) -> bool {
    roots.contains(k) || exists|j: int| 0 <= j < nodes.len() && (#[trigger] nodes[j]).children@.contains(k)
}

/// The directory table of `tracks`: the directories holding them and all their ancestors.
fn dir_table(tracks: &Vec<LibraryTrack>) -> (t: DirTable)
    ensures
        t.wf(views(tracks@)),
        forall|d: Seq<char>| !listed(t.dirs@, d) ==> #[trigger] tracks_directly_in(views(tracks@), d) == 0,
        forall|k: int| 0 <= k < tracks@.len() ==> #[trigger] track_in_folder(views(tracks@), k),
{
    let (mut dirs, mut direct, Ghost(bound)) = direct_dirs(tracks);
    let ghost first = dirs@;
    let ghost first_direct = direct@;
    proof {
        assert forall|j: int| 0 <= j < dirs@.len() implies tree_folder(views(tracks@), (#[trigger] dirs@[j])@) by {
            assert(direct@[j] > 0);
            lemma_direct_in_tree(views(tracks@), dirs@[j]@);
        }
    }
    add_ancestors(&mut dirs, &mut direct, Ghost(bound), Ghost(views(tracks@)));
    proof {
        let tv = views(tracks@);
        assert forall|d: Seq<char>| #[trigger] tree_folder(tv, d) implies listed(dirs@, d) by {
            let (t, k) = choose|t: int, k: nat| 0 <= t < tv.len() && #[trigger] track_ancestor(tv, t, k) == Some(d);
            let p = spec_path_parent(tv[t].path)->0;
            lemma_directly_in_positive(tv, t);
            assert(listed(first, p));
            let w = choose|w: int| 0 <= w < first.len() && (#[trigger] first[w])@ == p;
            assert(dirs@[w] == first[w]);
            lemma_ancestor_listed(dirs@, p, k, d);
        }
        assert forall|i: int| 0 <= i < dirs@.len() implies #[trigger] direct@[i] == tracks_directly_in(
            views(tracks@),
            dirs@[i]@,
        ) by {
            if i < first.len() {
                assert(dirs@[i] == first[i]);
                assert(direct@[i] == first_direct[i]);
            } else {
                if listed(first, dirs@[i]@) {
                    let w = choose|w: int| 0 <= w < first.len() && (#[trigger] first[w])@ == dirs@[i]@;
                    assert(dirs@[w] == first[w]);
                }
                assert(tracks_directly_in(views(tracks@), dirs@[i]@) == 0);
            }
        }
        assert forall|d: Seq<char>| !listed(dirs@, d) implies #[trigger] tracks_directly_in(views(tracks@), d)
            == 0 by {
            if listed(first, d) {
                let w = choose|w: int| 0 <= w < first.len() && (#[trigger] first[w])@ == d;
                assert(dirs@[w] == first[w]);
            }
        }
    }
    let parents = parent_indices(&dirs);
    let mut totals: Vec<usize> = Vec::new();
    let mut children: Vec<Vec<usize>> = Vec::new();
    let mut i: usize = 0;
    while i < dirs.len()
        invariant
            i <= dirs@.len(),
            totals@.len() == i,
            children@.len() == i,
            parents@.len() == dirs@.len(),
            forall|e: int|
                0 <= e < i ==> #[trigger] totals@[e] == tracks_under(views(tracks@), dirs@[e]@),
            forall|d: int|
                0 <= d < dirs@.len() ==> match #[trigger] parents@[d] {
                    Some(j) => j < dirs@.len() && spec_path_parent(dirs@[d]@) == Some(dirs@[j as int]@)
                        && dirs@[j as int]@.len() < dirs@[d]@.len() && starts_inherit(dirs@[d]@, dirs@[j as int]@),
                    None => spec_path_parent(dirs@[d]@) is None,
                },
            forall|e: int, k: int|
                0 <= e < i && 0 <= k < children@[e]@.len() ==> {
                    let c = #[trigger] children@[e]@[k];
                    &&& c < dirs@.len()
                    &&& parents@[c as int] == Some(e as usize)
                }
            ,
            forall|e: int, c: usize|
                0 <= e < i && c < dirs@.len() && parents@[c as int] == Some(e as usize)
                    ==> #[trigger] children@[e]@.contains(c),
            forall|e: int| 0 <= e < i ==> (#[trigger] children@[e])@.no_duplicates(),
            forall|e: int| 0 <= e < i ==> path_sorted(dirs@, (#[trigger] children@[e])@),
        decreases dirs@.len() - i,
    {
        totals.push(count_under(tracks, dirs[i].as_str()));
        let kids = dirs_with_parent(&dirs, &parents, Some(i));
        children.push(kids);
        i = i + 1;
    }
    let t = DirTable { dirs, direct, totals, parents, children, bound: Ghost(bound) };
    proof {
        assert forall|e: int, k: int|
            0 <= e < t.dirs@.len() && 0 <= k < t.children@[e]@.len() implies {
                let c = #[trigger] t.children@[e]@[k];
                &&& c < t.dirs@.len()
                &&& t.parents@[c as int] == Some(e as usize)
                &&& spec_path_parent(t.dirs@[c as int]@) == Some(t.dirs@[e]@)
                &&& t.dirs@[e]@.len() < t.dirs@[c as int]@.len()
            } by {
            let c = t.children@[e]@[k];
            assert(t.parents@[c as int] == Some(e as usize));
        }
    }
    t
}

/// Nodes listed by `order` with equal lower-case names are in `Path` order.
pub open spec fn ties_by_path(nodes: Seq<FolderTreeNode>, order: Seq<usize>) -> bool {
    forall|i: int, j: int|
        0 <= i < j < order.len() && name_key(nodes[#[trigger] order[i] as int]) == name_key(
            nodes[#[trigger] order[j] as int],
        ) ==> !spec_path_less(nodes[order[j] as int].path@, nodes[order[i] as int].path@)
}

/// One of the nodes listed by `order` is for the directory `p`.
pub open spec fn lists_dir(nodes: Seq<FolderTreeNode>, order: Seq<usize>, p: Seq<char>) -> bool {
    exists|j: int| 0 <= j < order.len() && nodes[#[trigger] order[j] as int].path@ == p
}

/// Node `i` is named after its directory, counts the tracks inside it and lists, sorted by
/// name (equal names in `Path` order) and each once, nodes of directories whose parent it
/// is: one for each subdirectory in the tree.
pub open spec fn node_ok(nodes: Seq<FolderTreeNode>, i: int, tracks: Seq<TrackView>) -> bool {
    let n = nodes[i];
    &&& n.name@ == node_name(n.path@)
    &&& n.track_count == tracks_under(tracks, n.path@)
    &&& sorted_by_name(nodes, n.children@)
    &&& ties_by_path(nodes, n.children@)
    &&& n.children@.no_duplicates()
    &&& forall|d: Seq<char>| #[trigger] subfolder(tracks, n.path@, d) ==> lists_dir(nodes, n.children@, d)
    &&& forall|k: int|
        0 <= k < n.children@.len() ==> {
            let c = #[trigger] n.children@[k];
            &&& c < nodes.len()
            &&& spec_path_parent(nodes[c as int].path@) == Some(n.path@)
        }
}

spec fn keys_match(nodes: Seq<FolderTreeNode>, keys: Seq<Vec<char>>) -> bool {
    &&& keys.len() == nodes.len()
    &&& forall|k: int| 0 <= k < nodes.len() ==> (#[trigger] keys[k])@ == name_key(nodes[k])
}

proof fn lemma_sorted_keys_names(nodes: Seq<FolderTreeNode>, keys: Seq<Vec<char>>, order: Seq<usize>)
    requires
        keys_match(nodes, keys),
        forall|k: int| 0 <= k < order.len() ==> #[trigger] order[k] < keys.len(),
        forall|i: int, j: int|
            0 <= i < j < order.len() ==> !text_less(keys[#[trigger] order[j] as int]@, keys[#[trigger] order[i] as int]@),
    ensures
        sorted_by_name(nodes, order),
{
    assert forall|i: int, j: int| 0 <= i < j < order.len() implies !text_less(
        name_key(nodes[#[trigger] order[j] as int]),
        name_key(nodes[#[trigger] order[i] as int]),
    ) by {
        assert(keys[order[j] as int]@ == name_key(nodes[order[j] as int]));
        assert(keys[order[i] as int]@ == name_key(nodes[order[i] as int]));
    }
}

/// Nodes from index `lo` on that are listed in `order` or are children of a node from `lo` on.
spec fn linked_from(nodes: Seq<FolderTreeNode>, order: Seq<usize>, lo: int, m: usize) -> bool {
    order.contains(m) || exists|j: int| lo <= j < nodes.len() && (#[trigger] nodes[j]).children@.contains(m)
}

proof fn lemma_has_node_kept(before: Seq<FolderTreeNode>, after: Seq<FolderTreeNode>, p: Seq<char>)
    requires
        has_node(before, p),
        before.len() <= after.len(),
        forall|k: int| 0 <= k < before.len() ==> after[k] == before[k],
    ensures
        has_node(after, p),
{
    let w = choose|w: int| 0 <= w < before.len() && (#[trigger] before[w]).path@ == p;
    assert(after[w] == before[w]);
}

/// Builds the node for directory `i` (after collapsing single-child chains of empty
/// top-level directories) and its subtree; returns the node's index.
fn build_node(
    table: &DirTable,
    i: usize,
    is_root: bool,
    nodes: &mut Vec<FolderTreeNode>,
    keys: &mut Vec<Vec<char>>,
    Ghost(tracks): Ghost<Seq<TrackView>>,
) -> (r: usize)
    requires
        table.wf(tracks),
        i < table.dirs@.len(),
        keys_match(old(nodes)@, old(keys)@),
        forall|k: int| 0 <= k < old(nodes)@.len() ==> node_ok(old(nodes)@, k, tracks),
        paths_distinct(old(nodes)@),
        forall|m: int| 0 <= m < old(nodes)@.len() ==> !under(*table, (#[trigger] old(nodes)@[m]).path@, i as int),
    ensures
        old(nodes)@.len() <= r < final(nodes)@.len(),
        forall|k: int| 0 <= k < old(nodes)@.len() ==> final(nodes)@[k] == old(nodes)@[k],
        keys_match(final(nodes)@, final(keys)@),
        forall|k: int| 0 <= k < final(nodes)@.len() ==> node_ok(final(nodes)@, k, tracks),
        paths_distinct(final(nodes)@),
        forall|m: int|
            old(nodes)@.len() <= m < final(nodes)@.len() ==> under(*table, (#[trigger] final(nodes)@[m]).path@, i as int),
        !is_root ==> final(nodes)@[r as int].path@ == table.dirs@[i as int]@,
        is_root ==> lands_on(tracks, table.dirs@[i as int]@, final(nodes)@[r as int].path@),
        forall|d: int|
            0 <= d < table.dirs@.len() && #[trigger] below(*table, d, i as int) && table.direct@[d] > 0 ==> reaches(
                *table,
                d,
                final(nodes)@[r as int].path@,
            ),
        forall|d: int|
            0 <= d < table.dirs@.len() && #[trigger] below(*table, d, i as int) && table.direct@[d] > 0
                ==> has_node(final(nodes)@, table.dirs@[d]@),
        forall|m: usize|
            old(nodes)@.len() <= m < final(nodes)@.len() && m != r ==> #[trigger] linked_from(
                final(nodes)@,
                Seq::empty(),
                old(nodes)@.len() as int,
                m,
            ),
    decreases table.bound@ - table.dirs@[i as int]@.len(),
{
    proof {
        lemma_wf_shrink(*table, tracks);
    }
    let mut cur: usize = i;
    let ghost mut steps: nat = 0;
    if is_root {
        while table.direct[cur] == 0 && table.children[cur].len() == 1
            invariant
                table.wf(tracks),
                parents_shrink(*table),
                cur < table.dirs@.len(),
                i < table.dirs@.len(),
                table.dirs@[i as int]@.len() <= table.dirs@[cur as int]@.len(),
                below(*table, cur as int, i as int),
                skips_to(tracks, table.dirs@[i as int]@, table.dirs@[cur as int]@, steps),
                forall|d: int|
                    0 <= d < table.dirs@.len() && #[trigger] below(*table, d, i as int) && table.direct@[d] > 0
                        ==> below(*table, d, cur as int),
            decreases table.bound@ - table.dirs@[cur as int]@.len(),
        {
            let next = table.children[cur][0];
            proof {
                assert(table.children@[cur as int]@[0] == next);
                assert forall|d: int|
                    0 <= d < table.dirs@.len() && #[trigger] below(*table, d, i as int) && table.direct@[d] > 0
                        implies below(*table, d, next as int) by {
                    assert(below(*table, d, cur as int));
                    let y = lemma_below_child(*table, tracks, d, cur as int);
                    let w = choose|w: int| 0 <= w < table.children@[cur as int]@.len() && table.children@[cur as int]@[w] == y;
                    assert(w == 0);
                }
                lemma_pass(*table, tracks, cur as int);
                lemma_skip_step(tracks, table.dirs@[i as int]@, table.dirs@[cur as int]@, steps);
                lemma_child_below(*table, tracks, cur as int, 0);
                lemma_below_trans(*table, tracks, next as int, cur as int, i as int);
                steps = steps + 1;
            }
            cur = next;
        }
        proof {
            lemma_pass(*table, tracks, cur as int);
        }
    }
    proof {
        assert(below(*table, cur as int, i as int));
    }
    let name = match path_file_name(table.dirs[cur].as_str()) {
        Some(n) => n,
        None => table.dirs[cur].clone(),
    };
    let mut order: Vec<usize> = Vec::new();
    let kids = &table.children[cur];
    let ghost lo = old(nodes)@.len() as int;
    let mut k: usize = 0;
    while k < kids.len()
        invariant
            table.wf(tracks),
            parents_shrink(*table),
            cur < table.dirs@.len(),
            kids == &table.children@[cur as int],
            i < table.dirs@.len(),
            table.dirs@[i as int]@.len() <= table.dirs@[cur as int]@.len(),
            below(*table, cur as int, i as int),
            k <= kids@.len(),
            lo == old(nodes)@.len(),
            old(nodes)@.len() <= nodes@.len(),
            forall|j: int| 0 <= j < old(nodes)@.len() ==> nodes@[j] == old(nodes)@[j],
            keys_match(nodes@, keys@),
            forall|j: int| 0 <= j < nodes@.len() ==> node_ok(nodes@, j, tracks),
            paths_distinct(nodes@),
            forall|m: int| 0 <= m < lo ==> !under(*table, (#[trigger] nodes@[m]).path@, i as int),
            forall|m: int| lo <= m < nodes@.len() ==> under_some(*table, (#[trigger] nodes@[m]).path@, kids@, k as int),
            order@.len() == k,
            order@.no_duplicates(),
            forall|j: int| 0 <= j < order@.len() ==> #[trigger] order@[j] < nodes@.len(),
            forall|j: int|
                0 <= j < order@.len() ==> spec_path_parent(nodes@[#[trigger] order@[j] as int].path@) == Some(
                    table.dirs@[cur as int]@,
                ),
            forall|kk: int| 0 <= kk < k ==> lists_dir(nodes@, order@, table.dirs@[#[trigger] kids@[kk] as int]@),
            forall|j: int|
                0 <= j < order@.len() ==> exists|kk: int|
                    0 <= kk < k && nodes@[#[trigger] order@[j] as int].path@ == table.dirs@[kids@[kk] as int]@,
            ties_by_path(nodes@, order@),
            forall|a: int, b: int|
                0 <= a < b < order@.len() ==> !text_less(keys@[#[trigger] order@[b] as int]@, keys@[#[trigger] order@[a] as int]@),
            forall|kk: int, d: int|
                0 <= kk < k && 0 <= d < table.dirs@.len() && #[trigger] below(*table, d, kids@[kk] as int)
                    && table.direct@[d] > 0 ==> has_node(nodes@, table.dirs@[d]@),
            forall|m: usize| lo <= m < nodes@.len() ==> #[trigger] linked_from(nodes@, order@, lo, m),
        decreases kids@.len() - k,
    {
        let c = kids[k];
        assert(table.children@[cur as int]@[k as int] == c);
        let ghost nodes_before = nodes@;
        let ghost order_before = order@;
        proof {
            lemma_child_below(*table, tracks, cur as int, k as int);
            assert forall|m: int| 0 <= m < nodes@.len() implies !under(*table, (#[trigger] nodes@[m]).path@, c as int) by {
                let pm = nodes@[m].path@;
                if under(*table, pm, c as int) {
                    if m < lo {
                        lemma_under_trans(*table, tracks, pm, c as int, cur as int);
                        lemma_under_trans(*table, tracks, pm, cur as int, i as int);
                    } else {
                        let q = choose|q: int| 0 <= q < k && #[trigger] under(*table, pm, kids@[q] as int);
                        let x = lemma_under_common(*table, tracks, pm, kids@[q] as int, c as int);
                        lemma_child_below(*table, tracks, cur as int, q);
                        assert(kids@[q] != kids@[k as int]);
                        lemma_siblings_apart(*table, tracks, x, kids@[q] as int, c as int);
                    }
                }
            }
        }
        let ni = build_node(table, c, false, nodes, keys, Ghost(tracks));
        assert forall|j: int| 0 <= j < order@.len() implies spec_path_parent(nodes@[#[trigger] order@[j] as int].path@)
            == Some(table.dirs@[cur as int]@) by {
            assert(nodes@[order@[j] as int] == nodes_before[order@[j] as int]);
        }
        insert_by_key(&mut order, keys, ni);
        proof {
            lemma_insert_members(order_before, order@, ni);
            if order_before.contains(ni) {
                let w = choose|w: int| 0 <= w < order_before.len() && order_before[w] == ni;
                assert(order_before[w] < nodes_before.len());
            }
            lemma_insert_new_no_dup(order_before, order@, ni);
            let ns = nodes@;
            let key = |u: usize| name_key(ns[u as int]);
            let ok = |u: usize, v: usize| !spec_path_less(ns[v as int].path@, ns[u as int].path@);
            let p = choose|p: int|
                0 <= p <= order_before.len() && order@ == order_before.insert(p, ni) && (forall|i: int|
                    0 <= i < p ==> !text_less(keys@[ni as int]@, keys@[#[trigger] order_before[i] as int]@)) && (p
                    < order_before.len() ==> text_less(keys@[ni as int]@, keys@[order_before[p] as int]@));
            assert forall|i: int, j: int| 0 <= i < j < order_before.len() && key(#[trigger] order_before[i]) == key(
                #[trigger] order_before[j],
            ) implies ok(order_before[i], order_before[j]) by {
                assert(ns[order_before[i] as int] == nodes_before[order_before[i] as int]);
                assert(ns[order_before[j] as int] == nodes_before[order_before[j] as int]);
            }
            assert forall|i: int, j: int| 0 <= i < j < order_before.len() implies !text_less(
                key(#[trigger] order_before[j]),
                key(#[trigger] order_before[i]),
            ) by {
                assert(keys@[order_before[j] as int]@ == name_key(ns[order_before[j] as int]));
                assert(keys@[order_before[i] as int]@ == name_key(ns[order_before[i] as int]));
            }
            assert forall|i: int| 0 <= i < p && key(#[trigger] order_before[i]) == key(ni) implies ok(
                order_before[i],
                ni,
            ) by {
                let kk = choose|kk: int|
                    0 <= kk < k && nodes_before[#[trigger] order_before[i] as int].path@ == table.dirs@[kids@[kk] as int]@;
                assert(ns[order_before[i] as int] == nodes_before[order_before[i] as int]);
                assert(!spec_path_less(
                    table.dirs@[table.children@[cur as int]@[k as int] as int]@,
                    table.dirs@[table.children@[cur as int]@[kk] as int]@,
                ));
            }
            if p < order_before.len() {
                assert(keys@[ni as int]@ == key(ni));
                assert(keys@[order_before[p] as int]@ == key(order_before[p]));
            }
            lemma_ties_insert(order_before, ni, p, key, ok);
            assert forall|i: int, j: int|
                0 <= i < j < order@.len() && name_key(ns[#[trigger] order@[i] as int]) == name_key(
                    ns[#[trigger] order@[j] as int],
                ) implies !spec_path_less(ns[order@[j] as int].path@, ns[order@[i] as int].path@) by {
                assert(key(order@[i]) == key(order@[j]));
            }
            assert forall|j: int| 0 <= j < order@.len() implies exists|kk: int|
                0 <= kk < k + 1 && nodes@[#[trigger] order@[j] as int].path@ == table.dirs@[kids@[kk] as int]@ by {
                if j < p {
                    assert(order@[j] == order_before[j]);
                    let kk = choose|kk: int|
                        0 <= kk < k && nodes_before[#[trigger] order_before[j] as int].path@ == table.dirs@[kids@[kk] as int]@;
                    assert(ns[order_before[j] as int] == nodes_before[order_before[j] as int]);
                } else if j == p {
                    assert(order@[j] == ni);
                    assert(nodes@[ni as int].path@ == table.dirs@[kids@[k as int] as int]@);
                } else {
                    assert(order@[j] == order_before[j - 1]);
                    let kk = choose|kk: int|
                        0 <= kk < k && nodes_before[#[trigger] order_before[j - 1] as int].path@ == table.dirs@[kids@[kk] as int]@;
                    assert(ns[order_before[j - 1] as int] == nodes_before[order_before[j - 1] as int]);
                }
            }
        }
        assert forall|j: int| 0 <= j < order@.len() implies spec_path_parent(nodes@[#[trigger] order@[j] as int].path@)
            == Some(table.dirs@[cur as int]@) by {
            assert(order@.contains(order@[j]));
            if order@[j] != ni {
                assert(order_before.contains(order@[j]));
                let q = choose|q: int| 0 <= q < order_before.len() && order_before[q] == order@[j];
                assert(spec_path_parent(nodes@[order_before[q] as int].path@) == Some(table.dirs@[cur as int]@));
            } else {
                assert(nodes@[ni as int].path@ == table.dirs@[c as int]@);
            }
        }
        proof {
            assert forall|m: int| lo <= m < nodes@.len() implies under_some(
                *table,
                (#[trigger] nodes@[m]).path@,
                kids@,
                k + 1,
            ) by {
                let pm = nodes@[m].path@;
                if m < nodes_before.len() {
                    assert(nodes@[m] == nodes_before[m]);
                    assert(under_some(*table, pm, kids@, k as int));
                    let q = choose|q: int| 0 <= q < k && #[trigger] under(*table, pm, kids@[q] as int);
                    assert(under(*table, pm, kids@[q] as int));
                } else {
                    assert(under(*table, pm, kids@[k as int] as int));
                }
            }
            assert forall|kk: int| 0 <= kk < k + 1 implies lists_dir(
                nodes@,
                order@,
                table.dirs@[#[trigger] kids@[kk] as int]@,
            ) by {
                if kk < k {
                    let pd = table.dirs@[kids@[kk] as int]@;
                    let j = choose|j: int| 0 <= j < order_before.len() && nodes_before[#[trigger] order_before[j] as int].path@ == pd;
                    assert(nodes@[order_before[j] as int] == nodes_before[order_before[j] as int]);
                    assert(order@.contains(order_before[j]));
                    let j2 = choose|j2: int| 0 <= j2 < order@.len() && order@[j2] == order_before[j];
                    assert(nodes@[order@[j2] as int].path@ == pd);
                } else {
                    assert(order@.contains(ni));
                    let j2 = choose|j2: int| 0 <= j2 < order@.len() && order@[j2] == ni;
                    assert(nodes@[order@[j2] as int].path@ == table.dirs@[c as int]@);
                }
            }
            assert forall|kk: int, d: int|
                0 <= kk < k + 1 && 0 <= d < table.dirs@.len() && #[trigger] below(*table, d, kids@[kk] as int)
                    && table.direct@[d] > 0 implies has_node(nodes@, table.dirs@[d]@) by {
                if kk < k {
                    lemma_has_node_kept(nodes_before, nodes@, table.dirs@[d]@);
                }
            }
            assert forall|m: usize| lo <= m < nodes@.len() implies #[trigger] linked_from(nodes@, order@, lo, m) by {
                if m < nodes_before.len() {
                    assert(linked_from(nodes_before, order_before, lo, m));
                    if !order_before.contains(m) {
                        let j = choose|j: int| lo <= j < nodes_before.len() && (#[trigger] nodes_before[j]).children@.contains(m);
                        assert(nodes@[j] == nodes_before[j]);
                    }
                } else if m != ni {
                    assert(linked_from(nodes@, Seq::empty(), nodes_before.len() as int, m));
                    assert(!Seq::<usize>::empty().contains(m));
                }
            }
        }
        k = k + 1;
    }
    let path = table.dirs[cur].clone();
    let lower = to_lowercase(name.as_str());
    let key = chars_of(lower.as_str());
    let node = FolderTreeNode { name, path, track_count: table.totals[cur], children: order };
    let ghost nodes_before = nodes@;
    nodes.push(node);
    keys.push(key);
    let r = nodes.len() - 1;
    proof {
        lemma_sorted_keys_names(nodes@, keys@, order@);
        assert(nodes@[r as int].path@ == table.dirs@[cur as int]@);
        assert forall|j: int| 0 <= j < nodes@.len() implies node_ok(nodes@, j, tracks) by {
            if j < nodes_before.len() {
                assert(nodes@[j] == nodes_before[j]);
                assert(node_ok(nodes_before, j, tracks));
                let n = nodes@[j];
                assert forall|k: int| 0 <= k < n.children@.len() implies ({
                    let c = #[trigger] n.children@[k];
                    &&& c < nodes@.len()
                    &&& spec_path_parent(nodes@[c as int].path@) == Some(n.path@)
                }) by {
                    assert(nodes@[n.children@[k] as int] == nodes_before[n.children@[k] as int]);
                }
                assert forall|a: int, b: int| 0 <= a < b < n.children@.len() implies !text_less(
                    name_key(nodes@[#[trigger] n.children@[b] as int]),
                    name_key(nodes@[#[trigger] n.children@[a] as int]),
                ) by {
                    assert(nodes@[n.children@[b] as int] == nodes_before[n.children@[b] as int]);
                    assert(nodes@[n.children@[a] as int] == nodes_before[n.children@[a] as int]);
                }
                assert forall|a: int, b: int|
                    0 <= a < b < n.children@.len() && name_key(nodes@[#[trigger] n.children@[a] as int]) == name_key(
                        nodes@[#[trigger] n.children@[b] as int],
                    ) implies !spec_path_less(nodes@[n.children@[b] as int].path@, nodes@[n.children@[a] as int].path@) by {
                    assert(nodes@[n.children@[b] as int] == nodes_before[n.children@[b] as int]);
                    assert(nodes@[n.children@[a] as int] == nodes_before[n.children@[a] as int]);
                }
                assert forall|d: Seq<char>| #[trigger] subfolder(tracks, n.path@, d) implies lists_dir(
                    nodes@,
                    n.children@,
                    d,
                ) by {
                    assert(lists_dir(nodes_before, n.children@, d));
                    let w = choose|w: int| 0 <= w < n.children@.len() && nodes_before[#[trigger] n.children@[w] as int].path@ == d;
                    assert(nodes@[n.children@[w] as int] == nodes_before[n.children@[w] as int]);
                }
            } else {
                assert forall|k: int| 0 <= k < order@.len() implies ({
                    let c = #[trigger] order@[k];
                    &&& c < nodes@.len()
                    &&& spec_path_parent(nodes@[c as int].path@) == Some(table.dirs@[cur as int]@)
                }) by {
                    assert(nodes@[order@[k] as int] == nodes_before[order@[k] as int]);
                }
                assert forall|a: int, b: int|
                    0 <= a < b < order@.len() && name_key(nodes@[#[trigger] order@[a] as int]) == name_key(
                        nodes@[#[trigger] order@[b] as int],
                    ) implies !spec_path_less(nodes@[order@[b] as int].path@, nodes@[order@[a] as int].path@) by {
                    assert(nodes@[order@[b] as int] == nodes_before[order@[b] as int]);
                    assert(nodes@[order@[a] as int] == nodes_before[order@[a] as int]);
                }
                assert forall|d: Seq<char>| #[trigger] subfolder(tracks, table.dirs@[cur as int]@, d) implies lists_dir(
                    nodes@,
                    order@,
                    d,
                ) by {
                    lemma_sub(*table, tracks, cur as int, d);
                    let kk = choose|kk: int| 0 <= kk < kids@.len() && table.dirs@[#[trigger] kids@[kk] as int]@ == d;
                    assert(lists_dir(nodes_before, order@, table.dirs@[kids@[kk] as int]@));
                    let w = choose|w: int| 0 <= w < order@.len() && nodes_before[#[trigger] order@[w] as int].path@ == d;
                    assert(nodes@[order@[w] as int] == nodes_before[order@[w] as int]);
                }
            }
        }
        assert forall|a: int, b: int| 0 <= a < b < nodes@.len() implies (#[trigger] nodes@[a]).path@
            != (#[trigger] nodes@[b]).path@ by {
            if b < nodes_before.len() {
                assert(nodes@[a] == nodes_before[a] && nodes@[b] == nodes_before[b]);
            } else {
                assert(nodes@[a] == nodes_before[a]);
                let pa = nodes_before[a].path@;
                if pa == table.dirs@[cur as int]@ {
                    assert(under(*table, pa, i as int)) by {
                        assert(below(*table, cur as int, i as int));
                    }
                    if a >= lo {
                        assert(under_some(*table, nodes_before[a].path@, kids@, kids@.len() as int));
                        let q = choose|q: int| 0 <= q < kids@.len() && #[trigger] under(*table, pa, kids@[q] as int);
                        let x = choose|x: int| 0 <= x < table.dirs@.len() && #[trigger] below(*table, x, kids@[q] as int) && table.dirs@[x]@ == pa;
                        lemma_same_text(*table, tracks, x, cur as int);
                        lemma_below_len(*table, tracks, cur as int, kids@[q] as int);
                        assert(table.children@[cur as int]@[q] == kids@[q]);
                    }
                }
            }
        }
        assert forall|m: int| old(nodes)@.len() <= m < nodes@.len() implies under(
            *table,
            (#[trigger] nodes@[m]).path@,
            i as int,
        ) by {
            let pm = nodes@[m].path@;
            if m < nodes_before.len() {
                assert(nodes@[m] == nodes_before[m]);
                assert(under_some(*table, pm, kids@, kids@.len() as int));
                let q = choose|q: int| 0 <= q < kids@.len() && #[trigger] under(*table, pm, kids@[q] as int);
                lemma_child_below(*table, tracks, cur as int, q);
                lemma_under_trans(*table, tracks, pm, kids@[q] as int, cur as int);
                lemma_under_trans(*table, tracks, pm, cur as int, i as int);
            } else {
                assert(below(*table, cur as int, i as int));
            }
        }
        if is_root {
            assert(skips_to(tracks, table.dirs@[i as int]@, nodes@[r as int].path@, steps));
        }
        assert forall|d: int|
            0 <= d < table.dirs@.len() && #[trigger] below(*table, d, i as int) && table.direct@[d] > 0 implies reaches(
                *table,
                d,
                nodes@[r as int].path@,
            ) by {
            assert(below(*table, d, cur as int));
        }
        assert forall|d: int|
            0 <= d < table.dirs@.len() && #[trigger] below(*table, d, i as int) && table.direct@[d] > 0
                implies has_node(nodes@, table.dirs@[d]@) by {
            assert(below(*table, d, cur as int));
            if d == cur as int {
                assert(nodes@[r as int].path@ == table.dirs@[d]@);
            } else {
                let y = lemma_below_child(*table, tracks, d, cur as int);
                let kk = choose|kk: int| 0 <= kk < kids@.len() && kids@[kk] == y;
                assert(below(*table, d, kids@[kk] as int));
                lemma_has_node_kept(nodes_before, nodes@, table.dirs@[d]@);
            }
        }
        assert forall|m: usize| old(nodes)@.len() <= m < nodes@.len() && m != r implies #[trigger] linked_from(
            nodes@,
            Seq::empty(),
            old(nodes)@.len() as int,
            m,
        ) by {
            assert(linked_from(nodes_before, order@, lo, m));
            if order@.contains(m) {
                assert(nodes@[r as int].children@.contains(m));
            } else {
                let j = choose|j: int| lo <= j < nodes_before.len() && (#[trigger] nodes_before[j]).children@.contains(m);
                assert(nodes@[j] == nodes_before[j]);
            }
        }
    }
    r
}

proof fn lemma_sorted_names_keys(nodes: Seq<FolderTreeNode>, keys: Seq<Vec<char>>, order: Seq<usize>)
    requires
        keys_match(nodes, keys),
        forall|k: int| 0 <= k < order.len() ==> #[trigger] order[k] < keys.len(),
        sorted_by_name(nodes, order),
    ensures
        forall|i: int, j: int|
            0 <= i < j < order.len() ==> !text_less(keys[#[trigger] order[j] as int]@, keys[#[trigger] order[i] as int]@),
{
    assert forall|i: int, j: int| 0 <= i < j < order.len() implies !text_less(
        keys[#[trigger] order[j] as int]@,
        keys[#[trigger] order[i] as int]@,
    ) by {
        assert(keys[order[j] as int]@ == name_key(nodes[order[j] as int]));
        assert(keys[order[i] as int]@ == name_key(nodes[order[i] as int]));
    }
}

/// Directory `d` lies below one of the directories `starts`.
spec fn covered(t: DirTable, starts: Seq<usize>, d: int) -> bool {
    exists|s: int| 0 <= s < starts.len() && #[trigger] below(t, d, starts[s] as int)
}

/// The root that `s` belongs to is one of the first `a` roots.
spec fn owned_before(t: DirTable, s: int, roots: Seq<usize>, a: int) -> bool {
    exists|aa: int| 0 <= aa < a && owner(t, s) == #[trigger] roots[aa] as int
}

/// `p` is reached from one of the first `e` starts.
spec fn from_start(t: DirTable, tracks: Seq<TrackView>, starts: Seq<usize>, e: int, p: Seq<char>) -> bool {
    exists|ee: int| 0 <= ee < e && #[trigger] lands_on(tracks, t.dirs@[starts[ee] as int]@, p)
}

/// The sidebar's folder tree of `tracks`: each directory that holds a track, with its
/// ancestors; empty top-level directories are skipped down to where the tree branches.
#[verifier::rlimit(80)]
#[verifier::spinoff_prover]
pub fn build_folder_tree(tracks: &Vec<LibraryTrack>) -> (tree: FolderTree)
    ensures
        tree.describes(views(tracks@)),
        tracks@.len() == 0 ==> tree.nodes@.len() == 0 && tree.roots@.len() == 0,
        paths_distinct(tree.nodes@),
        tree.roots@.no_duplicates(),
        forall|k: int| 0 <= k < tree.nodes@.len() ==> tree_folder(views(tracks@), (#[trigger] tree.nodes@[k]).path@),
        forall|k: int|
            0 <= k < tree.roots@.len() ==> effective_root(views(tracks@), tree.nodes@[#[trigger] tree.roots@[k] as int].path@),
        forall|p: Seq<char>| #[trigger] effective_root(views(tracks@), p) ==> lists_dir(tree.nodes@, tree.roots@, p),
        forall|k: int, s: Seq<char>|
            0 <= k < tree.roots@.len() && start_folder(views(tracks@), s) && #[trigger] lands_on(
                views(tracks@),
                s,
                tree.nodes@[#[trigger] tree.roots@[k] as int].path@,
            ) ==> s == start_of(views(tracks@), tree.nodes@[tree.roots@[k] as int].path@),
        roots_in_start_order(views(tracks@), tree.nodes@, tree.roots@),
        forall|t: int|
            0 <= t < tracks@.len() && spec_path_parent((#[trigger] tracks@[t]).path@) is Some ==> exists|k: int|
                0 <= k < tree.roots@.len() && spec_path_starts_with(
                    tracks@[t].path@,
                    tree.nodes@[#[trigger] tree.roots@[k] as int].path@,
                ),
        forall|t: int|
            0 <= t < tracks@.len() ==> (spec_path_parent((#[trigger] tracks@[t]).path@) matches Some(d)
                ==> has_node(tree.nodes@, d)),
        forall|k: usize| k < tree.nodes@.len() ==> #[trigger] linked(tree.nodes@, tree.roots@, k),
{
    let mut nodes: Vec<FolderTreeNode> = Vec::new();
    let mut keys: Vec<Vec<char>> = Vec::new();
    let mut top: Vec<usize> = Vec::new();
    if tracks.len() == 0 {
        proof {
            assert forall|p: Seq<char>| #[trigger] effective_root(views(tracks@), p) implies lists_dir(
                nodes@,
                top@,
                p,
            ) by {
                let s = choose|s: Seq<char>| start_folder(views(tracks@), s) && #[trigger] lands_on(views(tracks@), s, p);
                if exists|r: Seq<char>| top_folder(views(tracks@), r) && tracks_directly_in(views(tracks@), r) == 0
                    && #[trigger] subfolder(views(tracks@), r, s) {
                    let r = choose|r: Seq<char>| top_folder(views(tracks@), r) && tracks_directly_in(views(tracks@), r)
                        == 0 && #[trigger] subfolder(views(tracks@), r, s);
                    assert(tree_folder(views(tracks@), s));
                }
                assert(tree_folder(views(tracks@), s));
            }
        }
        return FolderTree { nodes, roots: top };
    }
    let table = dir_table(tracks);
    let ghost tv = views(tracks@);
    proof {
        lemma_wf_shrink(table, tv);
    }
    let fs_roots = dirs_with_parent(&table.dirs, &table.parents, None);
    let mut starts: Vec<usize> = Vec::new();
    let mut a: usize = 0;
    while a < fs_roots.len()
        invariant
            table.wf(tv),
            parents_shrink(table),
            forall|k: int| 0 <= k < fs_roots@.len() ==> #[trigger] fs_roots@[k] < table.dirs@.len(),
            forall|k: int| 0 <= k < fs_roots@.len() ==> table.parents@[#[trigger] fs_roots@[k] as int] is None,
            fs_roots@.no_duplicates(),
            path_sorted(table.dirs@, fs_roots@),
            a <= fs_roots@.len(),
            forall|k1: int, k2: int|
                0 <= k1 < k2 < starts@.len() ==> !start_less(
                    tv,
                    table.dirs@[#[trigger] starts@[k2] as int]@,
                    table.dirs@[#[trigger] starts@[k1] as int]@,
                ),
            forall|k: int| 0 <= k < starts@.len() ==> #[trigger] starts@[k] < table.dirs@.len(),
            starts@.no_duplicates(),
            forall|k: int| 0 <= k < starts@.len() ==> start_idx(table, #[trigger] starts@[k] as int),
            forall|k: int| 0 <= k < starts@.len() ==> owned_before(table, #[trigger] starts@[k] as int, fs_roots@, a as int),
            forall|aa: int, j: int|
                #![trigger fs_roots@[aa], start_idx(table, j)]
                0 <= aa < a && 0 <= j < table.dirs@.len() && start_idx(table, j) && owner(table, j) == fs_roots@[aa] as int
                    ==> starts@.contains(j as usize),
            forall|aa: int, d: int|
                0 <= aa < a && 0 <= d < table.dirs@.len() && #[trigger] below(table, d, fs_roots@[aa] as int)
                    && table.direct@[d] > 0 ==> covered(table, starts@, d),
        decreases fs_roots@.len() - a,
    {
        let r = fs_roots[a];
        let ghost starts_before = starts@;
        proof {
            assert(table.parents@[fs_roots@[a as int] as int] is None);
            assert forall|k: int| 0 <= k < starts_before.len() implies owner(table, #[trigger] starts_before[k] as int)
                != r as int && !spec_path_less(
                table.dirs@[r as int]@,
                table.dirs@[owner(table, starts_before[k] as int)]@,
            ) by {
                assert(owned_before(table, starts_before[k] as int, fs_roots@, a as int));
                let aa = choose|aa: int| 0 <= aa < a && owner(table, starts_before[k] as int) == #[trigger] fs_roots@[aa] as int;
                assert(fs_roots@[aa] != fs_roots@[a as int]);
            }
        }
        if table.direct[r] == 0 && table.children[r].len() > 0 {
            let kids = &table.children[r];
            let mut b: usize = 0;
            while b < kids.len()
                invariant
                    table.wf(tv),
                    parents_shrink(table),
                    r < table.dirs@.len(),
                    table.parents@[r as int] is None,
                    table.direct@[r as int] == 0,
                    kids@.len() > 0,
                    kids == &table.children@[r as int],
                    b <= kids@.len(),
                    forall|k: int| 0 <= k < starts@.len() ==> #[trigger] starts@[k] < table.dirs@.len(),
                    starts@.len() == starts_before.len() + b,
                    forall|k: int| 0 <= k < starts_before.len() ==> starts@[k] == starts_before[k],
                    forall|q: int| 0 <= q < b ==> starts@[starts_before.len() + q] == #[trigger] kids@[q],
                    forall|k: int| 0 <= k < starts_before.len() ==> owner(table, #[trigger] starts_before[k] as int)
                        != r as int && !spec_path_less(
                        table.dirs@[r as int]@,
                        table.dirs@[owner(table, starts_before[k] as int)]@,
                    ),
                    forall|k1: int, k2: int|
                0 <= k1 < k2 < starts@.len() ==> !start_less(
                    tv,
                    table.dirs@[#[trigger] starts@[k2] as int]@,
                    table.dirs@[#[trigger] starts@[k1] as int]@,
                ),
                    starts@.no_duplicates(),
                    forall|bb: int| 0 <= bb < b ==> starts@.contains(#[trigger] kids@[bb]),
                decreases kids@.len() - b,
            {
                assert(table.children@[r as int]@[b as int] < table.dirs@.len());
                let ghost sb = starts@;
                proof {
                    lemma_child_below(table, tv, r as int, b as int);
                    let kb = kids@[b as int];
                    lemma_start_owner(table, tv, kb as int);
                    assert forall|k1: int| 0 <= k1 < sb.len() implies !start_less(
                        tv,
                        table.dirs@[kb as int]@,
                        table.dirs@[#[trigger] sb[k1] as int]@,
                    ) by {
                        lemma_start_owner(table, tv, sb[k1] as int);
                        if k1 < starts_before.len() {
                            assert(sb[k1] == starts_before[k1]);
                            let o = owner(table, starts_before[k1] as int);
                            if table.dirs@[o]@ == table.dirs@[r as int]@ {
                                lemma_same_text(table, tv, o, r as int);
                            }
                        } else {
                            let q = k1 - starts_before.len();
                            assert(sb[starts_before.len() + q] == kids@[q]);
                            lemma_child_below(table, tv, r as int, q);
                            assert(!spec_path_less(
                                table.dirs@[table.children@[r as int]@[b as int] as int]@,
                                table.dirs@[table.children@[r as int]@[q] as int]@,
                            ));
                        }
                    }
                    if sb.contains(kids@[b as int]) {
                        let w = choose|w: int| 0 <= w < sb.len() && sb[w] == kids@[b as int];
                        if w < starts_before.len() {
                            assert(owner(table, starts_before[w] as int) == r as int);
                        } else {
                            let q = w - starts_before.len();
                            assert(sb[starts_before.len() + q] == kids@[q]);
                            assert(kids@[q] != kids@[b as int]);
                        }
                    }
                }
                starts.push(kids[b]);
                proof {
                    broadcast use vstd::seq_lib::group_to_multiset_ensures;

                    lemma_insert_new_no_dup(sb, starts@, kids@[b as int]);
                    assert forall|k1: int, k2: int|
                        0 <= k1 < k2 < starts@.len() implies !start_less(
                        tv,
                        table.dirs@[#[trigger] starts@[k2] as int]@,
                        table.dirs@[#[trigger] starts@[k1] as int]@,
                    ) by {
                        assert(starts@[k1] == sb[k1]);
                        if k2 < sb.len() {
                            assert(starts@[k2] == sb[k2]);
                        }
                    }
                    assert forall|bb: int| 0 <= bb < b + 1 implies starts@.contains(#[trigger] kids@[bb]) by {
                        if bb < b {
                            let w = choose|w: int| 0 <= w < sb.len() && sb[w] == kids@[bb];
                            assert(starts@[w] == sb[w]);
                        } else {
                            assert(starts@[starts@.len() - 1] == kids@[bb]);
                        }
                    }
                }
                b = b + 1;
            }
            proof {
                assert forall|k: int| 0 <= k < starts@.len() implies start_idx(table, #[trigger] starts@[k] as int) by {
                    if k >= starts_before.len() {
                        let q = k - starts_before.len();
                        assert(starts@[starts_before.len() + q] == kids@[q]);
                        lemma_child_below(table, tv, r as int, q);
                    } else {
                        assert(starts@[k] == starts_before[k]);
                    }
                }
                assert forall|k: int| 0 <= k < starts@.len() implies owned_before(
                    table,
                    #[trigger] starts@[k] as int,
                    fs_roots@,
                    a + 1,
                ) by {
                    if k >= starts_before.len() {
                        let q = k - starts_before.len();
                        assert(starts@[starts_before.len() + q] == kids@[q]);
                        lemma_child_below(table, tv, r as int, q);
                        assert(owner(table, starts@[k] as int) == fs_roots@[a as int] as int);
                    } else {
                        assert(starts@[k] == starts_before[k]);
                        assert(owned_before(table, starts_before[k] as int, fs_roots@, a as int));
                        let aa = choose|aa: int| 0 <= aa < a && owner(table, starts_before[k] as int) == #[trigger] fs_roots@[aa] as int;
                        assert(owner(table, starts@[k] as int) == fs_roots@[aa] as int);
                    }
                }
                assert forall|aa: int, j: int|
                    #![trigger fs_roots@[aa], start_idx(table, j)]
                    0 <= aa < a + 1 && 0 <= j < table.dirs@.len() && start_idx(table, j) && owner(table, j)
                        == fs_roots@[aa] as int implies starts@.contains(j as usize) by {
                    if aa < a {
                        assert(starts_before.contains(j as usize));
                        let w = choose|w: int| 0 <= w < starts_before.len() && starts_before[w] == j as usize;
                        assert(starts@[w] == starts_before[w]);
                    } else {
                        let p = table.parents@[j]->0;
                        assert(table.parents@[j] is Some);
                        assert(p as int == r as int);
                        assert(table.dirs@.len() == table.dirs.len());
                        assert((j as usize) as int == j);
                        assert(kids@.contains(j as usize));
                        let bb = choose|bb: int| 0 <= bb < kids@.len() && kids@[bb] == j as usize;
                        assert(starts@.contains(kids@[bb]));
                    }
                }
                assert forall|d: int|
                    0 <= d < table.dirs@.len() && #[trigger] below(table, d, r as int) && table.direct@[d] > 0
                        implies covered(table, starts@, d) by {
                    let y = lemma_below_child(table, tv, d, r as int);
                    let bb = choose|bb: int| 0 <= bb < kids@.len() && kids@[bb] == y;
                    assert(starts@.contains(kids@[bb]));
                    let w = choose|w: int| 0 <= w < starts@.len() && starts@[w] == y;
                    assert(below(table, d, starts@[w] as int));
                }
            }
        } else {
            proof {
                if starts_before.contains(r) {
                    let w = choose|w: int| 0 <= w < starts_before.len() && starts_before[w] == r;
                    assert(owner(table, starts_before[w] as int) == r as int);
                }
            }
            starts.push(r);
            proof {
                broadcast use vstd::seq_lib::group_to_multiset_ensures;

                lemma_insert_new_no_dup(starts_before, starts@, r);
                lemma_start_owner(table, tv, r as int);
                assert forall|k1: int, k2: int|
                    0 <= k1 < k2 < starts@.len() implies !start_less(
                    tv,
                    table.dirs@[#[trigger] starts@[k2] as int]@,
                    table.dirs@[#[trigger] starts@[k1] as int]@,
                ) by {
                    assert(starts@[k1] == starts_before[k1]);
                    if k2 < starts_before.len() {
                        assert(starts@[k2] == starts_before[k2]);
                    } else {
                        lemma_start_owner(table, tv, starts_before[k1] as int);
                        let o = owner(table, starts_before[k1] as int);
                        if table.dirs@[o]@ == table.dirs@[r as int]@ {
                            lemma_same_text(table, tv, o, r as int);
                        }
                    }
                }
                assert forall|k: int| 0 <= k < starts@.len() implies start_idx(table, #[trigger] starts@[k] as int) by {
                    if k < starts_before.len() {
                        assert(starts@[k] == starts_before[k]);
                    }
                }
                assert forall|k: int| 0 <= k < starts@.len() implies owned_before(
                    table,
                    #[trigger] starts@[k] as int,
                    fs_roots@,
                    a + 1,
                ) by {
                    if k < starts_before.len() {
                        assert(starts@[k] == starts_before[k]);
                        assert(owned_before(table, starts_before[k] as int, fs_roots@, a as int));
                        let aa = choose|aa: int| 0 <= aa < a && owner(table, starts_before[k] as int) == #[trigger] fs_roots@[aa] as int;
                        assert(owner(table, starts@[k] as int) == fs_roots@[aa] as int);
                    } else {
                        assert(owner(table, starts@[k] as int) == fs_roots@[a as int] as int);
                    }
                }
                assert forall|aa: int, j: int|
                    #![trigger fs_roots@[aa], start_idx(table, j)]
                    0 <= aa < a + 1 && 0 <= j < table.dirs@.len() && start_idx(table, j) && owner(table, j)
                        == fs_roots@[aa] as int implies starts@.contains(j as usize) by {
                    if aa < a {
                        assert(starts_before.contains(j as usize));
                        let w = choose|w: int| 0 <= w < starts_before.len() && starts_before[w] == j as usize;
                        assert(starts@[w] == starts_before[w]);
                    } else {
                        assert(table.parents@[j] is None);
                        assert(starts@[starts@.len() - 1] == r);
                    }
                }
                assert forall|d: int|
                    0 <= d < table.dirs@.len() && #[trigger] below(table, d, r as int) && table.direct@[d] > 0
                        implies covered(table, starts@, d) by {
                    assert(starts@[starts@.len() - 1] == r);
                    assert(below(table, d, starts@[starts@.len() - 1] as int));
                }
            }
        }
        proof {
            assert forall|aa: int, d: int|
                0 <= aa < a + 1 && 0 <= d < table.dirs@.len() && #[trigger] below(table, d, fs_roots@[aa] as int)
                    && table.direct@[d] > 0 implies covered(table, starts@, d) by {
                if aa < a {
                    assert(covered(table, starts_before, d));
                    let s = choose|s: int| 0 <= s < starts_before.len() && #[trigger] below(table, d, starts_before[s] as int);
                    assert(starts@[s] == starts_before[s]);
                    assert(below(table, d, starts@[s] as int));
                }
            }
        }
        a = a + 1;
    }
    proof {
        assert forall|d: int| 0 <= d < table.dirs@.len() && table.direct@[d] > 0 implies covered(table, starts@, d) by {
            let r0 = lemma_below_root(table, tv, d);
            assert(fs_roots@.contains(r0));
            let aa = choose|aa: int| 0 <= aa < fs_roots@.len() && fs_roots@[aa] == r0;
            assert(below(table, d, fs_roots@[aa] as int));
        }
    }
    let mut e: usize = 0;
    while e < starts.len()
        invariant
            table.wf(tv),
            parents_shrink(table),
            forall|k: int| 0 <= k < starts@.len() ==> #[trigger] starts@[k] < table.dirs@.len(),
            starts@.no_duplicates(),
            forall|k: int| 0 <= k < starts@.len() ==> start_idx(table, #[trigger] starts@[k] as int),
            e <= starts@.len(),
            keys_match(nodes@, keys@),
            forall|k: int| 0 <= k < nodes@.len() ==> node_ok(nodes@, k, tv),
            paths_distinct(nodes@),
            forall|m: int| 0 <= m < nodes@.len() ==> under_some(table, (#[trigger] nodes@[m]).path@, starts@, e as int),
            forall|k: int| 0 <= k < top@.len() ==> #[trigger] top@[k] < nodes@.len(),
            top@.no_duplicates(),
            sorted_by_name(nodes@, top@),
            forall|k: int| 0 <= k < top@.len() ==> effective_root(tv, nodes@[#[trigger] top@[k] as int].path@),
            forall|k: int|
                0 <= k < top@.len() ==> from_start(table, tv, starts@, e as int, nodes@[#[trigger] top@[k] as int].path@),
            roots_in_start_order(tv, nodes@, top@),
            forall|ee: int, d: int|
                0 <= ee < e && 0 <= d < table.dirs@.len() && #[trigger] below(table, d, starts@[ee] as int)
                    && table.direct@[d] > 0 ==> root_reaches(table, nodes@, top@, d),
            forall|k1: int, k2: int|
                0 <= k1 < k2 < starts@.len() ==> !start_less(
                    tv,
                    table.dirs@[#[trigger] starts@[k2] as int]@,
                    table.dirs@[#[trigger] starts@[k1] as int]@,
                ),
            forall|ee: int, p: Seq<char>|
                0 <= ee < e && #[trigger] lands_on(tv, table.dirs@[starts@[ee] as int]@, p) ==> lists_dir(nodes@, top@, p),
            forall|ee: int, d: int|
                0 <= ee < e && 0 <= d < table.dirs@.len() && #[trigger] below(table, d, starts@[ee] as int)
                    && table.direct@[d] > 0 ==> has_node(nodes@, table.dirs@[d]@),
            forall|m: usize| m < nodes@.len() ==> #[trigger] linked_from(nodes@, top@, 0, m),
        decreases starts@.len() - e,
    {
        let ghost nodes_before = nodes@;
        let ghost s_e = starts@[e as int] as int;
        proof {
            assert forall|m: int| 0 <= m < nodes@.len() implies !under(table, (#[trigger] nodes@[m]).path@, s_e) by {
                let pm = nodes@[m].path@;
                if under(table, pm, s_e) {
                    assert(under_some(table, pm, starts@, e as int));
                    let q = choose|q: int| 0 <= q < e && #[trigger] under(table, pm, starts@[q] as int);
                    let x = lemma_under_common(table, tv, pm, starts@[q] as int, s_e);
                    assert(starts@[q] != starts@[e as int]);
                    lemma_starts_apart(table, tv, x, starts@[q] as int, s_e);
                }
            }
        }
        let ni = build_node(&table, starts[e], true, &mut nodes, &mut keys, Ghost(tv));
        proof {
            assert forall|i: int, j: int| 0 <= i < j < top@.len() implies !text_less(
                name_key(nodes@[#[trigger] top@[j] as int]),
                name_key(nodes@[#[trigger] top@[i] as int]),
            ) by {
                assert(nodes@[top@[j] as int] == nodes_before[top@[j] as int]);
                assert(nodes@[top@[i] as int] == nodes_before[top@[i] as int]);
            }
            lemma_sorted_names_keys(nodes@, keys@, top@);
        }
        let ghost top_before = top@;
        insert_by_key(&mut top, &keys, ni);
        proof {
            lemma_sorted_keys_names(nodes@, keys@, top@);
            lemma_insert_members(top_before, top@, ni);
            if top_before.contains(ni) {
                let w = choose|w: int| 0 <= w < top_before.len() && top_before[w] == ni;
                assert(top_before[w] < nodes_before.len());
            }
            lemma_insert_new_no_dup(top_before, top@, ni);
            let sp = table.dirs@[s_e]@;
            let pn = nodes@[ni as int].path@;
            lemma_start_idx(table, tv, s_e);
            assert(start_folder(tv, sp));
            assert(lands_on(tv, sp, pn));
            lemma_start_unique(table, tv, start_of(tv, pn), sp, pn);
            let ns = nodes@;
            let key = |u: usize| name_key(ns[u as int]);
            let ok = |u: usize, v: usize|
                !start_less(tv, start_of(tv, ns[v as int].path@), start_of(tv, ns[u as int].path@));
            let p = choose|p: int|
                0 <= p <= top_before.len() && top@ == top_before.insert(p, ni) && (forall|i: int|
                    0 <= i < p ==> !text_less(keys@[ni as int]@, keys@[#[trigger] top_before[i] as int]@)) && (p
                    < top_before.len() ==> text_less(keys@[ni as int]@, keys@[top_before[p] as int]@));
            assert forall|i: int, j: int| 0 <= i < j < top_before.len() && key(#[trigger] top_before[i]) == key(
                #[trigger] top_before[j],
            ) implies ok(top_before[i], top_before[j]) by {
                assert(ns[top_before[i] as int] == nodes_before[top_before[i] as int]);
                assert(ns[top_before[j] as int] == nodes_before[top_before[j] as int]);
            }
            assert forall|i: int, j: int| 0 <= i < j < top_before.len() implies !text_less(
                key(#[trigger] top_before[j]),
                key(#[trigger] top_before[i]),
            ) by {
                assert(keys@[top_before[j] as int]@ == name_key(ns[top_before[j] as int]));
                assert(keys@[top_before[i] as int]@ == name_key(ns[top_before[i] as int]));
            }
            assert forall|i: int| 0 <= i < p && key(#[trigger] top_before[i]) == key(ni) implies ok(
                top_before[i],
                ni,
            ) by {
                let pi = nodes_before[top_before[i] as int].path@;
                assert(ns[top_before[i] as int] == nodes_before[top_before[i] as int]);
                assert(from_start(table, tv, starts@, e as int, pi));
                let ee = choose|ee: int| 0 <= ee < e && #[trigger] lands_on(tv, table.dirs@[starts@[ee] as int]@, pi);
                lemma_start_idx(table, tv, starts@[ee] as int);
                lemma_start_unique(table, tv, start_of(tv, pi), table.dirs@[starts@[ee] as int]@, pi);
                assert(!start_less(tv, table.dirs@[starts@[e as int] as int]@, table.dirs@[starts@[ee] as int]@));
            }
            if p < top_before.len() {
                assert(keys@[ni as int]@ == key(ni));
                assert(keys@[top_before[p] as int]@ == key(top_before[p]));
            }
            lemma_ties_insert(top_before, ni, p, key, ok);
            assert forall|i: int, j: int|
                0 <= i < j < top@.len() && name_key(ns[#[trigger] top@[i] as int]) == name_key(
                    ns[#[trigger] top@[j] as int],
                ) implies !start_less(
                tv,
                start_of(tv, ns[top@[j] as int].path@),
                start_of(tv, ns[top@[i] as int].path@),
            ) by {
                assert(key(top@[i]) == key(top@[j]));
            }
            assert forall|k: int| 0 <= k < top@.len() implies from_start(
                table,
                tv,
                starts@,
                e + 1,
                nodes@[#[trigger] top@[k] as int].path@,
            ) by {
                assert(top@.contains(top@[k]));
                if top@[k] == ni {
                    assert(lands_on(tv, table.dirs@[starts@[e as int] as int]@, pn));
                } else {
                    assert(top_before.contains(top@[k]));
                    let w = choose|w: int| 0 <= w < top_before.len() && top_before[w] == top@[k];
                    assert(nodes@[top@[k] as int] == nodes_before[top_before[w] as int]);
                    let pw = nodes_before[top_before[w] as int].path@;
                    assert(from_start(table, tv, starts@, e as int, pw));
                    let ee = choose|ee: int| 0 <= ee < e && #[trigger] lands_on(tv, table.dirs@[starts@[ee] as int]@, pw);
                    assert(lands_on(tv, table.dirs@[starts@[ee] as int]@, pw));
                }
            }
            assert forall|m: int| 0 <= m < nodes@.len() implies under_some(
                table,
                (#[trigger] nodes@[m]).path@,
                starts@,
                e + 1,
            ) by {
                let pm = nodes@[m].path@;
                if m < nodes_before.len() {
                    assert(nodes@[m] == nodes_before[m]);
                    assert(under_some(table, pm, starts@, e as int));
                    let q = choose|q: int| 0 <= q < e && #[trigger] under(table, pm, starts@[q] as int);
                    assert(under(table, pm, starts@[q] as int));
                } else {
                    assert(under(table, pm, starts@[e as int] as int));
                }
            }
            assert forall|k: int| 0 <= k < top@.len() implies effective_root(tv, nodes@[#[trigger] top@[k] as int].path@) by {
                assert(top@.contains(top@[k]));
                if top@[k] == ni {
                    assert(lands_on(tv, sp, nodes@[top@[k] as int].path@));
                } else {
                    assert(top_before.contains(top@[k]));
                    let w = choose|w: int| 0 <= w < top_before.len() && top_before[w] == top@[k];
                    assert(effective_root(tv, nodes_before[top_before[w] as int].path@));
                    assert(nodes@[top@[k] as int] == nodes_before[top_before[w] as int]);
                }
            }
            assert forall|ee: int, p: Seq<char>|
                0 <= ee < e + 1 && #[trigger] lands_on(tv, table.dirs@[starts@[ee] as int]@, p) implies lists_dir(
                nodes@,
                top@,
                p,
            ) by {
                if ee < e {
                    assert(lists_dir(nodes_before, top_before, p));
                    let w = choose|w: int| 0 <= w < top_before.len() && nodes_before[#[trigger] top_before[w] as int].path@ == p;
                    assert(top@.contains(top_before[w]));
                    let w2 = choose|w2: int| 0 <= w2 < top@.len() && top@[w2] == top_before[w];
                    assert(nodes@[top@[w2] as int] == nodes_before[top_before[w] as int]);
                } else {
                    let k1 = choose|k: nat| #[trigger] skips_to(tv, sp, p, k);
                    let k2 = choose|k: nat| #[trigger] skips_to(tv, sp, pn, k);
                    lemma_skip_unique(tv, sp, p, k1, pn, k2);
                    assert(top@.contains(ni));
                    let w2 = choose|w2: int| 0 <= w2 < top@.len() && top@[w2] == ni;
                    assert(nodes@[top@[w2] as int].path@ == p);
                }
            }
            assert forall|ee: int, d: int|
                0 <= ee < e + 1 && 0 <= d < table.dirs@.len() && #[trigger] below(table, d, starts@[ee] as int)
                    && table.direct@[d] > 0 implies root_reaches(table, nodes@, top@, d) by {
                if ee < e {
                    assert(root_reaches(table, nodes_before, top_before, d));
                    let k = choose|k: int| 0 <= k < top_before.len() && reaches(table, d, nodes_before[#[trigger] top_before[k] as int].path@);
                    assert(top@.contains(top_before[k]));
                    let w = choose|w: int| 0 <= w < top@.len() && top@[w] == top_before[k];
                    assert(nodes@[top@[w] as int] == nodes_before[top_before[k] as int]);
                } else {
                    assert(reaches(table, d, nodes@[ni as int].path@));
                    assert(top@.contains(ni));
                    let w = choose|w: int| 0 <= w < top@.len() && top@[w] == ni;
                    assert(nodes@[top@[w] as int] == nodes@[ni as int]);
                }
            }
            assert forall|ee: int, d: int|
                0 <= ee < e + 1 && 0 <= d < table.dirs@.len() && #[trigger] below(table, d, starts@[ee] as int)
                    && table.direct@[d] > 0 implies has_node(nodes@, table.dirs@[d]@) by {
                if ee < e {
                    lemma_has_node_kept(nodes_before, nodes@, table.dirs@[d]@);
                }
            }
            assert forall|m: usize| m < nodes@.len() implies #[trigger] linked_from(nodes@, top@, 0, m) by {
                if m < nodes_before.len() {
                    assert(linked_from(nodes_before, top_before, 0, m));
                    if !top_before.contains(m) {
                        let j = choose|j: int| 0 <= j < nodes_before.len() && (#[trigger] nodes_before[j]).children@.contains(m);
                        assert(nodes@[j] == nodes_before[j]);
                    }
                } else if m != ni {
                    assert(linked_from(nodes@, Seq::empty(), nodes_before.len() as int, m));
                    assert(!Seq::<usize>::empty().contains(m));
                }
            }
        }
        e = e + 1;
    }
    let tree = FolderTree { nodes, roots: top };
    proof {
        assert forall|t: int|
            0 <= t < tracks@.len() implies (spec_path_parent((#[trigger] tracks@[t]).path@) matches Some(d)
                ==> has_node(tree.nodes@, d)) by {
            if let Some(pd) = spec_path_parent(tracks@[t].path@) {
                assert(tv[t] == tracks@[t]@);
                lemma_directly_in_positive(tv, t);
                assert(listed(table.dirs@, pd));
                let j = choose|j: int| 0 <= j < table.dirs@.len() && (#[trigger] table.dirs@[j])@ == pd;
                assert(table.direct@[j] > 0);
                assert(covered(table, starts@, j));
                let s = choose|s: int| 0 <= s < starts@.len() && #[trigger] below(table, j, starts@[s] as int);
            }
        }
        assert forall|t: int|
            0 <= t < tracks@.len() && spec_path_parent((#[trigger] tracks@[t]).path@) is Some implies exists|k: int|
                0 <= k < tree.roots@.len() && spec_path_starts_with(
                    tracks@[t].path@,
                    tree.nodes@[#[trigger] tree.roots@[k] as int].path@,
                ) by {
            let pd = spec_path_parent(tracks@[t].path@)->0;
            assert(tv[t] == tracks@[t]@);
            assert(track_in_folder(tv, t));
            lemma_directly_in_positive(tv, t);
            assert(listed(table.dirs@, pd));
            let j = choose|j: int| 0 <= j < table.dirs@.len() && (#[trigger] table.dirs@[j])@ == pd;
            assert(table.direct@[j] > 0);
            assert(covered(table, starts@, j));
            let s = choose|s: int| 0 <= s < starts@.len() && #[trigger] below(table, j, starts@[s] as int);
            assert(root_reaches(table, tree.nodes@, tree.roots@, j));
            let k = choose|k: int| 0 <= k < tree.roots@.len() && reaches(table, j, tree.nodes@[#[trigger] tree.roots@[k] as int].path@);
            let x = choose|x: int|
                0 <= x < table.dirs@.len() && table.dirs@[x]@ == tree.nodes@[tree.roots@[k] as int].path@
                    && #[trigger] below(table, j, x);
            lemma_below_starts(table, tv, j, x, tracks@[t].path@);
        }
        assert forall|k: usize| k < tree.nodes@.len() implies #[trigger] linked(tree.nodes@, tree.roots@, k) by {
            assert(linked_from(tree.nodes@, tree.roots@, 0, k));
        }
        assert forall|k: int| 0 <= k < tree.nodes@.len() implies tree_folder(tv, (#[trigger] tree.nodes@[k]).path@) by {
            let pk = tree.nodes@[k].path@;
            assert(under_some(table, pk, starts@, starts@.len() as int));
            let q = choose|q: int| 0 <= q < starts@.len() && #[trigger] under(table, pk, starts@[q] as int);
            let x = choose|x: int| 0 <= x < table.dirs@.len() && #[trigger] below(table, x, starts@[q] as int) && table.dirs@[x]@ == pk;
            assert(tree_folder(tv, table.dirs@[x]@));
        }
        assert forall|k: int, s: Seq<char>|
            0 <= k < tree.roots@.len() && start_folder(tv, s) && #[trigger] lands_on(
                tv,
                s,
                tree.nodes@[#[trigger] tree.roots@[k] as int].path@,
            ) implies s == start_of(tv, tree.nodes@[tree.roots@[k] as int].path@) by {
            let pk = tree.nodes@[tree.roots@[k] as int].path@;
            lemma_start_unique(table, tv, start_of(tv, pk), s, pk);
        }
        assert forall|p: Seq<char>| #[trigger] effective_root(tv, p) implies lists_dir(tree.nodes@, tree.roots@, p) by {
            let s = choose|s: Seq<char>| start_folder(tv, s) && #[trigger] lands_on(tv, s, p);
            if exists|r: Seq<char>| top_folder(tv, r) && tracks_directly_in(tv, r) == 0 && #[trigger] subfolder(tv, r, s) {
                let r = choose|r: Seq<char>| top_folder(tv, r) && tracks_directly_in(tv, r) == 0 && #[trigger] subfolder(tv, r, s);
                assert(tree_folder(tv, s));
            }
            assert(tree_folder(tv, s));
            assert(listed(table.dirs@, s));
            let j = choose|j: int| 0 <= j < table.dirs@.len() && (#[trigger] table.dirs@[j])@ == s;
            lemma_start_idx(table, tv, j);
            let o = owner(table, j);
            assert(0 <= o < table.dirs@.len());
            assert(table.parents@[o] is None);
            assert(table.dirs@.len() == table.dirs.len());
            assert((o as usize) as int == o);
            assert(fs_roots@.contains(o as usize));
            let aa = choose|aa: int| 0 <= aa < fs_roots@.len() && fs_roots@[aa] == o as usize;
            assert(start_idx(table, j));
            assert(starts@.contains(j as usize));
            let ee = choose|ee: int| 0 <= ee < starts@.len() && starts@[ee] == j as usize;
            assert(lands_on(tv, table.dirs@[starts@[ee] as int]@, p));
        }
    }
    tree
}

} // verus!
