//! Per-face visibility bookkeeping: which PVS clusters a face is seen
//! from, which faces belong to the 3D skybox, and the index ranges a mesh
//! draws per cluster.
use vstd::prelude::*;

use super::data::{MapMeshClusterRanges, MapMeshIndexRange, MapMeshVisibility, MapPropVisibility, MapVisibilityBucket, spec_prop_clusters, spec_strictly_increasing};
use super::lumps::{reachable_clusters, rows_view, spec_pvs_closed, PvsRows};

verus! {

/// Which half of the scene geometry belongs to.
#[derive(Debug, Clone, Copy, PartialEq, Eq)]
pub enum GeometryPartition {
    Visible,
    Skybox,
}

/// Whether `cluster` names one of `cluster_count` PVS clusters.
pub fn cluster_in_range(cluster: i16, cluster_count: u32) -> (r: bool)
    ensures
        r == (0 <= cluster && cluster < cluster_count),
{
    cluster >= 0 && (cluster as u32) < cluster_count
}

/// The visibility bucket of a leaf cluster: the cluster itself when in
/// range, else always visible.
pub open spec fn spec_visibility_bucket(cluster: i16, cluster_count: u32) -> MapVisibilityBucket {
    if 0 <= cluster && cluster < cluster_count {
        MapVisibilityBucket::Cluster(cluster as u32)
    } else {
        MapVisibilityBucket::Always
    }
}

pub fn visibility_bucket(cluster: i16, cluster_count: u32) -> (r: MapVisibilityBucket)
    ensures
        r == spec_visibility_bucket(cluster, cluster_count),
{
    if cluster_in_range(cluster, cluster_count) {
        MapVisibilityBucket::Cluster(cluster as u32)
    } else {
        MapVisibilityBucket::Always
    }
}

/// A cluster is skybox geometry when the sky camera reaches it and the
/// player's side does not; anything else (negative clusters included) is
/// visible geometry.
pub open spec fn spec_cluster_partition(cluster: i16, camera_reachable: Seq<bool>, sky_reachable: Seq<bool>) -> GeometryPartition {
    if cluster < 0 {
        GeometryPartition::Visible
    } else {
        let c = cluster as int;
        let sky = c < sky_reachable.len() && sky_reachable[c];
        let camera = c < camera_reachable.len() && camera_reachable[c];
        if sky && !camera {
            GeometryPartition::Skybox
        } else {
            GeometryPartition::Visible
        }
    }
}

pub fn cluster_partition(cluster: i16, camera_reachable: &[bool], sky_reachable: &[bool]) -> (r: GeometryPartition)
    ensures
        r == spec_cluster_partition(cluster, camera_reachable@, sky_reachable@),
{
    if cluster < 0 {
        return GeometryPartition::Visible;
    }
    let c = cluster as usize;
    let sky = c < sky_reachable.len() && sky_reachable[c];
    let camera = c < camera_reachable.len() && camera_reachable[c];
    if sky && !camera {
        GeometryPartition::Skybox
    } else {
        GeometryPartition::Visible
    }
}

/// The faces `first_face .. first_face + face_count` of a brush model, when
/// both are non-negative and the range lies within `total_faces`.
pub fn model_face_range(first_face: i32, face_count: i32, total_faces: usize) -> (r: Option<(usize, usize)>)
    ensures
        (first_face >= 0 && face_count >= 0 && first_face + face_count <= total_faces) ==> r == Some(
            (first_face as usize, (first_face + face_count) as usize),
        ),
        !(first_face >= 0 && face_count >= 0 && first_face + face_count <= total_faces) ==> r is None,
{
    if first_face < 0 || face_count < 0 {
        return None;
    }
    let start = first_face as usize;
    let count = face_count as usize;
    let end = match start.checked_add(count) {
        Some(e) => e,
        None => return None,
    };
    if end <= total_faces {
        Some((start, end))
    } else {
        None
    }
}

/// The PVS clusters a face is seen from, gathered from the leaves that
/// hold it; always visible when any holding leaf is outside the PVS or
/// (once finished) when no cluster was found.
#[derive(Debug, Clone, PartialEq, Eq)]
pub struct MapFaceVisibility {
    pub always_visible: bool,
    pub clusters: Vec<u32>,
}

/// No repeated element.
pub open spec fn spec_no_repeats(s: Seq<u32>) -> bool {
    forall|i: int, j: int| 0 <= i < j < s.len() ==> s[i] != s[j]
}

impl MapFaceVisibility {
    /// Nothing known yet: not always visible, no clusters.
    pub fn unknown() -> (r: Self)
        ensures
            !r.always_visible,
            r.clusters@.len() == 0,
    {
        MapFaceVisibility { always_visible: false, clusters: Vec::new() }
    }

    pub fn always() -> (r: Self)
        ensures
            r.always_visible,
            r.clusters@.len() == 0,
    {
        MapFaceVisibility { always_visible: true, clusters: Vec::new() }
    }

    /// Records one holding leaf's bucket; a cluster is recorded once.
    pub fn push(&mut self, bucket: MapVisibilityBucket)
        requires
            spec_no_repeats(old(self).clusters@),
        ensures
            spec_no_repeats(final(self).clusters@),
            bucket is Always ==> final(self).always_visible && final(self).clusters@ == old(self).clusters@,
            bucket matches MapVisibilityBucket::Cluster(c) ==> final(self).always_visible == old(self).always_visible
                && final(self).clusters@ == (if old(self).clusters@.contains(c) {
                old(self).clusters@
            } else {
                old(self).clusters@.push(c)
            }),
    {
        match bucket {
            MapVisibilityBucket::Always => {
                self.always_visible = true;
            },
            MapVisibilityBucket::Cluster(c) => {
                let mut found = false;
                let mut i: usize = 0;
                while i < self.clusters.len()
                    invariant
                        i <= self.clusters.len(),
                        found == exists|j: int| 0 <= j < i && self.clusters@[j] == c,
                    decreases self.clusters.len() - i,
                {
                    if self.clusters[i] == c {
                        found = true;
                    }
                    i = i + 1;
                }
                if !found {
                    let ghost before = self.clusters@;
                    self.clusters.push(c);
                    assert forall|a: int, b: int| 0 <= a < b < self.clusters@.len() implies self.clusters@[a] != self.clusters@[b] by {
                        if b == before.len() {
                            assert(self.clusters@[a] == before[a]);
                        }
                    }
                }
            },
        }
    }

    /// Closes the record: with no clusters the face is always visible,
    /// otherwise its clusters are sorted.
    pub fn finish(&mut self)
        requires
            spec_no_repeats(old(self).clusters@),
        ensures
            old(self).clusters@.len() == 0 ==> final(self).always_visible && final(self).clusters@.len() == 0,
            old(self).clusters@.len() > 0 ==> final(self).always_visible == old(self).always_visible,
            spec_strictly_increasing(final(self).clusters@),
            forall|c: u32| final(self).clusters@.contains(c) <==> old(self).clusters@.contains(c),
            final(self).clusters@.len() == old(self).clusters@.len(),
    {
        if self.clusters.len() == 0 {
            self.always_visible = true;
            return;
        }
        let ghost orig = self.clusters@;
        let mut sorted: Vec<u32> = Vec::new();
        let mut i: usize = 0;
        while i < self.clusters.len()
            invariant
                i <= self.clusters.len(),
                self.clusters@ == orig,
                spec_no_repeats(orig),
                spec_strictly_increasing(sorted@),
                forall|c: u32| sorted@.contains(c) <==> orig.take(i as int).contains(c),
                sorted@.len() == i,
            decreases self.clusters.len() - i,
        {
            let c = self.clusters[i];
            let ghost prefix = orig.take(i as int);
            proof {
                assert(orig.take(i + 1) =~= prefix.push(c));
                assert(!prefix.contains(c)) by {
                    if prefix.contains(c) {
                        let j = choose|j: int| 0 <= j < prefix.len() && prefix[j] == c;
                        assert(orig[j] == orig[i as int]);
                    }
                }
                assert(!sorted@.contains(c));
            }
            let ghost before = sorted@;
            super::data::insert_sorted(&mut sorted, c);
            proof {
                lemma_strict_len(before, sorted@, c);
                assert forall|x: u32| prefix.push(c).contains(x) <==> (prefix.contains(x) || x == c) by {
                    if prefix.push(c).contains(x) {
                        let j = choose|j: int| 0 <= j < prefix.push(c).len() && prefix.push(c)[j] == x;
                        if j < prefix.len() {
                            assert(prefix[j] == x);
                        }
                    }
                    if prefix.contains(x) {
                        let j = choose|j: int| 0 <= j < prefix.len() && prefix[j] == x;
                        assert(prefix.push(c)[j] == x);
                    }
                    if x == c {
                        assert(prefix.push(c)[prefix.len() as int] == x);
                    }
                }
            }
            i = i + 1;
        }
        assert(orig.take(i as int) =~= orig);
        self.clusters = sorted;
    }

    /// The finished record of a single bucket.
    pub fn from_bucket(bucket: MapVisibilityBucket) -> (r: Self)
        ensures
            bucket is Always ==> r.always_visible && r.clusters@.len() == 0,
            bucket matches MapVisibilityBucket::Cluster(c) ==> !r.always_visible && r.clusters@ == seq![c],
    {
        let mut v = MapFaceVisibility::unknown();
        v.push(bucket);
        let ghost pushed = v.clusters@;
        proof {
            if let MapVisibilityBucket::Cluster(c) = bucket {
                assert(pushed[0] == c);
                assert(pushed.contains(c));
            }
        }
        v.finish();
        proof {
            if let MapVisibilityBucket::Cluster(c) = bucket {
                assert(v.clusters@.len() == 1);
                assert(v.clusters@.contains(c));
                let j = choose|j: int| 0 <= j < v.clusters@.len() && v.clusters@[j] == c;
                assert(v.clusters@ =~= seq![c]);
            }
        }
        v
    }
}

/// Inserting a new element into a strictly increasing sequence adds one.
proof fn lemma_strict_len(before: Seq<u32>, after: Seq<u32>, c: u32)
    requires
        spec_strictly_increasing(before),
        spec_strictly_increasing(after),
        !before.contains(c),
        forall|x: u32| after.contains(x) <==> (before.contains(x) || x == c),
    ensures
        after.len() == before.len() + 1,
{
    let sb = before.to_set();
    let sa = after.to_set();
    assert(sa =~= sb.insert(c));
    before.unique_seq_to_set();
    after.unique_seq_to_set();
}


// --- mesh visibility ranges ------------------------------------------------------

/// A mesh's index ranges while it is built: those drawn always, and those
/// drawn per cluster, kept in increasing cluster order.
#[derive(Debug, Clone, PartialEq, Eq)]
pub struct BuildMeshVisibility {
    pub always_visible: Vec<MapMeshIndexRange>,
    pub clusters: Vec<MapMeshClusterRanges>,
}

/// The `(cluster, ranges)` entries of per-cluster range lists.
pub open spec fn cluster_entries(v: Seq<MapMeshClusterRanges>) -> Seq<(u32, Seq<MapMeshIndexRange>)> {
    Seq::new(v.len(), |i: int| (v[i].cluster, v[i].ranges@))
}

/// Entries in strictly increasing cluster order.
pub open spec fn spec_entries_sorted(e: Seq<(u32, Seq<MapMeshIndexRange>)>) -> bool {
    forall|i: int, j: int| 0 <= i < j < e.len() ==> e[i].0 < e[j].0
}

/// How many entries come before cluster `c`.
pub open spec fn spec_lower_bound(e: Seq<(u32, Seq<MapMeshIndexRange>)>, c: u32) -> int
    decreases e.len(),
{
    if e.len() == 0 {
        0
    } else if e[0].0 < c {
        1 + spec_lower_bound(e.drop_first(), c)
    } else {
        0
    }
}

/// Appends `r` to cluster `c`'s list, creating the list in order when
/// the cluster is new.
pub open spec fn spec_add_range(e: Seq<(u32, Seq<MapMeshIndexRange>)>, c: u32, r: MapMeshIndexRange) -> Seq<
    (u32, Seq<MapMeshIndexRange>),
> {
    let k = spec_lower_bound(e, c);
    if k < e.len() && e[k].0 == c {
        e.update(k, (c, e[k].1.push(r)))
    } else {
        e.take(k).push((c, seq![r])) + e.skip(k)
    }
}

/// `r` added for each of `cs` in turn.
pub open spec fn spec_add_ranges(e: Seq<(u32, Seq<MapMeshIndexRange>)>, cs: Seq<u32>, r: MapMeshIndexRange) -> Seq<
    (u32, Seq<MapMeshIndexRange>),
>
    decreases cs.len(),
{
    if cs.len() == 0 {
        e
    } else {
        spec_add_range(spec_add_ranges(e, cs.drop_last(), r), cs.last(), r)
    }
}

pub proof fn lemma_lower_bound(e: Seq<(u32, Seq<MapMeshIndexRange>)>, c: u32)
    requires
        spec_entries_sorted(e),
    ensures
        0 <= spec_lower_bound(e, c) <= e.len(),
        forall|i: int| 0 <= i < spec_lower_bound(e, c) ==> e[i].0 < c,
        forall|i: int| spec_lower_bound(e, c) <= i < e.len() ==> e[i].0 >= c,
    decreases e.len(),
{
    if e.len() > 0 && e[0].0 < c {
        let t = e.drop_first();
        assert forall|i: int, j: int| 0 <= i < j < t.len() implies t[i].0 < t[j].0 by {
            assert(t[i] == e[i + 1] && t[j] == e[j + 1]);
        }
        lemma_lower_bound(t, c);
        assert forall|i: int| 0 <= i < spec_lower_bound(e, c) implies e[i].0 < c by {
            if i > 0 {
                assert(e[i] == t[i - 1]);
            }
        }
        assert forall|i: int| spec_lower_bound(e, c) <= i < e.len() implies e[i].0 >= c by {
            assert(e[i] == t[i - 1]);
        }
    } else if e.len() > 0 {
        assert forall|i: int| 0 <= i < e.len() implies e[i].0 >= c by {
            if i > 0 {
                assert(e[0].0 < e[i].0);
            }
        }
    }
}

impl BuildMeshVisibility {
    /// No ranges yet.
    pub fn new() -> (r: Self)
        ensures
            r.always_visible@.len() == 0,
            r.clusters@.len() == 0,
    {
        BuildMeshVisibility { always_visible: Vec::new(), clusters: Vec::new() }
    }

    fn add_range(&mut self, c: u32, range: MapMeshIndexRange)
        requires
            spec_entries_sorted(cluster_entries(old(self).clusters@)),
        ensures
            final(self).always_visible@ == old(self).always_visible@,
            cluster_entries(final(self).clusters@) == spec_add_range(cluster_entries(old(self).clusters@), c, range),
            spec_entries_sorted(cluster_entries(final(self).clusters@)),
    {
        let ghost e = cluster_entries(self.clusters@);
        proof {
            lemma_lower_bound(e, c);
        }
        let mut k: usize = 0;
        while k < self.clusters.len() && self.clusters[k].cluster < c
            invariant
                e == cluster_entries(self.clusters@),
                spec_entries_sorted(e),
                k <= self.clusters.len(),
                forall|i: int| 0 <= i < k ==> e[i].0 < c,
                0 <= spec_lower_bound(e, c) <= e.len(),
                forall|i: int| 0 <= i < spec_lower_bound(e, c) ==> e[i].0 < c,
                forall|i: int| spec_lower_bound(e, c) <= i < e.len() ==> e[i].0 >= c,
            decreases self.clusters.len() - k,
        {
            k = k + 1;
        }
        assert(k == spec_lower_bound(e, c)) by {
            if k < spec_lower_bound(e, c) {
                assert(e[k as int].0 < c);
                assert(self.clusters@[k as int].cluster == e[k as int].0);
            }
            if k > spec_lower_bound(e, c) {
                assert(e[spec_lower_bound(e, c)].0 >= c);
            }
        }
        if k < self.clusters.len() && self.clusters[k].cluster == c {
            let mut entry = self.clusters.remove(k);
            entry.ranges.push(range);
            self.clusters.insert(k, entry);
            proof {
                let ne = cluster_entries(self.clusters@);
                assert(ne =~= e.update(k as int, (c, e[k as int].1.push(range))));
            }
        } else {
            let mut ranges: Vec<MapMeshIndexRange> = Vec::new();
            ranges.push(range);
            self.clusters.insert(k, MapMeshClusterRanges { cluster: c, ranges });
            proof {
                let ne = cluster_entries(self.clusters@);
                assert(ranges@ =~= seq![range]);
                assert(ne =~= e.take(k as int).push((c, seq![range])) + e.skip(k as int));
                assert forall|i: int, j: int| 0 <= i < j < ne.len() implies ne[i].0 < ne[j].0 by {
                    if j < k {
                        assert(ne[i] == e[i] && ne[j] == e[j]);
                    } else if j == k {
                        assert(ne[i] == e[i]);
                    } else if i == k {
                        assert(ne[j] == e[j - 1]);
                    } else if i < k {
                        assert(ne[i] == e[i] && ne[j] == e[j - 1]);
                    } else {
                        assert(ne[i] == e[i - 1] && ne[j] == e[j - 1]);
                    }
                }
            }
        }
    }

    /// Records a face's index range: always drawn when the face is always
    /// visible or has no clusters, and drawn for each of its clusters.
    pub fn push(&mut self, face_visibility: &MapFaceVisibility, range: MapMeshIndexRange)
        requires
            spec_entries_sorted(cluster_entries(old(self).clusters@)),
        ensures
            final(self).always_visible@ == (if face_visibility.always_visible || face_visibility.clusters@.len() == 0 {
                old(self).always_visible@.push(range)
            } else {
                old(self).always_visible@
            }),
            cluster_entries(final(self).clusters@) == spec_add_ranges(
                cluster_entries(old(self).clusters@),
                face_visibility.clusters@,
                range,
            ),
            spec_entries_sorted(cluster_entries(final(self).clusters@)),
    {
        if face_visibility.always_visible || face_visibility.clusters.len() == 0 {
            self.always_visible.push(range);
        }
        let ghost start = cluster_entries(self.clusters@);
        let ghost cs = face_visibility.clusters@;
        let mut i: usize = 0;
        assert(cs.take(0) =~= Seq::<u32>::empty());
        while i < face_visibility.clusters.len()
            invariant
                i <= face_visibility.clusters.len(),
                cs == face_visibility.clusters@,
                self.always_visible@ == (if face_visibility.always_visible || face_visibility.clusters@.len() == 0 {
                    old(self).always_visible@.push(range)
                } else {
                    old(self).always_visible@
                }),
                start == cluster_entries(old(self).clusters@),
                spec_entries_sorted(cluster_entries(self.clusters@)),
                cluster_entries(self.clusters@) == spec_add_ranges(start, cs.take(i as int), range),
            decreases face_visibility.clusters.len() - i,
        {
            assert(cs.take(i + 1).drop_last() =~= cs.take(i as int));
            assert(cs.take(i + 1).last() == cs[i as int]);
            self.add_range(face_visibility.clusters[i], range);
            i = i + 1;
        }
        assert(cs.take(i as int) =~= cs);
    }

    /// The finished ranges: always-drawn ones, then per cluster in
    /// increasing cluster order.
    pub fn into_map_visibility(self) -> (r: MapMeshVisibility)
        ensures
            r.always_visible@ == self.always_visible@,
            r.clusters@ == self.clusters@,
    {
        MapMeshVisibility { always_visible: self.always_visible, clusters: self.clusters }
    }
}


// --- face attribution -------------------------------------------------------------

/// What a leaf contributes to its faces: its cluster and its run of the
/// leaf-face lump.
#[derive(Debug, Clone, Copy, PartialEq, Eq)]
pub struct FaceLeaf {
    pub cluster: i16,
    pub first_leaf_face: u16,
    pub leaf_face_count: u16,
}

/// The partition and visibility of every face, from the leaves that hold
/// it.
#[derive(Debug, Clone, PartialEq, Eq)]
pub struct FaceAttributions {
    pub partitions: Vec<GeometryPartition>,
    pub visibility: Vec<MapFaceVisibility>,
    pub completion_reattributed_face_count: usize,
}

/// Entry `k` of leaf `l`'s run names face `f` (a face that exists).
pub open spec fn spec_occ(ls: Seq<FaceLeaf>, lf: Seq<u16>, fc: nat, f: int, l: int, k: int) -> bool {
    &&& 0 <= l < ls.len()
    &&& ls[l].first_leaf_face + ls[l].leaf_face_count <= lf.len()
    &&& ls[l].first_leaf_face <= k < ls[l].first_leaf_face + ls[l].leaf_face_count
    &&& lf[k] == f
    &&& 0 <= f < fc
}

/// Whether `(l, k)` comes before `(big_l, big_k)` in leaf order.
pub open spec fn spec_before(big_l: int, big_k: int, l: int, k: int) -> bool {
    l < big_l || (l == big_l && k < big_k)
}

/// Some holding leaf, before `(big_l, big_k)`, puts face `f` in partition `p`.
pub open spec fn spec_has_part(
    ls: Seq<FaceLeaf>,
    lf: Seq<u16>,
    fc: nat,
    cam: Seq<bool>,
    sky: Seq<bool>,
    f: int,
    p: GeometryPartition,
    big_l: int,
    big_k: int,
) -> bool {
    exists|l: int, k: int|
        spec_before(big_l, big_k, l, k) && #[trigger] spec_occ(ls, lf, fc, f, l, k) && spec_cluster_partition(
            ls[l].cluster,
            cam,
            sky,
        ) == p
}

/// Some holding leaf, before `(big_l, big_k)`, gives face `f` bucket `b`.
pub open spec fn spec_has_bucket(
    ls: Seq<FaceLeaf>,
    lf: Seq<u16>,
    fc: nat,
    cc: u32,
    f: int,
    b: MapVisibilityBucket,
    big_l: int,
    big_k: int,
) -> bool {
    exists|l: int, k: int|
        spec_before(big_l, big_k, l, k) && #[trigger] spec_occ(ls, lf, fc, f, l, k) && spec_visibility_bucket(
            ls[l].cluster,
            cc,
        ) == b
}

/// A face held by any visible leaf is visible; else one held by a
/// skybox leaf is skybox; else it is not attributed.
pub open spec fn spec_attribution(has_visible: bool, has_skybox: bool) -> u8 {
    if has_visible {
        2
    } else if has_skybox {
        1
    } else {
        0
    }
}

/// How a face splits once every leaf is read: the flood partition, moved
/// to the skybox when the face lies inside the completion bounds.
pub open spec fn spec_face_partition(flood_skybox: bool, inside: bool) -> GeometryPartition {
    if flood_skybox {
        GeometryPartition::Skybox
    } else if inside {
        GeometryPartition::Skybox
    } else {
        GeometryPartition::Visible
    }
}

/// Face `f` lies inside the completion bounds and the flood alone would
/// have left it visible geometry, so the completion moves it to the skybox.
pub open spec fn spec_face_reattributed(
    ls: Seq<FaceLeaf>,
    lf: Seq<u16>,
    fc: nat,
    cam: Seq<bool>,
    sky: Seq<bool>,
    inside_completion: Seq<bool>,
    f: int,
) -> bool {
    let vis = spec_has_part(ls, lf, fc, cam, sky, f, GeometryPartition::Visible, ls.len() as int, 0);
    let skyb = spec_has_part(ls, lf, fc, cam, sky, f, GeometryPartition::Skybox, ls.len() as int, 0);
    &&& !(!vis && skyb)
    &&& f < inside_completion.len() && inside_completion[f]
}

/// How many of the faces below `n` the completion moves to the skybox.
pub open spec fn spec_reattributed_count(
    ls: Seq<FaceLeaf>,
    lf: Seq<u16>,
    fc: nat,
    cam: Seq<bool>,
    sky: Seq<bool>,
    inside_completion: Seq<bool>,
    n: int,
) -> nat
    decreases n,
{
    if n <= 0 {
        0
    } else {
        spec_reattributed_count(ls, lf, fc, cam, sky, inside_completion, n - 1) + if spec_face_reattributed(
            ls,
            lf,
            fc,
            cam,
            sky,
            inside_completion,
            n - 1,
        ) {
            1nat
        } else {
            0nat
        }
    }
}

fn copy_clusters(v: &Vec<u32>) -> (r: Vec<u32>)
    ensures
        r@ == v@,
{
    let mut r: Vec<u32> = Vec::new();
    let mut i: usize = 0;
    while i < v.len()
        invariant
            i <= v.len(),
            r@ =~= v@.take(i as int),
        decreases v.len() - i,
    {
        r.push(v[i]);
        i = i + 1;
        assert(r@ =~= v@.take(i as int));
    }
    assert(v@.take(i as int) =~= v@);
    r
}

impl FaceAttributions {
    /// Reads every leaf's faces (see `spec_has_part`, `spec_has_bucket`):
    /// a face is skybox when only skybox leaves hold it, or when it is not
    /// and `inside_completion` says it lies in the completion bounds; its
    /// visibility gathers the buckets of all holding leaves. The count of
    /// faces that only the completion bounds move to the skybox is kept
    /// (see `spec_reattributed_count`).
    pub fn from_leaves(
        face_count: usize,
        leaves: &[FaceLeaf],
        leaf_faces: &[u16],
        cluster_count: u32,
        camera_reachable: &[bool],
        sky_reachable: &[bool],
        inside_completion: &[bool],
    ) -> (r: Self)
        ensures
            r.partitions@.len() == face_count,
            r.visibility@.len() == face_count,
            r.completion_reattributed_face_count == spec_reattributed_count(
                leaves@,
                leaf_faces@,
                face_count as nat,
                camera_reachable@,
                sky_reachable@,
                inside_completion@,
                face_count as int,
            ),
            forall|f: int, c: u32| 0 <= f < face_count && #[trigger] r.visibility@[f].clusters@.contains(c) ==> c < cluster_count,
            forall|f: int|
                0 <= f < face_count ==> {
                    let ls = leaves@;
                    let lf = leaf_faces@;
                    let fc = face_count as nat;
                    let vis = spec_has_part(ls, lf, fc, camera_reachable@, sky_reachable@, f, GeometryPartition::Visible, ls.len() as int, 0);
                    let skyb = spec_has_part(ls, lf, fc, camera_reachable@, sky_reachable@, f, GeometryPartition::Skybox, ls.len() as int, 0);
                    let inside = f < inside_completion@.len() && inside_completion@[f];
                    &&& #[trigger] r.partitions@[f] == spec_face_partition(!vis && skyb, inside)
                    &&& r.visibility@[f].always_visible == (spec_has_bucket(ls, lf, fc, cluster_count, f, MapVisibilityBucket::Always, ls.len() as int, 0)
                        || r.visibility@[f].clusters@.len() == 0)
                    &&& spec_strictly_increasing(r.visibility@[f].clusters@)
                    &&& forall|c: u32| r.visibility@[f].clusters@.contains(c) <==> spec_has_bucket(
                        ls,
                        lf,
                        fc,
                        cluster_count,
                        f,
                        MapVisibilityBucket::Cluster(c),
                        ls.len() as int,
                        0,
                    )
                },
    {
        let ghost ls = leaves@;
        let ghost lf = leaf_faces@;
        let ghost fc = face_count as nat;
        let ghost cam = camera_reachable@;
        let ghost sky = sky_reachable@;
        let mut attrs: Vec<u8> = Vec::new();
        let mut always: Vec<bool> = Vec::new();
        let mut clusters: Vec<Vec<u32>> = Vec::new();
        let mut i: usize = 0;
        while i < face_count
            invariant
                i <= face_count,
                attrs@.len() == i && always@.len() == i && clusters@.len() == i,
                forall|f: int| 0 <= f < i ==> #[trigger] attrs@[f] == 0,
                forall|f: int| 0 <= f < i ==> !#[trigger] always@[f],
                forall|f: int| 0 <= f < i ==> (#[trigger] clusters@[f])@.len() == 0,
            decreases face_count - i,
        {
            attrs.push(0);
            always.push(false);
            clusters.push(Vec::new());
            i = i + 1;
        }
        let mut l: usize = 0;
        proof {
            lemma_nothing_before_start(ls, lf, fc, cam, sky, cluster_count);
            assert forall|f: int| #![trigger clusters@[f]] 0 <= f < face_count implies spec_no_repeats(clusters@[f]@) by {}
        }
        while l < leaves.len()
            invariant
                ls == leaves@,
                lf == leaf_faces@,
                fc == face_count,
                cam == camera_reachable@,
                sky == sky_reachable@,
                l <= leaves.len(),
                attrs@.len() == face_count && always@.len() == face_count && clusters@.len() == face_count,
                forall|f: int| #![trigger attrs@[f]]
                    0 <= f < face_count ==> attrs@[f] == spec_attribution(
                        spec_has_part(ls, lf, fc, cam, sky, f, GeometryPartition::Visible, l as int, 0),
                        spec_has_part(ls, lf, fc, cam, sky, f, GeometryPartition::Skybox, l as int, 0),
                    ),
                forall|f: int| #![trigger always@[f]]
                    0 <= f < face_count ==> always@[f] == spec_has_bucket(ls, lf, fc, cluster_count, f, MapVisibilityBucket::Always, l as int, 0),
                forall|f: int| #![trigger clusters@[f]]
                    0 <= f < face_count ==> spec_no_repeats(clusters@[f]@) && forall|c: u32|
                        clusters@[f]@.contains(c) <==> spec_has_bucket(
                            ls,
                            lf,
                            fc,
                            cluster_count,
                            f,
                            MapVisibilityBucket::Cluster(c),
                            l as int,
                            0,
                        ),
            decreases leaves.len() - l,
        {
            let leaf = leaves[l];
            let partition = cluster_partition(leaf.cluster, camera_reachable, sky_reachable);
            let bucket = visibility_bucket(leaf.cluster, cluster_count);
            let start = leaf.first_leaf_face as usize;
            let end = start + leaf.leaf_face_count as usize;
            if end <= leaf_faces.len() {
                let mut k = start;
                while k < end
                    invariant
                        ls == leaves@,
                        lf == leaf_faces@,
                        fc == face_count,
                        cam == camera_reachable@,
                        sky == sky_reachable@,
                        l < leaves.len(),
                        leaf == ls[l as int],
                        start == leaf.first_leaf_face,
                        end == leaf.first_leaf_face + leaf.leaf_face_count,
                        end <= lf.len(),
                        start <= k <= end,
                        partition == spec_cluster_partition(leaf.cluster, cam, sky),
                        bucket == spec_visibility_bucket(leaf.cluster, cluster_count),
                        attrs@.len() == face_count && always@.len() == face_count && clusters@.len() == face_count,
                        forall|f: int| #![trigger attrs@[f]]
                            0 <= f < face_count ==> attrs@[f] == spec_attribution(
                                spec_has_part(ls, lf, fc, cam, sky, f, GeometryPartition::Visible, l as int, k as int),
                                spec_has_part(ls, lf, fc, cam, sky, f, GeometryPartition::Skybox, l as int, k as int),
                            ),
                        forall|f: int| #![trigger always@[f]]
                            0 <= f < face_count ==> always@[f] == spec_has_bucket(ls, lf, fc, cluster_count, f, MapVisibilityBucket::Always, l as int, k as int),
                        forall|f: int| #![trigger clusters@[f]]
                            0 <= f < face_count ==> spec_no_repeats(clusters@[f]@) && forall|c: u32|
                                clusters@[f]@.contains(c) <==> spec_has_bucket(
                                    ls,
                                    lf,
                                    fc,
                                    cluster_count,
                                    f,
                                    MapVisibilityBucket::Cluster(c),
                                    l as int,
                                    k as int,
                                ),
                    decreases end - k,
                {
                    let face = leaf_faces[k] as usize;
                    if face < face_count {
                        let ghost old_attrs = attrs@;
                        let ghost old_always = always@;
                        let ghost old_clusters = clusters@;
                        let a = attrs[face];
                        let na: u8 = match partition {
                            GeometryPartition::Skybox => if a != 2 { 1 } else { a },
                            GeometryPartition::Visible => 2,
                        };
                        attrs.set(face, na);
                        match bucket {
                            MapVisibilityBucket::Always => {
                                always.set(face, true);
                            },
                            MapVisibilityBucket::Cluster(c) => {
                                let mut fv = MapFaceVisibility { always_visible: false, clusters: copy_clusters(&clusters[face]) };
                                fv.push(bucket);
                                let ghost newc = fv.clusters@;
                                clusters.set(face, fv.clusters);
                                proof {
                                    let oldc = old_clusters[face as int]@;
                                    assert forall|x: u32| newc.contains(x) <==> (oldc.contains(x) || x == c) by {
                                        if !oldc.contains(c) {
                                            if newc.contains(x) {
                                                let j = choose|j: int| 0 <= j < newc.len() && newc[j] == x;
                                                if j < oldc.len() {
                                                    assert(oldc[j] == x);
                                                }
                                            }
                                            if oldc.contains(x) {
                                                let j = choose|j: int| 0 <= j < oldc.len() && oldc[j] == x;
                                                assert(newc[j] == x);
                                            }
                                            if x == c {
                                                assert(newc[oldc.len() as int] == c);
                                            }
                                        }
                                    }
                                    assert(clusters@[face as int]@ == newc);
                                }
                            },
                        }
                        proof {
                            assert(spec_occ(ls, lf, fc, face as int, l as int, k as int));
                            lemma_step_has(ls, lf, fc, cam, sky, cluster_count, l as int, k as int);
                        }
                    } else {
                        proof {
                            lemma_step_has(ls, lf, fc, cam, sky, cluster_count, l as int, k as int);
                        }
                    }
                    k = k + 1;
                }
                proof {
                    lemma_leaf_done(ls, lf, fc, cam, sky, cluster_count, l as int, end as int);
                }
            } else {
                proof {
                    lemma_leaf_done(ls, lf, fc, cam, sky, cluster_count, l as int, 0);
                }
            }
            l = l + 1;
        }
        let mut partitions: Vec<GeometryPartition> = Vec::new();
        let mut visibility: Vec<MapFaceVisibility> = Vec::new();
        let mut reattributed: usize = 0;
        let mut f: usize = 0;
        while f < face_count
            invariant
                ls == leaves@,
                lf == leaf_faces@,
                fc == face_count,
                cam == camera_reachable@,
                sky == sky_reachable@,
                l == leaves.len(),
                f <= face_count,
                reattributed <= f,
                reattributed == spec_reattributed_count(ls, lf, fc, cam, sky, inside_completion@, f as int),
                attrs@.len() == face_count && always@.len() == face_count && clusters@.len() == face_count,
                partitions@.len() == f && visibility@.len() == f,
                forall|g: int| #![trigger attrs@[g]]
                    0 <= g < face_count ==> attrs@[g] == spec_attribution(
                        spec_has_part(ls, lf, fc, cam, sky, g, GeometryPartition::Visible, l as int, 0),
                        spec_has_part(ls, lf, fc, cam, sky, g, GeometryPartition::Skybox, l as int, 0),
                    ),
                forall|g: int| #![trigger always@[g]]
                    0 <= g < face_count ==> always@[g] == spec_has_bucket(ls, lf, fc, cluster_count, g, MapVisibilityBucket::Always, l as int, 0),
                forall|g: int| #![trigger clusters@[g]]
                    0 <= g < face_count ==> spec_no_repeats(clusters@[g]@) && forall|c: u32|
                        clusters@[g]@.contains(c) <==> spec_has_bucket(
                            ls,
                            lf,
                            fc,
                            cluster_count,
                            g,
                            MapVisibilityBucket::Cluster(c),
                            l as int,
                            0,
                        ),
                forall|g: int|
                    0 <= g < f ==> {
                        let vis = spec_has_part(ls, lf, fc, cam, sky, g, GeometryPartition::Visible, l as int, 0);
                        let skyb = spec_has_part(ls, lf, fc, cam, sky, g, GeometryPartition::Skybox, l as int, 0);
                        let inside = g < inside_completion@.len() && inside_completion@[g];
                        &&& #[trigger] partitions@[g] == spec_face_partition(!vis && skyb, inside)
                        &&& visibility@[g].always_visible == (spec_has_bucket(ls, lf, fc, cluster_count, g, MapVisibilityBucket::Always, l as int, 0)
                            || visibility@[g].clusters@.len() == 0)
                        &&& spec_strictly_increasing(visibility@[g].clusters@)
                        &&& forall|c: u32| visibility@[g].clusters@.contains(c) <==> spec_has_bucket(
                            ls,
                            lf,
                            fc,
                            cluster_count,
                            g,
                            MapVisibilityBucket::Cluster(c),
                            l as int,
                            0,
                        )
                    },
            decreases face_count - f,
        {
            let flood_skybox = attrs[f] == 1;
            let inside = f < inside_completion.len() && inside_completion[f];
            let partition = if flood_skybox || inside {
                GeometryPartition::Skybox
            } else {
                GeometryPartition::Visible
            };
            if !flood_skybox && inside {
                reattributed = reattributed + 1;
            }
            partitions.push(partition);
            let mut fv = MapFaceVisibility { always_visible: always[f], clusters: copy_clusters(&clusters[f]) };
            fv.finish();
            visibility.push(fv);
            proof {
                assert(attrs@[f as int] == 1 <==> (!spec_has_part(ls, lf, fc, cam, sky, f as int, GeometryPartition::Visible, l as int, 0)
                    && spec_has_part(ls, lf, fc, cam, sky, f as int, GeometryPartition::Skybox, l as int, 0)));
            }
            f = f + 1;
        }
        proof {
            assert forall|g: int, c: u32| 0 <= g < face_count && #[trigger] visibility@[g].clusters@.contains(c) implies c
                < cluster_count by {
                let _ = partitions@[g];
                assert(spec_has_bucket(ls, lf, fc, cluster_count, g, MapVisibilityBucket::Cluster(c), l as int, 0));
                let (bl, bk) = choose|bl: int, bk: int|
                    spec_before(l as int, 0, bl, bk) && #[trigger] spec_occ(ls, lf, fc, g, bl, bk) && spec_visibility_bucket(
                        ls[bl].cluster,
                        cluster_count,
                    ) == MapVisibilityBucket::Cluster(c);
            }
        }
        FaceAttributions { partitions, visibility, completion_reattributed_face_count: reattributed }
    }

    /// A face's partition; faces past the end are visible geometry.
    pub fn partition(&self, face_index: usize) -> (r: GeometryPartition)
        ensures
            r == (if face_index < self.partitions@.len() {
                self.partitions@[face_index as int]
            } else {
                GeometryPartition::Visible
            }),
    {
        if face_index < self.partitions.len() {
            self.partitions[face_index]
        } else {
            GeometryPartition::Visible
        }
    }

    /// A face's visibility; faces past the end are always visible.
    pub fn visibility(&self, face_index: usize) -> (r: MapFaceVisibility)
        ensures
            face_index < self.visibility@.len() ==> r.always_visible == self.visibility@[face_index as int].always_visible
                && r.clusters@ == self.visibility@[face_index as int].clusters@,
            face_index >= self.visibility@.len() ==> r.always_visible && r.clusters@.len() == 0,
    {
        if face_index < self.visibility.len() {
            let v = &self.visibility[face_index];
            MapFaceVisibility { always_visible: v.always_visible, clusters: copy_clusters(&v.clusters) }
        } else {
            MapFaceVisibility::always()
        }
    }

    /// How many faces are skybox geometry.
    pub fn skybox_face_count(&self) -> (r: usize)
        ensures
            r == self.partitions@.filter(|p: GeometryPartition| p == GeometryPartition::Skybox).len(),
    {
        let ghost ps = self.partitions@;
        let mut n: usize = 0;
        let mut i: usize = 0;
        assert(ps.take(0) =~= Seq::<GeometryPartition>::empty());
        while i < self.partitions.len()
            invariant
                i <= self.partitions.len(),
                ps == self.partitions@,
                n == ps.take(i as int).filter(|p: GeometryPartition| p == GeometryPartition::Skybox).len(),
                n <= i,
            decreases self.partitions.len() - i,
        {
            proof {
                assert(ps.take(i + 1) =~= ps.take(i as int).push(ps[i as int]));
                reveal(Seq::filter);
                assert(ps.take(i + 1).drop_last() =~= ps.take(i as int));
            }
            if let GeometryPartition::Skybox = self.partitions[i] {
                n = n + 1;
            }
            i = i + 1;
        }
        assert(ps.take(i as int) =~= ps);
        n
    }

    pub fn completion_reattributed_face_count(&self) -> (r: usize)
        ensures
            r == self.completion_reattributed_face_count,
    {
        self.completion_reattributed_face_count
    }
}

/// Before the first entry nothing has been read.
proof fn lemma_nothing_before_start(ls: Seq<FaceLeaf>, lf: Seq<u16>, fc: nat, cam: Seq<bool>, sky: Seq<bool>, cc: u32)
    ensures
        forall|f: int, p: GeometryPartition| !#[trigger] spec_has_part(ls, lf, fc, cam, sky, f, p, 0, 0),
        forall|f: int, b: MapVisibilityBucket| !#[trigger] spec_has_bucket(ls, lf, fc, cc, f, b, 0, 0),
{
    assert forall|f: int, p: GeometryPartition| !#[trigger] spec_has_part(ls, lf, fc, cam, sky, f, p, 0, 0) by {
        if spec_has_part(ls, lf, fc, cam, sky, f, p, 0, 0) {
            let (l2, k2) = choose|l2: int, k2: int|
                spec_before(0, 0, l2, k2) && #[trigger] spec_occ(ls, lf, fc, f, l2, k2) && spec_cluster_partition(
                    ls[l2].cluster,
                    cam,
                    sky,
                ) == p;
        }
    }
    assert forall|f: int, b: MapVisibilityBucket| !#[trigger] spec_has_bucket(ls, lf, fc, cc, f, b, 0, 0) by {
        if spec_has_bucket(ls, lf, fc, cc, f, b, 0, 0) {
            let (l2, k2) = choose|l2: int, k2: int|
                spec_before(0, 0, l2, k2) && #[trigger] spec_occ(ls, lf, fc, f, l2, k2) && spec_visibility_bucket(
                    ls[l2].cluster,
                    cc,
                ) == b;
        }
    }
}

/// Moving past entry `(l, k)` adds exactly that entry's occurrence.
proof fn lemma_step_has(
    ls: Seq<FaceLeaf>,
    lf: Seq<u16>,
    fc: nat,
    cam: Seq<bool>,
    sky: Seq<bool>,
    cc: u32,
    l: int,
    k: int,
)
    ensures
        forall|f: int, p: GeometryPartition|
            #[trigger] spec_has_part(ls, lf, fc, cam, sky, f, p, l, k + 1) == (spec_has_part(ls, lf, fc, cam, sky, f, p, l, k) || (spec_occ(
                ls,
                lf,
                fc,
                f,
                l,
                k,
            ) && spec_cluster_partition(ls[l].cluster, cam, sky) == p)),
        forall|f: int, b: MapVisibilityBucket|
            #[trigger] spec_has_bucket(ls, lf, fc, cc, f, b, l, k + 1) == (spec_has_bucket(ls, lf, fc, cc, f, b, l, k) || (spec_occ(
                ls,
                lf,
                fc,
                f,
                l,
                k,
            ) && spec_visibility_bucket(ls[l].cluster, cc) == b)),
{
    assert forall|f: int, p: GeometryPartition|
        #[trigger] spec_has_part(ls, lf, fc, cam, sky, f, p, l, k + 1) == (spec_has_part(ls, lf, fc, cam, sky, f, p, l, k) || (spec_occ(
            ls,
            lf,
            fc,
            f,
            l,
            k,
        ) && spec_cluster_partition(ls[l].cluster, cam, sky) == p)) by {
        if spec_has_part(ls, lf, fc, cam, sky, f, p, l, k + 1) {
            let (l2, k2) = choose|l2: int, k2: int|
                spec_before(l, k + 1, l2, k2) && #[trigger] spec_occ(ls, lf, fc, f, l2, k2) && spec_cluster_partition(
                    ls[l2].cluster,
                    cam,
                    sky,
                ) == p;
            if !(l2 == l && k2 == k) {
                assert(spec_before(l, k, l2, k2));
            }
        }
        if spec_has_part(ls, lf, fc, cam, sky, f, p, l, k) {
            let (l2, k2) = choose|l2: int, k2: int|
                spec_before(l, k, l2, k2) && #[trigger] spec_occ(ls, lf, fc, f, l2, k2) && spec_cluster_partition(
                    ls[l2].cluster,
                    cam,
                    sky,
                ) == p;
            assert(spec_before(l, k + 1, l2, k2));
        }
        if spec_occ(ls, lf, fc, f, l, k) && spec_cluster_partition(ls[l].cluster, cam, sky) == p {
            assert(spec_before(l, k + 1, l, k));
        }
    }
    assert forall|f: int, b: MapVisibilityBucket|
        #[trigger] spec_has_bucket(ls, lf, fc, cc, f, b, l, k + 1) == (spec_has_bucket(ls, lf, fc, cc, f, b, l, k) || (spec_occ(
            ls,
            lf,
            fc,
            f,
            l,
            k,
        ) && spec_visibility_bucket(ls[l].cluster, cc) == b)) by {
        if spec_has_bucket(ls, lf, fc, cc, f, b, l, k + 1) {
            let (l2, k2) = choose|l2: int, k2: int|
                spec_before(l, k + 1, l2, k2) && #[trigger] spec_occ(ls, lf, fc, f, l2, k2) && spec_visibility_bucket(
                    ls[l2].cluster,
                    cc,
                ) == b;
            if !(l2 == l && k2 == k) {
                assert(spec_before(l, k, l2, k2));
            }
        }
        if spec_has_bucket(ls, lf, fc, cc, f, b, l, k) {
            let (l2, k2) = choose|l2: int, k2: int|
                spec_before(l, k, l2, k2) && #[trigger] spec_occ(ls, lf, fc, f, l2, k2) && spec_visibility_bucket(
                    ls[l2].cluster,
                    cc,
                ) == b;
            assert(spec_before(l, k + 1, l2, k2));
        }
        if spec_occ(ls, lf, fc, f, l, k) && spec_visibility_bucket(ls[l].cluster, cc) == b {
            assert(spec_before(l, k + 1, l, k));
        }
    }
}

/// After the last entry of leaf `l` that can hold a face (from `k` on it
/// holds none), moving to the next leaf adds nothing.
proof fn lemma_leaf_done(ls: Seq<FaceLeaf>, lf: Seq<u16>, fc: nat, cam: Seq<bool>, sky: Seq<bool>, cc: u32, l: int, k: int)
    requires
        0 <= l < ls.len(),
        (ls[l].first_leaf_face + ls[l].leaf_face_count <= lf.len()) ==> k >= ls[l].first_leaf_face + ls[l].leaf_face_count,
    ensures
        forall|f: int, p: GeometryPartition|
            #[trigger] spec_has_part(ls, lf, fc, cam, sky, f, p, l + 1, 0) == spec_has_part(ls, lf, fc, cam, sky, f, p, l, k),
        forall|f: int, b: MapVisibilityBucket|
            #[trigger] spec_has_bucket(ls, lf, fc, cc, f, b, l + 1, 0) == spec_has_bucket(ls, lf, fc, cc, f, b, l, k),
{
    assert forall|f: int, p: GeometryPartition|
        #[trigger] spec_has_part(ls, lf, fc, cam, sky, f, p, l + 1, 0) == spec_has_part(ls, lf, fc, cam, sky, f, p, l, k) by {
        if spec_has_part(ls, lf, fc, cam, sky, f, p, l + 1, 0) {
            let (l2, k2) = choose|l2: int, k2: int|
                spec_before(l + 1, 0, l2, k2) && #[trigger] spec_occ(ls, lf, fc, f, l2, k2) && spec_cluster_partition(
                    ls[l2].cluster,
                    cam,
                    sky,
                ) == p;
            assert(spec_before(l, k, l2, k2));
        }
        if spec_has_part(ls, lf, fc, cam, sky, f, p, l, k) {
            let (l2, k2) = choose|l2: int, k2: int|
                spec_before(l, k, l2, k2) && #[trigger] spec_occ(ls, lf, fc, f, l2, k2) && spec_cluster_partition(
                    ls[l2].cluster,
                    cam,
                    sky,
                ) == p;
            assert(spec_before(l + 1, 0, l2, k2));
        }
    }
    assert forall|f: int, b: MapVisibilityBucket|
        #[trigger] spec_has_bucket(ls, lf, fc, cc, f, b, l + 1, 0) == spec_has_bucket(ls, lf, fc, cc, f, b, l, k) by {
        if spec_has_bucket(ls, lf, fc, cc, f, b, l + 1, 0) {
            let (l2, k2) = choose|l2: int, k2: int|
                spec_before(l + 1, 0, l2, k2) && #[trigger] spec_occ(ls, lf, fc, f, l2, k2) && spec_visibility_bucket(
                    ls[l2].cluster,
                    cc,
                ) == b;
            assert(spec_before(l, k, l2, k2));
        }
        if spec_has_bucket(ls, lf, fc, cc, f, b, l, k) {
            let (l2, k2) = choose|l2: int, k2: int|
                spec_before(l, k, l2, k2) && #[trigger] spec_occ(ls, lf, fc, f, l2, k2) && spec_visibility_bucket(
                    ls[l2].cluster,
                    cc,
                ) == b;
            assert(spec_before(l + 1, 0, l2, k2));
        }
    }
}


/// The first cluster of a leaf list that is not negative: the camera-side
/// seed of the skybox partition when there is no player start.
pub open spec fn spec_first_clustered_leaf(leaf_clusters: Seq<i16>) -> Option<i16>
    decreases leaf_clusters.len(),
{
    if leaf_clusters.len() == 0 {
        None
    } else if leaf_clusters[0] >= 0 {
        Some(leaf_clusters[0])
    } else {
        spec_first_clustered_leaf(leaf_clusters.drop_first())
    }
}

pub fn first_clustered_leaf(leaf_clusters: &[i16]) -> (r: Option<i16>)
    ensures
        r == spec_first_clustered_leaf(leaf_clusters@),
{
    let mut i: usize = 0;
    assert(leaf_clusters@.skip(0) =~= leaf_clusters@);
    while i < leaf_clusters.len()
        invariant
            i <= leaf_clusters.len(),
            spec_first_clustered_leaf(leaf_clusters@) == spec_first_clustered_leaf(leaf_clusters@.skip(i as int)),
        decreases leaf_clusters.len() - i,
    {
        assert(leaf_clusters@.skip(i as int)[0] == leaf_clusters@[i as int]);
        if leaf_clusters[i] >= 0 {
            return Some(leaf_clusters[i]);
        }
        assert(leaf_clusters@.skip(i as int).drop_first() =~= leaf_clusters@.skip(i + 1));
        i = i + 1;
    }
    assert(leaf_clusters@.skip(i as int) =~= Seq::<i16>::empty());
    None
}

/// `r` is the set of clusters reachable from `from` over the PVS rows of
/// `p`, an edge in either row joining two clusters: the smallest
/// link-closed set that holds it.
pub open spec fn spec_reached_from(p: PvsRows, from: i16, r: Seq<bool>) -> bool {
    let rows = rows_view(p.rows@);
    let n = p.cluster_count as int;
    &&& r.len() == n
    &&& 0 <= from < n
    &&& r[from as int]
    &&& spec_pvs_closed(rows, r)
    &&& forall|s: Seq<bool>|
        s.len() == n && s[from as int] && #[trigger] spec_pvs_closed(rows, s) ==> forall|i: int| 0 <= i < n && r[i] ==> s[i]
}

/// Whether the skybox partition can be seeded: the map has PVS rows, and
/// both seeds exist and name one of their clusters.
pub open spec fn spec_skybox_seeded(pvs: Option<PvsRows>, camera_seed: Option<i16>, sky_seed: Option<i16>) -> bool {
    &&& pvs is Some
    &&& camera_seed matches Some(c) && 0 <= c < pvs->0.cluster_count
    &&& sky_seed matches Some(k) && 0 <= k < pvs->0.cluster_count
}

/// The clusters reachable from the camera side and from the sky camera,
/// which decide the skybox partition; none (the partition is off) unless
/// `spec_skybox_seeded`.
pub fn skybox_reachability(pvs: Option<&PvsRows>, camera_seed: Option<i16>, sky_seed: Option<i16>) -> (r: Option<(Vec<bool>, Vec<bool>)>)
    requires
        pvs matches Some(p) ==> p.wf(),
    ensures
        r is Some <==> spec_skybox_seeded(
            match pvs {
                Some(p) => Some(*p),
                None => None,
            },
            camera_seed,
            sky_seed,
        ),
        r matches Some((a, b)) ==> spec_reached_from(*pvs->0, camera_seed->0, a@) && spec_reached_from(*pvs->0, sky_seed->0, b@),
{
    let p = match pvs {
        Some(p) => p,
        None => return None,
    };
    let camera = match camera_seed {
        Some(c) => c,
        None => return None,
    };
    let sky = match sky_seed {
        Some(k) => k,
        None => return None,
    };
    if camera < 0 || sky < 0 || camera as usize >= p.cluster_count || sky as usize >= p.cluster_count {
        return None;
    }
    let camera_reachable = reachable_clusters(pvs, camera);
    let sky_reachable = reachable_clusters(pvs, sky);
    Some((camera_reachable, sky_reachable))
}

/// A static prop's span of the game lump's shared leaf table, none when
/// it runs past the table.
pub fn static_prop_leaves(leaf_table: &[u16], first_leaf: u16, leaf_count: u16) -> (r: Option<Vec<u16>>)
    ensures
        first_leaf + leaf_count <= leaf_table@.len() ==> r is Some && r->0@ == leaf_table@.subrange(first_leaf as int, first_leaf + leaf_count),
        first_leaf + leaf_count > leaf_table@.len() ==> r is None,
{
    let start = first_leaf as usize;
    let end = start + leaf_count as usize;
    if end > leaf_table.len() {
        return None;
    }
    let mut v: Vec<u16> = Vec::new();
    let mut i = start;
    while i < end
        invariant
            start <= i <= end <= leaf_table.len(),
            v@ == leaf_table@.subrange(start as int, i as int),
        decreases end - i,
    {
        v.push(leaf_table[i]);
        assert(v@ =~= leaf_table@.subrange(start as int, i + 1));
        i = i + 1;
    }
    Some(v)
}


/// Whether every leaf of a prop's list is one of the map's leaves.
pub open spec fn spec_leaves_known(leaves: Seq<u16>, leaf_clusters: Seq<i16>) -> bool {
    forall|k: int| 0 <= k < leaves.len() ==> (#[trigger] leaves[k]) < leaf_clusters.len()
}

/// Whether cluster `c` is the in-range cluster of one of the prop's leaves.
pub open spec fn spec_prop_sees(leaves: Seq<u16>, leaf_clusters: Seq<i16>, cluster_count: u32, c: u32) -> bool {
    exists|k: int|
        0 <= k < leaves.len() && 0 <= #[trigger] leaf_clusters[leaves[k] as int] < cluster_count && leaf_clusters[leaves[k] as int] == c
}

/// A static prop's visibility from its leaf list: the in-range clusters of
/// its leaves, sorted and without repeats; always visible when the list is
/// empty or out of range, names a leaf the map lacks, or yields no
/// in-range cluster.
pub fn static_prop_leaf_visibility(
    leaf_count: u16,
    prop_leaves: Option<&[u16]>,
    leaf_clusters: &[i16],
    cluster_count: u32,
) -> (r: MapPropVisibility)
    ensures
        (leaf_count == 0 || prop_leaves is None) ==> r is Always,
        leaf_count != 0 ==> (prop_leaves matches Some(ls) ==> {
            &&& !spec_leaves_known(ls@, leaf_clusters@) ==> r is Always
            &&& spec_leaves_known(ls@, leaf_clusters@) ==> {
                &&& spec_strictly_increasing(spec_prop_clusters(r))
                &&& forall|c: u32| spec_prop_clusters(r).contains(c) <==> spec_prop_sees(ls@, leaf_clusters@, cluster_count, c)
                &&& r is Always <==> spec_prop_clusters(r).len() == 0
            }
        }),
{
    if leaf_count == 0 {
        return MapPropVisibility::Always;
    }
    let leaves = match prop_leaves {
        Some(ls) => ls,
        None => return MapPropVisibility::Always,
    };
    let mut clusters: Vec<u32> = Vec::new();
    let mut i: usize = 0;
    while i < leaves.len()
        invariant
            leaf_count != 0,
            prop_leaves == Some(leaves),
            i <= leaves.len(),
            forall|k: int| 0 <= k < i ==> (#[trigger] leaves@[k]) < leaf_clusters@.len(),
            forall|c: u32| clusters@.contains(c) <==> spec_prop_sees(leaves@.take(i as int), leaf_clusters@, cluster_count, c),
        decreases leaves.len() - i,
    {
        let leaf = leaves[i] as usize;
        if leaf >= leaf_clusters.len() {
            proof {
                assert(!spec_leaves_known(leaves@, leaf_clusters@)) by {
                    assert(!(leaves@[i as int] < leaf_clusters@.len()));
                }
            }
            return MapPropVisibility::Always;
        }
        let cluster = leaf_clusters[leaf];
        let ghost before = clusters@;
        if cluster_in_range(cluster, cluster_count) {
            clusters.push(cluster as u32);
        }
        proof {
            let t0 = leaves@.take(i as int);
            let t1 = leaves@.take(i + 1);
            assert(t1 =~= t0.push(leaves@[i as int]));
            assert forall|c: u32| clusters@.contains(c) <==> spec_prop_sees(t1, leaf_clusters@, cluster_count, c) by {
                if spec_prop_sees(t1, leaf_clusters@, cluster_count, c) {
                    let k = choose|k: int|
                        0 <= k < t1.len() && 0 <= #[trigger] leaf_clusters@[t1[k] as int] < cluster_count && leaf_clusters@[t1[k] as int] == c;
                    if k < i {
                        assert(t0[k] == t1[k]);
                        assert(spec_prop_sees(t0, leaf_clusters@, cluster_count, c));
                        assert(before.contains(c));
                        let w = choose|w: int| 0 <= w < before.len() && before[w] == c;
                        assert(clusters@[w] == c);
                    } else {
                        assert(clusters@[clusters@.len() - 1] == c);
                    }
                }
                if clusters@.contains(c) {
                    let w = choose|w: int| 0 <= w < clusters@.len() && clusters@[w] == c;
                    if w < before.len() {
                        assert(before[w] == c);
                        assert(before.contains(c));
                        let k = choose|k: int|
                            0 <= k < t0.len() && 0 <= #[trigger] leaf_clusters@[t0[k] as int] < cluster_count && leaf_clusters@[t0[k] as int] == c;
                        assert(t1[k] == t0[k]);
                    } else {
                        assert(t1[i as int] == leaves@[i as int]);
                        assert(0 <= #[trigger] leaf_clusters@[t1[i as int] as int] < cluster_count && leaf_clusters@[t1[i as int] as int] == c);
                    }
                }
            }
        }
        i = i + 1;
    }
    assert(leaves@.take(leaves.len() as int) =~= leaves@);
    proof {
        if clusters@.len() > 0 {
            assert(clusters@.contains(clusters@[0]));
        }
    }
    let r = MapPropVisibility::from_clusters(clusters);
    proof {
        if spec_prop_clusters(r).len() > 0 {
            assert(spec_prop_clusters(r).contains(spec_prop_clusters(r)[0]));
        }
    }
    r
}

} // verus!
