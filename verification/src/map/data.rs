//! Plain data the map loader produces: visibility ranges and buckets,
//! prop solidity, door settings, statistics and errors.
use vstd::prelude::*;

verus! {

#[derive(Debug, Clone, Copy, PartialEq, Eq)]
pub struct MapMeshIndexRange {
    pub face: u32,
    pub start: u32,
    pub count: u32,
}

#[derive(Debug, Clone, PartialEq, Eq)]
pub struct MapMeshClusterRanges {
    pub cluster: u32,
    pub ranges: Vec<MapMeshIndexRange>,
}

#[derive(Debug, Clone, PartialEq, Eq)]
pub struct MapMeshVisibility {
    pub always_visible: Vec<MapMeshIndexRange>,
    pub clusters: Vec<MapMeshClusterRanges>,
}

#[derive(Debug, Clone, Copy, PartialEq, Eq, Hash)]
pub enum MapVisibilityBucket {
    Always,
    Cluster(u32),
}

#[derive(Debug, Clone, PartialEq, Eq)]
pub enum MapPropVisibility {
    Always,
    Clusters(Vec<u32>),
}

/// Every element of `s` is smaller than the next: sorted, no repeats.
pub open spec fn spec_strictly_increasing(s: Seq<u32>) -> bool {
    forall|i: int, j: int| 0 <= i < j < s.len() ==> s[i] < s[j]
}

/// The cluster list a prop visibility reports (empty for always-visible).
pub open spec fn spec_prop_clusters(v: MapPropVisibility) -> Seq<u32> {
    match v {
        MapPropVisibility::Always => Seq::empty(),
        MapPropVisibility::Clusters(c) => c@,
    }
}

impl MapPropVisibility {
    /// The visibility of a prop seen from `clusters`: always visible when
    /// there are none, else the clusters sorted with repeats removed.
    pub fn from_clusters(clusters: Vec<u32>) -> (r: Self)
        ensures
            clusters@.len() == 0 ==> r is Always,
            clusters@.len() > 0 ==> r is Clusters,
            spec_strictly_increasing(spec_prop_clusters(r)),
            forall|c: u32| spec_prop_clusters(r).contains(c) <==> clusters@.contains(c),
    {
        let mut sorted: Vec<u32> = Vec::new();
        let mut i: usize = 0;
        while i < clusters.len()
            invariant
                i <= clusters.len(),
                spec_strictly_increasing(sorted@),
                forall|c: u32| sorted@.contains(c) <==> clusters@.take(i as int).contains(c),
                i > 0 ==> sorted@.len() > 0,
            decreases clusters.len() - i,
        {
            let c = clusters[i];
            let ghost prefix = clusters@.take(i as int);
            proof {
                assert(clusters@.take(i + 1) =~= prefix.push(c));
            }
            insert_sorted(&mut sorted, c);
            proof {
                assert forall|x: u32| prefix.push(c).contains(x) <==> (prefix.contains(x) || x == c) by {
                    if prefix.push(c).contains(x) {
                        let j = choose|j: int| 0 <= j < prefix.push(c).len() && prefix.push(c)[j] == x;
                        if j < prefix.len() {
                            assert(prefix[j] == x);
                        }
                    }
                    if prefix.contains(x) {
                        let j = choose|j: int| 0 <= j < prefix.len() && prefix[j] == x;
                        assert(prefix.push(c)[j] == x);
                    }
                    if x == c {
                        assert(prefix.push(c)[prefix.len() as int] == x);
                    }
                }
            }
            i = i + 1;
        }
        assert(clusters@.take(i as int) =~= clusters@);
        proof {
            if clusters@.len() == 0 && sorted@.len() > 0 {
                assert(sorted@.contains(sorted@[0]));
            }
        }
        if sorted.len() == 0 {
            MapPropVisibility::Always
        } else {
            MapPropVisibility::Clusters(sorted)
        }
    }

    pub fn always() -> (r: Self)
        ensures
            r is Always,
    {
        MapPropVisibility::Always
    }

    /// The clusters the prop is visible from; empty when always visible.
    pub fn clusters(&self) -> (r: &[u32])
        ensures
            r@ == spec_prop_clusters(*self),
    {
        match self {
            MapPropVisibility::Always => &[],
            MapPropVisibility::Clusters(c) => c.as_slice(),
        }
    }

    pub fn is_always(&self) -> (r: bool)
        ensures
            r == (*self is Always),
    {
        match self {
            MapPropVisibility::Always => true,
            MapPropVisibility::Clusters(_) => false,
        }
    }

    /// The prop visibility of a single visibility bucket.
    pub fn from_bucket(bucket: MapVisibilityBucket) -> (r: Self)
        ensures
            bucket is Always ==> r is Always,
            bucket matches MapVisibilityBucket::Cluster(c) ==> r is Clusters && spec_prop_clusters(r) == seq![c],
    {
        match bucket {
            MapVisibilityBucket::Always => MapPropVisibility::Always,
            MapVisibilityBucket::Cluster(c) => {
                let mut v: Vec<u32> = Vec::new();
                v.push(c);
                assert(v@ =~= seq![c]);
                MapPropVisibility::Clusters(v)
            },
        }
    }
}

/// Inserts `c` into a strictly increasing vector, unless already present.
pub(crate) fn insert_sorted(v: &mut Vec<u32>, c: u32)
    requires
        spec_strictly_increasing(old(v)@),
    ensures
        spec_strictly_increasing(final(v)@),
        forall|x: u32| final(v)@.contains(x) <==> (old(v)@.contains(x) || x == c),
        final(v)@.len() > 0,
{
    let mut k: usize = 0;
    while k < v.len() && v[k] < c
        invariant
            k <= v.len(),
            v@ == old(v)@,
            spec_strictly_increasing(v@),
            forall|j: int| 0 <= j < k ==> v@[j] < c,
        decreases v.len() - k,
    {
        k = k + 1;
    }
    if k < v.len() && v[k] == c {
        assert(v@[k as int] == c);
        assert(v@.contains(c));
        return;
    }
    let ghost before = v@;
    v.insert(k, c);
    proof {
        assert(v@ =~= before.take(k as int).push(c) + before.skip(k as int));
        assert forall|i: int, j: int| 0 <= i < j < v@.len() implies v@[i] < v@[j] by {
            if j < k {
                assert(v@[i] == before[i] && v@[j] == before[j]);
            } else if j == k {
                assert(v@[i] == before[i]);
            } else if i == k {
                assert(v@[j] == before[j - 1]);
                assert(before[k as int] >= c);
                if j - 1 > k {
                    assert(before[k as int] < before[j - 1]);
                }
            } else if i < k {
                assert(v@[i] == before[i] && v@[j] == before[j - 1]);
            } else {
                assert(v@[i] == before[i - 1] && v@[j] == before[j - 1]);
            }
        }
        assert forall|x: u32| v@.contains(x) <==> (before.contains(x) || x == c) by {
            if v@.contains(x) {
                let i = choose|i: int| 0 <= i < v@.len() && v@[i] == x;
                if i < k {
                    assert(before[i] == x);
                } else if i > k {
                    assert(before[i - 1] == x);
                }
            }
            if before.contains(x) {
                let i = choose|i: int| 0 <= i < before.len() && before[i] == x;
                if i < k {
                    assert(v@[i] == x);
                } else {
                    assert(v@[i + 1] == x);
                }
            }
            if x == c {
                assert(v@[k as int] == c);
            }
        }
    }
}

#[derive(Debug, Clone, Copy, PartialEq, Eq)]
pub enum MapPropSolid {
    /// Not solid (`None` in Source's terms).
    NotSolid,
    Physics,
}

impl MapPropSolid {
    pub fn is_physics(self) -> (r: bool)
        ensures
            r == (self is Physics),
    {
        match self {
            MapPropSolid::Physics => true,
            MapPropSolid::NotSolid => false,
        }
    }
}

#[derive(Debug, Clone, Copy, PartialEq, Eq)]
pub enum MapDoorClass {
    FuncDoor,
    FuncMoveLinear,
    FuncDoorRotating,
    PropDoorRotating,
}

#[derive(Debug, Clone, Copy, PartialEq, Eq)]
pub enum MapDoorOpenDirection {
    Both,
    Forward,
    Backward,
}

#[derive(Debug, Clone, PartialEq, Eq)]
pub struct MapDoorSounds {
    pub move_sound: Option<String>,
    pub stop_sound: Option<String>,
    pub open_sound: Option<String>,
    pub close_sound: Option<String>,
}

#[derive(Debug, Clone, Copy, PartialEq, Eq)]
pub struct MapStatsRaw {
    pub face_count: u32,
    pub displacement_count: u32,
    pub entity_count: u32,
    pub model_count: u32,
    pub static_prop_count: u32,
    pub world_static_prop_count: u32,
    pub skybox_static_prop_count: u32,
    pub entity_prop_count: u32,
    pub world_entity_prop_count: u32,
    pub skybox_entity_prop_count: u32,
    pub cluster_count: u32,
    pub version: u32,
}

#[derive(Debug, Clone, Copy, PartialEq, Eq)]
pub struct MapSkyboxPartitionStats {
    pub sky_camera_present: bool,
    pub face_count: u32,
    pub completion_reattributed_face_count: u32,
    pub static_prop_count: u32,
    pub detail_sprite_count: u32,
    pub overlay_count: u32,
}

impl MapSkyboxPartitionStats {
    /// No sky camera and nothing counted.
    pub fn empty() -> (r: Self)
        ensures
            !r.sky_camera_present,
            r.face_count == 0,
            r.completion_reattributed_face_count == 0,
            r.static_prop_count == 0,
            r.detail_sprite_count == 0,
            r.overlay_count == 0,
    {
        MapSkyboxPartitionStats {
            sky_camera_present: false,
            face_count: 0,
            completion_reattributed_face_count: 0,
            static_prop_count: 0,
            detail_sprite_count: 0,
            overlay_count: 0,
        }
    }
}

/// Why a map could not be loaded.
#[derive(Debug, Clone, PartialEq, Eq)]
pub enum BspError {
    Decode { message: String },
    UnsupportedVersion { version: u32 },
    TooLarge { item: &'static str },
}

} // verus!
