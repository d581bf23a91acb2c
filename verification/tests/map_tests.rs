use gmpublished_backend::map::data::{BspError, MapPropSolid, MapPropVisibility, MapVisibilityBucket};
use gmpublished_backend::map::entity::{
    brush_door_sounds, door_spawn_starts_open, entity_prop_solid, parse_bmodel_index,
    parse_entity_bool, parse_entity_i32, parse_entity_spawnflags, parse_fog_color,
    prop_door_sounds, static_prop_solid, worldspawn_detail_material_name, worldspawn_skyname,
    MapEntity,
};
use gmpublished_backend::map::lighting::{
    ambient_layout, ambient_source, blit_lightmap_blocks, lightmap_source, AmbientLightSource, LightmapSource, AtlasRect, face_lightmap_range, lightmap_axis_luxels, pack_lightmap_blocks, shelf_pack,
    PendingLightmapBlock,
};
use gmpublished_backend::map::lumps::{
    brush_collision, brush_indices_for_model, brush_side_is_sky, bsp_version, displacement_triangle_corners,
    supported_bsp_version,
    BrushCollision, count_to_u32, discard_faces_with_invalid_vertices,
    displacement_vertex_count, face_is_visible, face_vertex_indices, fan_indices,
    reachable_clusters, BrushTree, FaceEdges, ModelIndex, NodeChild, PvsRows,
};
use gmpublished_backend::map::paths::{
    is_pakfile_entry_oversized, is_pakfile_retained_entry, is_preview_material_visible,
    normalize_entity_prop_model_path, normalize_material_name, normalize_pakfile_path,
    normalize_skyname, normalize_source_path, normalize_static_prop_model_path,
    strip_prefix_ascii_case, MAX_PAKFILE_ENTRY_BYTES,
};
use gmpublished_backend::map::visibility::{
    cluster_partition, first_clustered_leaf, skybox_reachability, static_prop_leaf_visibility,
    static_prop_leaves, visibility_bucket, BuildMeshVisibility, FaceAttributions, FaceLeaf,
    GeometryPartition, MapFaceVisibility,
};
use gmpublished_backend::map::data::MapMeshIndexRange;
use gmpublished_backend::map::entity::{entities_of_class, entity_prop_classname, map_entities, DecodeLimits};
use gmpublished_backend::map::grid::{CellBox, PropGrid};
use gmpublished_backend::map::locate::{
    cluster_for_point, clusters_for_box, grid_cell_count, leaf_for_point, LeafTree, TreeNode,
};

fn entity(pairs: &[(&str, &str)]) -> MapEntity {
    MapEntity::from_pairs(
        pairs
            .iter()
            .map(|(k, v)| (k.to_string(), Some(v.to_string())))
            .collect(),
    )
}

fn block(width: usize, height: usize) -> PendingLightmapBlock {
    PendingLightmapBlock {
        rgba: vec![0; width * height * 4],
        width,
        height,
    }
}

#[test]
fn filters_source_tool_and_sky_materials() {
    let cases = [
        ("brick/wall01", true),
        ("Tools/ToolNoDraw", false),
        ("tools/toolsclip", false),
        ("skybox/sky_day01_01up", false),
        ("custom/skybox/fake", false),
        ("sky", false),
        ("skybox", false),
    ];

    for (input, expected) in cases {
        let material = normalize_material_name(input).expect("material should normalize");
        assert_eq!(is_preview_material_visible(&material), expected, "{input}");
    }
}

#[test]
fn fan_indices_triangulate_convex_faces() {
    assert_eq!(fan_indices(0).unwrap(), Vec::<u32>::new());
    assert_eq!(fan_indices(3).unwrap(), vec![0, 1, 2]);
    assert_eq!(fan_indices(4).unwrap(), vec![0, 1, 2, 0, 2, 3]);
    assert_eq!(fan_indices(5).unwrap(), vec![0, 1, 2, 0, 2, 3, 0, 3, 4]);
}

#[test]
fn pakfile_paths_are_normalized_and_limited_to_preview_entries() {
    assert_eq!(
        normalize_pakfile_path(r"\Materials\Props\Door.VMT").as_deref(),
        Some("materials/props/door.vmt")
    );
    assert_eq!(
        normalize_pakfile_path("materials/props/door.vtf").as_deref(),
        Some("materials/props/door.vtf")
    );
    assert_eq!(normalize_pakfile_path("../escape.vmt"), None);
    assert!(is_pakfile_retained_entry("materials/props/door.vmt"));
    assert!(is_pakfile_retained_entry("materials/props/door.vtf"));
    assert!(is_pakfile_retained_entry("models/props/tree.mdl"));
    assert!(is_pakfile_retained_entry("models/props/tree.dx90.vtx"));
    assert!(is_pakfile_retained_entry("models/props/tree.vvd"));
    assert!(is_pakfile_retained_entry("models/props/tree.phy"));
    assert!(!is_pakfile_retained_entry("maps/thumb.png"));
    assert!(!is_pakfile_entry_oversized(MAX_PAKFILE_ENTRY_BYTES));
    assert!(is_pakfile_entry_oversized(
        MAX_PAKFILE_ENTRY_BYTES.saturating_add(1)
    ));
}

#[test]
fn static_prop_model_paths_are_normalized_and_limited_to_mdl() {
    assert_eq!(
        normalize_static_prop_model_path(r"\Models\Props_C17\Oildrum001.MDL").as_deref(),
        Some("models/props_c17/oildrum001.mdl")
    );
    assert_eq!(normalize_static_prop_model_path("../escape.mdl"), None);
    assert_eq!(
        normalize_static_prop_model_path("models/props/tree.vtx"),
        None
    );
}

#[test]
fn entity_prop_model_paths_must_be_models_mdl() {
    assert_eq!(
        normalize_entity_prop_model_path(r"\Models\Props_C17\Oildrum001.MDL").as_deref(),
        Some("models/props_c17/oildrum001.mdl")
    );
    assert_eq!(normalize_entity_prop_model_path("props/tree.mdl"), None);
    assert_eq!(
        normalize_entity_prop_model_path("models/props/tree.vtx"),
        None
    );
}

#[test]
fn shelf_packer_fits_grows_and_overflows() {
    let fits = vec![block(2, 2), block(2, 2)];
    let (width, height, placements) = pack_lightmap_blocks(&fits).expect("fits");
    assert_eq!((width, height), (4, 2));
    assert!(placements.iter().all(Option::is_some));

    let grows = vec![block(600, 500), block(600, 20)];
    let (width, height, placements) = pack_lightmap_blocks(&grows).expect("grows");
    assert_eq!((width, height), (1024, 1024));
    assert!(placements.iter().all(Option::is_some));

    let overflow = vec![block(4096, 4096), block(1, 1)];
    let (width, height, placements) = pack_lightmap_blocks(&overflow).expect("overflows");
    assert_eq!((width, height), (4096, 4096));
    assert!(placements[0].is_some());
    assert!(placements[1].is_none());
}

#[test]
fn material_names_drop_materials_prefix_and_vmt_extension() {
    assert_eq!(
        normalize_material_name(r" \MATERIALS\Brick\Wall01.VMT/ ").as_deref(),
        Some("brick/wall01")
    );
    assert_eq!(normalize_material_name("./a//b/./c"), Some("a/b/c".to_owned()));
    assert_eq!(normalize_material_name("materials/").as_deref(), Some("materials"));
    assert_eq!(normalize_material_name("/"), None);
    assert_eq!(normalize_material_name("a/../b"), None);
    assert_eq!(
        normalize_source_path("Materials/x.vmt", None).as_deref(),
        Some("materials/x.vmt")
    );
}

#[test]
fn skynames_are_canonical_lowercase_paths() {
    assert_eq!(normalize_skyname(" Sky_Day01_01 ").as_deref(), Some("sky_day01_01"));
    assert_eq!(normalize_skyname("   "), None);
    assert_eq!(normalize_skyname("../sky"), None);
    assert_eq!(normalize_skyname(r"\skybox\Night/"), Some("skybox/night".to_owned()));
}

#[test]
fn prefix_strip_ignores_ascii_case_only() {
    assert_eq!(
        strip_prefix_ascii_case("MATERIALS/brick", "materials/").as_deref(),
        Some("brick")
    );
    assert_eq!(strip_prefix_ascii_case("mat", "materials/"), None);
    assert_eq!(strip_prefix_ascii_case("models/x", "materials/"), None);
}

#[test]
fn entity_pairs_are_lowercased_and_first_match_wins() {
    let e = MapEntity::from_pairs(vec![
        ("ClassName".to_owned(), Some("WorldSpawn".to_owned())),
        ("block".to_owned(), None),
        ("classname".to_owned(), Some("second".to_owned())),
    ]);
    assert_eq!(e.pairs.len(), 2);
    assert_eq!(e.prop("classname"), Some("worldspawn"));
    assert_eq!(e.prop("block"), None);
    assert!(e.is_class("worldspawn"));
    assert!(!e.is_class("WorldSpawn"));
}

#[test]
fn worldspawn_keys_come_from_the_first_worldspawn() {
    let entities = vec![
        entity(&[("classname", "light_environment"), ("skyname", "wrong")]),
        entity(&[
            ("classname", "WorldSpawn"),
            ("skyname", "Sky_Day01_01"),
            ("detailmaterial", "detail/Detail_Grass"),
        ]),
        entity(&[("classname", "worldspawn"), ("skyname", "later")]),
    ];
    assert_eq!(worldspawn_skyname(&entities).as_deref(), Some("sky_day01_01"));
    assert_eq!(worldspawn_detail_material_name(&entities), "detail/detail_grass");
    assert_eq!(worldspawn_detail_material_name(&[]), "detail/detailsprites");
    assert_eq!(worldspawn_skyname(&[]), None);
}

#[test]
fn entity_scalars_parse_like_source() {
    assert_eq!(parse_entity_i32(" 42 "), Some(42));
    assert_eq!(parse_entity_i32("-2147483648"), Some(i32::MIN));
    assert_eq!(parse_entity_i32("2147483648"), None);
    assert_eq!(parse_entity_i32("4.5"), None);
    assert_eq!(parse_entity_bool(" YES "), Some(true));
    assert_eq!(parse_entity_bool("no"), Some(false));
    assert_eq!(parse_entity_bool("2"), Some(true));
    assert_eq!(parse_entity_bool("0"), Some(false));
    assert_eq!(parse_entity_bool("maybe"), None);
    assert_eq!(parse_fog_color("255 128 0"), Some([255, 128, 0]));
    assert_eq!(parse_fog_color("255 128"), None);
    assert_eq!(parse_fog_color("255 128 0 1"), None);
    assert_eq!(parse_fog_color("256 0 0"), None);
    assert_eq!(parse_bmodel_index("*3"), Some(3));
    assert_eq!(parse_bmodel_index("*0"), None);
    assert_eq!(parse_bmodel_index("3"), None);
    assert_eq!(parse_bmodel_index("*+7"), Some(7));
}

#[test]
fn door_and_prop_settings_follow_keyvalues() {
    let door = entity(&[("spawnflags", "1"), ("noise1", "  Doors.Move  "), ("noise2", " ")]);
    assert_eq!(parse_entity_spawnflags(&door), 1);
    assert!(door_spawn_starts_open(&door));
    let sounds = brush_door_sounds(&door);
    assert_eq!(sounds.move_sound.as_deref(), Some("doors.move"));
    assert_eq!(sounds.stop_sound, None);

    let closed = entity(&[("spawnflags", "-4"), ("spawnpos", "2")]);
    assert_eq!(parse_entity_spawnflags(&closed), 0);
    assert!(!door_spawn_starts_open(&closed));
    assert!(door_spawn_starts_open(&entity(&[("spawnpos", "1")])));

    let prop = prop_door_sounds(&entity(&[("soundopenoverride", "Custom.Open")]));
    assert_eq!(prop.move_sound.as_deref(), Some("DoorSound.DefaultMove"));
    assert_eq!(prop.open_sound.as_deref(), Some("custom.open"));
    assert_eq!(prop.close_sound.as_deref(), Some("DoorSound.DefaultArrive"));
    assert_eq!(prop.stop_sound, None);

    assert_eq!(static_prop_solid(6), MapPropSolid::Physics);
    assert_eq!(static_prop_solid(0), MapPropSolid::NotSolid);
    assert_eq!(entity_prop_solid(&entity(&[("solid", "6")])), MapPropSolid::Physics);
    assert_eq!(
        entity_prop_solid(&entity(&[("solid", "6"), ("startdisabled", "1")])),
        MapPropSolid::NotSolid
    );
    assert!(MapPropSolid::Physics.is_physics());
}

#[test]
fn prop_visibility_sorts_and_dedups_clusters() {
    let v = MapPropVisibility::from_clusters(vec![5, 2, 5, 9, 2]);
    assert_eq!(v.clusters(), &[2, 5, 9]);
    assert!(!v.is_always());
    assert!(MapPropVisibility::from_clusters(Vec::new()).is_always());
    assert!(MapPropVisibility::always().is_always());
    assert_eq!(
        MapPropVisibility::from_bucket(MapVisibilityBucket::Cluster(7)).clusters(),
        &[7]
    );
    assert!(MapPropVisibility::from_bucket(MapVisibilityBucket::Always).is_always());
}

#[test]
fn bsp_header_version_and_counts() {
    let mut bytes = b"VBSP".to_vec();
    bytes.extend_from_slice(&20u32.to_le_bytes());
    assert_eq!(bsp_version(&bytes), Ok(20));
    assert!(bsp_version(b"VBSP").is_err());
    assert!(bsp_version(b"GBSP\x14\0\0\0").is_err());
    assert_eq!(displacement_vertex_count(2), 25);
    assert_eq!(displacement_vertex_count(-1), 4);
    assert_eq!(displacement_vertex_count(40), i64::MAX);
    assert_eq!(count_to_u32(7), 7);
    assert_eq!(ModelIndex::new(3).get(), 3);
    assert_eq!(NodeChild::decode(-1), Some(NodeChild::Leaf(0)));
    assert_eq!(NodeChild::decode(4), Some(NodeChild::Node(4)));
}

#[test]
fn faces_with_bad_vertices_lose_their_edges() {
    let mut faces = vec![
        FaceEdges { first_edge: 0, edge_count: 2, displacement: 3 },
        FaceEdges { first_edge: 1, edge_count: 2, displacement: 4 },
    ];
    let surfedges = [0, -1, 5];
    let edges = [[0u16, 1], [1, 2]];
    discard_faces_with_invalid_vertices(&mut faces, &surfedges, &edges, 3);
    assert_eq!(faces[0], FaceEdges { first_edge: 0, edge_count: 2, displacement: 3 });
    assert_eq!(faces[1], FaceEdges { first_edge: 1, edge_count: 0, displacement: -1 });
    assert_eq!(
        face_vertex_indices(FaceEdges { first_edge: 0, edge_count: 3, displacement: 0 }, &surfedges, &edges),
        vec![0, 2]
    );
    assert!(face_is_visible(0, &[0x1]));
    assert!(!face_is_visible(0, &[0x4]));
    assert!(!face_is_visible(1, &[0x1]));
}

#[test]
fn cluster_flood_fill_follows_pvs_edges() {
    let rows = PvsRows {
        cluster_count: 4,
        rows: vec![
            Some(vec![false, true, false, false]),
            Some(vec![false, false, true, false]),
            None,
            Some(vec![false, false, false, false]),
        ],
    };
    assert_eq!(reachable_clusters(Some(&rows), 0), vec![true, true, true, false]);
    assert_eq!(reachable_clusters(Some(&rows), 3), vec![false, false, false, true]);
    assert_eq!(reachable_clusters(Some(&rows), 9), vec![false; 4]);
    assert!(reachable_clusters(None, 0).is_empty());
}

#[test]
fn brush_model_collects_brushes_of_reachable_leaves() {
    let tree = BrushTree {
        head_nodes: vec![0],
        node_children: vec![[1, -1], [0, -2]],
        leaf_brush_spans: vec![(0, 2), (2, 1)],
        leaf_brushes: vec![7, 3, 9],
    };
    let brushes: Vec<usize> = brush_indices_for_model(&tree, ModelIndex::new(0)).into_iter().collect();
    assert_eq!(brushes, vec![3, 7, 9]);
    assert!(brush_indices_for_model(&tree, ModelIndex::new(1)).is_empty());
}

#[test]
fn lightmap_ranges_and_shelves() {
    assert_eq!(lightmap_axis_luxels(3), Some(4));
    assert_eq!(lightmap_axis_luxels(-1), None);
    assert_eq!(face_lightmap_range(8, [1, 2], 100), Some((2, 3, 2, 8)));
    assert_eq!(face_lightmap_range(-1, [1, 2], 100), None);
    assert_eq!(face_lightmap_range(8, [1, 2], 7), None);
    let placed = shelf_pack(&[block(3, 2), block(2, 2), block(2, 1)], 5, 4, true);
    assert_eq!(placed.len(), 3);
    let a = placed[0].unwrap();
    let b = placed[1].unwrap();
    let c = placed[2].unwrap();
    assert_eq!((a.x, a.y), (0, 0));
    assert_eq!((b.x, b.y), (3, 0));
    assert_eq!((c.x, c.y), (0, 2));
    assert_eq!(shelf_pack(&[block(6, 1), block(1, 1)], 5, 4, false), vec![None, None]);
}

#[test]
fn face_visibility_records_and_attributions() {
    let mut v = MapFaceVisibility::unknown();
    v.push(MapVisibilityBucket::Cluster(4));
    v.push(MapVisibilityBucket::Cluster(1));
    v.push(MapVisibilityBucket::Cluster(4));
    v.finish();
    assert_eq!(v.clusters, vec![1, 4]);
    assert!(!v.always_visible);
    let mut empty = MapFaceVisibility::unknown();
    empty.finish();
    assert!(empty.always_visible);
    assert_eq!(visibility_bucket(2, 3), MapVisibilityBucket::Cluster(2));
    assert_eq!(visibility_bucket(-1, 3), MapVisibilityBucket::Always);
    assert_eq!(cluster_partition(1, &[false, false], &[false, true]), GeometryPartition::Skybox);
    assert_eq!(cluster_partition(1, &[false, true], &[false, true]), GeometryPartition::Visible);

    let leaves = [
        FaceLeaf { cluster: 0, first_leaf_face: 0, leaf_face_count: 2 },
        FaceLeaf { cluster: 1, first_leaf_face: 2, leaf_face_count: 1 },
    ];
    let attributions =
        FaceAttributions::from_leaves(3, &leaves, &[0, 1, 1], 2, &[true, false], &[false, true], &[false, false, true]);
    assert_eq!(attributions.partition(0), GeometryPartition::Visible);
    assert_eq!(attributions.partition(1), GeometryPartition::Visible);
    assert_eq!(attributions.partition(2), GeometryPartition::Skybox);
    assert_eq!(attributions.partition(9), GeometryPartition::Visible);
    assert_eq!(attributions.visibility(1).clusters, vec![0, 1]);
    assert!(attributions.visibility(2).always_visible);
    assert_eq!(attributions.skybox_face_count(), 1);
    assert_eq!(attributions.completion_reattributed_face_count(), 1);

    let mut mesh = BuildMeshVisibility::new();
    let range = MapMeshIndexRange { face: 0, start: 0, count: 3 };
    mesh.push(&v, range);
    mesh.push(&empty, range);
    let out = mesh.into_map_visibility();
    assert_eq!(out.always_visible, vec![range]);
    assert_eq!(out.clusters.len(), 2);
    assert_eq!(out.clusters[0].cluster, 1);
    assert_eq!(out.clusters[1].cluster, 4);
}

#[test]
fn static_props_see_the_clusters_of_their_leaves() {
    let leaf_table = [3u16, 1, 0, 2];
    let leaf_clusters = [5i16, 2, -1, 2];
    // leaves 1 and 0 (clusters 2 and 5): sorted, one each
    let span = static_prop_leaves(&leaf_table, 1, 2).expect("in range");
    assert_eq!(span, vec![1, 0]);
    let visibility = static_prop_leaf_visibility(2, Some(span.as_slice()), &leaf_clusters, 6);
    assert_eq!(visibility.clusters(), &[2, 5]);
    // a cluster past the PVS rows does not count; nothing left is Always
    let visibility = static_prop_leaf_visibility(2, Some(span.as_slice()), &leaf_clusters, 3);
    assert_eq!(visibility.clusters(), &[2]);
    assert!(static_prop_leaf_visibility(1, Some(&[2u16][..]), &leaf_clusters, 6).is_always());
    // an empty or out-of-range list, or a leaf the map lacks: Always
    assert!(static_prop_leaves(&leaf_table, 3, 2).is_none());
    assert!(static_prop_leaf_visibility(0, Some(&[][..]), &leaf_clusters, 6).is_always());
    assert!(static_prop_leaf_visibility(2, None, &leaf_clusters, 6).is_always());
    assert!(static_prop_leaf_visibility(1, Some(&[9u16][..]), &leaf_clusters, 6).is_always());
}

#[test]
fn the_camera_seed_falls_back_to_the_first_clustered_leaf() {
    assert_eq!(first_clustered_leaf(&[-1, -1, 4, 2]), Some(4));
    assert_eq!(first_clustered_leaf(&[-1]), None);
    assert_eq!(first_clustered_leaf(&[]), None);
}

#[test]
fn skybox_reachability_needs_both_seeds_inside_the_clusters() {
    let rows = PvsRows {
        cluster_count: 3,
        rows: vec![Some(vec![false, true, false]), Some(vec![false, false, false]), Some(vec![false, false, false])],
    };
    let (camera, sky) = skybox_reachability(Some(&rows), Some(0), Some(2)).expect("seeded");
    assert_eq!(camera, vec![true, true, false]);
    assert_eq!(sky, vec![false, false, true]);
    assert!(skybox_reachability(Some(&rows), Some(0), Some(3)).is_none());
    assert!(skybox_reachability(Some(&rows), None, Some(2)).is_none());
    assert!(skybox_reachability(None, Some(0), Some(2)).is_none());
}


fn node(plane: i32, front: i32, back: i32) -> TreeNode {
    TreeNode { plane, children: [front, back] }
}

/// Node 0 splits on plane 0 (front: node 1, back: leaf 0); node 1 splits
/// on plane 1 (front: leaf 1, back: leaf 2).
fn two_level_tree() -> LeafTree {
    LeafTree {
        nodes: vec![node(0, 1, -1), node(1, -2, -3)],
        leaf_clusters: vec![-1, 3, 5],
        plane_count: 2,
    }
}

#[test]
fn point_descends_to_the_leaf_on_its_side_of_each_plane() {
    let tree = two_level_tree();
    let behind = |sides: [bool; 2]| move |plane: usize| sides[plane];
    assert_eq!(leaf_for_point(&tree, behind([true, false])), Some(0));
    assert_eq!(leaf_for_point(&tree, behind([false, false])), Some(1));
    assert_eq!(leaf_for_point(&tree, behind([false, true])), Some(2));
    assert_eq!(cluster_for_point(&tree, behind([true, false])), None);
    assert_eq!(cluster_for_point(&tree, behind([false, false])), Some(3));
    assert_eq!(cluster_for_point(&tree, behind([false, true])), Some(5));
}

#[test]
fn point_descent_fails_on_missing_parts_and_cycles() {
    let behind = |_: usize| false;
    let missing_plane = LeafTree { nodes: vec![node(7, -1, -1)], leaf_clusters: vec![0], plane_count: 2 };
    assert_eq!(leaf_for_point(&missing_plane, behind), None);
    let missing_node = LeafTree { nodes: vec![node(0, 4, -1)], leaf_clusters: vec![0], plane_count: 1 };
    assert_eq!(leaf_for_point(&missing_node, behind), None);
    let cycle = LeafTree { nodes: vec![node(0, 1, -1), node(0, 0, -1)], leaf_clusters: vec![0], plane_count: 1 };
    assert_eq!(leaf_for_point(&cycle, behind), None);
    let empty = LeafTree { nodes: Vec::new(), leaf_clusters: Vec::new(), plane_count: 0 };
    assert_eq!(leaf_for_point(&empty, behind), None);
    let missing_leaf = LeafTree { nodes: vec![node(0, -9, -1)], leaf_clusters: vec![0], plane_count: 1 };
    assert_eq!(leaf_for_point(&missing_leaf, behind), Some(8));
    assert_eq!(cluster_for_point(&missing_leaf, behind), None);
}

#[test]
fn box_walk_gathers_clusters_of_reached_leaves() {
    let tree = two_level_tree();
    let across = |_: usize| (true, true);
    assert_eq!(clusters_for_box(&tree, across, 8), MapPropVisibility::Clusters(vec![3, 5]));
    // Cluster 5 is outside a four-cluster PVS.
    assert_eq!(clusters_for_box(&tree, across, 4), MapPropVisibility::Clusters(vec![3]));
    let front_only = |_: usize| (true, false);
    assert_eq!(clusters_for_box(&tree, front_only, 8), MapPropVisibility::Clusters(vec![3]));
    // Only leaf 0, which has no cluster.
    let back_only = |_: usize| (false, true);
    assert_eq!(clusters_for_box(&tree, back_only, 8), MapPropVisibility::Always);
    let empty = LeafTree { nodes: Vec::new(), leaf_clusters: Vec::new(), plane_count: 0 };
    assert_eq!(clusters_for_box(&empty, across, 8), MapPropVisibility::Always);
}

#[test]
fn box_walk_is_always_visible_when_it_fails() {
    let across = |_: usize| (true, true);
    // A missing leaf, a missing plane, a missing node.
    let missing_leaf = LeafTree { nodes: vec![node(0, -2, -5)], leaf_clusters: vec![1, 2], plane_count: 1 };
    assert_eq!(clusters_for_box(&missing_leaf, across, 8), MapPropVisibility::Always);
    let missing_plane = LeafTree { nodes: vec![node(3, -1, -1)], leaf_clusters: vec![1], plane_count: 1 };
    assert_eq!(clusters_for_box(&missing_plane, across, 8), MapPropVisibility::Always);
    let missing_node = LeafTree { nodes: vec![node(0, -1, 6)], leaf_clusters: vec![1], plane_count: 1 };
    assert_eq!(clusters_for_box(&missing_node, across, 8), MapPropVisibility::Always);
    // A node that is its own child: the walk runs past the depth cap.
    let cycle = LeafTree { nodes: vec![node(0, 0, -1)], leaf_clusters: vec![1], plane_count: 1 };
    assert_eq!(clusters_for_box(&cycle, across, 8), MapPropVisibility::Always);
    // A shared child is visited once, so this tree reaches a single leaf.
    let shared = LeafTree { nodes: vec![node(0, -1, -1)], leaf_clusters: vec![1], plane_count: 1 };
    assert_eq!(clusters_for_box(&shared, across, 8), MapPropVisibility::Clusters(vec![1]));
}

/// Pairs of nodes per layer, each node leading to both nodes of the next
/// layer; the last layer's nodes lead to leaves 0 and 1. A box across
/// every plane reaches `2^layers` leaves.
fn doubling_tree(layers: i32) -> LeafTree {
    let mut nodes = Vec::new();
    for layer in 0..layers {
        for _ in 0..2 {
            if layer + 1 < layers {
                nodes.push(node(0, 2 * (layer + 1), 2 * (layer + 1) + 1));
            } else {
                nodes.push(node(0, -1, -2));
            }
        }
    }
    LeafTree { nodes, leaf_clusters: vec![1, 2], plane_count: 1 }
}

#[test]
fn box_walk_gives_up_past_the_leaf_cap() {
    let across = |_: usize| (true, true);
    // 1024 and 4096 leaves: within the cap.
    assert_eq!(clusters_for_box(&doubling_tree(10), across, 8), MapPropVisibility::Clusters(vec![1, 2]));
    assert_eq!(clusters_for_box(&doubling_tree(12), across, 8), MapPropVisibility::Clusters(vec![1, 2]));
    // 8192 leaves: past the cap of 4096.
    assert_eq!(clusters_for_box(&doubling_tree(13), across, 8), MapPropVisibility::Always);
}

#[test]
fn entities_are_selected_by_class() {
    let entities = vec![
        entity(&[("classname", "worldspawn")]),
        entity(&[("classname", "info_player_start")]),
        entity(&[("classname", "prop_physics")]),
        entity(&[("origin", "0 0 0")]),
        entity(&[("classname", "info_player_start")]),
    ];
    assert_eq!(entities_of_class(&entities, "info_player_start"), vec![1, 4]);
    assert_eq!(entities_of_class(&entities, "light_environment"), Vec::<usize>::new());
    assert_eq!(entity_prop_classname(&entities[2]), Some("prop_physics"));
    assert_eq!(entity_prop_classname(&entities[0]), None);
    assert_eq!(entity_prop_classname(&entities[3]), None);
    assert_eq!(entity_prop_classname(&entity(&[("classname", "PROP_Dynamic_Override")])), Some("prop_dynamic_override"));
}

#[test]
fn displacement_cells_give_two_triangles_each() {
    let whole = displacement_triangle_corners(1, 4);
    assert_eq!(whole, vec![(0, 0), (1, 0), (0, 1), (1, 0), (1, 1), (0, 1)]);
    // Grid point (1, 1) is missing: only the first triangle survives.
    assert_eq!(displacement_triangle_corners(1, 3), vec![(0, 0), (1, 0), (0, 1)]);
    let two = displacement_triangle_corners(2, 9);
    assert_eq!(two.len(), 24);
    assert_eq!(&two[6..12], &[(0, 1), (1, 1), (0, 2), (1, 1), (1, 2), (0, 2)]);
    assert_eq!(&two[12..15], &[(1, 0), (2, 0), (1, 1)]);
    assert_eq!(displacement_triangle_corners(0, 1), Vec::<(usize, usize)>::new());
}

#[test]
fn atlas_blit_copies_placed_blocks_over_the_fill() {
    let fill = [9, 9, 9, 255];
    let small = PendingLightmapBlock { rgba: vec![1, 2, 3, 4], width: 1, height: 1 };
    let wide = PendingLightmapBlock { rgba: vec![5, 5, 5, 5, 6, 6, 6, 6], width: 2, height: 1 };
    let atlas = blit_lightmap_blocks(&[small.clone()], &[Some(AtlasRect { x: 1, y: 0 })], 2, 2, fill);
    assert_eq!(atlas, vec![9, 9, 9, 255, 1, 2, 3, 4, 9, 9, 9, 255, 9, 9, 9, 255]);
    // A later block over the same pixel wins; an unplaced block is skipped.
    let atlas = blit_lightmap_blocks(
        &[small.clone(), wide.clone(), small],
        &[Some(AtlasRect { x: 1, y: 1 }), Some(AtlasRect { x: 0, y: 1 }), None],
        2,
        2,
        fill,
    );
    assert_eq!(atlas, vec![9, 9, 9, 255, 9, 9, 9, 255, 5, 5, 5, 5, 6, 6, 6, 6]);
    assert_eq!(blit_lightmap_blocks(&[], &[], 1, 1, fill), vec![9, 9, 9, 255]);
}

#[test]
fn grid_cell_ranges_count_cells_inclusively() {
    assert_eq!(grid_cell_count([0, 0, 0], [0, 0, 0]), Some(1));
    assert_eq!(grid_cell_count([-1, 0, 2], [1, 3, 2]), Some(12));
    assert_eq!(grid_cell_count([0, 1, 0], [0, 0, 0]), None);
    assert_eq!(grid_cell_count([i32::MIN; 3], [i32::MAX; 3]), None);
}

#[test]
fn brush_contents_decide_walk_collision() {
    assert_eq!(brush_collision(0x1), Some(BrushCollision::Solid));
    assert_eq!(brush_collision(0x1_0000), Some(BrushCollision::Solid));
    assert_eq!(brush_collision(0x20), Some(BrushCollision::Water));
    // Liquid wins over solid.
    assert_eq!(brush_collision(0x11), Some(BrushCollision::Water));
    assert_eq!(brush_collision(0x2 | 0x8), None);
    assert!(!brush_side_is_sky(0, Some(0x80)));
}

#[test]
fn brush_side_sky_flag_accepts_sky_texinfo_and_ignores_plain_or_bevel_sides() {
    let real_bevel = 0;
    let bevel_side = 1;
    assert!(brush_side_is_sky(real_bevel, Some(vformats::bsp::texture_flags::SKY)));
    assert!(brush_side_is_sky(real_bevel, Some(vformats::bsp::texture_flags::SKY2D)));
    assert!(!brush_side_is_sky(real_bevel, Some(0)));
    assert!(!brush_side_is_sky(bevel_side, Some(vformats::bsp::texture_flags::SKY)));
    assert!(!brush_side_is_sky(real_bevel, None));
}

#[test]
fn displacement_tessellation_matches_base_face_fan_winding() {
    // Column-major grid over a flat quad: column along +x, row along +y.
    // The base face fan winds +z, so every displacement triangle must too.
    let steps = 2_usize;
    let side = steps + 1;
    let mut grid = Vec::new();
    for column in 0..side {
        for row in 0..side {
            grid.push([column as f32, row as f32, 0.0_f32]);
        }
    }
    let corners = displacement_triangle_corners(steps, grid.len());
    assert_eq!(corners.len(), steps * steps * 6);
    for triangle in corners.chunks_exact(3) {
        let p = |i: usize| grid[triangle[i].0 * side + triangle[i].1];
        let e1 = [p(1)[0] - p(0)[0], p(1)[1] - p(0)[1]];
        let e2 = [p(2)[0] - p(0)[0], p(2)[1] - p(0)[1]];
        let winding_z = e1[0] * e2[1] - e1[1] * e2[0];
        assert!(winding_z > 0.0, "triangle wound against its base face: {triangle:?}");
    }
}

#[test]
fn unsupported_versions_are_reported_before_decode() {
    let mut bytes = Vec::new();
    bytes.extend_from_slice(b"VBSP");
    bytes.extend_from_slice(&21_u32.to_le_bytes());
    assert_eq!(supported_bsp_version(&bytes), Err(BspError::UnsupportedVersion { version: 21 }));
    bytes[4] = 20;
    assert_eq!(supported_bsp_version(&bytes), Ok(20));
    assert_eq!(
        supported_bsp_version(b"VBS"),
        Err(BspError::Decode { message: "header too short".to_owned() })
    );
}

/// Whether a box reaches in front of and behind a plane through the
/// origin with the given normal.
fn box_sides(min: [f32; 3], max: [f32; 3], normal: [f32; 3]) -> (bool, bool) {
    let center: Vec<f32> = (0..3).map(|axis| (min[axis] + max[axis]) * 0.5).collect();
    let half: Vec<f32> = (0..3).map(|axis| (max[axis] - min[axis]) * 0.5).collect();
    let distance: f32 = (0..3).map(|axis| center[axis] * normal[axis]).sum();
    let radius: f32 = (0..3).map(|axis| half[axis] * normal[axis].abs()).sum();
    (distance >= -radius, distance <= radius)
}

#[test]
fn box_walk_splits_a_box_across_the_root_plane() {
    // One node on the x = 0 plane: leaf 1 (cluster 1) in front, leaf 0
    // (cluster 0) behind.
    let tree = LeafTree { nodes: vec![node(0, -2, -1)], leaf_clusters: vec![0, 1], plane_count: 2 };
    let normals = [[1.0_f32, 0.0, 0.0], [0.0, 0.0, 1.0]];
    let walk = |min: [f32; 3], max: [f32; 3]| clusters_for_box(&tree, |plane: usize| box_sides(min, max, normals[plane]), 2);
    assert_eq!(walk([-48.0, -8.0, -8.0], [-16.0, 8.0, 8.0]), MapPropVisibility::Clusters(vec![0]));
    assert_eq!(walk([-8.0, -8.0, -8.0], [8.0, 8.0, 8.0]), MapPropVisibility::Clusters(vec![0, 1]));
    assert_eq!(walk([16.0, -8.0, -8.0], [48.0, 8.0, 8.0]), MapPropVisibility::Clusters(vec![1]));
}

#[test]
fn baked_atlas_holds_every_packed_block_intact() {
    let colored = |width: usize, height: usize, tone: u8| PendingLightmapBlock {
        rgba: (0..width * height * 4).map(|i| tone.wrapping_add(i as u8)).collect(),
        width,
        height,
    };
    let blocks = vec![colored(3, 2, 10), colored(2, 2, 80), colored(4, 1, 160), colored(1, 3, 200)];
    let (width, height, placements) = pack_lightmap_blocks(&blocks).expect("blocks fit");
    let atlas = blit_lightmap_blocks(&blocks, &placements, width, height, [0, 0, 0, 255]);
    assert_eq!(atlas.len(), width * height * 4);
    for (block, placement) in blocks.iter().zip(&placements) {
        let rect = placement.expect("every block is placed");
        for row in 0..block.height {
            let start = ((rect.y + row) * width + rect.x) * 4;
            let len = block.width * 4;
            assert_eq!(&atlas[start..start + len], &block.rgba[row * len..(row + 1) * len]);
        }
    }
}

fn cell_box(min: [i32; 3], max: [i32; 3]) -> CellBox {
    CellBox { min, max }
}

#[test]
fn prop_grid_files_brushes_by_cell_and_finds_them_again() {
    let boxes = vec![
        Some(cell_box([0, 0, 0], [0, 0, 0])),
        Some(cell_box([1, 0, 0], [2, 0, 0])),
        None,
        // 729 cells: too many to file, so it overflows.
        Some(cell_box([0, 0, 0], [8, 8, 8])),
    ];
    let grid = PropGrid::from_boxes(&boxes);
    assert_eq!(grid.brush_count, 4);
    assert_eq!(grid.overflow, vec![2, 3]);
    assert_eq!(grid.cells.len(), 3);
    let found = |q: Option<CellBox>| grid.query(q).into_iter().collect::<Vec<_>>();
    assert_eq!(found(Some(cell_box([0, 0, 0], [0, 0, 0]))), vec![0, 2, 3]);
    assert_eq!(found(Some(cell_box([2, 0, 0], [5, 5, 5]))), vec![1, 2, 3]);
    assert_eq!(found(Some(cell_box([-3, -3, -3], [-1, -1, -1]))), vec![2, 3]);
    // No box, or one over more than 4096 cells: every brush.
    assert_eq!(found(None), vec![0, 1, 2, 3]);
    assert_eq!(found(Some(cell_box([0, 0, 0], [100, 100, 100]))), vec![0, 1, 2, 3]);
    let empty = PropGrid::from_boxes(&[]);
    assert_eq!(empty.query(None).len(), 0);
}

#[test]
fn ambient_layout_keeps_each_leaf_span_within_the_samples() {
    let (ranges, order) = ambient_layout(&[(0, 2), (5, 1), (1, 3)], 4, 4);
    let spans: Vec<(usize, usize)> = ranges.iter().map(|range| (range.start, range.count)).collect();
    assert_eq!(spans, vec![(0, 2), (0, 0), (2, 3), (0, 0)]);
    assert_eq!(order, vec![0, 1, 1, 2, 3]);
    let (ranges, order) = ambient_layout(&[], 10, 0);
    assert!(ranges.is_empty() && order.is_empty());
}

#[test]
fn ldr_lighting_wins_over_hdr_when_present() {
    assert_eq!(ambient_source(3, 2, 5, 5), AmbientLightSource::Ldr);
    assert_eq!(ambient_source(3, 0, 5, 5), AmbientLightSource::Hdr);
    assert_eq!(ambient_source(0, 2, 5, 0), AmbientLightSource::Neutral);
    assert_eq!(lightmap_source(10, 10), Some(LightmapSource::Ldr));
    assert_eq!(lightmap_source(0, 10), Some(LightmapSource::Hdr));
    assert_eq!(lightmap_source(0, 0), None);
}

#[test]
fn cluster_flood_fill_follows_an_edge_from_either_row() {
    // Cluster 1 sees cluster 0, cluster 0 does not see cluster 1; cluster 3
    // sees cluster 2 only.
    let rows = PvsRows {
        cluster_count: 4,
        rows: vec![
            Some(vec![true, false, false, false]),
            Some(vec![true, true, false, false]),
            Some(vec![false, false, false, false]),
            Some(vec![false, false, true, false]),
        ],
    };
    assert_eq!(reachable_clusters(Some(&rows), 0), vec![true, true, false, false]);
    assert_eq!(reachable_clusters(Some(&rows), 1), vec![true, true, false, false]);
    assert_eq!(reachable_clusters(Some(&rows), 2), vec![false, false, true, true]);
}

fn bsp_with_entities(text: &str) -> Vec<u8> {
    let header = 4 + 4 + 64 * 16 + 4;
    let mut bytes = Vec::new();
    bytes.extend_from_slice(b"VBSP");
    bytes.extend_from_slice(&20i32.to_le_bytes());
    for lump in 0..64 {
        let (offset, len) = if lump == 0 { (header as i32, text.len() as i32) } else { (0, 0) };
        bytes.extend_from_slice(&offset.to_le_bytes());
        bytes.extend_from_slice(&len.to_le_bytes());
        bytes.extend_from_slice(&0i32.to_le_bytes());
        bytes.extend_from_slice(&0i32.to_le_bytes());
    }
    bytes.extend_from_slice(&0i32.to_le_bytes());
    bytes.extend_from_slice(text.as_bytes());
    bytes
}

fn default_decode_limits() -> DecodeLimits {
    DecodeLimits {
        max_input_bytes: 1024 * 1024 * 1024,
        max_entry_bytes: 256 * 1024 * 1024,
        max_entries: 1_000_000,
        max_kv_depth: 64,
        max_stat_records: 1024,
    }
}

fn owned_pairs(pairs: &[(&str, &str)]) -> Vec<(String, String)> {
    pairs.iter().map(|(k, v)| (k.to_string(), v.to_string())).collect()
}

#[test]
fn entities_lump_decodes_to_lowercased_pairs_without_blocks() {
    let bytes = bsp_with_entities(
        "{\n\"classname\" \"Worldspawn\"\n\"SkyName\" \"Sky_Day01\"\n}\n{\n\"ClassName\" \"light\"\n\"sub\" { \"a\" \"b\" }\n}\n",
    );
    let entities = map_entities(&bytes, &default_decode_limits()).expect("decoded");
    assert_eq!(entities.len(), 2);
    assert_eq!(entities[0].pairs, owned_pairs(&[("classname", "worldspawn"), ("skyname", "sky_day01")]));
    assert_eq!(entities[1].pairs, owned_pairs(&[("classname", "light")]));
}

#[test]
fn entities_of_a_file_that_is_no_bsp_are_a_decode_error() {
    let result = map_entities(b"not a bsp at all", &default_decode_limits());
    assert!(matches!(result, Err(BspError::Decode { .. })));
    let bytes = bsp_with_entities("{ \"classname\" \"worldspawn\" }");
    let tight = DecodeLimits { max_input_bytes: 16, ..default_decode_limits() };
    assert!(matches!(map_entities(&bytes, &tight), Err(BspError::Decode { .. })));
}

#[test]
fn material_table_lists_each_name_once_in_first_use_order() {
    let mut table = gmpublished_backend::map::materials::MaterialTable::new();
    assert_eq!(table.intern("concrete/wall".to_string()), 0);
    assert_eq!(table.intern("metal/floor".to_string()), 1);
    assert_eq!(table.intern("concrete/wall".to_string()), 0);
    assert_eq!(table.intern("glass/window".to_string()), 2);
    assert_eq!(
        table.into_names(),
        vec!["concrete/wall".to_string(), "metal/floor".to_string(), "glass/window".to_string()]
    );
}
