//! Lightmap bookkeeping: which samples a face's lightmap reads, and the
//! shelf packing of face lightmaps into one atlas.
use vstd::prelude::*;

verus! {

#[derive(Debug, Clone, Copy, PartialEq, Eq)]
pub enum AmbientLightSource {
    Neutral,
    Ldr,
    Hdr,
}

#[derive(Debug, Clone, Copy, PartialEq, Eq)]
pub enum LightmapSource {
    Ldr,
    Hdr,
}

#[derive(Debug, Clone, PartialEq, Eq)]
pub struct LightmapAtlas {
    pub rgba: Vec<u8>,
    pub width: u32,
    pub height: u32,
    pub source: LightmapSource,
}

/// A leaf's run of ambient samples.
#[derive(Debug, Clone, Copy, PartialEq, Eq)]
pub struct AmbientSampleRange {
    pub start: usize,
    pub count: usize,
}

impl AmbientSampleRange {
    pub fn end(self) -> (r: usize)
        requires
            self.start + self.count <= usize::MAX,
        ensures
            r == self.start + self.count,
    {
        self.start + self.count
    }
}

/// Ambient lighting is usable when it has both samples and a leaf index.
pub fn ambient_lighting_is_usable(sample_count: usize, index_count: usize) -> (r: bool)
    ensures
        r == (sample_count > 0 && index_count > 0),
{
    sample_count != 0 && index_count != 0
}

/// Where each leaf's ambient samples land once gathered: leaf by leaf,
/// a leaf whose index entry `(first_sample, sample_count)` lies within
/// the `sample_count` samples gets the next run of that length, and the
/// sample positions it reads are appended in order; a leaf without an
/// entry, or whose entry runs past the samples, gets an empty run at 0.
pub open spec fn spec_ambient_layout(index: Seq<(u16, u16)>, sample_count: nat, leaf_count: nat) -> (
    Seq<AmbientSampleRange>,
    Seq<usize>,
)
    decreases leaf_count,
{
    if leaf_count == 0 {
        (Seq::empty(), Seq::empty())
    } else {
        let prev = spec_ambient_layout(index, sample_count, (leaf_count - 1) as nat);
        let l = leaf_count - 1;
        if l < index.len() && index[l].0 + index[l].1 <= sample_count {
            let first = index[l].0 as int;
            let count = index[l].1 as int;
            (
                prev.0.push(AmbientSampleRange { start: prev.1.len() as usize, count: count as usize }),
                prev.1 + Seq::new(count as nat, |i: int| (first + i) as usize),
            )
        } else {
            (prev.0.push(AmbientSampleRange { start: 0, count: 0 }), prev.1)
        }
    }
}

/// The layout of `leaf_count` leaves' ambient samples (see
/// `spec_ambient_layout`): each leaf's run, and the sample each gathered
/// position reads.
pub fn ambient_layout(index: &[(u16, u16)], sample_count: usize, leaf_count: usize) -> (r: (
    Vec<AmbientSampleRange>,
    Vec<usize>,
))
    requires
        leaf_count * 0x10000 <= usize::MAX,
    ensures
        r.0@ == spec_ambient_layout(index@, sample_count as nat, leaf_count as nat).0,
        r.1@ == spec_ambient_layout(index@, sample_count as nat, leaf_count as nat).1,
{
    let mut ranges: Vec<AmbientSampleRange> = Vec::new();
    let mut order: Vec<usize> = Vec::new();
    let mut l: usize = 0;
    while l < leaf_count
        invariant
            l <= leaf_count,
            leaf_count * 0x10000 <= usize::MAX,
            order@.len() <= l * 0x10000,
            ranges@ == spec_ambient_layout(index@, sample_count as nat, l as nat).0,
            order@ == spec_ambient_layout(index@, sample_count as nat, l as nat).1,
        decreases leaf_count - l,
    {
        let ghost prev_order = order@;
        assert(l * 0x10000 + 0x10000 <= leaf_count * 0x10000) by (nonlinear_arith)
            requires
                l < leaf_count,
        ;
        if l < index.len() && (index[l].0 as usize) + (index[l].1 as usize) <= sample_count {
            let first = index[l].0 as usize;
            let count = index[l].1 as usize;
            ranges.push(AmbientSampleRange { start: order.len(), count });
            let mut i: usize = 0;
            while i < count
                invariant
                    i <= count,
                    count <= 0xffff,
                    order@.len() == prev_order.len() + i,
                    prev_order.len() <= l * 0x10000,
                    order@ == prev_order + Seq::new(i as nat, |j: int| (first + j) as usize),
                    first + count <= sample_count,
                decreases count - i,
            {
                order.push(first + i);
                assert(order@ =~= prev_order + Seq::new((i + 1) as nat, |j: int| (first + j) as usize));
                i = i + 1;
            }
        } else {
            ranges.push(AmbientSampleRange { start: 0, count: 0 });
        }
        l = l + 1;
    }
    (ranges, order)
}

/// The ambient samples the map is lit with: LDR when its samples and
/// leaf index are both present, else HDR when its are, else none
/// (neutral white).
pub fn ambient_source(ldr_samples: usize, ldr_index: usize, hdr_samples: usize, hdr_index: usize) -> (r: AmbientLightSource)
    ensures
        r == (if ldr_samples > 0 && ldr_index > 0 {
            AmbientLightSource::Ldr
        } else if hdr_samples > 0 && hdr_index > 0 {
            AmbientLightSource::Hdr
        } else {
            AmbientLightSource::Neutral
        }),
{
    if ambient_lighting_is_usable(ldr_samples, ldr_index) {
        AmbientLightSource::Ldr
    } else if ambient_lighting_is_usable(hdr_samples, hdr_index) {
        AmbientLightSource::Hdr
    } else {
        AmbientLightSource::Neutral
    }
}

/// The lightmap samples faces read: LDR when the map has any, else HDR
/// when it has any, else none.
pub fn lightmap_source(ldr_samples: usize, hdr_samples: usize) -> (r: Option<LightmapSource>)
    ensures
        r == (if ldr_samples > 0 {
            Some(LightmapSource::Ldr)
        } else if hdr_samples > 0 {
            Some(LightmapSource::Hdr)
        } else {
            None
        }),
{
    if ldr_samples != 0 {
        Some(LightmapSource::Ldr)
    } else if hdr_samples != 0 {
        Some(LightmapSource::Hdr)
    } else {
        None
    }
}

/// Luxels along one lightmap axis: the stored size plus one; none for a
/// negative size.
pub fn lightmap_axis_luxels(size: i32) -> (r: Option<usize>)
    ensures
        size < 0 ==> r is None,
        size >= 0 ==> r == Some((size + 1) as usize),
{
    if size < 0 {
        None
    } else {
        Some(size as usize + 1)
    }
}

/// The luxel grid of a face's style-0 lightmap and the sample range it
/// reads: `(width, height, start, end)` with `start` the byte offset over
/// four; none when the face is unlit, a size is negative, the arithmetic
/// overflows, or the range runs past `sample_count` samples.
pub open spec fn spec_face_lightmap_range(light_offset: i32, lightmap_size: [i32; 2], sample_count: nat) -> Option<
    (nat, nat, nat, nat),
> {
    if light_offset < 0 || lightmap_size[0] < 0 || lightmap_size[1] < 0 {
        None
    } else {
        let w = (lightmap_size[0] + 1) as nat;
        let h = (lightmap_size[1] + 1) as nat;
        let start = (light_offset / 4) as nat;
        if w * h > usize::MAX || start + w * h > usize::MAX || start + w * h > sample_count {
            None
        } else {
            Some((w, h, start, (start + w * h) as nat))
        }
    }
}

pub fn face_lightmap_range(light_offset: i32, lightmap_size: [i32; 2], sample_count: usize) -> (r: Option<
    (usize, usize, usize, usize),
>)
    ensures
        match spec_face_lightmap_range(light_offset, lightmap_size, sample_count as nat) {
            Some((w, h, s, e)) => r == Some((w as usize, h as usize, s as usize, e as usize)),
            None => r is None,
        },
{
    if light_offset < 0 {
        return None;
    }
    let width = match lightmap_axis_luxels(lightmap_size[0]) {
        Some(w) => w,
        None => return None,
    };
    let height = match lightmap_axis_luxels(lightmap_size[1]) {
        Some(h) => h,
        None => return None,
    };
    let count = match width.checked_mul(height) {
        Some(c) => c,
        None => return None,
    };
    let start = light_offset as usize / 4;
    let end = match start.checked_add(count) {
        Some(e) => e,
        None => return None,
    };
    if end > sample_count {
        return None;
    }
    Some((width, height, start, end))
}

// --- atlas packing -------------------------------------------------------------------

/// The largest atlas side.
pub const LIGHTMAP_ATLAS_LIMIT: usize = 4096;

/// A face lightmap waiting for an atlas slot: RGBA bytes, row by row.
#[derive(Debug, Clone, PartialEq, Eq)]
pub struct PendingLightmapBlock {
    pub rgba: Vec<u8>,
    pub width: usize,
    pub height: usize,
}

/// Where a block's top-left luxel lands in the atlas.
#[derive(Debug, Clone, Copy, PartialEq, Eq)]
pub struct AtlasRect {
    pub x: usize,
    pub y: usize,
}

/// The `(width, height)` of each block.
pub open spec fn sizes_view(blocks: Seq<PendingLightmapBlock>) -> Seq<(usize, usize)> {
    Seq::new(blocks.len(), |i: int| (blocks[i].width, blocks[i].height))
}

/// Shelf packing state: placements so far, the cursor `(x, y)` and the
/// current shelf's height.
pub struct ShelfState {
    pub placements: Seq<Option<AtlasRect>>,
    pub x: int,
    pub y: int,
    pub shelf: int,
}

/// Packing one more block: a block that does not fit the atlas, or whose
/// shelf would run past the bottom, gets no slot; otherwise it goes at
/// the cursor, after starting a new shelf when the row is full.
pub open spec fn spec_shelf_step(st: ShelfState, w: int, h: int, width: int, height: int) -> ShelfState {
    if w > width || h > height {
        ShelfState { placements: st.placements.push(None), ..st }
    } else {
        let (x, y, shelf) = if st.x + w > width {
            (0, st.y + st.shelf, 0)
        } else {
            (st.x, st.y, st.shelf)
        };
        if y + h > height {
            ShelfState { placements: st.placements.push(None), x, y, shelf }
        } else {
            ShelfState {
                placements: st.placements.push(Some(AtlasRect { x: x as usize, y: y as usize })),
                x: x + w,
                y,
                shelf: if shelf >= h { shelf } else { h },
            }
        }
    }
}

/// Shelf packing of `sizes`, in order, into a `width` x `height` atlas.
pub open spec fn spec_shelf(sizes: Seq<(usize, usize)>, width: int, height: int) -> ShelfState
    decreases sizes.len(),
{
    if sizes.len() == 0 {
        ShelfState { placements: Seq::empty(), x: 0, y: 0, shelf: 0 }
    } else {
        spec_shelf_step(
            spec_shelf(sizes.drop_last(), width, height),
            sizes.last().0 as int,
            sizes.last().1 as int,
            width,
            height,
        )
    }
}

/// Every block placed; otherwise (when not `partial`) no block placed.
pub open spec fn spec_shelf_pack(sizes: Seq<(usize, usize)>, width: int, height: int, partial: bool) -> Seq<
    Option<AtlasRect>,
> {
    let p = spec_shelf(sizes, width, height).placements;
    if !partial && exists|i: int| 0 <= i < p.len() && p[i] is None {
        Seq::new(sizes.len(), |i: int| None)
    } else {
        p
    }
}

/// Placed blocks lie inside the atlas and no two of them overlap.
pub open spec fn spec_packing_sound(sizes: Seq<(usize, usize)>, p: Seq<Option<AtlasRect>>, width: int, height: int) -> bool {
    &&& p.len() == sizes.len()
    &&& forall|i: int|
        0 <= i < p.len() && (#[trigger] p[i]) is Some ==> p[i]->0.x + sizes[i].0 <= width && p[i]->0.y
            + sizes[i].1 <= height
    &&& forall|i: int, j: int|
        0 <= i < j < p.len() && (#[trigger] p[i]) is Some && (#[trigger] p[j]) is Some ==> spec_disjoint(
            p[i]->0,
            sizes[i],
            p[j]->0,
            sizes[j],
        )
}

/// Two placed rectangles share no luxel.
pub open spec fn spec_disjoint(a: AtlasRect, sa: (usize, usize), b: AtlasRect, sb: (usize, usize)) -> bool {
    a.x + sa.0 <= b.x || b.x + sb.0 <= a.x || a.y + sa.1 <= b.y || b.y + sb.1 <= a.y
}

/// The packing invariant: every placed block lies above the current
/// shelf, or on it to the left of the cursor; the cursor never passes the
/// atlas; the shelf is as tall as its blocks.
pub open spec fn spec_shelf_invariant(sizes: Seq<(usize, usize)>, st: ShelfState, width: int, height: int) -> bool {
    &&& st.placements.len() == sizes.len()
    &&& 0 <= st.x <= width
    &&& 0 <= st.y
    &&& 0 <= st.shelf
    &&& st.y + st.shelf <= height || (st.x == 0 && st.shelf == 0)
    &&& st.y <= height
    &&& spec_packing_sound(sizes, st.placements, width, height)
    &&& forall|i: int|
        0 <= i < st.placements.len() && (#[trigger] st.placements[i]) is Some ==> (st.placements[i]->0.y
            + sizes[i].1 <= st.y) || (st.placements[i]->0.y == st.y && st.placements[i]->0.x + sizes[i].0
            <= st.x && sizes[i].1 <= st.shelf)
}

pub proof fn lemma_shelf_invariant(sizes: Seq<(usize, usize)>, width: int, height: int)
    requires
        0 <= width <= usize::MAX,
        0 <= height <= usize::MAX,
    ensures
        spec_shelf_invariant(sizes, spec_shelf(sizes, width, height), width, height),
    decreases sizes.len(),
{
    if sizes.len() > 0 {
        let init = sizes.drop_last();
        lemma_shelf_invariant(init, width, height);
        let st = spec_shelf(init, width, height);
        assert(sizes =~= init.push(sizes.last()));
        lemma_shelf_step_invariant(init, st, sizes.last().0, sizes.last().1, width, height);
    }
}

/// One packing step keeps the packing invariant.
pub proof fn lemma_shelf_step_invariant(
    init: Seq<(usize, usize)>,
    st: ShelfState,
    w: usize,
    h: usize,
    width: int,
    height: int,
)
    requires
        0 <= width <= usize::MAX,
        0 <= height <= usize::MAX,
        spec_shelf_invariant(init, st, width, height),
    ensures
        spec_shelf_invariant(init.push((w, h)), spec_shelf_step(st, w as int, h as int, width, height), width, height),
{
    let sizes = init.push((w, h));
    let nst = spec_shelf_step(st, w as int, h as int, width, height);
    let k = init.len() as int;
    assert forall|i: int| 0 <= i < k implies sizes[i] == init[i] && nst.placements[i] == st.placements[i] by {}
    assert(sizes[k] == (w, h));
    if w > width || h > height {
        assert(nst.placements[k] is None);
    } else {
        let new_shelf = st.x + w > width;
        let x1 = if new_shelf { 0 } else { st.x };
        let y1 = if new_shelf { st.y + st.shelf } else { st.y };
        let s1 = if new_shelf { 0 } else { st.shelf };
        assert(y1 <= height);
        assert forall|i: int| 0 <= i < k && (#[trigger] st.placements[i]) is Some implies (st.placements[i]->0.y + init[i].1
            <= y1) || (st.placements[i]->0.y == y1 && st.placements[i]->0.x + init[i].0 <= x1 && init[i].1
            <= s1) by {}
        if y1 + h > height {
            assert(nst.placements[k] is None);
        } else {
            let r = AtlasRect { x: x1 as usize, y: y1 as usize };
            assert(nst.placements[k] == Some(r));
            assert(r.x == x1 && r.y == y1);
            assert forall|i: int, j: int|
                0 <= i < j < nst.placements.len() && (#[trigger] nst.placements[i]) is Some && (#[trigger] nst.placements[j]) is Some implies spec_disjoint(
                nst.placements[i]->0,
                sizes[i],
                nst.placements[j]->0,
                sizes[j],
            ) by {
                if j == k {
                    assert(st.placements[i] is Some);
                } else {
                    assert(st.placements[i] is Some && st.placements[j] is Some);
                }
            }
        }
    }
}

/// Shelf packing (see `spec_shelf_pack`); the placements are always
/// inside the atlas and pairwise disjoint.
pub fn shelf_pack(blocks: &[PendingLightmapBlock], width: usize, height: usize, partial: bool) -> (r: Vec<Option<AtlasRect>>)
    requires
        width + width <= usize::MAX,
        height + height <= usize::MAX,
    ensures
        r@ == spec_shelf_pack(sizes_view(blocks@), width as int, height as int, partial),
        spec_packing_sound(sizes_view(blocks@), r@, width as int, height as int),
{
    let ghost sizes = sizes_view(blocks@);
    let mut placements: Vec<Option<AtlasRect>> = Vec::new();
    let mut x: usize = 0;
    let mut y: usize = 0;
    let mut shelf_height: usize = 0;
    let mut i: usize = 0;
    proof {
        lemma_shelf_invariant(sizes, width as int, height as int);
    }
    while i < blocks.len()
        invariant
            width + width <= usize::MAX,
            height + height <= usize::MAX,
            sizes == sizes_view(blocks@),
            i <= blocks.len(),
            spec_shelf(sizes.take(i as int), width as int, height as int) == (ShelfState {
                placements: placements@,
                x: x as int,
                y: y as int,
                shelf: shelf_height as int,
            }),
            spec_shelf_invariant(
                sizes.take(i as int),
                spec_shelf(sizes.take(i as int), width as int, height as int),
                width as int,
                height as int,
            ),
            partial || forall|k: int| 0 <= k < placements@.len() ==> (#[trigger] placements@[k]) is Some,
        decreases blocks.len() - i,
    {
        proof {
            assert(sizes.take(i + 1).drop_last() =~= sizes.take(i as int));
            assert(sizes.take(i + 1).last() == sizes[i as int]);
            lemma_shelf_invariant(sizes.take(i + 1), width as int, height as int);
        }
        let w = blocks[i].width;
        let h = blocks[i].height;
        if w > width || h > height {
            if !partial {
                proof {
                    lemma_shelf_prefix_none(sizes, i as int + 1, width as int, height as int);
                }
                return none_placements(blocks.len());
            }
            placements.push(None);
            i = i + 1;
            continue;
        }
        if x + w > width {
            y = y + shelf_height;
            x = 0;
            shelf_height = 0;
        }
        if y + h > height {
            if !partial {
                proof {
                    lemma_shelf_prefix_none(sizes, i as int + 1, width as int, height as int);
                }
                return none_placements(blocks.len());
            }
            placements.push(None);
            i = i + 1;
            continue;
        }
        placements.push(Some(AtlasRect { x, y }));
        x = x + w;
        if h > shelf_height {
            shelf_height = h;
        }
        i = i + 1;
    }
    proof {
        assert(sizes.take(i as int) =~= sizes);
        if !partial {
            assert(!exists|k: int| 0 <= k < placements@.len() && placements@[k] is None);
        }
    }
    placements
}

/// Once a block is refused, the packing of any longer list refuses one
/// too (placements are only ever appended).
pub proof fn lemma_shelf_prefix_none(sizes: Seq<(usize, usize)>, n: int, width: int, height: int)
    requires
        0 < n <= sizes.len(),
        spec_shelf(sizes.take(n), width, height).placements.last() is None,
    ensures
        exists|i: int|
            0 <= i < spec_shelf(sizes, width, height).placements.len() && spec_shelf(
                sizes,
                width,
                height,
            ).placements[i] is None,
    decreases sizes.len() - n,
{
    lemma_shelf_keeps_prefix(sizes, n, width, height);
    let p = spec_shelf(sizes, width, height).placements;
    assert(p[n - 1] is None);
}

/// Packing more blocks never changes the placements of earlier ones.
pub proof fn lemma_shelf_keeps_prefix(sizes: Seq<(usize, usize)>, n: int, width: int, height: int)
    requires
        0 <= n <= sizes.len(),
    ensures
        spec_shelf(sizes, width, height).placements.len() == sizes.len(),
        spec_shelf(sizes.take(n), width, height).placements.len() == n,
        forall|i: int|
            0 <= i < n ==> spec_shelf(sizes, width, height).placements[i] == spec_shelf(
                sizes.take(n),
                width,
                height,
            ).placements[i],
    decreases sizes.len(),
{
    lemma_shelf_len(sizes, width, height);
    lemma_shelf_len(sizes.take(n), width, height);
    if n < sizes.len() {
        let init = sizes.drop_last();
        assert(init.take(n) =~= sizes.take(n));
        lemma_shelf_keeps_prefix(init, n, width, height);
    } else {
        assert(sizes.take(n) =~= sizes);
    }
}

pub proof fn lemma_shelf_len(sizes: Seq<(usize, usize)>, width: int, height: int)
    ensures
        spec_shelf(sizes, width, height).placements.len() == sizes.len(),
    decreases sizes.len(),
{
    if sizes.len() > 0 {
        lemma_shelf_len(sizes.drop_last(), width, height);
    }
}

fn none_placements(n: usize) -> (r: Vec<Option<AtlasRect>>)
    ensures
        r@ == Seq::new(n as nat, |i: int| None::<AtlasRect>),
{
    let mut v: Vec<Option<AtlasRect>> = Vec::new();
    let mut i: usize = 0;
    while i < n
        invariant
            i <= n,
            v@ =~= Seq::new(i as nat, |j: int| None::<AtlasRect>),
        decreases n - i,
    {
        v.push(None);
        i = i + 1;
        assert(v@ =~= Seq::new(i as nat, |j: int| None::<AtlasRect>));
    }
    v
}


/// Whether shelf packing places every block.
pub open spec fn spec_all_fit(sizes: Seq<(usize, usize)>, width: int, height: int) -> bool {
    forall|i: int|
        0 <= i < spec_shelf(sizes, width, height).placements.len() ==> (#[trigger] spec_shelf(
            sizes,
            width,
            height,
        ).placements[i]) is Some
}

/// All placements when every block fits, else none.
pub fn shelf_pack_all(blocks: &[PendingLightmapBlock], width: usize, height: usize) -> (r: Option<Vec<Option<AtlasRect>>>)
    requires
        width + width <= usize::MAX,
        height + height <= usize::MAX,
    ensures
        spec_all_fit(sizes_view(blocks@), width as int, height as int) ==> r is Some && r->0@ == spec_shelf(
            sizes_view(blocks@),
            width as int,
            height as int,
        ).placements,
        !spec_all_fit(sizes_view(blocks@), width as int, height as int) ==> r is None,
        r matches Some(p) ==> spec_packing_sound(sizes_view(blocks@), p@, width as int, height as int),
{
    let placements = shelf_pack(blocks, width, height, false);
    let ghost sizes = sizes_view(blocks@);
    proof {
        lemma_shelf_len(sizes, width as int, height as int);
    }
    let mut i: usize = 0;
    while i < placements.len()
        invariant
            i <= placements.len(),
            sizes == sizes_view(blocks@),
            placements@ == spec_shelf_pack(sizes, width as int, height as int, false),
            spec_shelf(sizes, width as int, height as int).placements.len() == sizes.len(),
            forall|k: int| 0 <= k < i ==> (#[trigger] placements@[k]) is Some,
        decreases placements.len() - i,
    {
        if placements[i].is_none() {
            proof {
                let p = spec_shelf(sizes, width as int, height as int).placements;
                if spec_all_fit(sizes, width as int, height as int) {
                    assert(!exists|k: int| 0 <= k < p.len() && p[k] is None) by {
                        if exists|k: int| 0 <= k < p.len() && p[k] is None {
                            let k = choose|k: int| 0 <= k < p.len() && p[k] is None;
                            assert(p[k] is Some);
                        }
                    }
                    assert(placements@ == p);
                    assert(p[i as int] is Some);
                }
            }
            return None;
        }
        i = i + 1;
    }
    proof {
        let p = spec_shelf(sizes, width as int, height as int).placements;
        if exists|k: int| 0 <= k < p.len() && p[k] is None {
            let k = choose|k: int| 0 <= k < p.len() && p[k] is None;
            assert(placements@[k] is None);
        }
        assert(placements@ == p);
    }
    Some(placements)
}

/// Placements with unplaceable blocks left out.
pub fn shelf_pack_partial(blocks: &[PendingLightmapBlock], width: usize, height: usize) -> (r: Vec<Option<AtlasRect>>)
    requires
        width + width <= usize::MAX,
        height + height <= usize::MAX,
    ensures
        r@ == spec_shelf(sizes_view(blocks@), width as int, height as int).placements,
        spec_packing_sound(sizes_view(blocks@), r@, width as int, height as int),
{
    shelf_pack(blocks, width, height, true)
}

/// The largest width (or, with `second`, height) among `sizes`, at least 1.
pub open spec fn spec_max_side(sizes: Seq<(usize, usize)>, second: bool) -> int
    decreases sizes.len(),
{
    if sizes.len() == 0 {
        1
    } else {
        let v = if second { sizes.last().1 as int } else { sizes.last().0 as int };
        let m = spec_max_side(sizes.drop_last(), second);
        if v > m { v } else { m }
    }
}

/// The smallest power of two at least `n`, starting the search at `p`.
pub open spec fn spec_next_pow2(p: int, n: int) -> int
    decreases (if n > p { n - p } else { 0 }),
    when p >= 1
{
    if p >= n {
        p
    } else {
        spec_next_pow2(2 * p, n)
    }
}

/// The atlas search: double the shorter side (width first) up to the
/// limit until every block fits; at the limit, pack what fits.
pub open spec fn spec_pack_search(sizes: Seq<(usize, usize)>, w: int, h: int) -> (int, int, Seq<Option<AtlasRect>>)
    decreases 2 * LIGHTMAP_ATLAS_LIMIT - w - h,
    when 1 <= w <= LIGHTMAP_ATLAS_LIMIT && 1 <= h <= LIGHTMAP_ATLAS_LIMIT
{
    let l = LIGHTMAP_ATLAS_LIMIT as int;
    if spec_all_fit(sizes, w, h) {
        (w, h, spec_shelf(sizes, w, h).placements)
    } else if w >= l && h >= l {
        (l, l, spec_shelf(sizes, l, l).placements)
    } else if (w <= h && w < l) || h >= l {
        spec_pack_search(sizes, if 2 * w < l { 2 * w } else { l }, h)
    } else {
        spec_pack_search(sizes, w, if 2 * h < l { 2 * h } else { l })
    }
}

/// The atlas size and block placements: none for no blocks; blocks
/// larger than the limit force a limit-sized partial atlas; otherwise the
/// search starts from the largest block sides rounded up to powers of two.
pub open spec fn spec_pack_lightmap_blocks(sizes: Seq<(usize, usize)>) -> Option<(int, int, Seq<Option<AtlasRect>>)> {
    let l = LIGHTMAP_ATLAS_LIMIT as int;
    if sizes.len() == 0 {
        None
    } else {
        let mw = spec_max_side(sizes, false);
        let mh = spec_max_side(sizes, true);
        if mw > l || mh > l {
            Some((l, l, spec_shelf(sizes, l, l).placements))
        } else {
            Some(spec_pack_search(sizes, spec_next_pow2(1, mw), spec_next_pow2(1, mh)))
        }
    }
}

pub proof fn lemma_max_side_pos(sizes: Seq<(usize, usize)>, second: bool)
    ensures
        spec_max_side(sizes, second) >= 1,
    decreases sizes.len(),
{
    if sizes.len() > 0 {
        lemma_max_side_pos(sizes.drop_last(), second);
    }
}

fn max_side(blocks: &[PendingLightmapBlock], second: bool) -> (r: usize)
    ensures
        r == spec_max_side(sizes_view(blocks@), second),
{
    let ghost sizes = sizes_view(blocks@);
    let mut m: usize = 1;
    let mut i: usize = 0;
    assert(sizes.take(0) =~= Seq::<(usize, usize)>::empty());
    while i < blocks.len()
        invariant
            i <= blocks.len(),
            sizes == sizes_view(blocks@),
            m == spec_max_side(sizes.take(i as int), second),
        decreases blocks.len() - i,
    {
        assert(sizes.take(i + 1).drop_last() =~= sizes.take(i as int));
        assert(sizes.take(i + 1).last() == sizes[i as int]);
        let v = if second { blocks[i].height } else { blocks[i].width };
        if v > m {
            m = v;
        }
        i = i + 1;
    }
    assert(sizes.take(i as int) =~= sizes);
    m
}

fn next_pow2(n: usize) -> (r: usize)
    requires
        1 <= n <= LIGHTMAP_ATLAS_LIMIT,
    ensures
        r == spec_next_pow2(1, n as int),
        n <= r <= LIGHTMAP_ATLAS_LIMIT,
        r >= 1,
{
    let mut p: usize = 1;
    while p < n
        invariant
            1 <= p <= LIGHTMAP_ATLAS_LIMIT,
            n <= LIGHTMAP_ATLAS_LIMIT,
            spec_next_pow2(1, n as int) == spec_next_pow2(p as int, n as int),
            p == 1 || p == 2 || p == 4 || p == 8 || p == 16 || p == 32 || p == 64 || p == 128 || p == 256 || p == 512
                || p == 1024 || p == 2048 || p == 4096,
        decreases LIGHTMAP_ATLAS_LIMIT - p,
    {
        p = p * 2;
    }
    p
}

/// Packs face lightmaps into one atlas (see `spec_pack_lightmap_blocks`);
/// placed blocks lie inside it and do not overlap.
pub fn pack_lightmap_blocks(blocks: &[PendingLightmapBlock]) -> (r: Option<(usize, usize, Vec<Option<AtlasRect>>)>)
    ensures
        match spec_pack_lightmap_blocks(sizes_view(blocks@)) {
            Some((w, h, p)) => r matches Some((rw, rh, rp)) && rw == w && rh == h && rp@ == p,
            None => r is None,
        },
        r matches Some((w, h, p)) ==> w <= LIGHTMAP_ATLAS_LIMIT && h <= LIGHTMAP_ATLAS_LIMIT
            && spec_packing_sound(sizes_view(blocks@), p@, w as int, h as int),
{
    let ghost sizes = sizes_view(blocks@);
    if blocks.len() == 0 {
        return None;
    }
    let max_width = max_side(blocks, false);
    let max_height = max_side(blocks, true);
    if max_width > LIGHTMAP_ATLAS_LIMIT || max_height > LIGHTMAP_ATLAS_LIMIT {
        return Some((
            LIGHTMAP_ATLAS_LIMIT,
            LIGHTMAP_ATLAS_LIMIT,
            shelf_pack_partial(blocks, LIGHTMAP_ATLAS_LIMIT, LIGHTMAP_ATLAS_LIMIT),
        ));
    }
    proof {
        lemma_max_side_pos(sizes, false);
        lemma_max_side_pos(sizes, true);
    }
    let mut width = next_pow2(max_width);
    let mut height = next_pow2(max_height);
    loop
        invariant
            sizes == sizes_view(blocks@),
            1 <= width <= LIGHTMAP_ATLAS_LIMIT,
            1 <= height <= LIGHTMAP_ATLAS_LIMIT,
            spec_pack_lightmap_blocks(sizes) == Some(spec_pack_search(sizes, width as int, height as int)),
        decreases 2 * LIGHTMAP_ATLAS_LIMIT - width - height,
    {
        if let Some(placements) = shelf_pack_all(blocks, width, height) {
            return Some((width, height, placements));
        }
        if width >= LIGHTMAP_ATLAS_LIMIT && height >= LIGHTMAP_ATLAS_LIMIT {
            return Some((
                LIGHTMAP_ATLAS_LIMIT,
                LIGHTMAP_ATLAS_LIMIT,
                shelf_pack_partial(blocks, LIGHTMAP_ATLAS_LIMIT, LIGHTMAP_ATLAS_LIMIT),
            ));
        }
        if (width <= height && width < LIGHTMAP_ATLAS_LIMIT) || height >= LIGHTMAP_ATLAS_LIMIT {
            width = if width * 2 < LIGHTMAP_ATLAS_LIMIT {
                width * 2
            } else {
                LIGHTMAP_ATLAS_LIMIT
            };
        } else {
            height = if height * 2 < LIGHTMAP_ATLAS_LIMIT {
                height * 2
            } else {
                LIGHTMAP_ATLAS_LIMIT
            };
        }
    }
}


// --- baking the atlas ---------------------------------------------------------------

/// The position of byte `c` of pixel `(x, y)` in a `width`-wide RGBA atlas.
pub open spec fn spec_atlas_index(width: int, x: int, y: int, c: int) -> int {
    (y * width + x) * 4 + c
}

/// Whether a block placed at `p` covers atlas pixel `(x, y)`.
pub open spec fn spec_covers(b: PendingLightmapBlock, p: Option<AtlasRect>, x: int, y: int) -> bool {
    match p {
        Some(rect) => rect.x <= x < rect.x + b.width && rect.y <= y < rect.y + b.height,
        None => false,
    }
}

/// Byte `c` of atlas pixel `(x, y)` once the first `k` blocks have been
/// copied into their slots over `fill`: from the last of them that covers
/// the pixel, else `fill`.
pub open spec fn spec_atlas_byte(
    blocks: Seq<PendingLightmapBlock>,
    placements: Seq<Option<AtlasRect>>,
    fill: [u8; 4],
    k: nat,
    x: int,
    y: int,
    c: int,
) -> u8
    decreases k,
{
    if k == 0 {
        fill[c]
    } else if spec_covers(blocks[k - 1], placements[k - 1], x, y) {
        let b = blocks[k - 1];
        let rect = placements[k - 1]->0;
        b.rgba@[((y - rect.y) * b.width + (x - rect.x)) * 4 + c]
    } else {
        spec_atlas_byte(blocks, placements, fill, (k - 1) as nat, x, y, c)
    }
}

/// Every placed block lies inside a `width` by `height` atlas and holds
/// its rows of RGBA bytes.
pub open spec fn spec_blocks_placeable(
    blocks: Seq<PendingLightmapBlock>,
    placements: Seq<Option<AtlasRect>>,
    width: int,
    height: int,
) -> bool {
    &&& placements.len() == blocks.len()
    &&& forall|k: int|
        0 <= k < blocks.len() && (#[trigger] placements[k]) is Some ==> placements[k]->0.x + blocks[k].width <= width
            && placements[k]->0.y + blocks[k].height <= height && blocks[k].width * blocks[k].height * 4
            <= blocks[k].rgba@.len()
}

proof fn lemma_atlas_index_bounds(width: int, height: int, x: int, y: int, c: int)
    requires
        0 <= x < width,
        0 <= y < height,
        0 <= c < 4,
    ensures
        0 <= spec_atlas_index(width, x, y, c) < width * height * 4,
{
    assert(0 <= y * width + x < width * height) by (nonlinear_arith)
        requires
            0 <= x < width,
            0 <= y < height,
    ;
}

proof fn lemma_atlas_index_unique(width: int, x1: int, y1: int, c1: int, x2: int, y2: int, c2: int)
    requires
        0 <= x1 < width,
        0 <= x2 < width,
        0 <= y1,
        0 <= y2,
        0 <= c1 < 4,
        0 <= c2 < 4,
        spec_atlas_index(width, x1, y1, c1) == spec_atlas_index(width, x2, y2, c2),
    ensures
        x1 == x2 && y1 == y2 && c1 == c2,
{
    let a1 = y1 * width + x1;
    let a2 = y2 * width + x2;
    assert(a1 == a2 && c1 == c2);
    if y1 < y2 {
        assert(y1 * width + width <= y2 * width) by (nonlinear_arith)
            requires
                y1 < y2,
                width > 0,
        ;
    } else if y2 < y1 {
        assert(y2 * width + width <= y1 * width) by (nonlinear_arith)
            requires
                y2 < y1,
                width > 0,
        ;
    }
}

/// The baked atlas bytes: `fill` in every pixel, then each placed block's
/// rows copied into its slot, in block order.
pub fn blit_lightmap_blocks(
    blocks: &[PendingLightmapBlock],
    placements: &[Option<AtlasRect>],
    width: usize,
    height: usize,
    fill: [u8; 4],
) -> (r: Vec<u8>)
    requires
        width * height * 4 <= usize::MAX,
        spec_blocks_placeable(blocks@, placements@, width as int, height as int),
    ensures
        r@.len() == width * height * 4,
        forall|x: int, y: int, c: int|
            0 <= x < width && 0 <= y < height && 0 <= c < 4 ==> r@[#[trigger] spec_atlas_index(width as int, x, y, c)]
                == spec_atlas_byte(blocks@, placements@, fill, blocks@.len() as nat, x, y, c),
{
    let ghost w = width as int;
    let ghost h = height as int;
    let total = width * height * 4;
    let mut rgba: Vec<u8> = Vec::new();
    let mut i: usize = 0;
    while i < total
        invariant
            total == width * height * 4,
            i <= total,
            rgba@.len() == i,
            forall|q: int| 0 <= q < i ==> rgba@[q] == fill[q % 4],
        decreases total - i,
    {
        rgba.push(fill[i % 4]);
        i = i + 1;
    }
    assert forall|x: int, y: int, c: int|
        0 <= x < w && 0 <= y < h && 0 <= c < 4 implies rgba@[#[trigger] spec_atlas_index(w, x, y, c)]
            == spec_atlas_byte(blocks@, placements@, fill, 0, x, y, c) by {
        lemma_atlas_index_bounds(w, h, x, y, c);
        assert(spec_atlas_index(w, x, y, c) % 4 == c);
    }
    let mut k: usize = 0;
    while k < blocks.len()
        invariant
            k <= blocks.len(),
            total == width * height * 4,
            width * height * 4 <= usize::MAX,
            rgba@.len() == total,
            spec_blocks_placeable(blocks@, placements@, w, h),
            w == width && h == height,
            forall|x: int, y: int, c: int|
                0 <= x < w && 0 <= y < h && 0 <= c < 4 ==> rgba@[#[trigger] spec_atlas_index(w, x, y, c)]
                    == spec_atlas_byte(blocks@, placements@, fill, k as nat, x, y, c),
        decreases blocks.len() - k,
    {
        let block = &blocks[k];
        match placements[k] {
            Some(rect) => {
                assert(placements@[k as int] is Some);
                let bw = block.width;
                let bh = block.height;
                let block_len = block.rgba.len();
                assert(bw * bh * 4 <= block_len);
                let mut row: usize = 0;
                while row < bh
                    invariant
                        k < blocks.len(),
                        *block == blocks@[k as int],
                        placements@[k as int] == Some(rect),
                        bw == block.width && bh == block.height,
                        rect.x + bw <= w && rect.y + bh <= h,
                        bw * bh * 4 <= block.rgba@.len(),
                        bw * bh * 4 <= usize::MAX,
                        row <= bh,
                        total == width * height * 4,
                        width * height * 4 <= usize::MAX,
                        rgba@.len() == total,
                        w == width && h == height,
                        forall|x: int, y: int, c: int|
                            0 <= x < w && 0 <= y < h && 0 <= c < 4 ==> rgba@[#[trigger] spec_atlas_index(w, x, y, c)]
                                == (if rect.x <= x < rect.x + bw && rect.y <= y < rect.y + row {
                                    block.rgba@[((y - rect.y) * bw + (x - rect.x)) * 4 + c]
                                } else {
                                    spec_atlas_byte(blocks@, placements@, fill, k as nat, x, y, c)
                                }),
                    decreases bh - row,
                {
                    let mut j: usize = 0;
                    assert(bw * 4 <= width * height * 4) by (nonlinear_arith)
                        requires
                            bw <= width,
                            height >= 1,
                    ;
                    let row_bytes = bw * 4;
                    while j < row_bytes
                        invariant
                            row_bytes == bw * 4,
                            rect.x + bw <= w && rect.y + bh <= h,
                            bw * bh * 4 <= block.rgba@.len(),
                            bw * bh * 4 <= usize::MAX,
                            row < bh,
                            j <= row_bytes,
                            total == width * height * 4,
                            width * height * 4 <= usize::MAX,
                            rgba@.len() == total,
                            w == width && h == height,
                            forall|x: int, y: int, c: int|
                                0 <= x < w && 0 <= y < h && 0 <= c < 4 ==> rgba@[#[trigger] spec_atlas_index(w, x, y, c)]
                                    == (if rect.x <= x < rect.x + bw && (rect.y <= y < rect.y + row || (y == rect.y + row
                                        && (x - rect.x) * 4 + c < j)) {
                                        block.rgba@[((y - rect.y) * bw + (x - rect.x)) * 4 + c]
                                    } else {
                                        spec_atlas_byte(blocks@, placements@, fill, k as nat, x, y, c)
                                    }),
                        decreases row_bytes - j,
                    {
                        let ghost x0: int = rect.x + j / 4;
                        let ghost y0: int = rect.y + row;
                        let ghost c0: int = (j % 4) as int;
                        proof {
                            lemma_atlas_index_bounds(w, h, x0, y0, c0);
                            assert(row * bw * 4 + j < bw * bh * 4 && row * bw <= row * bw * 4) by (nonlinear_arith)
                                requires
                                    row < bh,
                                    j < bw * 4,
                            ;
                            assert(spec_atlas_index(w, x0, y0, c0) == ((rect.y + row) * w + rect.x) * 4 + j) by (nonlinear_arith)
                                requires
                                    x0 == rect.x + j / 4,
                                    y0 == rect.y + row,
                                    c0 == j % 4,
                                    j >= 0,
                            ;
                            assert(((y0 - rect.y) * bw + (x0 - rect.x)) * 4 + c0 == row * bw * 4 + j) by (nonlinear_arith)
                                requires
                                    x0 == rect.x + j / 4,
                                    y0 == rect.y + row,
                                    c0 == j % 4,
                                    j >= 0,
                            ;
                        }
                        let t = ((rect.y + row) * width + rect.x) * 4 + j;
                        let value = block.rgba[row * bw * 4 + j];
                        let ghost before = rgba@;
                        rgba.set(t, value);
                        proof {
                            assert forall|x: int, y: int, c: int|
                                0 <= x < w && 0 <= y < h && 0 <= c < 4 implies rgba@[#[trigger] spec_atlas_index(w, x, y, c)]
                                    == (if rect.x <= x < rect.x + bw && (rect.y <= y < rect.y + row || (y == rect.y + row
                                        && (x - rect.x) * 4 + c < j + 1)) {
                                        block.rgba@[((y - rect.y) * bw + (x - rect.x)) * 4 + c]
                                    } else {
                                        spec_atlas_byte(blocks@, placements@, fill, k as nat, x, y, c)
                                    }) by {
                                lemma_atlas_index_bounds(w, h, x, y, c);
                                if x == x0 && y == y0 && c == c0 {
                                } else {
                                    if spec_atlas_index(w, x, y, c) == t {
                                        lemma_atlas_index_unique(w, x, y, c, x0, y0, c0);
                                    }
                                    assert(rgba@[spec_atlas_index(w, x, y, c)] == before[spec_atlas_index(w, x, y, c)]);
                                    if rect.x <= x < rect.x + bw && y == rect.y + row && (x - rect.x) * 4 + c == j {
                                        assert(x == x0 && c == c0);
                                    }
                                }
                            }
                        }
                        j = j + 1;
                    }
                    row = row + 1;
                }
            },
            None => {},
        }
        proof {
            assert forall|x: int, y: int, c: int|
                0 <= x < w && 0 <= y < h && 0 <= c < 4 implies rgba@[#[trigger] spec_atlas_index(w, x, y, c)]
                    == spec_atlas_byte(blocks@, placements@, fill, (k + 1) as nat, x, y, c) by {
            }
        }
        k = k + 1;
    }
    rgba
}


/// Baking a sound packing puts every placed block into the atlas intact:
/// each luxel of a placed block is the atlas pixel at its slot, since no
/// other placed block overlaps it.
pub proof fn lemma_baked_atlas_holds_placed_blocks(
    blocks: Seq<PendingLightmapBlock>,
    placements: Seq<Option<AtlasRect>>,
    width: int,
    height: int,
    fill: [u8; 4],
    k: int,
    x: int,
    y: int,
    c: int,
)
    requires
        spec_packing_sound(sizes_view(blocks), placements, width, height),
        0 <= k < blocks.len(),
        placements[k] is Some,
        spec_covers(blocks[k], placements[k], x, y),
        0 <= c < 4,
    ensures
        spec_atlas_byte(blocks, placements, fill, blocks.len() as nat, x, y, c) == blocks[k].rgba@[((y
            - placements[k]->0.y) * blocks[k].width + (x - placements[k]->0.x)) * 4 + c],
{
    lemma_atlas_byte_after(blocks, placements, width, height, fill, k, x, y, c, blocks.len() as int);
}

/// The byte at a pixel of block `k` stays block `k`'s after any later
/// blocks of a sound packing are copied.
proof fn lemma_atlas_byte_after(
    blocks: Seq<PendingLightmapBlock>,
    placements: Seq<Option<AtlasRect>>,
    width: int,
    height: int,
    fill: [u8; 4],
    k: int,
    x: int,
    y: int,
    c: int,
    n: int,
)
    requires
        spec_packing_sound(sizes_view(blocks), placements, width, height),
        0 <= k < n <= blocks.len(),
        placements[k] is Some,
        spec_covers(blocks[k], placements[k], x, y),
        0 <= c < 4,
    ensures
        spec_atlas_byte(blocks, placements, fill, n as nat, x, y, c) == blocks[k].rgba@[((y
            - placements[k]->0.y) * blocks[k].width + (x - placements[k]->0.x)) * 4 + c],
    decreases n,
{
    if n > k + 1 {
        lemma_atlas_byte_after(blocks, placements, width, height, fill, k, x, y, c, n - 1);
        let sizes = sizes_view(blocks);
        if placements[n - 1] is Some {
            assert(spec_disjoint(placements[k]->0, sizes[k], placements[n - 1]->0, sizes[n - 1]));
        }
        assert(!spec_covers(blocks[n - 1], placements[n - 1], x, y));
    }
}

} // verus!
