//! Map entities as flat keyvalue lists, and the small rules that read
//! door, prop, sky and fog settings from them.
use vstd::prelude::*;

use super::data::{BspError, MapDoorClass, MapDoorOpenDirection, MapDoorSounds, MapPropSolid};
use super::paths::{lemma_lower_idempotent, normalize_material_name, normalize_skyname, spec_normalize_source_path};
use crate::text::{
    ci_eq, lower_chars, parse_int, parse_usize, spec_ci_eq, spec_lower_seq, spec_parse_int, spec_tokens,
    spec_digit, spec_digits_value, spec_is_digit, spec_is_unicode_ws, spec_trim, spec_ws_prefix, spec_ws_suffix, split_tokens, str_chars, string_from_chars, trim_chars,
};

verus! {

/// One entity's flat string keyvalue pairs, keys and values ASCII-lowercased
/// at construction (Source entity casing is inconsistent in the wild, and
/// every lookup compares against lowercase literals). Lookup is exact-match,
/// first occurrence wins.
#[derive(Debug)]
pub struct MapEntity {
    pub pairs: Vec<(String, String)>,
}

/// The views of a list of string pairs.
pub open spec fn pairs_view(v: Seq<(String, String)>) -> Seq<(Seq<char>, Seq<char>)> {
    Seq::new(v.len(), |i: int| (v[i].0@, v[i].1@))
}

impl View for MapEntity {
    type V = Seq<(Seq<char>, Seq<char>)>;

    open spec fn view(&self) -> Seq<(Seq<char>, Seq<char>)> {
        pairs_view(self.pairs@)
    }
}

/// The lowercased string pairs of a keyvalue document; a pair whose value
/// is a nested block (`None` here) is dropped.
pub open spec fn spec_entity_pairs(raw: Seq<(Seq<char>, Option<Seq<char>>)>) -> Seq<(Seq<char>, Seq<char>)>
    decreases raw.len(),
{
    if raw.len() == 0 {
        Seq::empty()
    } else {
        let rest = spec_entity_pairs(raw.drop_last());
        match raw.last().1 {
            Some(v) => rest.push((spec_lower_seq(raw.last().0), spec_lower_seq(v))),
            None => rest,
        }
    }
}

/// Every key and value of `pairs` is ASCII-lowercase.
pub open spec fn spec_lowercase_pairs(pairs: Seq<(Seq<char>, Seq<char>)>) -> bool {
    forall|i: int|
        0 <= i < pairs.len() ==> spec_lower_seq(#[trigger] pairs[i].0) == pairs[i].0 && spec_lower_seq(pairs[i].1)
            == pairs[i].1
}

/// An entity's pairs are ASCII-lowercase, keys and values alike.
pub proof fn lemma_entity_pairs_lowercase(raw: Seq<(Seq<char>, Option<Seq<char>>)>)
    ensures
        spec_lowercase_pairs(spec_entity_pairs(raw)),
    decreases raw.len(),
{
    if raw.len() > 0 {
        lemma_entity_pairs_lowercase(raw.drop_last());
        if let Some(v) = raw.last().1 {
            lemma_lower_idempotent(raw.last().0);
            lemma_lower_idempotent(v);
        }
    }
}

/// The value of the first pair whose key is exactly `key`.
pub open spec fn spec_prop(pairs: Seq<(Seq<char>, Seq<char>)>, key: Seq<char>) -> Option<Seq<char>>
    decreases pairs.len(),
{
    if pairs.len() == 0 {
        None
    } else if pairs[0].0 == key {
        Some(pairs[0].1)
    } else {
        spec_prop(pairs.drop_first(), key)
    }
}

/// The views of raw keyvalue pairs.
pub open spec fn raw_pairs_view(v: Seq<(String, Option<String>)>) -> Seq<(Seq<char>, Option<Seq<char>>)> {
    Seq::new(
        v.len(),
        |i: int|
            (
                v[i].0@,
                match v[i].1 {
                    Some(s) => Some(s@),
                    None => None,
                },
            ),
    )
}

/// The caps a BSP decode runs under, as plain numbers (the fields of
/// `vformats::Limits`).
#[derive(Debug, Clone, Copy, PartialEq, Eq)]
pub struct DecodeLimits {
    pub max_input_bytes: u64,
    pub max_entry_bytes: u64,
    pub max_entries: usize,
    pub max_kv_depth: usize,
    pub max_stat_records: usize,
}

/// What vformats reads from the entities lump of a BSP under the given
/// caps: each entity document's pairs in order, a key with its string
/// value or `None` for a nested block; or the decode error's message.
pub uninterp spec fn bsp_entities_of(
    bytes: Seq<u8>,
    max_input_bytes: u64,
    max_entry_bytes: u64,
    max_entries: usize,
    max_kv_depth: usize,
    max_stat_records: usize,
) -> Result<Seq<Seq<(Seq<char>, Option<Seq<char>>)>>, Seq<char>>;

/// The views of a list of entity documents.
pub open spec fn documents_view(v: Seq<Vec<(String, Option<String>)>>) -> Seq<Seq<(Seq<char>, Option<Seq<char>>)>> {
    Seq::new(v.len(), |i: int| raw_pairs_view(v[i]@))
}

/// `DecodeLimits` applied to their arguments of `bsp_entities_of`.
pub open spec fn spec_bsp_entities(bytes: Seq<u8>, limits: DecodeLimits) -> Result<
    Seq<Seq<(Seq<char>, Option<Seq<char>>)>>,
    Seq<char>,
> {
    bsp_entities_of(
        bytes,
        limits.max_input_bytes,
        limits.max_entry_bytes,
        limits.max_entries,
        limits.max_kv_depth,
        limits.max_stat_records,
    )
}

/// `vformats::bsp::parse` then `Bsp::entities`, both under `limits`: each
/// entity document's pairs as the key and the string value (`None` for a
/// `KvValue::Block`), or the `BspError` rendered by its `Display`. The
/// contract names the result as a function of the bytes and the caps
/// (`bsp_entities_of`) and states nothing else of it.
#[verifier::external_body]
fn bsp_entity_documents(bytes: &[u8], limits: &DecodeLimits) -> (r: Result<Vec<Vec<(String, Option<String>)>>, String>)
    ensures
        match bsp_entities_of(
            bytes@,
            limits.max_input_bytes,
            limits.max_entry_bytes,
            limits.max_entries,
            limits.max_kv_depth,
            limits.max_stat_records,
        ) {
            Ok(d) => r is Ok && documents_view(r->Ok_0@) == d,
            Err(m) => r is Err && r->Err_0@ == m,
        },
{
    let limits = vformats::Limits { max_input_bytes: limits.max_input_bytes, max_entry_bytes: limits.max_entry_bytes,
        max_entries: limits.max_entries, max_kv_depth: limits.max_kv_depth, max_stat_records: limits.max_stat_records };
    let bsp = vformats::bsp::parse(bytes, &limits).map_err(|e| e.to_string())?;
    let documents = bsp.entities(&limits).map_err(|e| e.to_string())?;
    Ok(documents.iter().map(|d| d.pairs.iter().map(|p| (p.key.to_string(), match &p.value {
        vformats::keyvalues::KvValue::String(v) => Some(v.to_string()),
        vformats::keyvalues::KvValue::Block(_) => None,
    })).collect()).collect())
}

/// The entities of a list of keyvalue documents (see `spec_entity_pairs`).
pub open spec fn spec_documents_entities(d: Seq<Seq<(Seq<char>, Option<Seq<char>>)>>) -> Seq<Seq<(Seq<char>, Seq<char>)>> {
    Seq::new(d.len(), |i: int| spec_entity_pairs(d[i]))
}

/// A map's entities, decoded from its BSP bytes under `limits`: each
/// entity document becomes an entity by `MapEntity::from_pairs`; a decode
/// failure is a `BspError::Decode` with the decoder's message.
pub fn map_entities(bytes: &[u8], limits: &DecodeLimits) -> (r: Result<Vec<MapEntity>, BspError>)
    ensures
        match spec_bsp_entities(bytes@, *limits) {
            Ok(d) => r is Ok && entities_view(r->Ok_0@) == spec_documents_entities(d) && forall|i: int|
                0 <= i < r->Ok_0@.len() ==> spec_lowercase_pairs(#[trigger] r->Ok_0@[i]@),
            Err(m) => r matches Err(BspError::Decode { message }) && message@ == m,
        },
{
    let documents = match bsp_entity_documents(bytes, limits) {
        Ok(d) => d,
        Err(message) => return Err(BspError::Decode { message }),
    };
    let ghost all = documents_view(documents@);
    let mut entities: Vec<MapEntity> = Vec::new();
    for document in it: documents.into_iter()
        invariant
            all == documents_view(it.seq()),
            entities_view(entities@) == spec_documents_entities(all.take(it.index() as int)),
            forall|j: int| 0 <= j < entities@.len() ==> spec_lowercase_pairs(#[trigger] entities@[j]@),
    {
        let ghost k = it.index() as int;
        let ghost before = entities_view(entities@);
        proof {
            assert(raw_pairs_view(document@) == all[k]);
        }
        let entity = MapEntity::from_pairs(document);
        entities.push(entity);
        assert(entities_view(entities@) =~= before.push(spec_entity_pairs(all[k])));
        assert(spec_documents_entities(all.take(k + 1)) =~= spec_documents_entities(all.take(k)).push(spec_entity_pairs(all[k])));
    }
    assert(all.take(all.len() as int) =~= all);
    Ok(entities)
}

impl MapEntity {
    /// An entity from a keyvalue document's pairs, each given as its key
    /// and its string value (`None` for a nested block).
    pub fn from_pairs(raw: Vec<(String, Option<String>)>) -> (r: Self)
        ensures
            r@ == spec_entity_pairs(raw_pairs_view(raw@)),
            spec_lowercase_pairs(r@),
    {
        proof {
            lemma_entity_pairs_lowercase(raw_pairs_view(raw@));
        }
        let ghost all = raw_pairs_view(raw@);
        let mut pairs: Vec<(String, String)> = Vec::new();
        let mut i: usize = 0;
        assert(all.take(0) =~= Seq::<(Seq<char>, Option<Seq<char>>)>::empty());
        assert(pairs_view(pairs@) =~= Seq::<(Seq<char>, Seq<char>)>::empty());
        while i < raw.len()
            invariant
                i <= raw.len(),
                all == raw_pairs_view(raw@),
                pairs_view(pairs@) == spec_entity_pairs(all.take(i as int)),
            decreases raw.len() - i,
        {
            assert(all.take(i + 1).drop_last() =~= all.take(i as int));
            assert(all.take(i + 1).last() == all[i as int]);
            let entry = &raw[i];
            if let Some(value) = &entry.1 {
                let key = lower_chars(&str_chars(entry.0.as_str()));
                let val = lower_chars(&str_chars(value.as_str()));
                let ghost before = pairs_view(pairs@);
                pairs.push((string_from_chars(key.as_slice()), string_from_chars(val.as_slice())));
                assert(pairs_view(pairs@) =~= before.push((key@, val@)));
            }
            i = i + 1;
        }
        assert(all.take(i as int) =~= all);
        MapEntity { pairs }
    }

    /// The value of the first pair keyed exactly `key`.
    pub fn prop(&self, key: &str) -> (r: Option<&str>)
        ensures
            match spec_prop(self@, key@) {
                Some(v) => r is Some && r->0@ == v,
                None => r is None,
            },
    {
        let ghost all = self@;
        let k = str_chars(key);
        let mut i: usize = 0;
        assert(all.skip(0) =~= all);
        while i < self.pairs.len()
            invariant
                i <= self.pairs.len(),
                all == self@,
                k@ == key@,
                spec_prop(all, key@) == spec_prop(all.skip(i as int), key@),
            decreases self.pairs.len() - i,
        {
            let ghost rest = all.skip(i as int);
            assert(rest.drop_first() =~= all.skip(i + 1));
            assert(rest[0] == all[i as int]);
            let candidate = str_chars(self.pairs[i].0.as_str());
            if crate::text::chars_eq(candidate.as_slice(), k.as_slice()) {
                return Some(self.pairs[i].1.as_str());
            }
            i = i + 1;
        }
        None
    }

    /// Whether the entity's `classname` is exactly `classname`.
    pub fn is_class(&self, classname: &str) -> (r: bool)
        ensures
            r == (spec_prop(self@, "classname"@) == Some(classname@)),
    {
        match self.prop("classname") {
            Some(v) => {
                let a = str_chars(v);
                let b = str_chars(classname);
                crate::text::chars_eq(a.as_slice(), b.as_slice())
            },
            None => false,
        }
    }
}


// --- keyvalue grammar ------------------------------------------------------------

/// `value.trim().parse::<i32>()`.
pub open spec fn spec_parse_entity_i32(value: Seq<char>) -> Option<int> {
    spec_parse_int(spec_trim(value), -0x8000_0000, 0x7fff_ffff)
}

/// A keyvalue read as a boolean: `true`/`yes` and `false`/`no` (ignoring
/// ASCII case), else an integer, true when nonzero.
pub open spec fn spec_parse_entity_bool(value: Seq<char>) -> Option<bool> {
    let t = spec_trim(value);
    if spec_ci_eq(t, "true"@) || spec_ci_eq(t, "yes"@) {
        Some(true)
    } else if spec_ci_eq(t, "false"@) || spec_ci_eq(t, "no"@) {
        Some(false)
    } else {
        match spec_parse_entity_i32(t) {
            Some(v) => Some(v != 0),
            None => None,
        }
    }
}

pub fn parse_entity_i32(value: &str) -> (r: Option<i32>)
    ensures
        match spec_parse_entity_i32(value@) {
            Some(v) => r == Some(v as i32),
            None => r is None,
        },
{
    let t = trim_chars(str_chars(value).as_slice());
    match parse_int(t.as_slice(), -0x8000_0000, 0x7fff_ffff) {
        Some(v) => Some(v as i32),
        None => None,
    }
}

fn is_word(t: &[char], word: &str) -> (r: bool)
    ensures
        r == spec_ci_eq(t@, word@),
{
    let w = str_chars(word);
    ci_eq(t, w.as_slice())
}

pub fn parse_entity_bool(value: &str) -> (r: Option<bool>)
    ensures
        r == spec_parse_entity_bool(value@),
{
    let t = trim_chars(str_chars(value).as_slice());
    if is_word(t.as_slice(), "true") || is_word(t.as_slice(), "yes") {
        return Some(true);
    }
    if is_word(t.as_slice(), "false") || is_word(t.as_slice(), "no") {
        return Some(false);
    }
    let t2 = trim_chars(t.as_slice());
    match parse_int(t2.as_slice(), -0x8000_0000, 0x7fff_ffff) {
        Some(v) => Some(v != 0),
        None => None,
    }
}

/// `"r g b"`: exactly three ASCII-whitespace-separated bytes.
pub open spec fn spec_parse_fog_color(value: Seq<char>) -> Option<Seq<u8>> {
    let t = spec_tokens(value, false);
    if t.len() == 3 && spec_parse_int(t[0], 0, 255) is Some && spec_parse_int(t[1], 0, 255) is Some
        && spec_parse_int(t[2], 0, 255) is Some {
        Some(
            seq![
                spec_parse_int(t[0], 0, 255)->0 as u8,
                spec_parse_int(t[1], 0, 255)->0 as u8,
                spec_parse_int(t[2], 0, 255)->0 as u8,
            ],
        )
    } else {
        None
    }
}

pub fn parse_fog_color(value: &str) -> (r: Option<[u8; 3]>)
    ensures
        match spec_parse_fog_color(value@) {
            Some(c) => r is Some && r->0@ == c,
            None => r is None,
        },
{
    let chars = str_chars(value);
    let tokens = split_tokens(chars.as_slice(), false);
    if tokens.len() < 3 {
        return None;
    }
    let red = match parse_int(tokens[0].as_slice(), 0, 255) {
        Some(v) => v as u8,
        None => return None,
    };
    let green = match parse_int(tokens[1].as_slice(), 0, 255) {
        Some(v) => v as u8,
        None => return None,
    };
    let blue = match parse_int(tokens[2].as_slice(), 0, 255) {
        Some(v) => v as u8,
        None => return None,
    };
    if tokens.len() > 3 {
        return None;
    }
    let rgb = [red, green, blue];
    assert(rgb@ =~= spec_parse_fog_color(value@)->0);
    Some(rgb)
}

/// `"*N"` with `N` a positive decimal index: a brush model reference.
pub open spec fn spec_parse_bmodel_index(model: Seq<char>) -> Option<int> {
    if model.len() > 0 && model[0] == '*' {
        match spec_parse_int(model.drop_first(), 0, usize::MAX as int) {
            Some(v) => if v > 0 {
                Some(v)
            } else {
                None
            },
            None => None,
        }
    } else {
        None
    }
}

pub fn parse_bmodel_index(model: &str) -> (r: Option<usize>)
    ensures
        match spec_parse_bmodel_index(model@) {
            Some(v) => r == Some(v as usize),
            None => r is None,
        },
{
    let chars = str_chars(model);
    if chars.len() == 0 || chars[0] != '*' {
        return None;
    }
    let rest = crate::text::slice_chars(chars.as_slice(), 1, chars.len());
    assert(rest@ =~= chars@.drop_first());
    match parse_usize(rest.as_slice()) {
        Some(v) => if v > 0 {
            Some(v)
        } else {
            None
        },
        None => None,
    }
}

// --- door, prop and world settings ------------------------------------------------

/// The view of an optional string.
pub open spec fn opt_view(o: Option<String>) -> Option<Seq<char>> {
    match o {
        Some(s) => Some(s@),
        None => None,
    }
}

/// A sound keyvalue: trimmed, and absent when blank.
pub open spec fn spec_sound_keyvalue(value: Option<Seq<char>>) -> Option<Seq<char>> {
    match value {
        Some(v) => if spec_trim(v).len() > 0 {
            Some(spec_trim(v))
        } else {
            None
        },
        None => None,
    }
}

pub fn normalized_sound_keyvalue(value: Option<&str>) -> (r: Option<String>)
    ensures
        opt_view(r) == spec_sound_keyvalue(match value { Some(v) => Some(v@), None => None }),
{
    match value {
        Some(v) => {
            let t = trim_chars(str_chars(v).as_slice());
            if t.len() > 0 {
                Some(string_from_chars(t.as_slice()))
            } else {
                None
            }
        },
        None => None,
    }
}

/// A brush door's sounds: `noise1` moves, `noise2` stops.
pub fn brush_door_sounds(entity: &MapEntity) -> (r: MapDoorSounds)
    ensures
        opt_view(r.move_sound) == spec_sound_keyvalue(spec_prop(entity@, "noise1"@)),
        opt_view(r.stop_sound) == spec_sound_keyvalue(spec_prop(entity@, "noise2"@)),
        r.open_sound is None,
        r.close_sound is None,
{
    MapDoorSounds {
        move_sound: normalized_sound_keyvalue(entity.prop("noise1")),
        stop_sound: normalized_sound_keyvalue(entity.prop("noise2")),
        open_sound: None,
        close_sound: None,
    }
}

/// The script sound a prop door moves with when it names none.
pub open spec fn spec_default_move_sound() -> Seq<char> {
    "DoorSound.DefaultMove"@
}

/// The script sound a prop door opens and closes with when it names none.
pub open spec fn spec_default_arrive_sound() -> Seq<char> {
    "DoorSound.DefaultArrive"@
}

/// A sound keyvalue, or `default` when it is absent or blank.
pub open spec fn spec_sound_or(value: Option<Seq<char>>, default: Seq<char>) -> Seq<char> {
    match spec_sound_keyvalue(value) {
        Some(s) => s,
        None => default,
    }
}

/// A prop door's sounds: the move, open and close overrides, each
/// falling back to the mounted script defaults; no stop sound.
pub fn prop_door_sounds(entity: &MapEntity) -> (r: MapDoorSounds)
    ensures
        opt_view(r.move_sound) == Some(spec_sound_or(spec_prop(entity@, "soundmoveoverride"@), spec_default_move_sound())),
        r.stop_sound is None,
        opt_view(r.open_sound) == Some(spec_sound_or(spec_prop(entity@, "soundopenoverride"@), spec_default_arrive_sound())),
        opt_view(r.close_sound) == Some(spec_sound_or(spec_prop(entity@, "soundcloseoverride"@), spec_default_arrive_sound())),
{
    let move_sound = match normalized_sound_keyvalue(entity.prop("soundmoveoverride")) {
        Some(s) => s,
        None => "DoorSound.DefaultMove".to_owned(),
    };
    let open_sound = match normalized_sound_keyvalue(entity.prop("soundopenoverride")) {
        Some(s) => s,
        None => "DoorSound.DefaultArrive".to_owned(),
    };
    let close_sound = match normalized_sound_keyvalue(entity.prop("soundcloseoverride")) {
        Some(s) => s,
        None => "DoorSound.DefaultArrive".to_owned(),
    };
    MapDoorSounds {
        move_sound: Some(move_sound),
        stop_sound: None,
        open_sound: Some(open_sound),
        close_sound: Some(close_sound),
    }
}

/// `spawnflags` as an unsigned integer; 0 when absent, unparsable or
/// negative.
pub open spec fn spec_spawnflags(pairs: Seq<(Seq<char>, Seq<char>)>) -> u32 {
    match spec_prop(pairs, "spawnflags"@) {
        Some(v) => match spec_parse_entity_i32(v) {
            Some(n) => if n >= 0 {
                n as u32
            } else {
                0
            },
            None => 0,
        },
        None => 0,
    }
}

pub fn parse_entity_spawnflags(entity: &MapEntity) -> (r: u32)
    ensures
        r == spec_spawnflags(entity@),
{
    match entity.prop("spawnflags") {
        Some(v) => match parse_entity_i32(v) {
            Some(n) => if n >= 0 {
                n as u32
            } else {
                0
            },
            None => 0,
        },
        None => 0,
    }
}

/// The (obsolete) start-open spawnflag.
pub const SF_DOOR_START_OPEN_OBSOLETE: u32 = 1;

/// A door spawns open when it has the start-open spawnflag or `spawnpos`
/// is 1.
pub open spec fn spec_door_spawn_starts_open(pairs: Seq<(Seq<char>, Seq<char>)>) -> bool {
    spec_spawnflags(pairs) & SF_DOOR_START_OPEN_OBSOLETE != 0 || match spec_prop(pairs, "spawnpos"@) {
        Some(v) => spec_parse_entity_i32(v) == Some(1int),
        None => false,
    }
}

pub fn door_spawn_starts_open(entity: &MapEntity) -> (r: bool)
    ensures
        r == spec_door_spawn_starts_open(entity@),
{
    if parse_entity_spawnflags(entity) & SF_DOOR_START_OPEN_OBSOLETE != 0 {
        return true;
    }
    match entity.prop("spawnpos") {
        Some(v) => match parse_entity_i32(v) {
            Some(n) => n == 1,
            None => false,
        },
        None => false,
    }
}

/// The static prop game lump's `solid` byte for vphysics collision.
pub const STATIC_PROP_SOLID_PHYSICS: u8 = 6;

pub fn static_prop_solid(solid: u8) -> (r: MapPropSolid)
    ensures
        r == (if solid == STATIC_PROP_SOLID_PHYSICS { MapPropSolid::Physics } else { MapPropSolid::NotSolid }),
{
    if solid == STATIC_PROP_SOLID_PHYSICS {
        MapPropSolid::Physics
    } else {
        MapPropSolid::NotSolid
    }
}

/// An entity prop collides when it is not `startdisabled` and its
/// `solid` is 6.
pub open spec fn spec_entity_prop_solid(pairs: Seq<(Seq<char>, Seq<char>)>) -> MapPropSolid {
    let disabled = match spec_prop(pairs, "startdisabled"@) {
        Some(v) => spec_parse_entity_bool(v) == Some(true),
        None => false,
    };
    if disabled {
        MapPropSolid::NotSolid
    } else {
        match spec_prop(pairs, "solid"@) {
            Some(v) => if spec_parse_entity_i32(v) == Some(6int) {
                MapPropSolid::Physics
            } else {
                MapPropSolid::NotSolid
            },
            None => MapPropSolid::NotSolid,
        }
    }
}

pub fn entity_prop_solid(entity: &MapEntity) -> (r: MapPropSolid)
    ensures
        r == spec_entity_prop_solid(entity@),
{
    let disabled = match entity.prop("startdisabled") {
        Some(v) => match parse_entity_bool(v) {
            Some(b) => b,
            None => false,
        },
        None => false,
    };
    if disabled {
        return MapPropSolid::NotSolid;
    }
    match entity.prop("solid") {
        Some(v) => match parse_entity_i32(v) {
            Some(n) => if n == 6 {
                MapPropSolid::Physics
            } else {
                MapPropSolid::NotSolid
            },
            None => MapPropSolid::NotSolid,
        },
        None => MapPropSolid::NotSolid,
    }
}

/// The views of a list of entities.
pub open spec fn entities_view(v: Seq<MapEntity>) -> Seq<Seq<(Seq<char>, Seq<char>)>> {
    Seq::new(v.len(), |i: int| v[i]@)
}

/// The first entity whose classname is `worldspawn`.
pub open spec fn spec_worldspawn(es: Seq<Seq<(Seq<char>, Seq<char>)>>) -> Option<Seq<(Seq<char>, Seq<char>)>>
    decreases es.len(),
{
    if es.len() == 0 {
        None
    } else if spec_prop(es[0], "classname"@) == Some("worldspawn"@) {
        Some(es[0])
    } else {
        spec_worldspawn(es.drop_first())
    }
}

fn worldspawn(entities: &[MapEntity]) -> (r: Option<&MapEntity>)
    ensures
        match spec_worldspawn(entities_view(entities@)) {
            Some(w) => r is Some && r->0@ == w,
            None => r is None,
        },
{
    let ghost all = entities_view(entities@);
    let mut i: usize = 0;
    assert(all.skip(0) =~= all);
    while i < entities.len()
        invariant
            i <= entities.len(),
            all == entities_view(entities@),
            spec_worldspawn(all) == spec_worldspawn(all.skip(i as int)),
        decreases entities.len() - i,
    {
        let ghost rest = all.skip(i as int);
        assert(rest.drop_first() =~= all.skip(i + 1));
        assert(rest[0] == entities@[i as int]@);
        if entities[i].is_class("worldspawn") {
            return Some(&entities[i]);
        }
        i = i + 1;
    }
    None
}

/// The material detail sprites are drawn with when worldspawn names none.
pub open spec fn spec_default_detail_material() -> Seq<char> {
    "detail/detailsprites"@
}

/// Worldspawn's `detailmaterial` as a material name, or the default.
pub open spec fn spec_detail_material_name(es: Seq<Seq<(Seq<char>, Seq<char>)>>) -> Seq<char> {
    match spec_worldspawn(es) {
        Some(w) => match spec_prop(w, "detailmaterial"@) {
            Some(m) => match spec_normalize_source_path(m, Some(".vmt"@)) {
                Some(n) => n,
                None => spec_default_detail_material(),
            },
            None => spec_default_detail_material(),
        },
        None => spec_default_detail_material(),
    }
}

pub fn worldspawn_detail_material_name(entities: &[MapEntity]) -> (r: String)
    ensures
        r@ == spec_detail_material_name(entities_view(entities@)),
{
    if let Some(w) = worldspawn(entities) {
        if let Some(m) = w.prop("detailmaterial") {
            if let Some(n) = normalize_material_name(m) {
                return n;
            }
        }
    }
    "detail/detailsprites".to_owned()
}

/// Worldspawn's `skyname` in canonical form.
pub open spec fn spec_worldspawn_skyname(es: Seq<Seq<(Seq<char>, Seq<char>)>>) -> Option<Seq<char>> {
    match spec_worldspawn(es) {
        Some(w) => match spec_prop(w, "skyname"@) {
            Some(s) => spec_normalize_source_path(s, None),
            None => None,
        },
        None => None,
    }
}

pub fn worldspawn_skyname(entities: &[MapEntity]) -> (r: Option<String>)
    ensures
        opt_view(r) == spec_worldspawn_skyname(entities_view(entities@)),
{
    match worldspawn(entities) {
        Some(w) => match w.prop("skyname") {
            Some(s) => normalize_skyname(s),
            None => None,
        },
        None => None,
    }
}


// --- entity selection ----------------------------------------------------------

/// The positions, in order, of the entities whose classname is exactly
/// `classname`.
pub fn entities_of_class(entities: &[MapEntity], classname: &str) -> (r: Vec<usize>)
    ensures
        forall|i: int, j: int| 0 <= i < j < r@.len() ==> r@[i] < r@[j],
        forall|k: usize|
            r@.contains(k) <==> (k < entities@.len() && spec_prop(entities@[k as int]@, "classname"@) == Some(classname@)),
{
    let mut out: Vec<usize> = Vec::new();
    let mut i: usize = 0;
    while i < entities.len()
        invariant
            i <= entities.len(),
            forall|a: int, b: int| 0 <= a < b < out@.len() ==> out@[a] < out@[b],
            forall|a: int| 0 <= a < out@.len() ==> out@[a] < i,
            forall|k: usize|
                out@.contains(k) <==> (k < i && spec_prop(entities@[k as int]@, "classname"@) == Some(classname@)),
        decreases entities.len() - i,
    {
        let ghost before = out@;
        let hit = entities[i].is_class(classname);
        proof {
            if before.contains(i) {
                let j = choose|j: int| 0 <= j < before.len() && before[j] == i;
                assert(before[j] < i);
            }
            assert(hit == (spec_prop(entities@[i as int]@, "classname"@) == Some(classname@)));
        }
        if hit {
            out.push(i);
            proof {
                assert forall|k: usize| out@.contains(k) <==> (before.contains(k) || k == i) by {
                    if out@.contains(k) {
                        let j = choose|j: int| 0 <= j < out@.len() && out@[j] == k;
                        if j < before.len() {
                            assert(before[j] == k);
                        }
                    }
                    if before.contains(k) {
                        let j = choose|j: int| 0 <= j < before.len() && before[j] == k;
                        assert(out@[j] == k);
                    }
                    if k == i {
                        assert(out@[before.len() as int] == k);
                    }
                }
            }
        }
        proof {
            assert forall|k: usize|
                out@.contains(k) <==> (k < i + 1 && spec_prop(entities@[k as int]@, "classname"@) == Some(
                    classname@,
                )) by {
                if k < i {
                    if hit {
                        assert(out@.contains(k) <==> before.contains(k));
                    }
                }
            }
        }
        i = i + 1;
    }
    out
}

/// Whether a classname names one of the prop entities the scene places as
/// models (ignoring ASCII case).
pub open spec fn spec_is_entity_prop_class(c: Seq<char>) -> bool {
    ||| spec_ci_eq(c, "prop_dynamic"@)
    ||| spec_ci_eq(c, "prop_dynamic_override"@)
    ||| spec_ci_eq(c, "prop_physics"@)
    ||| spec_ci_eq(c, "prop_physics_multiplayer"@)
    ||| spec_ci_eq(c, "prop_physics_override"@)
}

/// The entity's classname when it names a model prop entity.
pub fn entity_prop_classname(entity: &MapEntity) -> (r: Option<&str>)
    ensures
        match spec_prop(entity@, "classname"@) {
            Some(c) => if spec_is_entity_prop_class(c) {
                r is Some && r->0@ == c
            } else {
                r is None
            },
            None => r is None,
        },
{
    let c = match entity.prop("classname") {
        Some(c) => c,
        None => return None,
    };
    let chars = str_chars(c);
    let a = str_chars("prop_dynamic");
    let b = str_chars("prop_dynamic_override");
    let d = str_chars("prop_physics");
    let e = str_chars("prop_physics_multiplayer");
    let f = str_chars("prop_physics_override");
    if ci_eq(chars.as_slice(), a.as_slice()) || ci_eq(chars.as_slice(), b.as_slice()) || ci_eq(
        chars.as_slice(),
        d.as_slice(),
    ) || ci_eq(chars.as_slice(), e.as_slice()) || ci_eq(chars.as_slice(), f.as_slice()) {
        Some(c)
    } else {
        None
    }
}

// --- doors ------------------------------------------------------------------------

/// The door class an entity's classname names, if it is a door.
pub open spec fn spec_door_class(pairs: Seq<(Seq<char>, Seq<char>)>) -> Option<MapDoorClass> {
    match spec_prop(pairs, "classname"@) {
        Some(c) => if c == "func_door"@ {
            Some(MapDoorClass::FuncDoor)
        } else if c == "func_movelinear"@ {
            Some(MapDoorClass::FuncMoveLinear)
        } else if c == "func_door_rotating"@ {
            Some(MapDoorClass::FuncDoorRotating)
        } else if c == "prop_door_rotating"@ {
            Some(MapDoorClass::PropDoorRotating)
        } else {
            None
        },
        None => None,
    }
}

pub fn door_class(entity: &MapEntity) -> (r: Option<MapDoorClass>)
    ensures
        r == spec_door_class(entity@),
{
    if entity.is_class("func_door") {
        Some(MapDoorClass::FuncDoor)
    } else if entity.is_class("func_movelinear") {
        Some(MapDoorClass::FuncMoveLinear)
    } else if entity.is_class("func_door_rotating") {
        Some(MapDoorClass::FuncDoorRotating)
    } else if entity.is_class("prop_door_rotating") {
        Some(MapDoorClass::PropDoorRotating)
    } else {
        None
    }
}

/// The axis a rotating brush door turns about.
#[derive(Debug, Clone, Copy, PartialEq, Eq)]
pub enum DoorRotationAxis {
    Pitch,
    Yaw,
    Roll,
}

/// `SF_DOOR_ROTATE_BACKWARDS`.
pub const SF_DOOR_ROTATE_BACKWARDS: u32 = 2;
/// `SF_DOOR_ROTATE_ROLL`.
pub const SF_DOOR_ROTATE_ROLL: u32 = 64;
/// `SF_DOOR_ROTATE_PITCH`.
pub const SF_DOOR_ROTATE_PITCH: u32 = 128;

/// A rotating door's axis (roll before pitch, yaw by default, as the
/// engine checks them) and whether it turns backwards.
pub fn rotating_door_axis(spawnflags: u32) -> (r: (DoorRotationAxis, bool))
    ensures
        r.0 == (if spawnflags & SF_DOOR_ROTATE_ROLL != 0 {
            DoorRotationAxis::Roll
        } else if spawnflags & SF_DOOR_ROTATE_PITCH != 0 {
            DoorRotationAxis::Pitch
        } else {
            DoorRotationAxis::Yaw
        }),
        r.1 == (spawnflags & SF_DOOR_ROTATE_BACKWARDS != 0),
{
    let axis = if spawnflags & SF_DOOR_ROTATE_ROLL != 0 {
        DoorRotationAxis::Roll
    } else if spawnflags & SF_DOOR_ROTATE_PITCH != 0 {
        DoorRotationAxis::Pitch
    } else {
        DoorRotationAxis::Yaw
    };
    (axis, spawnflags & SF_DOOR_ROTATE_BACKWARDS != 0)
}

/// A prop door's `opendir`: 1 opens forward, 2 backward, anything else
/// (or none) both ways.
pub open spec fn spec_prop_door_open_direction(pairs: Seq<(Seq<char>, Seq<char>)>) -> MapDoorOpenDirection {
    let d = match spec_prop(pairs, "opendir"@) {
        Some(v) => match spec_parse_entity_i32(v) {
            Some(n) => n,
            None => 0,
        },
        None => 0,
    };
    if d == 1 {
        MapDoorOpenDirection::Forward
    } else if d == 2 {
        MapDoorOpenDirection::Backward
    } else {
        MapDoorOpenDirection::Both
    }
}

/// A prop door opens the way its first `opendir` keyvalue says, read as
/// an entity integer: 1 opens it forward only, 2 backward only; any
/// other number, a value that is no number, or no `opendir` at all lets
/// it open both ways.
pub proof fn lemma_prop_door_open_direction_follows_opendir(pairs: Seq<(Seq<char>, Seq<char>)>)
    ensures
        (spec_prop(pairs, "opendir"@) matches Some(v) && spec_parse_entity_i32(v) == Some(1int))
            ==> spec_prop_door_open_direction(pairs) == MapDoorOpenDirection::Forward,
        (spec_prop(pairs, "opendir"@) matches Some(v) && spec_parse_entity_i32(v) == Some(2int))
            ==> spec_prop_door_open_direction(pairs) == MapDoorOpenDirection::Backward,
        spec_prop(pairs, "opendir"@) is None ==> spec_prop_door_open_direction(pairs) == MapDoorOpenDirection::Both,
        (spec_prop(pairs, "opendir"@) matches Some(v) && spec_parse_entity_i32(v) != Some(1int) && spec_parse_entity_i32(v)
            != Some(2int)) ==> spec_prop_door_open_direction(pairs) == MapDoorOpenDirection::Both,
{
}

/// A value made of one ASCII digit reads as that digit.
proof fn lemma_single_digit_value(v: Seq<char>)
    requires
        v.len() == 1,
        spec_is_digit(v[0]),
    ensures
        spec_parse_entity_i32(v) == Some(spec_digit(v[0])),
{
    assert(!spec_is_unicode_ws(v[0]));
    assert(spec_ws_prefix(v) == 0);
    assert(v.skip(0) =~= v);
    assert(spec_ws_suffix(v) == 0) by {
        assert(v.last() == v[0]);
    }
    assert(v.take(1) =~= v);
    assert(spec_trim(v) == v);
    assert(v.drop_last() =~= Seq::<char>::empty());
    assert(spec_digits_value(v.drop_last()) == 0);
    assert(v.last() == v[0]);
    assert(spec_digits_value(v) == spec_digit(v[0]));
}

/// The `opendir` values a map writes: `"1"` opens a prop door forward
/// only, `"2"` backward only, `"0"` both ways.
pub proof fn lemma_prop_door_opendir_values(pairs: Seq<(Seq<char>, Seq<char>)>)
    ensures
        spec_prop(pairs, "opendir"@) == Some("1"@) ==> spec_prop_door_open_direction(pairs) == MapDoorOpenDirection::Forward,
        spec_prop(pairs, "opendir"@) == Some("2"@) ==> spec_prop_door_open_direction(pairs) == MapDoorOpenDirection::Backward,
        spec_prop(pairs, "opendir"@) == Some("0"@) ==> spec_prop_door_open_direction(pairs) == MapDoorOpenDirection::Both,
{
    reveal_strlit("1");
    reveal_strlit("2");
    reveal_strlit("0");
    lemma_single_digit_value("1"@);
    lemma_single_digit_value("2"@);
    lemma_single_digit_value("0"@);
    lemma_prop_door_open_direction_follows_opendir(pairs);
}

pub fn prop_door_open_direction(entity: &MapEntity) -> (r: MapDoorOpenDirection)
    ensures
        r == spec_prop_door_open_direction(entity@),
{
    let d = match entity.prop("opendir") {
        Some(v) => match parse_entity_i32(v) {
            Some(n) => n,
            None => 0,
        },
        None => 0,
    };
    if d == 1 {
        MapDoorOpenDirection::Forward
    } else if d == 2 {
        MapDoorOpenDirection::Backward
    } else {
        MapDoorOpenDirection::Both
    }
}

/// A prop door starts open with the start-open spawnflag or a `spawnpos`
/// of 1 or 2.
pub open spec fn spec_prop_door_starts_open(pairs: Seq<(Seq<char>, Seq<char>)>) -> bool {
    spec_spawnflags(pairs) & SF_DOOR_START_OPEN_OBSOLETE != 0 || match spec_prop(pairs, "spawnpos"@) {
        Some(v) => spec_parse_entity_i32(v) == Some(1int) || spec_parse_entity_i32(v) == Some(2int),
        None => false,
    }
}

pub fn prop_door_starts_open(entity: &MapEntity) -> (r: bool)
    ensures
        r == spec_prop_door_starts_open(entity@),
{
    if parse_entity_spawnflags(entity) & SF_DOOR_START_OPEN_OBSOLETE != 0 {
        return true;
    }
    match entity.prop("spawnpos") {
        Some(v) => match parse_entity_i32(v) {
            Some(n) => n == 1 || n == 2,
            None => false,
        },
        None => false,
    }
}

} // verus!
