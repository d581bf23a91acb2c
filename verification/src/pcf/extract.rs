//! The particle layer: which DMX elements are particle system definitions,
//! and how a definition's attributes become a [`PcfSystem`].
use vstd::prelude::*;

use std::collections::HashMap;

use super::dmx::{DmxDocument, DmxDocumentV, DmxElement, DmxElementV, DmxValue, DmxValueV};
use super::{copy_value, PcfAttributes, PcfNumber, PcfValueV, attr_lookup, spec_number};
use crate::text::{ci_eq, spec_ci_eq, spec_lower_seq, str_chars};

verus! {

// --- small sequence specs -------------------------------------------------

/// The non-null references of `refs`, in order.
pub open spec fn spec_flatten(refs: Seq<Option<u32>>) -> Seq<u32>
    decreases refs.len(),
{
    if refs.len() == 0 {
        Seq::empty()
    } else {
        let rest = spec_flatten(refs.drop_last());
        match refs.last() {
            Some(r) => rest.push(r),
            None => rest,
        }
    }
}

/// The plain values of a DMX attribute list, as a particle attribute bag.
pub open spec fn spec_plain_attributes(attrs: Seq<(Seq<char>, DmxValueV)>) -> Seq<(Seq<char>, PcfValueV)>
    decreases attrs.len(),
{
    if attrs.len() == 0 {
        Seq::empty()
    } else {
        let rest = spec_plain_attributes(attrs.drop_last());
        match attrs.last().1 {
            DmxValueV::Value(v) => rest.push((attrs.last().0, v)),
            _ => rest,
        }
    }
}

/// The non-null references of `refs`.
pub fn flatten_refs(refs: &Vec<Option<u32>>) -> (r: Vec<u32>)
    ensures
        r@ == spec_flatten(refs@),
{
    let mut out: Vec<u32> = Vec::new();
    let mut i: usize = 0;
    while i < refs.len()
        invariant
            i <= refs.len(),
            out@ == spec_flatten(refs@.take(i as int)),
        decreases refs.len() - i,
    {
        assert(refs@.take(i + 1).drop_last() =~= refs@.take(i as int));
        if let Some(r) = refs[i] {
            out.push(r);
        }
        i = i + 1;
    }
    assert(refs@.take(i as int) =~= refs@);
    out
}

/// The plain (non-reference) attributes of a DMX element, in order.
pub fn plain_attributes(attributes: &Vec<(String, DmxValue)>) -> (r: PcfAttributes)
    ensures
        r@ == spec_plain_attributes(super::dmx::dmx_attrs_view(attributes@)),
{
    let ghost a = super::dmx::dmx_attrs_view(attributes@);
    let mut out = PcfAttributes::new();
    let mut i: usize = 0;
    while i < attributes.len()
        invariant
            i <= attributes.len(),
            a == super::dmx::dmx_attrs_view(attributes@),
            out@ == spec_plain_attributes(a.take(i as int)),
        decreases attributes.len() - i,
    {
        assert(a.take(i + 1).drop_last() =~= a.take(i as int));
        let entry = &attributes[i];
        if let DmxValue::Value(v) = &entry.1 {
            out.push(entry.0.clone(), copy_value(v));
        }
        i = i + 1;
    }
    assert(a.take(i as int) =~= a);
    out
}


// --- output types ---------------------------------------------------------

/// One operator instance: the Source function name ("emit_continuously",
/// "alpha_fade_out_random", ...) plus its parameter attributes.
#[derive(Debug)]
pub struct PcfFunction {
    pub name: String,
    pub attributes: PcfAttributes,
}

pub struct PcfFunctionV {
    pub name: Seq<char>,
    pub attributes: Seq<(Seq<char>, PcfValueV)>,
}

impl View for PcfFunction {
    type V = PcfFunctionV;

    open spec fn view(&self) -> PcfFunctionV {
        PcfFunctionV { name: self.name@, attributes: self.attributes@ }
    }
}

/// Reference to a child system spawned alongside a parent.
#[derive(Debug)]
pub struct PcfChild {
    pub name: String,
    /// Index into [`PcfFile::systems`] when the child definition lives in
    /// the same file (the overwhelmingly common case).
    pub system_index: Option<usize>,
    /// Spawn delay as stored: seconds as float bits, DMX time, or an integer.
    pub delay: PcfNumber,
}

pub struct PcfChildV {
    pub name: Seq<char>,
    pub system_index: Option<usize>,
    pub delay: PcfNumber,
}

impl View for PcfChild {
    type V = PcfChildV;

    open spec fn view(&self) -> PcfChildV {
        PcfChildV { name: self.name@, system_index: self.system_index, delay: self.delay }
    }
}

/// The views of a list of functions.
pub open spec fn functions_view(v: Seq<PcfFunction>) -> Seq<PcfFunctionV> {
    Seq::new(v.len(), |i: int| v[i]@)
}

/// The views of a list of children.
pub open spec fn children_view(v: Seq<PcfChild>) -> Seq<PcfChildV> {
    Seq::new(v.len(), |i: int| v[i]@)
}

// --- which elements are system definitions --------------------------------

/// Element index -> system index: the last position at which each element
/// occurs in the definition list.
pub open spec fn spec_system_index_map(defs: Seq<u32>) -> Map<u32, usize>
    decreases defs.len(),
{
    if defs.len() == 0 {
        Map::empty()
    } else {
        spec_system_index_map(defs.drop_last()).insert(defs.last(), (defs.len() - 1) as usize)
    }
}

/// The system index `element` resolves to, if it is a definition.
pub open spec fn spec_system_index(defs: Seq<u32>, element: u32) -> Option<usize> {
    let m = spec_system_index_map(defs);
    if m.contains_key(element) {
        Some(m[element])
    } else {
        None
    }
}

/// Builds the element-to-system map of a definition list.
fn system_index_map(defs: &Vec<u32>) -> (r: HashMap<u32, usize>)
    ensures
        r@ == spec_system_index_map(defs@),
{
    let mut m: HashMap<u32, usize> = HashMap::new();
    let mut i: usize = 0;
    while i < defs.len()
        invariant
            i <= defs.len(),
            m@ == spec_system_index_map(defs@.take(i as int)),
        decreases defs.len() - i,
    {
        assert(defs@.take(i + 1).drop_last() =~= defs@.take(i as int));
        m.insert(defs[i], i);
        i = i + 1;
    }
    assert(defs@.take(i as int) =~= defs@);
    m
}

/// Looks an element up in the map built by `system_index_map`.
fn lookup_system(m: &HashMap<u32, usize>, element: u32) -> (r: Option<usize>)
    ensures
        r == (if m@.contains_key(element) { Some(m@[element]) } else { None }),
{
    match m.get(&element) {
        Some(v) => Some(*v),
        None => None,
    }
}


/// Each definition element resolves to the last position it holds in the
/// definition list, and an element that is not in the list resolves to none.
pub proof fn lemma_system_index_is_last(defs: Seq<u32>, element: u32)
    requires
        defs.len() <= usize::MAX,
    ensures
        spec_system_index(defs, element) matches Some(k) ==> k < defs.len() && defs[k as int]
            == element && forall|j: int| k < j < defs.len() ==> defs[j] != element,
        spec_system_index(defs, element) is None ==> forall|j: int|
            0 <= j < defs.len() ==> defs[j] != element,
    decreases defs.len(),
{
    if defs.len() > 0 {
        let init = defs.drop_last();
        lemma_system_index_is_last(init, element);
        assert forall|j: int| 0 <= j < init.len() implies init[j] == defs[j] by {}
    }
}

// --- operator lists and children -------------------------------------------

/// The function an operator reference names, if the element exists.
pub open spec fn spec_function_of(doc: DmxDocumentV, r: u32) -> Option<PcfFunctionV> {
    if r < doc.elements.len() {
        let el = doc.elements[r as int];
        Some(PcfFunctionV { name: el.name, attributes: spec_plain_attributes(el.attributes) })
    } else {
        None
    }
}

/// The functions of an operator list's references, dangling ones dropped.
pub open spec fn spec_functions(doc: DmxDocumentV, refs: Seq<u32>) -> Seq<PcfFunctionV>
    decreases refs.len(),
{
    if refs.len() == 0 {
        Seq::empty()
    } else {
        let rest = spec_functions(doc, refs.drop_last());
        match spec_function_of(doc, refs.last()) {
            Some(f) => rest.push(f),
            None => rest,
        }
    }
}

/// The reference held by the first `child` element attribute.
pub open spec fn spec_child_ref(attrs: Seq<(Seq<char>, DmxValueV)>) -> Option<Option<u32>>
    decreases attrs.len(),
{
    if attrs.len() == 0 {
        None
    } else if spec_ci_eq(attrs[0].0, "child"@) && attrs[0].1 is Element {
        Some(attrs[0].1->Element_0)
    } else {
        spec_child_ref(attrs.drop_first())
    }
}

/// A zero delay.
pub open spec fn zero_delay() -> PcfNumber {
    PcfNumber::Float(0)
}

/// The child that reference `r` of a `children` list describes. A
/// reference to a definition is the child itself; anything else is a
/// `DmeParticleChild` wrapper whose `child` attribute names the definition
/// and whose `delay` attribute (zero when absent) delays it.
pub open spec fn spec_child_of(doc: DmxDocumentV, defs: Seq<u32>, r: u32) -> Option<PcfChildV> {
    if r >= doc.elements.len() {
        None
    } else {
        let el = doc.elements[r as int];
        if spec_system_index(defs, r) is Some {
            Some(PcfChildV { name: el.name, system_index: spec_system_index(defs, r), delay: zero_delay() })
        } else {
            let delay = match attr_lookup(spec_plain_attributes(el.attributes), "delay"@) {
                Some(v) => match spec_number(v) {
                    Some(n) => n,
                    None => zero_delay(),
                },
                None => zero_delay(),
            };
            match spec_child_ref(el.attributes) {
                Some(Some(c)) => if c < doc.elements.len() {
                    Some(PcfChildV {
                        name: doc.elements[c as int].name,
                        system_index: spec_system_index(defs, c),
                        delay,
                    })
                } else {
                    None
                },
                _ => None,
            }
        }
    }
}

/// The children of a `children` list's references, unresolved ones dropped.
pub open spec fn spec_children(doc: DmxDocumentV, defs: Seq<u32>, refs: Seq<u32>) -> Seq<PcfChildV>
    decreases refs.len(),
{
    if refs.len() == 0 {
        Seq::empty()
    } else {
        let rest = spec_children(doc, defs, refs.drop_last());
        match spec_child_of(doc, defs, refs.last()) {
            Some(c) => rest.push(c),
            None => rest,
        }
    }
}

fn function_of(doc: &DmxDocument, r: u32) -> (f: Option<PcfFunction>)
    ensures
        match spec_function_of(doc@, r) {
            Some(v) => f is Some && f->0@ == v,
            None => f is None,
        },
{
    if (r as usize) < doc.elements.len() {
        let el = &doc.elements[r as usize];
        assert(doc@.elements[r as int] == el@);
        Some(PcfFunction { name: el.name.clone(), attributes: plain_attributes(&el.attributes) })
    } else {
        None
    }
}

fn functions_of(doc: &DmxDocument, refs: &Vec<u32>) -> (r: Vec<PcfFunction>)
    ensures
        functions_view(r@) == spec_functions(doc@, refs@),
{
    let mut out: Vec<PcfFunction> = Vec::new();
    let mut i: usize = 0;
    while i < refs.len()
        invariant
            i <= refs.len(),
            functions_view(out@) == spec_functions(doc@, refs@.take(i as int)),
        decreases refs.len() - i,
    {
        assert(refs@.take(i + 1).drop_last() =~= refs@.take(i as int));
        if let Some(f) = function_of(doc, refs[i]) {
            let ghost before = out@;
            out.push(f);
            assert(functions_view(out@) =~= functions_view(before).push(f@));
        }
        i = i + 1;
    }
    assert(refs@.take(i as int) =~= refs@);
    out
}

/// The first `child` element reference among `attributes`.
fn child_ref(attributes: &Vec<(String, DmxValue)>) -> (r: Option<Option<u32>>)
    ensures
        r == spec_child_ref(super::dmx::dmx_attrs_view(attributes@)),
{
    let ghost a = super::dmx::dmx_attrs_view(attributes@);
    let key = str_chars("child");
    let mut i: usize = 0;
    assert(a.skip(0) =~= a);
    while i < attributes.len()
        invariant
            i <= attributes.len(),
            a == super::dmx::dmx_attrs_view(attributes@),
            key@ == "child"@,
            spec_child_ref(a) == spec_child_ref(a.skip(i as int)),
        decreases attributes.len() - i,
    {
        let ghost rest = a.skip(i as int);
        assert(rest.drop_first() =~= a.skip(i + 1));
        assert(rest[0] == a[i as int]);
        let entry = &attributes[i];
        let name = str_chars(entry.0.as_str());
        if let DmxValue::Element(reference) = &entry.1 {
            if ci_eq(name.as_slice(), key.as_slice()) {
                return Some(*reference);
            }
        }
        i = i + 1;
    }
    None
}

fn child_of(doc: &DmxDocument, defs: Ghost<Seq<u32>>, map: &HashMap<u32, usize>, r: u32) -> (c: Option<PcfChild>)
    requires
        map@ == spec_system_index_map(defs@),
    ensures
        match spec_child_of(doc@, defs@, r) {
            Some(v) => c is Some && c->0@ == v,
            None => c is None,
        },
{
    if (r as usize) >= doc.elements.len() {
        return None;
    }
    let el = &doc.elements[r as usize];
    assert(doc@.elements[r as int] == el@);
    let own = lookup_system(map, r);
    if own.is_some() {
        return Some(PcfChild { name: el.name.clone(), system_index: own, delay: PcfNumber::Float(0) });
    }
    let attributes = plain_attributes(&el.attributes);
    let delay = match attributes.get_float("delay") {
        Some(n) => n,
        None => PcfNumber::Float(0),
    };
    match child_ref(&el.attributes) {
        Some(Some(c)) => {
            if (c as usize) < doc.elements.len() {
                let def = &doc.elements[c as usize];
                assert(doc@.elements[c as int] == def@);
                Some(PcfChild { name: def.name.clone(), system_index: lookup_system(map, c), delay })
            } else {
                None
            }
        },
        _ => None,
    }
}

fn children_of(doc: &DmxDocument, defs: Ghost<Seq<u32>>, map: &HashMap<u32, usize>, refs: &Vec<u32>) -> (r: Vec<PcfChild>)
    requires
        map@ == spec_system_index_map(defs@),
    ensures
        children_view(r@) == spec_children(doc@, defs@, refs@),
{
    let mut out: Vec<PcfChild> = Vec::new();
    let mut i: usize = 0;
    while i < refs.len()
        invariant
            i <= refs.len(),
            map@ == spec_system_index_map(defs@),
            children_view(out@) == spec_children(doc@, defs@, refs@.take(i as int)),
        decreases refs.len() - i,
    {
        assert(refs@.take(i + 1).drop_last() =~= refs@.take(i as int));
        if let Some(c) = child_of(doc, defs, map, refs[i]) {
            let ghost before = out@;
            out.push(c);
            assert(children_view(out@) =~= children_view(before).push(c@));
        }
        i = i + 1;
    }
    assert(refs@.take(i as int) =~= refs@);
    out
}


// --- systems ---------------------------------------------------------------

#[derive(Debug)]
pub struct PcfSystem {
    pub name: String,
    /// Base properties: max_particles, material, radius, color, ...
    pub attributes: PcfAttributes,
    pub emitters: Vec<PcfFunction>,
    pub initializers: Vec<PcfFunction>,
    pub operators: Vec<PcfFunction>,
    pub renderers: Vec<PcfFunction>,
    pub forces: Vec<PcfFunction>,
    pub constraints: Vec<PcfFunction>,
    pub children: Vec<PcfChild>,
}

pub struct PcfSystemV {
    pub name: Seq<char>,
    pub attributes: Seq<(Seq<char>, PcfValueV)>,
    pub emitters: Seq<PcfFunctionV>,
    pub initializers: Seq<PcfFunctionV>,
    pub operators: Seq<PcfFunctionV>,
    pub renderers: Seq<PcfFunctionV>,
    pub forces: Seq<PcfFunctionV>,
    pub constraints: Seq<PcfFunctionV>,
    pub children: Seq<PcfChildV>,
}

impl View for PcfSystem {
    type V = PcfSystemV;

    open spec fn view(&self) -> PcfSystemV {
        PcfSystemV {
            name: self.name@,
            attributes: self.attributes@,
            emitters: functions_view(self.emitters@),
            initializers: functions_view(self.initializers@),
            operators: functions_view(self.operators@),
            renderers: functions_view(self.renderers@),
            forces: functions_view(self.forces@),
            constraints: functions_view(self.constraints@),
            children: children_view(self.children@),
        }
    }
}

/// Which operator list an element-array attribute fills: emitters,
/// initializers, operators, renderers, forces or constraints, by name.
pub open spec fn spec_operator_list(name: Seq<char>) -> Option<u8> {
    if spec_ci_eq(name, "emitters"@) {
        Some(0)
    } else if spec_ci_eq(name, "initializers"@) {
        Some(1)
    } else if spec_ci_eq(name, "operators"@) {
        Some(2)
    } else if spec_ci_eq(name, "renderers"@) {
        Some(3)
    } else if spec_ci_eq(name, "forces"@) {
        Some(4)
    } else if spec_ci_eq(name, "constraints"@) {
        Some(5)
    } else {
        None
    }
}

/// A system with only its name.
pub open spec fn spec_empty_system(name: Seq<char>) -> PcfSystemV {
    PcfSystemV {
        name,
        attributes: Seq::empty(),
        emitters: Seq::empty(),
        initializers: Seq::empty(),
        operators: Seq::empty(),
        renderers: Seq::empty(),
        forces: Seq::empty(),
        constraints: Seq::empty(),
        children: Seq::empty(),
    }
}

/// One definition attribute applied to the system read so far: a plain
/// value is appended to the base properties; a `children` element array
/// replaces the children; an operator-list element array replaces that
/// list; anything else is ignored.
pub open spec fn spec_system_step(
    doc: DmxDocumentV,
    defs: Seq<u32>,
    sys: PcfSystemV,
    entry: (Seq<char>, DmxValueV),
) -> PcfSystemV {
    match entry.1 {
        DmxValueV::Value(v) => PcfSystemV { attributes: sys.attributes.push((entry.0, v)), ..sys },
        DmxValueV::Element(_) => sys,
        DmxValueV::ElementArray(refs) => if spec_ci_eq(entry.0, "children"@) {
            PcfSystemV { children: spec_children(doc, defs, spec_flatten(refs)), ..sys }
        } else {
            let fs = spec_functions(doc, spec_flatten(refs));
            match spec_operator_list(entry.0) {
                Some(0) => PcfSystemV { emitters: fs, ..sys },
                Some(1) => PcfSystemV { initializers: fs, ..sys },
                Some(2) => PcfSystemV { operators: fs, ..sys },
                Some(3) => PcfSystemV { renderers: fs, ..sys },
                Some(4) => PcfSystemV { forces: fs, ..sys },
                Some(_) => PcfSystemV { constraints: fs, ..sys },
                None => sys,
            }
        },
    }
}

/// The system read from a definition's attributes, in order.
pub open spec fn spec_system_fold(
    doc: DmxDocumentV,
    defs: Seq<u32>,
    name: Seq<char>,
    attrs: Seq<(Seq<char>, DmxValueV)>,
) -> PcfSystemV
    decreases attrs.len(),
{
    if attrs.len() == 0 {
        spec_empty_system(name)
    } else {
        spec_system_step(doc, defs, spec_system_fold(doc, defs, name, attrs.drop_last()), attrs.last())
    }
}

/// The system a definition element describes.
pub open spec fn spec_system(doc: DmxDocumentV, defs: Seq<u32>, el: DmxElementV) -> PcfSystemV {
    spec_system_fold(doc, defs, el.name, el.attributes)
}

/// Two names that lowercase differently are never both matched, ignoring
/// ASCII case, by one attribute name.
proof fn lemma_ci_eq_exclusive(name: Seq<char>, a: Seq<char>, b: Seq<char>)
    requires
        spec_lower_seq(a) != spec_lower_seq(b),
    ensures
        !(spec_ci_eq(name, a) && spec_ci_eq(name, b)),
{
}

/// The attribute names that select lists lowercase to different words.
proof fn lemma_list_names_distinct()
    ensures
        spec_lower_seq("emitters"@) != spec_lower_seq("children"@),
        spec_lower_seq("initializers"@) != spec_lower_seq("children"@),
        spec_lower_seq("operators"@) != spec_lower_seq("children"@),
        spec_lower_seq("renderers"@) != spec_lower_seq("children"@),
        spec_lower_seq("forces"@) != spec_lower_seq("children"@),
        spec_lower_seq("constraints"@) != spec_lower_seq("children"@),
        spec_lower_seq("initializers"@) != spec_lower_seq("emitters"@),
        spec_lower_seq("operators"@) != spec_lower_seq("emitters"@),
        spec_lower_seq("operators"@) != spec_lower_seq("initializers"@),
        spec_lower_seq("renderers"@) != spec_lower_seq("emitters"@),
        spec_lower_seq("renderers"@) != spec_lower_seq("initializers"@),
        spec_lower_seq("renderers"@) != spec_lower_seq("operators"@),
        spec_lower_seq("forces"@) != spec_lower_seq("emitters"@),
        spec_lower_seq("forces"@) != spec_lower_seq("initializers"@),
        spec_lower_seq("forces"@) != spec_lower_seq("operators"@),
        spec_lower_seq("forces"@) != spec_lower_seq("renderers"@),
        spec_lower_seq("constraints"@) != spec_lower_seq("emitters"@),
        spec_lower_seq("constraints"@) != spec_lower_seq("initializers"@),
        spec_lower_seq("constraints"@) != spec_lower_seq("operators"@),
        spec_lower_seq("constraints"@) != spec_lower_seq("renderers"@),
        spec_lower_seq("constraints"@) != spec_lower_seq("forces"@),
{
    reveal_strlit("emitters");
    reveal_strlit("initializers");
    reveal_strlit("operators");
    reveal_strlit("renderers");
    reveal_strlit("forces");
    reveal_strlit("constraints");
    reveal_strlit("children");
    assert(spec_lower_seq("emitters"@).len() == 8);
    assert(spec_lower_seq("initializers"@).len() == 12);
    assert(spec_lower_seq("operators"@).len() == 9);
    assert(spec_lower_seq("renderers"@).len() == 9);
    assert(spec_lower_seq("forces"@).len() == 6);
    assert(spec_lower_seq("constraints"@).len() == 11);
    assert(spec_lower_seq("children"@).len() == 8);
    assert(spec_lower_seq("emitters"@)[0] != spec_lower_seq("children"@)[0]);
    assert(spec_lower_seq("renderers"@)[0] != spec_lower_seq("operators"@)[0]);
}

/// Reading an element-array attribute fills the list of the same name,
/// ASCII case ignored, with the functions its references name, and
/// leaves every other part of the system as it was: `emitters` the
/// emitters, `initializers` the initializers, `operators` the operators,
/// `renderers` the renderers, `forces` the forces and `constraints` the
/// constraints.
pub proof fn lemma_named_list_is_filled(
    doc: DmxDocumentV,
    defs: Seq<u32>,
    system_name: Seq<char>,
    attrs: Seq<(Seq<char>, DmxValueV)>,
    name: Seq<char>,
    refs: Seq<Option<u32>>,
)
    ensures
        ({
            let before = spec_system_fold(doc, defs, system_name, attrs);
            let after = spec_system_fold(doc, defs, system_name, attrs.push((name, DmxValueV::ElementArray(refs))));
            let fs = spec_functions(doc, spec_flatten(refs));
            &&& spec_ci_eq(name, "emitters"@) ==> after == PcfSystemV { emitters: fs, ..before }
            &&& spec_ci_eq(name, "initializers"@) ==> after == PcfSystemV { initializers: fs, ..before }
            &&& spec_ci_eq(name, "operators"@) ==> after == PcfSystemV { operators: fs, ..before }
            &&& spec_ci_eq(name, "renderers"@) ==> after == PcfSystemV { renderers: fs, ..before }
            &&& spec_ci_eq(name, "forces"@) ==> after == PcfSystemV { forces: fs, ..before }
            &&& spec_ci_eq(name, "constraints"@) ==> after == PcfSystemV { constraints: fs, ..before }
        }),
{
    let e = (name, DmxValueV::ElementArray(refs));
    assert(attrs.push(e).drop_last() =~= attrs);
    assert(attrs.push(e).last() == e);
    lemma_list_names_distinct();
    let lists = seq!["emitters"@, "initializers"@, "operators"@, "renderers"@, "forces"@, "constraints"@, "children"@];
    assert forall|i: int, j: int| 0 <= i < j < 7 implies !(spec_ci_eq(name, lists[i]) && spec_ci_eq(name, lists[j])) by {
        lemma_ci_eq_exclusive(name, lists[i], lists[j]);
    }
    assert(lists[0] == "emitters"@);
    assert(lists[1] == "initializers"@);
    assert(lists[2] == "operators"@);
    assert(lists[3] == "renderers"@);
    assert(lists[4] == "forces"@);
    assert(lists[5] == "constraints"@);
    assert(lists[6] == "children"@);
}

/// Which operator list `name` names (see `spec_operator_list`).
fn operator_list(name: &[char]) -> (r: Option<u8>)
    ensures
        r == spec_operator_list(name@),
{
    let emitters = str_chars("emitters");
    let initializers = str_chars("initializers");
    let operators = str_chars("operators");
    let renderers = str_chars("renderers");
    let forces = str_chars("forces");
    let constraints = str_chars("constraints");
    if ci_eq(name, emitters.as_slice()) {
        Some(0)
    } else if ci_eq(name, initializers.as_slice()) {
        Some(1)
    } else if ci_eq(name, operators.as_slice()) {
        Some(2)
    } else if ci_eq(name, renderers.as_slice()) {
        Some(3)
    } else if ci_eq(name, forces.as_slice()) {
        Some(4)
    } else if ci_eq(name, constraints.as_slice()) {
        Some(5)
    } else {
        None
    }
}

fn extract_system(doc: &DmxDocument, defs: Ghost<Seq<u32>>, map: &HashMap<u32, usize>, element: &DmxElement) -> (r: PcfSystem)
    requires
        map@ == spec_system_index_map(defs@),
    ensures
        r@ == spec_system(doc@, defs@, element@),
{
    let ghost a = element@.attributes;
    let mut system = PcfSystem {
        name: element.name.clone(),
        attributes: PcfAttributes::new(),
        emitters: Vec::new(),
        initializers: Vec::new(),
        operators: Vec::new(),
        renderers: Vec::new(),
        forces: Vec::new(),
        constraints: Vec::new(),
        children: Vec::new(),
    };
    let children_key = str_chars("children");
    let mut i: usize = 0;
    proof {
        assert(a.take(0) =~= Seq::<(Seq<char>, DmxValueV)>::empty());
        assert(functions_view(Seq::<PcfFunction>::empty()) =~= Seq::<PcfFunctionV>::empty());
        assert(children_view(Seq::<PcfChild>::empty()) =~= Seq::<PcfChildV>::empty());
        assert(system@ == spec_empty_system(element@.name));
    }
    while i < element.attributes.len()
        invariant
            i <= element.attributes.len(),
            a == element@.attributes,
            map@ == spec_system_index_map(defs@),
            children_key@ == "children"@,
            system@ == spec_system_fold(doc@, defs@, element@.name, a.take(i as int)),
        decreases element.attributes.len() - i,
    {
        assert(a.take(i + 1).drop_last() =~= a.take(i as int));
        let entry = &element.attributes[i];
        assert(a[i as int] == (entry.0@, entry.1@));
        let name = str_chars(entry.0.as_str());
        match &entry.1 {
            DmxValue::ElementArray(refs) => {
                let flat = flatten_refs(refs);
                if ci_eq(name.as_slice(), children_key.as_slice()) {
                    system.children = children_of(doc, defs, map, &flat);
                } else {
                    match operator_list(name.as_slice()) {
                        Some(0) => system.emitters = functions_of(doc, &flat),
                        Some(1) => system.initializers = functions_of(doc, &flat),
                        Some(2) => system.operators = functions_of(doc, &flat),
                        Some(3) => system.renderers = functions_of(doc, &flat),
                        Some(4) => system.forces = functions_of(doc, &flat),
                        Some(_) => system.constraints = functions_of(doc, &flat),
                        None => {},
                    }
                }
            },
            DmxValue::Element(_) => {},
            DmxValue::Value(v) => {
                system.attributes.push(entry.0.clone(), copy_value(v));
            },
        }
        i = i + 1;
    }
    assert(a.take(i as int) =~= a);
    system
}


// --- the file ----------------------------------------------------------------

#[derive(Debug)]
pub struct PcfFile {
    pub encoding_version: u32,
    pub format_version: u32,
    pub systems: Vec<PcfSystem>,
}

pub struct PcfFileV {
    pub encoding_version: u32,
    pub format_version: u32,
    pub systems: Seq<PcfSystemV>,
}

impl View for PcfFile {
    type V = PcfFileV;

    open spec fn view(&self) -> PcfFileV {
        PcfFileV {
            encoding_version: self.encoding_version,
            format_version: self.format_version,
            systems: Seq::new(self.systems@.len(), |i: int| self.systems@[i]@),
        }
    }
}

/// The first `particleSystemDefinitions` element array among the root's
/// attributes.
pub open spec fn spec_root_definitions(attrs: Seq<(Seq<char>, DmxValueV)>) -> Option<Seq<Option<u32>>>
    decreases attrs.len(),
{
    if attrs.len() == 0 {
        None
    } else if spec_ci_eq(attrs[0].0, "particleSystemDefinitions"@) && attrs[0].1 is ElementArray {
        Some(attrs[0].1->ElementArray_0)
    } else {
        spec_root_definitions(attrs.drop_first())
    }
}

/// The indices of the elements whose class is `DmeParticleSystemDefinition`.
pub open spec fn spec_definition_scan(elements: Seq<DmxElementV>) -> Seq<u32>
    decreases elements.len(),
{
    if elements.len() == 0 {
        Seq::empty()
    } else {
        let rest = spec_definition_scan(elements.drop_last());
        if spec_ci_eq(elements.last().class_name, "DmeParticleSystemDefinition"@) {
            rest.push((elements.len() - 1) as u32)
        } else {
            rest
        }
    }
}

/// The definition list: the root's authoritative list when it has one,
/// else every element of the definition class.
pub open spec fn spec_definitions(doc: DmxDocumentV) -> Seq<u32> {
    if doc.elements.len() > 0 && spec_root_definitions(doc.elements[0].attributes) is Some {
        spec_flatten(spec_root_definitions(doc.elements[0].attributes)->0)
    } else {
        spec_definition_scan(doc.elements)
    }
}

/// The systems of the definitions `refs` (dangling ones dropped), with
/// system indices taken from the whole list `defs`.
pub open spec fn spec_systems(doc: DmxDocumentV, defs: Seq<u32>, refs: Seq<u32>) -> Seq<PcfSystemV>
    decreases refs.len(),
{
    if refs.len() == 0 {
        Seq::empty()
    } else {
        let rest = spec_systems(doc, defs, refs.drop_last());
        let r = refs.last();
        if r < doc.elements.len() {
            rest.push(spec_system(doc, defs, doc.elements[r as int]))
        } else {
            rest
        }
    }
}

/// The particle file a DMX document describes.
pub open spec fn spec_extract(doc: DmxDocumentV) -> PcfFileV {
    let defs = spec_definitions(doc);
    PcfFileV {
        encoding_version: doc.encoding_version,
        format_version: doc.format_version,
        systems: spec_systems(doc, defs, defs),
    }
}

/// A particle file's bytes, read.
pub open spec fn spec_parse_pcf(bytes: Seq<u8>) -> Result<PcfFileV, super::PcfError> {
    match super::dmx::sp_document(bytes) {
        Ok(doc) => Ok(spec_extract(doc)),
        Err(e) => Err(e),
    }
}

fn root_definitions(attributes: &Vec<(String, DmxValue)>) -> (r: Option<&Vec<Option<u32>>>)
    ensures
        match spec_root_definitions(super::dmx::dmx_attrs_view(attributes@)) {
            Some(refs) => r is Some && r->0@ == refs,
            None => r is None,
        },
{
    let ghost a = super::dmx::dmx_attrs_view(attributes@);
    let key = str_chars("particleSystemDefinitions");
    let mut i: usize = 0;
    assert(a.skip(0) =~= a);
    while i < attributes.len()
        invariant
            i <= attributes.len(),
            a == super::dmx::dmx_attrs_view(attributes@),
            key@ == "particleSystemDefinitions"@,
            spec_root_definitions(a) == spec_root_definitions(a.skip(i as int)),
        decreases attributes.len() - i,
    {
        let ghost rest = a.skip(i as int);
        assert(rest.drop_first() =~= a.skip(i + 1));
        assert(rest[0] == a[i as int]);
        let entry = &attributes[i];
        let name = str_chars(entry.0.as_str());
        if let DmxValue::ElementArray(refs) = &entry.1 {
            if ci_eq(name.as_slice(), key.as_slice()) {
                return Some(refs);
            }
        }
        i = i + 1;
    }
    None
}

fn definition_scan(elements: &Vec<DmxElement>) -> (r: Vec<u32>)
    ensures
        r@ == spec_definition_scan(Seq::new(elements@.len(), |i: int| elements@[i]@)),
{
    let ghost e = Seq::new(elements@.len(), |i: int| elements@[i]@);
    let key = str_chars("DmeParticleSystemDefinition");
    let mut out: Vec<u32> = Vec::new();
    let mut i: usize = 0;
    while i < elements.len()
        invariant
            i <= elements.len(),
            e == Seq::new(elements@.len(), |i: int| elements@[i]@),
            key@ == "DmeParticleSystemDefinition"@,
            out@ == spec_definition_scan(e.take(i as int)),
        decreases elements.len() - i,
    {
        assert(e.take(i + 1).drop_last() =~= e.take(i as int));
        let class_name = str_chars(elements[i].class_name.as_str());
        if ci_eq(class_name.as_slice(), key.as_slice()) {
            out.push(i as u32);
        }
        i = i + 1;
    }
    assert(e.take(i as int) =~= e);
    out
}

fn definition_indices(doc: &DmxDocument) -> (r: Vec<u32>)
    ensures
        r@ == spec_definitions(doc@),
{
    if doc.elements.len() > 0 {
        assert(doc@.elements[0] == doc.elements@[0]@);
        if let Some(refs) = root_definitions(&doc.elements[0].attributes) {
            return flatten_refs(refs);
        }
    }
    definition_scan(&doc.elements)
}

/// Pulls the particle systems out of a DMX document.
pub fn extract_particle_systems(doc: &DmxDocument) -> (r: PcfFile)
    ensures
        r@ == spec_extract(doc@),
{
    let defs = definition_indices(doc);
    let map = system_index_map(&defs);
    let ghost d = defs@;
    let mut systems: Vec<PcfSystem> = Vec::new();
    let mut i: usize = 0;
    while i < defs.len()
        invariant
            i <= defs.len(),
            d == defs@,
            map@ == spec_system_index_map(d),
            Seq::new(systems@.len(), |k: int| systems@[k]@) == spec_systems(doc@, d, d.take(i as int)),
        decreases defs.len() - i,
    {
        assert(d.take(i + 1).drop_last() =~= d.take(i as int));
        let r = defs[i];
        if (r as usize) < doc.elements.len() {
            let el = &doc.elements[r as usize];
            assert(doc@.elements[r as int] == el@);
            let system = extract_system(doc, Ghost(d), &map, el);
            let ghost before = systems@;
            systems.push(system);
            assert(Seq::new(systems@.len(), |k: int| systems@[k]@) =~= Seq::new(before.len(), |k: int| before[k]@).push(system@));
        }
        i = i + 1;
    }
    assert(d.take(i as int) =~= d);
    PcfFile { encoding_version: doc.encoding_version, format_version: doc.format_version, systems }
}

/// Reads a particle file.
pub fn parse_pcf(bytes: &[u8]) -> (r: Result<PcfFile, super::PcfError>)
    ensures
        match spec_parse_pcf(bytes@) {
            Ok(f) => r is Ok && r->Ok_0@ == f,
            Err(e) => r is Err && r->Err_0 == e,
        },
{
    let document = DmxDocument::parse(bytes)?;
    Ok(extract_particle_systems(&document))
}

/// The value `max_particles` takes when a system does not set it.
pub const DEFAULT_MAX_PARTICLES: u32 = 1000;

impl PcfSystem {
    /// The `material` base property, when it is a string.
    pub fn material(&self) -> (r: Option<&str>)
        ensures
            match attr_lookup(self@.attributes, "material"@) {
                Some(PcfValueV::String(s)) => r is Some && r->0@ == s,
                _ => r is None,
            },
    {
        self.attributes.get_string("material")
    }

    /// The `max_particles` base property clamped to 1..=50000, or 1000
    /// when the system does not give one.
    pub fn max_particles(&self) -> (r: u32)
        ensures
            r == (match attr_lookup(self@.attributes, "max_particles"@) {
                Some(v) => match super::spec_int(v) {
                    Some(n) => if n < 1 { 1 } else if n > 50000 { 50000 } else { n as u32 },
                    None => DEFAULT_MAX_PARTICLES,
                },
                None => DEFAULT_MAX_PARTICLES,
            }),
    {
        match self.attributes.get_int("max_particles") {
            Some(n) => if n < 1 {
                1
            } else if n > 50000 {
                50000
            } else {
                n as u32
            },
            None => DEFAULT_MAX_PARTICLES,
        }
    }
}

} // verus!
