//! The binary DMX grammar: a `<!-- dmx encoding binary N format ... -->`
//! header line, an optional string dictionary (encoding 2 and up), element
//! headers, then one attribute list per element. `sp_document` states the
//! grammar as a function of the input bytes; `DmxDocument::parse` reads it.
use vstd::prelude::*;

use super::reader::{Reader, read_as, sp_check_count, sp_cstr, sp_i32, sp_take, sp_u16, sp_u32, sp_u8, le_u32};
use super::{PcfError, PcfValue, PcfValueV, values_view, lemma_values_view, value_view};
use crate::text::{
    chars_eq, parse_int, spec_parse_int, spec_tokens, split_tokens, str_chars,
};

verus! {

/// An attribute value as DMX stores it: an element reference (`None` for a
/// null or external one), a plain value, or an array of references.
#[derive(Debug)]
pub enum DmxValue {
    Element(Option<u32>),
    Value(PcfValue),
    ElementArray(Vec<Option<u32>>),
}

pub enum DmxValueV {
    Element(Option<u32>),
    Value(PcfValueV),
    ElementArray(Seq<Option<u32>>),
}

impl View for DmxValue {
    type V = DmxValueV;

    open spec fn view(&self) -> DmxValueV {
        match self {
            DmxValue::Element(r) => DmxValueV::Element(*r),
            DmxValue::Value(v) => DmxValueV::Value(v@),
            DmxValue::ElementArray(refs) => DmxValueV::ElementArray(refs@),
        }
    }
}

#[derive(Debug)]
pub struct DmxElement {
    pub class_name: String,
    pub name: String,
    pub attributes: Vec<(String, DmxValue)>,
}

pub struct DmxElementV {
    pub class_name: Seq<char>,
    pub name: Seq<char>,
    pub attributes: Seq<(Seq<char>, DmxValueV)>,
}

/// The view of a list of named DMX attributes.
pub open spec fn dmx_attrs_view(a: Seq<(String, DmxValue)>) -> Seq<(Seq<char>, DmxValueV)> {
    Seq::new(a.len(), |i: int| (a[i].0@, a[i].1@))
}

impl View for DmxElement {
    type V = DmxElementV;

    open spec fn view(&self) -> DmxElementV {
        DmxElementV {
            class_name: self.class_name@,
            name: self.name@,
            attributes: dmx_attrs_view(self.attributes@),
        }
    }
}

pub struct DmxDocument {
    pub encoding_version: u32,
    pub format_version: u32,
    pub elements: Vec<DmxElement>,
}

pub struct DmxDocumentV {
    pub encoding_version: u32,
    pub format_version: u32,
    pub elements: Seq<DmxElementV>,
}

impl View for DmxDocument {
    type V = DmxDocumentV;

    open spec fn view(&self) -> DmxDocumentV {
        DmxDocumentV {
            encoding_version: self.encoding_version,
            format_version: self.format_version,
            elements: Seq::new(self.elements@.len(), |i: int| self.elements@[i]@),
        }
    }
}

/// The views of a sequence of strings.
pub open spec fn strings_view(v: Seq<String>) -> Seq<Seq<char>> {
    Seq::new(v.len(), |i: int| v[i]@)
}

/// The string dictionary: its strings, and whether references to it are
/// 32-bit (encoding 5 and up) rather than 16-bit.
pub struct StringDict {
    pub strings: Vec<String>,
    pub wide_index: bool,
}

pub struct DictV {
    pub strings: Seq<Seq<char>>,
    pub wide: bool,
}

impl View for StringDict {
    type V = DictV;

    open spec fn view(&self) -> DictV {
        DictV { strings: strings_view(self.strings@), wide: self.wide_index }
    }
}

pub open spec fn dict_view_owned(d: Option<StringDict>) -> Option<DictV> {
    match d {
        Some(d) => Some(d@),
        None => None,
    }
}

pub open spec fn dict_view(d: Option<&StringDict>) -> Option<DictV> {
    match d {
        Some(d) => Some(d@),
        None => None,
    }
}

// --- the grammar -------------------------------------------------------

/// A `u32` count, or a `u16` one widened when `wide` is false.
pub open spec fn sp_count_prefix(s: Seq<u8>, p: int, wide: bool) -> Result<(u32, int), PcfError> {
    if wide {
        sp_u32(s, p)
    } else {
        match sp_u16(s, p) {
            Ok((v, q)) => Ok((v as u32, q)),
            Err(e) => Err(e),
        }
    }
}

/// `n` null-terminated strings in a row.
pub open spec fn sp_cstrs(s: Seq<u8>, p: int, n: nat) -> Result<(Seq<Seq<char>>, int), PcfError>
    decreases n,
{
    if n == 0 {
        Ok((Seq::empty(), p))
    } else {
        match sp_cstr(s, p) {
            Err(e) => Err(e),
            Ok((x, q)) => match sp_cstrs(s, q, (n - 1) as nat) {
                Err(e) => Err(e),
                Ok((xs, r)) => Ok((seq![x] + xs, r)),
            },
        }
    }
}

/// The dictionary of encoding `ev`: absent before encoding 2, else a count
/// (32-bit from encoding 4) and that many strings.
pub open spec fn sp_dict(s: Seq<u8>, p: int, ev: u32) -> Result<(Option<DictV>, int), PcfError> {
    if ev < 2 {
        Ok((None, p))
    } else {
        match sp_count_prefix(s, p, ev >= 4) {
            Err(e) => Err(e),
            Ok((c, q)) => match sp_check_count(s, q, c, 1) {
                Err(e) => Err(e),
                Ok(n) => match sp_cstrs(s, q, n as nat) {
                    Err(e) => Err(e),
                    Ok((strings, r)) => Ok((Some(DictV { strings, wide: ev >= 5 }), r)),
                },
            },
        }
    }
}

/// A dictionary reference and the string it names.
pub open spec fn sp_dict_get(d: DictV, s: Seq<u8>, p: int) -> Result<(Seq<char>, int), PcfError> {
    match sp_count_prefix(s, p, d.wide) {
        Err(e) => Err(e),
        Ok((i, q)) => if i < d.strings.len() {
            Ok((d.strings[i as int], q))
        } else {
            Err(PcfError::Malformed("string table index out of range"))
        },
    }
}

/// A string that is a dictionary reference when there is a dictionary, and
/// inline otherwise.
pub open spec fn sp_dict_string(s: Seq<u8>, p: int, dict: Option<DictV>) -> Result<
    (Seq<char>, int),
    PcfError,
> {
    match dict {
        Some(d) => sp_dict_get(d, s, p),
        None => sp_cstr(s, p),
    }
}

/// The index of the first token equal to `k`.
pub open spec fn sp_position(t: Seq<Seq<char>>, k: Seq<char>) -> Option<int>
    decreases t.len(),
{
    if t.len() == 0 {
        None
    } else if t[0] == k {
        Some(0)
    } else {
        match sp_position(t.drop_first(), k) {
            Some(i) => Some(i + 1),
            None => None,
        }
    }
}

pub proof fn lemma_position(t: Seq<Seq<char>>, k: Seq<char>)
    ensures
        sp_position(t, k) matches Some(i) ==> 0 <= i < t.len() && t[i] == k,
    decreases t.len(),
{
    if t.len() > 0 && t[0] != k {
        lemma_position(t.drop_first(), k);
    }
}

/// The header line `<!-- dmx encoding E V format F W -->`: the encoding
/// name, its version, and the format version (0 when unreadable). Any other
/// shape is not DMX.
pub open spec fn spec_parse_header(h: Seq<char>) -> Result<(Seq<char>, u32, u32), PcfError> {
    let t = spec_tokens(h, true);
    if t.len() < 2 || t[0] != "<!--"@ || t[1] != "dmx"@ {
        Err(PcfError::NotDmx)
    } else {
        match (sp_position(t, "encoding"@), sp_position(t, "format"@)) {
            (Some(e), Some(f)) => {
                let ev = if e + 2 < t.len() {
                    spec_parse_int(t[e + 2], 0, 0xffff_ffff)
                } else {
                    None
                };
                let fv = if f + 2 < t.len() {
                    match spec_parse_int(t[f + 2], 0, 0xffff_ffff) {
                        Some(v) => v as u32,
                        None => 0,
                    }
                } else {
                    0
                };
                if e + 1 < t.len() && ev is Some {
                    Ok((t[e + 1], ev->0 as u32, fv))
                } else {
                    Err(PcfError::NotDmx)
                }
            },
            _ => Err(PcfError::NotDmx),
        }
    }
}

/// An element reference: `-1` is null, `-2` an external stub followed by a
/// GUID string (both `None`), other negatives are malformed.
pub open spec fn sp_element_ref(s: Seq<u8>, p: int) -> Result<(Option<u32>, int), PcfError> {
    match sp_i32(s, p) {
        Err(e) => Err(e),
        Ok((i, q)) => if i == -1 {
            Ok((None, q))
        } else if i == -2 {
            match sp_cstr(s, q) {
                Err(e) => Err(e),
                Ok((_, r)) => Ok((None, r)),
            }
        } else if i >= 0 {
            Ok((Some(i as u32), q))
        } else {
            Err(PcfError::Malformed("negative element reference"))
        },
    }
}

/// `n` consecutive element references.
pub open spec fn sp_refs(s: Seq<u8>, p: int, n: nat) -> Result<(Seq<Option<u32>>, int), PcfError>
    decreases n,
{
    if n == 0 {
        Ok((Seq::empty(), p))
    } else {
        match sp_element_ref(s, p) {
            Err(e) => Err(e),
            Ok((x, q)) => match sp_refs(s, q, (n - 1) as nat) {
                Err(e) => Err(e),
                Ok((xs, r)) => Ok((seq![x] + xs, r)),
            },
        }
    }
}

/// `n` little-endian 32-bit words.
pub open spec fn sp_words(s: Seq<u8>, p: int, n: nat) -> Result<(Seq<u32>, int), PcfError> {
    if p + 4 * n <= s.len() {
        Ok((Seq::new(n, |i: int| le_u32(s, p + 4 * i)), p + 4 * n))
    } else {
        Err(PcfError::Truncated)
    }
}

/// A scalar of type `tid`. Type 7 is a 16-byte object id before encoding 3
/// and fixed-point time from then on; a string is a dictionary reference
/// from encoding 4 on, except inside arrays.
pub open spec fn sp_scalar(
    s: Seq<u8>,
    p: int,
    dict: Option<DictV>,
    ev: u32,
    tid: u8,
    in_array: bool,
) -> Result<(PcfValueV, int), PcfError> {
    if tid == 2 {
        match sp_i32(s, p) {
            Ok((v, q)) => Ok((PcfValueV::Int(v), q)),
            Err(e) => Err(e),
        }
    } else if tid == 3 {
        match sp_u32(s, p) {
            Ok((v, q)) => Ok((PcfValueV::Float(v), q)),
            Err(e) => Err(e),
        }
    } else if tid == 4 {
        match sp_u8(s, p) {
            Ok((v, q)) => Ok((PcfValueV::Bool(v != 0), q)),
            Err(e) => Err(e),
        }
    } else if tid == 5 {
        let r = if ev >= 4 && !in_array && dict is Some {
            sp_dict_get(dict->0, s, p)
        } else {
            sp_cstr(s, p)
        };
        match r {
            Ok((v, q)) => Ok((PcfValueV::String(v), q)),
            Err(e) => Err(e),
        }
    } else if tid == 6 {
        match sp_u32(s, p) {
            Err(e) => Err(e),
            Ok((len, q)) => match sp_check_count(s, q, len, 1) {
                Err(e) => Err(e),
                Ok(n) => match sp_take(s, q, n) {
                    Err(e) => Err(e),
                    Ok(r) => Ok((PcfValueV::Binary(s.subrange(q, r)), r)),
                },
            },
        }
    } else if tid == 7 && ev < 3 {
        match sp_take(s, p, 16) {
            Err(e) => Err(e),
            Ok(r) => Ok((PcfValueV::Binary(s.subrange(p, r)), r)),
        }
    } else if tid == 7 {
        match sp_i32(s, p) {
            Ok((v, q)) => Ok((PcfValueV::Time(v), q)),
            Err(e) => Err(e),
        }
    } else if tid == 8 {
        match sp_take(s, p, 4) {
            Err(e) => Err(e),
            Ok(r) => Ok((PcfValueV::Color(s.subrange(p, r)), r)),
        }
    } else if 9 <= tid <= 14 {
        match sp_words(s, p, word_count(tid)) {
            Err(e) => Err(e),
            Ok((w, q)) => Ok((words_value(tid, w), q)),
        }
    } else {
        Err(PcfError::Malformed("unknown attribute type"))
    }
}

/// How many 32-bit words a vector-like type `tid` (9 to 14) holds.
pub open spec fn word_count(tid: u8) -> nat {
    if tid == 9 {
        2
    } else if tid == 10 || tid == 12 {
        3
    } else if tid == 14 {
        16
    } else {
        4
    }
}

/// The value of vector-like type `tid` made of words `w`.
pub open spec fn words_value(tid: u8, w: Seq<u32>) -> PcfValueV {
    if tid == 9 {
        PcfValueV::Vector2(w)
    } else if tid == 10 {
        PcfValueV::Vector3(w)
    } else if tid == 11 {
        PcfValueV::Vector4(w)
    } else if tid == 12 {
        PcfValueV::Angle(w)
    } else if tid == 13 {
        PcfValueV::Quaternion(w)
    } else {
        PcfValueV::Matrix(w)
    }
}

/// `n` consecutive array scalars of type `sid`.
pub open spec fn sp_scalars(
    s: Seq<u8>,
    p: int,
    dict: Option<DictV>,
    ev: u32,
    sid: u8,
    n: nat,
) -> Result<(Seq<PcfValueV>, int), PcfError>
    decreases n,
{
    if n == 0 {
        Ok((Seq::empty(), p))
    } else {
        match sp_scalar(s, p, dict, ev, sid, true) {
            Err(e) => Err(e),
            Ok((x, q)) => match sp_scalars(s, q, dict, ev, sid, (n - 1) as nat) {
                Err(e) => Err(e),
                Ok((xs, r)) => Ok((seq![x] + xs, r)),
            },
        }
    }
}

/// An attribute value of type `tid`: 1 is an element reference, 2 to 14
/// scalars, and 15 to 28 arrays of the type 14 less (15 being an array of
/// element references).
pub open spec fn sp_value(s: Seq<u8>, p: int, dict: Option<DictV>, ev: u32, tid: u8) -> Result<
    (DmxValueV, int),
    PcfError,
> {
    if tid == 0 || tid > 28 {
        Err(PcfError::Malformed("unknown attribute type"))
    } else if tid > 14 {
        match sp_u32(s, p) {
            Err(e) => Err(e),
            Ok((c, q)) => match sp_check_count(s, q, c, 1) {
                Err(e) => Err(e),
                Ok(n) => if tid == 15 {
                    match sp_refs(s, q, n as nat) {
                        Err(e) => Err(e),
                        Ok((refs, r)) => Ok((DmxValueV::ElementArray(refs), r)),
                    }
                } else {
                    match sp_scalars(s, q, dict, ev, (tid - 14) as u8, n as nat) {
                        Err(e) => Err(e),
                        Ok((vals, r)) => Ok((DmxValueV::Value(PcfValueV::Array(vals)), r)),
                    }
                },
            },
        }
    } else if tid == 1 {
        match sp_element_ref(s, p) {
            Err(e) => Err(e),
            Ok((r, q)) => Ok((DmxValueV::Element(r), q)),
        }
    } else {
        match sp_scalar(s, p, dict, ev, tid, false) {
            Err(e) => Err(e),
            Ok((v, q)) => Ok((DmxValueV::Value(v), q)),
        }
    }
}

/// `n` element headers: type name, name (inline before encoding 4) and a
/// 16-byte GUID that is skipped.
pub open spec fn sp_headers(s: Seq<u8>, p: int, dict: Option<DictV>, ev: u32, n: nat) -> Result<
    (Seq<(Seq<char>, Seq<char>)>, int),
    PcfError,
>
    decreases n,
{
    if n == 0 {
        Ok((Seq::empty(), p))
    } else {
        match sp_dict_string(s, p, dict) {
            Err(e) => Err(e),
            Ok((ty, q1)) => match (if ev >= 4 {
                sp_dict_string(s, q1, dict)
            } else {
                sp_cstr(s, q1)
            }) {
                Err(e) => Err(e),
                Ok((nm, q2)) => match sp_take(s, q2, 16) {
                    Err(e) => Err(e),
                    Ok(q3) => match sp_headers(s, q3, dict, ev, (n - 1) as nat) {
                        Err(e) => Err(e),
                        Ok((rest, q4)) => Ok((seq![(ty, nm)] + rest, q4)),
                    },
                },
            },
        }
    }
}

/// `m` attributes: name, type byte, value.
pub open spec fn sp_attrs(s: Seq<u8>, p: int, dict: Option<DictV>, ev: u32, m: nat) -> Result<
    (Seq<(Seq<char>, DmxValueV)>, int),
    PcfError,
>
    decreases m,
{
    if m == 0 {
        Ok((Seq::empty(), p))
    } else {
        match sp_dict_string(s, p, dict) {
            Err(e) => Err(e),
            Ok((name, q1)) => match sp_u8(s, q1) {
                Err(e) => Err(e),
                Ok((tid, q2)) => match sp_value(s, q2, dict, ev, tid) {
                    Err(e) => Err(e),
                    Ok((v, q3)) => match sp_attrs(s, q3, dict, ev, (m - 1) as nat) {
                        Err(e) => Err(e),
                        Ok((rest, q4)) => Ok((seq![(name, v)] + rest, q4)),
                    },
                },
            },
        }
    }
}

/// One attribute list: a count (at least three bytes per attribute) and
/// the attributes.
pub open spec fn sp_body(s: Seq<u8>, p: int, dict: Option<DictV>, ev: u32) -> Result<
    (Seq<(Seq<char>, DmxValueV)>, int),
    PcfError,
> {
    match sp_u32(s, p) {
        Err(e) => Err(e),
        Ok((c, q)) => match sp_check_count(s, q, c, 3) {
            Err(e) => Err(e),
            Ok(m) => sp_attrs(s, q, dict, ev, m as nat),
        },
    }
}

/// `n` attribute lists in a row.
pub open spec fn sp_bodies(s: Seq<u8>, p: int, dict: Option<DictV>, ev: u32, n: nat) -> Result<
    (Seq<Seq<(Seq<char>, DmxValueV)>>, int),
    PcfError,
>
    decreases n,
{
    if n == 0 {
        Ok((Seq::empty(), p))
    } else {
        match sp_body(s, p, dict, ev) {
            Err(e) => Err(e),
            Ok((x, q)) => match sp_bodies(s, q, dict, ev, (n - 1) as nat) {
                Err(e) => Err(e),
                Ok((xs, r)) => Ok((seq![x] + xs, r)),
            },
        }
    }
}

/// The whole binary DMX document.
pub open spec fn sp_document(s: Seq<u8>) -> Result<DmxDocumentV, PcfError> {
    match sp_cstr(s, 0) {
        Err(e) => Err(e),
        Ok((h, p1)) => match spec_parse_header(h) {
            Err(e) => Err(e),
            Ok((enc, ev, fv)) => if enc != "binary"@ {
                Err(PcfError::TextEncodingUnsupported)
            } else if !(1 <= ev <= 5) {
                Err(PcfError::UnsupportedEncodingVersion(ev))
            } else {
                match sp_dict(s, p1, ev) {
                    Err(e) => Err(e),
                    Ok((dict, p2)) => match sp_u32(s, p2) {
                        Err(e) => Err(e),
                        Ok((c, p3)) => match sp_check_count(s, p3, c, 18) {
                            Err(e) => Err(e),
                            Ok(n) => sp_elements(s, p3, dict, ev, fv, n as nat),
                        },
                    },
                }
            },
        },
    }
}

/// The element headers and then the attribute lists of `n` elements.
pub open spec fn sp_elements(s: Seq<u8>, p: int, dict: Option<DictV>, ev: u32, fv: u32, n: nat) -> Result<
    DmxDocumentV,
    PcfError,
> {
    match sp_headers(s, p, dict, ev, n) {
        Err(e) => Err(e),
        Ok((hs, q)) => match sp_bodies(s, q, dict, ev, n) {
            Err(e) => Err(e),
            Ok((bodies, _)) => Ok(assemble(ev, fv, n, hs, bodies)),
        },
    }
}

/// The document whose elements pair header `i` with attribute list `i`.
pub open spec fn assemble(
    ev: u32,
    fv: u32,
    n: nat,
    hs: Seq<(Seq<char>, Seq<char>)>,
    bodies: Seq<Seq<(Seq<char>, DmxValueV)>>,
) -> DmxDocumentV {
    DmxDocumentV {
        encoding_version: ev,
        format_version: fv,
        elements: Seq::new(
            n,
            |i: int| DmxElementV { class_name: hs[i].0, name: hs[i].1, attributes: bodies[i] },
        ),
    }
}

/// Parse results of the same shape are lists of known length.
pub proof fn lemma_list_lengths(s: Seq<u8>, p: int, dict: Option<DictV>, ev: u32, n: nat)
    ensures
        sp_headers(s, p, dict, ev, n) matches Ok((h, _)) ==> h.len() == n,
        sp_bodies(s, p, dict, ev, n) matches Ok((b, _)) ==> b.len() == n,
    decreases n,
{
    if n > 0 {
        reveal_with_fuel(sp_headers, 1);
        reveal_with_fuel(sp_bodies, 1);
        if let Ok((_, q1)) = sp_dict_string(s, p, dict) {
            if let Ok((_, q2)) = (if ev >= 4 {
                sp_dict_string(s, q1, dict)
            } else {
                sp_cstr(s, q1)
            }) {
                if let Ok(q3) = sp_take(s, q2, 16) {
                    lemma_list_lengths(s, q3, dict, ev, (n - 1) as nat);
                }
            }
        }
        if let Ok((_, q)) = sp_body(s, p, dict, ev) {
            lemma_list_lengths(s, q, dict, ev, (n - 1) as nat);
        }
    }
}

// --- reading -------------------------------------------------------------

/// `new` is `old` after a read whose expected outcome is `expect`, compared
/// by view.
pub open spec fn read_as_v<T: View>(
    old: Reader,
    new: Reader,
    r: Result<T, PcfError>,
    expect: Result<(T::V, int), PcfError>,
) -> bool {
    &&& new.bytes@ == old.bytes@
    &&& new.wf()
    &&& match expect {
        Ok((v, q)) => r is Ok && r->Ok_0@ == v && new.pos == q,
        Err(e) => r is Err && r->Err_0 == e,
    }
}

fn read_count_prefix(reader: &mut Reader, wide: bool) -> (r: Result<u32, PcfError>)
    requires
        old(reader).wf(),
    ensures
        read_as(
            *old(reader),
            *final(reader),
            r,
            sp_count_prefix(old(reader).bytes@, old(reader).pos as int, wide),
        ),
{
    if wide {
        reader.u32()
    } else {
        let v = reader.u16()?;
        Ok(v as u32)
    }
}

impl StringDict {
    /// The dictionary of encoding `encoding_version`, if it has one.
    pub fn read(reader: &mut Reader, encoding_version: u32) -> (r: Result<Option<Self>, PcfError>)
        requires
            old(reader).wf(),
        ensures
            final(reader).bytes@ == old(reader).bytes@,
            final(reader).wf(),
            match sp_dict(old(reader).bytes@, old(reader).pos as int, encoding_version) {
                Ok((d, q)) => r is Ok && dict_view_owned(r->Ok_0) == d && final(reader).pos == q,
                Err(e) => r is Err && r->Err_0 == e,
            },
    {
        if encoding_version < 2 {
            return Ok(None);
        }
        let count = read_count_prefix(reader, encoding_version >= 4)?;
        let count = reader.check_count(count, 1)?;
        let ghost s = reader.bytes@;
        let ghost p0 = reader.pos as int;
        let mut strings: Vec<String> = Vec::new();
        let mut i: usize = 0;
        proof {
            assert(strings_view(strings@) =~= Seq::<Seq<char>>::empty());
            if let Ok((rest, q)) = sp_cstrs(s, p0, count as nat) {
                assert(Seq::<Seq<char>>::empty() + rest =~= rest);
            }
        }
        while i < count
            invariant
                reader.wf(),
                s == old(reader).bytes@,
                sp_dict(s, old(reader).pos as int, encoding_version) == match sp_cstrs(s, p0, count as nat) {
                    Ok((strings, r)) => Ok((Some(DictV { strings, wide: encoding_version >= 5 }), r)),
                    Err(e) => Err::<(Option<DictV>, int), PcfError>(e),
                },
                reader.bytes@ == s,
                i <= count,
                sp_cstrs(s, p0, count as nat) == match sp_cstrs(s, reader.pos as int, (count - i) as nat) {
                    Ok((rest, q)) => Ok((strings_view(strings@) + rest, q)),
                    Err(e) => Err::<(Seq<Seq<char>>, int), PcfError>(e),
                },
            decreases count - i,
        {
            let ghost before = strings_view(strings@);
            let ghost p = reader.pos as int;
            let x = reader.cstr()?;
            proof {
                assert(strings_view(strings@.push(x)) =~= before.push(x@));
                if let Ok((xs, q)) = sp_cstrs(s, reader.pos as int, (count - i - 1) as nat) {
                    assert(before + (seq![x@] + xs) =~= before.push(x@) + xs);
                }
            }
            strings.push(x);
            i = i + 1;
        }
        proof {
            assert(strings_view(strings@) + Seq::<Seq<char>>::empty() =~= strings_view(strings@));
            assert(Seq::<Seq<char>>::empty() + Seq::<Seq<char>>::empty() =~= Seq::<Seq<char>>::empty());
        }
        Ok(Some(StringDict { strings, wide_index: encoding_version >= 5 }))
    }

    /// The string a dictionary reference names.
    pub fn get(&self, reader: &mut Reader) -> (r: Result<String, PcfError>)
        requires
            old(reader).wf(),
        ensures
            read_as_v(
                *old(reader),
                *final(reader),
                r,
                sp_dict_get(self@, old(reader).bytes@, old(reader).pos as int),
            ),
    {
        let index = read_count_prefix(reader, self.wide_index)?;
        if (index as usize) < self.strings.len() {
            Ok(self.strings[index as usize].clone())
        } else {
            Err(PcfError::Malformed("string table index out of range"))
        }
    }
}

/// A dictionary reference when there is a dictionary, an inline string
/// otherwise.
fn read_dict_string(reader: &mut Reader, dict: Option<&StringDict>) -> (r: Result<String, PcfError>)
    requires
        old(reader).wf(),
    ensures
        read_as_v(
            *old(reader),
            *final(reader),
            r,
            sp_dict_string(old(reader).bytes@, old(reader).pos as int, dict_view(dict)),
        ),
{
    match dict {
        Some(dict) => dict.get(reader),
        None => reader.cstr(),
    }
}

/// The views of a sequence of char vectors.
pub open spec fn chars_view(v: Seq<Vec<char>>) -> Seq<Seq<char>> {
    Seq::new(v.len(), |i: int| v[i]@)
}

/// The position of the first token equal to `k`.
fn token_position(tokens: &Vec<Vec<char>>, k: &[char]) -> (r: Option<usize>)
    ensures
        match sp_position(chars_view(tokens@), k@) {
            Some(i) => r == Some(i as usize) && 0 <= i < tokens@.len(),
            None => r is None,
        },
{
    proof {
        lemma_position(chars_view(tokens@), k@);
    }
    let ghost t = chars_view(tokens@);
    let mut i: usize = 0;
    assert(t.skip(0) =~= t);
    while i < tokens.len()
        invariant
            i <= tokens@.len(),
            t == chars_view(tokens@),
            sp_position(t, k@) == match sp_position(t.skip(i as int), k@) {
                Some(j) => Some(j + i),
                None => None,
            },
        decreases tokens@.len() - i,
    {
        proof {
            let rest = t.skip(i as int);
            assert(rest[0] == tokens@[i as int]@);
            assert(rest.drop_first() =~= t.skip(i + 1));
        }
        if chars_eq(tokens[i].as_slice(), k) {
            return Some(i);
        }
        i = i + 1;
    }
    proof {
        assert(t.skip(i as int).len() == 0);
    }
    None
}

/// Reads the header line (see `spec_parse_header`).
pub fn parse_header(header: &str) -> (r: Result<(String, u32, u32), PcfError>)
    ensures
        match spec_parse_header(header@) {
            Ok((e, ev, fv)) => r is Ok && r->Ok_0.0@ == e && r->Ok_0.1 == ev && r->Ok_0.2 == fv,
            Err(err) => r is Err && r->Err_0 == err,
        },
{
    let chars = str_chars(header);
    let tokens = split_tokens(chars.as_slice(), true);
    let ghost t = spec_tokens(header@, true);
    proof {
        assert(chars_view(tokens@) =~= t);
    }
    if tokens.len() < 2 {
        return Err(PcfError::NotDmx);
    }
    let open_tag = str_chars("<!--");
    let dmx_tag = str_chars("dmx");
    if !chars_eq(tokens[0].as_slice(), open_tag.as_slice()) || !chars_eq(
        tokens[1].as_slice(),
        dmx_tag.as_slice(),
    ) {
        return Err(PcfError::NotDmx);
    }
    let encoding_word = str_chars("encoding");
    let format_word = str_chars("format");
    let encoding_at = match token_position(&tokens, encoding_word.as_slice()) {
        Some(i) => i,
        None => {
            return Err(PcfError::NotDmx);
        },
    };
    let format_at = match token_position(&tokens, format_word.as_slice()) {
        Some(i) => i,
        None => {
            return Err(PcfError::NotDmx);
        },
    };
    proof {
        assert(encoding_word@ == "encoding"@);
        assert(format_word@ == "format"@);
        assert(chars_view(tokens@) == t);
        assert(sp_position(chars_view(tokens@), encoding_word@) == Some(encoding_at as int));
        assert(sp_position(t, "encoding"@) == Some(encoding_at as int));
        assert(sp_position(t, "format"@) == Some(format_at as int));
    }
    if encoding_at >= tokens.len() - 1 {
        return Err(PcfError::NotDmx);
    }
    let encoding = crate::text::string_from_chars(tokens[encoding_at + 1].as_slice());
    if encoding_at >= tokens.len() - 2 {
        return Err(PcfError::NotDmx);
    }
    let encoding_version = match parse_int(tokens[encoding_at + 2].as_slice(), 0, 0xffff_ffff) {
        Some(v) => v as u32,
        None => {
            return Err(PcfError::NotDmx);
        },
    };
    let format_version = if format_at < tokens.len() - 2 {
        match parse_int(tokens[format_at + 2].as_slice(), 0, 0xffff_ffff) {
            Some(v) => v as u32,
            None => 0,
        }
    } else {
        0
    };
    Ok((encoding, encoding_version, format_version))
}


/// An element reference (see `sp_element_ref`).
fn element_ref(reader: &mut Reader) -> (r: Result<Option<u32>, PcfError>)
    requires
        old(reader).wf(),
    ensures
        read_as(*old(reader), *final(reader), r, sp_element_ref(old(reader).bytes@, old(reader).pos as int)),
{
    let index = reader.i32()?;
    if index == -1 {
        Ok(None)
    } else if index == -2 {
        let _ = reader.cstr()?;
        Ok(None)
    } else if index >= 0 {
        Ok(Some(index as u32))
    } else {
        Err(PcfError::Malformed("negative element reference"))
    }
}

/// `n` little-endian 32-bit words.
fn read_words(reader: &mut Reader, n: usize) -> (r: Result<Vec<u32>, PcfError>)
    requires
        old(reader).wf(),
        n <= 16,
    ensures
        read_as_v(*old(reader), *final(reader), r, sp_words(old(reader).bytes@, old(reader).pos as int, n as nat)),
{
    let ghost s = reader.bytes@;
    let ghost p = reader.pos as int;
    let mut out: Vec<u32> = Vec::new();
    let mut k: usize = 0;
    while k < n
        invariant
            reader.wf(),
            reader.bytes@ == s,
            s == old(reader).bytes@,
            p == old(reader).pos,
            k <= n <= 16,
            reader.pos == p + 4 * k,
            out@ =~= Seq::new(k as nat, |i: int| le_u32(s, p + 4 * i)),
        decreases n - k,
    {
        let v = reader.u32()?;
        out.push(v);
        k = k + 1;
    }
    Ok(out)
}

/// A scalar value of type `tid` (see `sp_scalar`).
fn read_scalar(
    reader: &mut Reader,
    dict: Option<&StringDict>,
    encoding_version: u32,
    type_id: u8,
    in_array: bool,
) -> (r: Result<PcfValue, PcfError>)
    requires
        old(reader).wf(),
    ensures
        read_as_v(
            *old(reader),
            *final(reader),
            r,
            sp_scalar(old(reader).bytes@, old(reader).pos as int, dict_view(dict), encoding_version, type_id, in_array),
        ),
{
    if type_id == 2 {
        Ok(PcfValue::Int(reader.i32()?))
    } else if type_id == 3 {
        Ok(PcfValue::Float(reader.u32()?))
    } else if type_id == 4 {
        Ok(PcfValue::Bool(reader.u8()? != 0))
    } else if type_id == 5 {
        let use_dict = encoding_version >= 4 && !in_array;
        match (use_dict, dict) {
            (true, Some(dict)) => Ok(PcfValue::String(dict.get(reader)?)),
            _ => Ok(PcfValue::String(reader.cstr()?)),
        }
    } else if type_id == 6 {
        let len = reader.u32()?;
        let len = reader.check_count(len, 1)?;
        let bytes = reader.take(len)?;
        Ok(PcfValue::Binary(vstd::slice::slice_to_vec(bytes)))
    } else if type_id == 7 && encoding_version < 3 {
        let guid = reader.take(16)?;
        Ok(PcfValue::Binary(vstd::slice::slice_to_vec(guid)))
    } else if type_id == 7 {
        Ok(PcfValue::Time(reader.i32()?))
    } else if type_id == 8 {
        let rgba = reader.take(4)?;
        let color: [u8; 4] = [rgba[0], rgba[1], rgba[2], rgba[3]];
        assert(color@ =~= rgba@);
        Ok(PcfValue::Color(color))
    } else if 9 <= type_id && type_id <= 14 {
        let count: usize = if type_id == 9 {
            2
        } else if type_id == 10 || type_id == 12 {
            3
        } else if type_id == 14 {
            16
        } else {
            4
        };
        let w = read_words(reader, count)?;
        if type_id == 9 {
            let a: [u32; 2] = [w[0], w[1]];
            assert(a@ =~= w@);
            Ok(PcfValue::Vector2(a))
        } else if type_id == 10 || type_id == 12 {
            let a: [u32; 3] = [w[0], w[1], w[2]];
            assert(a@ =~= w@);
            if type_id == 10 {
                Ok(PcfValue::Vector3(a))
            } else {
                Ok(PcfValue::Angle(a))
            }
        } else if type_id == 14 {
            let a: [u32; 16] = [
                w[0],
                w[1],
                w[2],
                w[3],
                w[4],
                w[5],
                w[6],
                w[7],
                w[8],
                w[9],
                w[10],
                w[11],
                w[12],
                w[13],
                w[14],
                w[15],
            ];
            assert(a@ =~= w@);
            Ok(PcfValue::Matrix(Box::new(a)))
        } else {
            let a: [u32; 4] = [w[0], w[1], w[2], w[3]];
            assert(a@ =~= w@);
            if type_id == 11 {
                Ok(PcfValue::Vector4(a))
            } else {
                Ok(PcfValue::Quaternion(a))
            }
        }
    } else {
        Err(PcfError::Malformed("unknown attribute type"))
    }
}

/// An attribute value of type `tid` (see `sp_value`).
fn read_value(
    reader: &mut Reader,
    dict: Option<&StringDict>,
    encoding_version: u32,
    type_id: u8,
) -> (r: Result<DmxValue, PcfError>)
    requires
        old(reader).wf(),
    ensures
        read_as_v(
            *old(reader),
            *final(reader),
            r,
            sp_value(old(reader).bytes@, old(reader).pos as int, dict_view(dict), encoding_version, type_id),
        ),
{
    let ghost s = reader.bytes@;
    let ghost d = dict_view(dict);
    if type_id == 0 || type_id > 28 {
        return Err(PcfError::Malformed("unknown attribute type"));
    }
    if type_id > 14 {
        let scalar_id = type_id - 14;
        let count = reader.u32()?;
        let count = reader.check_count(count, 1)?;
        let ghost p0 = reader.pos as int;
        if scalar_id == 1 {
            let mut refs: Vec<Option<u32>> = Vec::new();
            let mut i: usize = 0;
            proof {
                if let Ok((rest, q)) = sp_refs(s, p0, count as nat) {
                    assert(refs@ + rest =~= rest);
                }
            }
            while i < count
                invariant
                    reader.wf(),
                    reader.bytes@ == s,
                    s == old(reader).bytes@,
                    d == dict_view(dict),
                    sp_value(s, old(reader).pos as int, d, encoding_version, type_id) == match sp_refs(s, p0, count as nat) {
                        Ok((refs, r)) => Ok((DmxValueV::ElementArray(refs), r)),
                        Err(e) => Err::<(DmxValueV, int), PcfError>(e),
                    },
                    i <= count,
                    sp_refs(s, p0, count as nat) == match sp_refs(s, reader.pos as int, (count - i) as nat) {
                        Ok((rest, q)) => Ok((refs@ + rest, q)),
                        Err(e) => Err::<(Seq<Option<u32>>, int), PcfError>(e),
                    },
                decreases count - i,
            {
                let x = element_ref(reader)?;
                proof {
                    if let Ok((xs, q)) = sp_refs(s, reader.pos as int, (count - i - 1) as nat) {
                        assert(refs@ + (seq![x] + xs) =~= refs@.push(x) + xs);
                    }
                }
                refs.push(x);
                i = i + 1;
            }
            proof {
                assert(refs@ + Seq::<Option<u32>>::empty() =~= refs@);
            }
            return Ok(DmxValue::ElementArray(refs));
        }
        let mut values: Vec<PcfValue> = Vec::new();
        let mut i: usize = 0;
        proof {
            lemma_values_view(values@);
            if let Ok((rest, q)) = sp_scalars(s, p0, d, encoding_version, scalar_id, count as nat) {
                assert(values_view(values@) + rest =~= rest);
            }
        }
        while i < count
            invariant
                reader.wf(),
                reader.bytes@ == s,
                d == dict_view(dict),
                s == old(reader).bytes@,
                sp_value(s, old(reader).pos as int, d, encoding_version, type_id) == match sp_scalars(s, p0, d, encoding_version, scalar_id, count as nat) {
                    Ok((vals, r)) => Ok((DmxValueV::Value(PcfValueV::Array(vals)), r)),
                    Err(e) => Err::<(DmxValueV, int), PcfError>(e),
                },
                i <= count,
                sp_scalars(s, p0, d, encoding_version, scalar_id, count as nat) == match sp_scalars(
                    s,
                    reader.pos as int,
                    d,
                    encoding_version,
                    scalar_id,
                    (count - i) as nat,
                ) {
                    Ok((rest, q)) => Ok((values_view(values@) + rest, q)),
                    Err(e) => Err::<(Seq<PcfValueV>, int), PcfError>(e),
                },
            decreases count - i,
        {
            let x = read_scalar(reader, dict, encoding_version, scalar_id, true)?;
            proof {
                lemma_values_view(values@);
                lemma_values_view(values@.push(x));
                assert(values_view(values@.push(x)) =~= values_view(values@).push(x@));
                if let Ok((xs, q)) = sp_scalars(s, reader.pos as int, d, encoding_version, scalar_id, (count - i - 1) as nat) {
                    assert(values_view(values@) + (seq![x@] + xs) =~= values_view(values@).push(x@) + xs);
                }
            }
            values.push(x);
            i = i + 1;
        }
        proof {
            assert(values_view(values@) + Seq::<PcfValueV>::empty() =~= values_view(values@));
        }
        return Ok(DmxValue::Value(PcfValue::Array(values)));
    }
    if type_id == 1 {
        return Ok(DmxValue::Element(element_ref(reader)?));
    }
    Ok(DmxValue::Value(read_scalar(reader, dict, encoding_version, type_id, false)?))
}


/// The views of element headers.
pub open spec fn headers_view(v: Seq<(String, String)>) -> Seq<(Seq<char>, Seq<char>)> {
    Seq::new(v.len(), |i: int| (v[i].0@, v[i].1@))
}

/// `n` element headers (see `sp_headers`).
fn read_headers(reader: &mut Reader, dict: Option<&StringDict>, encoding_version: u32, n: usize) -> (r: Result<
    Vec<(String, String)>,
    PcfError,
>)
    requires
        old(reader).wf(),
    ensures
        final(reader).bytes@ == old(reader).bytes@,
        final(reader).wf(),
        match sp_headers(old(reader).bytes@, old(reader).pos as int, dict_view(dict), encoding_version, n as nat) {
            Ok((hs, q)) => r is Ok && headers_view(r->Ok_0@) == hs && final(reader).pos == q,
            Err(e) => r is Err && r->Err_0 == e,
        },
{
    let ghost s = reader.bytes@;
    let ghost p0 = reader.pos as int;
    let ghost d = dict_view(dict);
    let mut headers: Vec<(String, String)> = Vec::new();
    let mut i: usize = 0;
    proof {
        if let Ok((rest, q)) = sp_headers(s, p0, d, encoding_version, n as nat) {
            assert(headers_view(headers@) + rest =~= rest);
        }
    }
    while i < n
        invariant
            reader.wf(),
            reader.bytes@ == s,
            s == old(reader).bytes@,
            p0 == old(reader).pos,
            d == dict_view(dict),
            i <= n,
            sp_headers(s, p0, d, encoding_version, n as nat) == match sp_headers(s, reader.pos as int, d, encoding_version, (n - i) as nat) {
                Ok((rest, q)) => Ok((headers_view(headers@) + rest, q)),
                Err(e) => Err::<(Seq<(Seq<char>, Seq<char>)>, int), PcfError>(e),
            },
        decreases n - i,
    {
        let class_name = read_dict_string(reader, dict)?;
        let name = if encoding_version >= 4 {
            read_dict_string(reader, dict)?
        } else {
            reader.cstr()?
        };
        let _ = reader.take(16)?;
        proof {
            let x = (class_name@, name@);
            assert(headers_view(headers@.push((class_name, name))) =~= headers_view(headers@).push(x));
            if let Ok((xs, q)) = sp_headers(s, reader.pos as int, d, encoding_version, (n - i - 1) as nat) {
                assert(headers_view(headers@) + (seq![x] + xs) =~= headers_view(headers@).push(x) + xs);
            }
        }
        headers.push((class_name, name));
        i = i + 1;
    }
    proof {
        assert(headers_view(headers@) + Seq::<(Seq<char>, Seq<char>)>::empty() =~= headers_view(headers@));
    }
    Ok(headers)
}

/// One attribute list (see `sp_body`).
fn read_body(reader: &mut Reader, dict: Option<&StringDict>, encoding_version: u32) -> (r: Result<
    Vec<(String, DmxValue)>,
    PcfError,
>)
    requires
        old(reader).wf(),
    ensures
        final(reader).bytes@ == old(reader).bytes@,
        final(reader).wf(),
        match sp_body(old(reader).bytes@, old(reader).pos as int, dict_view(dict), encoding_version) {
            Ok((attrs, q)) => r is Ok && dmx_attrs_view(r->Ok_0@) == attrs && final(reader).pos == q,
            Err(e) => r is Err && r->Err_0 == e,
        },
{
    let ghost s = reader.bytes@;
    let ghost d = dict_view(dict);
    let count = reader.u32()?;
    let count = reader.check_count(count, 3)?;
    let ghost p0 = reader.pos as int;
    let mut attributes: Vec<(String, DmxValue)> = Vec::new();
    let mut i: usize = 0;
    proof {
        if let Ok((rest, q)) = sp_attrs(s, p0, d, encoding_version, count as nat) {
            assert(dmx_attrs_view(attributes@) + rest =~= rest);
        }
    }
    while i < count
        invariant
            reader.wf(),
            reader.bytes@ == s,
            s == old(reader).bytes@,
            d == dict_view(dict),
            sp_body(s, old(reader).pos as int, d, encoding_version) == sp_attrs(s, p0, d, encoding_version, count as nat),
            i <= count,
            sp_attrs(s, p0, d, encoding_version, count as nat) == match sp_attrs(s, reader.pos as int, d, encoding_version, (count - i) as nat) {
                Ok((rest, q)) => Ok((dmx_attrs_view(attributes@) + rest, q)),
                Err(e) => Err::<(Seq<(Seq<char>, DmxValueV)>, int), PcfError>(e),
            },
        decreases count - i,
    {
        let name = read_dict_string(reader, dict)?;
        let type_id = reader.u8()?;
        let value = read_value(reader, dict, encoding_version, type_id)?;
        proof {
            let x = (name@, value@);
            assert(dmx_attrs_view(attributes@.push((name, value))) =~= dmx_attrs_view(attributes@).push(x));
            if let Ok((xs, q)) = sp_attrs(s, reader.pos as int, d, encoding_version, (count - i - 1) as nat) {
                assert(dmx_attrs_view(attributes@) + (seq![x] + xs) =~= dmx_attrs_view(attributes@).push(x) + xs);
            }
        }
        attributes.push((name, value));
        i = i + 1;
    }
    proof {
        assert(dmx_attrs_view(attributes@) + Seq::<(Seq<char>, DmxValueV)>::empty() =~= dmx_attrs_view(attributes@));
    }
    Ok(attributes)
}

/// The document once the headers `hs` are read and the attribute lists start at `p`.
#[verifier::opaque]
pub open spec fn sp_document_from_bodies(
    s: Seq<u8>,
    p: int,
    dict: Option<DictV>,
    ev: u32,
    fv: u32,
    n: nat,
    hs: Seq<(Seq<char>, Seq<char>)>,
) -> Result<DmxDocumentV, PcfError> {
    match sp_bodies(s, p, dict, ev, n) {
        Err(e) => Err(e),
        Ok((bodies, _)) => Ok(assemble(ev, fv, n, hs, bodies)),
    }
}

proof fn lemma_prepend_empty<A>(s: Seq<A>)
    ensures
        Seq::<A>::empty() + s == s,
{
    assert(Seq::<A>::empty() + s =~= s);
}

proof fn lemma_append_empty<A>(s: Seq<A>)
    ensures
        s + Seq::<A>::empty() == s,
{
    assert(s + Seq::<A>::empty() =~= s);
}

proof fn lemma_push_concat<A>(s: Seq<A>, x: A, rest: Seq<A>)
    ensures
        s + (seq![x] + rest) == s.push(x) + rest,
{
    assert(s + (seq![x] + rest) =~= s.push(x) + rest);
}

impl DmxDocument {
    /// Reads a whole binary DMX document (see `sp_document`).
    #[verifier::rlimit(60)]
    pub fn parse(bytes: &[u8]) -> (r: Result<Self, PcfError>)
        ensures
            match sp_document(bytes@) {
                Ok(d) => r is Ok && r->Ok_0@ == d,
                Err(e) => r is Err && r->Err_0 == e,
            },
    {
        let mut reader = Reader::new(bytes);
        let ghost s = bytes@;
        let header = reader.cstr()?;
        let (encoding, encoding_version, format_version) = parse_header(header.as_str())?;
        let binary = str_chars("binary");
        let encoding_chars = str_chars(encoding.as_str());
        if !chars_eq(encoding_chars.as_slice(), binary.as_slice()) {
            return Err(PcfError::TextEncodingUnsupported);
        }
        if !(1 <= encoding_version && encoding_version <= 5) {
            return Err(PcfError::UnsupportedEncodingVersion(encoding_version));
        }
        let dict = StringDict::read(&mut reader, encoding_version)?;
        let dict_ref = dict.as_ref();
        let ghost d = dict_view(dict_ref);
        let element_count = reader.u32()?;
        let element_count = reader.check_count(element_count, 18)?;
        let ghost p3 = reader.pos as int;
        assert(sp_document(s) == sp_elements(s, p3, d, encoding_version, format_version, element_count as nat));
        let headers = read_headers(&mut reader, dict_ref, encoding_version, element_count)?;
        let ghost hs = headers_view(headers@);
        let ghost p4 = reader.pos as int;
        assert(sp_document(s) == sp_document_from_bodies(s, p4, d, encoding_version, format_version, element_count as nat, hs)) by {
            reveal(sp_document_from_bodies);
        }
        proof {
            lemma_list_lengths(s, p3, d, encoding_version, element_count as nat);
            lemma_list_lengths(s, p4, d, encoding_version, element_count as nat);
        }
        let mut elements: Vec<DmxElement> = Vec::new();
        let mut j: usize = 0;
        let ghost mut acc: Seq<Seq<(Seq<char>, DmxValueV)>> = Seq::empty();
        proof {
            if let Ok((rest, q)) = sp_bodies(s, p4, d, encoding_version, element_count as nat) {
                lemma_prepend_empty(rest);
            }
        }
        while j < element_count
            invariant
                reader.wf(),
                reader.bytes@ == s,
                s == bytes@,
                d == dict_view(dict_ref),
                j <= element_count,
                headers@.len() == element_count,
                hs == headers_view(headers@),
                elements@.len() == j,
                acc.len() == j,
                sp_document(s) == sp_document_from_bodies(s, p4, d, encoding_version, format_version, element_count as nat, hs),
                forall|k: int| 0 <= k < j ==> (#[trigger] elements@[k])@ == (DmxElementV {
                    class_name: hs[k].0,
                    name: hs[k].1,
                    attributes: acc[k],
                }),
                sp_bodies(s, p4, d, encoding_version, element_count as nat) == match sp_bodies(s, reader.pos as int, d, encoding_version, (element_count - j) as nat) {
                    Ok((rest, q)) => Ok((acc + rest, q)),
                    Err(e) => Err::<(Seq<Seq<(Seq<char>, DmxValueV)>>, int), PcfError>(e),
                },
            decreases element_count - j,
        {
            let ghost before = reader.pos as int;
            let attributes = match read_body(&mut reader, dict_ref, encoding_version) {
                Ok(a) => a,
                Err(e) => {
                    proof {
                        reveal(sp_document_from_bodies);
                        assert(sp_bodies(s, before, d, encoding_version, (element_count - j) as nat) == Err::<(Seq<Seq<(Seq<char>, DmxValueV)>>, int), PcfError>(e));
                    }
                    return Err(e);
                },
            };
            let class_name = headers[j].0.clone();
            let name = headers[j].1.clone();
            let element = DmxElement { class_name, name, attributes };
            proof {
                let x = element@.attributes;
                if let Ok((xs, q)) = sp_bodies(s, reader.pos as int, d, encoding_version, (element_count - j - 1) as nat) {
                    lemma_push_concat(acc, x, xs);
                }
                acc = acc.push(x);
            }
            elements.push(element);
            j = j + 1;
        }
        let doc = DmxDocument { encoding_version, format_version, elements };
        proof {
            lemma_append_empty(acc);
            reveal(sp_document_from_bodies);
            let expected = assemble(encoding_version, format_version, element_count as nat, hs, acc);
            assert(doc@.elements =~= expected.elements);
        }
        Ok(doc)
    }
}

} // verus!
