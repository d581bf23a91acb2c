//! Source engine particle files (.pcf): binary DMX documents whose root
//! lists `DmeParticleSystemDefinition` elements. The DMX layer (`dmx`) is
//! generic; the particle layer (`extract`) pulls out systems, operator lists
//! and child references.
//!
//! Floating-point attributes are carried by their IEEE-754 bit patterns (and
//! DMX time by its fixed-point integer), exactly as the file stores them.
use vstd::prelude::*;

pub mod reader;
pub mod dmx;
pub mod extract;

pub use extract::{parse_pcf, PcfChild, PcfFile, PcfFunction, PcfSystem};



use crate::text::{ci_eq, spec_ci_eq, str_chars, spec_lower};

verus! {

/// Why a particle file was refused.
#[derive(Debug, Clone, Copy, PartialEq, Eq)]
pub enum PcfError {
    NotDmx,
    TextEncodingUnsupported,
    UnsupportedEncodingVersion(u32),
    Truncated,
    Malformed(&'static str),
}

/// A parsed particle attribute value. Float components are IEEE-754 single
/// precision bit patterns; `Time` is DMX's fixed point, ten-thousandths of a
/// second.
#[derive(Debug)]
pub enum PcfValue {
    Int(i32),
    Float(u32),
    Bool(bool),
    String(String),
    Binary(Vec<u8>),
    Time(i32),
    Color([u8; 4]),
    Vector2([u32; 2]),
    Vector3([u32; 3]),
    Vector4([u32; 4]),
    Angle([u32; 3]),
    Quaternion([u32; 4]),
    Matrix(Box<[u32; 16]>),
    Array(Vec<PcfValue>),
}

/// The mathematical content of a [`PcfValue`].
pub enum PcfValueV {
    Int(i32),
    Float(u32),
    Bool(bool),
    String(Seq<char>),
    Binary(Seq<u8>),
    Time(i32),
    Color(Seq<u8>),
    Vector2(Seq<u32>),
    Vector3(Seq<u32>),
    Vector4(Seq<u32>),
    Angle(Seq<u32>),
    Quaternion(Seq<u32>),
    Matrix(Seq<u32>),
    Array(Seq<PcfValueV>),
}

pub open spec fn value_view(v: PcfValue) -> PcfValueV
    decreases v,
{
    match v {
        PcfValue::Int(x) => PcfValueV::Int(x),
        PcfValue::Float(x) => PcfValueV::Float(x),
        PcfValue::Bool(x) => PcfValueV::Bool(x),
        PcfValue::String(x) => PcfValueV::String(x@),
        PcfValue::Binary(x) => PcfValueV::Binary(x@),
        PcfValue::Time(x) => PcfValueV::Time(x),
        PcfValue::Color(x) => PcfValueV::Color(x@),
        PcfValue::Vector2(x) => PcfValueV::Vector2(x@),
        PcfValue::Vector3(x) => PcfValueV::Vector3(x@),
        PcfValue::Vector4(x) => PcfValueV::Vector4(x@),
        PcfValue::Angle(x) => PcfValueV::Angle(x@),
        PcfValue::Quaternion(x) => PcfValueV::Quaternion(x@),
        PcfValue::Matrix(x) => PcfValueV::Matrix((*x)@),
        PcfValue::Array(x) => PcfValueV::Array(values_view(x@)),
    }
}

/// The views of a sequence of values, in order.
pub open spec fn values_view(s: Seq<PcfValue>) -> Seq<PcfValueV>
    decreases s,
{
    if s.len() == 0 {
        Seq::empty()
    } else {
        seq![value_view(s[0])] + values_view(s.drop_first())
    }
}

pub proof fn lemma_values_view(s: Seq<PcfValue>)
    ensures
        values_view(s).len() == s.len(),
        forall|i: int| 0 <= i < s.len() ==> #[trigger] values_view(s)[i] == value_view(s[i]),
    decreases s.len(),
{
    if s.len() > 0 {
        lemma_values_view(s.drop_first());
        assert forall|i: int| 0 <= i < s.len() implies #[trigger] values_view(s)[i] == value_view(
            s[i],
        ) by {
            if i > 0 {
                assert(s.drop_first()[i - 1] == s[i]);
            }
        }
    }
}

impl View for PcfValue {
    type V = PcfValueV;

    open spec fn view(&self) -> PcfValueV {
        value_view(*self)
    }
}

/// A numeric attribute as stored: the form `get_float` reads a number from.
#[derive(Debug, Clone, Copy, PartialEq, Eq)]
pub enum PcfNumber {
    /// IEEE-754 single precision bit pattern.
    Float(u32),
    /// Ten-thousandths of a second.
    Time(i32),
    Int(i32),
}

/// A deep copy of a value, with the same view.
pub fn copy_value(v: &PcfValue) -> (r: PcfValue)
    ensures
        r@ == v@,
    decreases v,
{
    match v {
        PcfValue::Int(x) => PcfValue::Int(*x),
        PcfValue::Float(x) => PcfValue::Float(*x),
        PcfValue::Bool(x) => PcfValue::Bool(*x),
        PcfValue::String(x) => PcfValue::String(x.clone()),
        PcfValue::Binary(x) => PcfValue::Binary(vstd::slice::slice_to_vec(x.as_slice())),
        PcfValue::Time(x) => PcfValue::Time(*x),
        PcfValue::Color(x) => PcfValue::Color(*x),
        PcfValue::Vector2(x) => PcfValue::Vector2(*x),
        PcfValue::Vector3(x) => PcfValue::Vector3(*x),
        PcfValue::Vector4(x) => PcfValue::Vector4(*x),
        PcfValue::Angle(x) => PcfValue::Angle(*x),
        PcfValue::Quaternion(x) => PcfValue::Quaternion(*x),
        PcfValue::Matrix(x) => {
            let m: [u32; 16] = **x;
            PcfValue::Matrix(Box::new(m))
        },
        PcfValue::Array(items) => {
            let mut out: Vec<PcfValue> = Vec::new();
            let mut i: usize = 0;
            proof {
                lemma_values_view(items@);
            }
            while i < items.len()
                invariant
                    *v == PcfValue::Array(*items),
                    i <= items@.len(),
                    out@.len() == i,
                    forall|k: int| 0 <= k < i ==> #[trigger] out@[k]@ == items@[k]@,
                    values_view(items@).len() == items@.len(),
                    forall|k: int|
                        0 <= k < items@.len() ==> #[trigger] values_view(items@)[k] == value_view(
                            items@[k],
                        ),
                decreases items@.len() - i,
            {
                proof {
                    assert(decreases_to!(*v => (*v)->Array_0));
                    assert((*v)->Array_0 == *items);
                    assert(decreases_to!(*items => items@));
                    assert(decreases_to!(items@ => items@[i as int]));
                }
                let c = copy_value(&items[i]);
                out.push(c);
                i = i + 1;
            }
            proof {
                lemma_values_view(out@);
                assert forall|k: int| 0 <= k < items@.len() implies values_view(out@)[k]
                    == values_view(items@)[k] by {
                    assert(out@[k]@ == items@[k]@);
                }
                assert(values_view(out@) =~= values_view(items@));
            }
            PcfValue::Array(out)
        },
    }
}

/// `2^n`.
pub open spec fn two_pow(n: nat) -> nat
    decreases n,
{
    if n == 0 {
        1
    } else {
        2 * two_pow((n - 1) as nat)
    }
}

/// Rust's `as i32` applied to the single-precision float with bits `bits`:
/// truncation toward zero, saturating at the `i32` bounds, with NaN giving 0.
pub open spec fn spec_f32_bits_as_i32(bits: u32) -> i32 {
    let negative = bits >= 0x8000_0000;
    let exponent = (bits / 0x80_0000) % 256;
    let mantissa = bits % 0x80_0000;
    if exponent == 255 && mantissa != 0 {
        0
    } else {
        let magnitude: int = if exponent < 127 {
            0
        } else if exponent >= 158 {
            0x8000_0000
        } else if exponent >= 150 {
            (mantissa + 0x80_0000) * two_pow((exponent - 150) as nat)
        } else {
            (mantissa + 0x80_0000) / (two_pow((150 - exponent) as nat) as int)
        };
        if negative {
            (-magnitude) as i32
        } else if magnitude >= 0x8000_0000 {
            0x7fff_ffff
        } else {
            magnitude as i32
        }
    }
}

/// `f32::from_bits(bits) as i32`, in integer arithmetic.
pub fn f32_bits_as_i32(bits: u32) -> (r: i32)
    ensures
        r == spec_f32_bits_as_i32(bits),
{
    let negative = bits >= 0x8000_0000;
    let exponent = (bits / 0x80_0000) % 256;
    let mantissa = bits % 0x80_0000;
    if exponent == 255 && mantissa != 0 {
        return 0;
    }
    if exponent < 127 {
        return 0;
    }
    if exponent >= 158 {
        return if negative {
            i32::MIN
        } else {
            i32::MAX
        };
    }
    let full: u64 = (mantissa + 0x80_0000) as u64;
    let magnitude: u64 = if exponent >= 150 {
        let shift = exponent - 150;
        let mut scaled = full;
        let mut k: u32 = 0;
        assert(two_pow(0) == 1);
        while k < shift
            invariant
                k <= shift <= 7,
                full < 0x100_0000,
                scaled == full * two_pow(k as nat),
                two_pow(k as nat) <= 128,
                scaled <= full * 128,
            decreases shift - k,
        {
            proof {
                assert(two_pow((k + 1) as nat) == 2 * two_pow(k as nat));
                assert(full * two_pow((k + 1) as nat) == 2 * (full * two_pow(k as nat))) by (nonlinear_arith);
                assert(k + 1 <= 7 ==> two_pow((k + 1) as nat) <= 128) by {
                    lemma_two_pow_bound((k + 1) as nat);
                };
                assert(full * two_pow((k + 1) as nat) <= full * 128) by (nonlinear_arith)
                    requires two_pow((k + 1) as nat) <= 128;
            }
            scaled = scaled * 2;
            k = k + 1;
        }
        scaled
    } else {
        let shift = 150 - exponent;
        let mut divisor: u64 = 1;
        let mut k: u32 = 0;
        assert(two_pow(0) == 1);
        while k < shift
            invariant
                k <= shift <= 23,
                divisor == two_pow(k as nat),
                divisor >= 1,
                divisor <= 0x80_0000,
            decreases shift - k,
        {
            proof {
                assert(two_pow((k + 1) as nat) == 2 * two_pow(k as nat));
                lemma_two_pow_bound((k + 1) as nat);
            }
            divisor = divisor * 2;
            k = k + 1;
        }
        full / divisor
    };
    proof {
        if exponent >= 150 {
            lemma_two_pow_bound((exponent - 150) as nat);
            assert(magnitude < 0x8000_0000) by (nonlinear_arith)
                requires
                    magnitude == full * two_pow((exponent - 150) as nat),
                    full < 0x100_0000,
                    exponent < 158,
                    two_pow((exponent - 150) as nat) <= two_pow(7),
                    two_pow(7) == 128,
            ;
        } else {
            lemma_two_pow_bound((150 - exponent) as nat);
        }
    }
    let m = magnitude as i32;
    if negative {
        -m
    } else {
        m
    }
}

/// `2^n` for small `n`, and that it only grows.
pub proof fn lemma_two_pow_bound(n: nat)
    ensures
        two_pow(n) >= 1,
        n <= 7 ==> two_pow(n) <= two_pow(7),
        two_pow(7) == 128,
        n <= 23 ==> two_pow(n) <= 0x80_0000,
    decreases n,
{
    reveal_with_fuel(two_pow, 8);
    if n > 0 {
        lemma_two_pow_bound((n - 1) as nat);
    }
    if n <= 23 {
        lemma_two_pow_monotone(n, 23);
        assert(two_pow(23) == 0x80_0000) by {
            reveal_with_fuel(two_pow, 24);
        }
    }
    if n <= 7 {
        lemma_two_pow_monotone(n, 7);
    }
}

pub proof fn lemma_two_pow_monotone(a: nat, b: nat)
    requires
        a <= b,
    ensures
        two_pow(a) <= two_pow(b),
    decreases b,
{
    if a < b {
        lemma_two_pow_monotone(a, (b - 1) as nat);
    }
}

/// Attribute bag with Source-style ASCII-case-insensitive, first-match
/// lookup.
#[derive(Debug)]
pub struct PcfAttributes {
    pub entries: Vec<(String, PcfValue)>,
}

/// The view of one named attribute.
pub open spec fn entry_view(e: (String, PcfValue)) -> (Seq<char>, PcfValueV) {
    (e.0@, e.1@)
}

/// Index of the first entry whose name equals `name` ignoring ASCII case.
pub open spec fn first_named(entries: Seq<(Seq<char>, PcfValueV)>, name: Seq<char>) -> Option<int>
    decreases entries.len(),
{
    if entries.len() == 0 {
        None
    } else if spec_ci_eq(entries[0].0, name) {
        Some(0)
    } else {
        match first_named(entries.drop_first(), name) {
            Some(i) => Some(i + 1),
            None => None,
        }
    }
}

pub proof fn lemma_first_named(entries: Seq<(Seq<char>, PcfValueV)>, name: Seq<char>)
    ensures
        first_named(entries, name) matches Some(i) ==> 0 <= i < entries.len() && spec_ci_eq(
            entries[i].0,
            name,
        ) && forall|j: int| 0 <= j < i ==> !spec_ci_eq(#[trigger] entries[j].0, name),
        first_named(entries, name) is None ==> forall|j: int|
            0 <= j < entries.len() ==> !spec_ci_eq(#[trigger] entries[j].0, name),
    decreases entries.len(),
{
    if entries.len() > 0 {
        let rest = entries.drop_first();
        lemma_first_named(rest, name);
        if !spec_ci_eq(entries[0].0, name) {
            assert forall|j: int|
                0 <= j < entries.len() && (first_named(entries, name) is None || j
                    < first_named(entries, name)->0) implies !spec_ci_eq(
                #[trigger] entries[j].0,
                name,
            ) by {
                if j > 0 {
                    assert(entries[j] == rest[j - 1]);
                }
            }
            if let Some(i) = first_named(rest, name) {
                assert(entries[i + 1] == rest[i]);
            }
        }
    }
}

impl View for PcfAttributes {
    type V = Seq<(Seq<char>, PcfValueV)>;

    open spec fn view(&self) -> Seq<(Seq<char>, PcfValueV)> {
        Seq::new(self.entries@.len(), |i: int| entry_view(self.entries@[i]))
    }
}

/// The value `name` looks up in `attrs`, if any.
pub open spec fn attr_lookup(attrs: Seq<(Seq<char>, PcfValueV)>, name: Seq<char>) -> Option<PcfValueV> {
    match first_named(attrs, name) {
        Some(i) => Some(attrs[i].1),
        None => None,
    }
}

/// Appending an attribute never changes what an earlier name looks up:
/// lookup is first-match, so a later entry cannot shadow an earlier one.
pub proof fn lemma_push_keeps_lookup(
    attrs: Seq<(Seq<char>, PcfValueV)>,
    entry: (Seq<char>, PcfValueV),
    name: Seq<char>,
)
    requires
        attr_lookup(attrs, name) is Some,
    ensures
        attr_lookup(attrs.push(entry), name) == attr_lookup(attrs, name),
{
    lemma_first_named(attrs, name);
    lemma_first_named(attrs.push(entry), name);
    let i = first_named(attrs, name)->0;
    assert(attrs.push(entry)[i] == attrs[i]);
    if let Some(k) = first_named(attrs.push(entry), name) {
        if k < i {
            assert(attrs.push(entry)[k] == attrs[k]);
        }
        if k > i {
            assert(!spec_ci_eq(attrs.push(entry)[i].0, name));
        }
    }
}

/// What `get_float` reads from a value.
pub open spec fn spec_number(v: PcfValueV) -> Option<PcfNumber> {
    match v {
        PcfValueV::Float(x) => Some(PcfNumber::Float(x)),
        PcfValueV::Time(x) => Some(PcfNumber::Time(x)),
        PcfValueV::Int(x) => Some(PcfNumber::Int(x)),
        _ => None,
    }
}

/// What `get_int` reads from a value.
pub open spec fn spec_int(v: PcfValueV) -> Option<i32> {
    match v {
        PcfValueV::Int(x) => Some(x),
        PcfValueV::Float(x) => Some(spec_f32_bits_as_i32(x)),
        _ => None,
    }
}

/// What `get_bool` reads from a value.
pub open spec fn spec_bool(v: PcfValueV) -> Option<bool> {
    match v {
        PcfValueV::Bool(x) => Some(x),
        PcfValueV::Int(x) => Some(x != 0),
        _ => None,
    }
}

impl PcfAttributes {
    pub fn new() -> (r: Self)
        ensures
            r@ == Seq::<(Seq<char>, PcfValueV)>::empty(),
    {
        let r = PcfAttributes { entries: Vec::new() };
        assert(r@ =~= Seq::<(Seq<char>, PcfValueV)>::empty());
        r
    }

    /// Appends an attribute; it never shadows an earlier one of the same
    /// name, since lookup is first-match.
    pub fn push(&mut self, name: String, value: PcfValue)
        ensures
            final(self)@ == old(self)@.push((name@, value@)),
    {
        self.entries.push((name, value));
        assert(self@ =~= old(self)@.push((name@, value@)));
    }

    pub fn get(&self, name: &str) -> (r: Option<&PcfValue>)
        ensures
            match attr_lookup(self@, name@) {
                Some(v) => r is Some && r->0@ == v,
                None => r is None,
            },
    {
        let key = str_chars(name);
        let mut i: usize = 0;
        while i < self.entries.len()
            invariant
                i <= self.entries@.len(),
                key@ == name@,
                forall|j: int| 0 <= j < i ==> !spec_ci_eq(#[trigger] self@[j].0, name@),
            decreases self.entries@.len() - i,
        {
            let entry_name = str_chars(self.entries[i].0.as_str());
            assert(self@[i as int].0 == entry_name@);
            if ci_eq(entry_name.as_slice(), key.as_slice()) {
                proof {
                    assert(spec_ci_eq(self@[i as int].0, name@));
                    lemma_first_named(self@, name@);
                    assert(self@[i as int] == entry_view(self.entries@[i as int]));
                    if let Some(k) = first_named(self@, name@) {
                        assert(k == i);
                    }
                }
                return Some(&self.entries[i].1);
            }
            i = i + 1;
        }
        proof {
            lemma_first_named(self@, name@);
        }
        None
    }

    /// The number stored under `name`, as `Float` or `Time` bits or an
    /// `Int`; converting it to a float is the caller's.
    pub fn get_float(&self, name: &str) -> (r: Option<PcfNumber>)
        ensures
            r == (match attr_lookup(self@, name@) {
                Some(v) => spec_number(v),
                None => None,
            }),
    {
        match self.get(name) {
            Some(PcfValue::Float(v)) => Some(PcfNumber::Float(*v)),
            Some(PcfValue::Time(v)) => Some(PcfNumber::Time(*v)),
            Some(PcfValue::Int(v)) => Some(PcfNumber::Int(*v)),
            _ => None,
        }
    }

    pub fn get_int(&self, name: &str) -> (r: Option<i32>)
        ensures
            r == (match attr_lookup(self@, name@) {
                Some(v) => spec_int(v),
                None => None,
            }),
    {
        match self.get(name) {
            Some(PcfValue::Int(v)) => Some(*v),
            Some(PcfValue::Float(v)) => Some(f32_bits_as_i32(*v)),
            _ => None,
        }
    }

    pub fn get_bool(&self, name: &str) -> (r: Option<bool>)
        ensures
            r == (match attr_lookup(self@, name@) {
                Some(v) => spec_bool(v),
                None => None,
            }),
    {
        match self.get(name) {
            Some(PcfValue::Bool(v)) => Some(*v),
            Some(PcfValue::Int(v)) => Some(*v != 0),
            _ => None,
        }
    }

    pub fn get_string(&self, name: &str) -> (r: Option<&str>)
        ensures
            match attr_lookup(self@, name@) {
                Some(PcfValueV::String(s)) => r is Some && r->0@ == s,
                _ => r is None,
            },
    {
        match self.get(name) {
            Some(PcfValue::String(v)) => Some(v.as_str()),
            _ => None,
        }
    }

    /// A `Vector3` or `Angle`, by component bits.
    pub fn get_vector3(&self, name: &str) -> (r: Option<[u32; 3]>)
        ensures
            match attr_lookup(self@, name@) {
                Some(PcfValueV::Vector3(s)) => r is Some && r->0@ == s,
                Some(PcfValueV::Angle(s)) => r is Some && r->0@ == s,
                _ => r is None,
            },
    {
        match self.get(name) {
            Some(PcfValue::Vector3(v)) => Some(*v),
            Some(PcfValue::Angle(v)) => Some(*v),
            _ => None,
        }
    }

    pub fn get_color(&self, name: &str) -> (r: Option<[u8; 4]>)
        ensures
            match attr_lookup(self@, name@) {
                Some(PcfValueV::Color(s)) => r is Some && r->0@ == s,
                _ => r is None,
            },
    {
        match self.get(name) {
            Some(PcfValue::Color(v)) => Some(*v),
            _ => None,
        }
    }

    /// Every attribute, in file order.
    pub fn iter(&self) -> (r: Vec<(&str, &PcfValue)>)
        ensures
            r@.len() == self@.len(),
            forall|i: int| 0 <= i < r@.len() ==> (#[trigger] r@[i]).0@ == self@[i].0 && r@[i].1@ == self@[i].1,
    {
        let mut out: Vec<(&str, &PcfValue)> = Vec::new();
        let mut i: usize = 0;
        while i < self.entries.len()
            invariant
                i <= self.entries@.len(),
                out@.len() == i,
                forall|k: int| 0 <= k < i ==> (#[trigger] out@[k]).0@ == self@[k].0 && out@[k].1@ == self@[k].1,
            decreases self.entries@.len() - i,
        {
            let entry = &self.entries[i];
            out.push((entry.0.as_str(), &entry.1));
            i = i + 1;
        }
        out
    }

    pub fn len(&self) -> (r: usize)
        ensures
            r == self@.len(),
    {
        self.entries.len()
    }

    pub fn is_empty(&self) -> (r: bool)
        ensures
            r == (self@.len() == 0),
    {
        self.entries.len() == 0
    }
}

} // verus!
