//! Immutable scientific data objects and their identifiers.

use vstd::prelude::*;

verus! {

/// Relies on `uuid::Uuid::new_v4` and `Uuid::as_u128`: a random version-4
/// identifier, whose version nibble is always 4.
#[verifier::external_body]
pub(crate) fn random_v4_u128() -> (r: u128)
    ensures
        (r >> 76u128) & 0xfu128 == 4u128,
{
    uuid::Uuid::new_v4().as_u128()
}

/// Globally unique 128-bit identifier of an object.
#[derive(Debug, Clone, Copy, PartialEq, Eq, Hash, Structural)]
pub struct ObjectId(pub u128);

impl ObjectId {
    /// A fresh random identifier.
    pub fn new() -> (r: Self)
        ensures
            (r.0 >> 76u128) & 0xfu128 == 4u128,
    {
        ObjectId(random_v4_u128())
    }

    pub fn from_u128(v: u128) -> (r: Self)
        ensures
            r.0 == v,
    {
        ObjectId(v)
    }

    pub fn as_u128(&self) -> (r: u128)
        ensures
            r == self.0,
    {
        self.0
    }
}

/// Kind tag of an object.
#[derive(Debug, Clone, Copy, PartialEq, Eq, Hash, Structural)]
pub enum ObjectType {
    Unknown,
    Empty,
    Placeholder,
    Points,
    Lines,
    Triangles,
    Polygons,
    UnstructuredGrid,
    UniformGrid,
    RectilinearGrid,
    StructuredGrid,
    Quads,
    Vec,
}

/// The display name of each kind.
pub open spec fn object_type_name(t: ObjectType) -> Seq<char> {
    match t {
        ObjectType::Unknown => "Unknown"@,
        ObjectType::Empty => "Empty"@,
        ObjectType::Placeholder => "Placeholder"@,
        ObjectType::Points => "Points"@,
        ObjectType::Lines => "Lines"@,
        ObjectType::Triangles => "Triangles"@,
        ObjectType::Polygons => "Polygons"@,
        ObjectType::UnstructuredGrid => "UnstructuredGrid"@,
        ObjectType::UniformGrid => "UniformGrid"@,
        ObjectType::RectilinearGrid => "RectilinearGrid"@,
        ObjectType::StructuredGrid => "StructuredGrid"@,
        ObjectType::Quads => "Quads"@,
        ObjectType::Vec => "Vec"@,
    }
}

/// The numeric type code of each kind.
pub open spec fn object_type_code_spec(t: ObjectType) -> u32 {
    match t {
        ObjectType::Unknown => 0,
        ObjectType::Empty => 1,
        ObjectType::Placeholder => 11,
        ObjectType::Points => 18,
        ObjectType::Lines => 20,
        ObjectType::Triangles => 22,
        ObjectType::Polygons => 23,
        ObjectType::UnstructuredGrid => 24,
        ObjectType::UniformGrid => 25,
        ObjectType::RectilinearGrid => 26,
        ObjectType::StructuredGrid => 27,
        ObjectType::Quads => 28,
        ObjectType::Vec => 100,
    }
}

impl ObjectType {
    pub fn as_str(&self) -> (r: &'static str)
        ensures
            r@ == object_type_name(*self),
    {
        match self {
            ObjectType::Unknown => "Unknown",
            ObjectType::Empty => "Empty",
            ObjectType::Placeholder => "Placeholder",
            ObjectType::Points => "Points",
            ObjectType::Lines => "Lines",
            ObjectType::Triangles => "Triangles",
            ObjectType::Polygons => "Polygons",
            ObjectType::UnstructuredGrid => "UnstructuredGrid",
            ObjectType::UniformGrid => "UniformGrid",
            ObjectType::RectilinearGrid => "RectilinearGrid",
            ObjectType::StructuredGrid => "StructuredGrid",
            ObjectType::Quads => "Quads",
            ObjectType::Vec => "Vec",
        }
    }

    pub fn code(&self) -> (r: u32)
        ensures
            r == object_type_code_spec(*self),
    {
        match self {
            ObjectType::Unknown => 0,
            ObjectType::Empty => 1,
            ObjectType::Placeholder => 11,
            ObjectType::Points => 18,
            ObjectType::Lines => 20,
            ObjectType::Triangles => 22,
            ObjectType::Polygons => 23,
            ObjectType::UnstructuredGrid => 24,
            ObjectType::UniformGrid => 25,
            ObjectType::RectilinearGrid => 26,
            ObjectType::StructuredGrid => 27,
            ObjectType::Quads => 28,
            ObjectType::Vec => 100,
        }
    }

    pub fn from_code(c: u32) -> (r: Option<ObjectType>)
        ensures
            r matches Some(t) ==> object_type_code_spec(t) == c,
            (exists|t: ObjectType| object_type_code_spec(t) == c) ==> r is Some,
    {
        match c {
            0 => Some(ObjectType::Unknown),
            1 => Some(ObjectType::Empty),
            11 => Some(ObjectType::Placeholder),
            18 => Some(ObjectType::Points),
            20 => Some(ObjectType::Lines),
            22 => Some(ObjectType::Triangles),
            23 => Some(ObjectType::Polygons),
            24 => Some(ObjectType::UnstructuredGrid),
            25 => Some(ObjectType::UniformGrid),
            26 => Some(ObjectType::RectilinearGrid),
            27 => Some(ObjectType::StructuredGrid),
            28 => Some(ObjectType::Quads),
            100 => Some(ObjectType::Vec),
            _ => None,
        }
    }
}

/// Metadata block of an object. Floating-point quantities are held as their
/// IEEE-754 bit patterns.
#[derive(Debug, Clone, PartialEq, Eq)]
pub struct ObjectMeta {
    pub block: i32,
    pub num_blocks: i32,
    pub timestep: i32,
    pub num_timesteps: i32,
    pub iteration: i32,
    pub generation: i32,
    pub creator: i32,
    /// Bits of the `f64` real-world time.
    pub real_time_bits: u64,
    /// Bits of the sixteen `f32` entries of the 4x4 transform, column-major.
    pub transform_bits: Vec<u32>,
}

/// Bits of `1.0f32`.
pub const F32_ONE_BITS: u32 = 0x3f80_0000;

/// Bits of the 4x4 identity matrix, column-major.
pub open spec fn identity_transform_bits() -> Seq<u32> {
    seq![
        F32_ONE_BITS, 0u32, 0u32, 0u32,
        0u32, F32_ONE_BITS, 0u32, 0u32,
        0u32, 0u32, F32_ONE_BITS, 0u32,
        0u32, 0u32, 0u32, F32_ONE_BITS
    ]
}

impl ObjectMeta {
    /// Block 0 of 1, timestep 0 of 1, zero counters, identity transform.
    pub fn new() -> (r: Self)
        ensures
            r.block == 0 && r.num_blocks == 1 && r.timestep == 0 && r.num_timesteps == 1,
            r.iteration == 0 && r.generation == 0 && r.creator == 0 && r.real_time_bits == 0,
            r.transform_bits@ == identity_transform_bits(),
    {
        let mut t: Vec<u32> = Vec::new();
        let mut i: usize = 0;
        while i < 16
            invariant
                0 <= i <= 16,
                t@.len() == i,
                forall|j: int| 0 <= j < i ==> #[trigger] t@[j] == identity_transform_bits()[j],
            decreases 16 - i,
        {
            if i % 5 == 0 {
                t.push(F32_ONE_BITS);
            } else {
                t.push(0);
            }
            i += 1;
        }
        assert(t@ =~= identity_transform_bits());
        ObjectMeta {
            block: 0,
            num_blocks: 1,
            timestep: 0,
            num_timesteps: 1,
            iteration: 0,
            generation: 0,
            creator: 0,
            real_time_bits: 0,
            transform_bits: t,
        }
    }
}

/// Whether the bits encode an `f64` NaN.
pub open spec fn f64_is_nan(bits: u64) -> bool {
    (bits / 0x10_0000_0000_0000) % 2048 == 2047 && bits % 0x10_0000_0000_0000 != 0
}

/// Position of a non-NaN `f64` on the number line.
pub open spec fn f64_order_key(bits: u64) -> int {
    if bits >= 0x8000_0000_0000_0000 {
        -((bits - 0x8000_0000_0000_0000) as int)
    } else {
        bits as int
    }
}

/// The later of two times given as `f64` bits: `b` when it is a number
/// greater than `a` (or `a` is NaN), else `a`.
pub open spec fn later_time(a: u64, b: u64) -> u64 {
    if !f64_is_nan(b) && (f64_is_nan(a) || f64_order_key(b) > f64_order_key(a)) { b } else { a }
}

impl ObjectMeta {
    pub fn with_block(self, block: i32, num_blocks: i32) -> (r: Self)
        ensures
            r == (ObjectMeta { block, num_blocks, ..self }),
    {
        ObjectMeta { block, num_blocks, ..self }
    }

    pub fn with_timestep(self, timestep: i32, num_timesteps: i32) -> (r: Self)
        ensures
            r == (ObjectMeta { timestep, num_timesteps, ..self }),
    {
        ObjectMeta { timestep, num_timesteps, ..self }
    }

    pub fn with_iteration(self, iteration: i32) -> (r: Self)
        ensures
            r == (ObjectMeta { iteration, ..self }),
    {
        ObjectMeta { iteration, ..self }
    }

    pub fn with_generation(self, generation: i32) -> (r: Self)
        ensures
            r == (ObjectMeta { generation, ..self }),
    {
        ObjectMeta { generation, ..self }
    }

    pub fn with_creator(self, creator: i32) -> (r: Self)
        ensures
            r == (ObjectMeta { creator, ..self }),
    {
        ObjectMeta { creator, ..self }
    }

    /// Sets the real-world time, given as the bits of an `f64`.
    pub fn with_real_time(self, real_time_bits: u64) -> (r: Self)
        ensures
            r == (ObjectMeta { real_time_bits, ..self }),
    {
        ObjectMeta { real_time_bits, ..self }
    }

    /// Sets the transform, given as the bits of sixteen `f32`, column-major.
    pub fn with_transform(self, transform_bits: Vec<u32>) -> (r: Self)
        requires
            transform_bits@.len() == 16,
        ensures
            r == (ObjectMeta { transform_bits, ..self }),
    {
        ObjectMeta { transform_bits, ..self }
    }

    /// Takes the more recent generation, iteration and real-world time of
    /// the two.
    pub fn merge(&mut self, other: &ObjectMeta)
        ensures
            final(self).generation == if other.generation > old(self).generation { other.generation } else { old(self).generation },
            final(self).iteration == if other.iteration > old(self).iteration { other.iteration } else { old(self).iteration },
            final(self).real_time_bits == later_time(old(self).real_time_bits, other.real_time_bits),
            final(self).block == old(self).block && final(self).num_blocks == old(self).num_blocks,
            final(self).timestep == old(self).timestep && final(self).creator == old(self).creator,
            final(self).transform_bits == old(self).transform_bits,
    {
        if other.generation > self.generation {
            self.generation = other.generation;
        }
        if other.iteration > self.iteration {
            self.iteration = other.iteration;
        }
        let a = self.real_time_bits;
        let b = other.real_time_bits;
        let a_nan = (a / 0x10_0000_0000_0000) % 2048 == 2047 && a % 0x10_0000_0000_0000 != 0;
        let b_nan = (b / 0x10_0000_0000_0000) % 2048 == 2047 && b % 0x10_0000_0000_0000 != 0;
        let ka: i128 = if a >= 0x8000_0000_0000_0000 { -((a - 0x8000_0000_0000_0000) as i128) } else { a as i128 };
        let kb: i128 = if b >= 0x8000_0000_0000_0000 { -((b - 0x8000_0000_0000_0000) as i128) } else { b as i128 };
        if !b_nan && (a_nan || kb > ka) {
            self.real_time_bits = b;
        }
    }
}

/// Payload of an object, by kind. Coordinates are rows of three `f32`
/// values held as bit patterns.
#[derive(Debug, Clone, PartialEq, Eq)]
pub enum ObjectPayload {
    Empty,
    Points { coordinates: Vec<u32> },
    Lines { coordinates: Vec<u32>, connections: Vec<i32> },
    Triangles { coordinates: Vec<u32>, triangles: Vec<i32> },
    VecScalar { data: Vec<u32> },
    VecVec3 { data: Vec<u32> },
    Custom(Vec<u8>),
}

/// A data object: id, kind, metadata, string attributes and payload.
#[derive(Debug, Clone, PartialEq, Eq)]
pub struct VistleObject {
    pub id: ObjectId,
    pub object_type: ObjectType,
    pub meta: ObjectMeta,
    /// Attribute pairs; keys are unique.
    pub attributes: Vec<(String, String)>,
    pub data: ObjectPayload,
}

/// The value of attribute `key`, if any.
pub open spec fn attribute_of(attrs: Seq<(String, String)>, key: Seq<char>) -> Option<Seq<char>>
    decreases attrs.len(),
{
    if attrs.len() == 0 {
        None
    } else if attrs[0].0@ == key {
        Some(attrs[0].1@)
    } else {
        attribute_of(attrs.drop_first(), key)
    }
}

impl VistleObject {
    /// An object of kind `object_type` with a fresh id, default metadata,
    /// no attributes and an empty payload.
    pub fn new(object_type: ObjectType) -> (r: Self)
        ensures
            r.object_type == object_type,
            r.attributes@.len() == 0,
            r.data == ObjectPayload::Empty,
            r.meta.transform_bits@ == identity_transform_bits(),
    {
        VistleObject {
            id: ObjectId::new(),
            object_type,
            meta: ObjectMeta::new(),
            attributes: Vec::new(),
            data: ObjectPayload::Empty,
        }
    }

    /// An object of kind `object_type` with a fresh id and the given payload.
    pub fn with_data(object_type: ObjectType, payload: ObjectPayload) -> (r: Self)
        ensures
            r.object_type == object_type,
            r.attributes@.len() == 0,
            r.data == payload,
    {
        VistleObject {
            id: ObjectId::new(),
            object_type,
            meta: ObjectMeta::new(),
            attributes: Vec::new(),
            data: payload,
        }
    }

    pub fn id(&self) -> (r: ObjectId)
        ensures
            r == self.id,
    {
        self.id
    }

    pub fn object_type(&self) -> (r: ObjectType)
        ensures
            r == self.object_type,
    {
        self.object_type
    }

    /// Objects that this one refers to; this kind refers to none, so it is
    /// always complete.
    pub fn references(&self) -> (r: Vec<ObjectId>)
        ensures
            r@.len() == 0,
    {
        Vec::new()
    }

    pub fn is_complete(&self) -> (r: bool)
        ensures
            r,
    {
        true
    }

    pub fn get_attribute(&self, key: &str) -> (r: Option<String>)
        ensures
            r matches Some(v) ==> attribute_of(self.attributes@, key@) == Some(v@),
            r is None ==> attribute_of(self.attributes@, key@) is None,
    {
        let n = self.attributes.len();
        let mut i: usize = 0;
        assert(self.attributes@.skip(0) =~= self.attributes@);
        while i < n
            invariant
                n == self.attributes@.len(),
                0 <= i <= n,
                attribute_of(self.attributes@, key@) == attribute_of(self.attributes@.skip(i as int), key@),
            decreases n - i,
        {
            assert(self.attributes@.skip(i as int).drop_first() =~= self.attributes@.skip(i + 1));
            if string_eq(&self.attributes[i].0, key) {
                return Some(self.attributes[i].1.clone());
            }
            i += 1;
        }
        None
    }

    /// Sets attribute `key` to `value`, replacing an earlier value.
    pub fn set_attribute(&mut self, key: String, value: String)
        ensures
            attribute_of(final(self).attributes@, key@) == Some(value@),
            forall|k: Seq<char>| k != key@ ==> attribute_of(final(self).attributes@, k)
                == attribute_of(old(self).attributes@, k),
            final(self).id == old(self).id,
            final(self).object_type == old(self).object_type,
            final(self).data == old(self).data,
    {
        upsert_pair(&mut self.attributes, key, value);
    }
}

/// Sets `key` to `value` in a list of pairs, replacing the first pair with
/// that key or appending one.
pub fn upsert_pair(pairs: &mut Vec<(String, String)>, key: String, value: String)
    ensures
        attribute_of(final(pairs)@, key@) == Some(value@),
        forall|k: Seq<char>| k != key@ ==> attribute_of(final(pairs)@, k) == attribute_of(old(pairs)@, k),
{
    let n = pairs.len();
    let mut i: usize = 0;
    while i < n
        invariant
            n == pairs@.len(),
            *pairs == *old(pairs),
            0 <= i <= n,
            forall|j: int| 0 <= j < i ==> (#[trigger] pairs@[j]).0@ != key@,
        decreases n - i,
    {
        if string_eq(&pairs[i].0, key.as_str()) {
            let ghost old_pairs = pairs@;
            pairs.set(i, (key, value));
            proof {
                lemma_attribute_of_update(old_pairs, i as int, pairs@[i as int], key@);
            }
            return;
        }
        i += 1;
    }
    let ghost old_pairs = pairs@;
    pairs.push((key, value));
    proof {
        lemma_attribute_of_push(old_pairs, pairs@.last(), key@);
        assert(old_pairs.push(pairs@.last()) =~= pairs@);
    }
}

proof fn lemma_attribute_of_update(s: Seq<(String, String)>, i: int, e: (String, String), key: Seq<char>)
    requires
        0 <= i < s.len(),
        s[i].0@ == key,
        e.0@ == key,
        forall|j: int| 0 <= j < i ==> (#[trigger] s[j]).0@ != key,
    ensures
        attribute_of(s.update(i, e), key) == Some(e.1@),
        forall|k: Seq<char>| k != key ==> attribute_of(s.update(i, e), k) == attribute_of(s, k),
    decreases i,
{
    let t = s.update(i, e);
    if i > 0 {
        lemma_attribute_of_update(s.drop_first(), i - 1, e, key);
        assert(t.drop_first() =~= s.drop_first().update(i - 1, e));
        assert(t[0] == s[0]);
        assert(s[0].0@ != key);
    } else {
        assert(t.drop_first() =~= s.drop_first());
    }
    assert forall|k: Seq<char>| k != key implies attribute_of(t, k) == attribute_of(s, k) by {
        if i > 0 {
            assert(attribute_of(t.drop_first(), k) == attribute_of(s.drop_first(), k));
        }
    }
}

proof fn lemma_attribute_of_push(s: Seq<(String, String)>, e: (String, String), key: Seq<char>)
    requires
        e.0@ == key,
        forall|j: int| 0 <= j < s.len() ==> (#[trigger] s[j]).0@ != key,
    ensures
        attribute_of(s.push(e), key) == Some(e.1@),
        forall|k: Seq<char>| k != key ==> attribute_of(s.push(e), k) == attribute_of(s, k),
    decreases s.len(),
{
    let t = s.push(e);
    if s.len() > 0 {
        lemma_attribute_of_push(s.drop_first(), e, key);
        assert(t.drop_first() =~= s.drop_first().push(e));
        assert(t[0] == s[0]);
        assert(s[0].0@ != key);
    } else {
        assert(t.drop_first() =~= s);
    }
    assert forall|k: Seq<char>| k != key implies attribute_of(t, k) == attribute_of(s, k) by {
        if s.len() > 0 {
            assert(attribute_of(t.drop_first(), k) == attribute_of(s.drop_first(), k));
        } else {
            assert(attribute_of(t.drop_first(), k) == None::<Seq<char>>);
        }
    }
}

/// String equality over the characters.
pub fn string_eq(a: &String, b: &str) -> (r: bool)
    ensures
        r == (a@ == b@),
{
    let x: &str = a.as_str();
    let ac = x.as_bytes();
    let bc = b.as_bytes();
    proof {
        vstd::utf8::encode_utf8_decode_utf8(x@);
        vstd::utf8::encode_utf8_decode_utf8(b@);
    }
    if ac.len() != bc.len() {
        return false;
    }
    let mut i: usize = 0;
    while i < ac.len()
        invariant
            ac@ == vstd::utf8::encode_utf8(a@),
            bc@ == vstd::utf8::encode_utf8(b@),
            ac@.len() == bc@.len(),
            0 <= i <= ac@.len(),
            forall|j: int| 0 <= j < i ==> ac@[j] == bc@[j],
        decreases ac@.len() - i,
    {
        if ac[i] != bc[i] {
            assert(ac@ != bc@);
            assert(ac@ == vstd::utf8::encode_utf8(a@));
            return false;
        }
        i += 1;
    }
    assert(ac@ =~= bc@);
    true
}

} // verus!
