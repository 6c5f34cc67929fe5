//! Signed references to nodes of an AIG.
use vstd::prelude::*;

verus! {

/// The largest id that a reference can carry: the id is stored above the
/// polarity bit of a `u32`.
pub const MAX_ID: u32 = 0x7fff_ffff;

/// A node id together with a polarity bit, packed as `2 * id + negated`.
///
/// Id 0 is reserved for the Boolean constants: false (not negated) and
/// true (negated), made by `Ref::constant`.
#[derive(Debug, Clone, Copy, PartialEq, Eq, Structural, Hash)]
pub struct Ref(u32);

impl View for Ref {
    type V = u32;

    /// The packed value.
    closed spec fn view(&self) -> u32 {
        self.0
    }
}

impl Ref {
    /// The id that the reference points to.
    pub open spec fn spec_id(self) -> u32 {
        (self@ / 2) as u32
    }

    /// Whether the reference is inverted.
    pub open spec fn spec_negated(self) -> bool {
        self@ % 2 == 1
    }

    /// Whether the reference denotes one of the two constants.
    pub open spec fn spec_is_const(self) -> bool {
        self.spec_id() == 0
    }

    /// The constant that the reference denotes, if any.
    pub open spec fn spec_const(self) -> Option<bool> {
        if self.spec_is_const() {
            Some(self.spec_negated())
        } else {
            None
        }
    }

    /// The reference with this id and polarity.
    pub closed spec fn from_parts(id: u32, negated: bool) -> Ref {
        Ref((2 * id + if negated { 1int } else { 0int }) as u32)
    }

    /// The reference with this packed value.
    pub closed spec fn from_raw_spec(raw: u32) -> Ref {
        Ref(raw)
    }

    /// A reference is the one with its packed value.
    pub proof fn lemma_raw_spec(r: Ref)
        ensures
            r == Ref::from_raw_spec(r@),
    {
    }

    /// The same id with the opposite polarity.
    pub open spec fn spec_negate(self) -> Ref {
        Ref::from_parts(self.spec_id(), !self.spec_negated())
    }

    /// Building a reference from an id and a polarity gives both back, and
    /// a non-zero id never makes a constant.
    pub proof fn lemma_round_trip(id: u32, negated: bool)
        requires
            0 < id <= MAX_ID,
        ensures
            Ref::from_parts(id, negated).spec_id() == id,
            Ref::from_parts(id, negated).spec_negated() == negated,
            Ref::from_parts(id, negated).spec_const() is None,
    {
    }

    /// A reference is determined by its id and polarity; in particular
    /// negating twice gives the reference back.
    pub proof fn lemma_determined(a: Ref, b: Ref)
        ensures
            a == Ref::from_parts(a.spec_id(), a.spec_negated()),
            (a.spec_id() == b.spec_id() && a.spec_negated() == b.spec_negated()) ==> a == b,
            a.spec_negate().spec_negate() == a,
    {
        assert(Ref::from_parts(a.spec_id(), a.spec_negated()).0 == a.0);
        assert(Ref::from_parts(b.spec_id(), b.spec_negated()).0 == b.0);
        let n = a.spec_negate();
        assert(n.0 == (2 * a.spec_id() + if a.spec_negated() { 0int } else { 1int }) as u32);
        assert(n.spec_negate().0 == a.0);
    }

    /// The constants are the references with id 0, and only those: no
    /// reference with a non-zero id equals either of them.
    pub proof fn lemma_constants_distinct(r: Ref)
        ensures
            r.spec_id() != 0 ==> r.spec_const() is None && r@ != 0 && r@ != 1,
            r@ == 0 ==> r.spec_const() == Some(false),
            r@ == 1 ==> r.spec_const() == Some(true),
    {
    }

    /// One of the two constants: `false` is packed as 0, `true` as 1.
    pub fn constant(value: bool) -> (r: Ref)
        ensures
            r.spec_const() == Some(value),
            r@ == (if value { 1u32 } else { 0u32 }),
    {
        if value {
            Ref(1)
        } else {
            Ref(0)
        }
    }

    pub fn new(id: u32, negated: bool) -> (r: Ref)
        requires
            0 < id <= MAX_ID,
        ensures
            r == Ref::from_parts(id, negated),
            r.spec_id() == id,
            r.spec_negated() == negated,
            r@ == 2 * id + (if negated { 1int } else { 0int }),
    {
        let bit: u32 = if negated { 1 } else { 0 };
        assert(id << 1u32 == 2 * id) by (bit_vector)
            requires
                id <= 0x7fff_ffffu32,
        ;
        Ref((id << 1u32) + bit)
    }

    pub fn positive(id: u32) -> (r: Ref)
        requires
            0 < id <= MAX_ID,
        ensures
            r.spec_id() == id,
            !r.spec_negated(),
    {
        Ref::new(id, false)
    }

    pub fn negative(id: u32) -> (r: Ref)
        requires
            0 < id <= MAX_ID,
        ensures
            r.spec_id() == id,
            r.spec_negated(),
    {
        Ref::new(id, true)
    }

    pub fn from_raw(raw: u32) -> (r: Ref)
        ensures
            r@ == raw,
            r == Ref::from_raw_spec(raw),
    {
        Ref(raw)
    }

    pub fn raw(self) -> (r: u32)
        ensures
            r == self@,
    {
        self.0
    }

    pub fn id(self) -> (r: u32)
        ensures
            r == self.spec_id(),
    {
        let raw = self.0;
        assert(raw >> 1u32 == raw / 2) by (bit_vector);
        raw >> 1u32
    }

    pub fn is_negated(self) -> (r: bool)
        ensures
            r == self.spec_negated(),
    {
        let raw = self.0;
        assert((raw & 1u32 != 0) == (raw % 2 == 1)) by (bit_vector);
        raw & 1u32 != 0
    }

    /// The signed view: the id as magnitude, the polarity as sign.
    pub fn get(self) -> (r: i32)
        ensures
            r == (if self.spec_negated() {
                -(self.spec_id() as int)
            } else {
                self.spec_id() as int
            }),
    {
        let id = self.id() as i32;
        if self.is_negated() {
            -id
        } else {
            id
        }
    }

    pub fn is_const(self) -> (r: bool)
        ensures
            r == self.spec_is_const(),
    {
        self.id() == 0
    }

    pub fn is_false(self) -> (r: bool)
        ensures
            r == (self@ == 0),
            r == (self.spec_const() == Some(false)),
    {
        self.0 == 0
    }

    pub fn is_true(self) -> (r: bool)
        ensures
            r == (self@ == 1),
            r == (self.spec_const() == Some(true)),
    {
        self.0 == 1
    }

    pub fn get_const(self) -> (r: Option<bool>)
        ensures
            r == self.spec_const(),
    {
        if self.is_false() {
            Some(false)
        } else if self.is_true() {
            Some(true)
        } else {
            None
        }
    }

    /// The same id with the opposite polarity.
    pub fn negated(self) -> (r: Ref)
        ensures
            r == self.spec_negate(),
            r.spec_id() == self.spec_id(),
            r.spec_negated() == !self.spec_negated(),
    {
        let raw = self.0;
        assert((raw ^ 1u32) / 2 == raw / 2 && ((raw ^ 1u32) % 2 == 1) == (raw % 2 != 1))
            by (bit_vector);
        Ref(raw ^ 1u32)
    }
}

} // verus!
