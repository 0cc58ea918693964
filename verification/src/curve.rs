//! Cyclic groups with a fixed generator, their scalars and their points.
use crate::bytes::{byte_views, bytes_copy, bytes_equal, le_value};
use core::marker::PhantomData;
use vstd::prelude::*;

verus! {

/// What a group is, apart from the code that computes in it.
///
/// A scalar is a residue modulo the group order, encoded in `scalar_len` bytes, least
/// significant byte first. A point is a multiple of the generator.
pub trait Group: Sized {
    /// Number of elements of the group.
    spec fn order() -> nat;

    /// Number of bytes that encode a scalar.
    spec fn scalar_len() -> nat;

    /// The encoding of `k` times the generator, for `k` below the order.
    spec fn encoding(k: nat) -> Seq<u8>;

    /// The encoding of the point that `bytes` is read as, if it is read as one.
    spec fn decoding(bytes: Seq<u8>) -> Option<Seq<u8>>;

    /// The name under which points of the group enter a digest.
    spec fn group_name() -> Seq<char>;
}

/// Whether `bytes` encodes a scalar.
pub open spec fn is_scalar<E: Group>(bytes: Seq<u8>) -> bool {
    bytes.len() == E::scalar_len() && le_value(bytes) < E::order()
}

/// Whether `bytes` encodes a point.
pub open spec fn is_point<E: Group>(bytes: Seq<u8>) -> bool {
    exists|k: nat| k < E::order() && #[trigger] E::encoding(k) == bytes
}

/// The discrete logarithm: how often the generator goes into the point that `bytes` encodes.
pub open spec fn log<E: Group>(bytes: Seq<u8>) -> nat {
    choose|k: nat| k < E::order() && #[trigger] E::encoding(k) == bytes
}

/// The operations of a group, on encodings.
pub trait Curve: Group {
    /// The name under which points of the curve enter a digest.
    fn name() -> (name: &'static str)
        ensures
            name@ == Self::group_name(),
    ;

    /// Multiplies the generator.
    fn generator_mul(scalar: &[u8]) -> (point: Vec<u8>)
        requires
            is_scalar::<Self>(scalar@),
        ensures
            is_point::<Self>(point@),
            log::<Self>(point@) == le_value(scalar@),
    ;

    /// Multiplies a point.
    fn point_mul(point: &[u8], scalar: &[u8]) -> (product: Vec<u8>)
        requires
            is_point::<Self>(point@),
            is_scalar::<Self>(scalar@),
        ensures
            is_point::<Self>(product@),
            log::<Self>(product@) == (log::<Self>(point@) * le_value(scalar@)) % Self::order(),
    ;

    /// Adds two points.
    fn point_add(a: &[u8], b: &[u8]) -> (sum: Vec<u8>)
        requires
            is_point::<Self>(a@),
            is_point::<Self>(b@),
        ensures
            is_point::<Self>(sum@),
            log::<Self>(sum@) == (log::<Self>(a@) + log::<Self>(b@)) % Self::order(),
    ;

    /// Reads a point. Every encoding is read as itself.
    fn point_decode(bytes: &[u8]) -> (point: Option<Vec<u8>>)
        ensures
            match point {
                Some(p) => Self::decoding(bytes@) == Some(p@) && is_point::<Self>(p@),
                None => Self::decoding(bytes@) is None,
            },
            is_point::<Self>(bytes@) ==> (point matches Some(p) && p@ == bytes@),
    ;

    /// Reads a scalar from its encoding, of which zero bytes at the end may be missing.
    fn scalar_decode(bytes: &[u8]) -> (scalar: Option<Vec<u8>>)
        ensures
            match scalar {
                Some(s) => bytes.len() <= Self::scalar_len() && is_scalar::<Self>(s@) && le_value(
                    s@,
                ) == le_value(bytes@),
                None => bytes.len() > Self::scalar_len() || le_value(bytes@) >= Self::order(),
            },
    ;

    /// Reduces a number of any length modulo the order.
    fn scalar_reduce(bytes: &[u8]) -> (scalar: Vec<u8>)
        ensures
            is_scalar::<Self>(scalar@),
            le_value(scalar@) == le_value(bytes@) % Self::order(),
    ;

    /// Adds two scalars.
    fn scalar_add(a: &[u8], b: &[u8]) -> (sum: Vec<u8>)
        requires
            is_scalar::<Self>(a@),
            is_scalar::<Self>(b@),
        ensures
            is_scalar::<Self>(sum@),
            le_value(sum@) == (le_value(a@) + le_value(b@)) % Self::order(),
    ;

    /// Subtracts a scalar from another.
    fn scalar_sub(a: &[u8], b: &[u8]) -> (difference: Vec<u8>)
        requires
            is_scalar::<Self>(a@),
            is_scalar::<Self>(b@),
        ensures
            is_scalar::<Self>(difference@),
            le_value(difference@) == (le_value(a@) - le_value(b@)) % (Self::order() as int),
    ;

    /// Multiplies two scalars.
    fn scalar_mul(a: &[u8], b: &[u8]) -> (product: Vec<u8>)
        requires
            is_scalar::<Self>(a@),
            is_scalar::<Self>(b@),
        ensures
            is_scalar::<Self>(product@),
            le_value(product@) == (le_value(a@) * le_value(b@)) % Self::order(),
    ;

    /// Picks a scalar at random, never zero.
    fn scalar_random() -> (scalar: Vec<u8>)
        ensures
            is_scalar::<Self>(scalar@),
            le_value(scalar@) != 0,
    ;
}

/// A residue modulo the group order.
pub struct Scalar<E: Curve> {
    bytes: Vec<u8>,
    curve: PhantomData<E>,
}

impl<E: Curve> Scalar<E> {
    /// Holds of every scalar: its bytes encode a residue.
    #[verifier::type_invariant]
    pub closed spec fn wf(&self) -> bool {
        is_scalar::<E>(self.bytes@)
    }

    /// The residue, between zero and the order.
    pub closed spec fn value(&self) -> nat {
        le_value(self.bytes@)
    }

    /// The bytes of the encoding.
    pub closed spec fn encoding(&self) -> Seq<u8> {
        self.bytes@
    }

    /// A scalar is below the order, and its encoding says which one it is.
    pub proof fn lemma_range(self)
        requires
            self.wf(),
        ensures
            self.value() < E::order(),
            is_scalar::<E>(self.encoding()),
            le_value(self.encoding()) == self.value(),
    {
    }

    /// The scalar that is encoded by `bytes`.
    pub(crate) fn from_encoding(bytes: Vec<u8>) -> (scalar: Scalar<E>)
        requires
            is_scalar::<E>(bytes@),
        ensures
            scalar.wf(),
            scalar.encoding() == bytes@,
            scalar.value() == le_value(bytes@),
    {
        Scalar { bytes, curve: PhantomData }
    }

    /// Reads a scalar, least significant byte first. Missing bytes at the end are zero.
    pub fn from_le_bytes(bytes: &[u8]) -> (scalar: Option<Scalar<E>>)
        ensures
            match scalar {
                Some(s) => bytes.len() <= E::scalar_len() && s.wf() && s.value() == le_value(
                    bytes@,
                ),
                None => bytes.len() > E::scalar_len() || le_value(bytes@) >= E::order(),
            },
    {
        match E::scalar_decode(bytes) {
            Some(bytes) => Some(Scalar { bytes, curve: PhantomData }),
            None => None,
        }
    }

    /// Reduces a number, least significant byte first, modulo the order.
    pub fn from_le_bytes_mod_order(bytes: &[u8]) -> (scalar: Scalar<E>)
        ensures
            scalar.wf(),
            scalar.value() == le_value(bytes@) % E::order(),
    {
        Scalar { bytes: E::scalar_reduce(bytes), curve: PhantomData }
    }

    /// The bytes of the scalar, least significant byte first.
    pub fn to_le_bytes(&self) -> (bytes: &Vec<u8>)
        ensures
            bytes@ == self.encoding(),
            is_scalar::<E>(bytes@),
            le_value(bytes@) == self.value(),
    {
        proof {
            use_type_invariant(self);
        }
        &self.bytes
    }

    /// The scalar zero.
    pub fn zero() -> (scalar: Scalar<E>)
        ensures
            scalar.wf(),
            scalar.value() == 0,
    {
        let none: Vec<u8> = Vec::new();
        let scalar = Scalar::from_le_bytes_mod_order(none.as_slice());
        proof {
            vstd::arithmetic::div_mod::lemma_small_mod(0, E::order());
        }
        scalar
    }

    /// Picks a scalar at random, never zero.
    pub fn random() -> (scalar: Scalar<E>)
        ensures
            scalar.wf(),
            scalar.value() != 0,
    {
        Scalar { bytes: E::scalar_random(), curve: PhantomData }
    }

    /// Tells whether the scalar is zero.
    pub fn is_zero(&self) -> (zero: bool)
        ensures
            zero == (self.value() == 0),
    {
        let zero = Scalar::<E>::zero();
        let equal = self.equals(&zero);
        equal
    }

    /// Tells whether two scalars are the same residue.
    pub fn equals(&self, other: &Scalar<E>) -> (equal: bool)
        ensures
            equal == (self.value() == other.value()),
    {
        proof {
            use_type_invariant(self);
            use_type_invariant(other);
        }
        let difference = E::scalar_sub(self.bytes.as_slice(), other.bytes.as_slice());
        let mut k: usize = 0;
        while k < difference.len()
            invariant
                k <= difference.len(),
                forall|m: int| 0 <= m < k ==> difference@[m] == 0,
                le_value(difference@) < E::order(),
                le_value(difference@) == (self.value() - other.value()) % (E::order() as int),
                self.value() < E::order(),
                other.value() < E::order(),
            decreases difference.len() - k,
        {
            if difference[k] != 0 {
                proof {
                    crate::bytes::lemma_le_value_nonzero(difference@, k as int);
                    if self.value() == other.value() {
                        vstd::arithmetic::div_mod::lemma_small_mod(0, E::order());
                    }
                }
                return false;
            }
            k += 1;
        }
        proof {
            crate::bytes::lemma_le_value_trailing_zeros(difference@, 0);
            assert(difference@.take(0) =~= Seq::<u8>::empty());
            let d = self.value() - other.value();
            let q = E::order() as int;
            vstd::arithmetic::div_mod::lemma_fundamental_div_mod(d, q);
            let f = d / q;
            assert(d == q * f);
            if f != 0 {
                assert(q * f >= q || q * f <= -q) by (nonlinear_arith)
                    requires
                        f != 0,
                        q > 0,
                ;
            }
            assert(q * 0 == 0) by (nonlinear_arith);
        }
        true
    }

    /// A copy of the scalar.
    pub fn copy(&self) -> (scalar: Scalar<E>)
        ensures
            scalar.wf(),
            scalar.value() == self.value(),
            scalar.encoding() == self.encoding(),
    {
        proof {
            use_type_invariant(self);
        }
        Scalar { bytes: bytes_copy(self.bytes.as_slice()), curve: PhantomData }
    }

    /// The sum of two scalars.
    pub fn add(&self, other: &Scalar<E>) -> (sum: Scalar<E>)
        ensures
            sum.wf(),
            sum.value() == (self.value() + other.value()) % E::order(),
    {
        proof {
            use_type_invariant(self);
            use_type_invariant(other);
        }
        Scalar {
            bytes: E::scalar_add(self.bytes.as_slice(), other.bytes.as_slice()),
            curve: PhantomData,
        }
    }

    /// The difference of two scalars.
    pub fn sub(&self, other: &Scalar<E>) -> (difference: Scalar<E>)
        ensures
            difference.wf(),
            difference.value() == (self.value() - other.value()) % (E::order() as int),
    {
        proof {
            use_type_invariant(self);
            use_type_invariant(other);
        }
        Scalar {
            bytes: E::scalar_sub(self.bytes.as_slice(), other.bytes.as_slice()),
            curve: PhantomData,
        }
    }

    /// The scalar with the sign changed.
    pub fn neg(&self) -> (negated: Scalar<E>)
        ensures
            negated.wf(),
            negated.value() == (-self.value()) % (E::order() as int),
    {
        let zero = Scalar::<E>::zero();
        zero.sub(self)
    }

    /// The product of two scalars.
    pub fn mul(&self, other: &Scalar<E>) -> (product: Scalar<E>)
        ensures
            product.wf(),
            product.value() == (self.value() * other.value()) % E::order(),
    {
        proof {
            use_type_invariant(self);
            use_type_invariant(other);
        }
        Scalar {
            bytes: E::scalar_mul(self.bytes.as_slice(), other.bytes.as_slice()),
            curve: PhantomData,
        }
    }
}

/// A multiple of the generator.
pub struct Point<E: Curve> {
    bytes: Vec<u8>,
    curve: PhantomData<E>,
}

impl<E: Curve> Point<E> {
    /// Holds of every point: its bytes encode one.
    #[verifier::type_invariant]
    pub closed spec fn wf(&self) -> bool {
        is_point::<E>(self.bytes@)
    }

    /// How often the generator goes into the point, between zero and the order.
    pub closed spec fn log(&self) -> nat {
        log::<E>(self.bytes@)
    }

    /// The bytes of the encoding.
    pub closed spec fn encoding(&self) -> Seq<u8> {
        self.bytes@
    }

    /// The logarithm of a point is below the order, and is the one that is encoded.
    pub proof fn lemma_range(self)
        requires
            self.wf(),
        ensures
            self.log() < E::order(),
            self.encoding() == E::encoding(self.log()),
            is_point::<E>(self.encoding()),
            self.log() == log::<E>(self.encoding()),
    {
    }

    /// The point that is encoded by `bytes`.
    pub(crate) fn from_encoding(bytes: Vec<u8>) -> (point: Point<E>)
        requires
            is_point::<E>(bytes@),
        ensures
            point.wf(),
            point.encoding() == bytes@,
            point.log() == log::<E>(bytes@),
    {
        Point { bytes, curve: PhantomData }
    }

    /// Reads a point from its encoding.
    pub fn from_bytes(bytes: &[u8]) -> (point: Option<Point<E>>)
        ensures
            match point {
                Some(p) => p.wf() && E::decoding(bytes@) == Some(p.encoding()),
                None => E::decoding(bytes@) is None,
            },
            is_point::<E>(bytes@) ==> (point matches Some(p) && p.encoding() == bytes@),
    {
        match E::point_decode(bytes) {
            Some(bytes) => Some(Point { bytes, curve: PhantomData }),
            None => None,
        }
    }

    /// The encoding of the point.
    pub fn to_bytes(&self) -> (bytes: &Vec<u8>)
        ensures
            bytes@ == self.encoding(),
            is_point::<E>(bytes@),
            log::<E>(bytes@) == self.log(),
    {
        proof {
            use_type_invariant(self);
        }
        &self.bytes
    }

    /// A multiple of the generator.
    pub fn generator_mul(scalar: &Scalar<E>) -> (point: Point<E>)
        ensures
            point.wf(),
            point.log() == scalar.value(),
    {
        proof {
            use_type_invariant(scalar);
        }
        Point { bytes: E::generator_mul(scalar.bytes.as_slice()), curve: PhantomData }
    }

    /// The neutral element.
    pub fn zero() -> (point: Point<E>)
        ensures
            point.wf(),
            point.log() == 0,
    {
        let zero = Scalar::<E>::zero();
        Point::generator_mul(&zero)
    }

    /// The sum of two points.
    pub fn add(&self, other: &Point<E>) -> (sum: Point<E>)
        ensures
            sum.wf(),
            sum.log() == (self.log() + other.log()) % E::order(),
    {
        proof {
            use_type_invariant(self);
            use_type_invariant(other);
        }
        Point {
            bytes: E::point_add(self.bytes.as_slice(), other.bytes.as_slice()),
            curve: PhantomData,
        }
    }

    /// A multiple of the point.
    pub fn mul(&self, scalar: &Scalar<E>) -> (product: Point<E>)
        ensures
            product.wf(),
            product.log() == (self.log() * scalar.value()) % E::order(),
    {
        proof {
            use_type_invariant(self);
            use_type_invariant(scalar);
        }
        Point {
            bytes: E::point_mul(self.bytes.as_slice(), scalar.bytes.as_slice()),
            curve: PhantomData,
        }
    }

    /// Tells whether two points are the same.
    pub fn equals(&self, other: &Point<E>) -> (equal: bool)
        ensures
            equal == (self.log() == other.log()),
            equal == (self.encoding() == other.encoding()),
    {
        proof {
            use_type_invariant(self);
            use_type_invariant(other);
        }
        bytes_equal(self.bytes.as_slice(), other.bytes.as_slice())
    }

    /// Tells whether the point is the neutral element.
    pub fn is_zero(&self) -> (zero: bool)
        ensures
            zero == (self.log() == 0),
    {
        let zero = Point::<E>::zero();
        let equal = self.equals(&zero);
        equal
    }

    /// A copy of the point.
    pub fn copy(&self) -> (point: Point<E>)
        ensures
            point.wf(),
            point.log() == self.log(),
            point.encoding() == self.encoding(),
    {
        proof {
            use_type_invariant(self);
        }
        Point { bytes: bytes_copy(self.bytes.as_slice()), curve: PhantomData }
    }
}

/// The residues of a sequence of scalars.
pub open spec fn values<E: Curve>(scalars: Seq<Scalar<E>>) -> Seq<int> {
    Seq::new(scalars.len(), |k: int| scalars[k].value() as int)
}

/// The logarithms of a sequence of points.
pub open spec fn logs<E: Curve>(points: Seq<Point<E>>) -> Seq<int> {
    Seq::new(points.len(), |k: int| points[k].log() as int)
}

/// The encodings of a sequence of points.
pub open spec fn encodings<E: Curve>(points: Seq<Point<E>>) -> Seq<Seq<u8>> {
    Seq::new(points.len(), |k: int| points[k].encoding())
}

/// Whether all points of a sequence are well-formed.
pub open spec fn points_wf<E: Curve>(points: Seq<Point<E>>) -> bool {
    forall|k: int| 0 <= k < points.len() ==> (#[trigger] points[k]).wf()
}

/// Whether all scalars of a sequence are well-formed.
pub open spec fn scalars_wf<E: Curve>(scalars: Seq<Scalar<E>>) -> bool {
    forall|k: int| 0 <= k < scalars.len() ==> (#[trigger] scalars[k]).wf()
}

/// Copies of points.
pub fn copy_points<E: Curve>(points: &Vec<Point<E>>) -> (copies: Vec<Point<E>>)
    ensures
        copies.len() == points.len(),
        points_wf(copies@),
        logs(copies@) == logs(points@),
        encodings(copies@) == encodings(points@),
{
    let mut copies: Vec<Point<E>> = Vec::new();
    let mut k: usize = 0;
    while k < points.len()
        invariant
            k <= points.len(),
            copies.len() == k,
            points_wf(copies@),
            forall|m: int| 0 <= m < k ==> (#[trigger] copies@[m]).log() == points@[m].log(),
            forall|m: int|
                0 <= m < k ==> (#[trigger] copies@[m]).encoding() == points@[m].encoding(),
        decreases points.len() - k,
    {
        copies.push(points[k].copy());
        k += 1;
    }
    assert(logs(copies@) =~= logs(points@));
    assert(encodings(copies@) =~= encodings(points@));
    copies
}

/// The multiples of the generator by scalars.
pub fn generator_multiples<E: Curve>(scalars: &Vec<Scalar<E>>) -> (points: Vec<Point<E>>)
    ensures
        points.len() == scalars.len(),
        points_wf(points@),
        logs(points@) == values(scalars@),
{
    let mut points: Vec<Point<E>> = Vec::new();
    let mut k: usize = 0;
    while k < scalars.len()
        invariant
            k <= scalars.len(),
            points.len() == k,
            points_wf(points@),
            forall|m: int| 0 <= m < k ==> (#[trigger] points@[m]).log() == scalars@[m].value(),
        decreases scalars.len() - k,
    {
        points.push(Point::generator_mul(&scalars[k]));
        k += 1;
    }
    assert(logs(points@) =~= values(scalars@));
    points
}

/// The encodings of points.
pub fn point_encodings<E: Curve>(points: &Vec<Point<E>>) -> (bytes: Vec<Vec<u8>>)
    ensures
        bytes.len() == points.len(),
        byte_views(bytes@) == encodings(points@),
        forall|k: int|
            0 <= k < points.len() ==> is_point::<E>(#[trigger] bytes@[k]@) && log::<E>(bytes@[k]@)
                == points@[k].log(),
{
    let mut bytes: Vec<Vec<u8>> = Vec::new();
    let mut k: usize = 0;
    while k < points.len()
        invariant
            k <= points.len(),
            bytes.len() == k,
            forall|m: int|
                0 <= m < k ==> is_point::<E>(#[trigger] bytes@[m]@) && bytes@[m]@
                    == points@[m].encoding() && log::<E>(bytes@[m]@) == points@[m].log(),
        decreases points.len() - k,
    {
        bytes.push(bytes_copy(points[k].to_bytes().as_slice()));
        k += 1;
    }
    assert(byte_views(bytes@) =~= encodings(points@));
    bytes
}

/// The encodings of scalars.
pub fn scalar_encodings<E: Curve>(scalars: &Vec<Scalar<E>>) -> (bytes: Vec<Vec<u8>>)
    ensures
        bytes.len() == scalars.len(),
        forall|k: int|
            0 <= k < scalars.len() ==> is_scalar::<E>(#[trigger] bytes@[k]@) && le_value(
                bytes@[k]@,
            ) == scalars@[k].value(),
{
    let mut bytes: Vec<Vec<u8>> = Vec::new();
    let mut k: usize = 0;
    while k < scalars.len()
        invariant
            k <= scalars.len(),
            bytes.len() == k,
            forall|m: int|
                0 <= m < k ==> is_scalar::<E>(#[trigger] bytes@[m]@) && le_value(bytes@[m]@)
                    == scalars@[m].value(),
        decreases scalars.len() - k,
    {
        bytes.push(bytes_copy(scalars[k].to_le_bytes().as_slice()));
        k += 1;
    }
    bytes
}

} // verus!
