//! Value representations.
//!
//! A trace reports signal values as four-state bits (`0`, `1`, unknown,
//! high-impedance), singly or as vectors, or as pre-formed text.  A
//! [`ValueType`] decodes those raw values into one stored representation:
//! either a fixed-width unsigned integer (unknown and high-impedance bits
//! count as logic 1) or a literal bit string (unknown and high-impedance
//! bits keep their `X` and `Z` markers).  A representation may decline a raw
//! value kind; such a change event is dropped, not an error.

use crate::errors::Error;
use crate::map::VarDecl;
use vstd::prelude::*;

verus! {

/// One four-state bit as a trace reports it.
#[derive(Clone, Copy, Debug, PartialEq, Eq, Structural)]
pub enum Bit {
    /// Logic 0.
    V0,
    /// Logic 1.
    V1,
    /// Unknown.
    X,
    /// High impedance.
    Z,
}

/// The numeric weight of one bit: bits other than 0 count as 1.
pub open spec fn bit_num(b: Bit) -> nat {
    match b {
        Bit::V0 => 0,
        _ => 1,
    }
}

/// The unsigned value of a bit vector read most-significant-first, with
/// unknown and high-impedance bits counted as 1.
pub open spec fn bits_val(bits: Seq<Bit>) -> nat
    decreases bits.len(),
{
    if bits.len() == 0 {
        0
    } else {
        bits_val(bits.drop_last()) * 2 + bit_num(bits.last())
    }
}

/// The character a bit is written as: `0`, `1`, or the given markers for
/// unknown and high-impedance bits.
pub open spec fn bit_char(b: Bit, x_value: char, z_value: char) -> char {
    match b {
        Bit::V0 => '0',
        Bit::V1 => '1',
        Bit::X => x_value,
        Bit::Z => z_value,
    }
}

/// The text of a bit vector, one character per bit.
pub open spec fn bitstring(bits: Seq<Bit>, x_value: char, z_value: char) -> Seq<char> {
    Seq::new(bits.len(), |i: int| bit_char(bits[i], x_value, z_value))
}

/// Relies on `String::push`: it appends exactly the one character.
#[verifier::external_body]
fn push_char(s: &mut String, c: char)
    ensures
        final(s)@ == old(s)@.push(c),
{
    s.push(c)
}

/// Writes a bit vector as text, one character per bit, using the given
/// markers for unknown and high-impedance bits.
pub fn to_bitstring(vals: &Vec<Bit>, x_value: char, z_value: char) -> (res: String)
    ensures
        res@ == bitstring(vals@, x_value, z_value),
{
    let mut res = String::new();
    let mut i: usize = 0;
    while i < vals.len()
        invariant
            i <= vals@.len(),
            res@ == bitstring(vals@.take(i as int), x_value, z_value),
        decreases vals@.len() - i,
    {
        push_char(&mut res, bit_exec_char(vals[i], x_value, z_value));
        i = i + 1;
        proof {
            assert(bitstring(vals@.take(i as int), x_value, z_value) =~= bitstring(
                vals@.take(i - 1),
                x_value,
                z_value,
            ).push(bit_char(vals@[i - 1], x_value, z_value)));
        }
    }
    proof {
        assert(vals@.take(vals@.len() as int) =~= vals@);
    }
    res
}

/// The character for one bit, as [`bit_char`] states it.
fn bit_exec_char(b: Bit, x_value: char, z_value: char) -> (c: char)
    ensures
        c == bit_char(b, x_value, z_value),
{
    match b {
        Bit::V0 => '0',
        Bit::V1 => '1',
        Bit::X => x_value,
        Bit::Z => z_value,
    }
}

/// One stored value representation: how raw changed values decode, what a
/// fresh signal starts as, and how a stored value is duplicated when time
/// advances.  Every operation is pinned to the representation's mathematical
/// model.
pub trait ValueType: Sized {
    /// The mathematical model of one stored value.
    type Model;

    /// The model of this stored value.
    spec fn model(&self) -> Self::Model;

    /// The model of the representation's initial value.
    spec fn empty_model() -> Self::Model;

    /// How a single-bit change decodes.
    spec fn scalar_model(value: Bit) -> Result<Option<Self::Model>, Error>;

    /// How a bit-vector change decodes.
    spec fn vector_model(value: Seq<Bit>) -> Result<Option<Self::Model>, Error>;

    /// How a real-valued change, given as its decimal text, decodes; `None`
    /// when the representation declines reals.
    spec fn real_model(value: Seq<char>) -> Option<Self::Model>;

    /// How a text change decodes; `None` when the representation declines
    /// text.
    spec fn string_model(value: Seq<char>) -> Option<Self::Model>;

    /// The initial value of the freshly declared signal `item`.
    fn empty(item: &VarDecl) -> (r: Self)
        ensures
            r.model() == Self::empty_model(),
    ;

    /// Decodes a single-bit change.
    fn from_scalar(value: Bit) -> (r: Result<Option<Self>, Error>)
        ensures
            (match r {
                Ok(Some(v)) => Self::scalar_model(value) == Ok::<_, Error>(Some(v.model())),
                Ok(None) => Self::scalar_model(value) == Ok::<Option<Self::Model>, Error>(None),
                Err(e) => Self::scalar_model(value) == Err::<Option<Self::Model>, Error>(e),
            }),
    ;

    /// Decodes a bit-vector change.
    fn from_vector(value: &Vec<Bit>) -> (r: Result<Option<Self>, Error>)
        ensures
            (match r {
                Ok(Some(v)) => Self::vector_model(value@) == Ok::<_, Error>(Some(v.model())),
                Ok(None) => Self::vector_model(value@) == Ok::<Option<Self::Model>, Error>(None),
                Err(e) => Self::vector_model(value@) == Err::<Option<Self::Model>, Error>(e),
            }),
    ;

    /// Decodes a real-valued change given as its decimal text.
    fn from_real(value: String) -> (r: Result<Option<Self>, Error>)
        ensures
            (match r {
                Ok(Some(v)) => Self::real_model(value@) == Some(v.model()),
                Ok(None) => Self::real_model(value@) is None,
                Err(_) => false,
            }),
    ;

    /// Decodes a text change.
    fn from_string(value: String) -> (r: Result<Option<Self>, Error>)
        ensures
            (match r {
                Ok(Some(v)) => Self::string_model(value@) == Some(v.model()),
                Ok(None) => Self::string_model(value@) is None,
                Err(_) => false,
            }),
    ;

    /// A copy of this stored value, used to carry it into the next timestep.
    fn dup(&self) -> (r: Self)
        ensures
            r.model() == self.model(),
    ;
}

/// Reading one more bit multiplies the value so far by two and adds the new
/// bit's weight.
proof fn lemma_bits_val_take_succ(bits: Seq<Bit>, i: int)
    requires
        0 <= i < bits.len(),
    ensures
        bits_val(bits.take(i + 1)) == bits_val(bits.take(i)) * 2 + bit_num(bits[i]),
{
    assert(bits.take(i + 1).drop_last() =~= bits.take(i));
    assert(bits.take(i + 1).last() == bits[i]);
}

/// A vector's value is at least the value of any of its prefixes.
proof fn lemma_bits_val_take_le(bits: Seq<Bit>, i: int)
    requires
        0 <= i <= bits.len(),
    ensures
        bits_val(bits.take(i)) <= bits_val(bits),
    decreases bits.len() - i,
{
    if i < bits.len() {
        lemma_bits_val_take_succ(bits, i);
        lemma_bits_val_take_le(bits, i + 1);
    } else {
        assert(bits.take(i) =~= bits);
    }
}

impl ValueType for u128 {
    type Model = u128;

    open spec fn model(&self) -> u128 {
        *self
    }

    open spec fn empty_model() -> u128 {
        0
    }

    open spec fn scalar_model(value: Bit) -> Result<Option<u128>, Error> {
        Self::vector_model(seq![value])
    }

    open spec fn vector_model(value: Seq<Bit>) -> Result<Option<u128>, Error> {
        if value.len() == 0 || bits_val(value) > u128::MAX {
            Err(Error::ParseIntError)
        } else {
            Ok(Some(bits_val(value) as u128))
        }
    }

    open spec fn real_model(value: Seq<char>) -> Option<u128> {
        None
    }

    open spec fn string_model(value: Seq<char>) -> Option<u128> {
        None
    }

    /// A fresh numeric signal starts at zero.
    fn empty(item: &VarDecl) -> (r: Self) {
        0
    }

    fn from_scalar(value: Bit) -> (r: Result<Option<Self>, Error>) {
        let v = vec![value];
        proof {
            assert(v@ =~= seq![value]);
        }
        Self::from_vector(&v)
    }

    /// Decodes the vector most-significant-bit first; fails on an empty
    /// vector and when the value does not fit in the width of this type.
    fn from_vector(value: &Vec<Bit>) -> (r: Result<Option<Self>, Error>) {
        if value.len() == 0 {
            return Err(Error::ParseIntError);
        }
        let mut acc: u128 = 0;
        let mut i: usize = 0;
        while i < value.len()
            invariant
                0 < value@.len(),
                i <= value@.len(),
                acc == bits_val(value@.take(i as int)),
            decreases value@.len() - i,
        {
            let bn: u128 = match value[i] {
                Bit::V0 => 0,
                _ => 1,
            };
            proof {
                lemma_bits_val_take_succ(value@, i as int);
            }
            if acc > (u128::MAX - bn) / 2 {
                proof {
                    lemma_bits_val_take_le(value@, i + 1);
                }
                return Err(Error::ParseIntError);
            }
            acc = acc * 2 + bn;
            i = i + 1;
        }
        proof {
            assert(value@.take(value@.len() as int) =~= value@);
        }
        Ok(Some(acc))
    }

    /// A numeric representation has no opinion on real-valued changes.
    fn from_real(value: String) -> (r: Result<Option<Self>, Error>) {
        Ok(None)
    }

    /// A numeric representation has no opinion on text changes.
    fn from_string(value: String) -> (r: Result<Option<Self>, Error>) {
        Ok(None)
    }

    fn dup(&self) -> (r: Self) {
        *self
    }
}

impl ValueType for String {
    type Model = Seq<char>;

    open spec fn model(&self) -> Seq<char> {
        self@
    }

    open spec fn empty_model() -> Seq<char> {
        Seq::empty()
    }

    open spec fn scalar_model(value: Bit) -> Result<Option<Seq<char>>, Error> {
        Self::vector_model(seq![value])
    }

    open spec fn vector_model(value: Seq<Bit>) -> Result<Option<Seq<char>>, Error> {
        Ok(Some(bitstring(value, 'X', 'Z')))
    }

    open spec fn real_model(value: Seq<char>) -> Option<Seq<char>> {
        Some(value)
    }

    open spec fn string_model(value: Seq<char>) -> Option<Seq<char>> {
        Some(value)
    }

    /// A fresh text signal starts as the empty string.
    fn empty(item: &VarDecl) -> (r: Self) {
        String::new()
    }

    fn from_scalar(value: Bit) -> (r: Result<Option<Self>, Error>) {
        let v = vec![value];
        proof {
            assert(v@ =~= seq![value]);
        }
        Self::from_vector(&v)
    }

    /// Keeps the literal bit text, with `X` and `Z` markers preserved.
    fn from_vector(value: &Vec<Bit>) -> (r: Result<Option<Self>, Error>) {
        Ok(Some(to_bitstring(value, 'X', 'Z')))
    }

    /// Keeps the real's decimal text.
    fn from_real(value: String) -> (r: Result<Option<Self>, Error>) {
        Ok(Some(value))
    }

    /// Keeps the text as given.
    fn from_string(value: String) -> (r: Result<Option<Self>, Error>) {
        Ok(Some(value))
    }

    fn dup(&self) -> (r: Self) {
        self.clone()
    }
}

} // verus!
