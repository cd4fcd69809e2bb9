use vstd::prelude::*;

verus! {

/// A DNA nucleotide.
#[derive(Debug, Copy, Clone, PartialEq, Eq, Structural)]
pub enum Base {
    A,
    C,
    G,
    T,
}

/// The paired base: A with T, C with G.
pub open spec fn complement_of(b: Base) -> Base {
    match b {
        Base::A => Base::T,
        Base::T => Base::A,
        Base::C => Base::G,
        Base::G => Base::C,
    }
}

/// The two-bit code of a base: A=0, C=1, G=2, T=3.
pub open spec fn code_of(b: Base) -> u64 {
    match b {
        Base::A => 0,
        Base::C => 1,
        Base::G => 2,
        Base::T => 3,
    }
}

/// The base whose code is `n`, if `n` is a code at all.
pub open spec fn base_of_code(n: u64) -> Option<Base> {
    if n == 0 {
        Some(Base::A)
    } else if n == 1 {
        Some(Base::C)
    } else if n == 2 {
        Some(Base::G)
    } else if n == 3 {
        Some(Base::T)
    } else {
        None
    }
}

impl Base {
    /// Complement of a DNA base.
    pub fn complement(&self) -> (r: Base)
        ensures
            r == complement_of(*self),
    {
        match *self {
            Base::A => Base::T,
            Base::T => Base::A,
            Base::C => Base::G,
            Base::G => Base::C,
        }
    }

    /// The base with two-bit code `num`; `None` unless `num` is 0, 1, 2 or 3.
    pub fn from_u64(num: u64) -> (r: Option<Base>)
        ensures
            r == base_of_code(num),
            r is Some <==> num < 4,
    {
        match num {
            0 => Some(Base::A),
            1 => Some(Base::C),
            2 => Some(Base::G),
            3 => Some(Base::T),
            _ => None,
        }
    }

    /// The two-bit code of this base.
    pub fn to_u64(&self) -> (r: u64)
        ensures
            r == code_of(*self),
            r < 4,
    {
        match *self {
            Base::A => 0,
            Base::C => 1,
            Base::G => 2,
            Base::T => 3,
        }
    }

    /// The one-letter name of this base.
    pub fn to_str(&self) -> (r: &'static str)
        ensures
            r@ == seq![symbol_of(*self)],
    {
        proof {
            reveal_strlit("A");
            reveal_strlit("C");
            reveal_strlit("G");
            reveal_strlit("T");
        }
        match *self {
            Base::A => "A",
            Base::C => "C",
            Base::G => "G",
            Base::T => "T",
        }
    }
}

/// The one-letter name of a base.
pub open spec fn symbol_of(b: Base) -> char {
    match b {
        Base::A => 'A',
        Base::C => 'C',
        Base::G => 'G',
        Base::T => 'T',
    }
}

/// Complementing twice gives the base back.
pub proof fn lemma_complement_involution(b: Base)
    ensures
        complement_of(complement_of(b)) == b,
{
}

/// Codes and bases correspond one to one: decoding a base's code gives the base,
/// and every code that decodes comes from the base it decodes to.
pub proof fn lemma_code_round_trip(b: Base, n: u64)
    ensures
        base_of_code(code_of(b)) == Some(b),
        base_of_code(n) is Some ==> code_of(base_of_code(n)->0) == n,
{
}

} // verus!
