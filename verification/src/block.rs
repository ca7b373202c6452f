use vstd::prelude::*;
use vstd::std_specs::cmp::PartialOrdSpecImpl;
use vstd::string::*;
use vstd::arithmetic::power2::{lemma2_to64, pow2};
use core::cmp::Ordering;

verus! {

/// The rank of a tile: one of the eleven magnitudes from 2 up to 2048, in
/// rising order.
#[derive(Clone, Copy, PartialEq, Eq, Ord, Structural, Debug)]
pub enum BlockSize {
    _2,
    _4,
    _8,
    _16,
    _32,
    _64,
    _128,
    _256,
    _512,
    _1024,
    _2048,
}

/// The character that stands for a single decimal digit.
pub open spec fn digit(d: nat) -> char {
    if d == 0 {
        '0'
    } else if d == 1 {
        '1'
    } else if d == 2 {
        '2'
    } else if d == 3 {
        '3'
    } else if d == 4 {
        '4'
    } else if d == 5 {
        '5'
    } else if d == 6 {
        '6'
    } else if d == 7 {
        '7'
    } else if d == 8 {
        '8'
    } else {
        '9'
    }
}

/// The decimal numeral of `n`, most significant digit first.
pub open spec fn decimal(n: nat) -> Seq<char>
    decreases n,
{
    if n < 10 {
        seq![digit(n)]
    } else {
        decimal(n / 10).push(digit(n % 10))
    }
}

impl BlockSize {
    /// The place of the rank in the progression, from 1 for the lowest rank:
    /// the power of two that the magnitude is.
    pub open spec fn spec_exponent(&self) -> u8 {
        match self {
            BlockSize::_2 => 1,
            BlockSize::_4 => 2,
            BlockSize::_8 => 3,
            BlockSize::_16 => 4,
            BlockSize::_32 => 5,
            BlockSize::_64 => 6,
            BlockSize::_128 => 7,
            BlockSize::_256 => 8,
            BlockSize::_512 => 9,
            BlockSize::_1024 => 10,
            BlockSize::_2048 => 11,
        }
    }

    /// Returns the place of the rank in the progression, from 1 for the
    /// lowest rank.
    #[verifier::when_used_as_spec(spec_exponent)]
    pub fn exponent(&self) -> (place: u8)
        ensures
            place == self.spec_exponent(),
    {
        match self {
            BlockSize::_2 => 1,
            BlockSize::_4 => 2,
            BlockSize::_8 => 3,
            BlockSize::_16 => 4,
            BlockSize::_32 => 5,
            BlockSize::_64 => 6,
            BlockSize::_128 => 7,
            BlockSize::_256 => 8,
            BlockSize::_512 => 9,
            BlockSize::_1024 => 10,
            BlockSize::_2048 => 11,
        }
    }

    /// The number written on the tile.
    pub open spec fn magnitude(self) -> nat {
        match self {
            BlockSize::_2 => 2,
            BlockSize::_4 => 4,
            BlockSize::_8 => 8,
            BlockSize::_16 => 16,
            BlockSize::_32 => 32,
            BlockSize::_64 => 64,
            BlockSize::_128 => 128,
            BlockSize::_256 => 256,
            BlockSize::_512 => 512,
            BlockSize::_1024 => 1024,
            BlockSize::_2048 => 2048,
        }
    }

    /// The rank that two tiles of this rank merge into, if there is one.
    pub open spec fn successor(self) -> Option<BlockSize> {
        match self {
            BlockSize::_2 => Some(BlockSize::_4),
            BlockSize::_4 => Some(BlockSize::_8),
            BlockSize::_8 => Some(BlockSize::_16),
            BlockSize::_16 => Some(BlockSize::_32),
            BlockSize::_32 => Some(BlockSize::_64),
            BlockSize::_64 => Some(BlockSize::_128),
            BlockSize::_128 => Some(BlockSize::_256),
            BlockSize::_256 => Some(BlockSize::_512),
            BlockSize::_512 => Some(BlockSize::_1024),
            BlockSize::_1024 => Some(BlockSize::_2048),
            BlockSize::_2048 => None,
        }
    }

    /// The text shown on the tile: its magnitude in decimal.
    pub open spec fn label(self) -> Seq<char> {
        decimal(self.magnitude())
    }

    /// Returns the text shown on the tile.
    pub fn to_string(&self) -> (text: String)
        ensures
            text@ == self.label(),
    {
        proof {
            reveal_with_fuel(decimal, 4);
            reveal_strlit("2");
            reveal_strlit("4");
            reveal_strlit("8");
            reveal_strlit("16");
            reveal_strlit("32");
            reveal_strlit("64");
            reveal_strlit("128");
            reveal_strlit("256");
            reveal_strlit("512");
            reveal_strlit("1024");
            reveal_strlit("2048");
        }
        let text = match self {
            BlockSize::_2 => String::from_str("2"),
            BlockSize::_4 => String::from_str("4"),
            BlockSize::_8 => String::from_str("8"),
            BlockSize::_16 => String::from_str("16"),
            BlockSize::_32 => String::from_str("32"),
            BlockSize::_64 => String::from_str("64"),
            BlockSize::_128 => String::from_str("128"),
            BlockSize::_256 => String::from_str("256"),
            BlockSize::_512 => String::from_str("512"),
            BlockSize::_1024 => String::from_str("1024"),
            BlockSize::_2048 => String::from_str("2048"),
        };
        assert(text@ =~= self.label());
        text
    }

    /// Returns the next rank of the progression, or `None` at its top.
    pub fn next(&self) -> (rank: Option<Self>)
        ensures
            rank == self.successor(),
    {
        match self {
            BlockSize::_2 => Some(BlockSize::_4),
            BlockSize::_4 => Some(BlockSize::_8),
            BlockSize::_8 => Some(BlockSize::_16),
            BlockSize::_16 => Some(BlockSize::_32),
            BlockSize::_32 => Some(BlockSize::_64),
            BlockSize::_64 => Some(BlockSize::_128),
            BlockSize::_128 => Some(BlockSize::_256),
            BlockSize::_256 => Some(BlockSize::_512),
            BlockSize::_512 => Some(BlockSize::_1024),
            BlockSize::_1024 => Some(BlockSize::_2048),
            BlockSize::_2048 => None,
        }
    }
}

/// Ranks are ordered by their place in the progression.
impl PartialOrd for BlockSize {
    fn partial_cmp(&self, other: &Self) -> (order: Option<Ordering>) {
        let here = self.exponent();
        let there = other.exponent();
        if here < there {
            Some(Ordering::Less)
        } else if here == there {
            Some(Ordering::Equal)
        } else {
            Some(Ordering::Greater)
        }
    }
}

impl PartialOrdSpecImpl for BlockSize {
    open spec fn obeys_partial_cmp_spec() -> bool {
        true
    }

    open spec fn partial_cmp_spec(&self, other: &Self) -> Option<Ordering> {
        if self.exponent() < other.exponent() {
            Some(Ordering::Less)
        } else if self.exponent() == other.exponent() {
            Some(Ordering::Equal)
        } else {
            Some(Ordering::Greater)
        }
    }
}

/// The progression of ranks: each rank has its own place, the magnitude is
/// two to the power of the place, and the successor of a rank is the rank one
/// place higher, which is worth twice as much. Only the top rank has none.
pub proof fn lemma_progression(rank: BlockSize, other: BlockSize)
    ensures
        1 <= rank.exponent() <= 11,
        rank.magnitude() == pow2(rank.exponent() as nat),
        rank.exponent() == other.exponent() <==> rank == other,
        rank.exponent() < other.exponent() <==> rank.magnitude() < other.magnitude(),
        rank.successor() is None <==> rank == BlockSize::_2048,
        rank.successor() matches Some(higher) ==> higher.exponent() == rank.exponent() + 1
            && higher.magnitude() == 2 * rank.magnitude(),
{
    lemma2_to64();
}

} // verus!
