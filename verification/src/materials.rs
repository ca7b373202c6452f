//! The colours in which the board is shown.

use vstd::prelude::*;
use crate::block::BlockSize;

verus! {

/// A colour by its parts: red, green and blue from 0 to 255, and alpha in
/// hundredths, from 0 for a colour that does not show to 100 for one that
/// covers what lies under it.
#[derive(Clone, Copy, Debug, PartialEq, Eq, Structural)]
pub struct Rgba {
    pub red: u8,
    pub green: u8,
    pub blue: u8,
    pub alpha: u8,
}

impl Rgba {
    /// Whether the alpha part is at most 100.
    pub open spec fn well_formed(self) -> bool {
        self.alpha <= 100
    }

    /// The colour with the given parts that covers what lies under it.
    pub open spec fn opaque(red: u8, green: u8, blue: u8) -> Rgba {
        Rgba { red, green, blue, alpha: 100 }
    }
}

/// The colours of the tiles, of the text on them and of the board.
#[derive(Clone, Copy, Debug, PartialEq, Eq, Structural)]
pub struct Materials {
    pub _2_color: Rgba,
    pub _4_color: Rgba,
    pub _8_color: Rgba,
    pub _16_color: Rgba,
    pub _32_color: Rgba,
    pub _64_color: Rgba,
    pub _128_color: Rgba,
    pub _256_color: Rgba,
    pub _512_color: Rgba,
    pub _1024_color: Rgba,
    pub _2048_color: Rgba,
    pub empty_color: Rgba,
    pub debug_color: Rgba,
    pub text_primary_color: Rgba,
    pub text_inverted_color: Rgba,
    pub transparent_color: Rgba,
}

impl Materials {
    /// The colour of a tile of `rank`.
    pub open spec fn color_of(self, rank: BlockSize) -> Rgba {
        match rank {
            BlockSize::_2 => self._2_color,
            BlockSize::_4 => self._4_color,
            BlockSize::_8 => self._8_color,
            BlockSize::_16 => self._16_color,
            BlockSize::_32 => self._32_color,
            BlockSize::_64 => self._64_color,
            BlockSize::_128 => self._128_color,
            BlockSize::_256 => self._256_color,
            BlockSize::_512 => self._512_color,
            BlockSize::_1024 => self._1024_color,
            BlockSize::_2048 => self._2048_color,
        }
    }

    /// Whether every colour is well formed.
    pub open spec fn well_formed(self) -> bool {
        &&& forall|rank: BlockSize| #[trigger] self.color_of(rank).well_formed()
        &&& self.empty_color.well_formed()
        &&& self.debug_color.well_formed()
        &&& self.text_primary_color.well_formed()
        &&& self.text_inverted_color.well_formed()
        &&& self.transparent_color.well_formed()
    }

    /// Whether the text on a tile of `rank` is written in the inverted
    /// colour: on the tiles from 8 to 64 and from 512 on.
    pub open spec fn inverted(rank: BlockSize) -> bool {
        3 <= rank.exponent() <= 6 || 9 <= rank.exponent()
    }

    /// The colours that the game is shown in.
    pub open spec fn palette() -> Materials {
        Materials {
            _2_color: Rgba::opaque(238, 228, 218),
            _4_color: Rgba::opaque(237, 224, 200),
            _8_color: Rgba::opaque(242, 177, 121),
            _16_color: Rgba::opaque(245, 149, 99),
            _32_color: Rgba::opaque(246, 124, 95),
            _64_color: Rgba::opaque(246, 94, 59),
            _128_color: Rgba::opaque(237, 207, 114),
            _256_color: Rgba::opaque(237, 204, 97),
            _512_color: Rgba::opaque(237, 200, 80),
            _1024_color: Rgba::opaque(237, 197, 63),
            _2048_color: Rgba::opaque(237, 194, 46),
            empty_color: Rgba { red: 238, green: 228, blue: 218, alpha: 35 },
            debug_color: Rgba::opaque(220, 20, 60),
            text_primary_color: Rgba::opaque(119, 110, 101),
            text_inverted_color: Rgba::opaque(255, 255, 255),
            transparent_color: Rgba { red: 0, green: 0, blue: 0, alpha: 0 },
        }
    }

    /// Returns the colour of a tile of rank `block_size`.
    pub fn from_block_size(materials: &Materials, block_size: BlockSize) -> (color: Rgba)
        ensures
            color == materials.color_of(block_size),
    {
        match block_size {
            BlockSize::_2 => materials._2_color,
            BlockSize::_4 => materials._4_color,
            BlockSize::_8 => materials._8_color,
            BlockSize::_16 => materials._16_color,
            BlockSize::_32 => materials._32_color,
            BlockSize::_64 => materials._64_color,
            BlockSize::_128 => materials._128_color,
            BlockSize::_256 => materials._256_color,
            BlockSize::_512 => materials._512_color,
            BlockSize::_1024 => materials._1024_color,
            BlockSize::_2048 => materials._2048_color,
        }
    }

    /// Returns whether the text on a tile of rank `block_size` is written in
    /// the inverted colour.
    pub fn should_use_inverted_color(block_size: &BlockSize) -> (inverted: bool)
        ensures
            inverted == Self::inverted(*block_size),
    {
        match block_size {
            BlockSize::_8 => true,
            BlockSize::_16 => true,
            BlockSize::_32 => true,
            BlockSize::_64 => true,
            BlockSize::_512 => true,
            BlockSize::_1024 => true,
            BlockSize::_2048 => true,
            _ => false,
        }
    }

    /// Returns the colours that the game is shown in.
    pub fn instantiate() -> (materials: Self)
        ensures
            materials == Self::palette(),
            materials.well_formed(),
    {
        let materials = Materials {
            _2_color: Rgba { red: 238, green: 228, blue: 218, alpha: 100 },
            _4_color: Rgba { red: 237, green: 224, blue: 200, alpha: 100 },
            _8_color: Rgba { red: 242, green: 177, blue: 121, alpha: 100 },
            _16_color: Rgba { red: 245, green: 149, blue: 99, alpha: 100 },
            _32_color: Rgba { red: 246, green: 124, blue: 95, alpha: 100 },
            _64_color: Rgba { red: 246, green: 94, blue: 59, alpha: 100 },
            _128_color: Rgba { red: 237, green: 207, blue: 114, alpha: 100 },
            _256_color: Rgba { red: 237, green: 204, blue: 97, alpha: 100 },
            _512_color: Rgba { red: 237, green: 200, blue: 80, alpha: 100 },
            _1024_color: Rgba { red: 237, green: 197, blue: 63, alpha: 100 },
            _2048_color: Rgba { red: 237, green: 194, blue: 46, alpha: 100 },
            empty_color: Rgba { red: 238, green: 228, blue: 218, alpha: 35 },
            debug_color: Rgba { red: 220, green: 20, blue: 60, alpha: 100 },
            text_primary_color: Rgba { red: 119, green: 110, blue: 101, alpha: 100 },
            text_inverted_color: Rgba { red: 255, green: 255, blue: 255, alpha: 100 },
            transparent_color: Rgba { red: 0, green: 0, blue: 0, alpha: 0 },
        };
        assert forall|rank: BlockSize| #[trigger] materials.color_of(rank).well_formed() by {}
        materials
    }
}

} // verus!
