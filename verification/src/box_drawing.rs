//! Box-drawing characters, looked up by the lines that meet in a cell.

use vstd::prelude::*;

verus! {

/// The style of one line.
#[derive(Copy, Clone, Debug, Hash, Eq, PartialEq, Ord, PartialOrd, Structural)]
pub enum LineStyle {
    Absent,
    Normal,
    Heavy,
    Rounded,
}

impl LineStyle {
    pub fn is_none(&self) -> (b: bool)
        ensures
            b == (*self == LineStyle::Absent),
    {
        matches!(self, LineStyle::Absent)
    }

    pub fn is_normal(&self) -> (b: bool)
        ensures
            b == (*self == LineStyle::Normal),
    {
        matches!(self, LineStyle::Normal)
    }

    pub fn is_heavy(&self) -> (b: bool)
        ensures
            b == (*self == LineStyle::Heavy),
    {
        matches!(self, LineStyle::Heavy)
    }

    pub fn is_rounded(&self) -> (b: bool)
        ensures
            b == (*self == LineStyle::Rounded),
    {
        matches!(self, LineStyle::Rounded)
    }

    pub fn not_none(&self) -> (b: bool)
        ensures
            b == (*self != LineStyle::Absent),
    {
        !self.is_none()
    }

    pub fn not_normal(&self) -> (b: bool)
        ensures
            b == (*self != LineStyle::Normal),
    {
        !self.is_normal()
    }

    pub fn not_heavy(&self) -> (b: bool)
        ensures
            b == (*self != LineStyle::Heavy),
    {
        !self.is_heavy()
    }

    pub fn not_rounded(&self) -> (b: bool)
        ensures
            b == (*self != LineStyle::Rounded),
    {
        !self.is_rounded()
    }
}

/// The lines that leave a cell in the four directions, and the number of
/// segments that each is drawn with: one for a solid line, two to four for
/// a dashed one.
#[derive(Copy, Clone, Debug, Hash, Eq, PartialEq, Ord, PartialOrd, Structural)]
pub struct Symbol {
    up: LineStyle,
    down: LineStyle,
    left: LineStyle,
    right: LineStyle,
    segments_count: u8,
}

/// The mathematical model of a [`Symbol`].
pub struct SymbolView {
    pub up: LineStyle,
    pub down: LineStyle,
    pub left: LineStyle,
    pub right: LineStyle,
    pub segments_count: nat,
}

impl View for Symbol {
    type V = SymbolView;

    closed spec fn view(&self) -> SymbolView {
        SymbolView {
            up: self.up,
            down: self.down,
            left: self.left,
            right: self.right,
            segments_count: self.segments_count as nat,
        }
    }
}

/// Bit 0 for a line up, bit 1 for a line down, bit 2 for a line to the
/// left, bit 3 for a line to the right.
pub open spec fn direction_bits(symbol: SymbolView) -> nat {
    (if symbol.up != LineStyle::Absent {
        1nat
    } else {
        0nat
    }) + (if symbol.down != LineStyle::Absent {
        2nat
    } else {
        0nat
    }) + (if symbol.left != LineStyle::Absent {
        4nat
    } else {
        0nat
    }) + (if symbol.right != LineStyle::Absent {
        8nat
    } else {
        0nat
    })
}

/// Whether `symbol` is a line from left to right and nothing else, of one
/// style.
pub open spec fn is_horizontal(symbol: SymbolView) -> bool {
    direction_bits(symbol) == 12 && symbol.left == symbol.right
}

/// How far the dashed horizontal line of `segments_count` segments stands
/// behind the solid one.
pub open spec fn segments_offset(segments_count: nat) -> nat
    recommends
        1 <= segments_count <= 4,
{
    if segments_count == 1 {
        0x00
    } else if segments_count == 2 {
        0x4c
    } else if segments_count == 3 {
        0x04
    } else {
        0x08
    }
}

/// The code point of the character of `symbol`: for a horizontal line the
/// light line of its number of segments, or the heavy one that follows it;
/// for every other symbol the light solid horizontal line.
pub open spec fn glyph_code(symbol: SymbolView) -> nat {
    if is_horizontal(symbol) {
        0x2500 + segments_offset(symbol.segments_count) + (if symbol.left == LineStyle::Heavy {
            1nat
        } else {
            0nat
        })
    } else {
        0x2500
    }
}

/// The character that the table of known symbols holds for `symbol`.
pub open spec fn known_glyph(symbol: SymbolView) -> Option<char> {
    if symbol.segments_count != 1 {
        None
    } else if symbol.up == LineStyle::Absent && symbol.down == LineStyle::Absent && symbol.left
        == LineStyle::Absent && symbol.right == LineStyle::Absent {
        Some(' ')
    } else if symbol.up == LineStyle::Normal && symbol.down == LineStyle::Normal && symbol.left
        == LineStyle::Absent && symbol.right == LineStyle::Absent {
        Some('\u{2500}')
    } else {
        None
    }
}

impl Symbol {
    /// Every symbol is drawn with one to four segments.
    #[verifier::type_invariant]
    spec fn well_formed(self) -> bool {
        1 <= self.segments_count <= 4
    }

    /// The symbol with the given lines and number of segments.
    pub fn new(
        up: LineStyle,
        down: LineStyle,
        left: LineStyle,
        right: LineStyle,
        segments_count: u8,
    ) -> (symbol: Symbol)
        requires
            1 <= segments_count <= 4,
        ensures
            symbol@ == (SymbolView {
                up,
                down,
                left,
                right,
                segments_count: segments_count as nat,
            }),
    {
        Symbol { up, down, left, right, segments_count }
    }

    /// The symbol with the given lines and number of segments, where the
    /// number is one to four.
    pub fn try_new(
        up: LineStyle,
        down: LineStyle,
        left: LineStyle,
        right: LineStyle,
        segments_count: u8,
    ) -> (symbol: Option<Symbol>)
        ensures
            symbol is Some <==> 1 <= segments_count <= 4,
            symbol matches Some(s) ==> s@ == (SymbolView {
                up,
                down,
                left,
                right,
                segments_count: segments_count as nat,
            }),
    {
        if 1 <= segments_count && segments_count <= 4 {
            Some(Symbol::new(up, down, left, right, segments_count))
        } else {
            None
        }
    }

    pub fn has_up(&self) -> (b: bool)
        ensures
            b == (self@.up != LineStyle::Absent),
    {
        self.up.not_none()
    }

    pub fn has_down(&self) -> (b: bool)
        ensures
            b == (self@.down != LineStyle::Absent),
    {
        self.down.not_none()
    }

    pub fn has_left(&self) -> (b: bool)
        ensures
            b == (self@.left != LineStyle::Absent),
    {
        self.left.not_none()
    }

    pub fn has_right(&self) -> (b: bool)
        ensures
            b == (self@.right != LineStyle::Absent),
    {
        self.right.not_none()
    }

    /// The directions in which a line leaves the cell, one bit each.
    pub fn directions_as_bits(&self) -> (bits: u32)
        ensures
            bits == direction_bits(self@),
    {
        let mut result: u32 = 0;
        if self.has_up() {
            result |= 0b0001;
            assert(0u32 | 1 == 1) by (bit_vector);
        }
        if self.has_down() {
            assert(0u32 | 2 == 2 && 1u32 | 2 == 3) by (bit_vector);
            result |= 0b0010;
        }
        if self.has_left() {
            assert(0u32 | 4 == 4 && 1u32 | 4 == 5 && 2u32 | 4 == 6 && 3u32 | 4 == 7)
                by (bit_vector);
            result |= 0b0100;
        }
        if self.has_right() {
            assert(0u32 | 8 == 8 && 1u32 | 8 == 9 && 2u32 | 8 == 10 && 3u32 | 8 == 11 && 4u32 | 8
                == 12 && 5u32 | 8 == 13 && 6u32 | 8 == 14 && 7u32 | 8 == 15) by (bit_vector);
            result |= 0b1000;
        }
        result
    }

    /// The character of this symbol.
    pub fn get_char(&self) -> (c: char)
        ensures
            c as nat == glyph_code(self@),
    {
        proof {
            use_type_invariant(self);
        }
        let bits: u32 = self.directions_as_bits();
        if bits == 0b1100 && self.left == self.right {
            let heavy = self.left.is_heavy();
            if self.segments_count == 1 {
                if heavy {
                    '\u{2501}'
                } else {
                    '\u{2500}'
                }
            } else if self.segments_count == 2 {
                if heavy {
                    '\u{254d}'
                } else {
                    '\u{254c}'
                }
            } else if self.segments_count == 3 {
                if heavy {
                    '\u{2505}'
                } else {
                    '\u{2504}'
                }
            } else {
                if heavy {
                    '\u{2509}'
                } else {
                    '\u{2508}'
                }
            }
        } else {
            '\u{2500}'
        }
    }
}

/// The character that the table of known symbols holds for `symbol`.
pub fn lookup_symbol(symbol: &Symbol) -> (c: Option<char>)
    ensures
        c == known_glyph(symbol@),
{
    let blank = Symbol::new(
        LineStyle::Absent,
        LineStyle::Absent,
        LineStyle::Absent,
        LineStyle::Absent,
        1,
    );
    let line = Symbol::new(
        LineStyle::Normal,
        LineStyle::Normal,
        LineStyle::Absent,
        LineStyle::Absent,
        1,
    );
    if *symbol == blank {
        Some(' ')
    } else if *symbol == line {
        Some('\u{2500}')
    } else {
        None
    }
}

} // verus!
