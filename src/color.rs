use vstd::prelude::*;

verus! {

/// A color given by three 8-bit sRGB channels.
#[derive(Debug, Clone, Copy, PartialEq, Eq, Structural)]
pub struct RGB {
    pub red: u8,
    pub green: u8,
    pub blue: u8,
}

impl RGB {
    /// Creates a color from its three channels.
    pub fn new(red: u8, green: u8, blue: u8) -> (c: Self)
        ensures
            c.red == red,
            c.green == green,
            c.blue == blue,
    {
        RGB { red, green, blue }
    }

    /// Creates a color from a `[red, green, blue]` byte triple.
    pub fn new_from_array(all: [u8; 3]) -> (c: Self)
        ensures
            c.red == all@[0],
            c.green == all@[1],
            c.blue == all@[2],
    {
        RGB { red: all[0], green: all[1], blue: all[2] }
    }

    /// Creates a color from a packed integer `0xRRGGBB`; bits above the
    /// lowest 24 are ignored.
    pub fn new_from_number(number: u32) -> (c: Self)
        ensures
            c.red == (number / 65536) % 256,
            c.green == (number / 256) % 256,
            c.blue == number % 256,
    {
        let red = ((number >> 16) & 0xFF) as u8;
        let green = ((number >> 8) & 0xFF) as u8;
        let blue = (number & 0xFF) as u8;
        assert(((number >> 16) & 0xFF) == (number / 65536) % 256) by (bit_vector);
        assert(((number >> 8) & 0xFF) == (number / 256) % 256) by (bit_vector);
        assert((number & 0xFF) == number % 256) by (bit_vector);
        RGB { red, green, blue }
    }
}

} // verus!
