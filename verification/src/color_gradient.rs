use vstd::prelude::*;

verus! {

/// Opaque white, as the bit patterns of its four channels (red, green, blue, alpha, from the
/// high bits down): the default sRGBA color.
pub const WHITE: u128 = 0x3f80_0000_3f80_0000_3f80_0000_3f80_0000u128;

/// Opaque black, as the bit patterns of its four channels.
pub const BLACK: u128 = 0x3f80_0000u128;

/// The most color stops a gradient holds.
pub const MAX_STOPS: usize = 8;

/// Struct representing a sequence of color stops, evenly spaced. Up to 8 stops are
/// supported. Each color is held as the bit patterns of its four channels.
#[derive(Debug, Clone, Copy)]
pub struct ColorGradient {
    /// Number of color stops.
    pub num_colors: usize,
    /// Array of color stops.
    pub colors: [u128; 8],
}

impl ColorGradient {
    /// The number of stops is within the capacity.
    pub open spec fn wf(&self) -> bool {
        self.num_colors <= MAX_STOPS
    }

    /// The color stops, in order.
    pub open spec fn stops(&self) -> Seq<u128> {
        self.colors@.take(self.num_colors as int)
    }

    /// Construct a new color gradient from an array of colors. The slots past the stops hold
    /// the default color.
    pub fn new(colors: &[u128]) -> (res: Self)
        requires
            colors@.len() <= MAX_STOPS,
        ensures
            res.wf(),
            res.num_colors == colors@.len(),
            res.stops() == colors@,
            forall|i: int| colors@.len() <= i < MAX_STOPS ==> res.colors@[i] == WHITE,
    {
        let mut result = ColorGradient { num_colors: colors.len(), colors: [WHITE; 8] };
        let mut i: usize = 0;
        while i < colors.len()
            invariant
                colors@.len() <= MAX_STOPS,
                i <= colors@.len(),
                result.num_colors == colors@.len(),
                result.colors@.len() == MAX_STOPS,
                forall|k: int| 0 <= k < i ==> result.colors@[k] == colors@[k],
                forall|k: int| i <= k < MAX_STOPS ==> result.colors@[k] == WHITE,
            decreases colors@.len() - i,
        {
            result.colors[i] = colors[i];
            i += 1;
        }
        proof {
            assert(result.stops() =~= colors@);
        }
        result
    }

    /// Return the first color in the gradient, if any.
    pub fn first(&self) -> (res: Option<u128>)
        ensures
            res == (if self.num_colors > 0 {
                Some(self.colors@[0])
            } else {
                None
            }),
    {
        if self.num_colors > 0 {
            Some(self.colors[0])
        } else {
            None
        }
    }

    /// Return the last color in the gradient, if any.
    pub fn last(&self) -> (res: Option<u128>)
        requires
            self.wf(),
        ensures
            res == (if self.num_colors > 0 {
                Some(self.colors@[self.num_colors - 1])
            } else {
                None
            }),
    {
        if self.num_colors > 0 {
            Some(self.colors[self.num_colors - 1])
        } else {
            None
        }
    }

    /// Return the number of color stops in the gradient.
    pub fn len(&self) -> (res: usize)
        ensures
            res == self.num_colors,
    {
        self.num_colors
    }

    /// Check if the gradient is empty.
    pub fn is_empty(&self) -> (res: bool)
        ensures
            res == (self.num_colors == 0),
    {
        self.num_colors == 0
    }
}

impl Default for ColorGradient {
    /// A single black stop; every slot holds black.
    fn default() -> (res: Self)
        ensures
            res.num_colors == 1,
            forall|i: int| 0 <= i < MAX_STOPS ==> res.colors@[i] == BLACK,
    {
        ColorGradient { num_colors: 1, colors: [BLACK; 8] }
    }
}

} // verus!
