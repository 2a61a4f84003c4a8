//! Colors for drawing, and picking a color that is not used yet.
use vstd::prelude::*;
use rand::Rng;

verus! {

/// A color given by its red, green and blue components.
#[derive(PartialEq, Eq, Structural, Clone, Copy, Hash, Debug)]
pub struct Color {
    red: u8,
    green: u8,
    blue: u8,
}

impl View for Color {
    type V = (u8, u8, u8);

    closed spec fn view(&self) -> (u8, u8, u8) {
        (self.red, self.green, self.blue)
    }
}

/// A byte from the thread-local generator of `rand`
/// (`rand::thread_rng().gen::<u8>()`); nothing is stated of it.
#[verifier::external_body]
fn random_byte() -> (r: u8) {
    rand::thread_rng().gen::<u8>()
}

/// Whether `color` is in `used`.
fn is_used(used: &Vec<Color>, color: Color) -> (r: bool)
    ensures
        r == used@.contains(color),
{
    let mut i: usize = 0;
    while i < used.len()
        invariant
            i <= used@.len(),
            forall|k: int| 0 <= k < i ==> used@[k] != color,
        decreases used.len() - i,
    {
        if used[i] == color {
            assert(used@[i as int] == color);
            return true;
        }
        i = i + 1;
    }
    false
}

/// How many random colors are drawn before the colors are searched in order.
pub const RANDOM_ATTEMPTS: u32 = 64;

impl Color {
    pub fn new(red: u8, green: u8, blue: u8) -> (r: Self)
        ensures
            r@ == (red, green, blue),
    {
        Color { red, green, blue }
    }

    pub fn black() -> (r: Self)
        ensures
            r@ == (0u8, 0u8, 0u8),
    {
        Color { red: 0, green: 0, blue: 0 }
    }

    /// A random color, different from every color in `used`.
    pub fn random(used: Option<&Vec<Color>>) -> (r: Color)
        requires
            used matches Some(u) ==> exists|c: Color| !u@.contains(c),
        ensures
            used matches Some(u) ==> !u@.contains(r),
    {
        let mut attempt: u32 = 0;
        while attempt < RANDOM_ATTEMPTS
            decreases RANDOM_ATTEMPTS - attempt,
        {
            let color = Color::new(random_byte(), random_byte(), random_byte());
            match used {
                Some(u) => {
                    if !is_used(u, color) {
                        return color;
                    }
                },
                None => {
                    return color;
                },
            }
            attempt = attempt + 1;
        }
        match used {
            Some(u) => Self::first_unused(u),
            None => Self::black(),
        }
    }

    /// The first color, in the order of (red, green, blue), not in `used`.
    fn first_unused(used: &Vec<Color>) -> (r: Color)
        requires
            exists|c: Color| !used@.contains(c),
        ensures
            !used@.contains(r),
    {
        let mut red: u16 = 0;
        while red < 256
            invariant
                red <= 256,
                exists|c: Color| !used@.contains(c),
                forall|c: Color| c.red < red ==> used@.contains(c),
            decreases 256 - red,
        {
            let mut green: u16 = 0;
            while green < 256
                invariant
                    red < 256,
                    green <= 256,
                    forall|c: Color| c.red < red ==> used@.contains(c),
                    forall|c: Color| c.red == red && c.green < green ==> used@.contains(c),
                decreases 256 - green,
            {
                let mut blue: u16 = 0;
                while blue < 256
                    invariant
                        red < 256,
                        green < 256,
                        blue <= 256,
                        forall|c: Color| c.red < red ==> used@.contains(c),
                        forall|c: Color| c.red == red && c.green < green ==> used@.contains(c),
                        forall|c: Color| c.red == red && c.green == green && c.blue < blue ==> used@.contains(c),
                    decreases 256 - blue,
                {
                    let color = Color { red: red as u8, green: green as u8, blue: blue as u8 };
                    if !is_used(used, color) {
                        return color;
                    }
                    blue = blue + 1;
                }
                green = green + 1;
            }
            red = red + 1;
        }
        proof {
            let c = choose|c: Color| !used@.contains(c);
            assert(c.red < 256);
        }
        Color::black()
    }

    pub fn red(&self) -> (r: u8)
        ensures
            r == self@.0,
    {
        self.red
    }

    pub fn green(&self) -> (r: u8)
        ensures
            r == self@.1,
    {
        self.green
    }

    pub fn blue(&self) -> (r: u8)
        ensures
            r == self@.2,
    {
        self.blue
    }
}

} // verus!
