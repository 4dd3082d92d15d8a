use vstd::prelude::*;

verus! {

/// A player colour. The variants are declared in canonical catalogue order.
#[derive(Debug, Clone, Copy, PartialEq, Eq, Hash, Structural)]
pub enum Color {
    Red,
    Green,
    Blue,
    Amber,
    Purple,
    Brown,
    BlueGrey,
}

/// The number of colours in the catalogue.
pub const NUM_COLORS: usize = 7;

/// The catalogue of all colours, in canonical order.
pub open spec fn catalogue() -> Seq<Color> {
    seq![
        Color::Red,
        Color::Green,
        Color::Blue,
        Color::Amber,
        Color::Purple,
        Color::Brown,
        Color::BlueGrey,
    ]
}

/// The colour handed out once nothing else is left: the first of the catalogue.
pub open spec fn default_color() -> Color {
    Color::Red
}

/// The position of a colour in the catalogue.
pub open spec fn index_of(c: Color) -> nat {
    match c {
        Color::Red => 0,
        Color::Green => 1,
        Color::Blue => 2,
        Color::Amber => 3,
        Color::Purple => 4,
        Color::Brown => 5,
        Color::BlueGrey => 6,
    }
}

/// The catalogue holds every colour exactly once, at its index.
pub proof fn lemma_catalogue_index()
    ensures
        catalogue().len() == NUM_COLORS,
        catalogue()[0] == default_color(),
        forall|c: Color| #[trigger] index_of(c) < NUM_COLORS && catalogue()[index_of(c) as int] == c,
        forall|i: int| 0 <= i < NUM_COLORS ==> index_of(#[trigger] catalogue()[i]) == i,
{
    assert(catalogue()[0] == Color::Red);
    assert(catalogue()[1] == Color::Green);
    assert(catalogue()[2] == Color::Blue);
    assert(catalogue()[3] == Color::Amber);
    assert(catalogue()[4] == Color::Purple);
    assert(catalogue()[5] == Color::Brown);
    assert(catalogue()[6] == Color::BlueGrey);
}

/// All colours, in canonical order.
pub fn colors() -> (r: Vec<Color>)
    ensures
        r@ == catalogue(),
{
    vec![
        Color::Red,
        Color::Green,
        Color::Blue,
        Color::Amber,
        Color::Purple,
        Color::Brown,
        Color::BlueGrey,
    ]
}

impl Color {
    /// The position of this colour in the catalogue.
    pub fn index(self) -> (r: usize)
        ensures
            r == index_of(self),
    {
        match self {
            Color::Red => 0,
            Color::Green => 1,
            Color::Blue => 2,
            Color::Amber => 3,
            Color::Purple => 4,
            Color::Brown => 5,
            Color::BlueGrey => 6,
        }
    }
}

} // verus!
