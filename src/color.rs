//! Stable display colours for series indices.
use vstd::prelude::*;
use rand::seq::SliceRandom;

verus! {

/// The sixteen terminal colours.
#[derive(Clone, Copy, Debug, PartialEq, Eq)]
pub enum Color {
    Black,
    Red,
    Green,
    Yellow,
    Blue,
    Magenta,
    Cyan,
    Gray,
    DarkGray,
    LightRed,
    LightGreen,
    LightYellow,
    LightBlue,
    LightMagenta,
    LightCyan,
    White,
}

/// The colours a new index may get.
pub open spec fn wheel() -> Seq<Color> {
    seq![
        Color::Black,
        Color::Red,
        Color::Green,
        Color::Yellow,
        Color::Blue,
        Color::Magenta,
        Color::Cyan,
        Color::Gray,
        Color::DarkGray,
        Color::LightRed,
        Color::LightGreen,
        Color::LightYellow,
        Color::LightBlue,
        Color::LightMagenta,
        Color::LightCyan,
        Color::White,
    ]
}

/// Relies on rand's `SliceRandom::choose`, drawing from the thread-local
/// generator: `None` for an empty slice, otherwise one of its elements.
#[verifier::external_body]
fn choose_color(colors: &[Color]) -> (r: Option<Color>)
    ensures
        colors@.len() == 0 <==> r is None,
        r matches Some(c) ==> colors@.contains(c),
{
    colors.choose(&mut rand::thread_rng()).copied()
}

/// A colour of the wheel, drawn at random.
fn rand_color() -> (r: Color)
    ensures
        wheel().contains(r),
{
    let colors: Vec<Color> = vec![
        Color::Black,
        Color::Red,
        Color::Green,
        Color::Yellow,
        Color::Blue,
        Color::Magenta,
        Color::Cyan,
        Color::Gray,
        Color::DarkGray,
        Color::LightRed,
        Color::LightGreen,
        Color::LightYellow,
        Color::LightBlue,
        Color::LightMagenta,
        Color::LightCyan,
        Color::White,
    ];
    proof {
        assert(colors@ =~= wheel());
    }
    match choose_color(colors.as_slice()) {
        Some(c) => c,
        None => {
            proof {
                assert(colors@.len() > 0);
            }
            Color::Black
        },
    }
}

/// Hands out a colour per index and remembers it, so that an index keeps its
/// colour from one call to the next.
pub struct ColorGenerator {
    idx_to_color: Vec<Color>,
}

impl ColorGenerator {
    /// The colours handed out so far, by index.
    pub closed spec fn colors(&self) -> Seq<Color> {
        self.idx_to_color@
    }

    /// A generator that has handed out no colour yet.
    pub fn new() -> (r: ColorGenerator)
        ensures
            r.colors() == Seq::<Color>::empty(),
    {
        ColorGenerator { idx_to_color: Vec::new() }
    }

    /// The colour of `idx`: the one handed out before, if any; otherwise
    /// indices up to `idx` that have none yet each get a colour of the wheel,
    /// drawn at random.
    pub fn idx_to_color_persistant(&mut self, idx: usize) -> (r: Color)
        requires
            idx < usize::MAX,
        ensures
            final(self).colors().len() == if idx < old(self).colors().len() {
                old(self).colors().len()
            } else {
                idx as nat + 1
            },
            forall|i: int|
                0 <= i < old(self).colors().len() ==> #[trigger] final(self).colors()[i] == old(
                    self,
                ).colors()[i],
            forall|i: int|
                old(self).colors().len() <= i < final(self).colors().len() ==> wheel().contains(
                    #[trigger] final(self).colors()[i],
                ),
            r == final(self).colors()[idx as int],
    {
        while idx >= self.idx_to_color.len()
            invariant
                idx < usize::MAX,
                old(self).colors().len() <= self.colors().len(),
                self.colors().len() <= if idx < old(self).colors().len() {
                    old(self).colors().len()
                } else {
                    idx as nat + 1
                },
                forall|i: int|
                    0 <= i < old(self).colors().len() ==> #[trigger] self.colors()[i] == old(
                        self,
                    ).colors()[i],
                forall|i: int|
                    old(self).colors().len() <= i < self.colors().len() ==> wheel().contains(
                        #[trigger] self.colors()[i],
                    ),
            decreases idx + 1 - self.idx_to_color.len(),
        {
            let c = rand_color();
            self.idx_to_color.push(c);
        }
        self.idx_to_color[idx]
    }
}

} // verus!
