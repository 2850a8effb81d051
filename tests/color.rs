use pitop::color::{Color, ColorGenerator};

const WHEEL: [Color; 16] = [
    Color::Black,
    Color::Red,
    Color::Green,
    Color::Yellow,
    Color::Blue,
    Color::Magenta,
    Color::Cyan,
    Color::Gray,
    Color::DarkGray,
    Color::LightRed,
    Color::LightGreen,
    Color::LightYellow,
    Color::LightBlue,
    Color::LightMagenta,
    Color::LightCyan,
    Color::White,
];

#[test]
fn index_keeps_its_color() {
    let mut gen = ColorGenerator::new();
    let first: Vec<Color> = (0..8).map(|i| gen.idx_to_color_persistant(i)).collect();
    for _ in 0..3 {
        for i in 0..8 {
            assert_eq!(gen.idx_to_color_persistant(i), first[i]);
        }
    }
}

#[test]
fn later_index_leaves_earlier_colors_alone() {
    let mut gen = ColorGenerator::new();
    let c0 = gen.idx_to_color_persistant(0);
    let c9 = gen.idx_to_color_persistant(9);
    assert_eq!(gen.idx_to_color_persistant(0), c0);
    assert_eq!(gen.idx_to_color_persistant(9), c9);
}

#[test]
fn colors_come_from_the_wheel() {
    let mut gen = ColorGenerator::new();
    for i in 0..64 {
        assert!(WHEEL.contains(&gen.idx_to_color_persistant(i)));
    }
}
