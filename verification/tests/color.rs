use cal_rs::color::{colorize, Color};

#[test]
fn each_colour_has_its_code() {
    let codes = [
        (Color::Red, "31"),
        (Color::Green, "32"),
        (Color::Yellow, "33"),
        (Color::Blue, "34"),
        (Color::Magenta, "35"),
        (Color::Cyan, "36"),
        (Color::White, "37"),
    ];
    for (color, code) in codes {
        assert_eq!(colorize("text", color), format!("\x1b[{}mtext\x1b[0m", code));
    }
}

#[test]
fn the_text_stays_as_it_is() {
    assert_eq!(colorize("Done!", Color::Green), "\x1b[32mDone!\x1b[0m");
    assert_eq!(colorize("", Color::Red), "\x1b[31m\x1b[0m");
    assert_eq!(colorize("\u{2588}\u{2591} ", Color::White), "\x1b[37m\u{2588}\u{2591} \x1b[0m");
}

#[test]
fn painted_text_is_not_the_text() {
    assert_ne!(colorize("x", Color::Cyan), "x");
}
