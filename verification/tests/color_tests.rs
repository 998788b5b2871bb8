use simlogtail::color::{get_color_num, Color, Colorized};

#[test]
fn first_color_is_foreground_second_is_background() {
    let h = "x".blue().yellow();
    assert_eq!(h.ansi(), "3443;");
    assert_eq!(h.paint("x"), "\x1b[3443;mx\x1b[0m");
}

#[test]
fn on_makes_the_next_color_a_background() {
    let h = "x".on().yellow();
    assert_eq!(h.ansi(), "43;");
    let h = "x".blue().on().bright().yellow();
    assert_eq!(h.ansi(), "9443;");
    let h = String::from("s").green().on().black();
    assert_eq!(h.ansi(), "3240;");
}

#[test]
fn backgrounds_have_codes() {
    assert_eq!("a".red().blue().ansi(), "3144;");
    assert_eq!("a".on().blue().ansi(), "44;");
    assert_eq!("a".red().black().ansi(), "3140;");
    assert_eq!("a".cyan().bright().yellow().ansi(), "9643;");
    assert_eq!("a".white().yellow().ansi(), "3743;");
}

#[test]
fn bright_and_on_are_idempotent() {
    assert_eq!("a".red().bright().bright().yellow().ansi(), "a".red().bright().yellow().ansi());
    assert_eq!("a".red().on().on().yellow().ansi(), "a".red().on().yellow().ansi());
}

#[test]
fn color_digits_and_default() {
    let all = [
        (Color::Black, '0'), (Color::Red, '1'), (Color::Green, '2'), (Color::Yellow, '3'),
        (Color::Blue, '4'), (Color::Magenta, '5'), (Color::Cyan, '6'), (Color::White, '7'),
        (Color::Notset, '0'), (Color::Unset, '0'),
    ];
    for (c, d) in all.iter() {
        assert_eq!(get_color_num(c), *d);
    }
    assert_eq!(Color::default(), Color::Notset);
}

#[test]
fn styled_value_is_kept() {
    let h = "value".green().black();
    assert_eq!(*h.inner(), "value");
    let h = String::from("owned").on().blue();
    assert_eq!(h.inner(), "owned");
    assert_eq!(h.paint("owned"), "\x1b[44;mowned\x1b[0m");
}
