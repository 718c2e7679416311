use fcnt::color::{err, info, title, warn, Color, Effect};

#[test]
fn color_test_color() {
    let s = "Hello World";
    println!(
        "yellow + underline: {}\n",
        Color::yellow(&s, Effect::Underline)
    );
    println!("title: {}", title(&s));
    println!("info: {}", info(&s));
    println!("warn: {}", warn(&s));
    println!("err: {}", err(&s));
}

#[test]
fn color_me_wraps_in_selected_codes() {
    assert_eq!(
        fcnt::color::color_me("x", Color::Cyan, Effect::Dark),
        "\x1b[2;36mx\x1b[0m"
    );
    assert_eq!(
        Effect::bold("x", Color::BrightWhite),
        "\x1b[1;97mx\x1b[0m"
    );
    assert_eq!(Color::grey("x", Effect::Blink), "\x1b[5;90mx\x1b[0m");
}

#[test]
fn color_title_uses_default_color() {
    assert_eq!(title(&"t"), "\x1b[4;99mt\x1b[0m");
}
