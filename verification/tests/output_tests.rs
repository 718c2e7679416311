use fcnt::output::{
    center_justify, color_me, display_width, error, fill_char, info, left_justify, note,
    right_justify, spaces, strong, title, warn, Color, Effect,
};

#[test]
fn output_test_color() {
    let s = "Hello World";
    println!(
        "yellow + underline: {}\n",
        color_me(&s, Color::Yellow, Effect::Underline)
    );
    println!("title: {}", title(&s));
    println!("info : {}", info(&s));
    println!("warn : {}", warn(&s));
    println!("error  : {}", error(&s));
}

#[test]
fn test_align() {
    let s = "HelloWorld";
    assert_eq!(center_justify(&s, 14), String::from("  HelloWorld  "));
    assert_eq!(center_justify(&s, 15), String::from("  HelloWorld   "));
    assert_eq!(left_justify(&s, 15), String::from("HelloWorld     "));
    assert_eq!(right_justify(&s, 15), String::from("     HelloWorld"));

    let t = title(
        &vec![
            left_justify(&"Name", 8),
            right_justify(&"Files", 5),
            right_justify(&"Dirs", 5),
            right_justify(&"Size", 9),
        ]
        .join(" "),
    );

    println!("{}", t);
    assert_eq!(
        t,
        "\x1b[4;92mName     Files  Dirs      Size\x1b[0m".to_string()
    );
}

#[test]
fn test_non_ascii() {
    let s1 = "Hello World!";
    let s2 = "\u{4f60}\u{597d} Rust";
    let s3 = "S\u{e9}amile: \u{1f30a}\u{1f600}";
    let s4 = "EVA\u{ff0c}\u{4eba}\u{306e}\u{4f5c}\u{308a}\u{51fa}\u{3057}\u{305f}\u{7269}";

    let aligned_s1 = right_justify(&s1, 25);
    let aligned_s2 = center_justify(&s2, 25);
    let aligned_s3 = left_justify(&s3, 25);
    let aligned_s4 = left_justify(&s4, 25);

    println!("s1 => |{}|", aligned_s1);
    println!("s2 => |{}|", aligned_s2);
    println!("s3 => |{}|", aligned_s3);
    println!("s3 => |{}|", aligned_s4);

    assert_eq!(aligned_s1.len(), 25);
    assert_eq!(aligned_s2.len(), 27);
    assert_eq!(aligned_s3.len(), 30);
    assert_eq!(aligned_s4.len(), 34);
}

#[test]
fn test_color_me() {
    assert_eq!(
        color_me(&"hello", Color::Red, Effect::Bold),
        "\x1b[1;31mhello\x1b[0m"
    );
    assert_eq!(
        color_me(&"world", Color::Green, Effect::Underline),
        "\x1b[4;32mworld\x1b[0m"
    );
}

#[test]
fn test_title() {
    assert_eq!(title(&"Welcome"), "\x1b[4;92mWelcome\x1b[0m");
}

#[test]
fn test_info() {
    assert_eq!(
        info(&"This is an information"),
        "\x1b[0;96mThis is an information\x1b[0m"
    );
}

#[test]
fn test_note() {
    assert_eq!(
        note(&"Note: this is important"),
        "\x1b[0;35mNote: this is important\x1b[0m"
    );
}

#[test]
fn test_warn() {
    assert_eq!(
        warn(&"Warning: something may go wrong"),
        "\x1b[1;33mWarning: something may go wrong\x1b[0m"
    );
}

#[test]
fn test_error() {
    assert_eq!(
        error(&"Error: something went wrong"),
        "\x1b[1;31mError: something went wrong\x1b[0m"
    );
}

#[test]
fn test_strong() {
    assert_eq!(strong(&"strong text"), "\x1b[1;99mstrong text\x1b[0m");
}

#[test]
fn test_fill_char() {
    assert_eq!(fill_char('-', 5), "-----");
    assert_eq!(fill_char('*', 3), "***");
}

#[test]
fn test_spaces() {
    assert_eq!(spaces(3), "   ");
    assert_eq!(spaces(0), "");
}

#[test]
fn test_center_justify() {
    assert_eq!(center_justify(&"hello", 10), "  hello   ");
    assert_eq!(center_justify(&"world", 9), "  world  ");
}

#[test]
fn test_left_justify() {
    assert_eq!(left_justify(&"hello", 8), "hello   ");
    assert_eq!(left_justify(&"world", 6), "world ");
}

#[test]
fn test_right_justify() {
    assert_eq!(right_justify(&"hello", 8), "   hello");
    assert_eq!(right_justify(&"world", 6), " world");
}

#[test]
fn display_width_counts_wide_chars_double() {
    assert_eq!(display_width(&"hello".to_string()), 5);
    assert_eq!(display_width(&"\u{4f60}\u{597d}".to_string()), 4);
    assert_eq!(display_width(&String::new()), 0);
}
