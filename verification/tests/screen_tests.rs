use os_rs::vga_buffer::Color;
use os_rs::vga_buffer::ColorCode;
use os_rs::vga_buffer::ScreenChar;
use os_rs::vga_buffer::Writer;
use os_rs::vga_buffer::BUFFER_HEIGHT;
use os_rs::vga_buffer::BUFFER_WIDTH;
use os_rs::QemuExitCode;

fn writer() -> Writer {
    Writer::new(ColorCode::new(Color::Yellow, Color::Black))
}

fn row(writer: &Writer, row: usize) -> String {
    (0..BUFFER_WIDTH).map(|col| char::from(writer.read(row, col).ascii_char)).collect()
}

#[test]
fn color_codes() {
    assert_eq!(ColorCode::new(Color::Yellow, Color::Black), ColorCode(0x0e));
    assert_eq!(ColorCode::new(Color::White, Color::Blue), ColorCode(0x1f));
    assert_eq!(ColorCode::new(Color::Black, Color::White), ColorCode(0xf0));
    assert_eq!(ColorCode::new(Color::LightRed, Color::Pink), ColorCode(0xdc));
}

#[test]
fn color_numbers() {
    let colors = [
        Color::Black,
        Color::Blue,
        Color::Green,
        Color::Cyan,
        Color::Red,
        Color::Magenta,
        Color::Brown,
        Color::LightGray,
        Color::DarkGray,
        Color::LightBlue,
        Color::LightGreen,
        Color::LightCyan,
        Color::LightRed,
        Color::Pink,
        Color::Yellow,
        Color::White,
    ];
    for (i, color) in colors.iter().enumerate() {
        assert_eq!(color.code() as usize, i);
    }
}

#[test]
fn a_new_screen_is_empty() {
    let writer = writer();
    assert_eq!(writer.column(), 0);
    for r in 0..BUFFER_HEIGHT {
        assert_eq!(row(&writer, r), " ".repeat(80));
    }
    assert_eq!(writer.read(3, 7), ScreenChar { ascii_char: b' ', color_code: ColorCode(0x0e) });
}

#[test]
fn test_println_simple() {
    let mut writer = writer();
    writer.write_string("test_println_simple output\n");
    assert_eq!(row(&writer, 23).trim_end(), "test_println_simple output");
    assert_eq!(row(&writer, 24), " ".repeat(80));
}

#[test]
fn test_println_many() {
    let mut writer = writer();
    for i in 0..200 {
        writer.write_string(&format!("test_println_many output {}\n", i));
    }
    assert_eq!(row(&writer, 23).trim_end(), "test_println_many output 199");
    assert_eq!(row(&writer, 0).trim_end(), "test_println_many output 176");
    assert_eq!(writer.column(), 0);
}

#[test]
fn test_println_output() {
    let s = "Some test string that fits on a single line";
    let mut writer = writer();
    writer.write_string("\n");
    writer.write_string(s);
    writer.write_string("\n");
    for (i, c) in s.chars().enumerate() {
        let screen_char = writer.read(BUFFER_HEIGHT - 2, i);
        assert_eq!(char::from(screen_char.ascii_char), c);
        assert_eq!(screen_char.color_code, ColorCode(0x0e));
    }
}

#[test]
fn bytes_go_to_the_last_row() {
    let mut writer = writer();
    writer.write_byte(b'H');
    writer.write_byte(b'i');
    assert_eq!(writer.column(), 2);
    assert_eq!(row(&writer, 24).trim_end(), "Hi");
    assert_eq!(row(&writer, 23), " ".repeat(80));
}

#[test]
fn a_full_row_moves_up_when_the_next_byte_comes() {
    let mut writer = writer();
    let line = "x".repeat(80);
    writer.write_string(&line);
    assert_eq!(writer.column(), 80);
    assert_eq!(row(&writer, 24), line);
    writer.write_byte(b'y');
    assert_eq!(writer.column(), 1);
    assert_eq!(row(&writer, 23), line);
    assert_eq!(row(&writer, 24).trim_end(), "y");
}

#[test]
fn bytes_that_cannot_be_printed_show_as_a_box() {
    let mut writer = writer();
    writer.write_string("a\u{e9}\tb~\u{7f}");
    let shown: Vec<u8> = (0..7).map(|col| writer.read(24, col).ascii_char).collect();
    assert_eq!(shown, vec![b'a', 0xfe, 0xfe, 0xfe, b'b', b'~', 0xfe]);
    assert_eq!(writer.column(), 7);
}

#[test]
fn write_byte_writes_any_byte_but_the_line_feed() {
    let mut writer = writer();
    writer.write_byte(0x01);
    writer.write_byte(0xff);
    assert_eq!(writer.read(24, 0).ascii_char, 0x01);
    assert_eq!(writer.read(24, 1).ascii_char, 0xff);
    writer.write_byte(b'\n');
    assert_eq!(writer.read(23, 0).ascii_char, 0x01);
    assert_eq!(writer.read(24, 0).ascii_char, b' ');
}

#[test]
fn exit_codes() {
    assert_eq!(QemuExitCode::Success.code(), 0x10);
    assert_eq!(QemuExitCode::Failed.code(), 0x11);
    assert_eq!(QemuExitCode::Success.exit_status(), 33);
    assert_eq!(QemuExitCode::Failed.exit_status(), 35);
}
