use edcore::position::Point;
use edcore::text_buffer::Error;
use edcore::text_buffer::TextBuffer;
use edcore::util::newline;

fn chars(s: &str) -> Vec<char> {
    s.chars().collect()
}

#[test]
fn insert_line_works() {
    let mut buffer = TextBuffer::from("");
    buffer.insert_line(0, "hello");
    buffer.insert_line(1, "");
    buffer.insert_line(2, "world");

    assert_eq!(buffer.data, chars("helloworld"));
    assert_eq!(buffer.line_sizes, [5, 0, 5]);
}

#[test]
fn remove_line_works() {
    let mut buffer = TextBuffer::from("hello\n\nworld");

    buffer.remove_line(1);
    assert_eq!(buffer.data, chars("helloworld"));
    assert_eq!(buffer.line_sizes, [5, 5]);

    buffer.remove_line(0);
    assert_eq!(buffer.data, chars("world"));
    assert_eq!(buffer.line_sizes, [5]);
}

#[test]
fn insert_line_pads_beyond_end() {
    let mut buffer = TextBuffer::from("");
    buffer.insert_line(2, "world");

    assert_eq!(buffer.line_sizes, [0, 0, 5]);
    assert_eq!(buffer.data, chars("world"));
}

#[test]
fn insert_line_shifts_rows_down() {
    let mut buffer = TextBuffer::from("one\nthree");
    buffer.insert_line(1, "two");

    assert_eq!(buffer.line_sizes, [3, 3, 5]);
    assert_eq!(buffer.data, chars("onetwothree"));
}

#[test]
fn remove_line_out_of_bounds_returns_none() {
    let mut buffer = TextBuffer::from("hello");
    assert_eq!(buffer.remove_line(1), None);
    assert_eq!(buffer.data, chars("hello"));
    assert_eq!(buffer.line_sizes, [5]);
}

#[test]
fn remove_line_returns_removed_text() {
    let mut buffer = TextBuffer::from("hello\nworld");
    assert_eq!(buffer.remove_line(0), Some(String::from("hello")));
    assert_eq!(buffer.data, chars("world"));
    assert_eq!(buffer.line_sizes, [5]);
}

#[test]
fn remove_then_insert_restores_buffer() {
    let mut buffer = TextBuffer::from("one\ntwo\nthree");
    let removed = buffer.remove_line(1).unwrap();
    buffer.insert_line(1, &removed);

    assert_eq!(buffer.data, chars("onetwothree"));
    assert_eq!(buffer.line_sizes, [3, 3, 5]);
}

#[test]
fn from_splits_crlf_and_keeps_lone_cr() {
    let crlf = TextBuffer::from("a\r\nb");
    assert_eq!(crlf.line_sizes, [1, 1]);
    assert_eq!(crlf.data, chars("ab"));

    let lone = TextBuffer::from("a\rb");
    assert_eq!(lone.line_sizes, [3]);
    assert_eq!(lone.data, chars("a\rb"));
}

#[test]
fn from_text_has_no_path_and_origin_cursor() {
    let buffer = TextBuffer::from_text("x");
    assert!(buffer.path.is_none());
    assert_eq!(buffer.cursor.into_inner(), (0, 0));
}

#[test]
fn insert_char_appends_at_line_end() {
    let mut buffer = TextBuffer::from("hi");
    assert_eq!(buffer.insert_char(Point::new(2, 0), '!'), Ok(()));
    assert_eq!(buffer.data, chars("hi!"));
    assert_eq!(buffer.line_sizes, [3]);
}

#[test]
fn insert_char_in_second_row() {
    let mut buffer = TextBuffer::from("hello\norld");
    assert_eq!(buffer.insert_char(Point::new(0, 1), 'w'), Ok(()));
    assert_eq!(buffer.data, chars("helloworld"));
    assert_eq!(buffer.line_sizes, [5, 5]);
}

#[test]
fn insert_char_out_of_bounds_row_leaves_buffer_unchanged() {
    let mut buffer = TextBuffer::from("hello");
    let at = Point::new(0, 5);
    assert_eq!(buffer.insert_char(at, 'x'), Err(Error::OutOfBounds(at)));
    assert_eq!(buffer.data, chars("hello"));
    assert_eq!(buffer.line_sizes, [5]);
    assert!(buffer.path.is_none());
    assert_eq!(buffer.cursor.into_inner(), (0, 0));
}

#[test]
fn remove_char_returns_removed_value() {
    let mut buffer = TextBuffer::from("hello\nworld");
    assert_eq!(buffer.remove_char(Point::new(1, 1)), Ok('o'));
    assert_eq!(buffer.data, chars("hellowrld"));
    assert_eq!(buffer.line_sizes, [5, 4]);
}

#[test]
fn remove_char_out_of_bounds_row_leaves_buffer_unchanged() {
    let mut buffer = TextBuffer::from("hello");
    let at = Point::new(0, 7);
    assert_eq!(buffer.remove_char(at), Err(Error::OutOfBounds(at)));
    assert_eq!(buffer.data, chars("hello"));
    assert_eq!(buffer.line_sizes, [5]);
}

#[test]
fn remove_char_out_of_bounds_column() {
    let mut buffer = TextBuffer::from("hello");
    let at = Point::new(5, 0);
    assert_eq!(buffer.remove_char(at), Err(Error::OutOfBounds(at)));
    assert_eq!(buffer.data, chars("hello"));
}

#[test]
fn replace_char_returns_old_value() {
    let mut buffer = TextBuffer::from("abcd");
    assert_eq!(buffer.replace_char(Point::new(1, 0), 'X'), Ok('b'));
    assert_eq!(buffer.data, chars("aXcd"));
    assert_eq!(buffer.line_sizes, [4]);
}

#[test]
fn replace_char_cannot_touch_last_column() {
    // the span-resolution rule reserves one extra character, so the
    // last character of a line is out of a span's reach
    let mut buffer = TextBuffer::from("abcd");
    let at = Point::new(3, 0);
    assert_eq!(buffer.replace_char(at, 'Z'), Err(Error::OutOfBounds(at)));
    assert_eq!(buffer.data, chars("abcd"));

    let edge = Point::new(2, 0);
    assert_eq!(buffer.replace_char(edge, 'Z'), Ok('c'));
    assert_eq!(buffer.data, chars("abZd"));
}

#[test]
fn insert_str_splices_into_line() {
    let mut buffer = TextBuffer::from("abcd");
    assert_eq!(buffer.insert_str(Point::new(1, 0), "XY"), Ok(()));
    assert_eq!(buffer.data, chars("aXYbcd"));
    assert_eq!(buffer.line_sizes, [6]);
}

#[test]
fn insert_str_bound_check_reserves_one_character() {
    let mut buffer = TextBuffer::from("abcd");
    let at = Point::new(2, 0);
    assert_eq!(buffer.insert_str(at, "XY"), Err(Error::OutOfBounds(at)));
    assert_eq!(buffer.data, chars("abcd"));
    assert_eq!(buffer.line_sizes, [4]);
}

#[test]
fn remove_str_returns_removed_text() {
    let mut buffer = TextBuffer::from("abcdef");
    assert_eq!(
        buffer.remove_str(Point::new(1, 0), 3),
        Ok(String::from("bcd"))
    );
    assert_eq!(buffer.data, chars("aef"));
    assert_eq!(buffer.line_sizes, [3]);
}

#[test]
fn remove_str_out_of_bounds_span() {
    let mut buffer = TextBuffer::from("abcdef");
    let at = Point::new(2, 0);
    assert_eq!(buffer.remove_str(at, 4), Err(Error::OutOfBounds(at)));
    assert_eq!(buffer.data, chars("abcdef"));
    assert_eq!(buffer.line_sizes, [6]);
}

#[test]
fn replace_str_keeps_line_length() {
    let mut buffer = TextBuffer::from("abcdef");
    assert_eq!(
        buffer.replace_str(Point::new(1, 0), "XYZ"),
        Ok(String::from("bcd"))
    );
    assert_eq!(buffer.data, chars("aXYZef"));
    assert_eq!(buffer.line_sizes, [6]);
}

#[test]
fn save_data_without_path_is_an_error() {
    let buffer = TextBuffer::from("scratch");
    assert_eq!(buffer.save_data(), Err(Error::FileNotSet));
}

#[test]
fn save_data_round_trips_loaded_text() {
    let mut buffer = TextBuffer::from("alpha\nbeta\n");
    buffer.path = Some(String::from("notes.txt"));
    assert_eq!(buffer.save_data(), Ok(String::from("alpha\nbeta\n")));
}

#[test]
fn save_data_appends_final_newline() {
    let mut buffer = TextBuffer::from("alpha\nbeta");
    buffer.path = Some(String::from("notes.txt"));
    assert_eq!(buffer.save_data(), Ok(String::from("alpha\nbeta\n")));
}

#[test]
fn save_data_keeps_empty_lines() {
    let mut buffer = TextBuffer::from("a\n\nb");
    buffer.path = Some(String::from("notes.txt"));
    assert_eq!(buffer.save_data(), Ok(String::from("a\n\nb\n")));
}

#[test]
fn lines_reconstructs_each_row() {
    let buffer = TextBuffer::from("hello\n\nworld");
    let lines = buffer.lines();
    assert_eq!(
        lines,
        vec![String::from("hello"), String::from(""), String::from("world")]
    );
}

#[test]
fn newline_is_a_single_line_feed() {
    assert_eq!(newline(), "\n");
}
