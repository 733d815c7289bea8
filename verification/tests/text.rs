use code_editor::{Length, Point, Range, Text};

fn lines_of(text: &Text) -> Vec<&str> {
    text.as_lines().iter().map(|line| line.as_str()).collect()
}

#[test]
fn text_new_is_one_empty_line() {
    let text = Text::new();
    assert_eq!(lines_of(&text), vec![""]);
    assert!(text.is_empty());
    assert_eq!(text.length(), Length::new(0, 0));
    assert_eq!(Text::default(), text);
}

#[test]
fn text_from_empty_string_is_one_empty_line() {
    let text = Text::from("");
    assert_eq!(lines_of(&text), vec![""]);
    assert!(text.is_empty());
}

#[test]
fn text_from_str_splits_lines() {
    let text = Text::from("ab\ncd");
    assert_eq!(lines_of(&text), vec!["ab", "cd"]);
    assert_eq!(text.length(), Length::new(1, 2));
    assert!(!text.is_empty());
}

#[test]
fn text_from_str_agrees_with_str_lines() {
    let samples = [
        "",
        "a",
        "\n",
        "a\n",
        "a\nb",
        "a\r\nb",
        "a\r\n",
        "a\rb\n",
        "\r",
        "a\r",
        "\r\n\r\n",
        "\n\nx",
        "h\u{e9}llo\nw\u{f6}rld\n\u{1f600}",
        "x\r\r\ny",
    ];
    for sample in samples.iter() {
        let mut expected: Vec<&str> = sample.lines().collect();
        if expected.is_empty() {
            expected.push("");
        }
        assert_eq!(lines_of(&Text::from(*sample)), expected, "for {:?}", sample);
    }
}

#[test]
fn text_length_is_distance_to_the_end() {
    assert_eq!(Text::from("hello").length(), Length::new(0, 5));
    assert_eq!(Text::from("a\nbc\ndef").length(), Length::new(2, 3));
    assert_eq!(Text::from("h\u{e9}").length(), Length::new(0, 3));
}

#[test]
fn text_lines_round_trip_keeps_length() {
    let text = Text::from("one\ntwo\nthree");
    let length = text.length();
    let lines = text.clone().into_lines();
    assert_eq!(lines, vec!["one".to_string(), "two".to_string(), "three".to_string()]);
    let again = Text::from(lines.join("\n").as_str());
    assert_eq!(again.length(), length);
    assert_eq!(again, text);
}

#[test]
fn slice_within_a_line() {
    let text = Text::from("hello\nworld");
    let part = text.slice(Range::new(Point::new(1, 1), Point::new(1, 4)));
    assert_eq!(lines_of(&part), vec!["orl"]);
}

#[test]
fn slice_across_lines() {
    let text = Text::from("hello\nbig\nworld");
    let part = text.slice(Range::new(Point::new(0, 3), Point::new(2, 2)));
    assert_eq!(lines_of(&part), vec!["lo", "big", "wo"]);
}

#[test]
fn slice_of_nothing_is_empty() {
    let text = Text::from("hello\nworld");
    let part = text.slice(Range::new(Point::new(1, 2), Point::new(1, 2)));
    assert!(part.is_empty());
}

#[test]
fn take_splits_the_boundary_line() {
    let mut text = Text::from("hello\nbig\nworld");
    let taken = text.take(Length::new(1, 2));
    assert_eq!(lines_of(&taken), vec!["hello", "bi"]);
    assert_eq!(lines_of(&text), vec!["g", "world"]);
}

#[test]
fn take_within_the_first_line() {
    let mut text = Text::from("hello\nworld");
    let taken = text.take(Length::new(0, 2));
    assert_eq!(lines_of(&taken), vec!["he"]);
    assert_eq!(lines_of(&text), vec!["llo", "world"]);
}

#[test]
fn skip_drops_the_prefix() {
    let mut text = Text::from("hello\nbig\nworld");
    text.skip(Length::new(2, 1));
    assert_eq!(lines_of(&text), vec!["orld"]);
}

#[test]
fn insert_within_a_line() {
    let mut text = Text::from("ab\ncd");
    text.insert(Point::new(1, 1), Text::from("XY"));
    assert_eq!(lines_of(&text), vec!["ab", "cXYd"]);
}

#[test]
fn insert_of_several_lines() {
    let mut text = Text::from("ab");
    text.insert(Point::new(0, 1), Text::from("X\nY"));
    assert_eq!(lines_of(&text), vec!["aX", "Yb"]);
}

#[test]
fn insert_of_three_lines_in_the_middle() {
    let mut text = Text::from("one\ntwo\nthree");
    text.insert(Point::new(1, 2), Text::from("A\nB\nC"));
    assert_eq!(lines_of(&text), vec!["one", "twA", "B", "Co", "three"]);
}

#[test]
fn delete_within_a_line() {
    let mut text = Text::from("ab\ncd");
    text.delete(Point::new(0, 1), Length::new(0, 1));
    assert_eq!(lines_of(&text), vec!["a", "cd"]);
}

#[test]
fn delete_across_lines_joins_the_ends() {
    let mut text = Text::from("hello\nbig\nworld\nend");
    text.delete(Point::new(0, 2), Length::new(2, 3));
    assert_eq!(lines_of(&text), vec!["held", "end"]);
}

#[test]
fn delete_undoes_insert() {
    let mut text = Text::from("hello\nworld");
    let inserted = Text::from("a\nbc\nd");
    let length = inserted.length();
    text.insert(Point::new(1, 2), inserted);
    text.delete(Point::new(1, 2), length);
    assert_eq!(text, Text::from("hello\nworld"));
}

#[test]
fn concatenation_joins_last_and_first_line() {
    let mut text = Text::from("ab\ncd");
    text += Text::from("ef\ngh");
    assert_eq!(lines_of(&text), vec!["ab", "cdef", "gh"]);
    text += Text::new();
    assert_eq!(lines_of(&text), vec!["ab", "cdef", "gh"]);
}

#[test]
fn offsets_count_bytes_not_characters() {
    let mut text = Text::from("h\u{e9}llo");
    text.insert(Point::new(0, 3), Text::from("-"));
    assert_eq!(lines_of(&text), vec!["h\u{e9}-llo"]);
    text.delete(Point::new(0, 1), Length::new(0, 2));
    assert_eq!(lines_of(&text), vec!["h-llo"]);
}

#[test]
fn texts_compare_by_content() {
    assert_eq!(Text::from("a\nb"), Text::from("a\nb"));
    assert_ne!(Text::from("a\nb"), Text::from("a\nc"));
    assert_ne!(Text::from("a\nb"), Text::from("a"));
    assert_eq!(Text::from("a\nb").clone(), Text::from("a\nb"));
}
