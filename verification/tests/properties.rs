use code_editor::diff::{Builder, Diff};
use code_editor::{Length, Point, Range, Text};

/// A small deterministic generator of numbers below a bound.
struct Numbers {
    state: u64,
}

impl Numbers {
    fn new(seed: u64) -> Self {
        Numbers { state: seed.wrapping_mul(2862933555777941757).wrapping_add(3037000493) }
    }

    fn below(&mut self, bound: usize) -> usize {
        self.state = self.state.wrapping_mul(6364136223846793005).wrapping_add(1442695040888963407);
        ((self.state >> 33) as usize) % bound
    }
}

fn some_line(numbers: &mut Numbers) -> String {
    let letters = ["a", "b", "c", "\u{e9}", "\u{4e2d}", " "];
    let mut line = String::new();
    for _ in 0..numbers.below(6) {
        line.push_str(letters[numbers.below(letters.len())]);
    }
    line
}

fn some_text(numbers: &mut Numbers) -> Text {
    let count = 1 + numbers.below(4);
    let mut lines = Vec::new();
    for _ in 0..count {
        lines.push(some_line(numbers));
    }
    // A text whose last line is empty cannot be read from a string, so it
    // is cut out of a longer one.
    let mut string = lines.join("\n");
    string.push_str("\n.");
    let text = Text::from(string.as_str());
    let end = Point::new(count - 1, lines[count - 1].len());
    text.slice(Range::new(Point::new(0, 0), end))
}

/// The positions of `text` from `from` on, in document order.
fn positions_from(text: &Text, from: Point) -> Vec<Point> {
    let mut positions = Vec::new();
    for (line, content) in text.as_lines().iter().enumerate().skip(from.line) {
        for byte in 0..=content.len() {
            if content.is_char_boundary(byte) && Point::new(line, byte) >= from {
                positions.push(Point::new(line, byte));
            }
        }
    }
    positions
}

/// A script that can be carried out on `text`.
fn some_diff(numbers: &mut Numbers, text: &Text) -> Diff {
    let mut builder = Builder::new();
    let mut point = Point::new(0, 0);
    for _ in 0..numbers.below(7) {
        match numbers.below(3) {
            0 => builder.insert(some_text(numbers)),
            kind => {
                let positions = positions_from(text, point);
                let reach = 1 + numbers.below(4).min(positions.len() - 1);
                let target = positions[numbers.below(reach)];
                let length = target - point;
                if kind == 1 {
                    builder.retain(length);
                } else {
                    builder.delete(length);
                }
                point = target;
            }
        }
    }
    builder.finish()
}

fn carried_out(text: &Text, diff: &Diff) -> Text {
    let mut text = text.clone();
    text.apply_diff(diff.clone());
    text
}

#[test]
fn generated_texts_have_the_length_of_their_lines() {
    let mut numbers = Numbers::new(1);
    for _ in 0..300 {
        let text = some_text(&mut numbers);
        let lines = text.as_lines();
        assert!(!lines.is_empty());
        assert_eq!(text.length(), Length::new(lines.len() - 1, lines[lines.len() - 1].len()));
        assert_eq!(text.clone().into_lines(), lines.to_vec());
    }
}

#[test]
fn take_and_concatenation_undo_each_other() {
    let mut numbers = Numbers::new(2);
    for _ in 0..300 {
        let text = some_text(&mut numbers);
        let positions = positions_from(&text, Point::new(0, 0));
        let at = positions[numbers.below(positions.len())];
        let length = at - Point::new(0, 0);
        let mut rest = text.clone();
        let mut taken = rest.take(length);
        assert_eq!(taken.length(), length);
        assert_eq!(taken, text.slice(Range::new(Point::new(0, 0), at)));
        let mut skipped = text.clone();
        skipped.skip(length);
        assert_eq!(skipped, rest);
        taken += rest;
        assert_eq!(taken, text);
    }
}

#[test]
fn insert_and_delete_undo_each_other() {
    let mut numbers = Numbers::new(3);
    for _ in 0..300 {
        let text = some_text(&mut numbers);
        let inserted = some_text(&mut numbers);
        let positions = positions_from(&text, Point::new(0, 0));
        let at = positions[numbers.below(positions.len())];
        let mut changed = text.clone();
        changed.insert(at, inserted.clone());
        let end = at + inserted.length();
        assert_eq!(changed.slice(Range::new(at, end)), inserted);
        assert_eq!(Range::new(at, end).length(), inserted.length());
        changed.delete(at, inserted.length());
        assert_eq!(changed, text);
    }
}

#[test]
fn inverse_restores_the_text() {
    let mut numbers = Numbers::new(4);
    for _ in 0..500 {
        let text = some_text(&mut numbers);
        let diff = some_diff(&mut numbers, &text);
        let changed = carried_out(&text, &diff);
        let inverse = diff.clone().invert(&text);
        assert_eq!(carried_out(&changed, &inverse), text);
        assert_eq!(inverse.invert(&changed), diff);
    }
}

#[test]
fn composed_script_does_both() {
    let mut numbers = Numbers::new(5);
    for _ in 0..500 {
        let text = some_text(&mut numbers);
        let first = some_diff(&mut numbers, &text);
        let middle = carried_out(&text, &first);
        let second = some_diff(&mut numbers, &middle);
        let last = carried_out(&middle, &second);
        let composed = first.compose(second);
        assert_eq!(carried_out(&text, &composed), last);
    }
}

#[test]
fn composing_in_a_chain_is_associative() {
    let mut numbers = Numbers::new(6);
    for _ in 0..500 {
        let text = some_text(&mut numbers);
        let first = some_diff(&mut numbers, &text);
        let second_text = carried_out(&text, &first);
        let second = some_diff(&mut numbers, &second_text);
        let third_text = carried_out(&second_text, &second);
        let third = some_diff(&mut numbers, &third_text);
        let last_text = carried_out(&third_text, &third);
        let left = first.clone().compose(second.clone()).compose(third.clone());
        let right = first.compose(second.compose(third));
        assert_eq!(left, right);
        assert_eq!(carried_out(&text, &left), last_text);
    }
}

#[test]
fn composing_with_the_inverse_changes_nothing() {
    let mut numbers = Numbers::new(7);
    for _ in 0..300 {
        let text = some_text(&mut numbers);
        let diff = some_diff(&mut numbers, &text);
        let inverse = diff.clone().invert(&text);
        let both = diff.compose(inverse);
        assert_eq!(carried_out(&text, &both), text);
    }
}
