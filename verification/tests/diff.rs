use code_editor::diff::{Builder, Diff, Operation};
use code_editor::{Length, Point, Range, Text};

fn operations_of(diff: &Diff) -> Vec<Operation> {
    let mut operations = Vec::new();
    let mut iter = diff.iter();
    while let Some(operation) = iter.next() {
        operations.push(operation.clone());
    }
    operations
}

fn retain(bytes: usize) -> Operation {
    Operation::Retain(Length::new(0, bytes))
}

fn delete(bytes: usize) -> Operation {
    Operation::Delete(Length::new(0, bytes))
}

fn insert(string: &str) -> Operation {
    Operation::Insert(Text::from(string))
}

fn insert_line_break_after(string: &str) -> Operation {
    let text = Text::from(format!("{}\n.", string).as_str());
    let end = Point::new(text.length().lines, 0);
    Operation::Insert(text.slice(Range::new(Point::new(0, 0), end)))
}

fn diff_of(operations: Vec<Operation>) -> Diff {
    let mut builder = Builder::new();
    for operation in operations {
        match operation {
            Operation::Delete(length) => builder.delete(length),
            Operation::Retain(length) => builder.retain(length),
            Operation::Insert(text) => builder.insert(text),
        }
    }
    builder.finish()
}

fn applied(text: &Text, diff: &Diff) -> Text {
    let mut text = text.clone();
    text.apply_diff(diff.clone());
    text
}

#[test]
fn new_diff_is_empty() {
    let diff = Diff::new();
    assert!(diff.is_empty());
    assert_eq!(diff.len(), 0);
    assert_eq!(diff, Diff::default());
    assert_eq!(Builder::new().finish(), diff);
    assert_eq!(Builder::default().finish(), diff);
}

#[test]
fn builder_merges_adjacent_retains() {
    let mut builder = Builder::new();
    builder.retain(Length::new(0, 3));
    builder.retain(Length::new(0, 3));
    builder.insert(Text::from("x"));
    let diff = builder.finish();
    assert_eq!(operations_of(&diff), vec![retain(6), insert("x")]);
}

#[test]
fn builder_merges_adjacent_deletes_and_inserts() {
    let mut builder = Builder::new();
    builder.delete(Length::new(0, 2));
    builder.delete(Length::new(1, 1));
    builder.insert(Text::from("ab"));
    builder.insert(Text::from("c\nd"));
    let diff = builder.finish();
    assert_eq!(
        operations_of(&diff),
        vec![Operation::Delete(Length::new(1, 1)), insert("abc\nd")]
    );
}

#[test]
fn builder_keeps_delete_before_insert() {
    let mut builder = Builder::new();
    builder.delete(Length::new(0, 2));
    builder.insert(Text::from("x"));
    assert_eq!(operations_of(&builder.clone().finish()), vec![delete(2), insert("x")]);

    let mut builder = Builder::new();
    builder.insert(Text::from("x"));
    builder.delete(Length::new(0, 2));
    assert_eq!(operations_of(&builder.finish()), vec![delete(2), insert("x")]);
}

#[test]
fn builder_merges_delete_beneath_insert() {
    let mut builder = Builder::new();
    builder.retain(Length::new(0, 1));
    builder.delete(Length::new(0, 2));
    builder.insert(Text::from("x"));
    builder.delete(Length::new(0, 3));
    assert_eq!(operations_of(&builder.finish()), vec![retain(1), delete(5), insert("x")]);
}

#[test]
fn builder_ignores_empty_operations() {
    let mut builder = Builder::new();
    builder.retain(Length::new(0, 0));
    builder.delete(Length::new(0, 0));
    builder.insert(Text::new());
    assert!(builder.finish().is_empty());
}

#[test]
fn finish_drops_trailing_retain() {
    let mut builder = Builder::new();
    builder.insert(Text::from("x"));
    builder.retain(Length::new(0, 3));
    let diff = builder.finish();
    assert_eq!(operations_of(&diff), vec![insert("x")]);
    assert_eq!(diff.len(), 1);

    let mut builder = Builder::new();
    builder.retain(Length::new(2, 3));
    assert!(builder.finish().is_empty());
}

#[test]
fn into_iter_hands_out_operations_in_order() {
    let diff = diff_of(vec![retain(1), delete(2), insert("x"), retain(4), delete(1)]);
    let mut operations = Vec::new();
    let mut iter = diff.clone().into_iter();
    while let Some(operation) = iter.next() {
        operations.push(operation);
    }
    assert_eq!(operations, vec![retain(1), delete(2), insert("x"), retain(4), delete(1)]);
    assert_eq!(operations_of(&diff), operations);
    assert!(iter.next().is_none());
}

#[test]
fn apply_replaces_a_byte() {
    let mut text = Text::from("abc");
    let mut builder = Builder::new();
    builder.retain(Length::new(0, 2));
    builder.delete(Length::new(0, 1));
    builder.insert(Text::from("Z"));
    text.apply_diff(builder.finish());
    assert_eq!(text, Text::from("abZ"));
}

#[test]
fn apply_across_lines() {
    let text = Text::from("one\ntwo\nthree");
    let diff = diff_of(vec![
        retain(1),
        Operation::Delete(Length::new(1, 1)),
        insert("X\nY\nZ"),
        Operation::Retain(Length::new(1, 2)),
        insert("!"),
    ]);
    assert_eq!(applied(&text, &diff), Text::from("oX\nY\nZwo\nth!ree"));
}

#[test]
fn apply_empty_diff_changes_nothing() {
    let text = Text::from("one\ntwo");
    assert_eq!(applied(&text, &Diff::new()), text);
}

#[test]
fn invert_swaps_inserts_and_deletes() {
    let text = Text::from("abc");
    let diff = diff_of(vec![retain(2), delete(1), insert("Z")]);
    let inverse = diff.invert(&text);
    assert_eq!(operations_of(&inverse), vec![retain(2), delete(1), insert("c")]);
}

#[test]
fn invert_round_trip() {
    let text = Text::from("one\ntwo\nthree\nfour");
    let diff = diff_of(vec![
        retain(1),
        Operation::Delete(Length::new(1, 1)),
        insert("X\nY\nZ"),
        Operation::Retain(Length::new(1, 2)),
        insert("!"),
        delete(2),
    ]);
    let changed = applied(&text, &diff);
    assert_eq!(changed, Text::from("oX\nY\nZwo\nth!e\nfour"));
    let inverse = diff.clone().invert(&text);
    assert_eq!(applied(&changed, &inverse), text);
    assert_eq!(inverse.invert(&changed), diff);
}

#[test]
fn compose_cancels_insert_with_delete() {
    let first = diff_of(vec![insert("hi"), retain(3)]);
    let second = diff_of(vec![delete(2), retain(3)]);
    let composed = first.compose(second);
    assert!(composed.is_empty());
    assert_eq!(composed, diff_of(vec![retain(3)]));
    assert_eq!(applied(&Text::from("abc"), &composed), Text::from("abc"));
}

#[test]
fn compose_cases_by_pair() {
    let composed = diff_of(vec![retain(5), delete(1)]).compose(diff_of(vec![retain(2), delete(1)]));
    assert_eq!(operations_of(&composed), vec![retain(2), delete(1), retain(2), delete(1)]);

    let composed = diff_of(vec![retain(2), delete(1)]).compose(diff_of(vec![delete(3)]));
    assert_eq!(operations_of(&composed), vec![delete(4)]);

    let composed = diff_of(vec![insert("hello")]).compose(diff_of(vec![retain(2), insert("X")]));
    assert_eq!(operations_of(&composed), vec![insert("heXllo")]);

    let composed = diff_of(vec![insert("hello")]).compose(diff_of(vec![delete(2)]));
    assert_eq!(operations_of(&composed), vec![insert("llo")]);

    let composed = diff_of(vec![insert("he")]).compose(diff_of(vec![delete(3)]));
    assert_eq!(operations_of(&composed), vec![delete(1)]);

    let composed = diff_of(vec![delete(2)]).compose(diff_of(vec![insert("x")]));
    assert_eq!(operations_of(&composed), vec![delete(2), insert("x")]);

    let composed = Diff::new().compose(diff_of(vec![retain(1), delete(2)]));
    assert_eq!(operations_of(&composed), vec![retain(1), delete(2)]);

    let composed = diff_of(vec![retain(1), insert("ab")]).compose(Diff::new());
    assert_eq!(operations_of(&composed), vec![retain(1), insert("ab")]);
}

#[test]
fn compose_retain_with_retain() {
    let source = Text::from("abcdef");
    for (first, second) in [(2, 5), (5, 5), (5, 2)] {
        let a = diff_of(vec![retain(first), insert("x")]);
        let b = diff_of(vec![retain(second), insert("y")]);
        let composed = a.clone().compose(b.clone());
        assert_eq!(applied(&source, &composed), applied(&applied(&source, &a), &b));
    }
    let composed = diff_of(vec![retain(2), insert("x")]).compose(diff_of(vec![retain(5), insert("y")]));
    assert_eq!(operations_of(&composed), vec![retain(2), insert("x"), retain(2), insert("y")]);
    let composed = diff_of(vec![retain(5), insert("x")]).compose(diff_of(vec![retain(2), insert("y")]));
    assert_eq!(operations_of(&composed), vec![retain(2), insert("y"), retain(3), insert("x")]);
    let composed = diff_of(vec![retain(5), insert("x")]).compose(diff_of(vec![retain(5), insert("y")]));
    assert_eq!(operations_of(&composed), vec![retain(5), insert("yx")]);
}

#[test]
fn compose_retain_with_delete() {
    let composed = diff_of(vec![retain(2), insert("x")]).compose(diff_of(vec![delete(3)]));
    assert_eq!(operations_of(&composed), vec![delete(2)]);
    let composed = diff_of(vec![retain(3), insert("x")]).compose(diff_of(vec![delete(3)]));
    assert_eq!(operations_of(&composed), vec![delete(3), insert("x")]);
    let composed = diff_of(vec![retain(5), insert("x")]).compose(diff_of(vec![delete(3)]));
    assert_eq!(operations_of(&composed), vec![delete(3), retain(2), insert("x")]);
}

#[test]
fn compose_insert_with_retain() {
    let composed = diff_of(vec![insert("ab"), delete(1)]).compose(diff_of(vec![retain(3), insert("y")]));
    assert_eq!(operations_of(&composed), vec![delete(1), insert("ab"), retain(1), insert("y")]);
    let composed = diff_of(vec![insert("abc"), delete(1)]).compose(diff_of(vec![retain(3), insert("y")]));
    assert_eq!(operations_of(&composed), vec![delete(1), insert("abcy")]);
    let composed = diff_of(vec![insert("abcde"), delete(1)]).compose(diff_of(vec![retain(3), insert("y")]));
    assert_eq!(operations_of(&composed), vec![delete(1), insert("abcyde")]);
}

#[test]
fn compose_insert_with_delete() {
    let composed = diff_of(vec![insert("ab")]).compose(diff_of(vec![delete(3)]));
    assert_eq!(operations_of(&composed), vec![delete(1)]);
    let composed = diff_of(vec![insert("abc")]).compose(diff_of(vec![delete(3)]));
    assert!(composed.is_empty());
    let composed = diff_of(vec![insert("abcde")]).compose(diff_of(vec![delete(3)]));
    assert_eq!(operations_of(&composed), vec![insert("de")]);
}

#[test]
fn compose_passes_deletes_and_inserts() {
    let composed = diff_of(vec![delete(2), insert("a")]).compose(diff_of(vec![insert("b")]));
    assert_eq!(operations_of(&composed), vec![delete(2), insert("ba")]);
    let composed = diff_of(vec![retain(1), delete(2)]).compose(diff_of(vec![insert("b"), retain(1), insert("c")]));
    assert_eq!(operations_of(&composed), vec![insert("b"), retain(1), delete(2), insert("c")]);
}

#[test]
fn compose_with_an_exhausted_side() {
    let composed = Diff::new().compose(diff_of(vec![retain(1), delete(2), insert("x")]));
    assert_eq!(operations_of(&composed), vec![retain(1), delete(2), insert("x")]);
    let composed = diff_of(vec![retain(1), delete(2), insert("x")]).compose(Diff::new());
    assert_eq!(operations_of(&composed), vec![retain(1), delete(2), insert("x")]);
    let composed = diff_of(vec![insert("x")]).compose(diff_of(vec![retain(3), delete(1)]));
    assert_eq!(operations_of(&composed), vec![insert("x"), retain(2), delete(1)]);
    assert!(Diff::new().compose(Diff::new()).is_empty());
}

#[test]
fn compose_across_lines() {
    let source = Text::from("one\ntwo\nthree");
    let first = diff_of(vec![
        Operation::Retain(Length::new(1, 1)),
        insert("A\nB\nC"),
        Operation::Retain(Length::new(1, 2)),
        delete(1),
    ]);
    let middle = applied(&source, &first);
    assert_eq!(middle, Text::from("one\ntA\nB\nCwo\nthee"));
    let second = diff_of(vec![
        Operation::Retain(Length::new(0, 2)),
        Operation::Delete(Length::new(2, 0)),
        Operation::Retain(Length::new(1, 1)),
        Operation::Delete(Length::new(1, 1)),
    ]);
    let last = applied(&middle, &second);
    assert_eq!(last, Text::from("onB\nChee"));
    let composed = first.compose(second);
    assert_eq!(
        operations_of(&composed),
        vec![
            retain(2),
            Operation::Delete(Length::new(2, 1)),
            insert("B\nC"),
            retain(1),
            delete(1),
        ]
    );
    assert_eq!(applied(&source, &composed), last);
}

#[test]
fn compose_agrees_with_applying_in_turn() {
    let text = Text::from("one\ntwo\nthree\nfour");
    let first = diff_of(vec![
        retain(1),
        Operation::Delete(Length::new(1, 1)),
        insert("X\nY\nZ"),
        Operation::Retain(Length::new(1, 2)),
        insert("!"),
        delete(2),
    ]);
    let middle = applied(&text, &first);
    assert_eq!(middle, Text::from("oX\nY\nZwo\nth!e\nfour"));
    let second = diff_of(vec![
        delete(1),
        Operation::Retain(Length::new(1, 1)),
        Operation::Delete(Length::new(1, 2)),
        insert_line_break_after("Q"),
        Operation::Retain(Length::new(1, 3)),
        delete(1),
        insert("##"),
        Operation::Retain(Length::new(1, 2)),
        delete(2),
    ]);
    let last = applied(&middle, &second);
    assert_eq!(last, Text::from("X\nYQ\no\nth!##\nfo"));
    let composed = first.compose(second);
    assert_eq!(applied(&text, &composed), last);
}

#[test]
fn compose_is_associative() {
    let text = Text::from("hello\nworld");
    let first = diff_of(vec![retain(2), insert("XY\nZ"), delete(2), retain(1)]);
    let second_text = applied(&text, &first);
    assert_eq!(second_text, Text::from("heXY\nZo\nworld"));
    let second = diff_of(vec![
        delete(1),
        retain(2),
        Operation::Delete(Length::new(1, 1)),
        insert("-"),
        Operation::Retain(Length::new(1, 2)),
        insert("!"),
    ]);
    let third_text = applied(&second_text, &second);
    assert_eq!(third_text, Text::from("eX-o\nwo!rld"));
    let third = diff_of(vec![
        retain(1),
        delete(2),
        Operation::Retain(Length::new(1, 1)),
        delete(2),
        insert_line_break_after(""),
    ]);
    let last_text = applied(&third_text, &third);
    assert_eq!(last_text, Text::from("eo\nw\nrld"));

    let left = first.clone().compose(second.clone()).compose(third.clone());
    let right = first.compose(second.compose(third));
    assert_eq!(left, right);
    assert_eq!(applied(&text, &left), last_text);
}

#[test]
fn diffs_compare_by_operations() {
    assert_eq!(diff_of(vec![retain(1), insert("x")]), diff_of(vec![retain(1), insert("x")]));
    assert_ne!(diff_of(vec![retain(1), insert("x")]), diff_of(vec![retain(1), insert("y")]));
    assert_ne!(diff_of(vec![retain(1), insert("x")]), diff_of(vec![retain(1), delete(1)]));
    assert_ne!(diff_of(vec![retain(1), insert("x")]), diff_of(vec![insert("x")]));
}
