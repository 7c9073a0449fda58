//! Templates that a host holds.
use polydat::document::read_json;
use polydat::dsl::ast::Span;
use polydat::dsl::template::{TileBodyKind, TileOptions, TilePiece};
use polydat::dsl::tile::{parse_template, Names};
use polydat::dsl::tile_structural::{
    check_encoding, template_text_from_value, tile_from_json_text, tile_from_text,
};

fn text(json: &str) -> String {
    let v = read_json(json).unwrap();
    template_text_from_value(&Names, &v, &TileOptions::default()).unwrap()
}

#[test]
fn strings_classify_as_value_string_or_static() {
    assert_eq!(text(r#"{"ts": "${ts}", "name": "row-${row}", "s": "${ts: str}", "k": "plain"}"#),
        r#"{"ts": ${ts}, "name": "row-${row}", "s": "${ts: str}", "k": "plain"}"#);
}

#[test]
fn directive_arrays_and_objects_become_blocks() {
    assert_eq!(text(r#"["@for s in 0..4", {"n": "${s}"}]"#), r#"[@for s in 0..4 { {"n": ${s}} }]"#);
    assert_eq!(text(r#"["@if v", 1, "@else", 2]"#), r#"[@if v { 1 } @else { 2 }]"#);
    assert_eq!(text(r#"{"@for t in a,b": {"${t}": true}}"#), r#"{@for t in a,b { "${t}": true }}"#);
}

#[test]
fn scalars_and_escapes_pass_through() {
    assert_eq!(text(r#"{"a": null, "b": true, "c": 1.5, "d": "q\"uote ${x}"}"#), r#"{"a": null, "b": true, "c": 1.5, "d": "q\"uote ${x}"}"#);
}

#[test]
fn directive_in_value_position_is_an_error() {
    let v = read_json(r#"{"a": "@for s in 0..4"}"#).unwrap();
    let e = template_text_from_value(&Names, &v, &TileOptions::default()).unwrap_err();
    assert!(e.contains("outside a directive position"), "{e}");
}

fn at() -> Span {
    Span { line: 3, col: 5 }
}

#[test]
fn members_carry_their_commas() {
    assert_eq!(text(r#"{"a": 1, "@for t in xs": {"${t}": 2}}"#), r#"{"a": 1@for t in xs sep "" { , "${t}": 2 }}"#);
    assert_eq!(text(r#"{"@if c": {"x": 1}, "b": 2}"#), r#"{@if c { "x": 1,  }"b": 2}"#);
    assert_eq!(
        text(r#"{"@if c": {"x": 1}, "@else": {"y": 2}}"#),
        r#"{@if c { "x": 1 } @else { "y": 2 }}"#
    );
}

#[test]
fn stray_else_and_bare_values_are_errors() {
    let fails = |json: &str| {
        template_text_from_value(&Names, &read_json(json).unwrap(), &TileOptions::default())
            .unwrap_err()
    };
    assert_eq!(fails(r#"["@else"]"#), "`@else` without a leading `@if`");
    assert_eq!(fails(r#"{"@else": {}}"#), "`@else` key without a preceding `@if` key");
    assert_eq!(
        fails(r#"{"@for t in xs": 3}"#),
        "the value under directive key `@for t in xs` must be an object of members"
    );
    assert!(fails(r#"{"a": "x @if c { y }"}"#).contains("contains a directive"));
    assert!(fails(r#"{"a": "${x"}"#).starts_with("in string `${x`: "));
}

#[test]
fn control_characters_are_escaped_in_strings() {
    assert_eq!(text("[\"a\\u0001\\n\\u001f\"]"), "[\"a\\u0001\\n\\u001f\"]");
}

#[test]
fn an_encoding_has_to_be_known() {
    assert!(check_encoding("t", "json").is_ok());
    assert!(check_encoding("t", "text").is_ok());
    assert!(check_encoding("t", "csv").is_ok());
    assert_eq!(
        check_encoding("t", "xml").unwrap_err(),
        "tile 't': unknown encoding 'xml'; encodings are json, text, csv"
    );
    let e = tile_from_text(&Names, "t", "xml", "a", &TileOptions::default(), at()).unwrap_err();
    assert!(e.contains("unknown encoding 'xml'"), "{e}");
}

#[test]
fn the_two_forms_give_one_template() {
    let o = TileOptions::default();
    let plain = tile_from_text(&Names, "t", "text", "row-${row}", &o, at()).unwrap();
    assert_eq!(plain.body_kind, TileBodyKind::Heredoc);
    assert_eq!(plain.encoding, Some("text".to_string()));
    assert_eq!(plain.pieces.len(), 2);
    assert_eq!(plain.pieces[0], TilePiece::Static("row-".to_string()));
    let made = tile_from_json_text(&Names, "t", r#"{"n": "${row}"}"#, &o, at()).unwrap();
    assert_eq!(made.body, r#"{"n": ${row}}"#);
    assert_eq!(made.body_kind, TileBodyKind::Block);
    let same = tile_from_text(&Names, "t", "json", &made.body, &o, at()).unwrap();
    assert_eq!(made.pieces, same.pieces);
    let e = tile_from_json_text(&Names, "t", "{oops", &o, at()).unwrap_err();
    assert!(e.starts_with("tile 't': structural template is not JSON: "), "{e}");
}

/// The text of a template whose directives each come to their body some
/// number of times.
fn filled(pieces: &[TilePiece], times: usize) -> String {
    pieces
        .iter()
        .map(|p| match p {
            TilePiece::Static(s) => s.clone(),
            TilePiece::Hole(h) => h.text.clone(),
            TilePiece::Projection { body, .. } => filled(body, times).repeat(times),
            TilePiece::Branch { then, .. } => filled(then, times).repeat(times.min(1)),
        })
        .collect()
}

#[test]
fn directives_that_come_to_nothing_leave_no_comma() {
    for (json, none, twice) in [
        (
            r#"{"a": 1, "@for t in xs": {"b": 2}}"#,
            r#"{"a": 1}"#,
            r#"{"a": 1, "b": 2, "b": 2}"#,
        ),
        (
            r#"{"@for t in xs": {"b": 2}, "@if c": {"d": 3}, "a": 1, "@if e": {"f": 4}, "g": 5}"#,
            r#"{"a": 1, "g": 5}"#,
            r#"{"b": 2,"b": 2,"d": 3,"a": 1, "f": 4, "g": 5}"#,
        ),
    ] {
        let read = parse_template(&Names, &text(json), &TileOptions::default(), at()).unwrap();
        assert_eq!(filled(&read, 0), none);
        assert_eq!(filled(&read, 2), twice);
    }
}
