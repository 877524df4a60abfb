use json_diff_view::Json;
use json_diff_view::compare::compare_json;
use json_diff_view::distance::{levenshtein_distance, string_similarity};
use json_diff_view::render::{format_diff_to_string, json_text};
use json_diff_view::value::{json_eq, mark_added, mark_deleted, get_identifier};

fn s(v: &str) -> Json {
    Json::Str(v.to_string())
}

fn n(v: &str) -> Json {
    Json::Num(v.to_string())
}

fn obj(entries: Vec<(&str, Json)>) -> Json {
    Json::Obj(entries.into_iter().map(|(k, v)| (k.to_string(), v)).collect())
}

fn arr(items: Vec<Json>) -> Json {
    Json::Arr(items)
}

#[test]
fn changed_scalar_in_object() {
    let before = obj(vec![("id", s("A")), ("v", n("1"))]);
    let after = obj(vec![("id", s("A")), ("v", n("2"))]);
    let diff = compare_json(&before, &after, None);
    let expected = obj(vec![("id", s("A")), ("v", s("1 => 2"))]);
    assert!(json_eq(&diff, &expected));
    // a string holding the separator renders split and re-quoted
    let rendered = format_diff_to_string(&diff, 0);
    assert_eq!(rendered, "{\n  \"id\": \"A\",\n  \"v\": \"1\" => \"2\"\n}");
}

#[test]
fn renamed_identifier_object() {
    let before = obj(vec![("name", s("Jon")), ("age", n("30"))]);
    let after = obj(vec![("name", s("John")), ("age", n("30"))]);
    let diff = compare_json(&before, &after, None);
    let expected = obj(vec![("name", s("Jon => John")), ("age", n("30"))]);
    assert!(json_eq(&diff, &expected));
}

#[test]
fn scalar_array_delete_and_add() {
    let before = arr(vec![s("a"), s("b")]);
    let after = arr(vec![s("a"), s("c")]);
    let diff = compare_json(&before, &after, None);
    let expected = arr(vec![s("a"), s("b [-]"), s("c [+]")]);
    assert!(json_eq(&diff, &expected));
}

#[test]
fn add_index_numbers_matched_objects() {
    let before = arr(vec![
        obj(vec![("id", s("alpha")), ("v", n("1"))]),
        obj(vec![("id", s("beta")), ("v", n("2"))]),
        obj(vec![("id", s("gamma")), ("v", n("3"))]),
    ]);
    let after = arr(vec![
        obj(vec![("id", s("alpha")), ("v", n("1"))]),
        obj(vec![("id", s("beta")), ("v", n("2"))]),
        obj(vec![("id", s("gamma")), ("v", n("3"))]),
    ]);
    let diff = compare_json(&before, &after, Some(true));
    let expected = arr(vec![
        obj(vec![("id", s("alpha")), ("v", n("1")), ("idx", n("0"))]),
        obj(vec![("id", s("beta")), ("v", n("2")), ("idx", n("1"))]),
        obj(vec![("id", s("gamma")), ("v", n("3")), ("idx", n("2"))]),
    ]);
    assert!(json_eq(&diff, &expected));
}

#[test]
fn identity_on_nested_value() {
    let v = obj(vec![
        ("id", s("x")),
        ("items", arr(vec![n("1"), s("two"), Json::Bool(true)])),
        ("inner", obj(vec![("a", Json::Null)])),
    ]);
    let w = obj(vec![
        ("id", s("x")),
        ("items", arr(vec![n("1"), s("two"), Json::Bool(true)])),
        ("inner", obj(vec![("a", Json::Null)])),
    ]);
    let diff = compare_json(&v, &w, None);
    assert!(json_eq(&diff, &v));
}

#[test]
fn added_and_deleted_keys() {
    let before = obj(vec![("keep", n("7")), ("gone", s("old"))]);
    let after = obj(vec![("keep", n("7")), ("new", s("fresh"))]);
    let diff = compare_json(&before, &after, None);
    let expected = obj(vec![
        ("keep", n("7")),
        ("gone", s("old [-]")),
        ("new", s("fresh [+]")),
    ]);
    assert!(json_eq(&diff, &expected));
}

#[test]
fn fuzzy_matched_array_objects() {
    let before = arr(vec![obj(vec![("id", s("server-001")), ("port", n("80"))])]);
    let after = arr(vec![obj(vec![("id", s("server-002")), ("port", n("81"))])]);
    let diff = compare_json(&before, &after, None);
    // "server-001" vs "server-002" differ in one of ten characters:
    // similarity 0.9 exceeds the threshold, so the objects are merged.
    let expected = arr(vec![obj(vec![
        ("id", s("server-001 => server-002")),
        ("port", s("80 => 81")),
    ])]);
    assert!(json_eq(&diff, &expected));
}

#[test]
fn unmatched_object_marked_deleted() {
    let before = arr(vec![obj(vec![("id", s("abcdef"))])]);
    let after = arr(vec![obj(vec![("id", s("zzzzzz"))])]);
    let diff = compare_json(&before, &after, None);
    let expected = arr(vec![
        obj(vec![("id", s("abcdef [-]"))]),
        obj(vec![("id", s("zzzzzz [+]"))]),
    ]);
    assert!(json_eq(&diff, &expected));
}

#[test]
fn levenshtein_classic() {
    assert_eq!(levenshtein_distance("kitten", "sitting"), 3);
    assert_eq!(levenshtein_distance("flaw", "lawn"), 2);
    assert_eq!(levenshtein_distance("", ""), 0);
    assert_eq!(levenshtein_distance("abc", "abc"), 0);
}

#[test]
fn levenshtein_length_short_circuit() {
    // lengths 2 and 8 differ by more than half of 8, so the reported
    // distance is the longer length even though the true distance is 6
    assert_eq!(levenshtein_distance("ab", "abcdefgh"), 8);
}

#[test]
fn similarity_bounds() {
    let same = string_similarity("abc", "abc");
    assert_eq!(same.num, same.den);
    let empty = string_similarity("", "x");
    assert_eq!(empty.num, 0);
    assert_eq!(empty.den, 1);
    let part = string_similarity("Jon", "John");
    let value = part.num as f64 / part.den as f64;
    assert!((0.0..=1.0).contains(&value));
    assert_eq!(part.num, 3);
    assert_eq!(part.den, 4);
}

#[test]
fn marker_round_trip_added() {
    let marked = mark_added(s("hello"));
    assert!(json_eq(&marked, &s("hello [+]")));
    let rendered = format_diff_to_string(&marked, 0);
    assert_eq!(rendered, "\"hello\" [+]");
}

#[test]
fn marker_round_trip_deleted() {
    let marked = mark_deleted(s("bye"));
    assert!(json_eq(&marked, &s("bye [-]")));
    let rendered = format_diff_to_string(&marked, 0);
    assert_eq!(rendered, "\"bye\" [-]");
}

#[test]
fn mark_object_with_string_identifier() {
    let marked = mark_deleted(obj(vec![("count", n("3")), ("name", s("thing"))]));
    let expected = obj(vec![("count", n("3")), ("name", s("thing [-]"))]);
    assert!(json_eq(&marked, &expected));
}

#[test]
fn mark_object_without_string_identifier() {
    let marked = mark_added(obj(vec![("count", n("3"))]));
    let expected = obj(vec![("count", n("3"))]);
    assert!(json_eq(&marked, &expected));
}

#[test]
fn identifier_prefers_string_then_number() {
    let with_string = obj(vec![("count", n("3")), ("name", s("x"))]);
    if let Json::Obj(entries) = &with_string {
        let ident = get_identifier(entries).unwrap();
        assert!(json_eq(&ident, &s("x")));
    } else {
        unreachable!();
    }
    let numbers_only = obj(vec![("flag", Json::Bool(true)), ("count", n("3"))]);
    if let Json::Obj(entries) = &numbers_only {
        let ident = get_identifier(entries).unwrap();
        assert!(json_eq(&ident, &n("3")));
    } else {
        unreachable!();
    }
}

#[test]
fn render_empty_containers() {
    assert_eq!(format_diff_to_string(&obj(vec![]), 0), "{}");
    assert_eq!(format_diff_to_string(&arr(vec![]), 0), "[]");
}

#[test]
fn render_substitution_string() {
    assert_eq!(format_diff_to_string(&s("a => b"), 0), "\"a\" => \"b\"");
}

#[test]
fn render_idx_first() {
    let v = obj(vec![("name", s("z")), ("idx", n("4"))]);
    let rendered = format_diff_to_string(&v, 0);
    assert_eq!(rendered, "{\n  \"idx\": 4,\n  \"name\": \"z\"\n}");
}

#[test]
fn render_nested_indentation() {
    let v = obj(vec![("a", arr(vec![n("1"), n("2")]))]);
    let rendered = format_diff_to_string(&v, 0);
    assert_eq!(rendered, "{\n  \"a\": [\n    1,\n    2\n  ]\n}");
}

#[test]
fn mixed_type_change_uses_compact_text() {
    let diff = compare_json(&Json::Bool(true), &s("hi"), None);
    assert!(json_eq(&diff, &s("true => \"hi\"")));
    let diff2 = compare_json(&n("1"), &arr(vec![n("1"), n("2")]), None);
    assert!(json_eq(&diff2, &s("1 => [1,2]")));
}

#[test]
fn compact_text_escapes_strings() {
    let v = obj(vec![("key", s("a\"b\\c\n"))]);
    assert_eq!(json_text(&v), "{\"key\":\"a\\\"b\\\\c\\n\"}");
}

#[test]
fn duplicate_scalar_double_count() {
    // duplicated non-mapping values match the same position twice: the
    // second "a" is still reported unchanged, and the remaining "after"
    // element is reported added
    let before = arr(vec![s("a"), s("a")]);
    let after = arr(vec![s("a"), s("b")]);
    let diff = compare_json(&before, &after, None);
    let expected = arr(vec![s("a"), s("a"), s("b [+]")]);
    assert!(json_eq(&diff, &expected));
}

#[test]
fn non_mapping_entries_do_not_consume_index() {
    let before = arr(vec![s("x"), obj(vec![("id", s("a"))])]);
    let after = arr(vec![s("x"), obj(vec![("id", s("a"))])]);
    let diff = compare_json(&before, &after, Some(true));
    let expected = arr(vec![s("x"), obj(vec![("id", s("a")), ("idx", n("0"))])]);
    assert!(json_eq(&diff, &expected));
}

#[test]
fn levenshtein_multibyte_characters() {
    // per-character distance, not per-byte
    assert_eq!(levenshtein_distance("caf\u{e9}", "cafe"), 1);
}

#[test]
fn empty_string_change() {
    let diff = compare_json(&s(""), &s("x"), None);
    assert!(json_eq(&diff, &s(" => x")));
}

#[test]
fn deleted_added_index_numbering() {
    // an unmatched "before" mapping and an unmatched "after" mapping
    // both carry indices, in output order
    let before = arr(vec![obj(vec![("id", s("aaaaaa"))])]);
    let after = arr(vec![obj(vec![("id", s("zzzzzz"))])]);
    let diff = compare_json(&before, &after, Some(true));
    let expected = arr(vec![
        obj(vec![("id", s("aaaaaa [-]")), ("idx", n("0"))]),
        obj(vec![("id", s("zzzzzz [+]")), ("idx", n("1"))]),
    ]);
    assert!(json_eq(&diff, &expected));
}
