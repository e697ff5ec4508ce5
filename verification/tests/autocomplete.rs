use riparion_editor::{apply_completion, find_trigger};

#[test]
fn trigger_just_opened() {
    let t = find_trigger("[[/", 3).unwrap();
    assert_eq!(t.start, 0);
    assert_eq!(t.query, "");
}

#[test]
fn trigger_mid_line_with_query() {
    let t = find_trigger("ab [[/cou", 9).unwrap();
    assert_eq!(t.start, 3);
    assert_eq!(t.query, "cou");
}

#[test]
fn trigger_stops_before_closing_brackets() {
    // Caret sits right after the name, before `]]` — still a live trigger.
    let t = find_trigger("[[/cou]]", 6).unwrap();
    assert_eq!(t.query, "cou");
}

#[test]
fn no_trigger_after_space_or_bracket() {
    assert!(find_trigger("[[/cou ", 7).is_none());
    assert!(find_trigger("[[/co]", 6).is_none());
}

#[test]
fn no_trigger_across_newline() {
    // The `[[/` is on the previous line; the caret's line has no trigger.
    assert!(find_trigger("[[/\nfoo", 7).is_none());
}

#[test]
fn trigger_handles_multibyte_prefix() {
    let text = "café [[/c"; // "café " is 6 bytes (é = 2)
    let t = find_trigger(text, text.len()).unwrap();
    assert_eq!(t.start, 6);
    assert_eq!(t.query, "c");
}

#[test]
fn apply_at_line_start_no_extra_newlines() {
    let t = find_trigger("[[/cou", 6).unwrap();
    let (new, caret) = apply_completion("[[/cou", &t, 6, "[[/counter]]");
    assert_eq!(new, "[[/counter]]");
    assert_eq!(caret, "[[/counter]]".len());
}

#[test]
fn apply_forces_own_line_after_prose() {
    let text = "hello [[/cou";
    let t = find_trigger(text, text.len()).unwrap();
    let (new, caret) = apply_completion(text, &t, text.len(), "[[/c]]");
    assert_eq!(new, "hello \n[[/c]]");
    assert_eq!(caret, new.len());
}

#[test]
fn apply_forces_own_line_before_suffix() {
    let text = "[[/cou after";
    let t = find_trigger(text, 6).unwrap();
    let (new, _caret) = apply_completion(text, &t, 6, "[[/c]]");
    assert_eq!(new, "[[/c]]\n after");
}
