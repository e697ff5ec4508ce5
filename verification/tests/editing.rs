use riparion_editor::autocomplete::{popup_keydown, PopupAction, PopupKey};
use riparion_editor::editor::{
    add_block, delete_from_snapshot, move_block_and_normalize, paste_into_snapshot,
    set_block_text, split_block,
};
use riparion_editor::keyboard::{apply_wrap, arrow_nav, blank_line_split, wrap_for_key, Arrow};
use riparion_editor::keys::block_keys;
use riparion_editor::positions::{byte_to_utf16, col_to_byte, utf16_to_byte};
use riparion_editor::{
    apply_completion, find_trigger, frontmatter_len, is_closing_fence, join_blocks,
    normalize_body, open_fence, rejoin_normalized, split_blocks, Block,
};

fn no_atomic(_: &str) -> bool {
    false
}

fn plain(t: &str) -> Block {
    Block { text: t.to_string(), atomic: false, frontmatter: false }
}

fn texts(bs: &[Block]) -> Vec<String> {
    bs.iter().map(|b| b.text.clone()).collect()
}

#[test]
fn keys_disambiguate_identical_blocks() {
    let bs = vec![plain("A\n"), plain("B\n"), plain("A\n")];
    assert_eq!(block_keys(&bs), vec!["A\n#0", "B\n#0", "A\n#1"]);
}

#[test]
fn keys_count_past_nine() {
    let bs: Vec<Block> = (0..12).map(|_| plain("x")).collect();
    let keys = block_keys(&bs);
    assert_eq!(keys[10], "x#10");
    assert_eq!(keys[11], "x#11");
    // Distinct blocks get distinct keys, and every key holds a `#`.
    for i in 0..keys.len() {
        assert!(keys[i].contains('#'));
        for j in 0..i {
            assert_ne!(keys[i], keys[j]);
        }
    }
}

#[test]
fn keys_distinct_even_when_text_holds_hash() {
    let bs = vec![plain("a#1"), plain("a"), plain("a")];
    let keys = block_keys(&bs);
    assert_eq!(keys, vec!["a#1#0", "a#0", "a#1"]);
}

#[test]
fn utf16_offsets_map_to_bytes() {
    let s = "a😀b"; // 😀 is 2 UTF-16 units, 4 bytes
    assert_eq!(utf16_to_byte(s, 0), 0);
    assert_eq!(utf16_to_byte(s, 1), 1);
    assert_eq!(utf16_to_byte(s, 2), 5);
    assert_eq!(utf16_to_byte(s, 3), 5);
    assert_eq!(utf16_to_byte(s, 4), 6);
    assert_eq!(utf16_to_byte(s, 100), 6);
    assert_eq!(byte_to_utf16(s, 0), 0);
    assert_eq!(byte_to_utf16(s, 1), 1);
    assert_eq!(byte_to_utf16(s, 5), 3);
    assert_eq!(byte_to_utf16(s, 6), 4);
}

#[test]
fn utf16_roundtrip_on_every_boundary() {
    let s = "é😀x\n€";
    for (b, _) in s.char_indices().chain(std::iter::once((s.len(), ' '))) {
        assert_eq!(utf16_to_byte(s, byte_to_utf16(s, b) as usize), b);
    }
}

#[test]
fn column_to_byte_clamps() {
    assert_eq!(col_to_byte("héllo", 0), 0);
    assert_eq!(col_to_byte("héllo", 2), 3);
    assert_eq!(col_to_byte("héllo", 10), 6);
}

#[test]
fn add_block_below_active_and_at_end() {
    let snap = vec![plain("A"), plain("B\n")];
    let (v, at) = add_block(&snap, Some(0));
    assert_eq!(at, 1);
    assert_eq!(texts(&v), vec!["A\n\n", "", "B\n"]);
    let (v, at) = add_block(&snap, None);
    assert_eq!(at, 2);
    assert_eq!(texts(&v), vec!["A", "B\n\n", ""]);
}

#[test]
fn delete_shifts_active() {
    let snap = vec![plain("A\n\n"), plain("B\n\n"), plain("C\n")];
    let (v, a) = delete_from_snapshot(&snap, 0, Some(2)).unwrap();
    assert_eq!(texts(&v), vec!["B\n\n", "C\n"]);
    assert_eq!(a, Some(1));
    let (_, a) = delete_from_snapshot(&snap, 1, Some(1)).unwrap();
    assert_eq!(a, None);
    let (_, a) = delete_from_snapshot(&snap, 2, Some(0)).unwrap();
    assert_eq!(a, Some(0));
    assert!(delete_from_snapshot(&snap, 3, Some(0)).is_none());
}

#[test]
fn paste_into_snapshot_splits_and_shifts() {
    let snap = vec![plain("A"), plain("B\n")];
    let (v, a) = paste_into_snapshot(&snap, 0, "P1\n\nP2", Some(1), no_atomic);
    assert_eq!(texts(&v), vec!["A\n\n", "P1\n\n", "P2\n\n", "B\n"]);
    assert_eq!(a, Some(3));
    let (v, a) = paste_into_snapshot(&snap, 1, "Z", Some(0), no_atomic);
    assert_eq!(texts(&v), vec!["A", "B\n\n", "Z\n\n"]);
    assert_eq!(a, Some(0));
}

#[test]
fn move_block_reorders_and_normalizes() {
    let bs = split_blocks("A\n\nB\n\nC\n", no_atomic);
    assert_eq!(move_block_and_normalize(&bs, 0, 3).unwrap(), "B\n\nC\n\nA\n");
    assert_eq!(move_block_and_normalize(&bs, 2, 0).unwrap(), "C\n\nA\n\nB\n");
    assert_eq!(move_block_and_normalize(&bs, 1, 1).unwrap(), "A\n\nB\n\nC\n");
    assert!(move_block_and_normalize(&bs, 3, 0).is_none());
}

#[test]
fn move_block_keeps_frontmatter_pinned() {
    let bs = split_blocks("---\na: 1\n---\n\nA\n\nB\n", no_atomic);
    assert!(bs[0].frontmatter);
    assert!(move_block_and_normalize(&bs, 0, 2).is_none());
    assert!(move_block_and_normalize(&bs, 2, 0).is_none());
    assert_eq!(move_block_and_normalize(&bs, 2, 1).unwrap(), "---\na: 1\n---\n\nB\n\nA\n");
}

#[test]
fn set_and_split_block_text() {
    let mut snap = vec![plain("A\n"), Block { text: "[[x]]\n".into(), atomic: true, frontmatter: false }];
    set_block_text(&mut snap, 1, "[[y]]\n".to_string());
    assert!(snap[1].atomic);
    assert_eq!(snap[1].text, "[[y]]\n");
    set_block_text(&mut snap, 5, "ignored".to_string());
    assert_eq!(texts(&snap), vec!["A\n", "[[y]]\n"]);
    split_block(&mut snap, 0, "A\n\n".to_string(), "rest".to_string());
    assert_eq!(texts(&snap), vec!["A\n\n", "rest", "[[y]]\n"]);
    assert!(!snap[1].atomic);
}

#[test]
fn double_enter_on_blank_line_splits() {
    let (head, tail) = blank_line_split("A\n\nB", 2).unwrap();
    assert_eq!(head, "A\n\n");
    assert_eq!(tail, "B");
    let (head, tail) = blank_line_split("A\n", 2).unwrap();
    assert_eq!(head, "A\n\n");
    assert_eq!(tail, "");
    assert!(blank_line_split("A\nxx", 3).is_none());
    let (head, tail) = blank_line_split("", 0).unwrap();
    assert_eq!(head, "");
    assert_eq!(tail, "");
}

#[test]
fn arrow_navigation_keeps_column() {
    let snap = vec![plain("first\nlast line\n\n"), plain("ab\ncd"), plain("x😀yz\nq")];
    // Up from the first line of block 1, column 1 → block 0's last line.
    assert_eq!(arrow_nav(Arrow::Up, "ab\ncd", 1, 1, &snap), Some((0, 17)));
    // Down from the last line, column 2 → block 2's first line, after "x😀".
    assert_eq!(arrow_nav(Arrow::Down, "ab\ncd", 5, 1, &snap), Some((2, 3)));
    // Mid-block keys stay put.
    assert_eq!(arrow_nav(Arrow::Down, "ab\ncd", 1, 1, &snap), None);
    assert_eq!(arrow_nav(Arrow::Left, "ab\ncd", 1, 1, &snap), None);
    // Left at the start → end of previous block; Right at the end → start of next.
    assert_eq!(arrow_nav(Arrow::Left, "ab\ncd", 0, 1, &snap), Some((0, 17)));
    assert_eq!(arrow_nav(Arrow::Right, "ab\ncd", 5, 1, &snap), Some((2, 0)));
    // No block before the first one.
    assert_eq!(arrow_nav(Arrow::Up, "first\nlast line\n\n", 0, 0, &snap), None);
}

#[test]
fn format_keys_resolve() {
    let b = wrap_for_key("b", true, false).unwrap();
    assert_eq!((b.open.as_str(), b.close.as_str()), ("**", "**"));
    assert!(!b.require_selection && !b.select_url);
    let b = wrap_for_key("B", true, false).unwrap();
    assert_eq!(b.open, "**");
    let i = wrap_for_key("i", true, false).unwrap();
    assert_eq!((i.open.as_str(), i.close.as_str()), ("*", "*"));
    let k = wrap_for_key("\u{212A}", true, false).unwrap(); // KELVIN SIGN lowercases to `k`
    assert_eq!((k.open.as_str(), k.close.as_str()), ("[", "](url)"));
    assert!(k.select_url);
    let t = wrap_for_key("~", false, false).unwrap();
    assert_eq!((t.open.as_str(), t.close.as_str()), ("~", "~"));
    assert!(t.require_selection);
    assert!(wrap_for_key("b", true, true).is_none());
    assert!(wrap_for_key("x", true, false).is_none());
    assert!(wrap_for_key("a", false, false).is_none());
    assert!(wrap_for_key("*", true, false).is_none());
}

#[test]
fn wrap_selection() {
    let bold = wrap_for_key("b", true, false).unwrap();
    assert_eq!(apply_wrap("hello", 0, 5, &bold), Some(("**hello**".to_string(), 2, 7)));
    assert_eq!(apply_wrap("hello", 5, 5, &bold), Some(("hello****".to_string(), 7, 7)));
    let link = wrap_for_key("k", true, false).unwrap();
    assert_eq!(apply_wrap("hi", 0, 2, &link), Some(("[hi](url)".to_string(), 5, 8)));
    let star = wrap_for_key("*", false, false).unwrap();
    assert_eq!(apply_wrap("hi", 1, 1, &star), None);
    assert_eq!(apply_wrap("😀ab", 2, 3, &star), Some(("😀*a*b".to_string(), 3, 4)));
}

#[test]
fn popup_navigation() {
    assert_eq!(popup_keydown(false, 3, None, PopupKey::ArrowDown), PopupAction::Ignore);
    assert_eq!(popup_keydown(true, 0, None, PopupKey::ArrowDown), PopupAction::Ignore);
    assert_eq!(popup_keydown(true, 3, None, PopupKey::ArrowDown), PopupAction::Select(0));
    assert_eq!(popup_keydown(true, 3, Some(2), PopupKey::ArrowDown), PopupAction::Select(0));
    assert_eq!(popup_keydown(true, 3, None, PopupKey::ArrowUp), PopupAction::Select(2));
    assert_eq!(popup_keydown(true, 3, Some(0), PopupKey::ArrowUp), PopupAction::Select(2));
    assert_eq!(popup_keydown(true, 3, Some(1), PopupKey::Enter), PopupAction::Accept(1));
    assert_eq!(popup_keydown(true, 3, Some(1), PopupKey::Tab), PopupAction::Accept(1));
    assert_eq!(popup_keydown(true, 3, None, PopupKey::Enter), PopupAction::Ignore);
    assert_eq!(popup_keydown(true, 3, Some(1), PopupKey::Escape), PopupAction::Dismiss);
    assert_eq!(popup_keydown(true, 3, Some(1), PopupKey::Other), PopupAction::Ignore);
}

#[test]
fn trigger_query_is_ascii_name() {
    let t = find_trigger("[[/my-embed_2", 13).unwrap();
    assert_eq!(t.start, 0);
    assert_eq!(t.query, "my-embed_2");
    assert!(find_trigger("[[/café", "[[/café".len()).is_none());
    assert!(find_trigger("[[/a.b", 6).is_none());
    assert!(find_trigger("no trigger", 10).is_none());
    // Caret past the end is clamped.
    assert_eq!(find_trigger("x [[/q", 99).unwrap().query, "q");
}

#[test]
fn completion_stands_on_its_own_line() {
    let text = "a [[/q b";
    let t = find_trigger(text, 6).unwrap();
    let (new, caret) = apply_completion(text, &t, 6, "[[/quote]]");
    assert_eq!(new, "a \n[[/quote]]\n b");
    assert_eq!(caret, 13);
    assert_eq!(&new[caret..caret + 1], "\n");
    // A caret before the trigger is clamped to its start.
    let (new, caret) = apply_completion(text, &t, 0, "X");
    assert_eq!(new, "a \nX\n[[/q b");
    assert_eq!(caret, 4);
}

#[test]
fn fence_helpers() {
    assert_eq!(open_fence("~~~~ info"), Some(('~', 4)));
    assert_eq!(open_fence(" \t```"), None);
    assert_eq!(open_fence("``"), None);
    assert_eq!(open_fence(""), None);
    assert!(is_closing_fence("  ````  ", '`', 3));
    assert!(!is_closing_fence("``", '`', 3));
    assert!(!is_closing_fence("``` x", '`', 3));
    assert!(!is_closing_fence("~~~", '`', 3));
}

#[test]
fn frontmatter_len_counts_bytes() {
    let s = "---\né: 1\n---\nBody\n";
    assert_eq!(frontmatter_len(s), Some(14));
    assert_eq!(frontmatter_len("---"), None);
    assert_eq!(frontmatter_len(""), None);
    assert_eq!(frontmatter_len("--- \n---\n"), None);
}

#[test]
fn split_shape_on_examples() {
    let at = |l: &str| l.starts_with("[[");
    let s = "---\nk: v\n---\n\n\nA\nB\n\n[[e]]\n~~~\n\nx\n~~~\nC";
    let bs = split_blocks(s, at);
    assert_eq!(join_blocks(&bs), s);
    assert_eq!(texts(&bs), vec!["---\nk: v\n---\n\n\n", "A\nB\n\n", "[[e]]\n", "~~~\n\nx\n~~~\nC"]);
    assert!(bs.iter().all(|b| !b.text.is_empty()));
    assert!(bs[0].frontmatter && bs.iter().skip(1).all(|b| !b.frontmatter));
    assert!(bs[2].atomic && bs.iter().filter(|b| b.atomic).count() == 1);
}

#[test]
fn whitespace_is_unicode_whitespace() {
    // A line holding only a no-break space and an ideographic space is blank.
    let bs = split_blocks("A\n\u{a0}\u{3000}\nB\n", no_atomic);
    assert_eq!(texts(&bs), vec!["A\n\u{a0}\u{3000}\n", "B\n"]);
}

#[test]
fn normalized_body_ends_with_newline() {
    for s in ["", "A", "A\n\n\n", "---\na\n---", "\n\n", "x\r\n\r\ny"] {
        let out = normalize_body(s, no_atomic);
        assert!(out.is_empty() || out.ends_with('\n'), "{out:?}");
    }
    assert_eq!(normalize_body("x\r\n\r\ny", no_atomic), "x\n\ny\n");
    assert_eq!(rejoin_normalized(&[plain("\n\r\n"), plain("A\r")]), "A\n");
}
