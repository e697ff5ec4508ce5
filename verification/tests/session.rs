use riparion_editor::autocomplete::{Popup, PopupAction, PopupKey};
use riparion_editor::editor::{EditorEvent, EditorState};
use riparion_editor::positions::{byte_to_utf16, utf16_to_byte};
use riparion_editor::{
    frontmatter_len, insert_after_and_normalize, join_blocks, normalize_body, rejoin_normalized,
    split_blocks,
    Block, CompletionItem,
};

fn no_atomic(_: &str) -> bool {
    false
}

fn plain(t: &str) -> Block {
    Block { text: t.to_string(), atomic: false, frontmatter: false }
}

fn item(label: &str) -> CompletionItem {
    CompletionItem {
        label: label.to_string(),
        detail: String::new(),
        insert: format!("[[/{label}]]"),
    }
}

fn editing(body: &str, i: usize) -> EditorState {
    let mut st = EditorState::new(body.to_string());
    st.step(EditorEvent::Activate(i), no_atomic);
    st
}

fn synced(st: &EditorState) -> bool {
    st.active.is_none() || st.body == join_blocks(&st.frozen)
}

#[test]
fn rejoin_drops_whitespace_only_blocks() {
    let bs = vec![plain("A\n"), plain("  "), plain("B\n")];
    assert_eq!(rejoin_normalized(&bs), "A\n\nB\n");
    let bs = vec![plain("A"), plain(" \t\n\n"), plain("\u{a0}")];
    assert_eq!(rejoin_normalized(&bs), "A\n");
}

#[test]
fn frontmatter_run_ignores_what_follows() {
    let md = "---\ntitle: x\n---\nbody\n";
    let n = frontmatter_len(md).unwrap();
    assert_eq!(n, 17);
    for tail in ["", "---\n", "...\nmore", "anything"] {
        let doc = format!("{}{}", &md[..n], tail);
        assert_eq!(frontmatter_len(&doc), Some(n));
    }
}

#[test]
fn insert_after_is_a_plain_splice() {
    let bs = vec![plain("A\n"), plain("\n"), plain("B")];
    let ins = split_blocks("X\n\nY\n", no_atomic);
    let spliced: Vec<Block> = bs[..1].iter().cloned().chain(ins).chain(bs[1..].iter().cloned()).collect();
    assert_eq!(
        insert_after_and_normalize(&bs, 0, "X\n\nY\n", no_atomic),
        rejoin_normalized(&spliced)
    );
    assert_eq!(insert_after_and_normalize(&bs, 0, "X\n\nY\n", no_atomic), "A\n\nX\n\nY\n\nB\n");
    // Past the end appends; whitespace-only text only normalizes.
    assert_eq!(insert_after_and_normalize(&bs, 9, "Z", no_atomic), "A\n\nB\n\nZ\n");
    assert_eq!(insert_after_and_normalize(&bs, 0, "  \n", no_atomic), rejoin_normalized(&bs));
}

#[test]
fn utf16_offsets_round_trip_and_clamp() {
    let s = "aé😀b";
    for b in [0, 1, 3, 7, 8] {
        let u = byte_to_utf16(s, b) as usize;
        assert_eq!(utf16_to_byte(s, u), b);
    }
    assert_eq!(utf16_to_byte(s, 1000), s.len());
    assert!(s.is_char_boundary(utf16_to_byte(s, 4)));
}

#[test]
fn popup_opens_only_with_items() {
    let mut p = Popup::dismissed();
    assert!(!p.open);
    p.after_input(Some(vec![item("a"), item("b")]));
    assert!(p.open);
    assert_eq!(p.items.len(), 2);
    assert_eq!(p.selected, None);
    p.after_input(Some(Vec::new()));
    assert!(!p.open && p.items.is_empty() && p.selected.is_none());
    p.after_input(Some(vec![item("a")]));
    p.after_input(None);
    assert!(!p.open && p.items.is_empty());
}

#[test]
fn popup_keys_drive_the_highlight() {
    let mut p = Popup::dismissed();
    assert_eq!(p.on_key(PopupKey::ArrowDown), PopupAction::Ignore);
    p.after_input(Some(vec![item("a"), item("b"), item("c")]));
    assert_eq!(p.on_key(PopupKey::Enter), PopupAction::Ignore);
    assert_eq!(p.on_key(PopupKey::ArrowUp), PopupAction::Select(2));
    assert_eq!(p.selected, Some(2));
    assert_eq!(p.on_key(PopupKey::ArrowDown), PopupAction::Select(0));
    assert_eq!(p.on_key(PopupKey::Tab), PopupAction::Accept(0));
    assert!(!p.open && p.items.is_empty() && p.selected.is_none());
    p.after_input(Some(vec![item("a"), item("b")]));
    assert_eq!(p.on_key(PopupKey::Escape), PopupAction::Dismiss);
    assert!(!p.open && p.items.is_empty() && p.selected.is_none());
}

#[test]
fn popup_down_then_up_returns() {
    let mut p = Popup::dismissed();
    p.after_input(Some(vec![item("a"), item("b"), item("c")]));
    for start in 0..3 {
        p.selected = Some(start);
        p.on_key(PopupKey::ArrowDown);
        assert_eq!(p.on_key(PopupKey::ArrowUp), PopupAction::Select(start));
        p.on_key(PopupKey::ArrowUp);
        assert_eq!(p.on_key(PopupKey::ArrowDown), PopupAction::Select(start));
        assert_eq!(p.selected, Some(start));
    }
}

#[test]
fn activate_snapshots_the_body() {
    let st = editing("A\n\nB\n", 1);
    assert_eq!(st.active, Some(1));
    assert_eq!(st.frozen.len(), 2);
    assert_eq!(st.body, "A\n\nB\n");
    assert!(synced(&st));
}

#[test]
fn commit_splices_into_the_body() {
    let mut st = editing("A\n\nB\n", 1);
    st.step(EditorEvent::Commit(1, "Bee\n".to_string()), no_atomic);
    assert_eq!(st.body, "A\n\nBee\n");
    assert!(synced(&st));
}

#[test]
fn blur_ends_editing_and_normalizes() {
    let mut st = editing("A\n\nB\n", 0);
    st.step(EditorEvent::Commit(0, "A\n\n\n".to_string()), no_atomic);
    assert_eq!(st.body, "A\n\n\nB\n");
    st.step(EditorEvent::Blur, no_atomic);
    assert_eq!(st.active, None);
    assert_eq!(st.body, "A\n\nB\n");
}

#[test]
fn blur_during_a_move_keeps_editing() {
    let mut st = editing("A\n\nB\n", 0);
    st.step(EditorEvent::MoveTo(1), no_atomic);
    assert!(st.moving);
    assert_eq!(st.active, Some(1));
    st.step(EditorEvent::Blur, no_atomic);
    assert!(!st.moving);
    assert_eq!(st.active, Some(1));
    assert_eq!(st.body, "A\n\nB\n");
    st.step(EditorEvent::Escape, no_atomic);
    assert_eq!(st.active, None);
}

#[test]
fn split_opens_the_next_block() {
    let mut st = editing("A\n", 0);
    st.step(EditorEvent::Split(0, "A\n\n".to_string(), String::new()), no_atomic);
    assert_eq!(st.active, Some(1));
    assert!(st.moving);
    assert_eq!(st.frozen.len(), 2);
    assert_eq!(st.body, "A\n\n");
    assert!(synced(&st));
}

#[test]
fn structural_events_while_editing() {
    let mut st = editing("A\n\nB\n", 1);
    st.step(EditorEvent::AddBlock, no_atomic);
    assert_eq!(st.active, Some(2));
    assert!(synced(&st));
    st.step(EditorEvent::Delete(0), no_atomic);
    assert_eq!(st.active, Some(1));
    assert!(synced(&st));
    st.step(EditorEvent::InsertAfter(0, "P\n\nQ".to_string()), no_atomic);
    assert!(synced(&st));
    assert!(st.body.contains("P\n\n"));
}

#[test]
fn structural_events_while_idle() {
    let mut st = EditorState::new("A\n\nB\n\nC\n".to_string());
    st.step(EditorEvent::Drop(0, 5), no_atomic);
    assert_eq!(st.body, "B\n\nC\n\nA\n");
    st.step(EditorEvent::Delete(2), no_atomic);
    assert_eq!(st.body, "B\n\nC\n");
    st.step(EditorEvent::Delete(9), no_atomic);
    assert_eq!(st.body, "B\n\nC\n");
    st.step(EditorEvent::InsertAfter(0, "X".to_string()), no_atomic);
    assert_eq!(st.body, "B\n\nX\n\nC\n");
    st.step(EditorEvent::AddBlock, no_atomic);
    assert_eq!(st.active, Some(3));
    assert!(synced(&st));
}

#[test]
fn normalizing_twice_changes_nothing() {
    // A body whose blocks would read as frontmatter keeps a leading blank line.
    assert_eq!(normalize_body("\n---\n---\nB\n", no_atomic), "\n---\n---\nB\n");
    assert_eq!(normalize_body("\n---\na\n---\nB\n", no_atomic), "\n---\na\n---\nB\n");
    for md in [
        "\n---\n---\nB\n",
        "\n\n---\na\n---\n\n\nB\n",
        "---\ntitle: x\n---\n  \n\nA\n\n\nB",
        "---\r\nk: v\r\n---\r\n\r\nBody\r\n",
        "A\n  \n\n```\ncode\n\n```\nafter\n\n\nC  \n",
        "~~~\nopen fence\n\n",
        "",
        "\n\n",
    ] {
        let once = normalize_body(md, no_atomic);
        assert_eq!(normalize_body(&once, no_atomic), once, "{md:?}");
    }
}
