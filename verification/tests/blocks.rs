use riparion_editor::{
    delete_and_normalize, frontmatter_len, insert_after_and_normalize, join_blocks,
    normalize_body, open_fence, split_blocks,
};

fn no_atomic(_: &str) -> bool {
    false
}

/// `join ∘ split` must be the identity for any input.
fn assert_roundtrip(s: &str, is_atomic: impl Fn(&str) -> bool) {
    let blocks = split_blocks(s, is_atomic);
    assert_eq!(join_blocks(&blocks), s, "round-trip failed for {s:?}");
}

#[test]
fn roundtrip_plain_prose() {
    assert_roundtrip("Hello world\n", no_atomic);
    assert_roundtrip("Hello\n\nWorld\n", no_atomic);
    assert_roundtrip("no trailing newline", no_atomic);
    assert_roundtrip("", no_atomic);
}

#[test]
fn roundtrip_leading_and_trailing_blanks() {
    assert_roundtrip("\n\nHello\n", no_atomic);
    assert_roundtrip("Hello\n\n\n", no_atomic);
    assert_roundtrip("\n", no_atomic);
}

#[test]
fn roundtrip_headings_and_lists() {
    let s = "# Title\n\nIntro paragraph.\n\n- one\n- two\n- three\n\nOutro.\n";
    assert_roundtrip(s, no_atomic);
}

#[test]
fn roundtrip_crlf() {
    assert_roundtrip("Hello\r\n\r\nWorld\r\n", no_atomic);
}

#[test]
fn fenced_code_with_blank_line_is_one_block() {
    let s = "Intro\n\n```rust\nlet a = 1;\n\nlet b = 2;\n```\n\nOutro\n";
    let blocks = split_blocks(s, no_atomic);
    assert_eq!(join_blocks(&blocks), s);
    // The fence (including its internal blank line) must be a single block.
    let fence = blocks
        .iter()
        .find(|b| b.text.contains("let a = 1;"))
        .expect("fence block present");
    assert!(
        fence.text.contains("let b = 2;"),
        "fence was split: {fence:?}"
    );
}

#[test]
fn tilde_fence() {
    let s = "~~~\ncode\n\nmore\n~~~\n";
    let blocks = split_blocks(s, no_atomic);
    assert_eq!(join_blocks(&blocks), s);
    assert_eq!(blocks.len(), 1);
}

#[test]
fn normalize_separates_blocks_and_drops_empties() {
    // Adjacent blocks that would otherwise merge get a single blank line;
    // empty/whitespace blocks are dropped; intra-block soft breaks survive.
    assert_eq!(normalize_body("A\nB\n", no_atomic), "A\nB\n"); // one block, untouched
    assert_eq!(normalize_body("A\n\n\n\nB\n", no_atomic), "A\n\nB\n"); // collapse extra blanks
    assert_eq!(normalize_body("\n\nA\n\n", no_atomic), "A\n"); // drop leading blanks
    assert_eq!(normalize_body("", no_atomic), "");
    // Soft line break inside a block is preserved.
    assert_eq!(
        normalize_body("L1\nL2\n\nP2\n", no_atomic),
        "L1\nL2\n\nP2\n"
    );
}

#[test]
fn indented_4_spaces_is_not_a_fence() {
    // CommonMark: 4-space indentation makes it an indented code block, not a
    // fence — the run must not swallow following lines as code.
    assert_eq!(open_fence("    ```"), None);
    assert_eq!(open_fence("\t```"), None);
    // Up to 3 spaces still opens a fence.
    assert_eq!(open_fence("   ```"), Some(('`', 3)));
    // No fence opens, so the indented ``` and the prose after it stay one
    // ordinary block rather than the prose being swallowed as code.
    let s = "    ```\nstill prose\n";
    let blocks = split_blocks(s, no_atomic);
    assert_eq!(join_blocks(&blocks), s);
    assert_eq!(blocks.len(), 1);
}

#[test]
fn fence_midparagraph_without_blank_line_is_not_recognized() {
    // A ``` directly after a prose line (no blank between) must not start a
    // fence and swallow the rest of the document.
    let s = "some prose\n```\nnot really code\n";
    let blocks = split_blocks(s, no_atomic);
    assert_eq!(join_blocks(&blocks), s);
    // One block, no open fence left dangling.
    assert_eq!(blocks.len(), 1);
    // A fence DOES open after a blank line, though.
    let s2 = "some prose\n\n```\ncode\n```\n";
    let blocks2 = split_blocks(s2, no_atomic);
    assert_eq!(join_blocks(&blocks2), s2);
    assert!(blocks2.iter().any(|b| b.text.contains("```\ncode\n```")));
}

#[test]
fn atomic_line_is_its_own_block() {
    let is_atomic = |l: &str| l.trim().starts_with("[[");
    let s = "Hello\n\n[[component:chart id=1]]\n\nWorld\n";
    let blocks = split_blocks(s, is_atomic);
    assert_eq!(join_blocks(&blocks), s);
    let embed = blocks.iter().find(|b| b.atomic).expect("atomic block");
    assert_eq!(embed.text, "[[component:chart id=1]]\n");
}

#[test]
fn atomic_line_not_detected_inside_fence() {
    let is_atomic = |l: &str| l.trim().starts_with("[[");
    let s = "```\n[[component:chart]]\n```\n";
    let blocks = split_blocks(s, is_atomic);
    assert_eq!(join_blocks(&blocks), s);
    // The bracket line is inside the fence, so it is NOT its own block.
    assert!(blocks.iter().all(|b| !b.atomic));
    assert_eq!(blocks.len(), 1);
}

#[test]
fn delete_removes_block_and_normalizes() {
    let bs = split_blocks("A\n\nB\n\nC\n", no_atomic);
    assert_eq!(delete_and_normalize(&bs, 1), "A\n\nC\n");
    assert_eq!(delete_and_normalize(&bs, 0), "B\n\nC\n");
    // Out of range: no-op (body just normalizes).
    assert_eq!(delete_and_normalize(&bs, 9), "A\n\nB\n\nC\n");
}

#[test]
fn delete_last_block_yields_empty() {
    let bs = split_blocks("Only\n", no_atomic);
    assert_eq!(delete_and_normalize(&bs, 0), "");
}

#[test]
fn insert_after_adds_block_with_separator() {
    let bs = split_blocks("A\n\nB\n", no_atomic);
    assert_eq!(
        insert_after_and_normalize(&bs, 0, "X", no_atomic),
        "A\n\nX\n\nB\n"
    );
    // After the last block.
    assert_eq!(
        insert_after_and_normalize(&bs, 1, "Z", no_atomic),
        "A\n\nB\n\nZ\n"
    );
    // Whitespace-only paste is dropped by normalization.
    assert_eq!(
        insert_after_and_normalize(&bs, 0, "   ", no_atomic),
        "A\n\nB\n"
    );
}

#[test]
fn insert_after_multiparagraph_paste_splits() {
    let bs = split_blocks("A\n", no_atomic);
    assert_eq!(
        insert_after_and_normalize(&bs, 0, "P1\n\nP2", no_atomic),
        "A\n\nP1\n\nP2\n"
    );
}

#[test]
fn frontmatter_kept_as_one_block() {
    let s = "---\ntitle: Hi\ntags: [a, b]\n---\n\n# Body\n";
    let blocks = split_blocks(s, no_atomic);
    assert_eq!(join_blocks(&blocks), s);
    assert_eq!(blocks.len(), 2);
    assert!(blocks[0].frontmatter);
    // The blank separator attaches to the frontmatter block (no spacer).
    assert_eq!(blocks[0].text, "---\ntitle: Hi\ntags: [a, b]\n---\n\n");
    assert!(!blocks[1].frontmatter);
    assert_eq!(blocks[1].text, "# Body\n");
}

#[test]
fn frontmatter_roundtrips() {
    // Hostile interior: an atomic-looking line and a fence opener must not
    // split the frontmatter or leak fence state into the body.
    let s =
        "---\ntitle: Hi\n[[embed]]\n```\nnote: fence chars\n---\n\nBody\n\n```\ncode\n```\n";
    let embeds = |l: &str| l.trim_start().starts_with("[[");
    assert_roundtrip(s, embeds);
    let blocks = split_blocks(s, embeds);
    assert!(blocks[0].frontmatter);
    assert!(blocks[0].text.ends_with("---\n\n"));
    assert!(blocks[0].text.contains("[[embed]]"));
    // The body fence is still one block.
    let fence = blocks
        .iter()
        .find(|b| b.text.contains("code"))
        .expect("fence block present");
    assert!(fence.text.contains("```\ncode\n```"));
}

#[test]
fn frontmatter_blank_line_inside_does_not_split() {
    let s = "---\ntitle: Hi\n\ndate: 2026-06-04\n---\nBody\n";
    let blocks = split_blocks(s, no_atomic);
    assert_eq!(join_blocks(&blocks), s);
    assert!(blocks[0].frontmatter);
    assert!(blocks[0].text.contains("date:"));
}

#[test]
fn frontmatter_only_at_offset_zero() {
    let s = "Intro\n\n---\na: 1\n---\n";
    let blocks = split_blocks(s, no_atomic);
    assert_eq!(join_blocks(&blocks), s);
    assert!(blocks.iter().all(|b| !b.frontmatter));
}

#[test]
fn frontmatter_leading_blank_is_not_frontmatter() {
    let s = "\n---\na: 1\n---\n";
    let blocks = split_blocks(s, no_atomic);
    assert_eq!(join_blocks(&blocks), s);
    assert!(blocks.iter().all(|b| !b.frontmatter));
}

#[test]
fn triple_dash_thematic_break_unchanged() {
    // A `---` after prose is a thematic break / setext underline, not
    // frontmatter — splitting behaves exactly as before.
    let s = "Title\n---\n\nBody\n";
    let blocks = split_blocks(s, no_atomic);
    assert_eq!(join_blocks(&blocks), s);
    assert!(blocks.iter().all(|b| !b.frontmatter));
    assert_eq!(blocks.len(), 2);
}

#[test]
fn unclosed_frontmatter_is_not_frontmatter() {
    // A lone leading `---` must not swallow the document.
    let s = "---\ntitle: Hi\n\nBody\n";
    assert_eq!(frontmatter_len(s), None);
    let blocks = split_blocks(s, no_atomic);
    assert_eq!(join_blocks(&blocks), s);
    assert!(blocks.iter().all(|b| !b.frontmatter));
    assert_eq!(blocks.len(), 2); // splits on the blank line as usual
}

#[test]
fn empty_frontmatter() {
    let s = "---\n---\nBody\n";
    let blocks = split_blocks(s, no_atomic);
    assert_eq!(join_blocks(&blocks), s);
    assert!(blocks[0].frontmatter);
    assert_eq!(blocks[0].text, "---\n---\n");
}

#[test]
fn frontmatter_only_document() {
    let s = "---\ntitle: Hi\n---\n";
    let blocks = split_blocks(s, no_atomic);
    assert_eq!(join_blocks(&blocks), s);
    assert_eq!(blocks.len(), 1);
    assert!(blocks[0].frontmatter);
    // Closing line without a trailing newline still closes.
    let s2 = "---\ntitle: Hi\n---";
    assert_eq!(frontmatter_len(s2), Some(s2.len()));
    assert_roundtrip(s2, no_atomic);
}

#[test]
fn frontmatter_dot_close() {
    // YAML's document-end marker `...` also closes the run.
    let s = "---\ntitle: Hi\n...\n\nBody\n";
    let blocks = split_blocks(s, no_atomic);
    assert_eq!(join_blocks(&blocks), s);
    assert!(blocks[0].frontmatter);
    assert!(blocks[0].text.ends_with("...\n\n"));
}

#[test]
fn frontmatter_crlf() {
    let s = "---\r\ntitle: Hi\r\n---\r\n\r\nBody\r\n";
    let blocks = split_blocks(s, no_atomic);
    assert_eq!(join_blocks(&blocks), s);
    assert!(blocks[0].frontmatter);
}

#[test]
fn frontmatter_no_blank_before_body() {
    let s = "---\ntitle: Hi\n---\nBody\n";
    let blocks = split_blocks(s, no_atomic);
    assert_eq!(join_blocks(&blocks), s);
    assert_eq!(blocks.len(), 2);
    assert!(blocks[0].frontmatter);
    assert_eq!(blocks[1].text, "Body\n");
}

#[test]
fn normalize_preserves_frontmatter() {
    // The YAML (including its interior blank line) survives normalization
    // verbatim; the body separator is canonicalized.
    let s = "---\ntitle: Hi\n\ndate: x\n---\n\n\n\nBody\n";
    assert_eq!(
        normalize_body(s, no_atomic),
        "---\ntitle: Hi\n\ndate: x\n---\n\nBody\n"
    );
}

#[test]
fn normalize_frontmatter_only() {
    assert_eq!(
        normalize_body("---\ntitle: Hi\n---", no_atomic),
        "---\ntitle: Hi\n---\n"
    );
}
