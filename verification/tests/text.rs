use structure_sync::text::same_text;

#[test]
fn texts_are_compared_byte_for_byte() {
    assert!(same_text("", ""));
    assert!(same_text("src/app.rs", "src/app.rs"));
    assert!(same_text("структура", "структура"));
    assert!(!same_text("src/app.rs", "src/app.rs/"));
    assert!(!same_text("src/app.rs", "src/App.rs"));
    assert!(!same_text("src/app.rs", ""));
    assert!(!same_text("a", "b"));
    assert!(!same_text("é", "e\u{301}"));
}
