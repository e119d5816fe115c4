use structure_sync::locator::{locate, MarkerError, Span};

#[test]
fn the_span_lies_between_the_tokens() {
    let document = "intro <code a.txt>old</code a.txt> outro";
    let span = locate(document, "a.txt").unwrap();
    assert_eq!(span, Span { start: 18, end: 21 });
    assert_eq!(&document[span.start..span.end], "old");
}

#[test]
fn an_empty_region_has_an_empty_span() {
    assert_eq!(locate("<code a.txt></code a.txt>", "a.txt"), Ok(Span { start: 12, end: 12 }));
}

#[test]
fn a_missing_start_token_is_reported() {
    assert_eq!(locate("", "a.txt"), Err(MarkerError::StartMarkerMissing));
    assert_eq!(locate("nothing here", "a.txt"), Err(MarkerError::StartMarkerMissing));
    assert_eq!(locate("</code a.txt>", "a.txt"), Err(MarkerError::StartMarkerMissing));
    assert_eq!(locate("<code a.txt", "a.txt"), Err(MarkerError::StartMarkerMissing));
}

#[test]
fn a_missing_end_token_is_reported() {
    assert_eq!(locate("<code a.txt>", "a.txt"), Err(MarkerError::EndMarkerMissing));
    assert_eq!(locate("<code a.txt> open", "a.txt"), Err(MarkerError::EndMarkerMissing));
    assert_eq!(locate("<code a.txt></code b.txt>", "a.txt"), Err(MarkerError::EndMarkerMissing));
}

#[test]
fn an_end_token_before_the_start_token_is_never_matched() {
    let document = "</code a.txt> <code a.txt>x</code a.txt>";
    assert_eq!(locate(document, "a.txt"), Ok(Span { start: 26, end: 27 }));
    let document = "</code a.txt> <code a.txt>x";
    assert_eq!(locate(document, "a.txt"), Err(MarkerError::EndMarkerMissing));
}

#[test]
fn the_end_token_of_another_file_is_never_matched() {
    let document = "</code b.txt><code a.txt>x</code b.txt>y</code a.txt>";
    let span = locate(document, "a.txt").unwrap();
    assert_eq!(&document[span.start..span.end], "x</code b.txt>y");
    let document = "</code b.txt><code a.txt>x</code b.txt>";
    assert_eq!(locate(document, "a.txt"), Err(MarkerError::EndMarkerMissing));
}

#[test]
fn the_first_start_token_and_the_first_end_token_behind_it_count() {
    let document = "<code a>1</code a><code a>2</code a>";
    assert_eq!(locate(document, "a"), Ok(Span { start: 8, end: 9 }));
}

#[test]
fn an_identifier_that_ends_another_one_is_told_apart() {
    let document = "<code data.txt>D</code data.txt><code a.txt>A</code a.txt>";
    let span = locate(document, "a.txt").unwrap();
    assert_eq!(&document[span.start..span.end], "A");
    let span = locate(document, "data.txt").unwrap();
    assert_eq!(&document[span.start..span.end], "D");
    assert_eq!(
        locate("<code data.txt>D</code data.txt>", "a.txt"),
        Err(MarkerError::StartMarkerMissing)
    );
}

#[test]
fn offsets_are_counted_in_bytes() {
    let document = "añ<code a.txt>é</code a.txt>";
    let span = locate(document, "a.txt").unwrap();
    assert_eq!(span, Span { start: 15, end: 17 });
    assert_eq!(&document[span.start..span.end], "é");
}

#[test]
fn identifiers_are_matched_exactly() {
    assert_eq!(locate("<code A.txt></code A.txt>", "a.txt"), Err(MarkerError::StartMarkerMissing));
    assert_eq!(locate("<code  a.txt></code  a.txt>", "a.txt"), Err(MarkerError::StartMarkerMissing));
    assert_eq!(locate("<code a.txt ></code a.txt >", "a.txt"), Err(MarkerError::StartMarkerMissing));
}
