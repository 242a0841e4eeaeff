use tableizer::CancellationToken;

#[test]
fn flips_once_cancelled_and_is_visible_through_clones() {
    let token = CancellationToken::new();
    assert!(!token.is_cancelled());

    let observer = token.clone();
    token.cancel();

    assert!(observer.is_cancelled(), "cancellation must be visible to clones");
}

#[test]
fn a_default_token_is_not_cancelled() {
    assert!(!CancellationToken::default().is_cancelled());
}
