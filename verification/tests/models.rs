use solidate::models::{snippet_html, SNIPPET_END, SNIPPET_START};

#[test]
fn snippet_html_escapes_text_and_marks_matches() {
    let snippet = format!("<script>{SNIPPET_START}rotated{SNIPPET_END} & \"x\"");
    assert_eq!(snippet_html(&snippet), "&lt;script&gt;<mark>rotated</mark> &amp; &quot;x&quot;");
}

#[test]
fn snippet_html_escapes_apostrophes() {
    assert_eq!(snippet_html("it's"), "it&#39;s");
    assert_eq!(snippet_html(""), "");
}
