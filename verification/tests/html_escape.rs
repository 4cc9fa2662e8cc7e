use v_escape::html::HTMLEscape;

#[test]
fn test_escape() {
    let empty = "";
    assert_eq!(HTMLEscape::from(empty).to_string(), empty);

    assert_eq!(HTMLEscape::from("").to_string(), "");
    assert_eq!(HTMLEscape::from("<&>").to_string(), "&lt;&amp;&gt;");
    assert_eq!(HTMLEscape::from("bar&").to_string(), "bar&amp;");
    assert_eq!(HTMLEscape::from("<foo").to_string(), "&lt;foo");
    assert_eq!(HTMLEscape::from("bar&h").to_string(), "bar&amp;h");
    assert_eq!(
        HTMLEscape::from("// my <html> is \"unsafe\" & should be 'escaped'").to_string(),
        "&#x2f;&#x2f; my &lt;html&gt; is &quot;unsafe&quot; &amp; \
         should be &#x27;escaped&#x27;"
    );
    assert_eq!(
        HTMLEscape::from(
            "// my <html> is \"unsafe\" & should be 'escaped'"
                .repeat(10_000)
                .as_ref()
        )
        .to_string(),
        "&#x2f;&#x2f; my &lt;html&gt; is &quot;unsafe&quot; &amp; \
         should be &#x27;escaped&#x27;"
            .repeat(10_000)
    );
}
