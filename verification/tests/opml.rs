use localfeed::db::FeedRow;
use localfeed::opml::{attr, ends_with_opml, esc, is_opml_arg, opml_document, parse_outlines, OpmlImport};

#[test]
fn attr_extrai_xmlurl() {
    let tag = r#"<outline type="rss" text="Blog &amp; Cia" xmlUrl="https://ex.com/feed"/>"#;
    assert_eq!(attr(tag, "xmlUrl"), Some("https://ex.com/feed".into()));
    assert_eq!(attr(tag, "text"), Some("Blog & Cia".into()));
    assert_eq!(attr(tag, "nada"), None);
}

#[test]
fn esc_escapa_xml() {
    assert_eq!(esc(r#"a & "b" <c>"#), "a &amp; &quot;b&quot; &lt;c>");
}

fn feed(title: &str, url: &str) -> FeedRow {
    FeedRow {
        id: 1,
        url: url.into(),
        title: title.into(),
        site_url: None,
        folder: None,
        unread: 0,
        last_error: None,
    }
}

#[test]
fn exporta_e_importa_de_volta() {
    let feeds = vec![feed("Blog & \"Cia\"", "https://ex.com/feed?a=1&b=2"), feed("Outro", "https://o.com/rss")];
    let xml = opml_document(&feeds);
    assert!(xml.starts_with("<?xml version=\"1.0\" encoding=\"UTF-8\"?>\n<opml version=\"2.0\">"));
    assert!(xml.contains("    <outline type=\"rss\" text=\"Outro\" title=\"Outro\" xmlUrl=\"https://o.com/rss\"/>\n"));
    let back = parse_outlines(&xml);
    assert_eq!(back.len(), 2);
    assert_eq!(back[0].url, "https://ex.com/feed?a=1&b=2");
    assert_eq!(back[0].title, "Blog & \"Cia\"");
    assert_eq!(back[1].title, "Outro");
}

#[test]
fn importa_com_titulo_de_reserva() {
    let xml = r#"<opml><body><OUTLINE text="So texto" xmlUrl='https://a.com/f'/><outline xmlUrl="https://b.com/f"/><outline text="pasta"></body></opml>"#;
    let o = parse_outlines(xml);
    assert_eq!(o.len(), 2);
    assert_eq!((o[0].url.as_str(), o[0].title.as_str()), ("https://a.com/f", "So texto"));
    assert_eq!((o[1].url.as_str(), o[1].title.as_str()), ("https://b.com/f", "https://b.com/f"));
}

#[test]
fn argumento_opml() {
    assert!(is_opml_arg("assinaturas.OPML"));
    assert!(!is_opml_arg("--x.opml"));
    assert!(!is_opml_arg("a.xml"));
    assert!(ends_with_opml("C:/x.Opml"));
    assert!(!ends_with_opml("pml"));
}

#[test]
fn contagem_da_importacao() {
    let mut c = OpmlImport::new();
    c.count(true);
    c.count(false);
    c.count(true);
    assert_eq!((c.added, c.skipped), (2, 1));
}

#[test]
fn titulo_com_title_igual_volta_pelo_text() {
    let feeds = vec![feed("my title=x", "https://ex.com/feed")];
    let back = parse_outlines(&opml_document(&feeds));
    assert_eq!(back.len(), 1);
    assert_eq!(back[0].title, "my title=x");
    assert_eq!(back[0].url, "https://ex.com/feed");
}

#[test]
fn texto_escapado_volta_pelo_attr() {
    let s = r#"Tom & "Jerry" 'x'"#;
    let tag = format!(r#"<outline text="{}"/>"#, esc(s));
    assert_eq!(attr(&tag, "text"), Some(s.to_string()));
}
