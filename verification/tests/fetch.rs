use localfeed::fetch::{
    DiscoverStep, Discovery,
    attr_value, candidates, entry_article, extract_readable, feed_title, fetch_error,
    html_feed_links, now_ms, feed_at, site_url, start_url, status_error, strip_html,
    to_millis_i64, FeedEntry, ParsedFeed,
};

#[test]
fn strip_html_remove_tags_e_entidades() {
    assert_eq!(strip_html("<p>Olá <b>mundo</b> &amp; cia</p>"), "Olá mundo & cia");
    assert_eq!(strip_html("um\n  dois\t tres"), "um dois tres");
}

#[test]
fn html_feed_links_acha_alternate() {
    let html = r#"<html><head>
          <link rel="alternate" type="application/rss+xml" href="/feed.xml">
          <link rel="stylesheet" href="/style.css">
          <link rel="alternate" type="application/atom+xml" href="https://ex.com/atom">
        </head></html>"#;
    let links = html_feed_links(html, "https://ex.com/blog/");
    assert!(links.contains(&"https://ex.com/feed.xml".to_string()));
    assert!(links.contains(&"https://ex.com/atom".to_string()));
    assert_eq!(links.len(), 2);
}

#[test]
fn attr_value_aspas_simples_e_duplas() {
    assert_eq!(attr_value(r#"<link href="/a">"#, "href"), Some("/a".into()));
    assert_eq!(attr_value("<link href='/b'>", "href"), Some("/b".into()));
    assert_eq!(attr_value("<link>", "href"), None);
}

#[test]
fn strip_html_corta_em_500_chars() {
    let long = "a".repeat(600);
    assert_eq!(strip_html(&long), "a".repeat(500));
    assert_eq!(strip_html(&"é".repeat(600)).chars().count(), 500);
    // uma tag no meio não conta para o limite
    let with_tags = format!("<div class=\"{}\">abc</div>", "x".repeat(700));
    assert_eq!(strip_html(&with_tags), "abc");
}

#[test]
fn strip_html_decodifica_entidades_e_apara() {
    assert_eq!(strip_html("  &lt;tag&gt; &quot;x&quot; &#39;y&#39;&nbsp;"), "<tag> \"x\" 'y'");
    assert_eq!(strip_html(""), "");
    assert_eq!(strip_html("<br/>"), "");
}

#[test]
fn attr_value_sem_aspas_ou_sem_fechar() {
    assert_eq!(attr_value("<link href=/a>", "href"), None);
    assert_eq!(attr_value("<link href=\"/a>", "href"), None);
    assert_eq!(attr_value("<LINK HREF=\"/A\">", "href"), Some("/A".into()));
}

#[test]
fn start_url_poe_https_quando_falta() {
    assert_eq!(start_url("ex.com/blog"), "https://ex.com/blog");
    assert_eq!(start_url("http://ex.com"), "http://ex.com");
    assert_eq!(start_url("https://ex.com"), "https://ex.com");
}

#[test]
fn candidates_tem_links_e_palpites() {
    let page = br#"<link rel="alternate" type="application/rss+xml" href="/f.xml">"#;
    let c = candidates(page, "https://ex.com/blog/");
    assert_eq!(
        c,
        vec![
            "https://ex.com/f.xml",
            "https://ex.com/blog/feed",
            "https://ex.com/blog/rss",
            "https://ex.com/blog/feed.xml",
            "https://ex.com/blog/atom.xml",
            "https://ex.com/blog/index.xml",
            "https://ex.com/blog/rss.xml",
        ]
    );
}

fn entry() -> FeedEntry {
    FeedEntry {
        id: String::new(),
        title: Some("<b>Título</b>".into()),
        links: vec!["https://ex.com/a".into(), "https://ex.com/b".into()],
        authors: vec!["Maria".into()],
        published_ms: None,
        updated_ms: Some(42),
        summary: None,
        content_body: Some("<p>Corpo &amp; mais</p>".into()),
    }
}

#[test]
fn entry_article_usa_link_como_guid_e_conteudo_como_resumo() {
    let a = entry_article(&entry()).unwrap();
    assert_eq!(a.guid, "https://ex.com/a");
    assert_eq!(a.title, "Título");
    assert_eq!(a.url.as_deref(), Some("https://ex.com/a"));
    assert_eq!(a.author.as_deref(), Some("Maria"));
    assert_eq!(a.published_ms, Some(42));
    assert_eq!(a.summary.as_deref(), Some("<p>Corpo &amp; mais</p>"));
    assert_eq!(a.excerpt, "Corpo & mais");
}

#[test]
fn entry_article_sem_identidade_e_pulado() {
    let mut e = entry();
    e.links.clear();
    e.title = None;
    assert!(entry_article(&e).is_none());
    e.title = Some("   ".into());
    let a = entry_article(&e).unwrap();
    assert_eq!(a.guid, "   ");
    assert_eq!(a.title, "(sem título)");
}

#[test]
fn feed_at_le_rss() {
    let xml = br#"<?xml version="1.0"?><rss version="2.0"><channel><title>Blog &amp; Cia</title>
        <link>https://ex.com/</link>
        <item><title>Um</title><link>https://ex.com/1</link><description>&lt;p&gt;oi&lt;/p&gt;</description></item>
        <item><title>Dois</title></item>
        </channel></rss>"#;
    let d = feed_at("https://ex.com/feed", xml).unwrap();
    assert_eq!(d.feed_url, "https://ex.com/feed");
    let f = d.feed;
    assert_eq!(f.entries.len(), 2);
    assert!(f.entries.iter().all(|e| !e.id.is_empty()));
    assert_eq!(feed_title(&f, "https://ex.com/feed"), "Blog & Cia");
    assert_eq!(site_url(&f).as_deref(), Some("https://ex.com/"));
    let a = entry_article(&f.entries[0]).unwrap();
    assert_eq!(a.title, "Um");
    assert_eq!(a.excerpt, "oi");
    assert!(feed_at("https://ex.com/", b"<html><body>nada</body></html>").is_none());
}

#[test]
fn feed_title_cai_para_o_dominio() {
    let f = ParsedFeed { title: None, links: vec![], entries: vec![] };
    assert_eq!(feed_title(&f, "https://blog.ex.com/feed"), "blog.ex.com");
    assert_eq!(feed_title(&f, "nao e url"), "nao e url");
    assert_eq!(site_url(&f), None);
}

#[test]
fn mensagens_de_erro_de_rede() {
    assert_eq!(fetch_error("u", true, true, "x"), "u: tempo esgotado");
    assert_eq!(fetch_error("u", false, true, "x"), "u: sem conexão");
    assert_eq!(fetch_error("u", false, false, "x"), "u: x");
    assert_eq!(status_error("https://ex.com", 404), "https://ex.com: HTTP 404");
    assert_eq!(status_error("u", 0), "u: HTTP 0");
}

#[test]
fn extract_readable_exige_url_valida() {
    assert!(extract_readable(b"<html><body><p>oi</p></body></html>", "nao e url").is_err());
    let page = b"<html><body><article><p>Um texto razoavelmente longo, com virgulas, para o leitor, achar.</p></article></body></html>";
    let out = extract_readable(page, "https://ex.com/a").unwrap();
    assert!(out.contains("razoavelmente"));
}

#[test]
fn relogio_em_milissegundos() {
    assert_eq!(to_millis_i64(None), 0);
    assert_eq!(to_millis_i64(Some(1234)), 1234);
    assert!(now_ms() > 1_600_000_000_000);
}

#[test]
fn descoberta_passo_a_passo() {
    let (mut d, first) = Discovery::new("ex.com");
    assert_eq!(first, "https://ex.com");
    // erro no endereço digitado encerra com esse erro
    match d.on_fetch(Err("falhou".to_string())) {
        DiscoverStep::Failed(e) => assert_eq!(e, "falhou"),
        _ => panic!("esperava falha"),
    }
    // o próprio endereço é um feed
    let (mut d, _) = Discovery::new("https://ex.com/feed");
    let rss = br#"<?xml version="1.0"?><rss version="2.0"><channel><title>T</title><item><title>Um</title><link>https://ex.com/1</link></item></channel></rss>"#;
    match d.on_fetch(Ok(rss.to_vec())) {
        DiscoverStep::Found(f) => {
            assert_eq!(f.feed_url, "https://ex.com/feed");
            assert_eq!(f.feed.entries.len(), 1);
        }
        _ => panic!("esperava feed"),
    }
    // página HTML: tenta os anunciados e os palpites, em ordem
    let (mut d, _) = Discovery::new("https://ex.com/");
    let html = br#"<html><head><link rel="alternate" type="application/rss+xml" href="/x.xml"></head></html>"#;
    let mut tried = Vec::new();
    let mut step = d.on_fetch(Ok(html.to_vec()));
    loop {
        match step {
            DiscoverStep::Fetch(u) => {
                tried.push(u.clone());
                if u == "https://ex.com/rss" {
                    step = d.on_fetch(Ok(rss.to_vec()));
                } else {
                    step = d.on_fetch(Err("404".to_string()));
                }
            }
            DiscoverStep::Found(f) => {
                assert_eq!(f.feed_url, "https://ex.com/rss");
                break;
            }
            DiscoverStep::Failed(_) => panic!("esperava feed"),
        }
    }
    assert_eq!(tried, vec!["https://ex.com/x.xml", "https://ex.com/feed", "https://ex.com/rss"]);
    // nada serve: a mensagem de sempre
    let (mut d, _) = Discovery::new("https://ex.com/");
    let mut step = d.on_fetch(Ok(b"<html></html>".to_vec()));
    let mut n = 0;
    while let DiscoverStep::Fetch(_) = step {
        n += 1;
        step = d.on_fetch(Err("x".to_string()));
    }
    assert_eq!(n, 6);
    match step {
        DiscoverStep::Failed(e) => assert_eq!(e, "nenhum feed encontrado nesse endereço"),
        _ => panic!("esperava falha"),
    }
}

#[test]
fn podcast_com_duracao_enorme_nao_derruba() {
    let xml = r#"<?xml version="1.0"?><rss version="2.0" xmlns:itunes="http://www.itunes.com/dtds/podcast-1.0.dtd" xmlns:media="http://search.yahoo.com/mrss/"><channel><title>P</title>
        <item><title>Ep</title><link>https://p.com/1</link><itunes:duration>9999999999999999999999999</itunes:duration><media:thumbnail url="https://p.com/t.png" time="٣"/></item>
        </channel></rss>"#;
    let d = feed_at("https://p.com/feed", xml.as_bytes()).unwrap();
    assert_eq!(d.feed.title.as_deref(), Some("P"));
    assert_eq!(d.feed.entries.len(), 1);
    assert_eq!(d.feed.entries[0].title.as_deref(), Some("Ep"));
    assert_eq!(d.feed.entries[0].links, vec!["https://p.com/1".to_string()]);
}

#[test]
fn endereco_de_namespace_em_utf16_nao_e_lido() {
    let mut page = b"<rss version=\"2.0\"><channel><title>x</title></channel></rss>".to_vec();
    for c in "search.yahoo.com/mrss".chars() {
        page.push(c as u8);
        page.push(0);
    }
    assert!(feed_at("https://x.com/", &page).is_none());
    page.truncate(page.len() - 42);
    assert!(feed_at("https://x.com/", &page).is_some());
}
