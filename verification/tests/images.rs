use localfeed::images::{
    attr_span, attr_value, cache_dir, cache_record, data_uri, fetch_list,
    header_mime, img_urls, keep_image, key, replace_attr, rewrite, rewrite_tag, strip_attr,
    worth_reading, DataUris, MAX_IMG_BYTES,
};

#[test]
fn img_urls_pega_so_http_sem_repetir() {
    let html = r#"
          <p><img src="https://a.com/1.png" alt="um"></p>
          <IMG SRC='http://b.com/2.jpg'>
          <img src="data:image/png;base64,AAAA">
          <img src="/relativo.png">
          <img src="https://a.com/1.png">
        "#;
    assert_eq!(
        img_urls(html),
        vec!["https://a.com/1.png".to_string(), "http://b.com/2.jpg".to_string()]
    );
}

#[test]
fn data_src_nao_e_confundido_com_src() {
    let tag = r#"<img data-src="https://lazy.com/x.png" src="https://real.com/y.png">"#;
    assert_eq!(attr_value(tag, "src").as_deref(), Some("https://real.com/y.png"));
}

#[test]
fn rewrite_troca_o_src_e_mata_o_srcset() {
    let mut map = DataUris::new();
    map.insert("https://a.com/1.png".to_string(), "data:image/png;base64,QQ==".to_string());
    let html = r#"<p>oi</p><img src="https://a.com/1.png" srcset="https://a.com/1@2x.png 2x" sizes="50vw" alt="x"><p>fim</p>"#;
    let out = rewrite(html, &map);
    assert!(out.contains(r#"src="data:image/png;base64,QQ==""#));
    assert!(!out.contains("srcset"));
    assert!(!out.contains("sizes"));
    assert!(out.contains("<p>oi</p>") && out.contains("<p>fim</p>"));
    assert!(out.contains(r#"alt="x""#));
}

#[test]
fn rewrite_so_troca_o_valor_do_src() {
    let mut map = DataUris::new();
    map.insert("https://a.com/1.png".to_string(), "data:image/png;base64,QQ==".to_string());
    let html = r#"<img src="https://a.com/1.png" alt="x">"#;
    assert_eq!(rewrite(html, &map), r#"<img src="data:image/png;base64,QQ==" alt="x">"#);
}

#[test]
fn imagem_fora_do_cache_mantem_a_url_original() {
    let map = DataUris::new();
    let html = r#"<img src="https://a.com/1.png">"#;
    assert_eq!(rewrite(html, &map), r#"<img src="https://a.com/1.png">"#);
}

#[test]
fn attr_value_sem_aspas_e_com_espacos() {
    assert_eq!(attr_value("<img src = https://x.com/a.png alt=y>", "src").as_deref(), Some("https://x.com/a.png"));
    assert_eq!(attr_value("src=\" a \"", "src").as_deref(), Some("a"));
    assert_eq!(attr_value("<img src=\"x", "src"), None);
    assert_eq!(attr_value("<img alt=x>", "src"), None);
}

#[test]
fn attr_span_e_edicoes_de_atributo() {
    let tag = r#"<img src="a" srcset="b 2x" alt="c">"#;
    assert_eq!(attr_span(tag, "srcset"), Some((12, 26)));
    assert_eq!(strip_attr(tag, "srcset"), r#"<img src="a" alt="c">"#);
    assert_eq!(replace_attr(tag, "src", "d"), r#"<img src="d" srcset="b 2x" alt="c">"#);
    assert_eq!(strip_attr("<img>", "srcset"), "<img>");
    // no início da tag não é atributo
    assert_eq!(attr_span("srcset=x", "srcset"), None);
}

#[test]
fn rewrite_tag_sem_cache_so_tira_srcset() {
    let map = DataUris::new();
    assert_eq!(
        rewrite_tag(r#"<img src="https://a.com/1.png" srcset="x 2x">"#, &map),
        r#"<img src="https://a.com/1.png">"#
    );
}

#[test]
fn data_uris_guarda_o_ultimo_valor() {
    let mut m = DataUris::new();
    assert_eq!(m.get("u"), None);
    m.insert("u".into(), "1".into());
    m.insert("v".into(), "2".into());
    m.insert("u".into(), "3".into());
    assert_eq!(m.get("u").as_deref(), Some("3"));
    assert_eq!(m.get("v").as_deref(), Some("2"));
}

#[test]
fn cache_ida_e_volta_na_memoria() {
    let raw = cache_record("image/png", &[1, 2, 3, 4]);
    assert_eq!(raw, b"image/png\n\x01\x02\x03\x04".to_vec());
    assert_eq!(data_uri(&raw).as_deref(), Some("data:image/png;base64,AQIDBA=="));
    assert_eq!(data_uri(b"sem quebra"), None);
    assert_eq!(data_uri(b"\xff\n12"), None);
}

#[test]
fn base64_padrao() {
    let uri = |body: &[u8]| {
        let mut raw = b"t\n".to_vec();
        raw.extend_from_slice(body);
        data_uri(&raw).unwrap()
    };
    assert_eq!(uri(b""), "data:t;base64,");
    assert_eq!(uri(b"A"), "data:t;base64,QQ==");
    assert_eq!(uri(b"hello"), "data:t;base64,aGVsbG8=");
    assert_eq!(uri(b"hel"), "data:t;base64,aGVs");
    assert_eq!(uri(&[0xff, 0xfe, 0xfd]), "data:t;base64,//79");
}

#[test]
fn chave_do_cache_e_sha256_em_hex() {
    let k = key("https://a.com/1.png");
    assert_eq!(k.len(), 64);
    assert!(k.chars().all(|c| c.is_ascii_hexdigit() && !c.is_ascii_uppercase()));
    assert_eq!(key(""), "e3b0c44298fc1c149afbf4c8996fb92427ae41e4649b934ca495991b7852b855");
    assert_ne!(key("a"), key("b"));
}

#[test]
fn decisoes_do_download() {
    assert_eq!(header_mime("text/html; charset=utf-8"), "text/html");
    assert_eq!(header_mime(" image/png "), "image/png");
    assert!(worth_reading(true, Some(10), "image/png"));
    assert!(!worth_reading(false, Some(10), "image/png"));
    assert!(!worth_reading(true, Some(MAX_IMG_BYTES as u64 + 1), "image/png"));
    assert!(!worth_reading(true, None, "text/html"));
    assert!(keep_image(1));
    assert!(!keep_image(0));
    assert!(!keep_image(MAX_IMG_BYTES + 1));
    let urls: Vec<String> = (0..50).map(|i| format!("https://a.com/{i}")).collect();
    let l = fetch_list(&urls);
    assert_eq!(l.len(), 40);
    assert_eq!(l[39], "https://a.com/39");
}

#[test]
fn pasta_do_cache() {
    let d = cache_dir("/tmp/app");
    assert!(d.ends_with("img-cache"));
    assert!(d.starts_with("/tmp/app"));
}
