use localfeed::search::{
    backfill_batches, html_to_text, index_dir, index_doc, kept_hits, reconcile_plan,
    schema_marker, schema_ok, search_limits, search_request, search_sql, SearchOpts,
};

#[test]
fn html_to_text_descarta_script_e_style() {
    let html = b"<p>Texto <b>bom</b> &amp; util</p><style>p{color:red}</style>\
                 <script>var x = 'segredo';</script>";
    let t = html_to_text(html);
    assert!(t.contains("Texto bom & util"));
    assert!(!t.contains("color"));
    assert!(!t.contains("segredo"));
}

#[test]
fn html_to_text_exatos() {
    assert_eq!(html_to_text(b"<p>a</p>\n\n<p>b&nbsp;c</p>"), "a b c");
    assert_eq!(html_to_text(b"<SCRIPT>x</SCRIPT>fim"), "fim");
    assert_eq!(html_to_text(b"<script>sem fim"), "");
    assert_eq!(html_to_text(b"a<b"), "a");
    assert_eq!(html_to_text("São <i>Paulo</i>".as_bytes()), "São Paulo");
}

fn opts(q: &str) -> SearchOpts {
    SearchOpts {
        query: q.into(),
        feed_id: None,
        unread_only: false,
        favorites_only: false,
        since_ms: None,
        limit: 20,
    }
}

#[test]
fn limites_da_busca() {
    let mut o = opts("x");
    assert_eq!(search_limits(&o), (20, 20));
    o.unread_only = true;
    assert_eq!(search_limits(&o), (20, 160));
    o.limit = 0;
    assert_eq!(search_limits(&o), (1, 8));
    o.limit = 500;
    assert_eq!(search_limits(&o), (200, 1000));
}

#[test]
fn sql_da_busca_leva_os_filtros() {
    let mut o = opts("x");
    o.feed_id = Some(-3);
    o.unread_only = true;
    o.favorites_only = true;
    o.since_ms = Some(5000);
    let sql = search_sql(&o);
    assert!(sql.ends_with(" AND a.feed_id = -3 AND a.read = 0 AND a.favorite = 1 AND COALESCE(a.published_ms, a.fetched_ms) >= 5000"));
    assert!(search_sql(&opts("x")).ends_with("WHERE a.id = ?1"));
}

#[test]
fn consulta_em_branco_nao_busca() {
    assert!(search_request("   ".into(), None, false, false, None, None).is_none());
    let o = search_request(" a ".into(), Some(1), true, false, Some(2), None).unwrap();
    assert_eq!(o.limit, 50);
    assert_eq!(o.query, " a ");
    assert_eq!(search_request("a".into(), None, false, false, None, Some(7)).unwrap().limit, 7);
}

#[test]
fn so_os_resolvidos_ate_o_limite() {
    assert_eq!(kept_hits(&[true, false, true, true], 2), vec![0, 2]);
    assert_eq!(kept_hits(&[false, false], 5), Vec::<usize>::new());
    assert_eq!(kept_hits(&[true], 0), Vec::<usize>::new());
}

#[test]
fn plano_de_reconciliacao() {
    let (mut missing, mut orphans) = reconcile_plan(&[1, 2, 3, 3, 4], &[2, 5, 5]);
    missing.sort();
    orphans.sort();
    assert_eq!(missing, vec![1, 3, 4]);
    assert_eq!(orphans, vec![5]);
    let (m, o) = reconcile_plan(&[1, 2], &[2, 1]);
    assert!(m.is_empty() && o.is_empty());
}

#[test]
fn backfill_em_lotes() {
    let b = backfill_batches(2050);
    assert_eq!(b.len(), 11);
    assert_eq!((b[0].start, b[0].end, b[0].commit_after), (0, 200, false));
    assert!(b[9].commit_after);
    assert_eq!((b[10].start, b[10].end), (2000, 2050));
    assert!(backfill_batches(0).is_empty());
    assert_eq!(backfill_batches(200).len(), 1);
}

#[test]
fn documento_do_indice() {
    let d = index_doc(7, "T".into(), None, "F".into(), Some("<p>a &amp; b</p>".into()));
    assert_eq!((d.id, d.title.as_str(), d.author.as_str(), d.feed.as_str(), d.body.as_str()), (7, "T", "", "F", "a & b"));
    let d = index_doc(1, "T".into(), Some("Ana".into()), "F".into(), None);
    assert_eq!((d.author.as_str(), d.body.as_str()), ("Ana", ""));
}

#[test]
fn marcador_do_schema() {
    let m = schema_marker();
    assert_eq!(m, "{\"schema\":1}");
    assert!(schema_ok(&Some(m), true));
    assert!(!schema_ok(&Some("{\"schema\":2}".into()), true));
    assert!(!schema_ok(&Some("lixo".into()), true));
    assert!(schema_ok(&None, false));
    assert!(!schema_ok(&None, true));
    assert!(index_dir("/d").ends_with("search-index"));
}

#[test]
fn html_to_text_duas_vezes_da_o_mesmo() {
    let html = "<p>  Um\t<b>dois</b></p><script>x</script>\n três  ";
    let once = html_to_text(html.as_bytes());
    assert_eq!(once, "Um dois três");
    assert_eq!(html_to_text(once.as_bytes()), once);
}

#[test]
fn html_to_text_duas_vezes_com_bytes_invalidos() {
    let html: &[u8] = b"<p>a\xff\xfe  b</p>";
    let once = html_to_text(html);
    assert_eq!(html_to_text(once.as_bytes()), once);
}
