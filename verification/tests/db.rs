use localfeed::db::{
    list_articles_sql, normalize_folder, old_article_ids, storage_counts_of, ArticleAge,
    ArticleFilter,
};
use localfeed::reader::{readable_target, retention_cutoff, RefreshSummary};

fn row(id: i64, published_ms: Option<i64>, fetched_ms: i64, favorite: bool, later: bool) -> ArticleAge {
    ArticleAge { id, published_ms, fetched_ms, favorite, later }
}

#[test]
fn clear_old_articles_preserva_ler_depois() {
    let rows = vec![row(1, Some(100), 100, false, false), row(2, Some(100), 100, false, true)];
    let apagados = old_article_ids(&rows, 1_000);
    assert_eq!(apagados.len(), 1);
    let restantes: Vec<i64> = rows.iter().map(|r| r.id).filter(|id| !apagados.contains(id)).collect();
    assert_eq!(restantes, vec![2]);
}

#[test]
fn clear_old_articles_preserva_favoritos_e_recentes() {
    let rows = vec![
        row(1, Some(100), 100, false, false),
        row(2, Some(100), 100, true, false),
        row(3, Some(9_000), 9_000, false, false),
        row(4, None, 100, false, false),
    ];
    let apagados = old_article_ids(&rows, 1_000);
    assert_eq!(apagados, vec![1, 4]);
}

#[test]
fn storage_counts_num_banco_vazio() {
    let c = storage_counts_of(0, 0, None, None);
    assert_eq!((c.articles, c.cached, c.favorites), (0, 0, 0));
    let c = storage_counts_of(3, 1, Some(2), Some(1));
    assert_eq!((c.favorites, c.later), (2, 1));
}

#[test]
fn pasta_vazia_limpa() {
    assert_eq!(normalize_folder(Some("  Notícias ".into())).as_deref(), Some("Notícias"));
    assert_eq!(normalize_folder(Some("   ".into())), None);
    assert_eq!(normalize_folder(None), None);
}

#[test]
fn sql_da_lista() {
    let f = ArticleFilter { feed_id: Some(3), unread_only: true, favorites_only: false, later_only: true };
    let sql = list_articles_sql(&f);
    assert!(sql.ends_with("WHERE 1=1 AND a.feed_id = ?1 AND a.read = 0 AND a.later = 1 ORDER BY a.published_ms DESC NULLS LAST, a.id DESC LIMIT 500"));
    let f = ArticleFilter { feed_id: None, unread_only: false, favorites_only: true, later_only: false };
    assert!(list_articles_sql(&f).ends_with("WHERE 1=1 AND a.favorite = 1 ORDER BY a.published_ms DESC NULLS LAST, a.id DESC LIMIT 500"));
}

#[test]
fn corte_da_limpeza() {
    assert_eq!(retention_cutoff(10 * 86_400_000, 3), 7 * 86_400_000);
    assert_eq!(retention_cutoff(5, 0), 5);
}

#[test]
fn quando_baixar_o_modo_leitura() {
    assert_eq!(readable_target(&Some("u".into()), &None).as_deref(), Some("u"));
    assert_eq!(readable_target(&Some("u".into()), &Some("c".into())), None);
    assert_eq!(readable_target(&None, &None), None);
}

#[test]
fn resumo_da_atualizacao() {
    let mut s = RefreshSummary::new();
    s.record_new(3);
    s.record_new(2);
    s.record_error("Blog", "u: sem conexão");
    assert_eq!(s.new_articles, 5);
    assert_eq!(s.errors, vec!["Blog: u: sem conexão".to_string()]);
}
