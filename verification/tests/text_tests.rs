use glpi_inventory::cleanup::date_text;
use glpi_inventory::date_util::{date_is_newer, merge_date_best, merge_date_earliest, parse_date, parse_datetime};
use glpi_inventory::glpi_api::{
    adjust_page_size, api_base_url, looks_like_windows_key, more_pages, page_reply, parse_accept_range,
    parse_content_range, PageReply,
};
use glpi_inventory::i18n::{t, Lang};
use glpi_inventory::presentation::{escape_sql, format_number};
use glpi_inventory::text::normalize_for_grouping;

#[test]
fn grouping_key_collapses_space_and_case() {
    assert_eq!(normalize_for_grouping("  Microsoft   Office  "), "microsoft office");
    assert_eq!(normalize_for_grouping("ÁRVÍZTŰRŐ Tükörfúrógép"), "árvíztűrő tükörfúrógép");
    assert_eq!(normalize_for_grouping("   "), "");
}

#[test]
fn parses_dates_and_times() {
    let d = parse_date("2026-04-16 10:00:00").unwrap();
    assert_eq!((d.year, d.month, d.day), (2026, 4, 16));
    assert_eq!(d.days, 739722);
    assert!(parse_date("16/04/2026").is_none());
    let m = parse_datetime("2026-04-16 10:00:00").unwrap();
    assert_eq!(m.days, 739722);
    assert_eq!(m.secs, 36000);
    let t2 = parse_datetime("2026-04-16T10:00:01").unwrap();
    assert_eq!(t2.secs, 36001);
    assert_eq!(date_text(d), "2026-04-16");
}

#[test]
fn newer_dates_win_and_blank_candidates_are_ignored() {
    assert!(date_is_newer("2026-04-16", "2025-12-31"));
    assert!(!date_is_newer("2025-12-31", "2026-04-16"));
    assert!(!date_is_newer("2026-04-16", "2026-04-16"));
    let mut best: Option<String> = None;
    merge_date_best(&mut best, " 2025-01-01 ");
    merge_date_best(&mut best, "2026-02-02");
    merge_date_best(&mut best, "   ");
    merge_date_best(&mut best, "2024-01-01");
    assert_eq!(best.as_deref(), Some("2026-02-02"));
    let mut earliest: Option<String> = None;
    merge_date_earliest(&mut earliest, "2026-02-02");
    merge_date_earliest(&mut earliest, "2024-01-01");
    merge_date_earliest(&mut earliest, "2024-01-01");
    assert_eq!(earliest.as_deref(), Some("2024-01-01"));
}

#[test]
fn numbers_get_thousands_separators() {
    assert_eq!(format_number(0), "0");
    assert_eq!(format_number(999), "999");
    assert_eq!(format_number(1000), "1,000");
    assert_eq!(format_number(1234567), "1,234,567");
}

#[test]
fn sql_literals_double_quotes_and_backslashes() {
    assert_eq!(escape_sql("O'Brien"), "O''Brien");
    assert_eq!(escape_sql("C:\\Tools"), "C:\\\\Tools");
    assert_eq!(escape_sql("plain"), "plain");
}

#[test]
fn api_address_gets_entry_point_once() {
    assert_eq!(api_base_url("https://glpi.example.com/"), "https://glpi.example.com/apirest.php");
    assert_eq!(api_base_url("https://glpi.example.com/apirest.php"), "https://glpi.example.com/apirest.php");
    let once = api_base_url("https://glpi.example.com//");
    assert_eq!(api_base_url(&once), once);
}

#[test]
fn paging_headers_and_replies() {
    assert_eq!(parse_accept_range("Software 990"), Some(990));
    assert_eq!(parse_accept_range("  Computer   50 "), Some(50));
    assert_eq!(parse_accept_range("Software"), None);
    assert_eq!(parse_accept_range("Software x"), None);
    assert_eq!(parse_content_range("0-49/200"), Some(200));
    assert_eq!(parse_content_range("0-49"), None);
    assert_eq!(adjust_page_size(500, Some(990)), 500);
    assert_eq!(adjust_page_size(500, Some(50)), 50);
    assert_eq!(adjust_page_size(500, Some(0)), 500);
    assert_eq!(adjust_page_size(500, None), 500);
    assert_eq!(page_reply(400, "[\"ERROR_RANGE_EXCEED_TOTAL\"]"), PageReply::Finished);
    assert_eq!(page_reply(400, "bad"), PageReply::Failed);
    assert_eq!(page_reply(500, ""), PageReply::Failed);
    assert_eq!(page_reply(206, ""), PageReply::Items);
    assert_eq!(page_reply(200, ""), PageReply::Items);
    assert!(more_pages(500, 500));
    assert!(!more_pages(10, 500));
}

#[test]
fn product_keys_in_os_records() {
    assert!(looks_like_windows_key("  ABCDE-12345-FGHIJ-67890-KLMNO "));
    assert!(!looks_like_windows_key("ABCDE12345FGHIJ67890"));
    assert!(!looks_like_windows_key("AB-CD"));
    assert!(!looks_like_windows_key("ABCDE-12345-FGHIJ-67890-KLM!O"));
}

#[test]
fn language_toggles_back_and_forth() {
    assert_eq!(Lang::En.toggle(), Lang::Hu);
    assert_eq!(Lang::En.toggle().toggle(), Lang::En);
    assert_eq!(Lang::Hu.toggle().toggle(), Lang::Hu);
    assert_eq!(t(Lang::En).status_idle, "Not connected");
    assert_eq!(t(Lang::Hu).status_idle, "Nincs csatlakozva");
}
