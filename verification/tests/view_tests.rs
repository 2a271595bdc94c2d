use haltui::prefs::Prefs;
use haltui::state::{Focus, InputKind};
use haltui::view::{
    clamp_scroll, clip, entry_label, help_style, highlight_spans, hint_line, is_root_row,
    longer_than_page, scroll_into_view, setting_values, table_selection, text_window,
    tree_row_text, watch_actions, HelpStyle,
};

#[test]
fn clip_cuts_with_an_ellipsis() {
    assert_eq!(clip("hello", 3), "he…");
    assert_eq!(clip("hello", 5), "hello");
    assert_eq!(clip("hi", 10), "hi");
    assert_eq!(clip("abc", 0), "…");
    assert_eq!(clip("äöüß", 2), "ä…");
}

#[test]
fn scroll_keeps_selection_in_view() {
    // below the window: scrolled so the selection is the last row shown
    assert_eq!(scroll_into_view(10, 0, 20, 5), 6);
    // above the window: the selection becomes the first row shown
    assert_eq!(scroll_into_view(2, 6, 20, 5), 2);
    // already in view: unchanged
    assert_eq!(scroll_into_view(7, 5, 20, 5), 5);
    // never past the end of the list
    assert_eq!(scroll_into_view(19, 18, 20, 5), 15);
    // a list shorter than the window starts at the top
    assert_eq!(scroll_into_view(0, 7, 3, 5), 0);
    for sel in 0..20usize {
        for scroll in 0..25usize {
            let r = scroll_into_view(sel, scroll, 20, 4);
            assert!(r <= sel && sel < r + 4);
            assert!(r + 4 <= 20);
        }
    }
}

#[test]
fn tree_rows() {
    assert_eq!(tree_row_text(2, true, false, true, "axis"), "▶     ▸ axis");
    assert_eq!(tree_row_text(1, true, true, false, "pin"), "    ▾ pin");
    assert_eq!(tree_row_text(0, false, false, true, "x"), "    x");
}

#[test]
fn dialog_entry_labels() {
    assert_eq!(entry_label("/a/b/..", true), "../");
    assert_eq!(entry_label("/a/b/c.halshow", false), "c.halshow");
    assert_eq!(entry_label("/a/dir", true), "dir/");
    assert_eq!(entry_label("plain", false), "plain");
    // only a whole last component `..` is the parent entry
    assert_eq!(entry_label("/d/x..", false), "x..");
    assert_eq!(entry_label("/d/x..", true), "x../");
    assert_eq!(entry_label("..", true), "../");
}

#[test]
fn watch_row_actions() {
    assert_eq!(watch_actions("bit", 1), "Set|Clr");
    assert_eq!(watch_actions("bit", -1), "unlink");
    assert_eq!(watch_actions("bit", 0), "–");
    assert_eq!(watch_actions("float", 1), "set val");
    assert_eq!(watch_actions("float", -1), "unlink");
    assert_eq!(watch_actions("s32", 0), "–");
}

#[test]
fn key_hint_lines() {
    let global = "1 SHOW  2 WATCH | / search | Tab next tab | F5 settings | q quit";
    assert_eq!(
        hint_line(Focus::Filter, None),
        format!("  type = regex filter (live) | Ctrl+U clear | Esc/Enter done  | {global}")
    );
    assert_eq!(
        hint_line(Focus::Tree, Some(InputKind::Text)),
        format!("  Enter ok | Esc cancel | Ctrl+U clear | F1 help  | {global}")
    );
    assert!(hint_line(Focus::Watch, Some(InputKind::BitPick)).starts_with("  ←→ / ↑↓ toggle"));
    assert!(hint_line(Focus::Watch, None).contains("L load (file dialog)"));
}

#[test]
fn settings_values_shown() {
    let p = Prefs::default();
    let v = setting_values(&p, true, false);
    assert_eq!(v.len(), 6);
    assert_eq!(v[0], "100");
    assert_eq!(v[1], "100");
    assert_eq!(v[2], " (disabled by --fformat)");
    assert_eq!(v[3], "");
    assert_eq!(v[4], "1");
    assert_eq!(v[5], "");
    let mut q = Prefs::default();
    q.ifmts = "%08x".to_string();
    q.auto_save_watchlist = false;
    let w = setting_values(&q, false, true);
    assert_eq!(w[3], "%08x (disabled by --iformat)");
    assert_eq!(w[4], "0");
}

#[test]
fn help_line_styles() {
    assert_eq!(help_style("haltui — terminal HAL viewer"), HelpStyle::Title);
    assert_eq!(help_style("====="), HelpStyle::Title);
    assert_eq!(help_style("GLOBAL"), HelpStyle::Header);
    assert_eq!(help_style("TREE PANEL   "), HelpStyle::Header);
    assert_eq!(help_style("SETTINGS SCREEN (F5)"), HelpStyle::Header);
    assert_eq!(help_style("  q / Ctrl+C   quit"), HelpStyle::Body);
    assert_eq!(help_style("Values: update"), HelpStyle::Body);
    assert_eq!(help_style(""), HelpStyle::Body);
}

#[test]
fn help_search_highlights() {
    assert_eq!(
        highlight_spans("Hello World", "o"),
        Some(vec![
            (0, 4, false),
            (4, 5, true),
            (5, 7, false),
            (7, 8, true),
            (8, 11, false)
        ])
    );
    assert_eq!(
        highlight_spans("WATCH TAB", "watch"),
        Some(vec![(0, 5, true), (5, 9, false)])
    );
    assert_eq!(highlight_spans("aaaa", "aa"), Some(vec![(0, 2, true), (2, 4, true)]));
    assert_eq!(highlight_spans("abc", "x"), Some(vec![(0, 3, false)]));
    assert_eq!(highlight_spans("", "x"), Some(vec![]));
    assert_eq!(highlight_spans("abc", ""), None);
    assert_eq!(highlight_spans("héllo", "l"), None);
}

#[test]
fn text_windows() {
    assert_eq!(text_window("a\nb\nc\nd", 3, 2), (4, 2, "c\nd".to_string()));
    assert_eq!(text_window("a\nb", 0, 5), (2, 0, "a\nb".to_string()));
    assert_eq!(text_window("a\r\nb\n", 1, 1), (2, 1, "b".to_string()));
    assert_eq!(text_window("", 3, 2), (0, 0, String::new()));
    assert_eq!(clamp_scroll(10, 4, 2), 2);
    assert_eq!(clamp_scroll(1, 4, 2), 1);
    assert_eq!(clamp_scroll(5, 1, 3), 0);
}

#[test]
fn pane_rules() {
    assert!(is_root_row("pin"));
    assert!(!is_root_row("pin+axis"));
    assert!(!is_root_row("axis.0"));
    assert_eq!(table_selection(Some(2), 5), Some(2));
    assert_eq!(table_selection(Some(5), 5), Some(0));
    assert_eq!(table_selection(None, 3), Some(0));
    assert_eq!(table_selection(Some(1), 0), None);
    assert!(longer_than_page("a\nb\nc", 2));
    assert!(!longer_than_page("a\nb", 2));
    assert!(longer_than_page("a\nb", 0));
    assert!(!longer_than_page("a", 0));
}
