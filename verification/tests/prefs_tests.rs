use haltui::prefs::{parse_prefs, prefs_text, Prefs, Workmode};

#[test]
fn roundtrip_halshow_file() {
    let sample = "# Halshow settings\n\
        wm geometry . 700x475+185+244\n\
        placeFrames 0.3\n\
        set ::ratio 0.3\n\
        set ::old_w_leftf 160\n\
        set ::watchlist {\n    pin+axis.0.pos\n    sig+estop\n}\n\
        set ::workmode watchhal\n\
        set ::watchInterval 250\n\
        set ::col1_width 120\n\
        set ::ffmts {%5.2f}\n\
        set ::ifmts {}\n\
        set ::alwaysOnTop 0\n\
        set ::autoSaveWatchlist 1\n";
    let p = parse_prefs(sample);
    assert_eq!(p.ratio_texts, vec!["0.3", "0.3"]);
    assert_eq!(p.workmode, Workmode::Watch);
    assert_eq!(p.watch_interval, 250);
    assert_eq!(p.col1_width, 120);
    assert_eq!(p.ffmts, "%5.2f");
    assert!(p.ifmts.is_empty());
    assert_eq!(p.watchlist, vec!["pin+axis.0.pos", "sig+estop"]);
    assert!(p.auto_save_watchlist);
    assert_eq!(p.geometry, "700x475+185+244");
}

#[test]
fn defaults_and_bad_values() {
    let d = Prefs::default();
    assert_eq!(d.geometry, "800x600+100+100");
    assert_eq!(d.watch_interval, 100);
    assert_eq!(d.old_w_leftf, 160);
    assert!(d.auto_save_watchlist);
    let p = parse_prefs("set ::watchInterval abc\nset ::col1_width 70000\nset ::workmode other\nset ::alwaysOnTop true\nset ::watchlist {a b}\n");
    assert_eq!(p.watch_interval, 100);
    assert_eq!(p.col1_width, 100);
    assert_eq!(p.workmode, Workmode::Show);
    assert!(p.always_on_top);
    assert_eq!(p.watchlist, vec!["a", "b"]);
}

#[test]
fn written_preferences_read_back() {
    let mut p = Prefs::default();
    p.geometry = "1x2+3+4".to_string();
    p.workmode = Workmode::Settings;
    p.watch_interval = 7;
    p.col1_width = 33;
    p.ffmts = "%.3f".to_string();
    p.ifmts = "%08x".to_string();
    p.always_on_top = true;
    p.watchlist = vec!["pin+a.b".to_string(), "sig+c".to_string()];
    let text = prefs_text(&p, "0.45");
    let q = parse_prefs(&text);
    assert_eq!(q.geometry, p.geometry);
    assert_eq!(q.ratio_texts, vec!["0.45", "0.45"]);
    assert_eq!(q.workmode, Workmode::Settings);
    assert_eq!(q.watch_interval, 7);
    assert_eq!(q.col1_width, 33);
    assert_eq!(q.ffmts, "%.3f");
    assert_eq!(q.ifmts, "%08x");
    assert!(q.always_on_top);
    assert!(q.auto_save_watchlist);
    assert_eq!(q.watchlist, p.watchlist);
    assert_eq!(Workmode::Watch.as_str(), "watchhal");
}

#[test]
fn watchlist_not_written_when_not_remembered() {
    let mut p = Prefs::default();
    p.auto_save_watchlist = false;
    p.watchlist = vec!["pin+a".to_string()];
    let text = prefs_text(&p, "0.3");
    assert!(!text.contains("watchlist {"));
    assert!(parse_prefs(&text).watchlist.is_empty());
}
