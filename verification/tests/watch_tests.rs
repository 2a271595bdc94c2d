use haltui::hal::HalType;
use haltui::watch::{file_text, parse_file, token_entry, WatchItem};

fn item(kind: HalType, name: &str) -> WatchItem {
    WatchItem {
        kind,
        name: name.to_string(),
        dtype: "float".to_string(),
        writable: 0,
        value: String::new(),
        error: false,
    }
}

#[test]
fn parse_comment_and_items() {
    let text = "# halshow watchlist created 123\n\npin+axis.0.pos sig+estop\nparam+t.p\n";
    let items = parse_file(text);
    assert_eq!(items.len(), 3);
    assert_eq!(items[0], (Some(HalType::Pin), "axis.0.pos".to_string()));
    assert_eq!(items[1], (Some(HalType::Sig), "estop".to_string()));
    assert_eq!(items[2], (Some(HalType::Param), "t.p".to_string()));
}

#[test]
fn parse_bare_names_and_unknown_kinds() {
    let items = parse_file("  abs.0.in  \r\nfoo+bar\n#x+y\n");
    assert_eq!(items, vec![(None, "abs.0.in".to_string()), (None, "bar".to_string())]);
}

#[test]
fn file_id_joins_kind_and_name() {
    assert_eq!(item(HalType::Sig, "estop").file_id(), "sig+estop");
    assert_eq!(item(HalType::Param, "t.p").file_id(), "param+t.p");
}

#[test]
fn file_text_formats() {
    let items = vec![item(HalType::Pin, "a.b"), item(HalType::Sig, "s")];
    assert_eq!(file_text(&items, false, 0), "pin+a.b sig+s");
    assert_eq!(
        file_text(&items, true, 1700000000),
        "# halshow watchlist created 1700000000\n\npin+a.b\nsig+s\n"
    );
    assert_eq!(file_text(&[], false, 5), "");
}

#[test]
fn watch_file_reads_back_what_was_written() {
    let items = vec![item(HalType::Pin, "axis.0.pos"), item(HalType::Param, "x+y"), item(HalType::Sig, "")];
    for multiline in [false, true] {
        let text = file_text(&items, multiline, 42);
        let back = parse_file(&text);
        let want: Vec<(Option<HalType>, String)> =
            items.iter().map(|w| (Some(w.kind), w.name.clone())).collect();
        assert_eq!(back, want);
    }
}

#[test]
fn token_entries() {
    assert_eq!(token_entry(&"pin+a+b".to_string()), (Some(HalType::Pin), "a+b".to_string()));
    assert_eq!(token_entry(&"signal+s".to_string()), (Some(HalType::Sig), "s".to_string()));
    assert_eq!(token_entry(&"plain".to_string()), (None, "plain".to_string()));
}
