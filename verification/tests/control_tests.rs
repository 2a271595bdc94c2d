use haltui::control::{
    add_refusal, add_watched, next_probe, writable_of, ProbeStep, apply_setting, clamp_selection, closing_mode, cmd_history, failed_value,
    help_match_after, initial_view, int_value_text, parse_args, parse_i64, poll_commands,
    set_command, set_status, start_interval, take_command, type_answer, type_command,
    unlink_status, value_format, watch_remove, watch_target, AddTarget, ValueFormat,
};
use haltui::hal::{BatchOut, HalType};
use haltui::prefs::{Prefs, Workmode};
use haltui::state::Tab;
use haltui::watch::WatchItem;

fn item(kind: HalType, name: &str) -> WatchItem {
    WatchItem {
        kind,
        name: name.to_string(),
        dtype: "s32".to_string(),
        writable: 1,
        value: String::new(),
        error: false,
    }
}

fn args(v: &[&str]) -> Vec<String> {
    v.iter().map(|s| s.to_string()).collect()
}

#[test]
fn command_history_steps() {
    let hist = args(&["a", "b", "c"]);
    let mut pos = None;
    let mut cmd = String::from("typed");
    cmd_history(&hist, &mut pos, &mut cmd, false);
    assert_eq!((pos, cmd.as_str()), (None, "typed"));
    cmd_history(&hist, &mut pos, &mut cmd, true);
    assert_eq!((pos, cmd.as_str()), (Some(2), "c"));
    cmd_history(&hist, &mut pos, &mut cmd, true);
    cmd_history(&hist, &mut pos, &mut cmd, true);
    cmd_history(&hist, &mut pos, &mut cmd, true);
    assert_eq!((pos, cmd.as_str()), (Some(0), "a"));
    cmd_history(&hist, &mut pos, &mut cmd, false);
    assert_eq!((pos, cmd.as_str()), (Some(1), "b"));
    let empty: Vec<String> = Vec::new();
    cmd_history(&empty, &mut pos, &mut cmd, true);
    assert_eq!((pos, cmd.as_str()), (Some(1), "b"));
}

#[test]
fn running_a_command() {
    let mut cmd = String::from("  show pin 'a b'  ");
    let mut hist = args(&["x"]);
    let mut pos = Some(0);
    let toks = take_command(&mut cmd, &mut hist, &mut pos).unwrap();
    assert_eq!(toks, vec!["show", "pin", "a b"]);
    assert_eq!(hist, vec!["x", "show pin 'a b'"]);
    assert_eq!((cmd.as_str(), pos), ("", None));
    let mut again = String::from("show pin 'a b'");
    take_command(&mut again, &mut hist, &mut pos);
    assert_eq!(hist.len(), 2);
    let mut blank = String::from("   ");
    assert!(take_command(&mut blank, &mut hist, &mut pos).is_none());
}

#[test]
fn removing_watch_items() {
    let mut items = vec![item(HalType::Pin, "a"), item(HalType::Sig, "b")];
    let mut sel = Some(1);
    assert_eq!(watch_remove(&mut items, &mut sel, 1), Some("'b' removed from list".to_string()));
    assert_eq!(items.len(), 1);
    assert_eq!(sel, Some(0));
    assert_eq!(watch_remove(&mut items, &mut sel, 4), None);
    assert_eq!(watch_remove(&mut items, &mut sel, 0), Some("'a' removed from list".to_string()));
    assert_eq!(sel, Some(0));
    assert_eq!(clamp_selection(Some(5), 3), Some(2));
    assert_eq!(clamp_selection(Some(5), 0), Some(0));
    assert_eq!(clamp_selection(None, 3), None);
}

#[test]
fn add_prompt_targets() {
    match watch_target("  sig+ estop ") {
        AddTarget::Known(k, n) => assert_eq!((k, n.as_str()), (HalType::Sig, "estop")),
        AddTarget::Guess(_) => panic!("expected a known kind"),
    }
    match watch_target("foo+bar") {
        AddTarget::Guess(n) => assert_eq!(n, "foo+bar"),
        AddTarget::Known(..) => panic!("expected a guess"),
    }
    match watch_target(" axis.0.pos ") {
        AddTarget::Guess(n) => assert_eq!(n, "axis.0.pos"),
        AddTarget::Known(..) => panic!("expected a guess"),
    }
    let items = vec![item(HalType::Pin, "a")];
    assert_eq!(add_refusal(&items, HalType::Comp, "x"), Some("cannot watch comps".to_string()));
    assert_eq!(add_refusal(&items, HalType::Pin, "a"), Some("'a' already in list".to_string()));
    assert_eq!(add_refusal(&items, HalType::Sig, "a"), None);
}

#[test]
fn settings_values() {
    let mut p = Prefs::default();
    assert_eq!(apply_setting(&mut p, 0, "250"), Some(("Update interval set to 250 ms".to_string(), false)));
    assert_eq!(p.watch_interval, 250);
    assert_eq!(apply_setting(&mut p, 0, "0"), Some(("Value out of range (min 1 ms)".to_string(), true)));
    assert_eq!(p.watch_interval, 250);
    assert_eq!(apply_setting(&mut p, 1, "500"), Some(("Column width set to 120".to_string(), false)));
    assert_eq!(p.col1_width, 120);
    assert_eq!(apply_setting(&mut p, 1, "3"), Some(("Column width set to 8".to_string(), false)));
    assert_eq!(apply_setting(&mut p, 1, "70000"), Some(("Value out of range".to_string(), true)));
    assert_eq!(apply_setting(&mut p, 2, "%.2f"), Some(("Float format set".to_string(), false)));
    assert_eq!(p.ffmts, "%.2f");
    assert_eq!(apply_setting(&mut p, 3, "%x"), Some(("Integer format set".to_string(), false)));
    assert_eq!(apply_setting(&mut p, 9, "x"), None);
}

#[test]
fn start_and_close() {
    assert_eq!(initial_view(Workmode::Watch), (Tab::Watch, false));
    assert_eq!(initial_view(Workmode::Settings), (Tab::Show, true));
    assert_eq!(start_interval(Some(5), 100), 20);
    assert_eq!(start_interval(None, 300), 300);
    assert_eq!(closing_mode(true, Tab::Watch), Workmode::Settings);
    assert_eq!(closing_mode(false, Tab::Watch), Workmode::Watch);
}

#[test]
fn value_display() {
    assert!(matches!(value_format("bit", Some("%d"), None, "", ""), ValueFormat::AsRead));
    assert!(matches!(value_format("float", Some("%.1f"), None, "%.3f", ""), ValueFormat::Float(f) if f == "%.1f"));
    assert!(matches!(value_format("float", None, None, "%.3f", ""), ValueFormat::Float(f) if f == "%.3f"));
    assert!(matches!(value_format("float", None, None, "", ""), ValueFormat::Padded));
    assert!(matches!(value_format("s32", None, Some("%x"), "", "%d"), ValueFormat::FloatAsInt(f) if f == "%x"));
    assert!(matches!(value_format("u32", None, None, "", "%04d"), ValueFormat::Int(f) if f == "%04d"));
    assert!(matches!(value_format("s64", None, None, "", "%04d"), ValueFormat::Padded));
    assert_eq!(int_value_text("%04d", "42"), " 0042");
    assert_eq!(int_value_text("%d", "-7"), "-7");
    assert_eq!(int_value_text("%d", "x1"), " x1");
    assert_eq!(parse_i64("-9223372036854775808"), Some(i64::MIN));
    assert_eq!(parse_i64("+12"), Some(12));
    assert_eq!(parse_i64("-+1"), None);
    assert_eq!(parse_i64("9223372036854775808"), None);
    assert_eq!(parse_i64(""), None);
}

#[test]
fn help_search() {
    let text = "Intro\nTree keys\nWatch KEYS\nend";
    assert_eq!(help_match_after(text, "keys", 0, false), Some(1));
    assert_eq!(help_match_after(text, "KEYS", 2, false), Some(2));
    assert_eq!(help_match_after(text, "intro", 1, false), None);
    assert_eq!(help_match_after(text, "intro", 1, true), Some(0));
    assert_eq!(help_match_after(text, "", 0, true), None);
}

#[test]
fn command_line_options() {
    let (c, help) = parse_args(&args(&["--fformat", "%.2f", "--interval", "5", "--noprefs", "w.halshow"])).unwrap();
    assert!(!help);
    assert_eq!(c.fformat.as_deref(), Some("%.2f"));
    assert_eq!(c.interval, Some(20));
    assert!(c.noprefs);
    assert_eq!(c.watchfile.as_deref(), Some("w.halshow"));
    assert!(parse_args(&args(&["-h", "--bogus"])).unwrap().1);
    assert_eq!(parse_args(&args(&["--bogus"])).err(), Some("unknown option <--bogus>".to_string()));
    assert_eq!(parse_args(&args(&["--interval", "x"])).err(), Some("bad interval <x>".to_string()));
    assert_eq!(parse_args(&args(&["--iformat"])).err(), Some("--iformat requires an argument".to_string()));
    let (c, _) = parse_args(&args(&["--interval", "250"])).unwrap();
    assert_eq!(c.interval, Some(250));
}

#[test]
fn session_commands() {
    assert_eq!(type_command(HalType::Sig, "estop"), "stype estop");
    assert_eq!(type_command(HalType::Param, "p"), "ptype p");
    let none: Vec<BatchOut> = Vec::new();
    assert_eq!(type_answer(&none), Err("halcmd unavailable".to_string()));
    let ok = vec![BatchOut { line: "float".to_string(), err: false }];
    assert_eq!(type_answer(&ok), Ok("float".to_string()));
    let items = vec![item(HalType::Sig, "s"), item(HalType::Pin, "p")];
    assert_eq!(poll_commands(&items), vec!["gets s", "getp p"]);
    assert_eq!(set_command(HalType::Sig), "sets");
    assert_eq!(set_status("  Pin 'x' not found\n"), ("Pin 'x' not found".to_string(), true));
    assert_eq!(set_status("ok"), ("ok".to_string(), false));
    assert_eq!(unlink_status("p", 1), ("'p' unlinked".to_string(), false));
    assert_eq!(unlink_status("p", -1), ("could not unlink 'p'".to_string(), true));
    assert_eq!(failed_value(), (true, "----".to_string()));
}

#[test]
fn added_item_is_selected() {
    let mut items = vec![item(HalType::Pin, "a.b"), item(HalType::Sig, "s")];
    let mut sel = Some(0);
    let r = add_watched(&mut items, &mut sel, HalType::Param, "p.q", Ok("float".to_string()), 1);
    assert_eq!(r, Ok("'p.q' added".to_string()));
    assert_eq!(items.len(), 3);
    assert_eq!(items[2].name, "p.q");
    assert_eq!(items[2].kind, HalType::Param);
    assert_eq!(items[2].dtype, "float");
    assert_eq!(items[2].writable, 1);
    assert_eq!(sel, Some(2));
    let mut empty: Vec<WatchItem> = Vec::new();
    let mut none = None;
    assert!(add_watched(&mut empty, &mut none, HalType::Pin, "x", Ok("bit".to_string()), 0).is_ok());
    assert_eq!(none, Some(0));
}

#[test]
fn refused_or_failed_adds_change_nothing() {
    let mut items = vec![item(HalType::Pin, "a.b")];
    let mut sel = Some(0);
    // already in the list: refused, nothing asked
    let r = add_watched(&mut items, &mut sel, HalType::Pin, "a.b", Ok("bit".to_string()), 1);
    assert_eq!(r, Err("'a.b' already in list".to_string()));
    assert_eq!(items.len(), 1);
    assert_eq!(sel, Some(0));
    // a kind that cannot be watched
    let r = add_watched(&mut items, &mut sel, HalType::Comp, "abs.0", Ok("bit".to_string()), 1);
    assert_eq!(r, Err("cannot watch comps".to_string()));
    // the type query failed
    let r = add_watched(
        &mut items,
        &mut sel,
        HalType::Pin,
        "nope",
        Err("pin 'nope' not found".to_string()),
        0,
    );
    assert_eq!(r, Err("'nope': pin 'nope' not found".to_string()));
    assert_eq!(items.len(), 1);
    assert_eq!(sel, Some(0));
    // the same name as another kind is a different item
    assert!(add_watched(&mut items, &mut sel, HalType::Sig, "a.b", Ok("bit".to_string()), 1).is_ok());
    assert_eq!(items.len(), 2);
}

#[test]
fn probing_the_kind_of_a_name() {
    assert_eq!(next_probe(&vec![]), ProbeStep::Ask(HalType::Pin));
    assert_eq!(next_probe(&vec![Some(false)]), ProbeStep::Done(Some(HalType::Pin)));
    assert_eq!(next_probe(&vec![None]), ProbeStep::Done(None));
    assert_eq!(next_probe(&vec![Some(true)]), ProbeStep::Ask(HalType::Sig));
    assert_eq!(next_probe(&vec![Some(true), Some(false)]), ProbeStep::Done(Some(HalType::Sig)));
    assert_eq!(next_probe(&vec![Some(true), Some(true)]), ProbeStep::Done(None));
    assert_eq!(next_probe(&vec![Some(true), None]), ProbeStep::Done(None));
}

#[test]
fn writability_by_kind() {
    let sig_linked = "Signal Data Value\ns32 0 estop\n <== iocontrol.0.user-enable-out\n";
    assert_eq!(writable_of(HalType::Sig, sig_linked, "estop"), 0);
    assert_eq!(writable_of(HalType::Sig, "Signal Data Value\ns32 0 estop\n", "estop"), 1);
    let pin_out = "Component Pins:\nOwner   Type  Dir         Value  Name\n    10  bit   IN          FALSE  abs.0.in <== sig\n    10  float IN          0      abs.0.x\n";
    assert_eq!(writable_of(HalType::Pin, pin_out, "abs.0.in"), -1);
    assert_eq!(writable_of(HalType::Pin, pin_out, "abs.0.x"), 1);
    let par_out = "Parameters:\nOwner   Type  Dir         Value  Name\n    10  s32   RW          0      abs.0.tmax\n";
    assert_eq!(writable_of(HalType::Param, par_out, "abs.0.tmax"), 1);
    assert_eq!(writable_of(HalType::Comp, "anything", "x"), 0);
    assert_eq!(writable_of(HalType::Thread, "anything", "x"), 0);
}
