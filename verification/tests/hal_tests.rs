use haltui::hal::{
    batch_failure, batch_results, batch_script, comps_available, has_process, merge_output,
    param_writable, pin_writable, sig_writable, strip_err_prefix, tokenize, BatchOut, HalType,
};

#[test]
fn comps_available_detects_real_session() {
    // empty / only transient halcmd comps -> not running
    assert!(!comps_available(""));
    assert!(!comps_available("halcmd12345"));
    assert!(!comps_available("halcmd1 halcmd2"));
    // any real component -> running
    assert!(comps_available("halcmd1 abs"));
    assert!(comps_available("abs"));
    assert!(comps_available("motmod\nrio"));
    // missing binary / spawn failure -> not running
    assert!(!comps_available("halcmd: No such file or directory"));
}

#[test]
fn keywords_read_back() {
    for t in HalType::all() {
        assert_eq!(HalType::from_kw(t.kw()), Some(t));
    }
    assert_eq!(HalType::from_kw("component"), Some(HalType::Comp));
    assert_eq!(HalType::from_kw("signal"), Some(HalType::Sig));
    assert_eq!(HalType::from_kw("nope"), None);
    assert_eq!(HalType::Param.title(), "Parameters");
    assert!(HalType::Sig.watchable());
    assert!(!HalType::Thread.watchable());
}

#[test]
fn error_lines_are_recognised() {
    assert_eq!(strip_err_prefix("<stdin>:7: pin 'x' not found"), ("pin 'x' not found".to_string(), true));
    assert_eq!(strip_err_prefix("1.5"), ("1.5".to_string(), false));
    assert_eq!(strip_err_prefix("<stdin> no colon"), ("<stdin> no colon".to_string(), false));
    let e = BatchOut::error("halcmd unavailable");
    assert!(e.err);
    assert_eq!(e.line, "halcmd unavailable");
}

#[test]
fn tokenize_quotes_and_escapes() {
    assert_eq!(tokenize("setp a.b 1"), vec!["setp", "a.b", "1"]);
    assert_eq!(tokenize("echo 'a b' \"c d\""), vec!["echo", "a b", "c d"]);
    assert_eq!(tokenize("x\\ y  z"), vec!["x y", "z"]);
    assert!(tokenize("   ").is_empty());
}

#[test]
fn writability_from_show_output() {
    let pin_out = "Component Pins:\nOwner   Type  Dir         Value  Name\n    10  bit   IN          FALSE  abs.0.in <== sig\n    10  float IN          0      abs.0.x\n    10  float OUT         0      abs.0.out\n";
    assert_eq!(pin_writable(pin_out, "abs.0.in"), -1);
    assert_eq!(pin_writable(pin_out, "abs.0.x"), 1);
    assert_eq!(pin_writable(pin_out, "abs.0.out"), 0);
    assert_eq!(pin_writable(pin_out, "missing"), 0);
    let par_out = "Parameters:\nOwner   Type  Dir         Value  Name\n    10  s32   RW          0      abs.0.tmax\n    10  s32   RO          0      abs.0.ro\n";
    assert_eq!(param_writable(par_out, "abs.0.tmax"), 1);
    assert_eq!(param_writable(par_out, "abs.0.ro"), 0);
    assert_eq!(sig_writable("bit  FALSE  estop\n     <== x.out\n"), 0);
    assert_eq!(sig_writable("bit  FALSE  estop\n     ==> x.in\n"), 1);
}

#[test]
fn batch_text_and_answers() {
    let cmds = vec!["getp a".to_string(), "gets b".to_string()];
    assert_eq!(batch_script(&cmds), "getp a\ngets b\n");
    let got = vec!["1".to_string(), "<stdin>:2: signal 'b' not found".to_string()];
    let outs = batch_results(&got, 3);
    assert_eq!(outs.len(), 3);
    assert_eq!((outs[0].line.as_str(), outs[0].err), ("1", false));
    assert_eq!((outs[1].line.as_str(), outs[1].err), ("signal 'b' not found", true));
    assert_eq!((outs[2].line.as_str(), outs[2].err), ("halcmd session died", true));
    let fail = batch_failure(2, "halcmd unavailable");
    assert_eq!(fail.len(), 2);
    assert!(fail.iter().all(|o| o.err && o.line == "halcmd unavailable"));
}

#[test]
fn merged_output_and_processes() {
    assert_eq!(merge_output("a", "b"), "a\nb");
    assert_eq!(merge_output("a\n", "b"), "a\nb");
    assert_eq!(merge_output("a", ""), "a");
    assert_eq!(merge_output("", "e"), "e");
    assert!(has_process("/usr/bin/linuxcnc x.ini\nbash\n", "linuxcnc"));
    assert!(!has_process("/usr/bin/linuxcncsvr\n", "linuxcnc"));
}

#[test]
fn tokens_are_never_empty_and_plain_lines_split_at_whitespace() {
    for s in ["show  sig\testop ", "a '' b", "x \"\" y", "''", "\\", "  "] {
        assert!(tokenize(s).iter().all(|t| !t.is_empty()));
    }
    for s in ["show sig estop", "  setp   a.b\t1  ", "", "list comp"] {
        let expected: Vec<String> = s.split_whitespace().map(String::from).collect();
        assert_eq!(tokenize(s), expected);
    }
}
