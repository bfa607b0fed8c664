use glicol_synth::text::{
    contains_bytes2, parse_code, parse_pattern, parse_timed_event, remove_bytes, split_bytes,
    split_bytes2,
};

fn strs(v: &[Vec<u8>]) -> Vec<String> {
    v.iter().map(|p| String::from_utf8(p.clone()).unwrap()).collect()
}

#[test]
fn split_keeps_empty_pieces() {
    assert_eq!(strs(&split_bytes(b"a,b,,c", b',')), vec!["a", "b", "", "c"]);
    assert_eq!(strs(&split_bytes(b"", b',')), vec![""]);
    assert_eq!(strs(&split_bytes(b",", b',')), vec!["", ""]);
}

#[test]
fn split_two_byte_separator_matches_str_split() {
    for s in ["1=>2=>3", "==>", "=>", "a=b>c", "", "x=>"] {
        let ours = strs(&split_bytes2(s.as_bytes(), b'=', b'>'));
        let std: Vec<String> = s.split("=>").map(|p| p.to_string()).collect();
        assert_eq!(ours, std, "splitting {:?}", s);
    }
}

#[test]
fn contains_two_bytes() {
    assert!(contains_bytes2(b"a:=b", b':', b'='));
    assert!(!contains_bytes2(b"a:b=", b':', b'='));
    assert!(!contains_bytes2(b"", b':', b'='));
}

#[test]
fn remove_listed_bytes() {
    assert_eq!(remove_bytes(b" x\t y\n", b" \t\n"), b"xy".to_vec());
}

#[test]
fn pattern_words() {
    let ev = parse_pattern(b"`0.0 60, 0.5  67`");
    assert_eq!(ev.len(), 2);
    assert_eq!(strs(&ev[0]), vec!["0.0", "60"]);
    assert_eq!(strs(&ev[1]), vec!["0.5", "67"]);
}

#[test]
fn code_lines() {
    let lines = parse_code(b"x := in*2; y\t:= x+1; x+y");
    assert_eq!(lines.len(), 3);
    assert_eq!(lines[0].var.as_deref(), Some(&b"x"[..]));
    assert_eq!(lines[0].expr, b" in*2".to_vec());
    assert_eq!(lines[1].var.as_deref(), Some(&b"y"[..]));
    assert_eq!(lines[1].expr, b" x+1".to_vec());
    assert!(lines[2].var.is_none());
    assert_eq!(lines[2].expr, b" x+y".to_vec());
}

#[test]
fn timed_events() {
    let p = parse_timed_event(b"2.5=>60").unwrap();
    assert_eq!(strs(&p), vec!["2.5", "60"]);
    assert!(parse_timed_event(b"60").is_none());
    assert_eq!(parse_timed_event(b"1=>2=>3").unwrap().len(), 3);
}
