use cm_tool::code_table::CodeTable;
use cm_tool::helpers::{decoder, get_chars_code, get_codes, header_text};

#[test]
fn test_get_char_code() {
    let line = "A:1010101".to_string();
    let mut codes = CodeTable::new();
    get_codes(&line, &mut codes);
    assert_eq!(codes.get(&'A').unwrap().to_string(), "1010101");
}

#[test]
fn lines_without_exactly_one_colon_say_nothing() {
    let mut codes = CodeTable::new();
    get_codes(&"no colon here".to_string(), &mut codes);
    get_codes(&"a:b:c".to_string(), &mut codes);
    get_codes(&"::01".to_string(), &mut codes);
    get_codes(&"".to_string(), &mut codes);
    assert!(codes.is_empty());
    get_codes(&"xyz:01".to_string(), &mut codes);
    assert_eq!(codes.get(&'x').unwrap(), "01");
    get_codes(&"x:".to_string(), &mut codes);
    assert_eq!(codes.get(&'x').unwrap(), "");
}

#[test]
fn listing_is_read_up_to_its_end() {
    let lines = vec![
        "a:0".to_string(),
        "b:10".to_string(),
        "encode\n".to_string(),
        "c:11".to_string(),
    ];
    let codes = decoder(&lines);
    assert_eq!(codes.get(&'a').unwrap(), "0");
    assert_eq!(codes.get(&'b').unwrap(), "10");
    assert!(codes.get(&'c').is_none());

    let mut more = CodeTable::new();
    more.insert('a', "111".to_string());
    get_chars_code(&vec!["encode".to_string(), "a:0".to_string()], &mut more);
    assert_eq!(more.get(&'a').unwrap(), "0");
    assert_eq!(more.get(&'e').map(|code| code.as_str()), None);
}

#[test]
fn listing_is_written_entry_by_entry() {
    let entries = vec![('a', "00".to_string()), ('b', "1".to_string())];
    assert_eq!(header_text(&entries), "a:00\nb:1\nencoding\n");
    assert_eq!(header_text(&Vec::new()), "encoding\n");
    let text = header_text(&entries);
    let first = text.lines().next().unwrap();
    assert_eq!(first, "a:00");
}
