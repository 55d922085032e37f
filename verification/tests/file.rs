use symgen::util::file::{find_response_file, process_rsp};

#[test]
fn expands_prefixed_response_files() {
    let inputs =
        vec!["direct.o".to_string(), "@objects.rsp".to_string(), "another.o".to_string()];
    let texts = vec![String::new(), "one.o\ntwo.a; three.o\n\n".to_string(), String::new()];
    let expanded = process_rsp(&inputs, &texts);
    assert_eq!(expanded, ["direct.o", "one.o", "two.a", "three.o", "another.o"]);
}

#[test]
fn response_files_are_named_behind_the_sign() {
    assert_eq!(find_response_file("@objects.rsp").as_deref(), Some("objects.rsp"));
    assert_eq!(find_response_file("@").as_deref(), Some(""));
    assert_eq!(find_response_file("a@b"), None);
    assert_eq!(find_response_file(""), None);
}

#[test]
fn blank_parts_of_response_files_are_no_inputs() {
    let inputs = vec!["@list".to_string()];
    let read = vec![" ;;\r\n a b.o ;c.o\r\n\t\n".to_string()];
    assert_eq!(process_rsp(&inputs, &read), ["a b.o", "c.o"]);
    assert_eq!(process_rsp(&inputs, &[String::new()]), Vec::<String>::new());
}
