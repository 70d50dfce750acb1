use rs_dfs::client::{add_to_history, parse_command, ClientCommand};

fn strings(v: &[&str]) -> Vec<String> {
    v.iter().map(|s| s.to_string()).collect()
}

#[test]
fn history_appends_new_command() {
    let h = add_to_history(&strings(&["ls", "put a b"]), &"exit".to_string());
    assert_eq!(h, strings(&["ls", "put a b", "exit"]));
}

#[test]
fn history_moves_repeated_command_to_the_end() {
    let h = add_to_history(&strings(&["ls", "put a b", "ls", "x"]), &"ls".to_string());
    assert_eq!(h, strings(&["put a b", "ls", "x", "ls"]));
    let e = add_to_history(&vec![], &"ls".to_string());
    assert_eq!(e, strings(&["ls"]));
}

#[test]
fn commands_parse() {
    assert_eq!(parse_command("   "), ClientCommand::Empty);
    assert_eq!(parse_command("exit"), ClientCommand::Exit);
    assert_eq!(parse_command("  ls  -l"), ClientCommand::Ls);
    assert_eq!(
        parse_command("put notes.txt hello extra"),
        ClientCommand::Put { filename: "notes.txt".to_string(), data: "hello".to_string() }
    );
    assert_eq!(parse_command("put notes.txt"), ClientCommand::Malformed);
    assert_eq!(parse_command("\tget\tx"), ClientCommand::Unknown("get".to_string()));
    assert_eq!(parse_command("exits"), ClientCommand::Unknown("exits".to_string()));
}
