use rust_bs::{BuildSerializer, CommandLine};

fn cmd(program: &str, args: &[&str]) -> CommandLine {
    CommandLine { program: program.to_string(), args: args.iter().map(|a| a.to_string()).collect() }
}

#[test]
fn format_one_command() {
    assert_eq!(BuildSerializer::format_command(&cmd("cc", &["-o", "out"])), "cc -o out\n");
    assert_eq!(BuildSerializer::format_command(&cmd("ls", &[])), "ls \n");
}

#[test]
fn format_several_commands() {
    let cmds = vec![cmd("echo", &["hi"]), cmd("make", &["all", "install"])];
    assert_eq!(BuildSerializer::format_commands(&cmds), "echo hi\nmake all install\n");
}

#[test]
fn command_from_words_splits_program() {
    assert_eq!(BuildSerializer::command_from_words(vec![]), None);
    let words = vec!["gcc".to_string(), "main.c".to_string()];
    assert_eq!(BuildSerializer::command_from_words(words), Some(cmd("gcc", &["main.c"])));
}

#[test]
fn parse_saved_commands() {
    let cmds = BuildSerializer::parse_commands("echo 'hello there' x\n\nmake all\n").unwrap();
    assert_eq!(cmds, vec![cmd("echo", &["'hello there'", "x"]), cmd("make", &["all"])]);
}

#[test]
fn save_then_load() {
    let cmds = vec![cmd("cargo", &["build", "release"]), cmd("ls", &[])];
    let text = BuildSerializer::format_commands(&cmds);
    assert_eq!(BuildSerializer::parse_commands(&text).unwrap(), cmds);
}
