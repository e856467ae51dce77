use labs::shell::{parse_command, Command};

#[test]
fn empty_line_quits() {
    assert_eq!(parse_command("\n"), Command::Quit);
    assert_eq!(parse_command(""), Command::Quit);
}

#[test]
fn commands_by_name_and_number() {
    assert_eq!(parse_command("new\n"), Command::New);
    assert_eq!(parse_command("0"), Command::New);
    assert_eq!(parse_command("mk_dir ./src/pippo\n"), Command::MkDir("./src/pippo".to_string()));
    assert_eq!(parse_command("1 a b"), Command::MkDir("a".to_string()));
    assert_eq!(parse_command("mkdir"), Command::BadName);
    assert_eq!(parse_command("mkdir "), Command::BadName);
    assert_eq!(parse_command("from_dir ./src\n"), Command::FromDir("./src".to_string()));
    assert_eq!(parse_command("cp a b"), Command::BadName);
    assert_eq!(parse_command("rm_dir x\n"), Command::RmDir("x".to_string()));
    assert_eq!(parse_command("touch f.txt \"ciao\"\n"), Command::NewFile("f.txt".to_string()));
    assert_eq!(parse_command("touch f.txt"), Command::Nothing);
    assert_eq!(parse_command("rm f.txt\n"), Command::RmFile("f.txt".to_string()));
    assert_eq!(parse_command("get_file f.txt\n"), Command::GetFile("f.txt".to_string()));
    assert_eq!(
        parse_command("find larger:900 content:cioa\n"),
        Command::Find(vec!["larger:900".to_string(), "content:cioa\n".to_string()])
    );
    assert_eq!(parse_command("find"), Command::Nothing);
    assert_eq!(parse_command("exit\n"), Command::Exit);
    assert_eq!(parse_command("q"), Command::Exit);
    assert_eq!(parse_command("print\n"), Command::Nothing);
    assert_eq!(parse_command("bogus"), Command::Nothing);
}
