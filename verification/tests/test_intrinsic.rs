use yeesh::intrinsics::{
    change_directory_report, change_directory_target, find_intrinsic, find_name, ExitShell,
    Intrinsic,
};

/// Stands in for the command that changes the directory.
struct ChangeDirectory;

impl Intrinsic for ChangeDirectory {
    fn get_command(&self) -> &'static str {
        "cd"
    }

    fn get_description(&self) -> &'static str {
        "change the current working directory"
    }

    fn handler(&self, args: &[String]) -> Result<String, String> {
        let target = change_directory_target(args, Some("/home/Person"))?;
        change_directory_report(&target, target.starts_with("/home"))
    }
}

fn intrinsics() -> Vec<Box<dyn Intrinsic>> {
    vec![Box::new(ChangeDirectory), Box::new(ExitShell(()))]
}

fn args(words: &[&str]) -> Vec<String> {
    words.iter().map(|w| w.to_string()).collect()
}

#[test]
fn test_find_intrinsic() {
    let all = intrinsics();
    for intrinsic in all.iter() {
        let cmd_string = intrinsic.get_command().to_string();
        let found = find_intrinsic(&all, &cmd_string);
        assert!(found.is_some());
        let found = &all[found.unwrap()];
        assert_eq!(found.get_command(), intrinsic.get_command());
        assert_eq!(found.get_description(), intrinsic.get_description());
    }
}

#[test]
fn test_find_intrinsic_by_name() {
    let all = intrinsics();
    assert_eq!(find_intrinsic(&all, &"cd".to_string()), Some(0));
    assert_eq!(find_intrinsic(&all, &"exit".to_string()), Some(1));
    assert_eq!(find_intrinsic(&all, &"ls".to_string()), None);
    assert_eq!(find_intrinsic(&all, &"".to_string()), None);
    assert_eq!(find_intrinsic(&all, &"exi".to_string()), None);
    assert_eq!(find_intrinsic(&all, &"exit ".to_string()), None);
    assert_eq!(find_intrinsic(&vec![], &"cd".to_string()), None);
}

#[test]
fn test_first_of_two_with_one_name_is_found() {
    let all: Vec<Box<dyn Intrinsic>> =
        vec![Box::new(ExitShell(())), Box::new(ChangeDirectory), Box::new(ExitShell(()))];
    assert_eq!(find_intrinsic(&all, &"exit".to_string()), Some(0));
    assert_eq!(find_intrinsic(&all, &"cd".to_string()), Some(1));
}

#[test]
fn test_exit_shell() {
    let exit = ExitShell(());
    assert_eq!(exit.get_command(), "exit");
    assert_eq!(exit.get_description(), "exit the shell");
    assert_eq!(exit.handler(&[]), Ok("So long and thanks for all the fish.".to_string()));
    assert_eq!(exit.handler(&args(&["now"])), Ok("So long and thanks for all the fish.".to_string()));
}

#[test]
fn test_cd_too_many_arguments() {
    let res = change_directory_target(&args(&["hello", "there"]), Some("/home/Person"));
    assert!(res.is_err());
    assert_eq!(res.err().unwrap(), "cd: too many arguments");
    let res = change_directory_target(&args(&["hello", "there"]), None);
    assert_eq!(res.err().unwrap(), "cd: too many arguments");
}

#[test]
fn test_cd_home_handling() {
    let home = Some("/home/Person");
    assert_eq!(change_directory_target(&[], home), Ok("/home/Person".to_string()));
    assert_eq!(change_directory_target(&args(&["~"]), home), Ok("/home/Person".to_string()));
    assert_eq!(
        change_directory_target(&args(&["~/Documents/stuff"]), home),
        Ok("/home/Person/Documents/stuff".to_string())
    );
    assert_eq!(change_directory_target(&args(&["a~b~"]), Some("H")), Ok("aHbH".to_string()));
    assert_eq!(change_directory_target(&args(&["/hello/I"]), home), Ok("/hello/I".to_string()));
    assert_eq!(change_directory_target(&args(&[""]), home), Ok("".to_string()));
}

#[test]
fn test_cd_without_home() {
    assert_eq!(change_directory_target(&[], None), Err("HOME not set".to_string()));
    assert_eq!(change_directory_target(&args(&["/tmp"]), None), Err("HOME not set".to_string()));
}

#[test]
fn test_cd_report() {
    assert_eq!(change_directory_report("/exists", true), Ok("".to_string()));
    assert_eq!(
        change_directory_report("this_doesnt_exist", false),
        Err("cd: The directory \"this_doesnt_exist\" does not exist\r\n".to_string())
    );
    assert_eq!(
        change_directory_report("/exists/doesnt", false),
        Err(format!("cd: The directory \"{}\" does not exist\r\n", "/exists/doesnt"))
    );
}

#[test]
fn test_cd_handler_through_the_trait() {
    let all = intrinsics();
    let cd = &all[find_intrinsic(&all, &"cd".to_string()).unwrap()];
    assert_eq!(cd.handler(&args(&["~/x"])), Ok("".to_string()));
    assert_eq!(
        cd.handler(&args(&["/elsewhere"])),
        Err("cd: The directory \"/elsewhere\" does not exist\r\n".to_string())
    );
}

#[test]
fn test_find_name() {
    let names: Vec<Vec<char>> =
        ["cd", "exit", "", "cd"].iter().map(|n| n.chars().collect()).collect();
    let name = |text: &str| text.chars().collect::<Vec<char>>();
    assert_eq!(find_name(&names, &name("cd")), Some(0));
    assert_eq!(find_name(&names, &name("exit")), Some(1));
    assert_eq!(find_name(&names, &name("")), Some(2));
    assert_eq!(find_name(&names, &name("c")), None);
    assert_eq!(find_name(&names, &name("cdx")), None);
    assert_eq!(find_name(&vec![], &name("cd")), None);
}
