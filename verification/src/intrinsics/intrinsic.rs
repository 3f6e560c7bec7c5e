//! Built-in commands: how they are found by name, and what the two that
//! come with the shell decide.

use vstd::prelude::*;
use vstd::string::StringExecFns;

use crate::chars::{append_str, chars_of, string_from_chars};

verus! {

/// A command that the shell runs itself.
pub trait Intrinsic: Sync + Send {
    /// The name by which the command is called.
    fn get_command(&self) -> &'static str;

    /// One line on what the command does.
    fn get_description(&self) -> &'static str;

    /// Runs the command on its arguments, and gives what it prints, or the
    /// complaint it makes.
    fn handler(&self, args: &[String]) -> Result<String, String>;
}

/// Whether `i` is the first place in `names` that holds `name`.
pub open spec fn is_first_of(names: Seq<Seq<char>>, name: Seq<char>, i: int) -> bool {
    &&& 0 <= i < names.len()
    &&& names[i] == name
    &&& forall|j: int| 0 <= j < i ==> #[trigger] names[j] != name
}

/// The first place in `names` that holds `name`, if there is one.
pub fn find_name(names: &Vec<Vec<char>>, name: &Vec<char>) -> (found: Option<usize>)
    ensures
        match found {
            Some(i) => is_first_of(names.deep_view(), name@, i as int),
            None => !names.deep_view().contains(name@),
        },
{
    let ghost texts = names.deep_view();
    let mut i: usize = 0;
    while i < names.len()
        invariant
            i <= names.len(),
            texts == names.deep_view(),
            forall|j: int| 0 <= j < i ==> #[trigger] texts[j] != name@,
        decreases names.len() - i,
    {
        assert(texts[i as int] =~= names[i as int]@);
        if same_text(&names[i], name) {
            return Some(i);
        }
        i += 1;
    }
    None
}

/// Where the first of `intrinsics` that is called `cmd` stands, if there
/// is one.
///
/// Every command is asked for its name once, in order, and `cmd` is looked
/// up among the names with `find_name`. What a command calls itself is for
/// the command to say; whatever the commands say, what is found is one of
/// them, and among no commands nothing is found.
pub fn find_intrinsic(intrinsics: &Vec<Box<dyn Intrinsic>>, cmd: &String) -> (found: Option<usize>)
    ensures
        found matches Some(i) ==> i < intrinsics.len(),
        intrinsics.len() == 0 ==> found is None,
{
    let mut names: Vec<Vec<char>> = Vec::new();
    let mut i: usize = 0;
    while i < intrinsics.len()
        invariant
            i <= intrinsics.len(),
            names.len() == i,
        decreases intrinsics.len() - i,
    {
        names.push(chars_of(intrinsics[i].get_command()));
        i += 1;
    }
    let wanted = chars_of(cmd.as_str());
    find_name(&names, &wanted)
}

/// Whether two texts are the same.
fn same_text(a: &Vec<char>, b: &Vec<char>) -> (same: bool)
    ensures
        same == (a@ == b@),
{
    if a.len() != b.len() {
        return false;
    }
    let mut i: usize = 0;
    while i < a.len()
        invariant
            i <= a.len(),
            a.len() == b.len(),
            forall|j: int| 0 <= j < i ==> a@[j] == b@[j],
        decreases a.len() - i,
    {
        if a[i] != b[i] {
            return false;
        }
        i += 1;
    }
    assert(a@ =~= b@);
    true
}

/// The command that ends the shell.
pub struct ExitShell(pub ());

impl Intrinsic for ExitShell {
    fn get_command(&self) -> (name: &'static str)
        ensures
            name@ == "exit"@,
    {
        "exit"
    }

    fn get_description(&self) -> (description: &'static str)
        ensures
            description@ == "exit the shell"@,
    {
        "exit the shell"
    }

    fn handler(&self, args: &[String]) -> (result: Result<String, String>)
        ensures
            result matches Ok(farewell) && farewell@ == "So long and thanks for all the fish."@,
    {
        Ok(String::from_str("So long and thanks for all the fish."))
    }
}


/// `path` with every tilde replaced by `home`.
pub open spec fn replace_tilde(path: Seq<char>, home: Seq<char>) -> Seq<char>
    decreases path.len(),
{
    if path.len() == 0 {
        Seq::empty()
    } else {
        replace_tilde(path.drop_last(), home) + if path.last() == '~' {
            home
        } else {
            seq![path.last()]
        }
    }
}

/// Where `cd` is to go, or its complaint. With no argument it goes home,
/// with one it goes there, a tilde standing for the home directory; more
/// arguments are too many. It complains if the home directory is not known,
/// whether or not the argument names it.
pub open spec fn cd_target(args: Seq<String>, home: Option<Seq<char>>) -> Result<
    Seq<char>,
    Seq<char>,
> {
    if args.len() > 1 {
        Err("cd: too many arguments"@)
    } else {
        match home {
            None => Err("HOME not set"@),
            Some(home) => Ok(
                replace_tilde(
                    if args.len() == 0 {
                        seq!['~']
                    } else {
                        args[0]@
                    },
                    home,
                ),
            ),
        }
    }
}

/// What `cd` says after the change of directory to `path` was tried:
/// nothing if it worked, and else that the directory does not exist.
pub open spec fn cd_report(path: Seq<char>, changed: bool) -> Result<Seq<char>, Seq<char>> {
    if changed {
        Ok(Seq::empty())
    } else {
        Err("cd: The directory \""@ + path + "\" does not exist\r\n"@)
    }
}

/// Whether `found` is `expected`, text for text.
pub open spec fn is_outcome(found: Result<String, String>, expected: Result<Seq<char>, Seq<char>>) -> bool {
    match found {
        Ok(text) => expected == Ok::<Seq<char>, Seq<char>>(text@),
        Err(text) => expected == Err::<Seq<char>, Seq<char>>(text@),
    }
}

/// Where `cd` is to go, given its arguments and the home directory if it is
/// known.
pub fn change_directory_target(args: &[String], home: Option<&str>) -> (target: Result<
    String,
    String,
>)
    ensures
        is_outcome(
            target,
            cd_target(
                args@,
                match home {
                    Some(home) => Some(home@),
                    None => None,
                },
            ),
        ),
{
    if args.len() > 1 {
        return Err(String::from_str("cd: too many arguments"));
    }
    let home = match home {
        Some(home) => home,
        None => {
            return Err(String::from_str("HOME not set"));
        },
    };
    let mut path: Vec<char> = Vec::new();
    if args.len() == 0 {
        path.push('~');
        assert(path@ =~= seq!['~']);
    } else {
        path = chars_of(args[0].as_str());
    }
    let mut target: Vec<char> = Vec::new();
    let mut i: usize = 0;
    while i < path.len()
        invariant
            i <= path.len(),
            target@ == replace_tilde(path@.take(i as int), home@),
        decreases path.len() - i,
    {
        assert(path@.take(i + 1).drop_last() =~= path@.take(i as int));
        if path[i] == '~' {
            append_str(&mut target, home);
        } else {
            target.push(path[i]);
            assert(target@ =~= replace_tilde(path@.take(i as int), home@) + seq![path@[i as int]]);
        }
        i += 1;
    }
    assert(path@.take(path.len() as int) =~= path@);
    Ok(string_from_chars(&target))
}

/// What `cd` says after the change of directory to `path` was tried.
pub fn change_directory_report(path: &str, changed: bool) -> (report: Result<String, String>)
    ensures
        is_outcome(report, cd_report(path@, changed)),
{
    if changed {
        Ok(String::new())
    } else {
        let mut text = chars_of("cd: The directory \"");
        append_str(&mut text, path);
        append_str(&mut text, "\" does not exist\r\n");
        Err(string_from_chars(&text))
    }
}

} // verus!
