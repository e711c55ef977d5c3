use vstd::prelude::*;
use vstd::string::StringExecFns;

verus! {

/// The message the command line stops with: flag 0 when it was started
/// without arguments, flag 1 for the other refusal, and an empty message
/// for any other flag.
pub fn exit_message(flag: i8) -> (r: &'static str)
    ensures
        flag == 0 ==> r@ == "Brauch Argumente!"@,
        flag == 1 ==> r@ == "Connard"@,
        flag != 0 && flag != 1 ==> r@ == ""@,
{
    if flag == 0 {
        "Brauch Argumente!"
    } else if flag == 1 {
        "Connard"
    } else {
        ""
    }
}

/// Whether the command line has what it needs to start: more than the
/// program's own name among its arguments.
pub fn has_arguments(args_len: usize) -> (r: bool)
    ensures
        r == (args_len != 1),
{
    args_len != 1
}


/// Where the first word `exit` stands among the words of a command line,
/// if it does: the words before it are the ones taken, and it ends the
/// session.
pub fn exit_position(words: &Vec<String>) -> (r: Option<usize>)
    ensures
        match r {
            Some(i) => i < words@.len() && words@[i as int]@ == "exit"@
                && forall|j: int| 0 <= j < i ==> (#[trigger] words@[j])@ != "exit"@,
            None => forall|j: int| 0 <= j < words@.len() ==> (#[trigger] words@[j])@ != "exit"@,
        },
{
    let exit = String::from_str("exit");
    let mut i: usize = 0;
    while i < words.len()
        invariant
            i <= words@.len(),
            exit@ == "exit"@,
            forall|j: int| 0 <= j < i ==> (#[trigger] words@[j])@ != "exit"@,
        decreases words.len() - i,
    {
        if words[i] == exit {
            return Some(i);
        }
        i = i + 1;
    }
    None
}

} // verus!
