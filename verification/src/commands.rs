//! Outcomes of the commands and calls that the program makes.
use crate::text;
use vstd::prelude::*;

verus! {

/// A command that did not succeed, and what it wrote about that.
#[derive(Debug)]
pub struct CommandError {
    pub program: String,
    pub stderr: String,
}

impl CommandError {
    pub open spec fn text(self) -> Seq<char> {
        self.program@ + " failed: "@ + self.stderr@
    }

    pub fn message(&self) -> (s: String)
        ensures
            s@ == self.text(),
    {
        let mut s = self.program.clone();
        text::append(&mut s, " failed: ");
        text::append(&mut s, self.stderr.as_str());
        s
    }
}

/// Whether a command that has ended succeeded; if not, the error to report.
pub fn check(program: &str, success: bool, stderr: &[u8]) -> (r: Result<(), CommandError>)
    ensures
        match r {
            Ok(()) => success,
            Err(e) => !success && e.program@ == program@ && e.stderr@ == text::lossy_text(
                stderr@,
            ),
        },
{
    if success {
        Ok(())
    } else {
        Err(CommandError { program: program.to_owned(), stderr: text::lossy(stderr) })
    }
}

/// What a call replied, if there is anything in it; `None` means that the other way has to
/// be tried. An error is `None` from the start.
pub fn nonempty<T>(reply: Option<Vec<T>>) -> (r: Option<Vec<T>>)
    ensures
        r == if reply is Some && reply->0@.len() > 0 {
            reply
        } else {
            None::<Vec<T>>
        },
{
    match reply {
        Some(v) => if v.len() > 0 {
            Some(v)
        } else {
            None
        },
        None => None,
    }
}

/// What is reported of a command that failed: its name, that it failed, and what it wrote.
pub proof fn law_command_error(e: CommandError)
    ensures
        e.text() == e.program@ + " failed: "@ + e.stderr@,
{
}

} // verus!
