//! Commands for the host to run, and what comes back.

use vstd::prelude::*;
use crate::error::{LinuxError, LinuxErrorView};
use crate::seqs;
use crate::strings;
use crate::text;

verus! {

/// A program and its arguments.
#[derive(Debug, Clone, PartialEq, Eq)]
pub struct Call {
    pub program: String,
    pub args: Vec<String>,
}

/// The value of a `Call` in specifications.
#[verifier::ext_equal]
pub struct CallView {
    pub program: Seq<char>,
    pub args: Seq<Seq<char>>,
}

impl View for Call {
    type V = CallView;

    open spec fn view(&self) -> CallView {
        CallView { program: self.program@, args: seqs::views(self.args@) }
    }
}

/// What came of a call: it could not be started, or it ended, with what it wrote.
#[derive(Debug, Clone, PartialEq, Eq)]
pub enum Reply {
    NotStarted(String),
    Ended { success: bool, status: String, stdout: String, stderr: String },
}

/// The value of a `Reply` in specifications.
pub enum ReplyView {
    NotStarted(Seq<char>),
    Ended { success: bool, status: Seq<char>, stdout: Seq<char>, stderr: Seq<char> },
}

impl View for Reply {
    type V = ReplyView;

    open spec fn view(&self) -> ReplyView {
        match self {
            Reply::NotStarted(e) => ReplyView::NotStarted(e@),
            Reply::Ended { success, status, stdout, stderr } => ReplyView::Ended {
                success: *success,
                status: status@,
                stdout: stdout@,
                stderr: stderr@,
            },
        }
    }
}

impl ReplyView {
    /// Whether the call ended well.
    pub open spec fn ok(self) -> bool {
        self matches ReplyView::Ended { success, .. } && success
    }

    /// What a call wrote that ended well.
    pub open spec fn out(self) -> Seq<char> {
        match self {
            ReplyView::NotStarted(_) => Seq::empty(),
            ReplyView::Ended { success, stdout, .. } => if success {
                stdout
            } else {
                Seq::empty()
            },
        }
    }
}

impl Reply {
    pub fn is_ok(&self) -> (r: bool)
        ensures
            r == self@.ok(),
    {
        match self {
            Reply::NotStarted(_) => false,
            Reply::Ended { success, .. } => *success,
        }
    }
}

impl Call {
    /// A call of a program.
    pub fn new(program: &str, args: &[&str]) -> (r: Call)
        ensures
            r@ == (CallView { program: program@, args: seqs::views(args@) }),
    {
        let mut list: Vec<String> = Vec::new();
        let mut i: usize = 0;
        while i < args.len()
            invariant
                i <= args.len(),
                list.len() == i,
                forall|j: int| 0 <= j < i ==> (#[trigger] list@[j])@ == args@[j]@,
            decreases args.len() - i,
        {
            list.push(args[i].to_owned());
            i += 1;
        }
        proof {
            assert(seqs::views(list@) =~= seqs::views(args@));
        }
        Call { program: program.to_owned(), args: list }
    }
}

/// What is said of a call that ended badly.
pub open spec fn exit_error(call: CallView, status: Seq<char>, stderr: Seq<char>) -> Seq<char> {
    call.program + " "@ + text::join(call.args, " "@) + " exited "@ + status + if text::trim(
        stderr,
    ).len() == 0 {
        Seq::empty()
    } else {
        ": "@ + text::trim(stderr)
    }
}

/// What a call wrote, or what went wrong with it.
pub open spec fn checked(call: CallView, reply: ReplyView) -> Result<Seq<char>, LinuxErrorView> {
    match reply {
        ReplyView::NotStarted(e) => Err(LinuxErrorView::Io(e)),
        ReplyView::Ended { success, status, stdout, stderr } => if success {
            Ok(stdout)
        } else {
            Err(LinuxErrorView::Capability(exit_error(call, status, stderr)))
        },
    }
}

/// What a call wrote, or what went wrong with it.
pub fn command_ok(call: &Call, reply: &Reply) -> (r: Result<String, LinuxError>)
    ensures
        crate::error::result_view(r) == checked(call@, reply@),
{
    match reply {
        Reply::NotStarted(e) => Err(LinuxError::Io(e.clone())),
        Reply::Ended { success, status, stdout, stderr } => {
            if *success {
                return Ok(stdout.clone());
            }
            let head = call.program.clone().concat(" ").concat(
                strings::join(&call.args, " ").as_str(),
            ).concat(" exited ").concat(status.as_str());
            let tail = strings::trim(stderr.as_str());
            if tail.unicode_len() == 0 {
                proof {
                    assert(head@ + Seq::<char>::empty() =~= head@);
                }
                Err(LinuxError::Capability(head))
            } else {
                Err(LinuxError::Capability(head.concat(": ".to_owned().concat(tail).as_str())))
            }
        },
    }
}

} // verus!
