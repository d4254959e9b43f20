use vstd::prelude::*;
use vstd::string::*;
use crate::text::split_on;
use crate::operations::Command;

verus! {

/// What the event loop is asked to do after a command was started.
#[derive(Debug, Clone, Copy, PartialEq, Eq, Structural)]
pub enum RequestedAction {
    /// Go on handling input.
    Continue,
    /// Ignore input until the command reports back.
    Block,
}

/// What reaches the event loop from a command that runs on its own.
#[derive(Debug)]
pub enum Event {
    /// A blocking command ended: `Ok` on success, else its error output.
    Unblock(Result<(), String>),
}

/// How a command is to be run.
#[derive(Debug, Clone, Copy, PartialEq, Eq, Structural)]
pub struct Dispatch {
    /// What the caller is told at once.
    pub action: RequestedAction,
    /// Whether exactly one `Event::Unblock` is sent when the command ends;
    /// when false, nothing is ever sent.
    pub notify_on_exit: bool,
}

/// A blocking command is waited for and reports its end; any other command
/// is left to run and never reports.
pub fn dispatch(cmd: &Command) -> (r: Dispatch)
    ensures
        r.action == (if cmd.blocking { RequestedAction::Block } else { RequestedAction::Continue }),
        r.notify_on_exit == cmd.blocking,
{
    if cmd.blocking {
        Dispatch { action: RequestedAction::Block, notify_on_exit: true }
    } else {
        Dispatch { action: RequestedAction::Continue, notify_on_exit: false }
    }
}

/// The arguments that run `cmd` through the shell: `sh -c cmd`.
pub fn shell_args(cmd: &str) -> (r: Vec<String>)
    ensures
        r@.len() == 3,
        r@[0]@ == "sh"@,
        r@[1]@ == "-c"@,
        r@[2]@ == cmd@,
{
    let mut r: Vec<String> = Vec::new();
    r.push(String::from_str("sh"));
    r.push(String::from_str("-c"));
    r.push(String::from_str(cmd));
    r
}

/// The event that a blocking command sends when it ends.
pub fn unblock_event(success: bool, stderr: String) -> (r: Event)
    ensures
        success ==> r == Event::Unblock(Ok(())),
        !success ==> (r matches Event::Unblock(Err(e)) && e@ == stderr@),
{
    if success {
        Event::Unblock(Ok(()))
    } else {
        Event::Unblock(Err(stderr))
    }
}

/// A line without the carriage return that may end it.
pub open spec fn without_cr(l: Seq<char>) -> Seq<char> {
    if l.len() > 0 && l.last() == '\r' {
        l.drop_last()
    } else {
        l
    }
}

/// The lines of a text: split at each newline, with no empty line after a
/// final newline, and a carriage return dropped where a newline follows it.
pub open spec fn lines_of(s: Seq<char>) -> Seq<Seq<char>> {
    let p = split_on(s, '\n');
    let ended = p.drop_last().map_values(|l: Seq<char>| without_cr(l));
    if p.last().len() == 0 {
        ended
    } else {
        ended.push(p.last())
    }
}

fn line_piece(s: &str, start: usize, end: usize) -> (r: String)
    requires
        start <= end <= s@.len(),
    ensures
        r@ == without_cr(s@.subrange(start as int, end as int)),
{
    if end > start && s.get_char(end - 1) == '\r' {
        let r = String::from_str(s.substring_char(start, end - 1));
        assert(s@.subrange(start as int, end as int).drop_last() =~= s@.subrange(start as int, end - 1));
        r
    } else {
        String::from_str(s.substring_char(start, end))
    }
}

/// Splits a command's output into its lines.
pub fn split_lines(s: &str) -> (r: Vec<String>)
    ensures
        r@.map_values(|l: String| l@) == lines_of(s@),
{
    let m = s.unicode_len();
    let mut out: Vec<String> = Vec::new();
    let mut start: usize = 0;
    let mut k: usize = 0;
    while k < m
        invariant
            m == s@.len(),
            0 <= start <= k <= m,
            split_on(s@.subrange(0, k as int), '\n').len() == out@.len() + 1,
            split_on(s@.subrange(0, k as int), '\n').last() == s@.subrange(start as int, k as int),
            out@.map_values(|o: String| o@) == split_on(s@.subrange(0, k as int), '\n').drop_last().map_values(
                |p: Seq<char>| without_cr(p),
            ),
        decreases m - k,
    {
        let ghost pre = s@.subrange(0, k as int);
        let ghost post = s@.subrange(0, k + 1);
        assert(post.drop_last() == pre);
        assert(post.last() == s@[k as int]);
        let ghost old_out = out@;
        let ghost sp = split_on(pre, '\n');
        assert(sp =~= sp.drop_last().push(sp.last()));
        if s.get_char(k) == '\n' {
            let piece = line_piece(s, start, k);
            let ghost pv = piece@;
            out.push(piece);
            assert(out@.map_values(|o: String| o@) =~= old_out.map_values(|o: String| o@).push(pv));
            assert(split_on(post, '\n').drop_last() =~= sp);
            assert(out@.map_values(|o: String| o@) =~= sp.map_values(|p: Seq<char>| without_cr(p)));
            start = k + 1;
            assert(split_on(post, '\n').last() =~= s@.subrange(start as int, k + 1));
        } else {
            assert(s@.subrange(start as int, k + 1) =~= s@.subrange(start as int, k as int).push(s@[k as int]));
            assert(split_on(post, '\n').drop_last() =~= sp.drop_last());
            assert(out@.map_values(|o: String| o@) =~= split_on(post, '\n').drop_last().map_values(
                |p: Seq<char>| without_cr(p),
            ));
        }
        k = k + 1;
    }
    assert(s@.subrange(0, m as int) =~= s@);
    let ghost p = split_on(s@, '\n');
    assert(p =~= p.drop_last().push(p.last()));
    if start < m {
        let ghost before = out@;
        let last = String::from_str(s.substring_char(start, m));
        let ghost lv = last@;
        out.push(last);
        assert(out@.map_values(|o: String| o@) =~= before.map_values(|o: String| o@).push(lv));
    }
    out
}

/// What a command that produces lines yields: its output's lines when it
/// succeeded, else its error output.
pub fn output_result(success: bool, stdout: &str, stderr: String) -> (r: Result<Vec<String>, String>)
    ensures
        success ==> (r matches Ok(v) && v@.map_values(|l: String| l@) == lines_of(stdout@)),
        !success ==> (r matches Err(e) && e@ == stderr@),
{
    if success {
        Ok(split_lines(stdout))
    } else {
        Err(stderr)
    }
}

} // verus!
