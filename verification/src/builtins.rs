//! The commands that the shell runs itself.

use crate::spawn::texts_view;
use crate::text::{chars_of, str_eq};
use crate::word::collect;
use vstd::hash_map::StringHashMap;
use vstd::prelude::*;
use vstd::string::*;

verus! {

/// A command that the shell runs itself.
#[derive(Debug, Clone, Copy, PartialEq, Eq, Structural)]
pub enum BuiltinCmd {
    /// `pwd`: shows the working directory.
    Pwd,
    /// `cd`: changes the working directory.
    Cd,
    /// `history`: shows or clears the command history.
    History,
    /// `exit`: ends the shell.
    Exit,
}

/// The builtin commands by name.
pub open spec fn builtin_table() -> Map<Seq<char>, BuiltinCmd> {
    Map::empty().insert("pwd"@, BuiltinCmd::Pwd).insert("cd"@, BuiltinCmd::Cd).insert(
        "history"@,
        BuiltinCmd::History,
    ).insert("exit"@, BuiltinCmd::Exit)
}

/// The builtin commands by name.
pub fn get_builtins() -> (r: StringHashMap<BuiltinCmd>)
    ensures
        r@ == builtin_table(),
{
    let mut r: StringHashMap<BuiltinCmd> = StringHashMap::new();
    r.insert("pwd".to_string(), BuiltinCmd::Pwd);
    r.insert("cd".to_string(), BuiltinCmd::Cd);
    r.insert("history".to_string(), BuiltinCmd::History);
    r.insert("exit".to_string(), BuiltinCmd::Exit);
    r
}

/// A directory to change to.
#[derive(Debug)]
pub enum CdTarget {
    /// The home directory.
    Home,
    /// A path below the home directory.
    UnderHome(String),
    /// A path.
    Path(String),
}

/// The mathematical value of a [`CdTarget`].
pub enum CdTargetView {
    Home,
    UnderHome(Seq<char>),
    Path(Seq<char>),
}

impl View for CdTarget {
    type V = CdTargetView;

    open spec fn view(&self) -> CdTargetView {
        match *self {
            CdTarget::Home => CdTargetView::Home,
            CdTarget::UnderHome(p) => CdTargetView::UnderHome(p@),
            CdTarget::Path(p) => CdTargetView::Path(p@),
        }
    }
}

/// Whether a path begins with a part that is a lone tilde.
pub open spec fn begins_with_tilde(p: Seq<char>) -> bool {
    p.len() > 0 && p[0] == '~' && (p.len() == 1 || p[1] == '/')
}

/// A path without the separators, and the parts that are a lone dot, at its beginning.
pub open spec fn without_lead(p: Seq<char>) -> Seq<char>
    decreases p.len(),
{
    if p.len() > 0 && p[0] == '/' {
        without_lead(p.skip(1))
    } else if p.len() > 0 && p[0] == '.' && (p.len() == 1 || p[1] == '/') {
        without_lead(p.skip(1))
    } else {
        p
    }
}

/// The directory that a path stands for: a tilde at its beginning is the home directory.
pub open spec fn target_of(p: Seq<char>) -> CdTargetView {
    let below = without_lead(p.skip(1));
    if !begins_with_tilde(p) {
        CdTargetView::Path(p)
    } else if below.len() == 0 {
        CdTargetView::Home
    } else {
        CdTargetView::UnderHome(below)
    }
}

/// The directory that `cd` changes to, given all words that it was called with, or what the
/// user is told.
pub open spec fn cd_request(args: Seq<Seq<char>>) -> Result<CdTargetView, Seq<char>> {
    if args.len() == 1 {
        Ok(CdTargetView::Home)
    } else if args.len() == 2 {
        Ok(target_of(args[1]))
    } else if args.len() > 2 {
        Err("ERR cd: too many arguments for cd; "@ + args[2] + " is invalid"@)
    } else {
        Err("unreachable"@)
    }
}

/// The directory that a path stands for.
fn expand_tilde(path: &str) -> (r: CdTarget)
    ensures
        r@ == target_of(path@),
{
    let v = chars_of(path);
    let n: usize = v.len();
    if !(n > 0 && v[0] == '~' && (n == 1 || v[1] == '/')) {
        return CdTarget::Path(path.to_string());
    }
    let mut i: usize = 1;
    while i < n && (v[i] == '/' || (v[i] == '.' && (i == n - 1 || v[i + 1] == '/')))
        invariant
            v@ == path@,
            n == v@.len(),
            1 <= i <= n,
            without_lead(path@.skip(1)) == without_lead(path@.skip(i as int)),
        decreases n - i,
    {
        assert(path@.skip(i as int).skip(1) =~= path@.skip(i + 1));
        i += 1;
    }
    assert(without_lead(path@.skip(1)) == path@.skip(i as int));
    if i == n {
        return CdTarget::Home;
    }
    let below = collect(&v, i, n);
    assert(v@.subrange(i as int, n as int) =~= path@.skip(i as int));
    CdTarget::UnderHome(below)
}

/// The directory that `cd` changes to, given all words that it was called with, or what the
/// user is told.
pub fn set_cwd(args: &Vec<String>) -> (r: Result<CdTarget, String>)
    ensures
        cd_request(texts_view(args@)) == match r {
            Ok(t) => Ok(t@),
            Err(e) => Err(e@),
        },
{
    if args.len() == 1 {
        Ok(CdTarget::Home)
    } else if args.len() == 2 {
        Ok(expand_tilde(args[1].as_str()))
    } else if args.len() > 2 {
        let mut message = "ERR cd: too many arguments for cd; ".to_string();
        message.append(args[2].as_str());
        message.append(" is invalid");
        Err(message)
    } else {
        Err("unreachable".to_string())
    }
}

/// What `history` is asked to do.
#[derive(Debug, Clone, Copy, PartialEq, Eq, Structural)]
pub enum HistoryRequest {
    Show,
    Clear,
}

/// A text in lower case.
pub uninterp spec fn lower_case(s: Seq<char>) -> Seq<char>;

/// `str::to_lowercase` gives a text in lower case, as Unicode defines it. The result depends on
/// the text alone.
pub assume_specification[ str::to_lowercase ](s: &str) -> (r: String)
    ensures
        r@ == lower_case(s@),
;

/// What a parameter of `history` asks for, given it in lower case too, or what the user is
/// told.
pub open spec fn parameter_request(lowered: Seq<char>, given: Seq<char>) -> Result<
    HistoryRequest,
    Seq<char>,
> {
    if lowered == "clear"@ {
        Ok(HistoryRequest::Clear)
    } else {
        Err("unrecognized history parameter "@ + given)
    }
}

/// What a parameter of `history` asks for, given it in lower case too, or what the user is
/// told.
pub fn history_parameter(lowered: &str, given: &str) -> (r: Result<HistoryRequest, String>)
    ensures
        parameter_request(lowered@, given@) == match r {
            Ok(q) => Ok(q),
            Err(e) => Err(e@),
        },
{
    if str_eq(lowered, "clear") {
        Ok(HistoryRequest::Clear)
    } else {
        let mut message = "unrecognized history parameter ".to_string();
        message.append(given);
        Err(message)
    }
}

/// What `history` is asked to do, given all words that it was called with. The case of the
/// parameter does not matter.
pub fn get_history(args: &Vec<String>) -> (r: Result<HistoryRequest, String>)
    ensures
        match r {
            Ok(q) => Ok(q),
            Err(e) => Err(e@),
        } == (if args@.len() > 1 {
            parameter_request(lower_case(args@[1]@), args@[1]@)
        } else {
            Ok(HistoryRequest::Show)
        }),
{
    if args.len() > 1 {
        let lowered = args[1].as_str().to_lowercase();
        history_parameter(lowered.as_str(), args[1].as_str())
    } else {
        Ok(HistoryRequest::Show)
    }
}

/// What the user is told after the history was to be cleared.
pub open spec fn cleared_answer(cleared: bool) -> Result<Seq<char>, Seq<char>> {
    if cleared {
        Ok("command history cleared"@)
    } else {
        Err("Failed to clear history"@)
    }
}

/// What the user is told after the history was to be cleared: that it has been, or that this
/// failed.
pub fn history_cleared(cleared: bool) -> (r: Result<String, String>)
    ensures
        cleared_answer(cleared) == match r {
            Ok(t) => Ok(t@),
            Err(e) => Err(e@),
        },
{
    if cleared {
        Ok("command history cleared".to_string())
    } else {
        Err("Failed to clear history".to_string())
    }
}

/// How many entries of the history are shown.
pub const SHOWN_ENTRIES: usize = 15;

/// The entries of the history that are shown: the last ones.
pub open spec fn recent(entries: Seq<Seq<char>>) -> Seq<Seq<char>> {
    if entries.len() > SHOWN_ENTRIES {
        entries.skip(entries.len() - SHOWN_ENTRIES)
    } else {
        entries
    }
}

/// Texts with a line feed between each two of them.
pub open spec fn lines(texts: Seq<Seq<char>>) -> Seq<char>
    decreases texts.len(),
{
    if texts.len() == 0 {
        Seq::empty()
    } else if texts.len() == 1 {
        texts[0]
    } else {
        lines(texts.drop_last()) + "\n"@ + texts.last()
    }
}

/// What `history` shows of a history, the oldest entry of which comes first.
pub fn show_history(entries: &Vec<String>) -> (r: String)
    ensures
        r@ == lines(recent(texts_view(entries@))),
{
    let n: usize = entries.len();
    let start: usize = if n > SHOWN_ENTRIES {
        n - SHOWN_ENTRIES
    } else {
        0
    };
    let ghost shown = recent(texts_view(entries@));
    let mut output = String::new();
    let mut i: usize = start;
    assert(shown =~= texts_view(entries@).skip(start as int));
    assert(shown.take(0) =~= Seq::empty());
    while i < n
        invariant
            start <= i <= n == entries@.len(),
            shown == texts_view(entries@).skip(start as int),
            output@ == lines(shown.take(i - start)),
        decreases n - i,
    {
        let ghost k = i - start;
        assert(shown.take(k + 1).drop_last() =~= shown.take(k));
        assert(shown.take(k + 1).last() == entries@[i as int]@);
        if i > start {
            output.append("\n");
        }
        output.append(entries[i].as_str());
        assert(output@ =~= lines(shown.take(k + 1)));
        i += 1;
    }
    assert(shown.take(n - start) =~= shown);
    output
}

} // verus!
