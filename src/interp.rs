//! The evaluator: it splits a script into commands, substitutes their words
//! and dispatches each command to its handler.
use vstd::prelude::*;

use crate::check_args;
use crate::lexer::{command_at, is_space, parse_command, skip_space, Word, WordKind};
use crate::list::{elements_from, get_list};
use crate::pieces::{bracket_free, is_name_char, lemma_scripts_in_order, name_end, parse_pieces, pieces_from, pieces_view, Piece, PieceView};
use crate::scope::{no_such_variable_message, read_outcome, ScopeStack};
use crate::text::{chars_of, join, same_text};
use crate::types::{InterpResult, ResultCode, error_text};

verus! {

/// What a command name is bound to.
pub enum Command {
    /// `set name ?value?`: reads or writes a variable of the current frame.
    SetVar,
    /// `proc name params body`: defines a procedure.
    DefineProc,
    /// `return ?value?`: ends the running procedure with a value.
    Return,
    /// `break`: leaves the innermost loop.
    Break,
    /// `continue`: goes on with the next turn of the innermost loop.
    Continue,
    /// A procedure defined by a script: its parameter names and its body.
    Procedure { params: Vec<String>, body: String },
}

/// The mathematical value of a `Command`.
pub enum CommandView {
    SetVar,
    DefineProc,
    Return,
    Break,
    Continue,
    Procedure(Seq<Seq<char>>, Seq<char>),
}

impl View for Command {
    type V = CommandView;

    open spec fn view(&self) -> CommandView {
        match self {
            Command::SetVar => CommandView::SetVar,
            Command::DefineProc => CommandView::DefineProc,
            Command::Return => CommandView::Return,
            Command::Break => CommandView::Break,
            Command::Continue => CommandView::Continue,
            Command::Procedure { params, body } => CommandView::Procedure(
                params@.map_values(|p: String| p@),
                body@,
            ),
        }
    }
}

/// The message for a command name that nothing is bound to.
pub open spec fn invalid_command_message(name: Seq<char>) -> Seq<char> {
    "invalid command name \""@ + name + "\""@
}

/// The message for a script that nests evaluations beyond the interpreter's
/// limit.
pub open spec fn too_deep_message() -> Seq<char> {
    "too many nested evaluations (infinite loop?)"@
}

/// Whether a run of pieces holds a nested script.
pub open spec fn has_script(ps: Seq<PieceView>) -> bool {
    exists|k: int| 0 <= k < ps.len() && (#[trigger] ps[k]) is Script
}

/// The value of a run of pieces with no nested script, with variables read in
/// `vars`: the pieces' texts joined left to right, or the error of the first
/// variable that is not set.
pub open spec fn assemble(ps: Seq<PieceView>, vars: Map<Seq<char>, Seq<char>>) -> Result<
    Seq<char>,
    Seq<char>,
>
    decreases ps.len(),
{
    if ps.len() == 0 {
        Ok(Seq::empty())
    } else {
        match assemble(ps.drop_last(), vars) {
            Err(m) => Err(m),
            Ok(s) => match ps.last() {
                PieceView::Text(t) => Ok(s + t),
                PieceView::Var(n) => if vars.contains_key(n) {
                    Ok(s + vars[n])
                } else {
                    Err(no_such_variable_message(n))
                },
                PieceView::Script(_) => Ok(s),
            },
        }
    }
}

proof fn lemma_assemble_error_stays(ps: Seq<PieceView>, vars: Map<Seq<char>, Seq<char>>, k: int)
    requires
        0 <= k <= ps.len(),
        assemble(ps.take(k), vars) is Err,
    ensures
        assemble(ps, vars) == assemble(ps.take(k), vars),
    decreases ps.len() - k,
{
    if k < ps.len() {
        assert(ps.take(k + 1).drop_last() =~= ps.take(k));
        lemma_assemble_error_stays(ps, vars, k + 1);
    } else {
        assert(ps.take(k) =~= ps);
    }
}

/// `r` is the outcome that the value `v` of a word gives: the text, or an
/// `Error` with the message.
pub open spec fn word_outcome(v: Result<Seq<char>, Seq<char>>, r: InterpResult) -> bool {
    match v {
        Ok(t) => r matches Ok(s) && s@ == t,
        Err(m) => error_text(r) == Some(m),
    }
}

/// Every frame of `before` but the current one is the same in `after`.
pub open spec fn outer_frames_kept(
    before: Seq<Map<Seq<char>, Seq<char>>>,
    after: Seq<Map<Seq<char>, Seq<char>>>,
) -> bool {
    forall|j: int| 0 <= j < before.len() - 1 ==> #[trigger] after[j] == before[j]
}

/// The mathematical value of an evaluation outcome.
pub enum Outcome {
    Value(Seq<char>),
    Error(Seq<char>),
    Return(Seq<char>),
    Break,
    Continue,
}

/// The mathematical value of an `InterpResult`.
pub open spec fn outcome_of(r: InterpResult) -> Outcome {
    match r {
        Ok(s) => Outcome::Value(s@),
        Err(ResultCode::Error(m)) => Outcome::Error(m@),
        Err(ResultCode::Return(v)) => Outcome::Return(v@),
        Err(ResultCode::Break) => Outcome::Break,
        Err(ResultCode::Continue) => Outcome::Continue,
    }
}

/// The state that evaluation reads and changes: the call stack and the
/// command table, in the order of its bindings.
pub struct State {
    pub stack: Seq<Map<Seq<char>, Seq<char>>>,
    pub table: Seq<(Seq<char>, CommandView)>,
}

/// The index of the first binding of `name` in `t` from `j` on, or -1.
pub open spec fn find_from(t: Seq<(Seq<char>, CommandView)>, name: Seq<char>, j: int) -> int
    decreases t.len() - j,
{
    if j < 0 || j >= t.len() {
        -1
    } else if t[j].0 == name {
        j
    } else {
        find_from(t, name, j + 1)
    }
}

proof fn lemma_find_update(
    t: Seq<(Seq<char>, CommandView)>,
    name: Seq<char>,
    s: int,
    j: int,
    e: (Seq<char>, CommandView),
)
    requires
        0 <= s <= j < t.len(),
        find_from(t, name, s) == j,
        e.0 == name,
    ensures
        find_from(t.update(j, e), name, s) == j,
    decreases j - s,
{
    if s < j {
        lemma_find_update(t, name, s + 1, j, e);
    }
}

proof fn lemma_find_push(
    t: Seq<(Seq<char>, CommandView)>,
    name: Seq<char>,
    s: int,
    e: (Seq<char>, CommandView),
)
    requires
        0 <= s <= t.len(),
        find_from(t, name, s) == -1,
        e.0 == name,
    ensures
        find_from(t.push(e), name, s) == t.len(),
    decreases t.len() - s,
{
    if s < t.len() {
        lemma_find_push(t, name, s + 1, e);
    }
}

/// `t` with `name` bound to `c`, in place of its first binding if it has one.
pub open spec fn add_binding(
    t: Seq<(Seq<char>, CommandView)>,
    name: Seq<char>,
    c: CommandView,
) -> Seq<(Seq<char>, CommandView)> {
    let j = find_from(t, name, 0);
    if j >= 0 {
        t.update(j, (name, c))
    } else {
        t.push((name, c))
    }
}

/// The frame of a procedure whose first `k` parameters `ps` are bound to the
/// arguments after the name in `a`.
pub open spec fn bound_frame(ps: Seq<Seq<char>>, a: Seq<Seq<char>>, k: int) -> Map<
    Seq<char>,
    Seq<char>,
>
    decreases k,
{
    if k <= 0 {
        Map::empty()
    } else {
        bound_frame(ps, a, k - 1).insert(ps[k - 1], a[k])
    }
}

/// The error for a command `name` called with a wrong number of arguments.
pub open spec fn arity_outcome(name: Seq<char>, sig: Seq<char>) -> Outcome {
    Outcome::Error(crate::wrong_args_message(seq![name], sig))
}

/// What evaluating the script `w` does from `st`, with `fuel` levels of
/// nesting left: the state after it and the outcome.
pub open spec fn eval_spec(st: State, w: Seq<char>, fuel: nat) -> (State, Outcome)
    decreases fuel, 4int, 0int,
{
    if fuel == 0 {
        (st, Outcome::Error(too_deep_message()))
    } else {
        eval_from(st, w, 0, Outcome::Value(Seq::empty()), fuel)
    }
}

/// The commands of `w` from `i` on, `last` being the outcome so far: each
/// command's words are valued left to right and the command run; the first
/// outcome other than `Ok` ends the script, and else the last one is its
/// outcome. A text with no command gives `last`.
pub open spec fn eval_from(st: State, w: Seq<char>, i: int, last: Outcome, fuel: nat) -> (
    State,
    Outcome,
)
    decreases fuel, 3int, w.len() - i,
{
    if i < 0 || i >= w.len() || fuel == 0 {
        (st, last)
    } else {
        match command_at(w, i) {
            Err(m) => (st, Outcome::Error(m)),
            Ok((words, n)) => if n <= i || n > w.len() {
                (st, last)
            } else if words.len() == 0 {
                eval_from(st, w, n, last, fuel)
            } else {
                let (st1, av) = words_spec(st, words, 0, Seq::empty(), fuel);
                match av {
                    Err(o) => (st1, o),
                    Ok(argv) => {
                        let (st2, r) = dispatch_spec(st1, argv, fuel);
                        if r is Value {
                            eval_from(st2, w, n, r, fuel)
                        } else {
                            (st2, r)
                        }
                    },
                }
            },
        }
    }
}

/// The values of `words[k..]`, after `acc`, or the first outcome other than
/// `Ok` among them.
pub open spec fn words_spec(
    st: State,
    words: Seq<(WordKind, Seq<char>)>,
    k: int,
    acc: Seq<Seq<char>>,
    fuel: nat,
) -> (State, Result<Seq<Seq<char>>, Outcome>)
    decreases fuel, 2int, words.len() - k,
{
    if k < 0 || k >= words.len() {
        (st, Ok(acc))
    } else {
        let (st1, o) = word_spec(st, words[k], fuel);
        match o {
            Outcome::Value(v) => words_spec(st1, words, k + 1, acc.push(v), fuel),
            _ => (st1, Err(o)),
        }
    }
}

/// The value of one word: a brace-grouped word's text, or else its pieces
/// valued left to right.
pub open spec fn word_spec(st: State, word: (WordKind, Seq<char>), fuel: nat) -> (State, Outcome)
    decreases fuel, 1int, 0int,
{
    if word.0 == WordKind::Brace {
        (st, Outcome::Value(word.1))
    } else {
        match pieces_from(word.1, 0) {
            Err(m) => (st, Outcome::Error(m)),
            Ok(ps) => pieces_spec(st, ps, 0, Seq::empty(), fuel),
        }
    }
}

/// The pieces `ps[k..]` joined after `acc`: text as it stands, a variable's
/// value in the current frame, a nested script's `Ok` value spliced in as it
/// is and never scanned again; or the first error, or outcome other than
/// `Ok`, among them.
pub open spec fn pieces_spec(st: State, ps: Seq<PieceView>, k: int, acc: Seq<char>, fuel: nat) -> (
    State,
    Outcome,
)
    decreases fuel, 0int, ps.len() - k,
{
    if k < 0 || k >= ps.len() {
        (st, Outcome::Value(acc))
    } else {
        match ps[k] {
            PieceView::Text(t) => pieces_spec(st, ps, k + 1, acc + t, fuel),
            PieceView::Var(n) => if st.stack.last().contains_key(n) {
                pieces_spec(st, ps, k + 1, acc + st.stack.last()[n], fuel)
            } else {
                (st, Outcome::Error(no_such_variable_message(n)))
            },
            PieceView::Script(s) => if fuel == 0 {
                (st, Outcome::Error(too_deep_message()))
            } else {
                let (st1, o) = eval_spec(st, s, (fuel - 1) as nat);
                match o {
                    Outcome::Value(v) => pieces_spec(st1, ps, k + 1, acc + v, fuel),
                    _ => (st1, o),
                }
            },
        }
    }
}

/// What running the command `a` does from `st`.
pub open spec fn dispatch_spec(st: State, a: Seq<Seq<char>>, fuel: nat) -> (State, Outcome)
    decreases fuel, 1int, 0int,
{
    let n = a.len();
    let j = find_from(st.table, a[0], 0);
    if j < 0 {
        (st, Outcome::Error(invalid_command_message(a[0])))
    } else {
        match st.table[j].1 {
            CommandView::SetVar => if !(2 <= n <= 3) {
                (st, arity_outcome(a[0], "varName ?newValue?"@))
            } else if n == 2 {
                if st.stack.last().contains_key(a[1]) {
                    (st, Outcome::Value(st.stack.last()[a[1]]))
                } else {
                    (st, Outcome::Error(no_such_variable_message(a[1])))
                }
            } else {
                (
                    State {
                        stack: st.stack.update(
                            st.stack.len() - 1,
                            st.stack.last().insert(a[1], a[2]),
                        ),
                        table: st.table,
                    },
                    Outcome::Value(a[2]),
                )
            },
            CommandView::DefineProc => if n != 4 {
                (st, arity_outcome(a[0], "name args body"@))
            } else {
                match elements_from(a[2], 0) {
                    Err(m) => (st, Outcome::Error(m)),
                    Ok(ps) => (
                        State {
                            stack: st.stack,
                            table: add_binding(st.table, a[1], CommandView::Procedure(ps, a[3])),
                        },
                        Outcome::Value(Seq::empty()),
                    ),
                }
            },
            CommandView::Return => if n > 2 {
                (st, arity_outcome(a[0], "?value?"@))
            } else if n == 2 {
                (st, Outcome::Return(a[1]))
            } else {
                (st, Outcome::Return(Seq::empty()))
            },
            CommandView::Break => if n != 1 {
                (st, arity_outcome(a[0], Seq::empty()))
            } else {
                (st, Outcome::Break)
            },
            CommandView::Continue => if n != 1 {
                (st, arity_outcome(a[0], Seq::empty()))
            } else {
                (st, Outcome::Continue)
            },
            CommandView::Procedure(ps, b) => if n != ps.len() + 1 {
                (st, arity_outcome(a[0], join(ps, " "@)))
            } else if fuel == 0 {
                (st, Outcome::Error(too_deep_message()))
            } else {
                let st1 = State {
                    stack: st.stack.push(bound_frame(ps, a, ps.len() as int)),
                    table: st.table,
                };
                let (st2, o) = eval_spec(st1, b, (fuel - 1) as nat);
                (
                    State { stack: st2.stack.drop_last(), table: st2.table },
                    match o {
                        Outcome::Return(v) => Outcome::Value(v),
                        other => other,
                    },
                )
            },
        }
    }
}

/// An interpreter: its call stack of variable frames and its command table.
pub struct Interp {
    scope: ScopeStack,
    commands: Vec<(String, Command)>,
}

/// How many evaluations may nest inside one another.
pub const NESTING_LIMIT: usize = 1000;

impl Interp {
    /// The interpreter's call stack.
    pub closed spec fn stack(&self) -> Seq<Map<Seq<char>, Seq<char>>> {
        self.scope@
    }

    /// The names that the command table binds.
    pub closed spec fn command_names(&self) -> Seq<Seq<char>> {
        self.commands@.map_values(|e: (String, Command)| e.0@)
    }

    /// The command table: each binding's name and command, in order.
    pub closed spec fn table(&self) -> Seq<(Seq<char>, CommandView)> {
        self.commands@.map_values(|e: (String, Command)| (e.0@, e.1@))
    }

    /// The state that evaluation reads and changes.
    pub open spec fn state(&self) -> State {
        State { stack: self.stack(), table: self.table() }
    }

    /// The first binding of `name` in the command table, the one that a
    /// command of that name runs, is `c`.
    pub open spec fn bound_to(&self, name: Seq<char>, c: CommandView) -> bool {
        let j = find_from(self.table(), name, 0);
        j >= 0 && self.table()[j].1 == c
    }

    /// Whether the command table binds `name`.
    pub open spec fn has_command(&self, name: Seq<char>) -> bool {
        self.command_names().contains(name)
    }

    /// An interpreter with the built-in commands and a global frame with no
    /// variables.
    pub fn new() -> (r: Interp)
        ensures
            r.stack() == seq![Map::<Seq<char>, Seq<char>>::empty()],
            r.table() == seq![
                ("set"@, CommandView::SetVar),
                ("proc"@, CommandView::DefineProc),
                ("return"@, CommandView::Return),
                ("break"@, CommandView::Break),
                ("continue"@, CommandView::Continue),
            ],
            r.bound_to("set"@, CommandView::SetVar),
            r.bound_to("proc"@, CommandView::DefineProc),
            r.bound_to("return"@, CommandView::Return),
            r.bound_to("break"@, CommandView::Break),
            r.bound_to("continue"@, CommandView::Continue),
    {
        let mut commands: Vec<(String, Command)> = Vec::new();
        commands.push((String::from_str("set"), Command::SetVar));
        commands.push((String::from_str("proc"), Command::DefineProc));
        commands.push((String::from_str("return"), Command::Return));
        commands.push((String::from_str("break"), Command::Break));
        commands.push((String::from_str("continue"), Command::Continue));
        let r = Interp { scope: ScopeStack::new(), commands };
        assert(r.table() =~= seq![
            ("set"@, CommandView::SetVar),
            ("proc"@, CommandView::DefineProc),
            ("return"@, CommandView::Return),
            ("break"@, CommandView::Break),
            ("continue"@, CommandView::Continue),
        ]);
        proof {
            reveal_strlit("set");
            reveal_strlit("proc");
            reveal_strlit("return");
            reveal_strlit("break");
            reveal_strlit("continue");
            let t = r.table();
            assert("set"@.len() == 3 && "proc"@.len() == 4 && "return"@.len() == 6
                && "break"@.len() == 5 && "continue"@.len() == 8);
            assert(t[0].0 == "set"@ && t[1].0 == "proc"@ && t[2].0 == "return"@ && t[3].0
                == "break"@);
            assert(t[0].0 != "proc"@ && t[0].0 != "return"@ && t[0].0 != "break"@ && t[0].0
                != "continue"@);
            assert(t[1].0 != "return"@ && t[1].0 != "break"@ && t[1].0 != "continue"@);
            assert(t[2].0 != "break"@ && t[2].0 != "continue"@);
            assert(t[3].0 != "continue"@);
            assert(find_from(t, "continue"@, 4) == 4);
            assert(find_from(t, "break"@, 3) == 3);
            assert(find_from(t, "return"@, 2) == 2);
            assert(find_from(t, "proc"@, 1) == 1);
            assert(find_from(t, "return"@, 1) == 2);
            assert(find_from(t, "break"@, 2) == 3);
            assert(find_from(t, "break"@, 1) == 3);
            assert(find_from(t, "continue"@, 3) == 4);
            assert(find_from(t, "continue"@, 2) == 4);
            assert(find_from(t, "continue"@, 1) == 4);
        }
        r
    }

    /// Binds `name` to `cmd`, in place of any earlier binding of it.
    pub fn add_command(&mut self, name: &str, cmd: Command)
        ensures
            final(self).stack() == old(self).stack(),
            final(self).table() == add_binding(old(self).table(), name@, cmd@),
            final(self).bound_to(name@, cmd@),
            final(self).has_command(name@),
            forall|n: Seq<char>| old(self).has_command(n) ==> final(self).has_command(n),
    {
        let ghost old_names = self.command_names();
        match self.find_command(name) {
            Some(i) => {
                let ghost c = cmd@;
                self.commands.set(i, (String::from_str(name), cmd));
                assert(self.table() =~= old(self).table().update(i as int, (name@, c)));
                proof {
                    lemma_find_update(old(self).table(), name@, 0, i as int, (name@, c));
                }
                assert(self.command_names() =~= old_names.update(i as int, name@));
                assert(self.command_names()[i as int] == name@);
                assert forall|n: Seq<char>| old_names.contains(n) implies self.command_names().contains(n) by {
                    let k = choose|k: int| 0 <= k < old_names.len() && old_names[k] == n;
                    assert(self.command_names()[k] == n);
                }
            },
            None => {
                let ghost c = cmd@;
                self.commands.push((String::from_str(name), cmd));
                assert(self.table() =~= old(self).table().push((name@, c)));
                proof {
                    lemma_find_push(old(self).table(), name@, 0, (name@, c));
                }
                assert(self.command_names() =~= old_names.push(name@));
                assert(self.command_names()[old_names.len() as int] == name@);
                assert forall|n: Seq<char>| old_names.contains(n) implies self.command_names().contains(n) by {
                    let k = choose|k: int| 0 <= k < old_names.len() && old_names[k] == n;
                    assert(self.command_names()[k] == n);
                }
            },
        }
    }

    /// Removes every binding of `name`; the other bindings stay.
    pub fn remove_command(&mut self, name: &str)
        ensures
            final(self).stack() == old(self).stack(),
            !final(self).has_command(name@),
            forall|n: Seq<char>| n != name@ && old(self).has_command(n) ==> final(self).has_command(n),
    {
        let mut i: usize = 0;
        while i < self.commands.len()
            invariant
                i <= self.commands@.len(),
                self.stack() == old(self).stack(),
                forall|j: int| 0 <= j < i ==> self.command_names()[j] != name@,
                forall|n: Seq<char>| n != name@ && old(self).has_command(n) ==> self.has_command(n),
            decreases self.commands@.len() - i,
        {
            if same_text(self.commands[i].0.as_str(), name) {
                let ghost before = self.command_names();
                let _ = self.commands.remove(i);
                assert(self.command_names() =~= before.remove(i as int));
                assert forall|n: Seq<char>| n != name@ && before.contains(n) implies self.command_names().contains(n) by {
                    let k = choose|k: int| 0 <= k < before.len() && before[k] == n;
                    if k < i {
                        assert(self.command_names()[k] == n);
                    } else {
                        assert(k != i);
                        assert(self.command_names()[k - 1] == n);
                    }
                }
            } else {
                i = i + 1;
            }
        }
        assert forall|k: int| 0 <= k < self.command_names().len() implies self.command_names()[k] != name@ by {}
    }

    fn find_command(&self, name: &str) -> (r: Option<usize>)
        ensures
            r matches Some(i) ==> i < self.commands@.len() && self.command_names()[i as int]
                == name@ && forall|j: int| 0 <= j < i ==> self.command_names()[j] != name@,
            r is None ==> !self.has_command(name@),
            r matches Some(i) ==> i as int == find_from(self.table(), name@, 0),
            r is None ==> find_from(self.table(), name@, 0) == -1,
    {
        let mut i: usize = 0;
        while i < self.commands.len()
            invariant
                i <= self.commands@.len(),
                forall|j: int| 0 <= j < i ==> self.command_names()[j] != name@,
                find_from(self.table(), name@, i as int) == find_from(self.table(), name@, 0),
            decreases self.commands@.len() - i,
        {
            assert(self.table()[i as int].0 == self.command_names()[i as int]);
            if same_text(self.commands[i].0.as_str(), name) {
                return Some(i);
            }
            i = i + 1;
        }
        None
    }
}

fn too_deep() -> (r: InterpResult)
    ensures
        error_text(r) == Some(too_deep_message()),
{
    Err(ResultCode::Error(String::from_str("too many nested evaluations (infinite loop?)")))
}

fn as_strs(argv: &Vec<String>) -> (r: Vec<&str>)
    ensures
        r@.len() == argv@.len(),
        forall|k: int| 0 <= k < argv@.len() ==> (#[trigger] r@[k])@ == argv@[k]@,
{
    let mut r: Vec<&str> = Vec::new();
    let mut k: usize = 0;
    while k < argv.len()
        invariant
            k <= argv@.len(),
            r@.len() == k,
            forall|j: int| 0 <= j < k ==> (#[trigger] r@[j])@ == argv@[j]@,
        decreases argv@.len() - k,
    {
        r.push(argv[k].as_str());
        k = k + 1;
    }
    r
}

fn join_params(params: &Vec<String>) -> (r: String)
    ensures
        r@ == join(params@.map_values(|p: String| p@), " "@),
{
    let ghost ps = params@.map_values(|p: String| p@);
    let mut r = String::new();
    let mut k: usize = 0;
    assert(ps.take(0) =~= Seq::<Seq<char>>::empty());
    while k < params.len()
        invariant
            k <= params@.len(),
            ps == params@.map_values(|p: String| p@),
            r@ == join(ps.take(k as int), " "@),
        decreases params@.len() - k,
    {
        if k > 0 {
            r.append(" ");
        }
        r.append(params[k].as_str());
        assert(ps.take(k + 1).drop_last() =~= ps.take(k as int));
        if k == 0 {
            assert(ps.take(1) =~= seq![ps[0]]);
        }
        k = k + 1;
    }
    assert(ps.take(params@.len() as int) =~= ps);
    r
}

impl Interp {
    /// Evaluates `script` as the interpreter's top-level caller does: the
    /// outcome of its last command, or the first outcome other than `Ok`.
    /// Whatever the outcome, the call stack is as deep after the call as
    /// before it, and no frame but the current one has changed.
    pub fn eval(&mut self, script: &str) -> (r: InterpResult)
        requires
            old(self).stack().len() >= 1,
        ensures
            final(self).stack().len() == old(self).stack().len(),
            outer_frames_kept(old(self).stack(), final(self).stack()),
            (final(self).state(), outcome_of(r)) == eval_spec(
                old(self).state(),
                script@,
                NESTING_LIMIT as nat,
            ),
    {
        self.eval_script(script, NESTING_LIMIT)
    }

    /// The value of one word: the text of a brace-grouped word as it stands;
    /// for any other word its pieces, each variable read in the current frame
    /// and each nested script evaluated, joined left to right.
    pub fn substitute(&mut self, word: &Word) -> (r: InterpResult)
        requires
            old(self).stack().len() >= 1,
        ensures
            final(self).stack().len() == old(self).stack().len(),
            outer_frames_kept(old(self).stack(), final(self).stack()),
            word.kind == WordKind::Brace ==> (r matches Ok(v) && v@ == word.text@),
            word.kind != WordKind::Brace ==> (pieces_from(word.text@, 0) matches Err(m)
                ==> error_text(r) == Some(m)),
            word.kind != WordKind::Brace && pieces_from(word.text@, 0) is Ok && !has_script(
                pieces_from(word.text@, 0)->Ok_0,
            ) ==> final(self).stack() == old(self).stack() && word_outcome(
                assemble(pieces_from(word.text@, 0)->Ok_0, old(self).stack().last()),
                r,
            ),
            (final(self).state(), outcome_of(r)) == word_spec(
                old(self).state(),
                word@,
                NESTING_LIMIT as nat,
            ),
    {
        self.substitute_word(word, NESTING_LIMIT)
    }

    /// Runs the command that `argv` names, with `argv` as its arguments.
    pub fn dispatch(&mut self, argv: &Vec<String>) -> (r: InterpResult)
        requires
            old(self).stack().len() >= 1,
            argv@.len() >= 1,
        ensures
            final(self).stack().len() == old(self).stack().len(),
            outer_frames_kept(old(self).stack(), final(self).stack()),
            (final(self).state(), outcome_of(r)) == dispatch_spec(
                old(self).state(),
                argv@.map_values(|x: String| x@),
                NESTING_LIMIT as nat,
            ),
    {
        self.dispatch_at(argv, NESTING_LIMIT)
    }

    /// Reads a variable of the current frame.
    pub fn get_var(&self, name: &str) -> (r: InterpResult)
        requires
            self.stack().len() >= 1,
        ensures
            crate::scope::read_outcome(self.stack().last(), name@, r),
    {
        self.scope.get(name)
    }

    /// The depth of the call stack, the global frame included.
    pub fn depth(&self) -> (n: usize)
        ensures
            n == self.stack().len(),
    {
        self.scope.depth()
    }

    fn eval_script(&mut self, script: &str, fuel: usize) -> (r: InterpResult)
        requires
            old(self).stack().len() >= 1,
        ensures
            final(self).stack().len() == old(self).stack().len(),
            outer_frames_kept(old(self).stack(), final(self).stack()),
            (final(self).state(), outcome_of(r)) == eval_spec(old(self).state(), script@, fuel as nat),
        decreases fuel, 3usize,
    {
        if fuel == 0 {
            return too_deep();
        }
        let w = chars_of(script);
        let mut result: InterpResult = Ok(String::new());
        let mut i: usize = 0;
        let ghost goal = eval_spec(old(self).state(), script@, fuel as nat);
        while i < w.len()
            invariant
                i <= w@.len(),
                w@ == script@,
                fuel >= 1,
                self.stack().len() == old(self).stack().len(),
                outer_frames_kept(old(self).stack(), self.stack()),
                self.stack().len() >= 1,
                goal == eval_spec(old(self).state(), script@, fuel as nat),
                goal == eval_from(self.state(), w@, i as int, outcome_of(result), fuel as nat),
            decreases w@.len() - i,
        {
            match parse_command(&w, i) {
                Err(m) => {
                    return Err(ResultCode::Error(m));
                },
                Ok((words, n)) => {
                    let ghost wv = crate::lexer::words_view(words@);
                    if words.len() > 0 {
                        let ghost start = self.state();
                        assert(goal == eval_from(self.state(), w@, i as int, outcome_of(result), fuel as nat));
                        let mut argv: Vec<String> = Vec::new();
                        let mut k: usize = 0;
                        assert(argv@.map_values(|x: String| x@) =~= Seq::<Seq<char>>::empty());
                        while k < words.len()
                            invariant
                                k <= words@.len(),
                                argv@.len() == k,
                                fuel >= 1,
                                self.stack().len() == old(self).stack().len(),
                                outer_frames_kept(old(self).stack(), self.stack()),
                                self.stack().len() >= 1,
                                wv == crate::lexer::words_view(words@),
                                goal == eval_spec(old(self).state(), script@, fuel as nat),
                                command_at(w@, i as int) == Ok::<(Seq<(WordKind, Seq<char>)>, int), Seq<char>>((wv, n as int)),
                                i < n <= w@.len(),
                                w@ == script@,
                                goal == eval_from(start, w@, i as int, outcome_of(result), fuel as nat),
                                words_spec(start, wv, 0, Seq::empty(), fuel as nat) == words_spec(
                                    self.state(),
                                    wv,
                                    k as int,
                                    argv@.map_values(|x: String| x@),
                                    fuel as nat,
                                ),
                            decreases words@.len() - k,
                        {
                            assert(wv[k as int] == words@[k as int]@);
                            match self.substitute_word(&words[k], fuel) {
                                Ok(v) => {
                                    let ghost before = argv@.map_values(|x: String| x@);
                                    argv.push(v);
                                    assert(argv@.map_values(|x: String| x@) =~= before.push(v@));
                                },
                                Err(e) => {
                                    return Err(e);
                                },
                            }
                            k = k + 1;
                        }
                        let r = self.dispatch_at(&argv, fuel);
                        if r.is_err() {
                            return r;
                        }
                        result = r;
                    }
                    if n <= i {
                        return result;
                    }
                    i = n;
                },
            }
        }
        result
    }

    fn substitute_word(&mut self, word: &Word, fuel: usize) -> (r: InterpResult)
        requires
            old(self).stack().len() >= 1,
            fuel >= 1,
        ensures
            final(self).stack().len() == old(self).stack().len(),
            outer_frames_kept(old(self).stack(), final(self).stack()),
            word.kind == WordKind::Brace ==> (r matches Ok(v) && v@ == word.text@),
            word.kind != WordKind::Brace ==> (pieces_from(word.text@, 0) matches Err(m)
                ==> error_text(r) == Some(m)),
            word.kind != WordKind::Brace && pieces_from(word.text@, 0) is Ok && !has_script(
                pieces_from(word.text@, 0)->Ok_0,
            ) ==> final(self).stack() == old(self).stack() && word_outcome(
                assemble(pieces_from(word.text@, 0)->Ok_0, old(self).stack().last()),
                r,
            ),
            (final(self).state(), outcome_of(r)) == word_spec(old(self).state(), word@, fuel as nat),
        decreases fuel, 2usize,
    {
        if word.kind == WordKind::Brace {
            return Ok(word.text.clone());
        }
        let ghost goal = word_spec(old(self).state(), word@, fuel as nat);
        let w = chars_of(word.text.as_str());
        let pieces = match parse_pieces(&w) {
            Ok(p) => p,
            Err(m) => {
                return Err(ResultCode::Error(m));
            },
        };
        let ghost ps = pieces_view(pieces@);
        let ghost vars = self.stack().last();
        let mut out = String::new();
        let mut k: usize = 0;
        assert(ps.take(0) =~= Seq::<PieceView>::empty());
        while k < pieces.len()
            invariant
                k <= pieces@.len(),
                fuel >= 1,
                word.kind != WordKind::Brace,
                pieces_from(word.text@, 0) == Ok::<Seq<PieceView>, Seq<char>>(ps),
                ps == pieces_view(pieces@),
                vars == old(self).stack().last(),
                goal == word_spec(old(self).state(), word@, fuel as nat),
                goal == pieces_spec(self.state(), ps, k as int, out@, fuel as nat),
                !has_script(ps) ==> self.stack() == old(self).stack() && assemble(ps.take(k as int), vars)
                    == Ok::<Seq<char>, Seq<char>>(out@),
                self.stack().len() == old(self).stack().len(),
                outer_frames_kept(old(self).stack(), self.stack()),
                self.stack().len() >= 1,
            decreases pieces@.len() - k,
        {
            assert(ps.take(k + 1).drop_last() =~= ps.take(k as int));
            assert(ps[k as int] == pieces@[k as int]@);
            match &pieces[k] {
                Piece::Text(s) => out.append(s.as_str()),
                Piece::Var(name) => {
                    match self.scope.get(name.as_str()) {
                        Ok(v) => out.append(v.as_str()),
                        Err(e) => {
                            proof {
                                if !has_script(ps) {
                                    lemma_assemble_error_stays(ps, vars, k + 1);
                                }
                            }
                            return Err(e);
                        },
                    }
                },
                Piece::Script(s) => {
                    assert(has_script(ps)) by {
                        assert(ps[k as int] is Script);
                    }
                    match self.eval_script(s.as_str(), fuel - 1) {
                        Ok(v) => out.append(v.as_str()),
                        Err(e) => {
                            return Err(e);
                        },
                    }
                },
            }
            k = k + 1;
        }
        assert(ps.take(pieces@.len() as int) =~= ps);
        Ok(out)
    }

    fn dispatch_at(&mut self, argv: &Vec<String>, fuel: usize) -> (r: InterpResult)
        requires
            old(self).stack().len() >= 1,
            argv@.len() >= 1,
            fuel >= 1,
        ensures
            final(self).stack().len() == old(self).stack().len(),
            outer_frames_kept(old(self).stack(), final(self).stack()),
            (final(self).state(), outcome_of(r)) == dispatch_spec(
                old(self).state(),
                argv@.map_values(|x: String| x@),
                fuel as nat,
            ),
        decreases fuel, 1usize,
    {
        let strs = as_strs(argv);
        let ghost a = argv@.map_values(|x: String| x@);
        proof {
            assert(crate::text::words_of(strs@.subrange(0, 1)) =~= seq![a[0]]);
        }
        let i = match self.find_command(argv[0].as_str()) {
            Some(i) => i,
            None => {
                let mut msg = String::from_str("invalid command name \"");
                msg.append(argv[0].as_str());
                msg.append("\"");
                return Err(ResultCode::Error(msg));
            },
        };
        assert(self.table()[i as int].1 == self.commands@[i as int].1@);
        assert(a[0] == argv@[0]@);
        let body = match &self.commands[i].1 {
            Command::SetVar => {
                let ok = check_args(1, strs.as_slice(), 2, 3, "varName ?newValue?");
                if ok.is_err() {
                    return ok;
                }
                if argv.len() == 2 {
                    return self.scope.get(argv[1].as_str());
                } else {
                    self.scope.set(argv[1].as_str(), argv[2].as_str());
                    return Ok(argv[2].clone());
                }
            },
            Command::DefineProc => {
                let ok = check_args(1, strs.as_slice(), 4, 4, "name args body");
                if ok.is_err() {
                    return ok;
                }
                let params = match get_list(argv[2].as_str()) {
                    Ok(p) => p,
                    Err(e) => {
                        return Err(e);
                    },
                };
                assert(params@.map_values(|p: String| p@) =~= crate::list::strings_view(params@));
                self.add_command(
                    argv[1].as_str(),
                    Command::Procedure { params, body: argv[3].clone() },
                );
                return Ok(String::new());
            },
            Command::Return => {
                let ok = check_args(1, strs.as_slice(), 1, 2, "?value?");
                if ok.is_err() {
                    return ok;
                }
                if argv.len() == 2 {
                    return Err(ResultCode::Return(argv[1].clone()));
                } else {
                    return Err(ResultCode::Return(String::new()));
                }
            },
            Command::Break => {
                let ok = check_args(1, strs.as_slice(), 1, 1, "");
                proof {
                    reveal_strlit("");
                }
                if ok.is_err() {
                    return ok;
                }
                return Err(ResultCode::Break);
            },
            Command::Continue => {
                let ok = check_args(1, strs.as_slice(), 1, 1, "");
                proof {
                    reveal_strlit("");
                }
                if ok.is_err() {
                    return ok;
                }
                return Err(ResultCode::Continue);
            },
            Command::Procedure { params, body } => {
                if argv.len() - 1 != params.len() {
                    let sig = join_params(params);
                    return wrong_args(argv[0].as_str(), sig.as_str());
                }
                self.scope.push_frame();
                let mut k: usize = 0;
                while k < params.len()
                    invariant
                        k <= params@.len(),
                        argv@.len() == params@.len() + 1,
                        self.scope@.len() == old(self).stack().len() + 1,
                        self.table() == old(self).table(),
                        a == argv@.map_values(|x: String| x@),
                        self.scope@ == old(self).stack().push(
                            bound_frame(params@.map_values(|p: String| p@), a, k as int),
                        ),
                        forall|j: int| 0 <= j < old(self).stack().len() ==> #[trigger] self.scope@[j]
                            == old(self).stack()[j],
                    decreases params@.len() - k,
                {
                    self.scope.set(params[k].as_str(), argv[k + 1].as_str());
                    assert(self.scope@ =~= old(self).stack().push(
                        bound_frame(params@.map_values(|p: String| p@), a, k + 1),
                    ));
                    k = k + 1;
                }
                body.clone()
            },
        };
        let ghost mid = self.state();
        let outcome = self.eval_script(body.as_str(), fuel - 1);
        let r = self.scope.finish_call(outcome);
        assert(self.stack() =~= old(self).stack());
        r
    }
}

fn wrong_args(name: &str, sig: &str) -> (r: InterpResult)
    ensures
        outcome_of(r) == arity_outcome(name@, sig@),
{
    let mut msg = String::from_str("wrong # args: should be \"");
    msg.append(name);
    msg.append(" ");
    msg.append(sig);
    msg.append("\"");
    assert(join(seq![name@], " "@) == name@);
    Err(ResultCode::Error(msg))
}

proof fn lemma_name_runs_to_end(w: Seq<char>, i: int)
    requires
        0 <= i <= w.len(),
        forall|k: int| i <= k < w.len() ==> is_name_char(#[trigger] w[k]),
    ensures
        name_end(w, i) == w.len(),
    decreases w.len() - i,
{
    if i < w.len() {
        lemma_name_runs_to_end(w, i + 1);
    }
}

/// A reference `$name` to a variable that the current frame does not hold is
/// always the error that names it, never an empty string.
pub proof fn lemma_unset_variable_is_error(name: Seq<char>, vars: Map<Seq<char>, Seq<char>>)
    requires
        name.len() > 0,
        forall|k: int| 0 <= k < name.len() ==> is_name_char(#[trigger] name[k]),
        !vars.contains_key(name),
    ensures
        pieces_from(seq!['$'] + name, 0) == Ok::<Seq<PieceView>, Seq<char>>(
            seq![PieceView::Var(name)],
        ),
        assemble(seq![PieceView::Var(name)], vars) == Err::<Seq<char>, Seq<char>>(
            no_such_variable_message(name),
        ),
{
    let w = seq!['$'] + name;
    assert forall|k: int| 1 <= k < w.len() implies is_name_char(#[trigger] w[k]) by {
        assert(w[k] == name[k - 1]);
    }
    lemma_name_runs_to_end(w, 1);
    assert(w[1] == name[0]);
    assert(w.subrange(1, w.len() as int) =~= name);
    assert(pieces_from(w, w.len() as int) == Ok::<Seq<PieceView>, Seq<char>>(Seq::empty()));
    assert(seq![PieceView::Var(name)] + Seq::<PieceView>::empty() =~= seq![PieceView::Var(name)]);
    let ps = seq![PieceView::Var(name)];
    assert(ps.drop_last() =~= Seq::<PieceView>::empty());
    assert(assemble(ps.drop_last(), vars) == Ok::<Seq<char>, Seq<char>>(Seq::empty()));
    assert(ps.last() == PieceView::Var(name));
}

/// A word made of two bracketed scripts is valued by running the first, then
/// the second in the state that the first left, and joining their values
/// left to right as they came back, with no further substitution in them.
pub proof fn lemma_nested_scripts_joined(
    st: State,
    a: Seq<char>,
    b: Seq<char>,
    kind: WordKind,
    fuel: nat,
)
    requires
        fuel >= 1,
        kind != WordKind::Brace,
        bracket_free(a),
        bracket_free(b),
        eval_spec(st, a, (fuel - 1) as nat).1 is Value,
        eval_spec(eval_spec(st, a, (fuel - 1) as nat).0, b, (fuel - 1) as nat).1 is Value,
    ensures
        word_spec(st, (kind, seq!['['] + a + seq![']'] + seq!['['] + b + seq![']']), fuel) == (
            eval_spec(eval_spec(st, a, (fuel - 1) as nat).0, b, (fuel - 1) as nat).0,
            Outcome::Value(
                eval_spec(st, a, (fuel - 1) as nat).1->Value_0 + eval_spec(
                    eval_spec(st, a, (fuel - 1) as nat).0,
                    b,
                    (fuel - 1) as nat,
                ).1->Value_0,
            ),
        ),
{
    let w = seq!['['] + a + seq![']'] + seq!['['] + b + seq![']'];
    lemma_scripts_in_order(a, b);
    let ps = seq![PieceView::Script(a), PieceView::Script(b)];
    let (st1, o1) = eval_spec(st, a, (fuel - 1) as nat);
    let (st2, o2) = eval_spec(st1, b, (fuel - 1) as nat);
    let v1 = o1->Value_0;
    let v2 = o2->Value_0;
    assert(pieces_spec(st2, ps, 2, Seq::<char>::empty() + v1 + v2, fuel) == (st2, Outcome::Value(
        Seq::<char>::empty() + v1 + v2,
    )));
    assert(pieces_spec(st1, ps, 1, Seq::<char>::empty() + v1, fuel) == pieces_spec(
        st2,
        ps,
        2,
        Seq::<char>::empty() + v1 + v2,
        fuel,
    ));
    assert(pieces_spec(st, ps, 0, Seq::<char>::empty(), fuel) == pieces_spec(
        st1,
        ps,
        1,
        Seq::<char>::empty() + v1,
        fuel,
    ));
    assert(Seq::<char>::empty() + v1 + v2 =~= v1 + v2);
}

proof fn lemma_skip_blank(w: Seq<char>, i: int)
    requires
        0 <= i <= w.len(),
        forall|k: int| 0 <= k < w.len() ==> is_space(#[trigger] w[k]),
    ensures
        skip_space(w, i) == w.len(),
    decreases w.len() - i,
{
    if i < w.len() {
        lemma_skip_blank(w, i + 1);
    }
}

/// A script that holds no command, only whitespace, leaves the state as it
/// is and gives an empty `Ok` value.
pub proof fn lemma_blank_script(st: State, w: Seq<char>, fuel: nat)
    requires
        fuel >= 1,
        forall|k: int| 0 <= k < w.len() ==> is_space(#[trigger] w[k]),
    ensures
        eval_spec(st, w, fuel) == (st, Outcome::Value(Seq::empty())),
{
    lemma_skip_blank(w, 0);
    if w.len() > 0 {
        assert(command_at(w, 0) == Ok::<(Seq<(WordKind, Seq<char>)>, int), Seq<char>>(
            (Seq::empty(), w.len() as int),
        ));
        assert(eval_from(st, w, w.len() as int, Outcome::Value(Seq::empty()), fuel) == (
            st,
            Outcome::Value(Seq::empty()),
        ));
    }
}

} // verus!
