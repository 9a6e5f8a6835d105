//! Variable frames and the call stack of frames.
use vstd::prelude::*;

use crate::text::same_text;
use crate::types::{InterpResult, ResultCode};

verus! {

/// The variables that a run of (name, value) entries defines; a later entry
/// for a name overrides an earlier one.
pub open spec fn entries_map(s: Seq<(String, String)>) -> Map<Seq<char>, Seq<char>>
    decreases s.len(),
{
    if s.len() == 0 {
        Map::empty()
    } else {
        entries_map(s.drop_last()).insert(s.last().0@, s.last().1@)
    }
}

/// The entry at `i` is the last one named `name`.
pub open spec fn last_entry_for(s: Seq<(String, String)>, name: Seq<char>, i: int) -> bool {
    0 <= i < s.len() && s[i].0@ == name && forall|j: int| i < j < s.len() ==> (#[trigger] s[j]).0@
        != name
}

proof fn lemma_entries_lookup(s: Seq<(String, String)>, name: Seq<char>, i: int)
    requires
        last_entry_for(s, name, i),
    ensures
        entries_map(s).contains_key(name),
        entries_map(s)[name] == s[i].1@,
    decreases s.len(),
{
    if i < s.len() - 1 {
        assert(s.drop_last()[i] == s[i]);
        assert forall|j: int| i < j < s.drop_last().len() implies (#[trigger] s.drop_last()[j]).0@
            != name by {
            assert(s.drop_last()[j] == s[j]);
        }
        lemma_entries_lookup(s.drop_last(), name, i);
        assert(s[s.len() - 1].0@ != name);
    }
}

proof fn lemma_entries_absent(s: Seq<(String, String)>, name: Seq<char>)
    requires
        forall|j: int| 0 <= j < s.len() ==> (#[trigger] s[j]).0@ != name,
    ensures
        !entries_map(s).contains_key(name),
    decreases s.len(),
{
    if s.len() > 0 {
        assert forall|j: int| 0 <= j < s.drop_last().len() implies (#[trigger] s.drop_last()[j]).0@
            != name by {
            assert(s.drop_last()[j] == s[j]);
        }
        lemma_entries_absent(s.drop_last(), name);
        assert(s[s.len() - 1].0@ != name);
    }
}

proof fn lemma_entries_update(s: Seq<(String, String)>, i: int, e: (String, String))
    requires
        last_entry_for(s, e.0@, i),
    ensures
        entries_map(s.update(i, e)) =~= entries_map(s).insert(e.0@, e.1@),
    decreases s.len(),
{
    let t = s.update(i, e);
    if i == s.len() - 1 {
        assert(t.drop_last() =~= s.drop_last());
    } else {
        assert(t.drop_last() =~= s.drop_last().update(i, e));
        assert forall|j: int| i < j < s.drop_last().len() implies (#[trigger] s.drop_last()[j]).0@
            != e.0@ by {
            assert(s.drop_last()[j] == s[j]);
        }
        lemma_entries_update(s.drop_last(), i, e);
        assert(s[s.len() - 1].0@ != e.0@);
    }
}

/// The variables of one call level.
pub struct Frame {
    entries: Vec<(String, String)>,
}

impl View for Frame {
    type V = Map<Seq<char>, Seq<char>>;

    closed spec fn view(&self) -> Map<Seq<char>, Seq<char>> {
        entries_map(self.entries@)
    }
}

impl Frame {
    /// A frame with no variables.
    pub fn new() -> (f: Frame)
        ensures
            f@ == Map::<Seq<char>, Seq<char>>::empty(),
    {
        Frame { entries: Vec::new() }
    }

    /// The value of `name` in this frame, if it is set.
    pub fn lookup(&self, name: &str) -> (r: Option<String>)
        ensures
            r matches Some(v) ==> self@.contains_key(name@) && v@ == self@[name@],
            r is None ==> !self@.contains_key(name@),
    {
        match self.find(name) {
            Some(i) => {
                proof {
                    lemma_entries_lookup(self.entries@, name@, i as int);
                }
                Some(self.entries[i].1.clone())
            },
            None => {
                proof {
                    lemma_entries_absent(self.entries@, name@);
                }
                None
            },
        }
    }

    /// Sets `name` to `value` in this frame.
    pub fn assign(&mut self, name: &str, value: &str)
        ensures
            final(self)@ == old(self)@.insert(name@, value@),
    {
        let entry = (String::from_str(name), String::from_str(value));
        match self.find(name) {
            Some(i) => {
                proof {
                    lemma_entries_update(self.entries@, i as int, entry);
                }
                self.entries.set(i, entry);
            },
            None => {
                assert(self.entries@.push(entry).drop_last() =~= self.entries@);
                self.entries.push(entry);
            },
        }
    }

    fn find(&self, name: &str) -> (r: Option<usize>)
        ensures
            r matches Some(i) ==> last_entry_for(self.entries@, name@, i as int),
            r is None ==> forall|j: int|
                0 <= j < self.entries@.len() ==> (#[trigger] self.entries@[j]).0@ != name@,
    {
        let mut i: usize = self.entries.len();
        while i > 0
            invariant
                i <= self.entries@.len(),
                forall|j: int|
                    i <= j < self.entries@.len() ==> (#[trigger] self.entries@[j]).0@ != name@,
            decreases i,
        {
            if same_text(self.entries[i - 1].0.as_str(), name) {
                return Some(i - 1);
            }
            i = i - 1;
        }
        None
    }
}

/// The message given for a read of a variable that is not set.
pub open spec fn no_such_variable_message(name: Seq<char>) -> Seq<char> {
    "can't read \""@ + name + "\": no such variable"@
}

/// The outcome of reading `name` in a frame whose variables are `vars`.
pub open spec fn read_outcome(vars: Map<Seq<char>, Seq<char>>, name: Seq<char>, r: InterpResult) -> bool {
    if vars.contains_key(name) {
        r matches Ok(v) && v@ == vars[name]
    } else {
        r matches Err(ResultCode::Error(m)) && m@ == no_such_variable_message(name)
    }
}

/// The call stack of variable frames: the global frame at the bottom, the
/// frame of the running procedure on top.
pub struct ScopeStack {
    frames: Vec<Frame>,
}

impl View for ScopeStack {
    type V = Seq<Map<Seq<char>, Seq<char>>>;

    closed spec fn view(&self) -> Seq<Map<Seq<char>, Seq<char>>> {
        self.frames@.map_values(|f: Frame| f@)
    }
}

fn read_frame(f: &Frame, name: &str) -> (r: InterpResult)
    ensures
        read_outcome(f@, name@, r),
{
    match f.lookup(name) {
        Some(v) => Ok(v),
        None => {
            let mut msg = String::from_str("can't read \"");
            msg.append(name);
            msg.append("\": no such variable");
            Err(ResultCode::Error(msg))
        },
    }
}

impl ScopeStack {
    /// A stack that holds the global frame alone, with no variables.
    pub fn new() -> (s: ScopeStack)
        ensures
            s@ == seq![Map::<Seq<char>, Seq<char>>::empty()],
    {
        let mut frames = Vec::new();
        frames.push(Frame::new());
        let s = ScopeStack { frames };
        assert(s@ =~= seq![Map::<Seq<char>, Seq<char>>::empty()]);
        s
    }

    /// The number of frames, the global one included.
    pub fn depth(&self) -> (n: usize)
        ensures
            n == self@.len(),
    {
        self.frames.len()
    }

    /// Enters a procedure: puts an empty frame on top.
    pub fn push_frame(&mut self)
        ensures
            final(self)@ == old(self)@.push(Map::<Seq<char>, Seq<char>>::empty()),
    {
        self.frames.push(Frame::new());
        assert(self@ =~= old(self)@.push(Map::<Seq<char>, Seq<char>>::empty()));
    }

    /// Leaves a procedure: discards the top frame. The global frame is never
    /// discarded.
    pub fn pop_frame(&mut self)
        requires
            old(self)@.len() > 1,
        ensures
            final(self)@ == old(self)@.drop_last(),
    {
        let _ = self.frames.pop();
        assert(self@ =~= old(self)@.drop_last());
    }

    /// Reads `name` in the current frame.
    pub fn get(&self, name: &str) -> (r: InterpResult)
        requires
            self@.len() >= 1,
        ensures
            read_outcome(self@.last(), name@, r),
    {
        read_frame(&self.frames[self.frames.len() - 1], name)
    }

    /// Reads `name` in the global frame.
    pub fn get_global(&self, name: &str) -> (r: InterpResult)
        requires
            self@.len() >= 1,
        ensures
            read_outcome(self@[0], name@, r),
    {
        read_frame(&self.frames[0], name)
    }

    /// Sets `name` to `value` in the current frame.
    pub fn set(&mut self, name: &str, value: &str)
        requires
            old(self)@.len() >= 1,
        ensures
            final(self)@ == old(self)@.update(
                old(self)@.len() - 1,
                old(self)@.last().insert(name@, value@),
            ),
    {
        let level = self.frames.len() - 1;
        self.assign_at(level, name, value);
    }

    /// Sets `name` to `value` in the global frame.
    pub fn set_global(&mut self, name: &str, value: &str)
        requires
            old(self)@.len() >= 1,
        ensures
            final(self)@ == old(self)@.update(0, old(self)@[0].insert(name@, value@)),
    {
        self.assign_at(0, name, value);
    }

    fn assign_at(&mut self, level: usize, name: &str, value: &str)
        requires
            level < old(self)@.len(),
        ensures
            final(self)@ == old(self)@.update(
                level as int,
                old(self)@[level as int].insert(name@, value@),
            ),
    {
        let mut f = self.frames.remove(level);
        f.assign(name, value);
        self.frames.insert(level, f);
        assert(self@ =~= old(self)@.update(
            level as int,
            old(self)@[level as int].insert(name@, value@),
        ));
    }
}

/// What a procedure call yields for the outcome of its body: a `Return`
/// becomes the call's value, anything else passes through.
pub open spec fn call_outcome(body: InterpResult) -> InterpResult {
    match body {
        Err(ResultCode::Return(v)) => Ok(v),
        other => other,
    }
}

impl ScopeStack {
    /// Leaves a procedure whose body ended with `body`: the procedure's frame
    /// is discarded whatever the outcome, and a `Return` is taken as the
    /// call's value.
    pub fn finish_call(&mut self, body: InterpResult) -> (r: InterpResult)
        requires
            old(self)@.len() > 1,
        ensures
            final(self)@ == old(self)@.drop_last(),
            r == call_outcome(body),
    {
        self.pop_frame();
        match body {
            Err(ResultCode::Return(v)) => Ok(v),
            other => other,
        }
    }
}

/// Entering a procedure and leaving it, however its body ended, gives back
/// the stack that was there before the call.
pub proof fn lemma_call_restores_stack(before: Seq<Map<Seq<char>, Seq<char>>>)
    ensures
        before.push(Map::<Seq<char>, Seq<char>>::empty()).drop_last() == before,
        before.push(Map::<Seq<char>, Seq<char>>::empty()).drop_last().len() == before.len(),
{
    assert(before.push(Map::<Seq<char>, Seq<char>>::empty()).drop_last() =~= before);
}

} // verus!
