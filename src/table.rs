//! The transition table: at most one rule per (state, symbol) key, where a
//! later rule for a key replaces the earlier one and reports what it replaced.
use vstd::prelude::*;

use crate::rule::{is_blank, is_blank_line, parse_line, parse_transition, Direction, Rule, Transition};

verus! {

/// The key of a rule: the state it applies in and the symbol it reads.
pub type Key = (Seq<char>, char);

/// What a rule does: the next state, the symbol written, the movement.
pub type Act = (Seq<char>, char, Direction);

pub open spec fn key_of(r: Rule) -> Key {
    (r.from, r.read)
}

pub open spec fn act_of(r: Rule) -> Act {
    (r.to, r.write, r.dir)
}

/// The map that a list of rules defines, a later rule for a key winning.
pub open spec fn map_of(s: Seq<Rule>) -> Map<Key, Act>
    decreases s.len(),
{
    if s.len() == 0 {
        Map::empty()
    } else {
        map_of(s.drop_last()).insert(key_of(s.last()), act_of(s.last()))
    }
}

/// No two rules of the list share a key.
pub open spec fn keys_unique(s: Seq<Rule>) -> bool {
    forall|i: int, j: int| 0 <= i < s.len() && 0 <= j < s.len() && i != j ==> key_of(s[i]) != key_of(s[j])
}

/// The table after a rule is stored: its key now maps to its action.
pub open spec fn stored(m: Map<Key, Act>, r: Rule) -> Map<Key, Act> {
    m.insert(key_of(r), act_of(r))
}

/// What storing a rule discards: the action held for its key, if any.
pub open spec fn displaced(m: Map<Key, Act>, r: Rule) -> Option<Act> {
    if m.contains_key(key_of(r)) {
        Some(m[key_of(r)])
    } else {
        None
    }
}

proof fn lemma_map_at(s: Seq<Rule>, j: int)
    requires
        keys_unique(s),
        0 <= j < s.len(),
    ensures
        map_of(s).contains_key(key_of(s[j])),
        map_of(s)[key_of(s[j])] == act_of(s[j]),
    decreases s.len(),
{
    if j < s.len() - 1 {
        assert(s.drop_last()[j] == s[j]);
        assert(keys_unique(s.drop_last()));
        lemma_map_at(s.drop_last(), j);
        assert(key_of(s[j]) != key_of(s[s.len() - 1]));
    }
}

proof fn lemma_map_absent(s: Seq<Rule>, k: Key)
    requires
        forall|i: int| 0 <= i < s.len() ==> key_of(s[i]) != k,
    ensures
        !map_of(s).contains_key(k),
    decreases s.len(),
{
    if s.len() > 0 {
        assert forall|i: int| 0 <= i < s.drop_last().len() implies key_of(s.drop_last()[i]) != k by {
            assert(s.drop_last()[i] == s[i]);
        }
        lemma_map_absent(s.drop_last(), k);
        assert(key_of(s[s.len() - 1]) != k);
    }
}

proof fn lemma_map_update(s: Seq<Rule>, j: int, r: Rule)
    requires
        keys_unique(s),
        0 <= j < s.len(),
        key_of(s[j]) == key_of(r),
    ensures
        map_of(s.update(j, r)) == map_of(s).insert(key_of(r), act_of(r)),
    decreases s.len(),
{
    let u = s.update(j, r);
    if j == s.len() - 1 {
        assert(u.drop_last() =~= s.drop_last());
        assert(map_of(u) =~= map_of(s).insert(key_of(r), act_of(r)));
    } else {
        assert(u.drop_last() =~= s.drop_last().update(j, r));
        assert(keys_unique(s.drop_last()));
        lemma_map_update(s.drop_last(), j, r);
        assert(key_of(s[j]) != key_of(s[s.len() - 1]));
        assert(map_of(u) =~= map_of(s).insert(key_of(r), act_of(r)));
    }
}

proof fn lemma_map_len(s: Seq<Rule>)
    requires
        keys_unique(s),
    ensures
        map_of(s).dom().finite(),
        map_of(s).dom().len() == s.len(),
    decreases s.len(),
{
    if s.len() > 0 {
        let t = s.drop_last();
        assert(keys_unique(t));
        lemma_map_len(t);
        assert forall|i: int| 0 <= i < t.len() implies key_of(t[i]) != key_of(s.last()) by {
            assert(t[i] == s[i]);
        }
        lemma_map_absent(t, key_of(s.last()));
    }
}

/// Two rules for one key, stored one after the other in a table that held
/// no rule for that key: the first displaces nothing, the second displaces
/// exactly the first one's action, and only the second's action remains.
pub proof fn law_later_rule_wins(m: Map<Key, Act>, r1: Rule, r2: Rule)
    requires
        key_of(r1) == key_of(r2),
        act_of(r1) != act_of(r2),
        !m.contains_key(key_of(r1)),
    ensures
        displaced(m, r1) is None,
        displaced(stored(m, r1), r2) == Some(act_of(r1)),
        stored(stored(m, r1), r2)[key_of(r1)] == act_of(r2),
        stored(stored(m, r1), r2).dom() == stored(m, r1).dom(),
        stored(stored(m, r1), r2).dom() == m.dom().insert(key_of(r1)),
{
    assert(stored(stored(m, r1), r2).dom() =~= stored(m, r1).dom());
    assert(stored(m, r1).dom() =~= m.dom().insert(key_of(r1)));
}

/// The outcome of a rule as executable values.
#[derive(Clone, Debug)]
pub struct Action {
    pub to: String,
    pub write: char,
    pub dir: Direction,
}

impl View for Action {
    type V = Act;

    open spec fn view(&self) -> Act {
        (self.to@, self.write, self.dir)
    }
}

/// What one line of a description did to the table.
#[derive(Debug)]
pub enum LineOutcome {
    /// The line was empty once trimmed; nothing changed.
    Blank,
    /// The line's rule was stored under a key that held none.
    Added,
    /// The line's rule (second) replaced this action (first), held for its
    /// key until now.
    Remapped(Action, Transition),
    /// The line is no rule; nothing changed.
    Unparseable,
}

/// A transition table, as a list of rules with distinct keys.
pub struct TransitionTable {
    entries: Vec<Transition>,
}

impl View for TransitionTable {
    type V = Map<Key, Act>;

    open spec fn view(&self) -> Map<Key, Act> {
        map_of(self.rules())
    }
}

impl TransitionTable {
    pub closed spec fn rules(&self) -> Seq<Rule> {
        self.entries@.map_values(|t: Transition| t@)
    }

    pub closed spec fn wf(&self) -> bool {
        keys_unique(self.rules())
    }

    pub fn new() -> (r: TransitionTable)
        ensures
            r.wf(),
            r@ == Map::<Key, Act>::empty(),
    {
        let r = TransitionTable { entries: Vec::new() };
        assert(r.rules() =~= Seq::<Rule>::empty());
        r
    }

    /// The number of rules held: one per key.
    pub fn len(&self) -> (r: usize)
        requires
            self.wf(),
        ensures
            self@.dom().finite(),
            r == self@.dom().len(),
    {
        proof {
            lemma_map_len(self.rules());
        }
        self.entries.len()
    }

    /// The rule at position `i`, for listing the table.
    pub fn get(&self, i: usize) -> (r: &Transition)
        requires
            i < self@.dom().len(),
            self.wf(),
        ensures
            self@.contains_key((r.from@, r.read)),
            self@[(r.from@, r.read)] == (r.to@, r.write, r.dir),
    {
        proof {
            lemma_map_len(self.rules());
            lemma_map_at(self.rules(), i as int);
        }
        &self.entries[i]
    }

    fn position(&self, from: &String, read: char) -> (r: Option<usize>)
        ensures
            match r {
                Some(i) => i < self.entries@.len() && key_of(self.rules()[i as int]) == (from@, read),
                None => forall|i: int| 0 <= i < self.rules().len() ==> key_of(self.rules()[i]) != (from@, read),
            },
    {
        let mut i: usize = 0;
        while i < self.entries.len()
            invariant
                i <= self.entries@.len(),
                forall|m: int| 0 <= m < i ==> key_of(self.rules()[m]) != (from@, read),
            decreases self.entries@.len() - i,
        {
            if self.entries[i].read == read && self.entries[i].from == *from {
                return Some(i);
            }
            i = i + 1;
        }
        None
    }

    /// Stores a rule under its key, returning the action it replaced.
    pub fn insert(&mut self, t: Transition) -> (r: Option<Action>)
        requires
            old(self).wf(),
        ensures
            final(self).wf(),
            final(self)@ == stored(old(self)@, t@),
            match r {
                Some(a) => displaced(old(self)@, t@) == Some(a@),
                None => displaced(old(self)@, t@) is None,
            },
    {
        match self.position(&t.from, t.read) {
            Some(i) => {
                proof {
                    lemma_map_at(self.rules(), i as int);
                    lemma_map_update(self.rules(), i as int, t@);
                }
                let prev = Action {
                    to: self.entries[i].to.clone(),
                    write: self.entries[i].write,
                    dir: self.entries[i].dir,
                };
                let ghost before = self.rules();
                self.entries.set(i, t);
                assert(self.rules() =~= before.update(i as int, t@));
                Some(prev)
            },
            None => {
                proof {
                    lemma_map_absent(self.rules(), key_of(t@));
                }
                let ghost before = self.rules();
                let ghost tv = t@;
                self.entries.push(t);
                assert(self.rules() =~= before.push(tv));
                assert(self.rules().drop_last() =~= before);
                None
            },
        }
    }

    /// The action for a state reading a symbol; `None` where no rule applies.
    pub fn lookup(&self, state: &String, symbol: char) -> (r: Option<Action>)
        requires
            self.wf(),
        ensures
            match r {
                Some(a) => self@.contains_key((state@, symbol)) && self@[(state@, symbol)] == a@,
                None => !self@.contains_key((state@, symbol)),
            },
    {
        match self.position(state, symbol) {
            Some(i) => {
                proof {
                    lemma_map_at(self.rules(), i as int);
                }
                Some(
                    Action {
                        to: self.entries[i].to.clone(),
                        write: self.entries[i].write,
                        dir: self.entries[i].dir,
                    },
                )
            },
            None => {
                proof {
                    lemma_map_absent(self.rules(), (state@, symbol));
                }
                None
            },
        }
    }

    /// Takes one line of a description: a rule is stored, reporting the
    /// action it replaced; a blank or unparseable line leaves the table as
    /// it was.
    pub fn add_line(&mut self, line: &str) -> (r: LineOutcome)
        requires
            old(self).wf(),
        ensures
            final(self).wf(),
            match parse_line(line@) {
                Some(rule) => final(self)@ == stored(old(self)@, rule) && match r {
                    LineOutcome::Added => displaced(old(self)@, rule) is None,
                    LineOutcome::Remapped(a, t) => displaced(old(self)@, rule) == Some(a@) && t@
                        == rule,
                    _ => false,
                },
                None => final(self)@ == old(self)@ && (if is_blank(line@) {
                    r is Blank
                } else {
                    r is Unparseable
                }),
            },
    {
        match parse_transition(line) {
            Some(t) => {
                let kept = t.copied();
                match self.insert(t) {
                    Some(a) => LineOutcome::Remapped(a, kept),
                    None => LineOutcome::Added,
                }
            },
            None => {
                if is_blank_line(line) {
                    LineOutcome::Blank
                } else {
                    LineOutcome::Unparseable
                }
            },
        }
    }
}

} // verus!
