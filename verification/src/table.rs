//! The session's symbol tables: the variable-value map and the
//! function-body map, each a sequence of entries viewed as a `Map` where the
//! last write wins.
use crate::ast::{rep_of, wf, Node, NodeView};
use vstd::prelude::*;

verus! {

/// The map described by the first `n` entries of a key-value list, later
/// entries overriding earlier ones.
pub open spec fn map_of_prefix(s: Seq<(u8, u64)>, n: int) -> Map<u8, u64>
    decreases n,
{
    if n <= 0 || n > s.len() {
        Map::empty()
    } else {
        map_of_prefix(s, n - 1).insert(s[n - 1].0, s[n - 1].1)
    }
}

/// A prefix that does not reach a pushed entry is unaffected by the push.
proof fn lemma_prefix_push(s: Seq<(u8, u64)>, e: (u8, u64), n: int)
    requires
        n <= s.len(),
    ensures
        map_of_prefix(s.push(e), n) == map_of_prefix(s, n),
    decreases n,
{
    if n > 0 {
        lemma_prefix_push(s, e, n - 1);
    }
}

/// The variable table: scalar bindings by single-letter name.
pub struct VariableTable {
    entries: Vec<(u8, u64)>,
}

impl View for VariableTable {
    type V = Map<u8, u64>;

    closed spec fn view(&self) -> Map<u8, u64> {
        map_of_prefix(self.entries@, self.entries@.len() as int)
    }
}

/// Looking a key up in the whole list equals looking it up in a prefix when
/// no later entry carries the key.
proof fn lemma_prefix_lookup(s: Seq<(u8, u64)>, n: int, name: u8)
    requires
        0 <= n <= s.len(),
        forall|j: int| n <= j < s.len() ==> (#[trigger] s[j]).0 != name,
    ensures
        map_of_prefix(s, s.len() as int).contains_key(name) == map_of_prefix(
            s,
            n,
        ).contains_key(name),
        map_of_prefix(s, s.len() as int).contains_key(name) ==> map_of_prefix(
            s,
            s.len() as int,
        )[name] == map_of_prefix(s, n)[name],
    decreases s.len() - n,
{
    if n < s.len() {
        lemma_prefix_lookup(s, n + 1, name);
    }
}

impl VariableTable {
    /// An empty table.
    pub fn new() -> (r: VariableTable)
        ensures
            r@ == Map::<u8, u64>::empty(),
    {
        VariableTable { entries: Vec::new() }
    }

    /// The binding of `name`, if any.
    pub fn get(&self, name: u8) -> (r: Option<u64>)
        ensures
            match r {
                Some(v) => self@.contains_key(name) && self@[name] == v,
                None => !self@.contains_key(name),
            },
    {
        let ghost s = self.entries@;
        let mut i: usize = self.entries.len();
        while i > 0
            invariant
                i <= s.len(),
                s == self.entries@,
                forall|j: int| i as int <= j < s.len() ==> (#[trigger] s[j]).0 != name,
            decreases i,
        {
            i = i - 1;
            let e = self.entries[i];
            if e.0 == name {
                proof {
                    lemma_prefix_lookup(s, i + 1, name);
                }
                return Some(e.1);
            }
        }
        proof {
            lemma_prefix_lookup(s, 0, name);
        }
        None
    }

    /// Binds `name` to `value`, replacing any prior binding.
    pub fn insert(&mut self, name: u8, value: u64)
        ensures
            final(self)@ == old(self)@.insert(name, value),
    {
        self.remove(name);
        let ghost s1 = self.entries@;
        self.entries.push((name, value));
        proof {
            lemma_prefix_push(s1, (name, value), s1.len() as int);
            assert(self@ =~= old(self)@.insert(name, value));
        }
    }

    /// Removes the binding of `name`; removing an absent name is a no-op.
    pub fn remove(&mut self, name: u8)
        ensures
            final(self)@ == old(self)@.remove(name),
    {
        let ghost s = self.entries@;
        let mut out: Vec<(u8, u64)> = Vec::new();
        let mut i: usize = 0;
        while i < self.entries.len()
            invariant
                i <= s.len(),
                s == self.entries@,
                map_of_prefix(out@, out@.len() as int) == map_of_prefix(s, i as int).remove(name),
            decreases s.len() - i,
        {
            let ghost out0 = out@;
            let e = self.entries[i];
            if e.0 != name {
                out.push(e);
                proof {
                    lemma_prefix_push(out0, e, out0.len() as int);
                    assert(map_of_prefix(out@, out@.len() as int) =~= map_of_prefix(
                        s,
                        i + 1,
                    ).remove(name));
                }
            } else {
                proof {
                    assert(map_of_prefix(out@, out@.len() as int) =~= map_of_prefix(
                        s,
                        i + 1,
                    ).remove(name));
                }
            }
            i = i + 1;
        }
        self.entries = out;
        proof {
            assert(self@ =~= old(self)@.remove(name));
        }
    }
}

/// The map described by the first `n` entries of the function list: name to
/// declared parameter letter and body view. Only well-formed bodies are
/// visible, so every tree the table hands out is well-formed.
pub open spec fn fmap_of_prefix(s: Seq<(u8, u8, Node)>, n: int) -> Map<u8, (u8, NodeView)>
    decreases n,
{
    if n <= 0 || n > s.len() {
        Map::empty()
    } else if wf(rep_of(s[n - 1].2)) {
        fmap_of_prefix(s, n - 1).insert(s[n - 1].0, (s[n - 1].1, rep_of(s[n - 1].2)))
    } else {
        fmap_of_prefix(s, n - 1)
    }
}

proof fn lemma_fprefix_push(s: Seq<(u8, u8, Node)>, e: (u8, u8, Node), n: int)
    requires
        n <= s.len(),
    ensures
        fmap_of_prefix(s.push(e), n) == fmap_of_prefix(s, n),
    decreases n,
{
    if n > 0 {
        lemma_fprefix_push(s, e, n - 1);
    }
}

proof fn lemma_fprefix_lookup(s: Seq<(u8, u8, Node)>, n: int, name: u8)
    requires
        0 <= n <= s.len(),
        forall|j: int| n <= j < s.len() ==> ((#[trigger] s[j]).0 != name || !wf(rep_of(s[j].2))),
    ensures
        fmap_of_prefix(s, s.len() as int).contains_key(name) == fmap_of_prefix(
            s,
            n,
        ).contains_key(name),
        fmap_of_prefix(s, s.len() as int).contains_key(name) ==> fmap_of_prefix(
            s,
            s.len() as int,
        )[name] == fmap_of_prefix(s, n)[name],
    decreases s.len() - n,
{
    if n < s.len() {
        lemma_fprefix_lookup(s, n + 1, name);
    }
}

/// The function table: per name, the declared parameter letter and the
/// function's body tree, owned by the table.
pub struct FunctionTable {
    entries: Vec<(u8, u8, Node)>,
}

impl View for FunctionTable {
    type V = Map<u8, (u8, NodeView)>;

    closed spec fn view(&self) -> Map<u8, (u8, NodeView)> {
        fmap_of_prefix(self.entries@, self.entries@.len() as int)
    }
}

impl FunctionTable {
    /// An empty table.
    pub fn new() -> (r: FunctionTable)
        ensures
            r@ == Map::<u8, (u8, NodeView)>::empty(),
    {
        FunctionTable { entries: Vec::new() }
    }

    /// The declared parameter and a copy of the body of `name`, if defined.
    pub fn get(&self, name: u8) -> (r: Option<(u8, Node)>)
        ensures
            match r {
                Some(pb) => self@.contains_key(name) && self@[name] == (pb.0, pb.1@) && wf(pb.1@),
                None => !self@.contains_key(name),
            },
    {
        let ghost s = self.entries@;
        let mut i: usize = self.entries.len();
        while i > 0
            invariant
                i <= s.len(),
                s == self.entries@,
                forall|j: int| i as int <= j < s.len() ==> ((#[trigger] s[j]).0 != name || !wf(
                    rep_of(s[j].2),
                )),
            decreases i,
        {
            i = i - 1;
            if self.entries[i].0 == name && self.entries[i].2.well_formed() {
                proof {
                    lemma_fprefix_lookup(s, i + 1, name);
                }
                let body = self.entries[i].2.duplicate();
                let param = self.entries[i].1;
                return Some((param, body));
            }
        }
        proof {
            lemma_fprefix_lookup(s, 0, name);
        }
        None
    }

    /// Defines `name` with parameter letter `param` and body `body`,
    /// replacing any prior definition.
    pub fn insert(&mut self, name: u8, param: u8, body: Node)
        requires
            wf(body@),
        ensures
            final(self)@ == old(self)@.insert(name, (param, body@)),
    {
        self.remove(name);
        let ghost s1 = self.entries@;
        let ghost bodyrep = body@;
        self.entries.push((name, param, body));
        proof {
            lemma_fprefix_push(s1, self.entries@.last(), s1.len() as int);
            assert(self@ =~= old(self)@.insert(name, (param, bodyrep)));
        }
    }

    /// Removes the definition of `name`; removing an absent name is a no-op.
    pub fn remove(&mut self, name: u8)
        ensures
            final(self)@ == old(self)@.remove(name),
    {
        let ghost s = self.entries@;
        let mut out: Vec<(u8, u8, Node)> = Vec::new();
        let mut i: usize = 0;
        while i < self.entries.len()
            invariant
                i <= s.len(),
                s == self.entries@,
                fmap_of_prefix(out@, out@.len() as int) == fmap_of_prefix(s, i as int).remove(
                    name,
                ),
            decreases s.len() - i,
        {
            let ghost out0 = out@;
            let e_name = self.entries[i].0;
            let e_param = self.entries[i].1;
            if e_name != name {
                let e_body = self.entries[i].2.duplicate();
                out.push((e_name, e_param, e_body));
                proof {
                    lemma_fprefix_push(out0, out@.last(), out0.len() as int);
                    assert(fmap_of_prefix(out@, out@.len() as int) =~= fmap_of_prefix(
                        s,
                        i + 1,
                    ).remove(name));
                }
            } else {
                proof {
                    assert(fmap_of_prefix(out@, out@.len() as int) =~= fmap_of_prefix(
                        s,
                        i + 1,
                    ).remove(name));
                }
            }
            i = i + 1;
        }
        self.entries = out;
        proof {
            assert(self@ =~= old(self)@.remove(name));
        }
    }
}

} // verus!
