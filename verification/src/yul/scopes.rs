//! What is known of a contract while it is compiled.

use vstd::prelude::*;

use crate::text;
use crate::yul::types::{FixedSize, Mapping};

verus! {

/// What a name of a contract stands for.
#[derive(Debug, Clone, PartialEq, Eq, Hash)]
pub enum ContractDef {
    Function { params: Vec<FixedSize>, returned: Option<FixedSize> },
    Mapping { map: Mapping },
}

/// Models `ContractDef`.
#[verifier::ext_equal]
pub enum DefModel {
    Function { params: Seq<FixedSize>, returned: Option<FixedSize> },
    Mapping { map: Mapping },
}

impl View for ContractDef {
    type V = DefModel;

    open spec fn view(&self) -> DefModel {
        match *self {
            ContractDef::Function { params, returned } => DefModel::Function {
                params: params@,
                returned,
            },
            ContractDef::Mapping { map } => DefModel::Mapping { map },
        }
    }
}

/// Whether the entry at position `i` has the name `name`.
pub open spec fn names(entries: Seq<(String, ContractDef)>, i: int, name: Seq<char>) -> bool {
    0 <= i < entries.len() && entries[i].0@ == name
}

/// Definitions by name.
#[derive(Debug, Clone, PartialEq, Eq, Hash)]
pub struct Defs {
    /// No two entries have the same name.
    pub entries: Vec<(String, ContractDef)>,
}

impl View for Defs {
    type V = Map<Seq<char>, DefModel>;

    open spec fn view(&self) -> Map<Seq<char>, DefModel> {
        Map::new(
            |name: Seq<char>| exists|i: int| names(self.entries@, i, name),
            |name: Seq<char>| self.entries@[choose|i: int| names(self.entries@, i, name)].1@,
        )
    }
}

impl Defs {
    /// Whether no two entries have the same name.
    pub open spec fn wf(self) -> bool {
        forall|i: int, j: int|
            0 <= i < j < self.entries@.len() ==> #[trigger] self.entries@[i].0@
                != #[trigger] self.entries@[j].0@
    }

    /// Makes an empty table.
    pub fn new() -> (defs: Defs)
        ensures
            defs.wf(),
            defs@ == Map::<Seq<char>, DefModel>::empty(),
    {
        let defs = Defs { entries: Vec::new() };
        assert(defs@ =~= Map::<Seq<char>, DefModel>::empty());
        defs
    }

    /// Returns the position of a name.
    fn position(&self, name: &String) -> (position: Option<usize>)
        requires
            self.wf(),
        ensures
            match position {
                Some(i) => names(self.entries@, i as int, name@) && self@.contains_key(name@)
                    && self@[name@] == self.entries@[i as int].1@,
                None => !self@.contains_key(name@),
            },
    {
        let mut i: usize = 0;
        while i < self.entries.len()
            invariant
                i <= self.entries@.len(),
                self.wf(),
                forall|j: int| 0 <= j < i ==> !names(self.entries@, j, name@),
            decreases self.entries@.len() - i,
        {
            if self.entries[i].0 == *name {
                proof {
                    assert(names(self.entries@, i as int, name@));
                    let k = choose|k: int| names(self.entries@, k, name@);
                    assert(k == i);
                }
                return Some(i);
            }
            i += 1;
        }
        None
    }

    /// Returns what a name stands for.
    pub fn get(&self, name: &String) -> (def: Option<&ContractDef>)
        requires
            self.wf(),
        ensures
            match def {
                Some(def) => self@.contains_key(name@) && def@ == self@[name@],
                None => !self@.contains_key(name@),
            },
    {
        match self.position(name) {
            Some(i) => Some(&self.entries[i].1),
            None => None,
        }
    }

    /// Lets a name stand for `def`, whatever it stood for before.
    pub fn insert(&mut self, name: String, def: ContractDef)
        requires
            old(self).wf(),
        ensures
            final(self).wf(),
            final(self)@ == old(self)@.insert(name@, def@),
    {
        let ghost key = name@;
        match self.position(&name) {
            Some(i) => {
                self.entries.set(i, (name, def));
                proof {
                    lemma_inserted(*old(self), *self, i as int);
                }
            },
            None => {
                self.entries.push((name, def));
                proof {
                    let i = self.entries@.len() - 1;
                    assert forall|a: int, b: int| 0 <= a < b < self.entries@.len() implies
                        #[trigger] self.entries@[a].0@ != #[trigger] self.entries@[b].0@ by {
                        if b == i {
                            assert(!names(old(self).entries@, a, key));
                        }
                    }
                    lemma_inserted(*old(self), *self, i);
                }
            },
        }
    }
}

/// The name of an entry stands for what the entry says.
proof fn lemma_entry(defs: Defs, i: int)
    requires
        defs.wf(),
        0 <= i < defs.entries@.len(),
    ensures
        defs@.contains_key(defs.entries@[i].0@),
        defs@[defs.entries@[i].0@] == defs.entries@[i].1@,
{
    let name = defs.entries@[i].0@;
    assert(names(defs.entries@, i, name));
    let k = choose|k: int| names(defs.entries@, k, name);
    assert(k == i);
}

/// A name stands for the same in two tables that differ in the entry of another name.
proof fn lemma_others_stay(before: Defs, after: Defs, i: int, name: Seq<char>)
    requires
        before.wf(),
        after.wf(),
        0 <= i < after.entries@.len(),
        after.entries@.len() == before.entries@.len() || (after.entries@.len()
            == before.entries@.len() + 1 && i == before.entries@.len()),
        forall|j: int|
            0 <= j < before.entries@.len() && j != i ==> #[trigger] after.entries@[j]
                == before.entries@[j],
        after.entries@[i].0@ != name,
        i < before.entries@.len() ==> before.entries@[i].0@ != name,
    ensures
        before@.contains_key(name) <==> after@.contains_key(name),
        before@.contains_key(name) ==> before@[name] == after@[name],
{
    if before@.contains_key(name) {
        let k = choose|k: int| names(before.entries@, k, name);
        assert(after.entries@[k] == before.entries@[k]);
        lemma_entry(before, k);
        lemma_entry(after, k);
    }
    if after@.contains_key(name) {
        let k = choose|k: int| names(after.entries@, k, name);
        assert(k != i);
        assert(after.entries@[k] == before.entries@[k]);
        lemma_entry(before, k);
    }
}

/// A table with a new or another entry has that entry's definition inserted.
proof fn lemma_inserted(before: Defs, after: Defs, i: int)
    requires
        before.wf(),
        after.wf(),
        0 <= i < after.entries@.len(),
        after.entries@.len() == before.entries@.len() || (after.entries@.len()
            == before.entries@.len() + 1 && i == before.entries@.len()),
        forall|j: int|
            0 <= j < before.entries@.len() && j != i ==> #[trigger] after.entries@[j]
                == before.entries@[j],
        i < before.entries@.len() ==> before.entries@[i].0@ == after.entries@[i].0@,
    ensures
        after@ == before@.insert(after.entries@[i].0@, after.entries@[i].1@),
{
    let key = after.entries@[i].0@;
    let expected = before@.insert(key, after.entries@[i].1@);
    lemma_entry(after, i);
    assert forall|k: Seq<char>| #[trigger] after@.contains_key(k)
        <==> expected.contains_key(k) by {
        if k != key {
            lemma_others_stay(before, after, i, k);
        }
    }
    assert forall|k: Seq<char>| after@.contains_key(k) implies #[trigger] after@[k]
        == expected[k] by {
        if k != key {
            lemma_others_stay(before, after, i, k);
        }
    }
    assert(after@ =~= expected);
}

/// The names of a contract: those that can be called from outside, in order, and what all of
/// them stand for.
#[derive(Debug, Clone, PartialEq, Eq, Hash)]
pub struct ContractScope {
    pub interface: Vec<String>,
    pub defs: Defs,
}

/// Models `ContractScope`.
#[verifier::ext_equal]
pub struct ScopeModel {
    pub interface: Seq<Seq<char>>,
    pub defs: Map<Seq<char>, DefModel>,
}

impl View for ContractScope {
    type V = ScopeModel;

    open spec fn view(&self) -> ScopeModel {
        ScopeModel { interface: text::texts(self.interface@), defs: self.defs@ }
    }
}

impl ScopeModel {
    /// Nothing is known yet.
    pub open spec fn empty() -> ScopeModel {
        ScopeModel { interface: Seq::empty(), defs: Map::empty() }
    }

    /// `name` is a mapping.
    pub open spec fn with_map(self, name: Seq<char>, map: Mapping) -> ScopeModel {
        ScopeModel { defs: self.defs.insert(name, DefModel::Mapping { map }), ..self }
    }

    /// `name` is a function, which can be called from outside if it is public.
    pub open spec fn with_function(
        self,
        name: Seq<char>,
        is_pub: bool,
        params: Seq<FixedSize>,
        returned: Option<FixedSize>,
    ) -> ScopeModel {
        ScopeModel {
            interface: if is_pub {
                self.interface.push(name)
            } else {
                self.interface
            },
            defs: self.defs.insert(name, DefModel::Function { params, returned }),
        }
    }
}

impl ContractScope {
    /// Makes a scope in which nothing is known.
    pub fn new() -> (scope: ContractScope)
        ensures
            scope.defs.wf(),
            scope@ == ScopeModel::empty(),
    {
        let scope = ContractScope { interface: Vec::new(), defs: Defs::new() };
        assert(scope@ =~= ScopeModel::empty());
        scope
    }

    /// Makes `name` a mapping.
    pub fn add_map(&mut self, name: String, map: Mapping)
        requires
            old(self).defs.wf(),
        ensures
            final(self).defs.wf(),
            final(self)@ == old(self)@.with_map(name@, map),
    {
        self.defs.insert(name, ContractDef::Mapping { map });
    }

    /// Makes `name` a function.
    pub fn add_function(
        &mut self,
        name: String,
        is_pub: bool,
        params: Vec<FixedSize>,
        returned: Option<FixedSize>,
    )
        requires
            old(self).defs.wf(),
        ensures
            final(self).defs.wf(),
            final(self)@ == old(self)@.with_function(name@, is_pub, params@, returned),
    {
        if is_pub {
            self.interface.push(name.clone());
        }
        self.defs.insert(name, ContractDef::Function { params, returned });
        assert(self@ =~= old(self)@.with_function(name@, is_pub, params@, returned));
    }
}

} // verus!
