//! The table of symbol addresses: from the name of each defined symbol to
//! its offset in the merged code.
use vstd::prelude::*;

verus! {

/// One defined symbol: its name and its offset in the merged code.
struct Definition {
    name: String,
    address: u128,
}

/// A map from names to addresses in which no name occurs twice.
pub struct SymbolTable {
    entries: Vec<Definition>,
}

/// Whether no two entries have the same name.
spec fn distinct_names(entries: Seq<Definition>) -> bool {
    forall|i: int, j: int|
        0 <= i < j < entries.len() ==> (#[trigger] entries[i]).name@ != (#[trigger] entries[j]).name@
}

/// The map that a sequence of entries stands for.
spec fn table_of(entries: Seq<Definition>) -> Map<Seq<char>, nat>
    decreases entries.len(),
{
    if entries.len() == 0 {
        Map::empty()
    } else {
        table_of(entries.drop_last()).insert(entries.last().name@, entries.last().address as nat)
    }
}

/// With distinct names, the map holds exactly the entries.
proof fn lemma_table_of(entries: Seq<Definition>)
    requires
        distinct_names(entries),
    ensures
        forall|name: Seq<char>|
            table_of(entries).contains_key(name) <==> exists|i: int|
                0 <= i < entries.len() && (#[trigger] entries[i]).name@ == name,
        forall|i: int|
            0 <= i < entries.len() ==> table_of(entries).contains_key(
                (#[trigger] entries[i]).name@,
            ) && table_of(entries)[entries[i].name@] == entries[i].address,
    decreases entries.len(),
{
    if entries.len() > 0 {
        let front = entries.drop_last();
        let last = entries.last();
        assert(distinct_names(front)) by {
            assert forall|i: int, j: int| 0 <= i < j < front.len() implies (#[trigger] front[i]).name@
                != (#[trigger] front[j]).name@ by {
                assert(front[i] == entries[i] && front[j] == entries[j]);
            }
        }
        lemma_table_of(front);
        assert forall|name: Seq<char>| table_of(entries).contains_key(name) implies exists|i: int|
            0 <= i < entries.len() && (#[trigger] entries[i]).name@ == name by {
            if name == last.name@ {
                assert(entries[entries.len() - 1].name@ == name);
            } else {
                assert(table_of(front).contains_key(name));
                let i = choose|i: int| 0 <= i < front.len() && (#[trigger] front[i]).name@ == name;
                assert(front[i] == entries[i]);
            }
        }
        assert forall|i: int| 0 <= i < entries.len() implies table_of(entries).contains_key(
            (#[trigger] entries[i]).name@,
        ) && table_of(entries)[entries[i].name@] == entries[i].address by {
            if i < entries.len() - 1 {
                assert(front[i] == entries[i]);
                assert(entries[i].name@ != entries[entries.len() - 1].name@);
            }
        }
    }
}

impl View for SymbolTable {
    type V = Map<Seq<char>, nat>;

    closed spec fn view(&self) -> Map<Seq<char>, nat> {
        table_of(self.entries@)
    }
}

/// The position of the entry for `name`, if there is one.
fn find(entries: &Vec<Definition>, name: &String) -> (at: Option<usize>)
    ensures
        match at {
            Some(i) => i < entries@.len() && entries@[i as int].name@ == name@,
            None => forall|k: int| 0 <= k < entries@.len() ==> (#[trigger] entries@[k]).name@ != name@,
        },
{
    let mut i: usize = 0;
    while i < entries.len()
        invariant
            i <= entries@.len(),
            forall|k: int| 0 <= k < i ==> (#[trigger] entries@[k]).name@ != name@,
        decreases entries@.len() - i,
    {
        if entries[i].name == *name {
            return Some(i);
        }
        i = i + 1;
    }
    None
}

impl SymbolTable {
    #[verifier::type_invariant]
    spec fn well_formed(self) -> bool {
        distinct_names(self.entries@)
    }

    /// The table without any symbol.
    pub fn new() -> (table: SymbolTable)
        ensures
            table@ == Map::<Seq<char>, nat>::empty(),
    {
        SymbolTable { entries: Vec::new() }
    }

    /// The address recorded for `name`, if there is one.
    pub fn get(&self, name: &String) -> (address: Option<u128>)
        ensures
            address is Some <==> self@.contains_key(name@),
            address matches Some(a) ==> a == self@[name@],
    {
        proof {
            use_type_invariant(self);
            lemma_table_of(self.entries@);
        }
        match find(&self.entries, name) {
            Some(i) => Some(self.entries[i].address),
            None => None,
        }
    }

    /// Records `address` for `name`, in place of an address that the table
    /// held for that name.
    pub fn insert(self, name: String, address: u128) -> (table: SymbolTable)
        ensures
            table@ == self@.insert(name@, address as nat),
    {
        proof {
            use_type_invariant(&self);
            lemma_table_of(self.entries@);
        }
        let ghost before = self.entries@;
        let ghost key = name@;
        let mut entries = self.entries;
        match find(&entries, &name) {
            Some(i) => {
                entries.set(i, Definition { name, address });
                proof {
                    let after = entries@;
                    assert(distinct_names(after)) by {
                        assert forall|a: int, b: int| 0 <= a < b < after.len() implies (
                        #[trigger] after[a]).name@ != (#[trigger] after[b]).name@ by {
                            assert(after[a].name@ == before[a].name@);
                            assert(after[b].name@ == before[b].name@);
                        }
                    }
                    lemma_table_of(after);
                    assert forall|n: Seq<char>| table_of(after).contains_key(n) implies table_of(
                        before,
                    ).contains_key(n) by {
                        let k = choose|k: int| 0 <= k < after.len() && (#[trigger] after[k]).name@ == n;
                        assert(before[k].name@ == n);
                    }
                    assert forall|n: Seq<char>| table_of(before).contains_key(n) implies table_of(
                        after,
                    ).contains_key(n) by {
                        let k = choose|k: int| 0 <= k < before.len() && (#[trigger] before[k]).name@ == n;
                        assert(after[k].name@ == n);
                    }
                    assert forall|n: Seq<char>| #[trigger]
                        table_of(after).contains_key(n) implies table_of(after)[n] == table_of(
                        before,
                    ).insert(key, address as nat)[n] by {
                        let k = choose|k: int| 0 <= k < after.len() && (#[trigger] after[k]).name@ == n;
                        assert(before[k].name@ == n);
                        if k != i {
                            assert(after[k] == before[k]);
                            assert(before[k].name@ != before[i as int].name@);
                        }
                    }
                    assert(table_of(after) =~= table_of(before).insert(key, address as nat));
                }
            },
            None => {
                entries.push(Definition { name, address });
                proof {
                    assert(entries@.drop_last() =~= before);
                }
            },
        }
        SymbolTable { entries }
    }
}

} // verus!
