use vstd::prelude::*;

verus! {

/// One recorded name suffix and the message offset at which it was written.
#[derive(Debug)]
pub struct NameOffset {
    name: String,
    offset: u16,
}

/// The table that message compression keeps while one message is serialized:
/// for each name suffix already written, the offset of its first byte.
///
/// Its view is the map from suffix to offset.
#[derive(Debug)]
pub struct NameOffsets {
    entries: Vec<NameOffset>,
}

/// The map that a list of entries stands for; a later entry replaces an
/// earlier one of the same name.
pub closed spec fn entries_map(entries: Seq<NameOffset>) -> Map<Seq<char>, u16>
    decreases entries.len(),
{
    if entries.len() == 0 {
        Map::empty()
    } else {
        entries_map(entries.drop_last()).insert(entries.last().name@, entries.last().offset)
    }
}

proof fn lemma_entries_map_found(entries: Seq<NameOffset>, i: int, name: Seq<char>)
    requires
        0 <= i < entries.len(),
        entries[i].name@ == name,
        forall|j: int| i < j < entries.len() ==> entries[j].name@ != name,
    ensures
        entries_map(entries).contains_key(name),
        entries_map(entries)[name] == entries[i].offset,
    decreases entries.len(),
{
    if i < entries.len() - 1 {
        lemma_entries_map_found(entries.drop_last(), i, name);
    }
}

proof fn lemma_entries_map_absent(entries: Seq<NameOffset>, name: Seq<char>)
    requires
        forall|j: int| 0 <= j < entries.len() ==> entries[j].name@ != name,
    ensures
        !entries_map(entries).contains_key(name),
    decreases entries.len(),
{
    if entries.len() > 0 {
        lemma_entries_map_absent(entries.drop_last(), name);
    }
}

impl View for NameOffsets {
    type V = Map<Seq<char>, u16>;

    closed spec fn view(&self) -> Map<Seq<char>, u16> {
        entries_map(self.entries@)
    }
}

impl NameOffsets {
    /// The empty table.
    pub fn new() -> (table: NameOffsets)
        ensures
            table@ == Map::<Seq<char>, u16>::empty(),
    {
        NameOffsets { entries: Vec::new() }
    }

    /// The offset recorded for `name`, if there is one.
    pub fn get(&self, name: &String) -> (offset: Option<u16>)
        ensures
            offset == (if self@.contains_key(name@) {
                Some(self@[name@])
            } else {
                None::<u16>
            }),
    {
        let mut i: usize = self.entries.len();
        while i > 0
            invariant
                i <= self.entries@.len(),
                forall|j: int| i <= j < self.entries@.len() ==> self.entries@[j].name@ != name@,
            decreases i,
        {
            i -= 1;
            if self.entries[i].name == *name {
                proof {
                    lemma_entries_map_found(self.entries@, i as int, name@);
                }
                return Some(self.entries[i].offset);
            }
        }
        proof {
            lemma_entries_map_absent(self.entries@, name@);
        }
        None
    }

    /// Records `offset` for `name`, in place of what was recorded for it before.
    pub fn insert(&mut self, name: String, offset: u16)
        ensures
            final(self)@ == old(self)@.insert(name@, offset),
    {
        self.entries.push(NameOffset { name, offset });
        assert(self.entries@.drop_last() == old(self).entries@);
    }
}

} // verus!
