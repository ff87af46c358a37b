use vstd::prelude::*;

verus! {

/// The part of a name after its final `.` (the whole name when it has none).
pub open spec fn fragment(name: Seq<char>) -> Seq<char>
    decreases name.len(),
{
    if name.len() == 0 {
        name
    } else if name.last() == '.' {
        Seq::empty()
    } else {
        fragment(name.drop_last()).push(name.last())
    }
}

/// The fragment is what follows position `p` when `p` follows the last `.`.
proof fn lemma_fragment_from(name: Seq<char>, p: int)
    requires
        0 <= p <= name.len(),
        p == 0 || name[p - 1] == '.',
        forall|j: int| p <= j < name.len() ==> name[j] != '.',
    ensures
        fragment(name) =~= name.subrange(p, name.len() as int),
    decreases name.len(),
{
    if name.len() > p {
        lemma_fragment_from(name.drop_last(), p);
    }
}

/// The bare name of a fully-qualified name: what follows its final `.`.
pub fn name_fragment(name: &String) -> (r: String)
    ensures
        r@ == fragment(name@),
{
    let s = name.as_str();
    let len = s.unicode_len();
    let mut p: usize = len;
    let mut stop = false;
    while p > 0 && !stop
        invariant
            p <= len,
            len == name@.len(),
            s@ == name@,
            stop ==> p > 0 && name@[p - 1] == '.',
            forall|j: int| p <= j < len ==> name@[j] != '.',
        decreases p + (if stop {
            0int
        } else {
            1int
        }),
    {
        if s.get_char(p - 1) == '.' {
            stop = true;
        } else {
            p = p - 1;
        }
    }
    proof {
        lemma_fragment_from(name@, p as int);
    }
    s.substring_char(p, len).to_owned()
}

/// A table from bare function names to weights (in `SCORE_SCALE` units).
pub struct SensitiveTable {
    entries: Vec<(String, u64)>,
    model: Ghost<Map<Seq<char>, u64>>,
}

impl View for SensitiveTable {
    type V = Map<Seq<char>, u64>;

    closed spec fn view(&self) -> Map<Seq<char>, u64> {
        self.model@
    }
}

/// The weight that a bare name carries: its entry's weight, 0 when absent.
pub open spec fn weight_of(table: Map<Seq<char>, u64>, name: Seq<char>) -> nat {
    if table.contains_key(name) {
        table[name] as nat
    } else {
        0
    }
}

impl SensitiveTable {
    /// The entries and the map agree.
    pub closed spec fn wf(&self) -> bool {
        &&& forall|i: int|
            0 <= i < self.entries@.len() ==> #[trigger] self.model@.contains_key(
                self.entries@[i].0@,
            ) && self.model@[self.entries@[i].0@] == self.entries@[i].1
        &&& forall|k: Seq<char>|
            #[trigger] self.model@.contains_key(k) ==> exists|i: int|
                0 <= i < self.entries@.len() && self.entries@[i].0@ == k
    }

    /// An empty table.
    pub fn new() -> (r: SensitiveTable)
        ensures
            r.wf(),
            r@ == Map::<Seq<char>, u64>::empty(),
    {
        SensitiveTable { entries: Vec::new(), model: Ghost(Map::empty()) }
    }

    /// Sets the weight of `name`, replacing any earlier one.
    pub fn insert(&mut self, name: String, weight: u64)
        requires
            old(self).wf(),
        ensures
            final(self).wf(),
            final(self)@ == old(self)@.insert(name@, weight),
    {
        let ghost new_model = self.model@.insert(name@, weight);
        let mut found = false;
        let mut i: usize = 0;
        let n = self.entries.len();
        while i < n
            invariant
                n == self.entries@.len(),
                i <= n,
                self.model@ == old(self).model@,
                found <==> exists|j: int| 0 <= j < i && self.entries@[j].0@ == name@,
                forall|j: int|
                    0 <= j < n ==> #[trigger] self.entries@[j].0@ == old(self).entries@[j].0@,
                forall|j: int|
                    0 <= j < n ==> (if j < i && self.entries@[j].0@ == name@ {
                        self.entries@[j].1 == weight
                    } else {
                        self.entries@[j].1 == old(self).entries@[j].1
                    }),
            decreases n - i,
        {
            if self.entries[i].0 == name {
                self.entries[i].1 = weight;
                found = true;
                assert(self.entries@[i as int].0@ == name@);
            } else {
                assert(self.entries@[i as int].0@ != name@);
            }
            i = i + 1;
        }
        if !found {
            self.entries.push((name, weight));
        }
        self.model = Ghost(new_model);
        proof {
            let ents = self.entries@;
            assert forall|j: int| 0 <= j < ents.len() implies #[trigger] new_model.contains_key(
                ents[j].0@,
            ) && new_model[ents[j].0@] == ents[j].1 by {
                if j < n {
                    assert(old(self).model@.contains_key(old(self).entries@[j].0@));
                }
            }
            assert forall|k: Seq<char>| #[trigger] new_model.contains_key(k) implies exists|
                j: int,
            | 0 <= j < ents.len() && ents[j].0@ == k by {
                if k != name@ {
                    assert(old(self).model@.contains_key(k));
                    let j = choose|j: int|
                        0 <= j < old(self).entries@.len() && old(self).entries@[j].0@ == k;
                    assert(ents[j].0@ == k);
                } else if !found {
                    assert(ents[n as int].0@ == k);
                }
            }
            assert(self.model@ =~= old(self)@.insert(name@, weight));
        }
    }

    /// The weight of a bare name: its entry's weight, 0 when it has none.
    pub fn weight(&self, name: &String) -> (r: u64)
        requires
            self.wf(),
        ensures
            r == weight_of(self@, name@),
    {
        let n = self.entries.len();
        let mut i: usize = 0;
        while i < n
            invariant
                n == self.entries@.len(),
                i <= n,
                self.wf(),
                forall|j: int| 0 <= j < i ==> self.entries@[j].0@ != name@,
            decreases n - i,
        {
            if self.entries[i].0 == *name {
                assert(self.model@.contains_key(self.entries@[i as int].0@));
                return self.entries[i].1;
            }
            i = i + 1;
        }
        0
    }
}

} // verus!
