//! How many of something there are for each name.
use crate::text::same;
use vstd::prelude::*;
use vstd::string::*;

verus! {

/// How many of something there are for each name. A name without any is not
/// kept.
#[derive(Debug)]
pub struct Tally {
    entries: Vec<(String, usize)>,
}

/// The count of a name, 0 where it has none.
pub open spec fn count_in(counts: Map<Seq<char>, usize>, name: Seq<char>) -> usize {
    if counts.dom().contains(name) {
        counts[name]
    } else {
        0
    }
}

/// The counts with one more of a name.
pub open spec fn one_more(counts: Map<Seq<char>, usize>, name: Seq<char>) -> Map<
    Seq<char>,
    usize,
> {
    counts.insert(name, (count_in(counts, name) + 1) as usize)
}

/// The counts with one less of a name, where it has any.
pub open spec fn one_less(counts: Map<Seq<char>, usize>, name: Seq<char>) -> Map<
    Seq<char>,
    usize,
> {
    if !counts.dom().contains(name) {
        counts
    } else if counts[name] <= 1 {
        counts.remove(name)
    } else {
        counts.insert(name, (counts[name] - 1) as usize)
    }
}

spec fn counts_of(entries: Seq<(String, usize)>) -> Map<Seq<char>, usize>
    decreases entries.len(),
{
    if entries.len() == 0 {
        Map::empty()
    } else {
        counts_of(entries.drop_last()).insert(entries.last().0@, entries.last().1)
    }
}

spec fn kept(entries: Seq<(String, usize)>) -> bool {
    &&& forall|i: int, j: int|
        0 <= i < j < entries.len() ==> (#[trigger] entries[i]).0@ != (#[trigger] entries[j]).0@
    &&& forall|i: int| 0 <= i < entries.len() ==> (#[trigger] entries[i]).1 > 0
}

proof fn lemma_counts(entries: Seq<(String, usize)>, name: Seq<char>)
    requires
        kept(entries),
    ensures
        counts_of(entries).dom().contains(name) <==> exists|i: int|
            0 <= i < entries.len() && (#[trigger] entries[i]).0@ == name,
        forall|i: int|
            0 <= i < entries.len() && (#[trigger] entries[i]).0@ == name ==> counts_of(
                entries,
            )[name] == entries[i].1,
    decreases entries.len(),
{
    if entries.len() > 0 {
        let front = entries.drop_last();
        let last = entries.last();
        assert(forall|i: int| 0 <= i < front.len() ==> #[trigger] entries[i] == front[i]);
        assert(kept(front));
        lemma_counts(front, name);
        if last.0@ == name {
            assert(entries[entries.len() - 1].0@ == name);
        }
        if exists|i: int| 0 <= i < front.len() && (#[trigger] front[i]).0@ == name {
            let i = choose|i: int| 0 <= i < front.len() && (#[trigger] front[i]).0@ == name;
            assert(entries[i].0@ == name);
        }
        if exists|i: int| 0 <= i < entries.len() && (#[trigger] entries[i]).0@ == name {
            let i = choose|i: int| 0 <= i < entries.len() && (#[trigger] entries[i]).0@ == name;
            if i < front.len() {
                assert(front[i].0@ == name);
            }
        }
        assert forall|i: int|
            0 <= i < entries.len() && (#[trigger] entries[i]).0@ == name implies counts_of(
            entries,
        )[name] == entries[i].1 by {
            if i < front.len() {
                assert(front[i].0@ == name);
                assert(last.0@ != name) by {
                    assert(entries[i].0@ != entries[entries.len() - 1].0@);
                }
            }
        }
    }
}

impl Tally {
    /// The count of each name that has any.
    pub closed spec fn view(&self) -> Map<Seq<char>, usize> {
        counts_of(self.entries@)
    }

    /// Whether each name is kept once, and only while it has a count.
    pub closed spec fn well_formed(&self) -> bool {
        kept(self.entries@)
    }

    /// A tally of nothing.
    pub fn new() -> (tally: Self)
        ensures
            tally.well_formed(),
            tally.view() == Map::<Seq<char>, usize>::empty(),
    {
        Tally { entries: Vec::new() }
    }

    fn find(&self, name: &str) -> (place: Option<usize>)
        requires
            self.well_formed(),
        ensures
            match place {
                Some(index) => index < self.entries@.len() && self.entries@[index as int].0@
                    == name@ && self.view().dom().contains(name@) && self.view()[name@]
                    == self.entries@[index as int].1,
                None => !self.view().dom().contains(name@) && forall|i: int|
                    0 <= i < self.entries@.len() ==> (#[trigger] self.entries@[i]).0@ != name@,
            },
    {
        proof {
            lemma_counts(self.entries@, name@);
        }
        let mut index: usize = 0;
        while index < self.entries.len()
            invariant
                index <= self.entries@.len(),
                self.well_formed(),
                forall|i: int| 0 <= i < index ==> (#[trigger] self.entries@[i]).0@ != name@,
            decreases self.entries@.len() - index,
        {
            if same(self.entries[index].0.as_str(), name) {
                proof {
                    lemma_counts(self.entries@, name@);
                }
                return Some(index);
            }
            index += 1;
        }
        None
    }

    /// The count of a name.
    pub fn count(&self, name: &str) -> (count: usize)
        requires
            self.well_formed(),
        ensures
            count == count_in(self.view(), name@),
    {
        match self.find(name) {
            Some(index) => self.entries[index].1,
            None => 0,
        }
    }

    /// Counts one more of a name.
    pub fn add_one(&mut self, name: &str)
        requires
            old(self).well_formed(),
            count_in(old(self).view(), name@) < usize::MAX,
        ensures
            final(self).well_formed(),
            final(self).view() == one_more(old(self).view(), name@),
    {
        let ghost before = self.entries@;
        match self.find(name) {
            Some(index) => {
                let count: usize = self.entries[index].1 + 1;
                let ghost place = index as int;
                self.entries.set(index, (name.to_string(), count));
                proof {
                    lemma_set(before, self.entries@, place, name@, count);
                }
            },
            None => {
                self.entries.push((name.to_string(), 1));
                proof {
                    assert(self.entries@.drop_last() =~= before);
                    assert(self.entries@.last().0@ == name@);
                }
            },
        }
    }

    /// Counts one less of a name; one without a count stays so.
    pub fn take_one(&mut self, name: &str)
        requires
            old(self).well_formed(),
        ensures
            final(self).well_formed(),
            final(self).view() == one_less(old(self).view(), name@),
    {
        let ghost before = self.entries@;
        if let Some(index) = self.find(name) {
            let ghost place = index as int;
            let count: usize = self.entries[index].1;
            if count <= 1 {
                self.entries.remove(index);
                proof {
                    lemma_remove(before, place);
                }
            } else {
                self.entries.set(index, (name.to_string(), count - 1));
                proof {
                    lemma_set(before, self.entries@, place, name@, (count - 1) as usize);
                }
            }
        }
    }
}

proof fn lemma_set(
    before: Seq<(String, usize)>,
    after: Seq<(String, usize)>,
    place: int,
    name: Seq<char>,
    count: usize,
)
    requires
        kept(before),
        0 <= place < before.len(),
        before[place].0@ == name,
        count > 0,
        after.len() == before.len(),
        after[place].0@ == name,
        after[place].1 == count,
        forall|i: int| 0 <= i < before.len() && i != place ==> #[trigger] after[i] == before[i],
    ensures
        kept(after),
        counts_of(after) == counts_of(before).insert(name, count),
{
    assert forall|i: int, j: int| 0 <= i < j < after.len() implies (#[trigger] after[i]).0@ != (
    #[trigger] after[j]).0@ by {
        assert(before[i].0@ != before[j].0@);
    }
    assert forall|key: Seq<char>|
        counts_of(after).dom().contains(key) <==> #[trigger] counts_of(before).insert(
            name,
            count,
        ).dom().contains(key) by {
        lemma_counts(before, key);
        lemma_counts(after, key);
        if counts_of(after).dom().contains(key) {
            let i = choose|i: int| 0 <= i < after.len() && (#[trigger] after[i]).0@ == key;
            assert(before[i].0@ == key);
        }
        if key == name {
            assert(after[place].0@ == key);
        }
        if counts_of(before).dom().contains(key) {
            let i = choose|i: int| 0 <= i < before.len() && (#[trigger] before[i]).0@ == key;
            assert(after[i].0@ == key);
        }
    }
    assert forall|key: Seq<char>| #[trigger]
        counts_of(after).dom().contains(key) implies counts_of(after)[key] == counts_of(
        before,
    ).insert(name, count)[key] by {
        lemma_counts(before, key);
        lemma_counts(after, key);
        let i = choose|i: int| 0 <= i < after.len() && (#[trigger] after[i]).0@ == key;
        if i != place {
            assert(before[i].0@ == key);
            assert(key != name) by {
                if i < place {
                    assert(before[i].0@ != before[place].0@);
                } else {
                    assert(before[place].0@ != before[i].0@);
                }
            }
        }
    }
    assert(counts_of(after) =~= counts_of(before).insert(name, count));
}

proof fn lemma_remove(before: Seq<(String, usize)>, place: int)
    requires
        kept(before),
        0 <= place < before.len(),
    ensures
        kept(before.remove(place)),
        counts_of(before.remove(place)) == counts_of(before).remove(before[place].0@),
{
    let after = before.remove(place);
    let name = before[place].0@;
    assert forall|i: int, j: int| 0 <= i < j < after.len() implies (#[trigger] after[i]).0@ != (
    #[trigger] after[j]).0@ by {
        let a = if i < place {
            i
        } else {
            i + 1
        };
        let b = if j < place {
            j
        } else {
            j + 1
        };
        assert(before[a].0@ != before[b].0@);
    }
    assert forall|i: int| 0 <= i < after.len() implies (#[trigger] after[i]).1 > 0 by {
        assert(after[i] == before[if i < place {
            i
        } else {
            i + 1
        }]);
    }
    assert forall|key: Seq<char>|
        counts_of(after).dom().contains(key) <==> #[trigger] counts_of(before).remove(
            name,
        ).dom().contains(key) by {
        lemma_counts(before, key);
        lemma_counts(after, key);
        if counts_of(after).dom().contains(key) {
            let i = choose|i: int| 0 <= i < after.len() && (#[trigger] after[i]).0@ == key;
            let a = if i < place {
                i
            } else {
                i + 1
            };
            assert(before[a].0@ == key);
            if a < place {
                assert(before[a].0@ != before[place].0@);
            } else {
                assert(before[place].0@ != before[a].0@);
            }
        }
        if counts_of(before).dom().contains(key) && key != name {
            let i = choose|i: int| 0 <= i < before.len() && (#[trigger] before[i]).0@ == key;
            let a = if i < place {
                i
            } else {
                i - 1
            };
            assert(after[a].0@ == key);
        }
    }
    assert forall|key: Seq<char>| #[trigger]
        counts_of(after).dom().contains(key) implies counts_of(after)[key] == counts_of(
        before,
    ).remove(name)[key] by {
        lemma_counts(before, key);
        lemma_counts(after, key);
        let i = choose|i: int| 0 <= i < after.len() && (#[trigger] after[i]).0@ == key;
        let a = if i < place {
            i
        } else {
            i + 1
        };
        assert(before[a].0@ == key);
    }
    assert(counts_of(after) =~= counts_of(before).remove(name));
}

/// To count one less of a name undoes counting one more, and leaves the counts
/// of other names alone.
pub proof fn law_counting_is_undone(
    counts: Map<Seq<char>, usize>,
    name: Seq<char>,
    other: Seq<char>,
)
    requires
        count_in(counts, name) < usize::MAX,
        counts.dom().contains(name) ==> counts[name] > 0,
    ensures
        one_less(one_more(counts, name), name) == counts,
        other != name ==> count_in(one_more(counts, name), other) == count_in(counts, other),
        other != name ==> count_in(one_less(counts, name), other) == count_in(counts, other),
{
    assert(one_less(one_more(counts, name), name) =~= counts);
}

} // verus!
