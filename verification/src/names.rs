//! Lists of names.
use crate::json::key_less;
use crate::text::{chars_of, same, texts};
use vstd::prelude::*;
use vstd::string::*;

verus! {

/// Where a name first stands in a list, from one place on.
pub open spec fn place_from(list: Seq<Seq<char>>, name: Seq<char>, from: int) -> Option<int>
    decreases list.len() - from,
{
    if !(0 <= from < list.len()) {
        None
    } else if list[from] == name {
        Some(from)
    } else {
        place_from(list, name, from + 1)
    }
}

/// Where a name first stands in a list.
pub open spec fn place_of(list: Seq<Seq<char>>, name: Seq<char>) -> Option<int> {
    place_from(list, name, 0)
}

/// A place as a number that contracts speak of.
pub open spec fn place_view(place: Option<usize>) -> Option<int> {
    match place {
        Some(index) => Some(index as int),
        None => None,
    }
}

pub proof fn lemma_place(list: Seq<Seq<char>>, name: Seq<char>, from: int)
    requires
        0 <= from,
    ensures
        match place_from(list, name, from) {
            Some(index) => from <= index < list.len() && list[index] == name && forall|i: int|
                from <= i < index ==> (#[trigger] list[i]) != name,
            None => forall|i: int| from <= i < list.len() ==> (#[trigger] list[i]) != name,
        },
    decreases list.len() - from,
{
    if from < list.len() && list[from] != name {
        lemma_place(list, name, from + 1);
    }
}

/// Where a name first stands in a list.
pub fn position_of(list: &Vec<String>, name: &str) -> (place: Option<usize>)
    ensures
        place_view(place) == place_of(texts(list@), name@),
        place matches Some(index) ==> index < list@.len() && list@[index as int]@ == name@,
{
    let ghost all = texts(list@);
    let mut index: usize = 0;
    while index < list.len()
        invariant
            index <= list@.len(),
            all == texts(list@),
            place_of(all, name@) == place_from(all, name@, index as int),
        decreases list@.len() - index,
    {
        assert(all[index as int] == list@[index as int]@);
        if same(list[index].as_str(), name) {
            return Some(index);
        }
        index += 1;
    }
    None
}

/// Whether a list holds a name.
pub fn holds_name(list: &Vec<String>, name: &str) -> (found: bool)
    ensures
        found == texts(list@).contains(name@),
{
    proof {
        lemma_place(texts(list@), name@, 0);
    }
    position_of(list, name).is_some()
}

/// Whether one name comes before another, scalar value by scalar value.
pub fn name_less(left: &str, right: &str) -> (less: bool)
    ensures
        less == key_less(left@, right@),
{
    let a = chars_of(left);
    let b = chars_of(right);
    let mut index: usize = 0;
    assert(left@.skip(0) =~= left@);
    assert(right@.skip(0) =~= right@);
    while index < a.len() && index < b.len()
        invariant
            index <= a@.len(),
            index <= b@.len(),
            a@ == left@,
            b@ == right@,
            key_less(left@, right@) == key_less(left@.skip(index as int), right@.skip(index as int)),
        decreases a@.len() - index,
    {
        proof {
            let l = left@.skip(index as int);
            let r = right@.skip(index as int);
            assert(l[0] == a@[index as int]);
            assert(r[0] == b@[index as int]);
            assert(l.drop_first() =~= left@.skip(index + 1));
            assert(r.drop_first() =~= right@.skip(index + 1));
        }
        if a[index] != b[index] {
            return (a[index]) < b[index];
        }
        index += 1;
    }
    index < b.len()
}

/// A list of names in ascending order with one more name in its place; one that
/// is there already stands once.
pub open spec fn name_placed(list: Seq<Seq<char>>, name: Seq<char>) -> Seq<Seq<char>>
    decreases list.len(),
{
    if list.len() == 0 {
        seq![name]
    } else if list[0] == name {
        list
    } else if key_less(name, list[0]) {
        seq![name] + list
    } else {
        seq![list[0]] + name_placed(list.drop_first(), name)
    }
}

/// The names of a list in ascending order, each once.
pub open spec fn names_in_order(list: Seq<Seq<char>>) -> Seq<Seq<char>>
    decreases list.len(),
{
    if list.len() == 0 {
        seq![]
    } else {
        name_placed(names_in_order(list.drop_last()), list.last())
    }
}

proof fn lemma_name_placed(list: Seq<Seq<char>>, name: Seq<char>, index: int)
    requires
        0 <= index <= list.len(),
        forall|i: int|
            0 <= i < index ==> (#[trigger] list[i]) != name && !key_less(name, list[i]),
    ensures
        name_placed(list, name) == list.take(index) + name_placed(list.skip(index), name),
    decreases index,
{
    if index == 0 {
        assert(list.skip(0) =~= list);
        assert(list.take(0) + name_placed(list, name) =~= name_placed(list, name));
    } else {
        let rest = list.drop_first();
        assert(list[0] != name);
        assert forall|i: int| 0 <= i < index - 1 implies (#[trigger] rest[i]) != name && !key_less(
            name,
            rest[i],
        ) by {
            assert(rest[i] == list[i + 1]);
        }
        lemma_name_placed(rest, name, index - 1);
        assert(rest.skip(index - 1) =~= list.skip(index));
        assert(seq![list[0]] + rest.take(index - 1) =~= list.take(index));
        assert(name_placed(list, name) =~= list.take(index) + name_placed(list.skip(index), name));
    }
}

/// Puts a name in its place in a list in ascending order.
pub fn place_name(list: &mut Vec<String>, name: &str)
    ensures
        texts(final(list)@) == name_placed(texts(old(list)@), name@),
{
    let ghost all = texts(list@);
    let mut index: usize = 0;
    while index < list.len() && !same(list[index].as_str(), name) && !name_less(
        name,
        list[index].as_str(),
    )
        invariant
            index <= list@.len(),
            all == texts(list@),
            *list == *old(list),
            forall|i: int|
                0 <= i < index ==> (#[trigger] all[i]) != name@ && !key_less(name@, all[i]),
        decreases list@.len() - index,
    {
        assert(all[index as int] == list@[index as int]@);
        index += 1;
    }
    proof {
        lemma_name_placed(all, name@, index as int);
        if index < list@.len() {
            assert(all[index as int] == list@[index as int]@);
            assert(all.skip(index as int)[0] == all[index as int]);
        }
    }
    if index < list.len() && same(list[index].as_str(), name) {
        assert(all.take(index as int) + all.skip(index as int) =~= all);
        return;
    }
    list.insert(index, name.to_string());
    proof {
        assert(texts(list@) =~= all.insert(index as int, name@));
        assert(all.insert(index as int, name@) =~= all.take(index as int) + (seq![name@]
            + all.skip(index as int)));
        if index == all.len() {
            assert(all.skip(index as int) =~= seq![]);
            assert(seq![name@] + all.skip(index as int) =~= seq![name@]);
        }
    }
}

proof fn lemma_placed_names(list: Seq<Seq<char>>, name: Seq<char>, other: Seq<char>)
    ensures
        name_placed(list, name).contains(other) <==> list.contains(other) || other == name,
    decreases list.len(),
{
    let result = name_placed(list, name);
    if list.len() == 0 {
        if other == name {
            assert(result[0] == other);
        }
    } else if list[0] == name {
    } else if key_less(name, list[0]) {
        assert(result[0] == name);
        if list.contains(other) {
            let i = choose|i: int| 0 <= i < list.len() && list[i] == other;
            assert(result[i + 1] == other);
        }
        if result.contains(other) && other != name {
            let i = choose|i: int| 0 <= i < result.len() && result[i] == other;
            assert(list[i - 1] == other);
        }
    } else {
        let rest = list.drop_first();
        lemma_placed_names(rest, name, other);
        let tail = name_placed(rest, name);
        assert(result =~= seq![list[0]] + tail);
        assert(list =~= seq![list[0]] + rest);
        if list.contains(other) {
            let i = choose|i: int| 0 <= i < list.len() && list[i] == other;
            if i > 0 {
                assert(rest[i - 1] == other);
            } else {
                assert(result[0] == other);
            }
        }
        if tail.contains(other) {
            let i = choose|i: int| 0 <= i < tail.len() && tail[i] == other;
            assert(result[i + 1] == other);
        }
        if result.contains(other) {
            let i = choose|i: int| 0 <= i < result.len() && result[i] == other;
            if i > 0 {
                assert(tail[i - 1] == other);
            } else {
                assert(list[0] == other);
            }
        }
        if rest.contains(other) {
            let i = choose|i: int| 0 <= i < rest.len() && rest[i] == other;
            assert(list[i + 1] == other);
        }
    }
}

/// Names in ascending order are those of the list that they come from.
pub proof fn law_names_in_order_are_kept(list: Seq<Seq<char>>, name: Seq<char>)
    ensures
        names_in_order(list).contains(name) <==> list.contains(name),
    decreases list.len(),
{
    if list.len() > 0 {
        let front = list.drop_last();
        law_names_in_order_are_kept(front, name);
        lemma_placed_names(names_in_order(front), list.last(), name);
        assert(list =~= front.push(list.last()));
        if list.contains(name) {
            let i = choose|i: int| 0 <= i < list.len() && list[i] == name;
            if i < front.len() {
                assert(front[i] == name);
            }
        }
        if front.contains(name) {
            let i = choose|i: int| 0 <= i < front.len() && front[i] == name;
            assert(list[i] == name);
        }
        if name == list.last() {
            assert(list[list.len() - 1] == name);
        }
    }
}

pub proof fn lemma_key_less_total(left: Seq<char>, right: Seq<char>)
    ensures
        key_less(left, right) || key_less(right, left) || left == right,
        !(key_less(left, right) && key_less(right, left)),
        left == right ==> !key_less(left, right),
    decreases left.len(),
{
    if left.len() > 0 && right.len() > 0 {
        lemma_key_less_total(left.drop_first(), right.drop_first());
        assert(left =~= seq![left[0]] + left.drop_first());
        assert(right =~= seq![right[0]] + right.drop_first());
    } else if left.len() == 0 && right.len() == 0 {
        assert(left =~= right);
    }
}

pub proof fn lemma_key_less_carries(first: Seq<char>, second: Seq<char>, third: Seq<char>)
    requires
        key_less(first, second),
        key_less(second, third),
    ensures
        key_less(first, third),
    decreases first.len(),
{
    if first.len() > 0 && first[0] == second[0] && second[0] == third[0] {
        lemma_key_less_carries(first.drop_first(), second.drop_first(), third.drop_first());
    }
}

/// Whether each name of a list comes before the next.
pub open spec fn ascending(list: Seq<Seq<char>>) -> bool {
    forall|i: int, j: int|
        0 <= i < j < list.len() ==> key_less(#[trigger] list[i], #[trigger] list[j])
}

proof fn lemma_placed_ascends(list: Seq<Seq<char>>, name: Seq<char>)
    requires
        ascending(list),
    ensures
        ascending(name_placed(list, name)),
    decreases list.len(),
{
    let result = name_placed(list, name);
    if list.len() == 0 || list[0] == name {
    } else if key_less(name, list[0]) {
        assert forall|i: int, j: int| 0 <= i < j < result.len() implies key_less(
            #[trigger] result[i],
            #[trigger] result[j],
        ) by {
            assert(result[j] == list[j - 1]);
            if i > 0 {
                assert(result[i] == list[i - 1]);
            } else if j > 1 {
                assert(key_less(list[0], list[j - 1]));
                lemma_key_less_carries(name, list[0], list[j - 1]);
            }
        }
    } else {
        let rest = list.drop_first();
        assert forall|i: int, j: int| 0 <= i < j < rest.len() implies key_less(
            #[trigger] rest[i],
            #[trigger] rest[j],
        ) by {
            assert(key_less(list[i + 1], list[j + 1]));
        }
        lemma_placed_ascends(rest, name);
        let tail = name_placed(rest, name);
        lemma_key_less_total(name, list[0]);
        assert forall|i: int, j: int| 0 <= i < j < result.len() implies key_less(
            #[trigger] result[i],
            #[trigger] result[j],
        ) by {
            assert(result[j] == tail[j - 1]);
            if i > 0 {
                assert(result[i] == tail[i - 1]);
            } else {
                lemma_placed_names(rest, name, tail[j - 1]);
                assert(tail.contains(tail[j - 1]));
                if tail[j - 1] != name {
                    let k = choose|k: int| 0 <= k < rest.len() && rest[k] == tail[j - 1];
                    assert(key_less(list[0], list[k + 1]));
                }
            }
        }
    }
}

/// Names put in order ascend, so that none stands there twice.
pub proof fn law_names_in_order_ascend(list: Seq<Seq<char>>)
    ensures
        ascending(names_in_order(list)),
    decreases list.len(),
{
    if list.len() > 0 {
        law_names_in_order_ascend(list.drop_last());
        lemma_placed_ascends(names_in_order(list.drop_last()), list.last());
    }
}

} // verus!
