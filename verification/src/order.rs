//! Lists kept in order by putting each new number in its place.
use vstd::prelude::*;

verus! {

/// The first place at or behind `i` whose number is above `x`.
pub open spec fn place_from(s: Seq<u64>, x: u64, i: int) -> int
    decreases s.len() - i,
{
    if i < 0 || i >= s.len() || s[i] > x {
        i
    } else {
        place_from(s, x, i + 1)
    }
}

/// A list in order with one more number.
pub open spec fn with_number(s: Seq<u64>, x: u64) -> Seq<u64> {
    s.insert(place_from(s, x, 0), x)
}

pub open spec fn sorted(s: Seq<u64>) -> bool {
    forall|i: int, j: int| 0 <= i <= j < s.len() ==> s[i] <= s[j]
}

proof fn lemma_place(s: Seq<u64>, x: u64, i: int)
    requires
        0 <= i <= s.len(),
    ensures
        i <= place_from(s, x, i) <= s.len(),
        forall|j: int| i <= j < place_from(s, x, i) ==> s[j] <= x,
        place_from(s, x, i) < s.len() ==> s[place_from(s, x, i)] > x,
    decreases s.len() - i,
{
    if i < s.len() && s[i] <= x {
        lemma_place(s, x, i + 1);
    }
}

/// Putting a number in its place keeps a list in order, and adds nothing else.
pub proof fn lemma_with_number(s: Seq<u64>, x: u64)
    requires
        sorted(s),
    ensures
        sorted(with_number(s, x)),
        with_number(s, x).to_multiset() == s.to_multiset().insert(x),
{
    lemma_place(s, x, 0);
    let p = place_from(s, x, 0);
    let t = with_number(s, x);
    assert forall|i: int, j: int| 0 <= i <= j < t.len() implies t[i] <= t[j] by {
        let a = if i < p { i } else { i - 1 };
        let b = if j < p { j } else { j - 1 };
        if p < s.len() {
            assert(s[p] > x);
        }
    }
    vstd::seq_lib::to_multiset_insert(s, p, x);
}

/// Two lists in order with the same numbers are the same list.
pub proof fn lemma_sorted_unique(s: Seq<u64>, t: Seq<u64>)
    requires
        sorted(s),
        sorted(t),
        s.to_multiset() == t.to_multiset(),
    ensures
        s == t,
{
    let below = |a: u64, b: u64| a <= b;
    vstd::seq_lib::lemma_sorted_unique(s, t, below);
}

#[verifier::loop_isolation(false)]
pub fn add_number(list: &mut Vec<u64>, x: u64)
    ensures
        final(list)@ == with_number(old(list)@, x),
{
    let mut i: usize = 0;
    while i < list.len() && list[i] <= x
        invariant
            i <= list.len(),
            list@ == old(list)@,
            place_from(list@, x, 0) == place_from(list@, x, i as int),
        decreases list.len() - i,
    {
        i = i + 1;
    }
    list.insert(i, x);
}

/// The first place at or behind `i` whose id is above `x`.
pub open spec fn id_place_from(s: Seq<i32>, x: i32, i: int) -> int
    decreases s.len() - i,
{
    if i < 0 || i >= s.len() || s[i] > x {
        i
    } else {
        id_place_from(s, x, i + 1)
    }
}

/// A list of ids in order with one more.
pub open spec fn with_id(s: Seq<i32>, x: i32) -> Seq<i32> {
    s.insert(id_place_from(s, x, 0), x)
}

/// A list of ids in order that holds `x`, once where it was not there before.
pub open spec fn with_new_id(s: Seq<i32>, x: i32) -> Seq<i32> {
    if s.contains(x) {
        s
    } else {
        with_id(s, x)
    }
}

pub open spec fn ids_sorted(s: Seq<i32>) -> bool {
    forall|i: int, j: int| 0 <= i <= j < s.len() ==> s[i] <= s[j]
}

/// A list of ids in order in which no id stands twice.
pub open spec fn ids_rising(s: Seq<i32>) -> bool {
    forall|i: int, j: int| 0 <= i < j < s.len() ==> s[i] < s[j]
}

proof fn lemma_id_place(s: Seq<i32>, x: i32, i: int)
    requires
        0 <= i <= s.len(),
    ensures
        i <= id_place_from(s, x, i) <= s.len(),
        forall|j: int| i <= j < id_place_from(s, x, i) ==> s[j] <= x,
        id_place_from(s, x, i) < s.len() ==> s[id_place_from(s, x, i)] > x,
    decreases s.len() - i,
{
    if i < s.len() && s[i] <= x {
        lemma_id_place(s, x, i + 1);
    }
}

pub proof fn lemma_with_id(s: Seq<i32>, x: i32)
    requires
        ids_sorted(s),
    ensures
        ids_sorted(with_id(s, x)),
        with_id(s, x).to_multiset() == s.to_multiset().insert(x),
        forall|y: i32| #[trigger] with_id(s, x).contains(y) <==> s.contains(y) || y == x,
{
    lemma_id_place(s, x, 0);
    let p = id_place_from(s, x, 0);
    let t = with_id(s, x);
    assert forall|i: int, j: int| 0 <= i <= j < t.len() implies t[i] <= t[j] by {
        if p < s.len() {
            assert(s[p] > x);
        }
    }
    vstd::seq_lib::to_multiset_insert(s, p, x);
    assert forall|y: i32| #[trigger] t.contains(y) <==> s.contains(y) || y == x by {
        if s.contains(y) {
            let k = choose|k: int| 0 <= k < s.len() && s[k] == y;
            assert(t[if k < p { k } else { k + 1 }] == y);
        }
        if y == x {
            assert(t[p] == y);
        }
        if t.contains(y) {
            let k = choose|k: int| 0 <= k < t.len() && t[k] == y;
            if k < p {
                assert(s[k] == y);
            } else if k > p {
                assert(s[k - 1] == y);
            }
        }
    }
}

pub proof fn lemma_with_new_id(s: Seq<i32>, x: i32)
    requires
        ids_rising(s),
    ensures
        ids_rising(with_new_id(s, x)),
        forall|y: i32| #[trigger] with_new_id(s, x).contains(y) <==> s.contains(y) || y == x,
{
    if !s.contains(x) {
        lemma_with_id(s, x);
        lemma_id_place(s, x, 0);
        let p = id_place_from(s, x, 0);
        let t = with_new_id(s, x);
        assert forall|i: int, j: int| 0 <= i < j < t.len() implies t[i] < t[j] by {
            if i == p {
                assert(s[p] > x);
                assert(t[j] == s[j - 1]);
            } else if j == p {
                assert(s[i] != x);
            } else {
                let a = if i < p { i } else { i - 1 };
                let b = if j < p { j } else { j - 1 };
                assert(s[a] < s[b]);
            }
        }
    }
}

#[verifier::loop_isolation(false)]
pub fn add_id(list: &mut Vec<i32>, x: i32)
    ensures
        final(list)@ == with_id(old(list)@, x),
{
    let mut i: usize = 0;
    while i < list.len() && list[i] <= x
        invariant
            i <= list.len(),
            list@ == old(list)@,
            id_place_from(list@, x, 0) == id_place_from(list@, x, i as int),
        decreases list.len() - i,
    {
        i = i + 1;
    }
    list.insert(i, x);
}

pub fn holds_id(list: &Vec<i32>, x: i32) -> (res: bool)
    ensures
        res == list@.contains(x),
{
    let mut i: usize = 0;
    while i < list.len()
        invariant
            i <= list.len(),
            forall|j: int| 0 <= j < i ==> list@[j] != x,
        decreases list.len() - i,
    {
        if list[i] == x {
            assert(list@[i as int] == x);
            return true;
        }
        i = i + 1;
    }
    false
}

pub fn add_new_id(list: &mut Vec<i32>, x: i32)
    ensures
        final(list)@ == with_new_id(old(list)@, x),
{
    if !holds_id(list, x) {
        add_id(list, x);
    }
}

} // verus!
