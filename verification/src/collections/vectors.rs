//! The median and the mode of a list of integers.

use std::collections::HashMap;
use vstd::prelude::*;

verus! {

/// How often `x` occurs in `s`.
pub open spec fn count_in(s: Seq<i32>, x: i32) -> nat
    decreases s.len(),
{
    if s.len() == 0 {
        0
    } else {
        count_in(s.drop_last(), x) + if s.last() == x {
            1nat
        } else {
            0nat
        }
    }
}

/// Whether `s` rises from each value to the next, or stays.
pub open spec fn is_sorted(s: Seq<i32>) -> bool {
    forall|i: int, j: int| 0 <= i <= j < s.len() ==> s[i] <= s[j]
}

/// Whether `s` holds the values of `v`, each as often as `v` does, in
/// rising order.
pub open spec fn sorted_permutation(s: Seq<i32>, v: Seq<i32>) -> bool {
    &&& s.len() == v.len()
    &&& is_sorted(s)
    &&& forall|x: i32| count_in(s, x) == count_in(v, x)
}

/// Half of `x`, rounded towards zero.
pub open spec fn half_of(x: int) -> int {
    if x >= 0 {
        x / 2
    } else {
        -((-x) / 2)
    }
}

/// The value in the middle of a sorted list that is not empty; where two
/// values share the middle, half their sum.
pub open spec fn middle_of(s: Seq<i32>) -> int {
    let h = s.len() as int / 2;
    if s.len() % 2 != 0 {
        s[h] as int
    } else {
        half_of(s[h] + s[h - 1])
    }
}

/// Replacing one value changes the counts of the old and of the new value only.
pub proof fn lemma_count_update(s: Seq<i32>, i: int, a: i32, x: i32)
    requires
        0 <= i < s.len(),
    ensures
        count_in(s.update(i, a), x) + (if s[i] == x {
            1nat
        } else {
            0nat
        }) == count_in(s, x) + (if a == x {
            1nat
        } else {
            0nat
        }),
    decreases s.len(),
{
    let t = s.update(i, a);
    if i == s.len() - 1 {
        assert(t.drop_last() =~= s.drop_last());
    } else {
        lemma_count_update(s.drop_last(), i, a, x);
        assert(t.drop_last() =~= s.drop_last().update(i, a));
    }
}

/// No value occurs more often than the list is long.
pub proof fn lemma_count_bound(s: Seq<i32>, x: i32)
    ensures
        count_in(s, x) <= s.len(),
    decreases s.len(),
{
    if s.len() > 0 {
        lemma_count_bound(s.drop_last(), x);
    }
}

pub fn median(vector: &[i32]) -> (r: Option<i32>)
    requires
        forall|i: int|
            0 <= i < vector@.len() ==> -0x4000_0000 <= #[trigger] vector@[i] <= 0x3fff_ffff,
    ensures
        match r {
            Some(m) => vector@.len() > 0 && exists|s: Seq<i32>|
                sorted_permutation(s, vector@) && m == middle_of(s),
            None => vector@.len() == 0,
        },
{
    let len: usize = vector.len();
    if len < 1 {
        return None;
    }
    let sorted = selection_sort(vector);
    let half = len / 2;
    if len % 2 != 0 {
        let m = sorted[half];
        proof {
            assert(sorted_permutation(sorted@, vector@) && m == middle_of(sorted@));
        }
        return Some(m);
    } else {
        let a = sorted[half];
        let b = sorted[half - 1];
        proof {
            lemma_member(sorted@, vector@, half as int);
            lemma_member(sorted@, vector@, half - 1);
            let j = choose|j: int| 0 <= j < vector@.len() && vector@[j] == a;
            let k = choose|k: int| 0 <= k < vector@.len() && vector@[k] == b;
            assert(-0x4000_0000 <= vector@[j] <= 0x3fff_ffff);
            assert(-0x4000_0000 <= vector@[k] <= 0x3fff_ffff);
        }
        let m = (a + b) / 2;
        proof {
            assert(m == half_of(a + b));
            assert(sorted_permutation(sorted@, vector@) && m == middle_of(sorted@));
        }
        return Some(m);
    }
}

/// A value of a list occurs in every list with the same counts.
pub proof fn lemma_member(s: Seq<i32>, v: Seq<i32>, i: int)
    requires
        0 <= i < s.len(),
        forall|x: i32| count_in(s, x) == count_in(v, x),
    ensures
        exists|j: int| 0 <= j < v.len() && v[j] == s[i],
{
    lemma_count_positive(s, i);
    lemma_count_witness(v, s[i]);
}

/// A value that a list holds occurs in it.
pub proof fn lemma_count_positive(s: Seq<i32>, i: int)
    requires
        0 <= i < s.len(),
    ensures
        count_in(s, s[i]) > 0,
    decreases s.len(),
{
    if i < s.len() - 1 {
        lemma_count_positive(s.drop_last(), i);
    }
}

/// A value that occurs in a list stands at some place of it.
pub proof fn lemma_count_witness(s: Seq<i32>, x: i32)
    requires
        count_in(s, x) > 0,
    ensures
        exists|j: int| 0 <= j < s.len() && s[j] == x,
    decreases s.len(),
{
    if s.last() != x {
        lemma_count_witness(s.drop_last(), x);
        let j = choose|j: int| 0 <= j < s.drop_last().len() && s.drop_last()[j] == x;
        assert(s[j] == x);
    } else {
        assert(s[s.len() - 1] == x);
    }
}

/// The values of `vector` in rising order.
pub fn selection_sort(vector: &[i32]) -> (sorted: Vec<i32>)
    ensures
        sorted_permutation(sorted@, vector@),
{
    let len = vector.len();
    let mut sorted: Vec<i32> = vstd::slice::slice_to_vec(vector);
    if len == 0 {
        return sorted;
    }
    let mut i: usize = 0;
    while i < len - 1
        invariant
            len > 0,
            len == sorted@.len(),
            len == vector@.len(),
            i <= len,
            forall|x: i32| count_in(sorted@, x) == count_in(vector@, x),
            forall|a: int, b: int| 0 <= a <= b < i ==> sorted@[a] <= sorted@[b],
            forall|a: int, b: int| 0 <= a < i <= b < len ==> sorted@[a] <= sorted@[b],
        decreases len - i,
    {
        let mut smallest_index = i;
        let mut j: usize = i + 1;
        while j < len
            invariant
                len == sorted@.len(),
                i < j <= len,
                i <= smallest_index < len,
                forall|k: int| i <= k < j ==> sorted@[smallest_index as int] <= sorted@[k],
            decreases len - j,
        {
            if sorted[j] < sorted[smallest_index] {
                smallest_index = j;
            }
            j += 1;
        }
        let ghost before = sorted@;
        let small = sorted[smallest_index];
        let first = sorted[i];
        sorted.set(smallest_index, first);
        sorted.set(i, small);
        proof {
            assert forall|x: i32| count_in(sorted@, x) == count_in(vector@, x) by {
                lemma_count_update(before, smallest_index as int, first, x);
                lemma_count_update(before.update(smallest_index as int, first), i as int, small, x);
            }
        }
        i += 1;
    }
    sorted
}

/// How often the value at the place `i` occurs up to and including that place.
pub open spec fn count_upto(v: Seq<i32>, i: int) -> nat {
    count_in(v.take(i + 1), v[i])
}

/// Whether `i` is the place at which a count first reaches the greatest
/// count that any value of `v` has.
pub open spec fn is_mode_place(v: Seq<i32>, i: int) -> bool {
    &&& 0 <= i < v.len()
    &&& forall|x: i32| count_in(v, x) <= count_upto(v, i)
    &&& forall|j: int| 0 <= j < i ==> count_upto(v, j) < count_upto(v, i)
}

/// The value that occurs most often. Where several values do, the one whose
/// count reaches that number first.
pub fn mode(vector: &[i32]) -> (r: Option<&i32>)
    ensures
        match r {
            Some(x) => exists|i: int| is_mode_place(vector@, i) && *x == vector@[i],
            None => vector@.len() == 0,
        },
{
    if vector.is_empty() {
        return None;
    }
    let mut map: HashMap<i32, usize> = HashMap::new();
    let mut max_index: usize = 0;
    let mut max: usize = 1;
    let mut i: usize = 0;
    proof {
        assert(vector@.take(0) =~= Seq::<i32>::empty());
        assert(vector@.take(1).drop_last() =~= Seq::<i32>::empty());
        assert(count_in(vector@.take(1).drop_last(), vector@[0]) == 0);
        assert(count_upto(vector@, 0) == 1);
    }
    while i < vector.len()
        invariant
            i <= vector@.len(),
            vector@.len() > 0,
            max_index < vector@.len(),
            max_index <= i,
            max == count_upto(vector@, max_index as int),
            forall|x: i32|
                map@.contains_key(x) <==> count_in(vector@.take(i as int), x) > 0,
            forall|x: i32|
                map@.contains_key(x) ==> #[trigger] map@[x] == count_in(vector@.take(i as int), x),
            forall|x: i32| count_in(vector@.take(i as int), x) <= max,
            forall|j: int| 0 <= j < max_index ==> count_upto(vector@, j) < max,
            forall|j: int| max_index < j < i ==> count_upto(vector@, j) <= max,
            i == 0 ==> max_index == 0,
        decreases vector@.len() - i,
    {
        let value = vector[i];
        let ghost prefix = vector@.take(i as int);
        let ghost next = vector@.take(i + 1);
        proof {
            assert(next.drop_last() =~= prefix);
            assert(next.last() == value);
            lemma_count_bound(prefix, value);
        }
        let count = match map.get(&value) {
            Some(p) => *p + 1,
            None => 1,
        };
        map.insert(value, count);
        proof {
            assert(count == count_upto(vector@, i as int));
            assert forall|x: i32| count_in(next, x) == count_in(prefix, x) + (if x == value {
                1nat
            } else {
                0nat
            }) by {}
        }
        if count > max {
            max = count;
            max_index = i;
        }
        i += 1;
    }
    proof {
        assert(vector@.take(i as int) =~= vector@);
        assert(is_mode_place(vector@, max_index as int));
    }
    Some(&vector[max_index])
}

} // verus!
