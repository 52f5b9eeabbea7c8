use vstd::prelude::*;
use vstd::multiset::Multiset;

verus! {

/// Among the inputs before `n`, the first one whose head (the element at its
/// position in `idx`) is the least, if any input before `n` has a head left
pub open spec fn least_head(inputs: Seq<Seq<u64>>, idx: Seq<int>, n: int) -> Option<int>
    decreases n,
{
    if n <= 0 {
        None
    } else {
        let b = least_head(inputs, idx, n - 1);
        if idx[n - 1] < inputs[n - 1].len() {
            match b {
                None => Some(n - 1),
                Some(j) => if inputs[n - 1][idx[n - 1]] < inputs[j][idx[j]] {
                    Some(n - 1)
                } else {
                    Some(j)
                },
            }
        } else {
            b
        }
    }
}

/// The positions in the inputs after taking `t` least heads, one at a time
pub open spec fn merge_positions(inputs: Seq<Seq<u64>>, t: nat) -> Seq<int>
    decreases t,
{
    if t == 0 {
        Seq::new(inputs.len(), |i: int| 0int)
    } else {
        let idx = merge_positions(inputs, (t - 1) as nat);
        match least_head(inputs, idx, inputs.len() as int) {
            Some(j) => idx.update(j, idx[j] + 1),
            None => idx,
        }
    }
}

/// The elements taken after `t` steps of merging: each step takes the least
/// head of the inputs (the first such input on a tie)
pub open spec fn merge_output(inputs: Seq<Seq<u64>>, t: nat) -> Seq<u64>
    decreases t,
{
    if t == 0 {
        Seq::empty()
    } else {
        let idx = merge_positions(inputs, (t - 1) as nat);
        match least_head(inputs, idx, inputs.len() as int) {
            Some(j) => merge_output(inputs, (t - 1) as nat).push(inputs[j][idx[j]]),
            None => merge_output(inputs, (t - 1) as nat),
        }
    }
}

/// Number of elements left in the inputs after the positions in `idx`, among
/// the inputs before `n`
pub open spec fn elements_left(inputs: Seq<Seq<u64>>, idx: Seq<int>, n: int) -> int
    decreases n,
{
    if n <= 0 {
        0
    } else {
        elements_left(inputs, idx, n - 1) + (inputs[n - 1].len() - idx[n - 1])
    }
}

/// The least head found is an input with a head left, no other head is
/// less, and no earlier input has a head as small
proof fn lemma_least_head(inputs: Seq<Seq<u64>>, idx: Seq<int>, n: int)
    requires
        0 <= n <= inputs.len(),
        idx.len() == inputs.len(),
        forall|i: int| 0 <= i < inputs.len() ==> 0 <= #[trigger] idx[i] <= inputs[i].len(),
    ensures
        match least_head(inputs, idx, n) {
            Some(j) => 0 <= j < n && idx[j] < inputs[j].len() && (forall|i: int|
                0 <= i < n && idx[i] < inputs[i].len() ==> #[trigger] inputs[i][idx[i]] >= inputs[j][idx[j]]) && (forall|i: int|
                0 <= i < j && idx[i] < inputs[i].len() ==> #[trigger] inputs[i][idx[i]] > inputs[j][idx[j]]),
            None => forall|i: int| 0 <= i < n ==> #[trigger] idx[i] == inputs[i].len(),
        },
    decreases n,
{
    if n > 0 {
        lemma_least_head(inputs, idx, n - 1);
    }
}

/// Taking a head leaves one element less
proof fn lemma_elements_left_step(inputs: Seq<Seq<u64>>, idx: Seq<int>, j: int, n: int)
    requires
        0 <= j < inputs.len(),
        0 <= n <= inputs.len(),
        idx.len() == inputs.len(),
    ensures
        elements_left(inputs, idx.update(j, idx[j] + 1), n) == elements_left(inputs, idx, n) - (if j < n { 1int } else { 0int }),
    decreases n,
{
    if n > 0 {
        lemma_elements_left_step(inputs, idx, j, n - 1);
    }
}

/// No input has an element left beyond its length
proof fn lemma_elements_left_nonneg(inputs: Seq<Seq<u64>>, idx: Seq<int>, n: int)
    requires
        0 <= n <= inputs.len(),
        idx.len() == inputs.len(),
        forall|i: int| 0 <= i < inputs.len() ==> 0 <= #[trigger] idx[i] <= inputs[i].len(),
    ensures
        elements_left(inputs, idx, n) >= 0,
    decreases n,
{
    if n > 0 {
        lemma_elements_left_nonneg(inputs, idx, n - 1);
    }
}

/// The contents of the input arrays
pub open spec fn input_views(input: Seq<Vec<u64>>) -> Seq<Seq<u64>> {
    input.map_values(|v: Vec<u64>| v@)
}

/// Merge sorted arrays: repeatedly take the least of the heads of the inputs
/// (the head of the first such input on a tie) into `output`, until every input
/// is used up
pub fn merge_arrays(output: &mut Vec<u64>, input: &[Vec<u64>])
    ensures
        exists|t: nat|
            final(output)@ == #[trigger] merge_output(input_views(input@), t) && least_head(
                input_views(input@),
                merge_positions(input_views(input@), t),
                input@.len() as int,
            ) is None,
        final(output)@.to_multiset() == all_elements(input_views(input@)),
        (forall|i: int| 0 <= i < input@.len() ==> non_decreasing(#[trigger] input_views(input@)[i])) ==> non_decreasing(
            final(output)@,
        ),
{
    let ghost inputs = input_views(input@);
    output.clear();
    let n = input.len();
    let mut indices: Vec<usize> = vec![0; n];
    let ghost mut t: nat = 0;
    proof {
        assert forall|i: int| 0 <= i < n implies #[trigger] indices@[i] == 0 by {
            assert(cloned(0usize, indices@[i]));
        }
        assert(indices@.map_values(|x: usize| x as int) =~= merge_positions(inputs, 0));
        assert(output@ =~= merge_output(inputs, 0));
    }
    loop
        invariant
            n == input@.len(),
            inputs == input_views(input@),
            indices@.len() == n,
            indices@.map_values(|x: usize| x as int) == merge_positions(inputs, t),
            output@ == merge_output(inputs, t),
            forall|i: int| 0 <= i < n ==> #[trigger] indices@[i] <= inputs[i].len(),
        ensures
            output@ == merge_output(inputs, t),
            least_head(inputs, merge_positions(inputs, t), n as int) is None,
        decreases elements_left(inputs, merge_positions(inputs, t), n as int),
    {
        let ghost idx = merge_positions(inputs, t);
        proof {
            assert forall|i: int| 0 <= i < n implies 0 <= #[trigger] idx[i] <= inputs[i].len() by {
                assert(idx[i] == indices@.map_values(|x: usize| x as int)[i]);
            }
            lemma_elements_left_nonneg(inputs, idx, n as int);
        }
        let mut lowest: Option<u64> = None;
        let mut j = n;
        let mut i: usize = 0;
        while i < n
            invariant
                n == input@.len(),
                inputs == input_views(input@),
                indices@.len() == n,
                idx == indices@.map_values(|x: usize| x as int),
                i <= n,
                forall|x: int| 0 <= x < n ==> 0 <= #[trigger] idx[x] <= inputs[x].len(),
                match least_head(inputs, idx, i as int) {
                    Some(b) => j == b && lowest == Some(inputs[b][idx[b]]),
                    None => j == n && lowest is None,
                },
            decreases n - i,
        {
            assert(idx[i as int] == indices@[i as int]);
            if indices[i] < input[i].len() {
                let el = input[i][indices[i]];
                assert(el == inputs[i as int][idx[i as int]]);
                match lowest {
                    None => {
                        lowest = Some(el);
                        j = i;
                    },
                    Some(current) => {
                        if el < current {
                            lowest = Some(el);
                            j = i;
                        }
                    },
                }
            }
            i = i + 1;
        }
        proof {
            lemma_least_head(inputs, idx, n as int);
        }
        if j == n {
            break;
        } else {
            proof {
                assert(least_head(inputs, idx, n as int) == Some(j as int));
                assert(idx[j as int] < inputs[j as int].len());
                lemma_elements_left_step(inputs, idx, j as int, n as int);
                assert(idx[j as int] == indices@[j as int]);
                assert(inputs[j as int].len() == input@[j as int]@.len());
                assert(input@[j as int]@.len() == input@[j as int].len());
            }
            output.push(lowest.unwrap());
            indices.set(j, indices[j] + 1);
            proof {
                t = t + 1;
                let idx2 = idx.update(j as int, idx[j as int] + 1);
                assert(merge_positions(inputs, t) == idx2);
                assert forall|x: int| 0 <= x < n implies 0 <= #[trigger] idx2[x] <= inputs[x].len() by {
                    assert(0 <= idx[x] <= inputs[x].len());
                }
                lemma_elements_left_nonneg(inputs, idx2, n as int);
                assert(indices@.map_values(|x: usize| x as int) =~= merge_positions(inputs, t));
                assert(output@ =~= merge_output(inputs, t));
            }
        }
    }
    proof {
        law_merge_keeps_every_element(inputs, t);
        if forall|i: int| 0 <= i < input@.len() ==> non_decreasing(#[trigger] input_views(input@)[i]) {
            law_merge_of_sorted_is_sorted(inputs, t);
        }
    }
}


/// A sequence sorted in ascending order
pub open spec fn non_decreasing(s: Seq<u64>) -> bool {
    forall|a: int, b: int| 0 <= a < b < s.len() ==> s[a] <= s[b]
}

/// The elements of the inputs before `n`, each up to its position in `idx`
pub open spec fn taken_elements(inputs: Seq<Seq<u64>>, idx: Seq<int>, n: int) -> Multiset<u64>
    decreases n,
{
    if n <= 0 {
        Multiset::empty()
    } else {
        taken_elements(inputs, idx, n - 1).add(inputs[n - 1].take(idx[n - 1]).to_multiset())
    }
}

/// The elements of all the inputs
pub open spec fn all_elements(inputs: Seq<Seq<u64>>) -> Multiset<u64> {
    taken_elements(inputs, Seq::new(inputs.len(), |i: int| inputs[i].len() as int), inputs.len() as int)
}

/// Taking the head of input `j` adds it to the elements taken
proof fn lemma_taken_step(inputs: Seq<Seq<u64>>, idx: Seq<int>, j: int, n: int)
    requires
        0 <= j < inputs.len(),
        0 <= n <= inputs.len(),
        idx.len() == inputs.len(),
        0 <= idx[j] < inputs[j].len(),
    ensures
        taken_elements(inputs, idx.update(j, idx[j] + 1), n) == if j < n {
            taken_elements(inputs, idx, n).insert(inputs[j][idx[j]])
        } else {
            taken_elements(inputs, idx, n)
        },
    decreases n,
{
    broadcast use vstd::multiset::group_multiset_axioms;
    broadcast use vstd::seq_lib::to_multiset_build;

    if n > 0 {
        lemma_taken_step(inputs, idx, j, n - 1);
        let idx2 = idx.update(j, idx[j] + 1);
        if n - 1 == j {
            assert(inputs[j].take(idx[j] + 1) =~= inputs[j].take(idx[j]).push(inputs[j][idx[j]]));
            assert(taken_elements(inputs, idx2, n) =~= taken_elements(inputs, idx, n).insert(inputs[j][idx[j]]));
        } else if j < n - 1 {
            assert(idx2[n - 1] == idx[n - 1]);
            assert(taken_elements(inputs, idx2, n) =~= taken_elements(inputs, idx, n).insert(inputs[j][idx[j]]));
        } else {
            assert(idx2[n - 1] == idx[n - 1]);
        }
    }
}

/// The positions stay within the inputs, and the output holds the elements taken
proof fn lemma_merge_state(inputs: Seq<Seq<u64>>, t: nat)
    ensures
        merge_positions(inputs, t).len() == inputs.len(),
        forall|i: int|
            0 <= i < inputs.len() ==> 0 <= #[trigger] merge_positions(inputs, t)[i] <= inputs[i].len(),
        merge_output(inputs, t).to_multiset() == taken_elements(inputs, merge_positions(inputs, t), inputs.len() as int),
    decreases t,
{
    broadcast use vstd::multiset::group_multiset_axioms;
    broadcast use vstd::seq_lib::to_multiset_build;

    if t == 0 {
        let idx = merge_positions(inputs, 0);
        assert(merge_output(inputs, 0).to_multiset() =~= Multiset::<u64>::empty()) by {
            broadcast use vstd::seq_lib::group_to_multiset_ensures;
        }
        lemma_taken_nothing(inputs, idx, inputs.len() as int);
    } else {
        lemma_merge_state(inputs, (t - 1) as nat);
        let idx = merge_positions(inputs, (t - 1) as nat);
        lemma_least_head(inputs, idx, inputs.len() as int);
        match least_head(inputs, idx, inputs.len() as int) {
            Some(j) => {
                lemma_taken_step(inputs, idx, j, inputs.len() as int);
                let idx2 = idx.update(j, idx[j] + 1);
                assert forall|i: int| 0 <= i < inputs.len() implies 0 <= #[trigger] idx2[i] <= inputs[i].len() by {
                    assert(0 <= idx[i] <= inputs[i].len());
                }
            },
            None => {},
        }
    }
}

/// Nothing is taken at the start
proof fn lemma_taken_nothing(inputs: Seq<Seq<u64>>, idx: Seq<int>, n: int)
    requires
        0 <= n <= inputs.len(),
        idx.len() == inputs.len(),
        forall|i: int| 0 <= i < inputs.len() ==> #[trigger] idx[i] == 0,
    ensures
        taken_elements(inputs, idx, n) =~= Multiset::<u64>::empty(),
    decreases n,
{
    broadcast use vstd::multiset::group_multiset_axioms;
    broadcast use vstd::seq_lib::group_to_multiset_ensures;

    if n > 0 {
        lemma_taken_nothing(inputs, idx, n - 1);
        assert(inputs[n - 1].take(0) =~= Seq::<u64>::empty());
    }
}

/// Taking every element of every input takes all the elements
proof fn lemma_taken_all(inputs: Seq<Seq<u64>>, idx: Seq<int>, n: int)
    requires
        0 <= n <= inputs.len(),
        idx.len() == inputs.len(),
        forall|i: int| 0 <= i < inputs.len() ==> #[trigger] idx[i] == inputs[i].len(),
    ensures
        taken_elements(inputs, idx, n) == taken_elements(
            inputs,
            Seq::new(inputs.len(), |i: int| inputs[i].len() as int),
            n,
        ),
    decreases n,
{
    if n > 0 {
        lemma_taken_all(inputs, idx, n - 1);
    }
}

/// When every input is sorted, the output is sorted and every head left is at
/// least the last element output
proof fn lemma_merge_sorted(inputs: Seq<Seq<u64>>, t: nat)
    requires
        forall|i: int| 0 <= i < inputs.len() ==> non_decreasing(#[trigger] inputs[i]),
    ensures
        non_decreasing(merge_output(inputs, t)),
        merge_output(inputs, t).len() > 0 ==> forall|i: int|
            0 <= i < inputs.len() && merge_positions(inputs, t)[i] < inputs[i].len() ==> #[trigger] inputs[i][merge_positions(
                inputs,
                t,
            )[i]] >= merge_output(inputs, t).last(),
    decreases t,
{
    if t > 0 {
        lemma_merge_sorted(inputs, (t - 1) as nat);
        lemma_merge_state(inputs, (t - 1) as nat);
        let idx = merge_positions(inputs, (t - 1) as nat);
        let out = merge_output(inputs, (t - 1) as nat);
        lemma_least_head(inputs, idx, inputs.len() as int);
        match least_head(inputs, idx, inputs.len() as int) {
            Some(j) => {
                let x = inputs[j][idx[j]];
                let idx2 = idx.update(j, idx[j] + 1);
                assert(merge_output(inputs, t) == out.push(x));
                assert(merge_positions(inputs, t) == idx2);
                assert forall|a: int, b: int| 0 <= a < b < out.len() + 1 implies out.push(x)[a] <= out.push(x)[b] by {
                    if b == out.len() {
                        assert(out[a] <= out.last());
                    }
                }
                assert forall|i: int| 0 <= i < inputs.len() && idx2[i] < inputs[i].len() implies #[trigger] inputs[i][idx2[i]] >= x by {
                    if i == j {
                        assert(non_decreasing(inputs[j]));
                        assert(inputs[j][idx[j]] <= inputs[j][idx[j] + 1]);
                    } else {
                        assert(idx2[i] == idx[i]);
                    }
                }
            },
            None => {},
        }
    }
}

/// Merging takes every element of the inputs once: when no head is left, the
/// output holds exactly the elements of the inputs
pub proof fn law_merge_keeps_every_element(inputs: Seq<Seq<u64>>, t: nat)
    requires
        least_head(inputs, merge_positions(inputs, t), inputs.len() as int) is None,
    ensures
        merge_output(inputs, t).to_multiset() == all_elements(inputs),
{
    lemma_merge_state(inputs, t);
    let idx = merge_positions(inputs, t);
    lemma_least_head(inputs, idx, inputs.len() as int);
    lemma_taken_all(inputs, idx, inputs.len() as int);
}

/// Merging arrays sorted in ascending order gives an array sorted in ascending order
pub proof fn law_merge_of_sorted_is_sorted(inputs: Seq<Seq<u64>>, t: nat)
    requires
        forall|i: int| 0 <= i < inputs.len() ==> non_decreasing(#[trigger] inputs[i]),
    ensures
        non_decreasing(merge_output(inputs, t)),
{
    lemma_merge_sorted(inputs, t);
}

} // verus!
