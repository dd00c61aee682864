//! Field names for the product that gathers an operation's inputs: the parameter's
//! name, with its location appended where two inputs share a name, and underscores
//! appended until no earlier field has it.

use vstd::prelude::*;

use crate::object::ObjectId;
use crate::openapi::text::push_char;

verus! {

/// An input of an operation: its name, where it comes from, and its object.
pub type Input = (String, String, ObjectId);

/// The view of inputs.
pub open spec fn inputs_view(v: Seq<Input>) -> Seq<(Seq<char>, Seq<char>, Seq<char>)> {
    v.map_values(|e: Input| (e.0@, e.1@, e.2@))
}

/// How many inputs are named `n`.
pub open spec fn name_count(es: Seq<(Seq<char>, Seq<char>, Seq<char>)>, n: Seq<char>) -> nat
    decreases es.len(),
{
    if es.len() == 0 {
        0
    } else {
        name_count(es.drop_last(), n) + if es.last().0 == n {
            1nat
        } else {
            0nat
        }
    }
}

/// The name proposed for input `k`: its own, or, where another input has it too, its
/// own followed by `_` and where it comes from.
pub open spec fn proposed_name(es: Seq<(Seq<char>, Seq<char>, Seq<char>)>, k: int) -> Seq<char> {
    if name_count(es, es[k].0) > 1 {
        es[k].0 + "_"@ + es[k].1
    } else {
        es[k].0
    }
}

/// The names proposed for all inputs.
pub open spec fn proposed_names(es: Seq<(Seq<char>, Seq<char>, Seq<char>)>) -> Seq<Seq<char>> {
    Seq::new(es.len(), |k: int| proposed_name(es, k))
}

/// The total length of some names.
pub open spec fn name_total(used: Seq<Seq<char>>) -> nat
    decreases used.len(),
{
    if used.len() == 0 {
        0
    } else {
        name_total(used.drop_last()) + used.last().len()
    }
}

/// A name of `used` is no longer than all of them together.
pub proof fn lemma_member_len(used: Seq<Seq<char>>, n: Seq<char>)
    requires
        used.contains(n),
    ensures
        n.len() <= name_total(used),
    decreases used.len(),
{
    if used.last() != n {
        let k = choose|k: int| 0 <= k < used.len() && used[k] == n;
        assert(used.drop_last()[k] == n);
        lemma_member_len(used.drop_last(), n);
    }
}

/// `cand` with underscores appended until it is not among `used`.
pub open spec fn fresh_name(used: Seq<Seq<char>>, cand: Seq<char>) -> Seq<char>
    decreases name_total(used) + 1 - cand.len(),
{
    if used.contains(cand) {
        proof {
            lemma_member_len(used, cand);
        }
        fresh_name(used, cand.push('_'))
    } else {
        cand
    }
}

/// A fresh name is not among the names it avoids.
pub proof fn lemma_fresh_name(used: Seq<Seq<char>>, cand: Seq<char>)
    ensures
        !used.contains(fresh_name(used, cand)),
    decreases name_total(used) + 1 - cand.len(),
{
    if used.contains(cand) {
        lemma_member_len(used, cand);
        lemma_fresh_name(used, cand.push('_'));
    }
}

/// The names given to the proposals `cands` in order, after the names `used`.
pub open spec fn spec_unique_names(cands: Seq<Seq<char>>, used: Seq<Seq<char>>) -> Seq<Seq<char>>
    decreases cands.len(),
{
    if cands.len() == 0 {
        used
    } else {
        spec_unique_names(cands.drop_first(), used.push(fresh_name(used, cands[0])))
    }
}

/// Giving names keeps them distinct, and gives one name per proposal.
pub proof fn lemma_unique_names(cands: Seq<Seq<char>>, used: Seq<Seq<char>>)
    requires
        used.no_duplicates(),
    ensures
        spec_unique_names(cands, used).no_duplicates(),
        spec_unique_names(cands, used).len() == used.len() + cands.len(),
    decreases cands.len(),
{
    if cands.len() > 0 {
        let f = fresh_name(used, cands[0]);
        lemma_fresh_name(used, cands[0]);
        let next = used.push(f);
        assert forall|i: int, j: int| 0 <= i < next.len() && 0 <= j < next.len() && i != j implies next[i]
            != next[j] by {
            if i == used.len() {
                assert(used[j] == next[j]);
            } else if j == used.len() {
                assert(used[i] == next[i]);
            }
        }
        lemma_unique_names(cands.drop_first(), next);
    }
}

/// The field names of the inputs `es`.
pub open spec fn field_names(es: Seq<(Seq<char>, Seq<char>, Seq<char>)>) -> Seq<Seq<char>> {
    spec_unique_names(proposed_names(es), Seq::empty())
}

/// The fields of the product of the inputs `es`: each input's object under its field name.
pub open spec fn input_fields(es: Seq<(Seq<char>, Seq<char>, Seq<char>)>) -> Seq<(Seq<char>, Seq<char>)> {
    Seq::new(es.len(), |k: int| (field_names(es)[k], es[k].2))
}

/// The field names of a set of inputs are distinct, one for each input.
pub proof fn law_field_names_distinct(es: Seq<(Seq<char>, Seq<char>, Seq<char>)>)
    ensures
        field_names(es).no_duplicates(),
        field_names(es).len() == es.len(),
{
    lemma_unique_names(proposed_names(es), Seq::empty());
}

fn count_name(es: &Vec<Input>, n: &String) -> (r: usize)
    ensures
        r == name_count(inputs_view(es@), n@),
{
    let ghost v = inputs_view(es@);
    let mut cnt: usize = 0;
    let mut i: usize = 0;
    while i < es.len()
        invariant
            i <= es.len(),
            v == inputs_view(es@),
            cnt <= i,
            cnt == name_count(v.subrange(0, i as int), n@),
        decreases es.len() - i,
    {
        proof {
            assert(v.subrange(0, i + 1).drop_last() =~= v.subrange(0, i as int));
        }
        if es[i].0 == *n {
            cnt = cnt + 1;
        }
        i = i + 1;
    }
    proof {
        assert(v.subrange(0, es@.len() as int) =~= v);
    }
    cnt
}

fn contains_name(used: &Vec<String>, n: &String) -> (r: bool)
    ensures
        r == used@.map_values(|s: String| s@).contains(n@),
{
    let ghost names = used@.map_values(|s: String| s@);
    let mut i: usize = 0;
    while i < used.len()
        invariant
            i <= used.len(),
            names == used@.map_values(|s: String| s@),
            forall|j: int| 0 <= j < i ==> (#[trigger] used@[j])@ != n@,
        decreases used.len() - i,
    {
        if used[i] == *n {
            proof {
                assert(names[i as int] == n@);
            }
            return true;
        }
        i = i + 1;
    }
    proof {
        if names.contains(n@) {
            let j = choose|j: int| 0 <= j < names.len() && names[j] == n@;
            assert(used@[j]@ == n@);
        }
    }
    false
}

/// The field names of the inputs `es` (see [`field_names`]).
pub fn input_field_names(es: &Vec<Input>) -> (r: Vec<String>)
    ensures
        r@.map_values(|s: String| s@) == field_names(inputs_view(es@)),
{
    let ghost v = inputs_view(es@);
    let ghost cands = proposed_names(v);
    let mut used: Vec<String> = Vec::new();
    let mut k: usize = 0;
    proof {
        assert(cands.subrange(0, cands.len() as int) =~= cands);
        assert(used@.map_values(|s: String| s@) =~= Seq::<Seq<char>>::empty());
    }
    while k < es.len()
        invariant
            k <= es.len(),
            v == inputs_view(es@),
            cands == proposed_names(v),
            spec_unique_names(cands.subrange(k as int, cands.len() as int), used@.map_values(|s: String| s@))
                == field_names(v),
        decreases es.len() - k,
    {
        let ghost names = used@.map_values(|s: String| s@);
        let ghost rest = cands.subrange(k as int, cands.len() as int);
        proof {
            assert(rest[0] == cands[k as int]);
            assert(rest.drop_first() =~= cands.subrange(k + 1, cands.len() as int));
        }
        let own = &es[k].0;
        let mut cand = if count_name(es, own) > 1 {
            let mut s = own.clone();
            s.append("_");
            s.append(es[k].1.as_str());
            s
        } else {
            own.clone()
        };
        proof {
            assert(cand@ == cands[k as int]);
        }
        let ghost start = cand@;
        while contains_name(&used, &cand)
            invariant
                names == used@.map_values(|s: String| s@),
                fresh_name(names, cand@) == fresh_name(names, start),
            decreases name_total(names) + 1 - cand@.len(),
        {
            proof {
                lemma_member_len(names, cand@);
            }
            push_char(&mut cand, '_');
        }
        used.push(cand);
        proof {
            assert(used@.map_values(|s: String| s@) =~= names.push(fresh_name(names, start)));
        }
        k = k + 1;
    }
    proof {
        assert(cands.subrange(k as int, cands.len() as int) =~= Seq::<Seq<char>>::empty());
    }
    used
}

} // verus!
