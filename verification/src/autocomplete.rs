//! Prefix autocompletion over a fixed collection of weighted terms: a linear
//! scan for the terms whose query starts with the prefix, returned in
//! descending order of weight.

use vstd::prelude::*;

use crate::term::{str_bytes, Term};

verus! {

/// Whether the term's query starts with prefix `p`.
pub open spec fn matches_prefix(t: Term, p: Seq<char>) -> bool {
    str_bytes(p).is_prefix_of(str_bytes(t.query@))
}

/// The subsequence of `s` whose queries start with `p`, in the order given.
pub open spec fn matching(s: Seq<Term>, p: Seq<char>) -> Seq<Term>
    decreases s.len(),
{
    if s.len() == 0 {
        Seq::empty()
    } else {
        let rest = matching(s.drop_last(), p);
        if matches_prefix(s.last(), p) {
            rest.push(s.last())
        } else {
            rest
        }
    }
}

/// What identifies a term: its query's characters and its weight.
pub open spec fn term_key(t: Term) -> (Seq<char>, u32) {
    (t.query@, t.weight)
}

/// The terms of `s` reduced to their keys.
pub open spec fn keys_of(s: Seq<Term>) -> Seq<(Seq<char>, u32)> {
    s.map_values(|t: Term| term_key(t))
}

proof fn lemma_matching_push(s: Seq<Term>, p: Seq<char>, v: Term)
    ensures
        matching(s.push(v), p) == if matches_prefix(v, p) {
            matching(s, p).push(v)
        } else {
            matching(s, p)
        },
{
    assert(s.push(v).drop_last() =~= s);
}

/// Inserting anywhere adds exactly one occurrence to the multiset.
proof fn lemma_insert_to_multiset<A>(s: Seq<A>, i: int, v: A)
    requires
        0 <= i <= s.len(),
    ensures
        s.insert(i, v).to_multiset() == s.to_multiset().insert(v),
{
    broadcast use vstd::seq_lib::group_to_multiset_ensures;
    broadcast use vstd::multiset::group_multiset_axioms;

    let pre = s.subrange(0, i);
    let suf = s.subrange(i, s.len() as int);
    assert(s =~= pre + suf);
    vstd::seq_lib::lemma_multiset_commutative(pre.push(v), suf);
    vstd::seq_lib::lemma_multiset_commutative(pre, suf);
    assert(s.insert(i, v) == pre.push(v) + suf);
    assert(pre.push(v).to_multiset() =~= pre.to_multiset().insert(v));
    assert(s.insert(i, v).to_multiset() =~= s.to_multiset().insert(v));
}

/// Sorts the terms by weight, heaviest first, keeping exactly the same
/// terms (as a multiset of keys).
fn sort_by_weight_descending(input: &Vec<Term>) -> (out: Vec<Term>)
    ensures
        keys_of(out@).to_multiset() == keys_of(input@).to_multiset(),
        forall|x: int, y: int|
            0 <= x < y < out@.len() ==> (#[trigger] out@[x]).weight >= (#[trigger] out@[y]).weight,
{
    let mut out: Vec<Term> = Vec::new();
    let n = input.len();
    let mut k: usize = 0;
    proof {
        assert(keys_of(out@) =~= keys_of(input@.subrange(0, 0)));
    }
    while k < n
        invariant
            n == input@.len(),
            k <= n,
            out@.len() == k,
            keys_of(out@).to_multiset() == keys_of(input@.subrange(0, k as int)).to_multiset(),
            forall|x: int, y: int|
                0 <= x < y < out@.len() ==> (#[trigger] out@[x]).weight >= (
                #[trigger] out@[y]).weight,
        decreases n - k,
    {
        broadcast use vstd::seq_lib::group_to_multiset_ensures;

        let t = &input[k];
        let mut pos: usize = 0;
        while pos < out.len() && out[pos].weight >= t.weight
            invariant
                pos <= out@.len(),
                forall|x: int| 0 <= x < pos ==> (#[trigger] out@[x]).weight >= t.weight,
            decreases out@.len() - pos,
        {
            pos = pos + 1;
        }
        let ghost out0 = out@;
        let fresh = Term { query: t.query.clone(), weight: t.weight };
        out.insert(pos, fresh);
        proof {
            assert(term_key(fresh) == term_key(input@[k as int]));
            lemma_insert_to_multiset(keys_of(out0), pos as int, term_key(fresh));
            assert(keys_of(out0.insert(pos as int, fresh)) =~= keys_of(out0).insert(
                pos as int,
                term_key(fresh),
            ));
            assert(input@.subrange(0, k as int + 1) =~= input@.subrange(0, k as int).push(
                input@[k as int],
            ));
            assert(keys_of(input@.subrange(0, k as int).push(input@[k as int])) =~= keys_of(
                input@.subrange(0, k as int),
            ).push(term_key(input@[k as int])));
            assert(keys_of(out@).to_multiset() == keys_of(input@.subrange(0, k as int + 1)).to_multiset());
            // order: everything before `pos` is at least as heavy, everything
            // from `pos` on was already below the new term's weight
            assert forall|x: int, y: int|
                0 <= x < y < out@.len() implies (#[trigger] out@[x]).weight >= (
            #[trigger] out@[y]).weight by {
                if x < pos as int && y == pos as int {
                } else if x == pos as int && y > pos as int {
                    assert(out@[y] == out0[y - 1]);
                    if pos as int <= y - 1 && (pos as int) < out0.len() {
                        assert(out0[pos as int].weight < fresh.weight || pos as int == y - 1);
                    }
                } else if x < pos as int && y > pos as int {
                    assert(out@[x] == out0[x]);
                    assert(out@[y] == out0[y - 1]);
                } else if x > pos as int {
                    assert(out@[x] == out0[x - 1]);
                    assert(out@[y] == out0[y - 1]);
                } else {
                    assert(out@[x] == out0[x]);
                    assert(out@[y] == out0[y]);
                }
            }
        }
        k = k + 1;
    }
    proof {
        assert(input@.subrange(0, n as int) =~= input@);
    }
    out
}

/// Autocompletion over a borrowed, fixed collection of weighted terms.
pub struct Autocomplete<'a> {
    pub terms: &'a Vec<Term>,
}

impl<'a> Autocomplete<'a> {
    /// Wraps the term collection.
    pub fn new(terms: &'a Vec<Term>) -> (a: Self)
        ensures
            a.terms == terms,
    {
        Autocomplete { terms }
    }

    /// All terms whose query starts with `prefix`, heaviest first.
    pub fn all_matches(&self, prefix: &str) -> (res: Vec<Term>)
        ensures
            keys_of(res@).to_multiset() == keys_of(matching(self.terms@, prefix@)).to_multiset(),
            forall|x: int, y: int|
                0 <= x < y < res@.len() ==> (#[trigger] res@[x]).weight >= (
                #[trigger] res@[y]).weight,
    {
        let mut gathered: Vec<Term> = Vec::new();
        let n = self.terms.len();
        let mut k: usize = 0;
        proof {
            assert(keys_of(gathered@) =~= keys_of(matching(self.terms@.subrange(0, 0), prefix@)));
        }
        while k < n
            invariant
                n == self.terms@.len(),
                k <= n,
                keys_of(gathered@) == keys_of(matching(self.terms@.subrange(0, k as int), prefix@)),
            decreases n - k,
        {
            let ghost g0 = gathered@;
            let ghost m0 = matching(self.terms@.subrange(0, k as int), prefix@);
            let t = &self.terms[k];
            if t.query_starts_with(prefix) {
                let fresh = Term { query: t.query.clone(), weight: t.weight };
                let ghost fkey = term_key(fresh);
                gathered.push(fresh);
                proof {
                    assert(fkey == term_key(self.terms@[k as int]));
                    assert(keys_of(gathered@) =~= keys_of(g0).push(fkey));
                    assert(keys_of(m0.push(self.terms@[k as int])) =~= keys_of(m0).push(fkey));
                }
            }
            proof {
                lemma_matching_push(
                    self.terms@.subrange(0, k as int),
                    prefix@,
                    self.terms@[k as int],
                );
                assert(self.terms@.subrange(0, k as int + 1) =~= self.terms@.subrange(
                    0,
                    k as int,
                ).push(self.terms@[k as int]));
            }
            k = k + 1;
        }
        proof {
            assert(self.terms@.subrange(0, n as int) =~= self.terms@);
        }
        sort_by_weight_descending(&gathered)
    }

    /// How many terms' queries start with `prefix`.
    pub fn number_of_matches(&self, prefix: &str) -> (c: usize)
        ensures
            c == matching(self.terms@, prefix@).len(),
    {
        let mut c: usize = 0;
        let n = self.terms.len();
        let mut k: usize = 0;
        while k < n
            invariant
                n == self.terms@.len(),
                k <= n,
                c <= k,
                c == matching(self.terms@.subrange(0, k as int), prefix@).len(),
            decreases n - k,
        {
            let t = &self.terms[k];
            if t.query_starts_with(prefix) {
                c = c + 1;
            }
            proof {
                lemma_matching_push(
                    self.terms@.subrange(0, k as int),
                    prefix@,
                    self.terms@[k as int],
                );
                assert(self.terms@.subrange(0, k as int + 1) =~= self.terms@.subrange(
                    0,
                    k as int,
                ).push(self.terms@[k as int]));
            }
            k = k + 1;
        }
        proof {
            assert(self.terms@.subrange(0, n as int) =~= self.terms@);
        }
        c
    }
}

} // verus!
