//! Autocompletion terms: a query string with a weight, compared either
//! lexicographically by query or by descending weight.

use core::cmp::Ordering;
use vstd::prelude::*;

verus! {

/// The UTF-8 bytes of a string value; byte-lexicographic order over these
/// is exactly code-point order.
pub open spec fn str_bytes(s: Seq<char>) -> Seq<u8> {
    vstd::utf8::encode_utf8(s)
}

/// Lexicographic comparison of two byte sequences.
pub open spec fn bytes_cmp(a: Seq<u8>, b: Seq<u8>) -> Ordering
    decreases a.len(),
{
    if a.len() == 0 && b.len() == 0 {
        Ordering::Equal
    } else if a.len() == 0 {
        Ordering::Less
    } else if b.len() == 0 {
        Ordering::Greater
    } else if a[0] < b[0] {
        Ordering::Less
    } else if a[0] > b[0] {
        Ordering::Greater
    } else {
        bytes_cmp(a.drop_first(), b.drop_first())
    }
}

/// Compares two byte slices lexicographically.
fn compare_bytes(a: &[u8], b: &[u8]) -> (o: Ordering)
    ensures
        o == bytes_cmp(a@, b@),
{
    let mut k: usize = 0;
    proof {
        assert(a@.skip(0) =~= a@);
        assert(b@.skip(0) =~= b@);
    }
    while k < a.len() && k < b.len()
        invariant
            k <= a@.len(),
            k <= b@.len(),
            bytes_cmp(a@, b@) == bytes_cmp(a@.skip(k as int), b@.skip(k as int)),
        decreases a@.len() - k,
    {
        let ca = a[k];
        let cb = b[k];
        proof {
            assert(a@.skip(k as int)[0] == a@[k as int]);
            assert(b@.skip(k as int)[0] == b@[k as int]);
        }
        if ca < cb {
            return Ordering::Less;
        }
        if ca > cb {
            return Ordering::Greater;
        }
        proof {
            assert(a@.skip(k as int).drop_first() =~= a@.skip(k as int + 1));
            assert(b@.skip(k as int).drop_first() =~= b@.skip(k as int + 1));
        }
        k = k + 1;
    }
    proof {
        assert(a@.skip(k as int).len() == a@.len() - k);
        assert(b@.skip(k as int).len() == b@.len() - k);
    }
    if a.len() < b.len() {
        Ordering::Less
    } else if a.len() > b.len() {
        Ordering::Greater
    } else {
        Ordering::Equal
    }
}

/// Whether `p` is a byte-prefix of `s`.
fn has_byte_prefix(s: &[u8], p: &[u8]) -> (r: bool)
    ensures
        r == p@.is_prefix_of(s@),
{
    if p.len() > s.len() {
        return false;
    }
    let mut k: usize = 0;
    while k < p.len()
        invariant
            k <= p@.len(),
            p@.len() <= s@.len(),
            forall|x: int| 0 <= x < k ==> p@[x] == s@[x],
        decreases p@.len() - k,
    {
        if p[k] != s[k] {
            proof {
                assert(s@.subrange(0, p@.len() as int)[k as int] == s@[k as int]);
            }
            return false;
        }
        k = k + 1;
    }
    proof {
        assert(p@ =~= s@.subrange(0, p@.len() as int));
    }
    true
}

/// A term to autocomplete: a query string and the weight that ranks it.
/// Terms are equal when their queries are equal; the weight does not count.
#[derive(Debug)]
pub struct Term {
    pub query: String,
    pub weight: u32,
}

impl PartialEq for Term {
    fn eq(&self, other: &Term) -> (r: bool) {
        self.query.eq(&other.query)
    }
}

impl vstd::std_specs::cmp::PartialEqSpecImpl for Term {
    open spec fn obeys_eq_spec() -> bool {
        true
    }

    open spec fn eq_spec(&self, other: &Term) -> bool {
        self.query@ == other.query@
    }
}

/// The order `by_prefix_order` realizes: the first `k` bytes compared
/// lexicographically; when those agree because one query ran out before `k`
/// bytes, the shorter query comes first.
pub open spec fn prefix_order_spec(k: int, a: Seq<u8>, b: Seq<u8>) -> Ordering {
    let m = if k <= a.len() && k <= b.len() {
        k
    } else if a.len() <= b.len() {
        a.len() as int
    } else {
        b.len() as int
    };
    let o = bytes_cmp(a.subrange(0, m), b.subrange(0, m));
    if o == Ordering::Equal && m < k {
        if a.len() < b.len() {
            Ordering::Less
        } else {
            Ordering::Greater
        }
    } else {
        o
    }
}

impl Term {
    /// Builds a term from a query and its weight.
    pub fn new(q: &str, weight: u32) -> (t: Term)
        ensures
            t.query@ == q@,
            t.weight == weight,
    {
        Term { query: q.to_owned(), weight }
    }

    /// Whether `prefix` starts this term's query.
    pub fn query_starts_with(&self, prefix: &str) -> (r: bool)
        ensures
            r == str_bytes(prefix@).is_prefix_of(str_bytes(self.query@)),
    {
        has_byte_prefix(self.query.as_str().as_bytes(), prefix.as_bytes())
    }

    /// Compares the two terms in lexicographic order by query.
    pub fn cmp(&self, other: &Term) -> (o: Ordering)
        ensures
            o == bytes_cmp(str_bytes(self.query@), str_bytes(other.query@)),
    {
        compare_bytes(self.query.as_str().as_bytes(), other.query.as_str().as_bytes())
    }

    /// Compares the two terms in descending order by weight.
    pub fn by_reserve_weight_order(a: &Term, b: &Term) -> (o: Ordering)
        ensures
            o == (if a.weight > b.weight {
                Ordering::Less
            } else if a.weight < b.weight {
                Ordering::Greater
            } else {
                Ordering::Equal
            }),
    {
        if a.weight > b.weight {
            Ordering::Less
        } else if a.weight < b.weight {
            Ordering::Greater
        } else {
            Ordering::Equal
        }
    }

    /// Compares the two terms in lexicographic order, but using only the
    /// first `r` bytes of each query; when those agree and a query ended
    /// before `r` bytes, the shorter query comes first.
    pub fn by_prefix_order(r: usize, a: &Term, b: &Term) -> (o: Ordering)
        ensures
            o == prefix_order_spec(
                r as int,
                str_bytes(a.query@),
                str_bytes(b.query@),
            ),
    {
        let ab = a.query.as_str().as_bytes();
        let bb = b.query.as_str().as_bytes();
        let mut m: usize = r;
        if ab.len() < m {
            m = ab.len();
        }
        if bb.len() < m {
            m = bb.len();
        }
        let o = compare_bytes(&ab[0..m], &bb[0..m]);
        let tie = match o {
            Ordering::Equal => true,
            _ => false,
        };
        if tie && m < r {
            if ab.len() < bb.len() {
                Ordering::Less
            } else {
                Ordering::Greater
            }
        } else {
            o
        }
    }
}

} // verus!
