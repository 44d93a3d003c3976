//! A map from symbol names to the payloads to write over them.

use vstd::prelude::*;

use crate::hex::HexBytes;
use crate::order::{lemma_name_order, name_lt, str_lt};

verus! {

/// Map of symbol name to payload bytes. Names are unique and kept in
/// ascending byte order, so two maps with the same contents are equal.
#[derive(Debug, PartialEq, Eq)]
pub struct Entries {
    pairs: Vec<(String, HexBytes)>,
}

/// Each name of `s` comes strictly before the names after it.
pub open spec fn names_ascending(s: Seq<(Seq<char>, Seq<u8>)>) -> bool {
    forall|i: int, j: int| 0 <= i < j < s.len() ==> name_lt(#[trigger] s[i].0, #[trigger] s[j].0)
}

/// The map that the pairs of `s` make, later pairs taking precedence.
pub open spec fn pairs_map(s: Seq<(Seq<char>, Seq<u8>)>) -> Map<Seq<char>, Seq<u8>>
    decreases s.len(),
{
    if s.len() == 0 {
        Map::empty()
    } else {
        pairs_map(s.drop_last()).insert(s.last().0, s.last().1)
    }
}

/// In ascending pairs each name occurs once, and the map gives each name its payload.
pub proof fn lemma_pairs_map(s: Seq<(Seq<char>, Seq<u8>)>)
    requires
        names_ascending(s),
    ensures
        forall|k: Seq<char>| #[trigger] pairs_map(s).dom().contains(k) <==> exists|i: int| 0 <= i < s.len() && s[i].0 == k,
        forall|i: int| 0 <= i < s.len() ==> pairs_map(s)[#[trigger] s[i].0] == s[i].1,
    decreases s.len(),
{
    if s.len() > 0 {
        let before = s.drop_last();
        assert(names_ascending(before)) by {
            assert forall|i: int, j: int| 0 <= i < j < before.len() implies name_lt(#[trigger] before[i].0, #[trigger] before[j].0) by {
                assert(before[i] == s[i] && before[j] == s[j]);
            }
        }
        lemma_pairs_map(before);
        let last = s.last();
        assert forall|k: Seq<char>| #[trigger] pairs_map(s).dom().contains(k) <==> exists|i: int| 0 <= i < s.len() && s[i].0 == k by {
            if pairs_map(s).dom().contains(k) && k != last.0 {
                assert(pairs_map(before).dom().contains(k));
                let i = choose|i: int| 0 <= i < before.len() && before[i].0 == k;
                assert(s[i] == before[i]);
            }
            if exists|i: int| 0 <= i < s.len() && s[i].0 == k {
                let i = choose|i: int| 0 <= i < s.len() && s[i].0 == k;
                if i < before.len() {
                    assert(before[i] == s[i]);
                } else {
                    assert(s[i] == last);
                }
            }
        }
        assert forall|i: int| 0 <= i < s.len() implies pairs_map(s)[#[trigger] s[i].0] == s[i].1 by {
            if i < before.len() {
                assert(before[i] == s[i]);
                assert(name_lt(s[i].0, s[s.len() - 1].0));
                lemma_name_order(s[i].0, s[i].0, s[i].0);
                assert(s[i].0 != last.0);
            }
        }
    }
}

impl View for Entries {
    type V = Seq<(Seq<char>, Seq<u8>)>;

    /// The pairs in ascending name order.
    closed spec fn view(&self) -> Seq<(Seq<char>, Seq<u8>)> {
        self.pairs@.map_values(|p: (String, HexBytes)| (p.0@, p.1.0@))
    }
}

impl Entries {
    #[verifier::type_invariant]
    spec fn ascending(self) -> bool {
        names_ascending(self@)
    }

    /// An empty map.
    pub fn new() -> (r: Self)
        ensures
            r@ == Seq::<(Seq<char>, Seq<u8>)>::empty(),
    {
        let r = Entries { pairs: Vec::new() };
        assert(r@ =~= Seq::<(Seq<char>, Seq<u8>)>::empty());
        r
    }

    /// The number of names.
    pub fn len(&self) -> (n: usize)
        ensures
            n == self@.len(),
            names_ascending(self@),
    {
        proof {
            use_type_invariant(self);
        }
        self.pairs.len()
    }

    /// The `i`-th name and its payload, in ascending name order.
    pub fn entry(&self, i: usize) -> (r: (&String, &HexBytes))
        requires
            i < self@.len(),
        ensures
            (r.0@, r.1.0@) == self@[i as int],
    {
        let p = &self.pairs[i];
        (&p.0, &p.1)
    }

    /// The payload for `name`, if the map has one.
    pub fn get(&self, name: &str) -> (r: Option<&HexBytes>)
        ensures
            r is Some <==> pairs_map(self@).dom().contains(name@),
            r matches Some(b) ==> pairs_map(self@)[name@] == b.0@,
    {
        proof {
            use_type_invariant(self);
            lemma_pairs_map(self@);
        }
        let key = name.to_owned();
        let n = self.pairs.len();
        let mut i: usize = 0;
        while i < n
            invariant
                n == self@.len(),
                key@ == name@,
                i <= n,
                forall|j: int| 0 <= j < i ==> (#[trigger] self@[j]).0 != name@,
            decreases n - i,
        {
            assert(self@[i as int].0 == self.pairs@[i as int].0@);
            if self.pairs[i].0 == key {
                proof {
                    use_type_invariant(self);
                    lemma_pairs_map(self@);
                    assert(self@[i as int].0 == name@);
                }
                return Some(&self.pairs[i].1);
            }
            i = i + 1;
        }
        proof {
            use_type_invariant(self);
            lemma_pairs_map(self@);
        }
        None
    }

    /// Sets the payload of `name`, returning the payload it replaces, if any.
    pub fn insert(&mut self, name: String, bytes: HexBytes) -> (r: Option<HexBytes>)
        ensures
            pairs_map(final(self)@) == pairs_map(old(self)@).insert(name@, bytes.0@),
            r is Some <==> pairs_map(old(self)@).dom().contains(name@),
            r matches Some(b) ==> pairs_map(old(self)@)[name@] == b.0@,
    {
        proof {
            use_type_invariant(&*self);
            lemma_pairs_map(self@);
        }
        let mut pairs: Vec<(String, HexBytes)> = Vec::new();
        std::mem::swap(&mut pairs, &mut self.pairs);
        let ghost old_view = pairs@.map_values(|p: (String, HexBytes)| (p.0@, p.1.0@));
        assert(old_view == old(self)@);
        let n = pairs.len();
        let mut p: usize = 0;
        while p < n && str_lt(pairs[p].0.as_str(), name.as_str())
            invariant
                n == pairs@.len(),
                p <= n,
                old_view == pairs@.map_values(|q: (String, HexBytes)| (q.0@, q.1.0@)),
                forall|j: int| 0 <= j < p ==> name_lt((#[trigger] old_view[j]).0, name@),
            decreases n - p,
        {
            assert(old_view[p as int].0 == pairs@[p as int].0@);
            p = p + 1;
        }
        let replaced = p < n && pairs[p].0 == name;
        let ghost key = name@;
        let ghost val = bytes.0@;
        let r = if replaced {
            let old_pair = pairs.remove(p);
            pairs.insert(p, (name, bytes));
            Some(old_pair.1)
        } else {
            pairs.insert(p, (name, bytes));
            None
        };
        let ghost new_view = pairs@.map_values(|q: (String, HexBytes)| (q.0@, q.1.0@));
        proof {
            if replaced {
                assert(new_view =~= old_view.update(p as int, (key, val)));
            } else {
                assert(new_view =~= old_view.insert(p as int, (key, val)));
                if p < n {
                    assert(old_view[p as int].0 == pairs@[p as int + 1].0@);
                }
            }
            assert forall|i: int, j: int| 0 <= i < j < new_view.len() implies name_lt(#[trigger] new_view[i].0, #[trigger] new_view[j].0) by {
                if p < n {
                    lemma_name_order(key, old_view[p as int].0, old_view[p as int].0);
                }
                if i == p && j > p && p < n {
                    let k = if replaced { j } else { j - 1 };
                    if k > p {
                        lemma_name_order(key, old_view[p as int].0, old_view[k].0);
                    }
                } else if j == p && i < p {
                } else if i < p && j > p {
                    let k = if replaced { j } else { j - 1 };
                    lemma_name_order(new_view[i].0, key, old_view[k].0);
                    if k > p && p < n {
                        lemma_name_order(key, old_view[p as int].0, old_view[k].0);
                    }
                }
            }
            lemma_pairs_map(new_view);
            lemma_pairs_map(old_view);
            assert(pairs_map(new_view) =~= pairs_map(old_view).insert(key, val)) by {
                assert forall|k: Seq<char>| #[trigger] pairs_map(new_view).dom().contains(k) == pairs_map(old_view).insert(key, val).dom().contains(k) by {
                    if pairs_map(new_view).dom().contains(k) && k != key {
                        let i = choose|i: int| 0 <= i < new_view.len() && new_view[i].0 == k;
                        let oi = if replaced || i < p { i } else { i - 1 };
                        assert(old_view[oi].0 == k);
                    }
                    if pairs_map(old_view).dom().contains(k) && k != key {
                        let i = choose|i: int| 0 <= i < old_view.len() && old_view[i].0 == k;
                        let ni = if replaced || i < p { i } else { i + 1 };
                        assert(new_view[ni].0 == k);
                    }
                    if k == key {
                        assert(new_view[p as int].0 == key);
                    }
                }
                assert forall|k: Seq<char>| #[trigger] pairs_map(new_view).dom().contains(k) implies pairs_map(new_view)[k] == pairs_map(old_view).insert(key, val)[k] by {
                    let i = choose|i: int| 0 <= i < new_view.len() && new_view[i].0 == k;
                    if k != key {
                        let oi = if replaced || i < p { i } else { i - 1 };
                        assert(old_view[oi] == new_view[i]);
                        assert(pairs_map(old_view)[old_view[oi].0] == old_view[oi].1);
                        assert(pairs_map(new_view)[new_view[i].0] == new_view[i].1);
                    } else {
                        assert(new_view[p as int] == (key, val));
                        assert(pairs_map(new_view)[new_view[p as int].0] == new_view[p as int].1);
                        assert(pairs_map(new_view)[k] == val);
                    }
                }
            }
            if replaced {
                assert(old_view[p as int].0 == key);
            } else {
                assert forall|i: int| 0 <= i < old_view.len() implies old_view[i].0 != key by {
                    if i < p {
                        lemma_name_order(key, key, key);
                    } else if p < n {
                        lemma_name_order(key, old_view[p as int].0, old_view[i].0);
                    }
                }
            }
        }
        self.pairs = pairs;
        r
    }
}

impl Clone for Entries {
    fn clone(&self) -> (r: Self)
        ensures
            r@ == self@,
    {
        proof {
            use_type_invariant(self);
        }
        let n = self.pairs.len();
        let mut pairs: Vec<(String, HexBytes)> = Vec::new();
        let mut i: usize = 0;
        while i < n
            invariant
                n == self@.len(),
                i <= n,
                pairs@.len() == i,
                forall|j: int| 0 <= j < i ==> (#[trigger] pairs@[j]).0@ == self@[j].0 && pairs@[j].1.0@ == self@[j].1,
            decreases n - i,
        {
            let p = &self.pairs[i];
            assert(self@[i as int] == (p.0@, p.1.0@));
            let bytes = p.1.0.clone();
            assert(bytes@ =~= p.1.0@);
            pairs.push((p.0.clone(), HexBytes(bytes)));
            i = i + 1;
        }
        let r = Entries { pairs };
        proof {
            assert(r@ =~= self@);
        }
        r
    }
}

impl Default for Entries {
    fn default() -> (r: Self)
        ensures
            r@ == Seq::<(Seq<char>, Seq<u8>)>::empty(),
    {
        Entries::new()
    }
}

/// What a lookup gives back of an insertion: after `insert(name, bytes)` the
/// map gives `bytes` for `name`, and every other name keeps what it had.
pub proof fn law_get_after_insert(
    before: Seq<(Seq<char>, Seq<u8>)>,
    after: Seq<(Seq<char>, Seq<u8>)>,
    name: Seq<char>,
    bytes: Seq<u8>,
    other: Seq<char>,
)
    requires
        pairs_map(after) == pairs_map(before).insert(name, bytes),
        other != name,
    ensures
        pairs_map(after).dom().contains(name),
        pairs_map(after)[name] == bytes,
        pairs_map(after).dom().contains(other) == pairs_map(before).dom().contains(other),
        pairs_map(before).dom().contains(other) ==> pairs_map(after)[other] == pairs_map(before)[other],
{
}

} // verus!
