//! Account-bytes container: an ordered, key-unique mapping from a textual
//! account identifier (base58-encoded public key) to its raw byte payload.
//!
//! Entries are kept sorted by strict lexicographic key order, so two
//! observations of equal content are byte-for-byte comparable and no key is
//! ever silently dropped or duplicated. The container never interprets the
//! payload bytes.

use vstd::prelude::*;
use vstd::string::StrSliceExecFns;

verus! {

/// Strict lexicographic order on character sequences, by code point.
pub open spec fn lex_lt(a: Seq<char>, b: Seq<char>) -> bool
    decreases a.len(),
{
    if b.len() == 0 {
        false
    } else if a.len() == 0 {
        true
    } else if a[0] != b[0] {
        (a[0] as u32) < (b[0] as u32)
    } else {
        lex_lt(a.drop_first(), b.drop_first())
    }
}

/// No sequence is lexicographically below itself.
pub proof fn lemma_lex_lt_irrefl(a: Seq<char>)
    ensures
        !lex_lt(a, a),
    decreases a.len(),
{
    if a.len() > 0 {
        lemma_lex_lt_irrefl(a.drop_first());
    }
}

/// Two distinct sequences are ordered one way or the other.
pub proof fn lemma_lex_lt_connected(a: Seq<char>, b: Seq<char>)
    ensures
        a != b ==> lex_lt(a, b) || lex_lt(b, a),
    decreases a.len(),
{
    if a.len() == 0 && b.len() == 0 {
        assert(a =~= b);
    } else if a.len() > 0 && b.len() > 0 && a[0] == b[0] {
        lemma_lex_lt_connected(a.drop_first(), b.drop_first());
        if a.drop_first() == b.drop_first() {
            assert(a.drop_first().len() == a.len() - 1);
            assert(b.drop_first().len() == b.len() - 1);
            assert forall|j: int| 0 <= j < a.len() implies a[j] == b[j] by {
                if j > 0 {
                    assert(a.drop_first()[j - 1] == a[j]);
                    assert(b.drop_first()[j - 1] == b[j]);
                }
            }
            assert(a =~= b);
        }
    } else if a.len() > 0 && b.len() > 0 {
        if (a[0] as u32) == (b[0] as u32) {
            vstd::utf8::char_u32_cast(a[0], a[0] as u32);
            vstd::utf8::char_u32_cast(b[0], b[0] as u32);
            assert(a[0] == b[0]);
        }
    }
}

/// The order is asymmetric.
pub proof fn lemma_lex_lt_asym(a: Seq<char>, b: Seq<char>)
    ensures
        !(lex_lt(a, b) && lex_lt(b, a)),
    decreases a.len(),
{
    if a.len() > 0 && b.len() > 0 && a[0] == b[0] {
        lemma_lex_lt_asym(a.drop_first(), b.drop_first());
    }
}

/// The order is transitive.
pub proof fn lemma_lex_lt_trans(a: Seq<char>, b: Seq<char>, c: Seq<char>)
    requires
        lex_lt(a, b),
        lex_lt(b, c),
    ensures
        lex_lt(a, c),
    decreases a.len(),
{
    if a.len() > 0 && b.len() > 0 && c.len() > 0 && a[0] == b[0] && b[0] == c[0] {
        lemma_lex_lt_trans(a.drop_first(), b.drop_first(), c.drop_first());
    }
}

/// Comparing below a common prefix reduces to comparing the suffixes.
proof fn lemma_lex_lt_common_prefix(a: Seq<char>, b: Seq<char>, i: int)
    requires
        0 <= i <= a.len(),
        i <= b.len(),
        forall|j: int| 0 <= j < i ==> a[j] == b[j],
    ensures
        lex_lt(a, b) == lex_lt(a.skip(i), b.skip(i)),
    decreases i,
{
    if i == 0 {
        assert(a.skip(0) =~= a);
        assert(b.skip(0) =~= b);
    } else {
        assert(a[0] == b[0]);
        assert(forall|j: int| 0 <= j < i - 1 ==> a.drop_first()[j] == b.drop_first()[j]);
        lemma_lex_lt_common_prefix(a.drop_first(), b.drop_first(), i - 1);
        assert(a.drop_first().skip(i - 1) =~= a.skip(i));
        assert(b.drop_first().skip(i - 1) =~= b.skip(i));
    }
}

/// Character-wise equality of two string slices.
fn str_eq(a: &str, b: &str) -> (r: bool)
    ensures
        r == (a@ == b@),
{
    let a_len: usize = a.unicode_len();
    let b_len: usize = b.unicode_len();
    if a_len != b_len {
        return false;
    }
    let mut i: usize = 0;
    while i < a_len
        invariant
            a_len == a@.len(),
            b_len == b@.len(),
            a_len == b_len,
            i <= a_len,
            forall|j: int| 0 <= j < i ==> a@[j] == b@[j],
        decreases a_len - i,
    {
        let ca = a.get_char(i);
        let cb = b.get_char(i);
        if ca != cb {
            return false;
        }
        i += 1;
    }
    proof {
        assert(a@ =~= b@);
    }
    true
}

/// Character-wise strict lexicographic comparison of two string slices.
fn str_lt(a: &str, b: &str) -> (r: bool)
    ensures
        r == lex_lt(a@, b@),
{
    let a_len: usize = a.unicode_len();
    let b_len: usize = b.unicode_len();
    let mut i: usize = 0;
    while i < a_len && i < b_len
        invariant
            a_len == a@.len(),
            b_len == b@.len(),
            i <= a_len,
            i <= b_len,
            forall|j: int| 0 <= j < i ==> a@[j] == b@[j],
        decreases a_len - i,
    {
        let ca = a.get_char(i);
        let cb = b.get_char(i);
        if ca != cb {
            proof {
                lemma_lex_lt_common_prefix(a@, b@, i as int);
                assert(a@.skip(i as int)[0] == a@[i as int]);
                assert(b@.skip(i as int)[0] == b@[i as int]);
            }
            return (ca as u32) < (cb as u32);
        }
        i += 1;
    }
    proof {
        lemma_lex_lt_common_prefix(a@, b@, i as int);
    }
    i == a_len && i < b_len
}

/// Raw account bytes keyed by base58 public key string.
///
/// The container is immutable once an observation is complete: it is filled
/// by the transport, returned whole, and never partially populated. Keys are
/// unique and kept in a canonical (sorted) order.
#[derive(Debug, Clone)]
pub struct RawAccounts {
    entries: Vec<(String, Vec<u8>)>,
}

impl View for RawAccounts {
    type V = Map<Seq<char>, Seq<u8>>;

    closed spec fn view(&self) -> Map<Seq<char>, Seq<u8>> {
        Map::new(
            |k: Seq<char>| self.key_seq().contains(k),
            |k: Seq<char>| self.entries@[self.key_index(k)].1@,
        )
    }
}

impl RawAccounts {
    /// The keys, in storage order.
    pub closed spec fn key_seq(&self) -> Seq<Seq<char>> {
        Seq::new(self.entries@.len(), |i: int| self.entries@[i].0@)
    }

    /// Position of key `k` among the entries; meaningful when the key is
    /// present and the container is well formed.
    closed spec fn key_index(&self, k: Seq<char>) -> int {
        choose|i: int| 0 <= i < self.entries@.len() && self.entries@[i].0@ == k
    }

    /// Well-formedness: keys strictly increase in lexicographic order, hence
    /// are unique and canonically arranged.
    pub closed spec fn wf(&self) -> bool {
        forall|i: int, j: int|
            #![trigger self.entries@[i], self.entries@[j]]
            0 <= i < j < self.entries@.len() ==> lex_lt(
                self.entries@[i].0@,
                self.entries@[j].0@,
            )
    }

    /// In a well-formed container, distinct positions hold distinct keys.
    proof fn lemma_wf_distinct(&self)
        requires
            self.wf(),
        ensures
            forall|i: int, j: int|
                #![trigger self.entries@[i], self.entries@[j]]
                0 <= i < self.entries@.len() && 0 <= j < self.entries@.len() && i != j
                    ==> self.entries@[i].0@ != self.entries@[j].0@,
    {
        assert forall|i: int, j: int|
            #![trigger self.entries@[i], self.entries@[j]]
            0 <= i < self.entries@.len() && 0 <= j < self.entries@.len() && i != j implies self
            .entries@[i].0@ != self.entries@[j].0@ by {
            if self.entries@[i].0@ == self.entries@[j].0@ {
                lemma_lex_lt_irrefl(self.entries@[i].0@);
            }
        }
    }

    /// In a well-formed container, the entry at position `i` is exactly the
    /// view's binding for its key.
    proof fn lemma_at_index(&self, i: int)
        requires
            self.wf(),
            0 <= i < self.entries@.len(),
        ensures
            self@.contains_key(self.entries@[i].0@),
            self@[self.entries@[i].0@] == self.entries@[i].1@,
    {
        let k = self.entries@[i].0@;
        assert(self.key_seq()[i] == k);
        assert(self.key_seq().contains(k));
        self.lemma_wf_distinct();
        let j = self.key_index(k);
        assert(0 <= j < self.entries@.len() && self.entries@[j].0@ == k);
        assert(j == i);
    }

    /// An empty container.
    pub fn new() -> (r: RawAccounts)
        ensures
            r.wf(),
            r@ == Map::<Seq<char>, Seq<u8>>::empty(),
            r.key_seq().len() == 0,
    {
        let r = RawAccounts { entries: Vec::new() };
        proof {
            assert(r@ =~= Map::<Seq<char>, Seq<u8>>::empty());
        }
        r
    }

    /// Number of entries.
    pub fn len(&self) -> (n: usize)
        ensures
            n == self.key_seq().len(),
    {
        self.entries.len()
    }

    /// The bytes observed for `key`, or `None` when the identifier has no
    /// entry.
    pub fn get(&self, key: &str) -> (r: Option<&Vec<u8>>)
        requires
            self.wf(),
        ensures
            match r {
                Some(v) => self@.contains_key(key@) && v@ == self@[key@],
                None => !self@.contains_key(key@),
            },
    {
        let n: usize = self.entries.len();
        let mut i: usize = 0;
        while i < n
            invariant
                self.wf(),
                n == self.entries@.len(),
                i <= n,
                forall|j: int| 0 <= j < i ==> (#[trigger] self.entries@[j]).0@ != key@,
            decreases n - i,
        {
            if str_eq(self.entries[i].0.as_str(), key) {
                proof {
                    self.lemma_at_index(i as int);
                }
                return Some(&self.entries[i].1);
            }
            i += 1;
        }
        proof {
            if self.key_seq().contains(key@) {
                let j = choose|j: int| 0 <= j < self.key_seq().len() && self.key_seq()[j] == key@;
                assert(self.entries@[j].0@ == key@);
            }
        }
        None
    }

    /// Inserts `key` with payload `value`, keeping the canonical order; an
    /// existing entry under the same key is replaced.
    pub fn insert(&mut self, key: String, value: Vec<u8>)
        requires
            old(self).wf(),
        ensures
            final(self).wf(),
            final(self)@ == old(self)@.insert(key@, value@),
            old(self)@.contains_key(key@) ==> final(self).key_seq().len() == old(
                self,
            ).key_seq().len(),
            !old(self)@.contains_key(key@) ==> final(self).key_seq().len() == old(
                self,
            ).key_seq().len() + 1,
    {
        let ghost s0 = old(self).entries@;
        let n: usize = self.entries.len();
        let mut p: usize = 0;
        while p < n && str_lt(self.entries[p].0.as_str(), key.as_str())
            invariant
                *self == *old(self),
                n == self.entries@.len(),
                p <= n,
                forall|j: int| 0 <= j < p ==> lex_lt((#[trigger] self.entries@[j]).0@, key@),
            decreases n - p,
        {
            p += 1;
        }
        if p < n && str_eq(self.entries[p].0.as_str(), key.as_str()) {
            proof {
                old(self).lemma_at_index(p as int);
                old(self).lemma_wf_distinct();
            }
            let _ = self.entries.remove(p);
            self.entries.insert(p, (key, value));
            proof {
                s0.remove_ensures(p as int);
                s0.remove(p as int).insert_ensures(p as int, self.entries@[p as int]);
                assert forall|t: int| 0 <= t < s0.len() && t != p implies self.entries@[t]
                    == s0[t] by {
                    if t < p {
                        assert(s0.remove(p as int)[t] == s0[t]);
                    } else {
                        assert(s0.remove(p as int)[t - 1] == s0[t]);
                    }
                }
                assert(self.entries@[p as int].0@ == key@);
                assert(self.entries@[p as int].1@ == value@);
                assert(self.entries@.len() == s0.len());
                self.lemma_replace_view(p as int, *old(self));
            }
        } else {
            proof {
                old(self).lemma_wf_distinct();
                if p < n {
                    lemma_lex_lt_connected(key@, s0[p as int].0@);
                }
                assert forall|t: int| p <= t < s0.len() implies lex_lt(
                    key@,
                    (#[trigger] s0[t]).0@,
                ) by {
                    if t > p {
                        lemma_lex_lt_trans(key@, s0[p as int].0@, s0[t].0@);
                    }
                }
                assert forall|t: int| 0 <= t < s0.len() implies (#[trigger] s0[t]).0@
                    != key@ by {
                    if s0[t].0@ == key@ {
                        lemma_lex_lt_irrefl(key@);
                    }
                }
                if old(self).key_seq().contains(key@) {
                    let j = choose|j: int|
                        0 <= j < old(self).key_seq().len() && old(self).key_seq()[j] == key@;
                    assert(s0[j].0@ == key@);
                }
                assert(!old(self)@.contains_key(key@));
            }
            self.entries.insert(p, (key, value));
            proof {
                s0.insert_ensures(p as int, self.entries@[p as int]);
                assert(self.entries@[p as int].0@ == key@);
                assert(self.entries@[p as int].1@ == value@);
                self.lemma_fresh_view(p as int, *old(self));
            }
        }
    }

    /// After replacing the entry at `i` of `prev` with one whose key reads
    /// the same, the container is still well formed and the view is the
    /// view of `prev` with that one binding replaced.
    proof fn lemma_replace_view(&self, i: int, prev: RawAccounts)
        requires
            prev.wf(),
            0 <= i < prev.entries@.len(),
            self.entries@.len() == prev.entries@.len(),
            forall|t: int|
                #![trigger self.entries@[t]]
                #![trigger prev.entries@[t]]
                0 <= t < prev.entries@.len() && t != i ==> self.entries@[t] == prev.entries@[t],
            self.entries@[i].0@ == prev.entries@[i].0@,
        ensures
            self.wf(),
            self@ == prev@.insert(self.entries@[i].0@, self.entries@[i].1@),
    {
        let k = self.entries@[i].0@;
        let v = self.entries@[i].1@;
        assert forall|a: int, b: int|
            #![trigger self.entries@[a], self.entries@[b]]
            0 <= a < b < self.entries@.len() implies lex_lt(
            self.entries@[a].0@,
            self.entries@[b].0@,
        ) by {
            assert(self.entries@[a].0@ == prev.entries@[a].0@);
            assert(self.entries@[b].0@ == prev.entries@[b].0@);
            assert(lex_lt(prev.entries@[a].0@, prev.entries@[b].0@));
        }
        assert(self.wf());
        self.lemma_wf_distinct();
        prev.lemma_wf_distinct();
        assert forall|q: Seq<char>| self@.contains_key(q) == prev@.insert(k, v).contains_key(
            q,
        ) by {
            self.lemma_contains_iff(q);
            prev.lemma_contains_iff(q);
            if self@.contains_key(q) {
                let t = choose|t: int|
                    0 <= t < self.entries@.len() && (#[trigger] self.entries@[t]).0@ == q;
                if t == i {
                    assert(q == k);
                } else {
                    assert(prev.entries@[t].0@ == q);
                }
            }
            if q != k && prev@.contains_key(q) {
                let t = choose|t: int|
                    0 <= t < prev.entries@.len() && (#[trigger] prev.entries@[t]).0@ == q;
                assert(t != i);
                assert(self.entries@[t].0@ == q);
            }
            if q == k {
                assert(self.entries@[i].0@ == q);
            }
        }
        assert forall|q: Seq<char>| self@.contains_key(q) implies self@[q] == prev@.insert(
            k,
            v,
        )[q] by {
            self.lemma_contains_iff(q);
            let t = choose|t: int|
                0 <= t < self.entries@.len() && (#[trigger] self.entries@[t]).0@ == q;
            self.lemma_at_index(t);
            if t == i {
                assert(q == k);
            } else {
                assert(q != k);
                prev.lemma_at_index(t);
            }
        }
        assert(self@ =~= prev@.insert(k, v));
    }

    /// After inserting at position `i` of `prev` an entry whose key is
    /// absent from `prev`, ordered below all entries from `i` on and above
    /// all entries before `i`, the container is still well formed and the
    /// view is the view of `prev` with one binding added.
    proof fn lemma_fresh_view(&self, i: int, prev: RawAccounts)
        requires
            prev.wf(),
            0 <= i <= prev.entries@.len(),
            self.entries@.len() == prev.entries@.len() + 1,
            forall|t: int|
                #![trigger self.entries@[t]]
                #![trigger prev.entries@[t]]
                0 <= t < i ==> self.entries@[t] == prev.entries@[t],
            forall|t: int|
                #![trigger prev.entries@[t]]
                i <= t < prev.entries@.len() ==> self.entries@[t + 1] == prev.entries@[t],
            forall|t: int| 0 <= t < i ==> lex_lt(
                (#[trigger] prev.entries@[t]).0@,
                self.entries@[i].0@,
            ),
            forall|t: int| i <= t < prev.entries@.len() ==> lex_lt(
                self.entries@[i].0@,
                (#[trigger] prev.entries@[t]).0@,
            ),
        ensures
            self.wf(),
            self@ == prev@.insert(self.entries@[i].0@, self.entries@[i].1@),
    {
        let k = self.entries@[i].0@;
        let v = self.entries@[i].1@;
        assert forall|a: int, b: int|
            #![trigger self.entries@[a], self.entries@[b]]
            0 <= a < b < self.entries@.len() implies lex_lt(
            self.entries@[a].0@,
            self.entries@[b].0@,
        ) by {
            if a < i && b < i {
                assert(lex_lt(prev.entries@[a].0@, prev.entries@[b].0@));
            } else if a < i && b == i {
                assert(lex_lt(prev.entries@[a].0@, k));
            } else if a < i && b > i {
                assert(self.entries@[b] == prev.entries@[b - 1]);
                assert(lex_lt(prev.entries@[a].0@, prev.entries@[b - 1].0@));
            } else if a == i {
                assert(self.entries@[b] == prev.entries@[b - 1]);
                assert(lex_lt(k, prev.entries@[b - 1].0@));
            } else {
                assert(self.entries@[a] == prev.entries@[a - 1]);
                assert(self.entries@[b] == prev.entries@[b - 1]);
                assert(lex_lt(prev.entries@[a - 1].0@, prev.entries@[b - 1].0@));
            }
        }
        assert(self.wf());
        self.lemma_wf_distinct();
        prev.lemma_wf_distinct();
        assert forall|q: Seq<char>| self@.contains_key(q) == prev@.insert(k, v).contains_key(
            q,
        ) by {
            self.lemma_contains_iff(q);
            prev.lemma_contains_iff(q);
            if q == k {
                assert(self.entries@[i].0@ == q);
            } else {
                if prev@.contains_key(q) {
                    let t = choose|t: int|
                        0 <= t < prev.entries@.len() && (#[trigger] prev.entries@[t]).0@ == q;
                    if t < i {
                        assert(self.entries@[t].0@ == q);
                    } else {
                        assert(self.entries@[t + 1].0@ == q);
                    }
                }
                if self@.contains_key(q) {
                    let t = choose|t: int|
                        0 <= t < self.entries@.len() && (#[trigger] self.entries@[t]).0@ == q;
                    if t < i {
                        assert(prev.entries@[t].0@ == q);
                    } else {
                        assert(t != i);
                        assert(prev.entries@[t - 1].0@ == q);
                    }
                }
            }
        }
        assert forall|q: Seq<char>| self@.contains_key(q) implies self@[q] == prev@.insert(
            k,
            v,
        )[q] by {
            self.lemma_contains_iff(q);
            let t = choose|t: int|
                0 <= t < self.entries@.len() && (#[trigger] self.entries@[t]).0@ == q;
            self.lemma_at_index(t);
            if t == i {
                assert(q == k);
            } else {
                assert(q != k);
                if t < i {
                    prev.lemma_at_index(t);
                } else {
                    prev.lemma_at_index(t - 1);
                    assert(self.entries@[t] == prev.entries@[t - 1]);
                }
            }
        }
        assert(self@ =~= prev@.insert(k, v));
    }

    /// The view holds a key exactly when some entry holds it.
    proof fn lemma_contains_iff(&self, q: Seq<char>)
        ensures
            self@.contains_key(q) == exists|t: int|
                0 <= t < self.entries@.len() && (#[trigger] self.entries@[t]).0@ == q,
    {
        if self.key_seq().contains(q) {
            let j = choose|j: int| 0 <= j < self.key_seq().len() && self.key_seq()[j] == q;
            assert(self.entries@[j].0@ == q);
        }
        if exists|t: int| 0 <= t < self.entries@.len() && (#[trigger] self.entries@[t]).0@ == q {
            let t = choose|t: int|
                0 <= t < self.entries@.len() && (#[trigger] self.entries@[t]).0@ == q;
            assert(self.key_seq()[t] == q);
            assert(self.key_seq().contains(q));
        }
    }

    /// The view binds a key exactly when the key listing holds it.
    pub proof fn lemma_view_keys(&self)
        ensures
            forall|k: Seq<char>| self@.contains_key(k) <==> self.key_seq().contains(k),
    {
    }

    /// In a well-formed container the key listing is strictly sorted.
    pub proof fn lemma_keys_sorted(&self)
        requires
            self.wf(),
        ensures
            strictly_sorted(self.key_seq()),
    {
        assert forall|i: int, j: int| 0 <= i < j < self.key_seq().len() implies lex_lt(
            #[trigger] self.key_seq()[i],
            #[trigger] self.key_seq()[j],
        ) by {
            assert(self.key_seq()[i] == self.entries@[i].0@);
            assert(self.key_seq()[j] == self.entries@[j].0@);
        }
    }

    /// Size law: a well-formed container binds exactly as many identifiers
    /// as it has entries — its view's domain is finite, with one element per
    /// entry.
    pub proof fn lemma_dom_len(&self)
        requires
            self.wf(),
        ensures
            self@.dom().finite(),
            self@.dom().len() == self.key_seq().len(),
    {
        broadcast use vstd::seq_lib::seq_to_set_is_finite;

        self.lemma_view_keys();
        self.lemma_wf_distinct();
        assert forall|i: int, j: int|
            0 <= i < self.key_seq().len() && 0 <= j < self.key_seq().len() && i != j implies self
            .key_seq()[i] != self.key_seq()[j] by {
            assert(self.key_seq()[i] == self.entries@[i].0@);
            assert(self.key_seq()[j] == self.entries@[j].0@);
        }
        assert(self.key_seq().no_duplicates());
        self.key_seq().unique_seq_to_set();
        assert(self@.dom() =~= self.key_seq().to_set());
    }

    /// The keys in canonical order, as owned strings.
    pub fn keys(&self) -> (r: Vec<String>)
        ensures
            r@.len() == self.key_seq().len(),
            forall|i: int| 0 <= i < r@.len() ==> (#[trigger] r@[i])@ == self.key_seq()[i],
    {
        let n: usize = self.entries.len();
        let mut r: Vec<String> = Vec::new();
        let mut i: usize = 0;
        while i < n
            invariant
                n == self.entries@.len(),
                i <= n,
                r@.len() == i,
                forall|j: int| 0 <= j < i ==> (#[trigger] r@[j])@ == self.entries@[j].0@,
            decreases n - i,
        {
            r.push(self.entries[i].0.clone());
            i += 1;
        }
        r
    }

    /// Builds a container from (identifier, bytes) pairs; a later pair under
    /// the same identifier overrides an earlier one.
    pub fn from_pairs(pairs: &Vec<(String, Vec<u8>)>) -> (r: RawAccounts)
        ensures
            r.wf(),
            r@ == map_of_pairs(pairs_view(pairs@)),
    {
        let ghost pv = pairs_view(pairs@);
        let mut r = RawAccounts::new();
        let n: usize = pairs.len();
        let mut i: usize = 0;
        proof {
            assert(pv.take(0) =~= Seq::<(Seq<char>, Seq<u8>)>::empty());
        }
        while i < n
            invariant
                r.wf(),
                n == pairs@.len(),
                i <= n,
                pv == pairs_view(pairs@),
                pv.len() == n,
                r@ == map_of_pairs(pv.take(i as int)),
            decreases n - i,
        {
            let key = pairs[i].0.clone();
            let value = vstd::slice::slice_to_vec(pairs[i].1.as_slice());
            r.insert(key, value);
            proof {
                assert(pv.take(i + 1).drop_last() =~= pv.take(i as int));
                assert(pv.take(i + 1).last() == pv[i as int]);
            }
            i += 1;
        }
        proof {
            assert(pv.take(n as int) =~= pv);
        }
        r
    }
}

/// Strict lexicographic sortedness of a key listing.
pub open spec fn strictly_sorted(keys: Seq<Seq<char>>) -> bool {
    forall|i: int, j: int| 0 <= i < j < keys.len() ==> lex_lt(#[trigger] keys[i], #[trigger] keys[j])
}

/// Two strictly sorted listings of the same keys are identical.
proof fn lemma_sorted_unique_key_seqs(s1: Seq<Seq<char>>, s2: Seq<Seq<char>>)
    requires
        strictly_sorted(s1),
        strictly_sorted(s2),
        forall|k: Seq<char>| s1.contains(k) <==> s2.contains(k),
    ensures
        s1 == s2,
    decreases s1.len(),
{
    if s1.len() == 0 {
        if s2.len() > 0 {
            assert(s2.contains(s2[0]));
            let i = choose|i: int| 0 <= i < s1.len() && s1[i] == s2[0];
            assert(false);
        }
        assert(s1 =~= s2);
    } else {
        assert(s1.contains(s1[0]));
        let j = choose|j: int| 0 <= j < s2.len() && s2[j] == s1[0];
        if j > 0 {
            assert(s2.contains(s2[0]));
            let i = choose|i: int| 0 <= i < s1.len() && s1[i] == s2[0];
            assert(lex_lt(s2[0], s2[j]));
            if i == 0 {
                lemma_lex_lt_irrefl(s1[0]);
                assert(false);
            } else {
                assert(lex_lt(s1[0], s1[i]));
                lemma_lex_lt_asym(s1[0], s2[0]);
                assert(false);
            }
        }
        assert(s1[0] == s2[0]);
        let t1 = s1.drop_first();
        let t2 = s2.drop_first();
        assert forall|a: int, b: int| 0 <= a < b < t1.len() implies lex_lt(
            #[trigger] t1[a],
            #[trigger] t1[b],
        ) by {
            assert(t1[a] == s1[a + 1]);
            assert(t1[b] == s1[b + 1]);
        }
        assert forall|a: int, b: int| 0 <= a < b < t2.len() implies lex_lt(
            #[trigger] t2[a],
            #[trigger] t2[b],
        ) by {
            assert(t2[a] == s2[a + 1]);
            assert(t2[b] == s2[b + 1]);
        }
        assert forall|k: Seq<char>| t1.contains(k) <==> t2.contains(k) by {
            if t1.contains(k) {
                let a = choose|a: int| 0 <= a < t1.len() && t1[a] == k;
                assert(s1[a + 1] == k);
                assert(s1.contains(k));
                assert(lex_lt(s1[0], k));
                if k == s2[0] {
                    lemma_lex_lt_irrefl(k);
                }
                let b = choose|b: int| 0 <= b < s2.len() && s2[b] == k;
                assert(b > 0);
                assert(t2[b - 1] == k);
                assert(t2.contains(k));
            }
            if t2.contains(k) {
                let a = choose|a: int| 0 <= a < t2.len() && t2[a] == k;
                assert(s2[a + 1] == k);
                assert(s2.contains(k));
                assert(lex_lt(s2[0], k));
                if k == s1[0] {
                    lemma_lex_lt_irrefl(k);
                }
                let b = choose|b: int| 0 <= b < s1.len() && s1[b] == k;
                assert(b > 0);
                assert(t1[b - 1] == k);
                assert(t1.contains(k));
            }
        }
        lemma_sorted_unique_key_seqs(t1, t2);
        assert forall|t: int| 0 <= t < s1.len() implies s1[t] == s2[t] by {
            if t > 0 {
                assert(t1[t - 1] == s1[t]);
                assert(t2[t - 1] == s2[t]);
            }
        }
        assert(s1 =~= s2);
    }
}

/// Canonical-order law: two well-formed containers with the same contents
/// list their keys identically, whatever order the entries arrived in —
/// repeated observations of equal state are comparable entry by entry.
pub proof fn lemma_canonical_key_order(x: &RawAccounts, y: &RawAccounts)
    requires
        x.wf(),
        y.wf(),
        x@ == y@,
    ensures
        x.key_seq() == y.key_seq(),
{
    x.lemma_keys_sorted();
    y.lemma_keys_sorted();
    x.lemma_view_keys();
    y.lemma_view_keys();
    assert forall|k: Seq<char>| x.key_seq().contains(k) <==> y.key_seq().contains(k) by {
        assert(x@.contains_key(k) == y@.contains_key(k));
    }
    lemma_sorted_unique_key_seqs(x.key_seq(), y.key_seq());
}

/// The pairs a container is built from, as character and byte sequences.
pub open spec fn pairs_view(pairs: Seq<(String, Vec<u8>)>) -> Seq<(Seq<char>, Seq<u8>)> {
    Seq::new(pairs.len(), |i: int| (pairs[i].0@, pairs[i].1@))
}

/// The mapping described by a sequence of (identifier, bytes) pairs; a later
/// pair under the same identifier overrides an earlier one.
pub open spec fn map_of_pairs(pairs: Seq<(Seq<char>, Seq<u8>)>) -> Map<Seq<char>, Seq<u8>>
    decreases pairs.len(),
{
    if pairs.len() == 0 {
        Map::empty()
    } else {
        map_of_pairs(pairs.drop_last()).insert(pairs.last().0, pairs.last().1)
    }
}

/// No two pairs share an identifier.
pub open spec fn unique_keys(pairs: Seq<(Seq<char>, Seq<u8>)>) -> bool {
    forall|i: int, j: int|
        #![trigger pairs[i], pairs[j]]
        0 <= i < j < pairs.len() ==> pairs[i].0 != pairs[j].0
}

/// Round-trip law: a container built from uniquely keyed pairs loses no
/// entry and invents none — every supplied identifier is present and maps to
/// exactly the bytes supplied for it, and no other identifier is present.
pub proof fn lemma_map_of_pairs_round_trip(pairs: Seq<(Seq<char>, Seq<u8>)>)
    requires
        unique_keys(pairs),
    ensures
        forall|i: int| 0 <= i < pairs.len() ==> map_of_pairs(pairs).contains_key(
            (#[trigger] pairs[i]).0,
        ),
        forall|i: int| 0 <= i < pairs.len() ==> map_of_pairs(pairs)[(#[trigger] pairs[i]).0]
            == pairs[i].1,
        forall|k: Seq<char>| #[trigger] map_of_pairs(pairs).contains_key(k) ==> exists|i: int|
            0 <= i < pairs.len() && (#[trigger] pairs[i]).0 == k,
    decreases pairs.len(),
{
    if pairs.len() > 0 {
        let prefix = pairs.drop_last();
        assert forall|i: int, j: int|
            #![trigger prefix[i], prefix[j]]
            0 <= i < j < prefix.len() implies prefix[i].0 != prefix[j].0 by {
            assert(prefix[i] == pairs[i]);
            assert(prefix[j] == pairs[j]);
        }
        lemma_map_of_pairs_round_trip(prefix);
        assert forall|i: int| 0 <= i < pairs.len() implies map_of_pairs(pairs).contains_key(
            (#[trigger] pairs[i]).0,
        ) && map_of_pairs(pairs)[pairs[i].0] == pairs[i].1 by {
            if i < pairs.len() - 1 {
                assert(prefix[i] == pairs[i]);
                assert(pairs[i].0 != pairs.last().0);
            }
        }
        assert forall|k: Seq<char>| #[trigger] map_of_pairs(pairs).contains_key(k) implies exists|
            i: int,
        | 0 <= i < pairs.len() && (#[trigger] pairs[i]).0 == k by {
            if k == pairs.last().0 {
                assert(pairs[pairs.len() - 1].0 == k);
            } else {
                assert(map_of_pairs(prefix).contains_key(k));
                let i = choose|i: int| 0 <= i < prefix.len() && (#[trigger] prefix[i]).0 == k;
                assert(prefix[i] == pairs[i]);
                assert(pairs[i].0 == k);
            }
        }
    }
}

} // verus!
