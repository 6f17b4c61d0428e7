use vstd::prelude::*;
use vstd::utf8::{encode_utf8, encode_utf8_decode_utf8};

verus! {

/// Byte-wise lexicographic order, the order of `str` and so of string keys.
pub open spec fn bytes_lt(a: Seq<u8>, b: Seq<u8>) -> bool
    decreases a.len(),
{
    if a.len() == 0 {
        b.len() > 0
    } else if b.len() == 0 {
        false
    } else if a[0] != b[0] {
        a[0] < b[0]
    } else {
        bytes_lt(a.drop_first(), b.drop_first())
    }
}

pub proof fn lemma_bytes_lt_irreflexive(a: Seq<u8>)
    ensures
        !bytes_lt(a, a),
    decreases a.len(),
{
    if a.len() > 0 {
        lemma_bytes_lt_irreflexive(a.drop_first());
    }
}

pub proof fn lemma_bytes_lt_trans(a: Seq<u8>, b: Seq<u8>, c: Seq<u8>)
    requires
        bytes_lt(a, b),
        bytes_lt(b, c),
    ensures
        bytes_lt(a, c),
    decreases a.len(),
{
    if a.len() > 0 && b.len() > 0 && c.len() > 0 && a[0] == b[0] && b[0] == c[0] {
        lemma_bytes_lt_trans(a.drop_first(), b.drop_first(), c.drop_first());
    }
}

pub proof fn lemma_bytes_lt_total(a: Seq<u8>, b: Seq<u8>)
    ensures
        a == b || bytes_lt(a, b) || bytes_lt(b, a),
    decreases a.len(),
{
    if a.len() > 0 && b.len() > 0 && a[0] == b[0] {
        lemma_bytes_lt_total(a.drop_first(), b.drop_first());
        if a.drop_first() == b.drop_first() {
            assert(a =~= seq![a[0]] + a.drop_first());
            assert(b =~= seq![b[0]] + b.drop_first());
        }
    } else if a.len() == 0 && b.len() == 0 {
        assert(a =~= b);
    }
}

pub proof fn lemma_bytes_lt_asym(a: Seq<u8>, b: Seq<u8>)
    requires
        bytes_lt(a, b),
    ensures
        !bytes_lt(b, a),
{
    if bytes_lt(b, a) {
        lemma_bytes_lt_trans(a, b, a);
        lemma_bytes_lt_irreflexive(a);
    }
}

/// Exactly one of equal, below, above.
pub proof fn lemma_bytes_order(a: Seq<u8>, b: Seq<u8>)
    ensures
        a == b ==> !bytes_lt(a, b) && !bytes_lt(b, a),
        bytes_lt(a, b) ==> !bytes_lt(b, a),
        a == b || bytes_lt(a, b) || bytes_lt(b, a),
{
    lemma_bytes_lt_total(a, b);
    lemma_bytes_lt_irreflexive(a);
    if bytes_lt(a, b) {
        lemma_bytes_lt_asym(a, b);
    }
}

/// Key order: the byte order of the keys' UTF-8 encodings.
pub open spec fn key_lt(a: Seq<char>, b: Seq<char>) -> bool {
    bytes_lt(encode_utf8(a), encode_utf8(b))
}

/// Distinct keys are ordered one way or the other.
pub proof fn lemma_key_order(a: Seq<char>, b: Seq<char>)
    ensures
        a == b ==> !key_lt(a, b),
        key_lt(a, b) ==> !key_lt(b, a),
        a == b || key_lt(a, b) || key_lt(b, a),
{
    lemma_bytes_order(encode_utf8(a), encode_utf8(b));
    encode_utf8_decode_utf8(a);
    encode_utf8_decode_utf8(b);
}

/// Whether key `a` sorts before key `b`.
pub fn key_before(a: &str, b: &str) -> (r: bool)
    ensures
        r == key_lt(a@, b@),
{
    compare_bytes(a.as_bytes(), b.as_bytes()) < 0
}

/// Whether two keys are the same text.
pub fn same_key(a: &str, b: &str) -> (r: bool)
    ensures
        r == (a@ == b@),
{
    let c = compare_bytes(a.as_bytes(), b.as_bytes());
    proof {
        encode_utf8_decode_utf8(a@);
        encode_utf8_decode_utf8(b@);
    }
    c == 0
}

/// Entries in strictly increasing key order (so keys are unique).
pub open spec fn sorted_entries(s: Seq<(Seq<char>, Seq<char>)>) -> bool {
    forall|i: int, j: int| 0 <= i < j < s.len() ==> #[trigger] key_lt(s[i].0, s[j].0)
}

/// The mapping that a sorted entry list stands for.
pub open spec fn entries_map(s: Seq<(Seq<char>, Seq<char>)>) -> Map<Seq<char>, Seq<char>> {
    Map::new(
        |k: Seq<char>| exists|i: int| 0 <= i < s.len() && s[i].0 == k,
        |k: Seq<char>| s[key_index(s, k)].1,
    )
}

/// A position of key `k` in `s`, when there is one.
pub open spec fn key_index(s: Seq<(Seq<char>, Seq<char>)>, k: Seq<char>) -> int {
    choose|i: int| 0 <= i < s.len() && s[i].0 == k
}

/// Three-way comparison of two byte strings: negative, zero or positive.
pub fn compare_bytes(a: &[u8], b: &[u8]) -> (r: i8)
    ensures
        r < 0 <==> bytes_lt(a@, b@),
        r == 0 <==> a@ == b@,
        r > 0 <==> bytes_lt(b@, a@),
{
    let mut i: usize = 0;
    assert(a@.skip(0) =~= a@);
    assert(b@.skip(0) =~= b@);
    while i < a.len() && i < b.len()
        invariant
            i <= a@.len(),
            i <= b@.len(),
            a@.subrange(0, i as int) == b@.subrange(0, i as int),
            bytes_lt(a@, b@) == bytes_lt(a@.skip(i as int), b@.skip(i as int)),
            bytes_lt(b@, a@) == bytes_lt(b@.skip(i as int), a@.skip(i as int)),
        decreases a@.len() - i,
    {
        if a[i] != b[i] {
            proof {
                lemma_bytes_order(a@, b@);
                if a@ == b@ {
                    assert(a@[i as int] == b@[i as int]);
                }
            }
            if a[i] < b[i] {
                return -1;
            } else {
                return 1;
            }
        }
        proof {
            assert(a@.skip(i as int).drop_first() =~= a@.skip(i + 1));
            assert(b@.skip(i as int).drop_first() =~= b@.skip(i + 1));
            assert(a@.subrange(0, i + 1) =~= a@.subrange(0, i as int).push(a@[i as int]));
            assert(b@.subrange(0, i + 1) =~= b@.subrange(0, i as int).push(b@[i as int]));
        }
        i = i + 1;
    }
    proof {
        lemma_bytes_order(a@, b@);
        if i == a@.len() && i == b@.len() {
            assert(a@ =~= a@.subrange(0, i as int));
            assert(b@ =~= b@.subrange(0, i as int));
        } else if i == a@.len() {
            assert(a@.skip(i as int).len() == 0);
            assert(a@ =~= b@.subrange(0, i as int));
        } else {
            assert(b@.skip(i as int).len() == 0);
            assert(b@ =~= a@.subrange(0, i as int));
        }
    }
    if a.len() < b.len() {
        -1
    } else if a.len() == b.len() {
        0
    } else {
        1
    }
}

/// A mapping from parameter name to value, kept in key order.
#[derive(Debug, Clone, PartialEq, Eq)]
pub struct ParamMap {
    entries: Vec<(String, String)>,
}

impl View for ParamMap {
    type V = Seq<(Seq<char>, Seq<char>)>;

    closed spec fn view(&self) -> Seq<(Seq<char>, Seq<char>)> {
        Seq::new(self.entries@.len(), |i: int| (self.entries@[i].0@, self.entries@[i].1@))
    }
}

impl ParamMap {
    /// Keys strictly increasing.
    pub open spec fn wf(&self) -> bool {
        sorted_entries(self@)
    }

    pub fn new() -> (m: Self)
        ensures
            m.wf(),
            m@ == Seq::<(Seq<char>, Seq<char>)>::empty(),
    {
        let m = ParamMap { entries: Vec::new() };
        assert(m@ =~= Seq::<(Seq<char>, Seq<char>)>::empty());
        m
    }

    /// A copy with the same entries.
    pub fn cloned(&self) -> (r: Self)
        ensures
            r@ == self@,
    {
        let mut entries: Vec<(String, String)> = Vec::new();
        let n = self.entries.len();
        for i in 0..n
            invariant
                n == self@.len(),
                entries@.len() == i,
                forall|j: int| 0 <= j < i ==> (#[trigger] entries@[j]).0@ == self@[j].0 && entries@[j].1@ == self@[j].1,
        {
            let k = self.entries[i].0.clone();
            let v = self.entries[i].1.clone();
            entries.push((k, v));
        }
        let r = ParamMap { entries };
        assert(r@ =~= self@);
        r
    }

    /// Checks that the keys are in strictly increasing order.
    pub fn is_sorted(&self) -> (r: bool)
        ensures
            r == self.wf(),
    {
        let n = self.entries.len();
        if n == 0 {
            return true;
        }
        let mut i: usize = 1;
        while i < n
            invariant
                1 <= i <= n,
                n == self@.len(),
                forall|a: int, b: int| 0 <= a < b < i ==> #[trigger] key_lt(self@[a].0, self@[b].0),
            decreases n - i,
        {
            if !key_before(self.entries[i - 1].0.as_str(), self.entries[i].0.as_str()) {
                proof {
                    if sorted_entries(self@) {
                        assert(key_lt(self@[i - 1].0, self@[i as int].0));
                    }
                }
                return false;
            }
            proof {
                assert forall|a: int, b: int| 0 <= a < b < i + 1 implies #[trigger] key_lt(self@[a].0, self@[b].0) by {
                    if b == i && a < i - 1 {
                        assert(key_lt(self@[a].0, self@[i - 1].0));
                        lemma_bytes_lt_trans(encode_utf8(self@[a].0), encode_utf8(self@[i - 1].0), encode_utf8(self@[b].0));
                    }
                }
            }
            i = i + 1;
        }
        true
    }

    pub fn len(&self) -> (n: usize)
        ensures
            n == self@.len(),
    {
        self.entries.len()
    }

    pub fn key_at(&self, i: usize) -> (k: &String)
        requires
            i < self@.len(),
        ensures
            k@ == self@[i as int].0,
    {
        &self.entries[i].0
    }

    pub fn value_at(&self, i: usize) -> (v: &String)
        requires
            i < self@.len(),
        ensures
            v@ == self@[i as int].1,
    {
        &self.entries[i].1
    }

    /// The value stored under `key`.
    pub fn get(&self, key: &str) -> (r: Option<&String>)
        requires
            self.wf(),
        ensures
            r is Some <==> entries_map(self@).contains_key(key@),
            r matches Some(v) ==> v@ == entries_map(self@)[key@],
    {
        let n = self.entries.len();
        for i in 0..n
            invariant
                n == self@.len(),
                sorted_entries(self@),
                forall|j: int| 0 <= j < i ==> self@[j].0 != key@,
        {
            if same_key(self.entries[i].0.as_str(), key) {
                proof {
                    lemma_unique_index_of(self@, i as int);
                }
                return Some(&self.entries[i].1);
            }
        }
        None
    }

    /// Stores `value` under `key`, replacing any earlier value.
    pub fn insert(&mut self, key: String, value: String)
        requires
            old(self).wf(),
        ensures
            final(self).wf(),
            entries_map(final(self)@) == entries_map(old(self)@).insert(key@, value@),
            (forall|i: int| 0 <= i < old(self)@.len() ==> key_lt(#[trigger] old(self)@[i].0, key@))
                ==> final(self)@ == old(self)@.push((key@, value@)),
    {
        let ghost old_view = self@;
        let n = self.entries.len();
        let mut pos: usize = 0;
        while pos < n && key_before(self.entries[pos].0.as_str(), key.as_str())
            invariant
                n == self@.len(),
                self@ == old_view,
                sorted_entries(old_view),
                pos <= n,
                forall|j: int| 0 <= j < pos ==> key_lt(#[trigger] old_view[j].0, key@),
            decreases n - pos,
        {
            pos = pos + 1;
        }
        let ghost k = key@;
        let ghost v = value@;
        if pos < n && same_key(self.entries[pos].0.as_str(), key.as_str()) {
            assert(old_view[pos as int].0 == k);
            self.entries.set(pos, (key, value));
            assert(self@ =~= old_view.update(pos as int, (k, v)));
            proof {
                assert forall|a: int, b: int| 0 <= a < b < self@.len() implies #[trigger] key_lt(self@[a].0, self@[b].0) by {
                    assert(key_lt(old_view[a].0, old_view[b].0));
                }
                self.lemma_map_update(old_view, pos as int, k, v);
            }
        } else {
            self.entries.insert(pos, (key, value));
            assert(self@ =~= old_view.insert(pos as int, (k, v)));
            proof {
                if pos < n {
                    lemma_key_order(old_view[pos as int].0, k);
                    assert(key_lt(k, old_view[pos as int].0));
                }
                assert forall|j: int| pos <= j < old_view.len() implies key_lt(k, #[trigger] old_view[j].0) by {
                    if j > pos {
                        assert(key_lt(old_view[pos as int].0, old_view[j].0));
                        lemma_bytes_lt_trans(encode_utf8(k), encode_utf8(old_view[pos as int].0), encode_utf8(old_view[j].0));
                    }
                }
                assert forall|j: int| 0 <= j < old_view.len() implies old_view[j].0 != k by {
                    if j < pos {
                        lemma_key_order(old_view[j].0, k);
                    } else {
                        assert(key_lt(k, old_view[j].0));
                        lemma_key_order(k, old_view[j].0);
                    }
                }
                assert forall|a: int, b: int| 0 <= a < b < self@.len() implies #[trigger] key_lt(self@[a].0, self@[b].0) by {
                    if a < pos && b < pos {
                        assert(key_lt(old_view[a].0, old_view[b].0));
                    } else if a < pos && b == pos {
                    } else if a < pos {
                        assert(key_lt(k, old_view[b - 1].0));
                        assert(key_lt(old_view[a].0, k));
                        lemma_bytes_lt_trans(encode_utf8(old_view[a].0), encode_utf8(k), encode_utf8(old_view[b - 1].0));
                    } else if a == pos {
                        assert(key_lt(k, old_view[b - 1].0));
                    } else {
                        assert(key_lt(old_view[a - 1].0, old_view[b - 1].0));
                    }
                }
                self.lemma_map_insert(old_view, pos as int, k, v);
            }
        }
    }

    proof fn lemma_map_update(&self, old_view: Seq<(Seq<char>, Seq<char>)>, pos: int, k: Seq<char>, v: Seq<char>)
        requires
            0 <= pos < old_view.len(),
            old_view[pos].0 == k,
            sorted_entries(old_view),
            sorted_entries(self@),
            self@ == old_view.update(pos, (k, v)),
        ensures
            entries_map(self@) == entries_map(old_view).insert(k, v),
    {
        assert forall|key: Seq<char>| #[trigger] entries_map(self@).contains_key(key) <==> entries_map(old_view).insert(k, v).contains_key(key) by {
            if entries_map(old_view).contains_key(key) {
                let j = key_index(old_view, key);
                assert(self@[j].0 == key);
            }
            if entries_map(self@).contains_key(key) {
                let j = key_index(self@, key);
                assert(old_view[j].0 == key);
            }
        }
        assert forall|key: Seq<char>| #[trigger] entries_map(self@).contains_key(key) implies entries_map(self@)[key] == entries_map(old_view).insert(k, v)[key] by {
            let j = key_index(self@, key);
            lemma_unique_index_of(self@, j);
            if key != k {
                lemma_unique_index_of(old_view, j);
            } else {
                lemma_unique_index_of(self@, pos);
            }
        }
        assert(entries_map(self@) =~= entries_map(old_view).insert(k, v));
    }

    proof fn lemma_map_insert(&self, old_view: Seq<(Seq<char>, Seq<char>)>, pos: int, k: Seq<char>, v: Seq<char>)
        requires
            0 <= pos <= old_view.len(),
            forall|j: int| 0 <= j < old_view.len() ==> old_view[j].0 != k,
            sorted_entries(old_view),
            sorted_entries(self@),
            self@ == old_view.insert(pos, (k, v)),
        ensures
            entries_map(self@) == entries_map(old_view).insert(k, v),
    {
        assert forall|key: Seq<char>| #[trigger] entries_map(self@).contains_key(key) <==> entries_map(old_view).insert(k, v).contains_key(key) by {
            if entries_map(old_view).contains_key(key) {
                let j = key_index(old_view, key);
                if j < pos {
                    assert(self@[j].0 == key);
                } else {
                    assert(self@[j + 1].0 == key);
                }
            }
            if key == k {
                assert(self@[pos].0 == key);
            }
            if entries_map(self@).contains_key(key) && key != k {
                let j = key_index(self@, key);
                if j < pos {
                    assert(old_view[j].0 == key);
                } else {
                    assert(old_view[j - 1].0 == key);
                }
            }
        }
        assert forall|key: Seq<char>| #[trigger] entries_map(self@).contains_key(key) implies entries_map(self@)[key] == entries_map(old_view).insert(k, v)[key] by {
            let j = key_index(self@, key);
            lemma_unique_index_of(self@, j);
            if key != k {
                if j < pos {
                    lemma_unique_index_of(old_view, j);
                } else {
                    lemma_unique_index_of(old_view, j - 1);
                }
            }
        }
        assert(entries_map(self@) =~= entries_map(old_view).insert(k, v));
    }
}

pub proof fn lemma_unique_index_of(s: Seq<(Seq<char>, Seq<char>)>, idx: int)
    requires
        0 <= idx < s.len(),
        sorted_entries(s),
    ensures
        entries_map(s).contains_key(s[idx].0),
        entries_map(s)[s[idx].0] == s[idx].1,
{
    let k = s[idx].0;
    assert(0 <= idx < s.len() && s[idx].0 == k);
    let j = key_index(s, k);
    if j != idx {
        if j < idx {
            assert(key_lt(s[j].0, s[idx].0));
        } else {
            assert(key_lt(s[idx].0, s[j].0));
        }
        lemma_bytes_lt_irreflexive(encode_utf8(k));
    }
    assert(entries_map(s).contains_key(k));
}

} // verus!
