//! The directories found on one side: relative path to full URI, kept in
//! the order of the relative paths.

use vstd::prelude::*;
use crate::text::chars_of;
use vstd::utf8::{encode_scalar, encode_utf8, is_scalar, has_width_1_encoding, has_width_2_encoding,
    has_width_3_encoding, has_width_4_encoding, leading_byte_width_3, leading_byte_width_4,
    second_last_continuation_byte, third_last_continuation_byte};

verus! {

/// Lexicographic order of strings: the order of `str`'s `Ord`. Comparing the
/// UTF-8 bytes, as `str` does, orders strings as their code points do.
pub open spec fn str_lt(a: Seq<char>, b: Seq<char>) -> bool
    decreases a.len(),
{
    if a.len() == 0 {
        b.len() > 0
    } else if b.len() == 0 {
        false
    } else if a[0] != b[0] {
        a[0] < b[0]
    } else {
        str_lt(a.drop_first(), b.drop_first())
    }
}

pub proof fn lemma_str_lt_irreflexive(a: Seq<char>)
    ensures
        !str_lt(a, a),
    decreases a.len(),
{
    if a.len() > 0 {
        lemma_str_lt_irreflexive(a.drop_first());
    }
}

pub proof fn lemma_str_lt_transitive(a: Seq<char>, b: Seq<char>, c: Seq<char>)
    requires
        str_lt(a, b),
        str_lt(b, c),
    ensures
        str_lt(a, c),
    decreases a.len(),
{
    if a.len() > 0 && b.len() > 0 && c.len() > 0 {
        if a[0] == b[0] && b[0] == c[0] {
            lemma_str_lt_transitive(a.drop_first(), b.drop_first(), c.drop_first());
        }
    }
}

pub proof fn lemma_str_lt_total(a: Seq<char>, b: Seq<char>)
    ensures
        a == b || str_lt(a, b) || str_lt(b, a),
    decreases a.len(),
{
    if a.len() > 0 && b.len() > 0 && a[0] == b[0] {
        lemma_str_lt_total(a.drop_first(), b.drop_first());
        if a.drop_first() == b.drop_first() {
            assert(a =~= seq![a[0]] + a.drop_first());
            assert(b =~= seq![b[0]] + b.drop_first());
        }
    } else if a.len() == 0 && b.len() == 0 {
        assert(a =~= b);
    }
}

/// Whether `a` sorts before `b`.
pub fn chars_lt(a: &Vec<char>, b: &Vec<char>) -> (r: bool)
    ensures
        r == str_lt(a@, b@),
{
    let mut i: usize = 0;
    assert(a@.skip(0) =~= a@);
    assert(b@.skip(0) =~= b@);
    while i < a.len() && i < b.len()
        invariant
            i <= a.len(),
            i <= b.len(),
            str_lt(a@, b@) == str_lt(a@.skip(i as int), b@.skip(i as int)),
        decreases a.len() - i,
    {
        if a[i] != b[i] {
            return a[i] < b[i];
        }
        assert(a@.skip(i as int).drop_first() =~= a@.skip(i + 1));
        assert(b@.skip(i as int).drop_first() =~= b@.skip(i + 1));
        i += 1;
    }
    a.len() < b.len()
}

/// Pairs of relative path and full URI.
pub type DirPairs = Seq<(Seq<char>, Seq<char>)>;

/// Whether the relative paths of `m` increase strictly.
pub open spec fn keys_sorted(m: DirPairs) -> bool {
    forall|i: int, j: int| 0 <= i < j < m.len() ==> str_lt(#[trigger] m[i].0, #[trigger] m[j].0)
}

/// Whether `m` holds the relative path `k`.
pub open spec fn has_key(m: DirPairs, k: Seq<char>) -> bool {
    exists|i: int| 0 <= i < m.len() && #[trigger] m[i].0 == k
}

/// The position of the relative path `k` in `m`.
pub open spec fn key_index(m: DirPairs, k: Seq<char>) -> int {
    choose|i: int| 0 <= i < m.len() && #[trigger] m[i].0 == k
}

/// `m` as a map from relative path to full URI.
pub open spec fn as_map(m: DirPairs) -> Map<Seq<char>, Seq<char>> {
    Map::new(|k: Seq<char>| has_key(m, k), |k: Seq<char>| m[key_index(m, k)].1)
}

pub proof fn lemma_sorted_keys_unique(m: DirPairs, i: int, j: int)
    requires
        keys_sorted(m),
        0 <= i < m.len(),
        0 <= j < m.len(),
        m[i].0 == m[j].0,
    ensures
        i == j,
{
    if i < j {
        lemma_str_lt_irreflexive(m[i].0);
    } else if j < i {
        lemma_str_lt_irreflexive(m[i].0);
    }
}

/// A map from relative paths to full URIs, ordered by relative path.
pub struct DirMap {
    entries: Vec<(Vec<char>, String)>,
}

impl View for DirMap {
    type V = DirPairs;

    closed spec fn view(&self) -> DirPairs {
        Seq::new(self.entries@.len(), |i: int| (self.entries@[i].0@, self.entries@[i].1@))
    }
}

impl DirMap {
    #[verifier::type_invariant]
    spec fn sorted(self) -> bool {
        keys_sorted(self@)
    }

    /// The empty map.
    pub fn new() -> (m: Self)
        ensures
            m@ == Seq::<(Seq<char>, Seq<char>)>::empty(),
    {
        let m = DirMap { entries: Vec::new() };
        assert(m@ =~= Seq::<(Seq<char>, Seq<char>)>::empty());
        m
    }

    /// The relative paths of every map increase strictly. This does no work
    /// at run time; it hands the map's invariant to the caller's proof.
    pub fn ordered(&self)
        ensures
            keys_sorted(self@),
    {
        proof { use_type_invariant(self); }
    }

    /// The number of directories.
    pub fn len(&self) -> (n: usize)
        ensures
            n == self@.len(),
    {
        self.entries.len()
    }

    /// The relative path at position `i`.
    pub fn rel_at(&self, i: usize) -> (r: &Vec<char>)
        requires
            i < self@.len(),
        ensures
            r@ == self@[i as int].0,
    {
        &self.entries[i].0
    }

    /// The full URI at position `i`.
    pub fn full_at(&self, i: usize) -> (r: &String)
        requires
            i < self@.len(),
        ensures
            r@ == self@[i as int].1,
    {
        &self.entries[i].1
    }

    /// The first position whose relative path does not sort before `key`.
    fn lower_bound(&self, key: &Vec<char>) -> (pos: usize)
        ensures
            pos <= self@.len(),
            forall|i: int| 0 <= i < pos ==> str_lt(#[trigger] self@[i].0, key@),
            forall|i: int| pos <= i < self@.len() ==> !str_lt(#[trigger] self@[i].0, key@),
    {
        proof { use_type_invariant(self); }
        let mut lo: usize = 0;
        let mut hi: usize = self.entries.len();
        while lo < hi
            invariant
                lo <= hi <= self@.len(),
                self@.len() == self.entries@.len(),
                keys_sorted(self@),
                forall|i: int| 0 <= i < lo ==> str_lt(#[trigger] self@[i].0, key@),
                forall|i: int| hi <= i < self@.len() ==> !str_lt(#[trigger] self@[i].0, key@),
            decreases hi - lo,
        {
            let mid = lo + (hi - lo) / 2;
            assert(self@[mid as int].0 == self.entries@[mid as int].0@);
            if chars_lt(&self.entries[mid].0, key) {
                assert forall|i: int| 0 <= i < mid + 1 implies str_lt(#[trigger] self@[i].0, key@) by {
                    if i < mid {
                        lemma_str_lt_transitive(self@[i].0, self@[mid as int].0, key@);
                    }
                }
                lo = mid + 1;
            } else {
                assert forall|i: int| mid <= i < self@.len() implies !str_lt(#[trigger] self@[i].0, key@) by {
                    if i > mid && str_lt(self@[i].0, key@) {
                        lemma_str_lt_transitive(self@[mid as int].0, self@[i].0, key@);
                    }
                }
                hi = mid;
            }
        }
        lo
    }

    /// Where `key` stands, if the map holds it.
    fn find(&self, key: &Vec<char>) -> (r: Option<usize>)
        ensures
            match r {
                Some(i) => i < self@.len() && self@[i as int].0 == key@,
                None => !has_key(self@, key@),
            },
    {
        proof { use_type_invariant(self); }
        let pos = self.lower_bound(key);
        if pos < self.entries.len() && !chars_lt(key, &self.entries[pos].0) {
            proof {
                assert(self@[pos as int].0 == self.entries@[pos as int].0@);
                lemma_str_lt_total(self@[pos as int].0, key@);
            }
            Some(pos)
        } else {
            proof {
                if pos < self@.len() {
                    assert(self@[pos as int].0 == self.entries@[pos as int].0@);
                }
                assert forall|i: int| 0 <= i < self@.len() implies #[trigger] self@[i].0 != key@ by {
                    if i < pos {
                        lemma_str_lt_irreflexive(key@);
                    } else if i == pos {
                        lemma_str_lt_irreflexive(key@);
                    } else {
                        if self@[i].0 == key@ {
                            lemma_str_lt_transitive(key@, self@[pos as int].0, self@[i].0);
                            lemma_str_lt_irreflexive(key@);
                        }
                    }
                }
            }
            None
        }
    }

    /// Whether the map holds the relative path `rel`.
    pub fn contains_key(&self, rel: &str) -> (b: bool)
        ensures
            b == has_key(self@, rel@),
    {
        self.find(&chars_of(rel)).is_some()
    }

    /// Whether the map holds the relative path `rel`, given as characters.
    pub fn contains_chars(&self, rel: &Vec<char>) -> (b: bool)
        ensures
            b == has_key(self@, rel@),
    {
        self.find(rel).is_some()
    }

    /// The full URI recorded for `rel`.
    pub fn get(&self, rel: &str) -> (r: Option<&String>)
        ensures
            match r {
                Some(v) => has_key(self@, rel@) && v@ == as_map(self@)[rel@],
                None => !has_key(self@, rel@),
            },
    {
        proof { use_type_invariant(self); }
        match self.find(&chars_of(rel)) {
            Some(i) => {
                proof {
                    let k = key_index(self@, rel@);
                    lemma_sorted_keys_unique(self@, i as int, k);
                }
                Some(&self.entries[i].1)
            },
            None => None,
        }
    }

    /// Records `full` for `rel`, replacing what was recorded for it before.
    pub fn insert(&mut self, rel: String, full: String)
        ensures
            as_map(final(self)@) == as_map(old(self)@).insert(rel@, full@),
            keys_sorted(final(self)@),
    {
        proof { use_type_invariant(&*self); }
        let key = chars_of(rel.as_str());
        let ghost old_v = self@;
        let ghost kv = (key@, full@);
        match self.find(&key) {
            Some(i) => {
                let ghost new_v = old_v.update(i as int, kv);
                proof {
                    assert forall|a: int, b: int| 0 <= a < b < new_v.len() implies
                        str_lt(#[trigger] new_v[a].0, #[trigger] new_v[b].0) by {
                        assert(str_lt(old_v[a].0, old_v[b].0));
                    }
                }
                self.set_entry(i, key, full, Ghost(new_v));
                proof { self.lemma_update_map(old_v, i as int, kv); }
            },
            None => {
                let pos = self.lower_bound(&key);
                let ghost new_v = old_v.insert(pos as int, kv);
                proof {
                    assert forall|j: int| pos <= j < old_v.len() implies
                        str_lt(key@, #[trigger] old_v[j].0) by {
                        lemma_str_lt_total(old_v[j].0, key@);
                        if old_v[j].0 == key@ {
                            assert(has_key(old_v, key@));
                        }
                    }
                    assert forall|a: int, b: int| 0 <= a < b < new_v.len() implies
                        str_lt(#[trigger] new_v[a].0, #[trigger] new_v[b].0) by {
                        if b < pos {
                            assert(str_lt(old_v[a].0, old_v[b].0));
                        } else if b == pos {
                            assert(str_lt(old_v[a].0, key@));
                        } else if a < pos {
                            assert(str_lt(old_v[a].0, key@));
                            assert(str_lt(key@, old_v[b - 1].0));
                            lemma_str_lt_transitive(old_v[a].0, key@, old_v[b - 1].0);
                        } else if a == pos {
                            assert(str_lt(key@, old_v[b - 1].0));
                        } else {
                            assert(str_lt(old_v[a - 1].0, old_v[b - 1].0));
                        }
                    }
                }
                self.insert_entry(pos, key, full, Ghost(new_v));
                proof { self.lemma_insert_map(old_v, pos as int, kv); }
            },
        }
    }

    fn set_entry(&mut self, i: usize, key: Vec<char>, full: String, Ghost(new_v): Ghost<DirPairs>)
        requires
            i < old(self)@.len(),
            new_v == old(self)@.update(i as int, (key@, full@)),
            keys_sorted(new_v),
        ensures
            final(self)@ == new_v,
    {
        let mut e: Vec<(Vec<char>, String)> = Vec::new();
        std::mem::swap(&mut e, &mut self.entries);
        e.set(i, (key, full));
        assert(Seq::new(e@.len(), |i: int| (e@[i].0@, e@[i].1@)) =~= new_v);
        self.entries = e;
        assert(self@ =~= new_v);
    }

    fn insert_entry(&mut self, pos: usize, key: Vec<char>, full: String, Ghost(new_v): Ghost<DirPairs>)
        requires
            pos <= old(self)@.len(),
            new_v == old(self)@.insert(pos as int, (key@, full@)),
            keys_sorted(new_v),
        ensures
            final(self)@ == new_v,
    {
        let mut e: Vec<(Vec<char>, String)> = Vec::new();
        std::mem::swap(&mut e, &mut self.entries);
        e.insert(pos, (key, full));
        assert(Seq::new(e@.len(), |i: int| (e@[i].0@, e@[i].1@)) =~= new_v);
        self.entries = e;
        assert(self@ =~= new_v);
    }

    proof fn lemma_update_map(&self, old_v: DirPairs, i: int, kv: (Seq<char>, Seq<char>))
        requires
            keys_sorted(old_v),
            keys_sorted(self@),
            0 <= i < old_v.len(),
            old_v[i].0 == kv.0,
            self@ == old_v.update(i, kv),
        ensures
            as_map(self@) == as_map(old_v).insert(kv.0, kv.1),
    {
        let n = self@;
        assert forall|k: Seq<char>| has_key(n, k) <==> (has_key(old_v, k) || k == kv.0) by {
            if has_key(old_v, k) {
                let j = choose|j: int| 0 <= j < old_v.len() && #[trigger] old_v[j].0 == k;
                assert(n[j].0 == k);
            }
            if k == kv.0 {
                assert(n[i].0 == k);
            }
            if has_key(n, k) {
                let j = choose|j: int| 0 <= j < n.len() && #[trigger] n[j].0 == k;
                assert(old_v[j].0 == k);
            }
        }
        assert forall|k: Seq<char>| #[trigger] has_key(n, k) implies
            n[key_index(n, k)].1 == as_map(old_v).insert(kv.0, kv.1)[k] by {
            let a = key_index(n, k);
            if k == kv.0 {
                lemma_sorted_keys_unique(n, a, i);
            } else {
                let b = key_index(old_v, k);
                assert(n[b].0 == k);
                lemma_sorted_keys_unique(n, a, b);
            }
        }
        assert(as_map(self@) =~= as_map(old_v).insert(kv.0, kv.1));
    }

    proof fn lemma_insert_map(&self, old_v: DirPairs, pos: int, kv: (Seq<char>, Seq<char>))
        requires
            keys_sorted(old_v),
            keys_sorted(self@),
            0 <= pos <= old_v.len(),
            self@ == old_v.insert(pos, kv),
        ensures
            as_map(self@) == as_map(old_v).insert(kv.0, kv.1),
    {
        let n = self@;
        assert forall|k: Seq<char>| has_key(n, k) <==> (has_key(old_v, k) || k == kv.0) by {
            if has_key(old_v, k) {
                let j = choose|j: int| 0 <= j < old_v.len() && #[trigger] old_v[j].0 == k;
                if j < pos {
                    assert(n[j].0 == k);
                } else {
                    assert(n[j + 1].0 == k);
                }
            }
            if k == kv.0 {
                assert(n[pos].0 == k);
            }
            if has_key(n, k) {
                let j = choose|j: int| 0 <= j < n.len() && #[trigger] n[j].0 == k;
                if j < pos {
                    assert(old_v[j].0 == k);
                } else if j > pos {
                    assert(old_v[j - 1].0 == k);
                }
            }
        }
        assert forall|k: Seq<char>| #[trigger] has_key(n, k) implies
            n[key_index(n, k)].1 == as_map(old_v).insert(kv.0, kv.1)[k] by {
            let a = key_index(n, k);
            if k == kv.0 {
                lemma_sorted_keys_unique(n, a, pos);
            } else {
                let b = key_index(old_v, k);
                if b < pos {
                    assert(n[b].0 == k);
                    lemma_sorted_keys_unique(n, a, b);
                } else {
                    assert(n[b + 1].0 == k);
                    lemma_sorted_keys_unique(n, a, b + 1);
                }
            }
        }
        assert(as_map(self@) =~= as_map(old_v).insert(kv.0, kv.1));
    }
}

/// Lexicographic order of byte strings, the order in which `str` compares
/// its UTF-8 bytes.
pub open spec fn bytes_lt(a: Seq<u8>, b: Seq<u8>) -> bool
    decreases a.len(),
{
    if a.len() == 0 {
        b.len() > 0
    } else if b.len() == 0 {
        false
    } else if a[0] != b[0] {
        a[0] < b[0]
    } else {
        bytes_lt(a.drop_first(), b.drop_first())
    }
}

proof fn lemma_bytes_lt_common_prefix(p: Seq<u8>, x: Seq<u8>, y: Seq<u8>)
    ensures
        bytes_lt(p + x, p + y) == bytes_lt(x, y),
    decreases p.len(),
{
    if p.len() > 0 {
        lemma_bytes_lt_common_prefix(p.drop_first(), x, y);
        assert((p + x).drop_first() =~= p.drop_first() + x);
        assert((p + y).drop_first() =~= p.drop_first() + y);
    } else {
        assert(p + x =~= x);
        assert(p + y =~= y);
    }
}

proof fn lemma_bytes_first_difference(u: Seq<u8>, v: Seq<u8>, k: int)
    requires
        0 <= k < u.len(),
        k < v.len(),
        u.take(k) == v.take(k),
        u[k] != v[k],
    ensures
        bytes_lt(u, v) == (u[k] < v[k]),
    decreases k,
{
    if k > 0 {
        assert(u[0] == u.take(k)[0]);
        assert(v[0] == v.take(k)[0]);
        assert(u.drop_first().take(k - 1) =~= u.take(k).drop_first());
        assert(v.drop_first().take(k - 1) =~= v.take(k).drop_first());
        lemma_bytes_first_difference(u.drop_first(), v.drop_first(), k - 1);
    }
}

/// The UTF-8 encodings of two different scalars differ first at a byte
/// where the smaller scalar has the smaller byte.
proof fn lemma_scalar_encoding_order(c1: u32, c2: u32) -> (k: int)
    requires
        is_scalar(c1),
        is_scalar(c2),
        c1 < c2,
    ensures
        0 <= k < encode_scalar(c1).len(),
        k < encode_scalar(c2).len(),
        encode_scalar(c1).take(k) == encode_scalar(c2).take(k),
        encode_scalar(c1)[k] < encode_scalar(c2)[k],
{
    let e1 = encode_scalar(c1);
    let e2 = encode_scalar(c2);
    if has_width_1_encoding(c1) && has_width_1_encoding(c2) {
        assert(c1 <= 0x7F && c2 <= 0x7F && c1 < c2 ==> ((c1 & 0x7F) as u8) < ((c2 & 0x7F) as u8)) by (bit_vector);
        0
    } else if has_width_1_encoding(c1) {
        assert(c1 <= 0x7F ==> ((c1 & 0x7F) as u8) <= 0x7Fu8) by (bit_vector);
        assert(0x80 <= c2 ==> 0xC0u8 <= (0xC0u8 | ((c2 >> 6) & 0x1F) as u8)) by (bit_vector);
        assert(0x800 <= c2 ==> 0xE0u8 <= (0xE0u8 | ((c2 >> 12) & 0x0F) as u8)) by (bit_vector);
        assert(0x10000 <= c2 ==> 0xF0u8 <= (0xF0u8 | ((c2 >> 18) & 0x7) as u8)) by (bit_vector);
        0
    } else if has_width_2_encoding(c1) && has_width_2_encoding(c2) {
        assert(0x80 <= c1 && c1 < c2 && c2 <= 0x7FF ==>
            ((0xC0u8 | ((c1 >> 6) & 0x1F) as u8) < (0xC0u8 | ((c2 >> 6) & 0x1F) as u8))
            || ((0xC0u8 | ((c1 >> 6) & 0x1F) as u8) == (0xC0u8 | ((c2 >> 6) & 0x1F) as u8)
                && (0x80u8 | (c1 & 0x3F) as u8) < (0x80u8 | (c2 & 0x3F) as u8))) by (bit_vector);
        if e1[0] < e2[0] {
            0
        } else {
            assert(e1.take(1) =~= e2.take(1));
            1
        }
    } else if has_width_2_encoding(c1) {
        assert(c1 <= 0x7FF ==> (0xC0u8 | ((c1 >> 6) & 0x1F) as u8) <= 0xDFu8) by (bit_vector);
        assert(0x800 <= c2 ==> 0xE0u8 <= (0xE0u8 | ((c2 >> 12) & 0x0F) as u8)) by (bit_vector);
        assert(0x10000 <= c2 ==> 0xF0u8 <= (0xF0u8 | ((c2 >> 18) & 0x7) as u8)) by (bit_vector);
        0
    } else if has_width_3_encoding(c1) && has_width_3_encoding(c2) {
        let a0 = leading_byte_width_3(c1);
        let b0 = leading_byte_width_3(c2);
        let a1 = second_last_continuation_byte(c1);
        let b1 = second_last_continuation_byte(c2);
        assert(0x800 <= c1 && c1 < c2 && c2 <= 0xFFFF ==>
            ((0xE0u8 | ((c1 >> 12) & 0x0F) as u8) < (0xE0u8 | ((c2 >> 12) & 0x0F) as u8))
            || ((0xE0u8 | ((c1 >> 12) & 0x0F) as u8) == (0xE0u8 | ((c2 >> 12) & 0x0F) as u8)
                && (0x80u8 | ((c1 >> 6) & 0x3F) as u8) < (0x80u8 | ((c2 >> 6) & 0x3F) as u8))
            || ((0xE0u8 | ((c1 >> 12) & 0x0F) as u8) == (0xE0u8 | ((c2 >> 12) & 0x0F) as u8)
                && (0x80u8 | ((c1 >> 6) & 0x3F) as u8) == (0x80u8 | ((c2 >> 6) & 0x3F) as u8)
                && (0x80u8 | (c1 & 0x3F) as u8) < (0x80u8 | (c2 & 0x3F) as u8))) by (bit_vector);
        if a0 < b0 {
            0
        } else if a1 < b1 {
            assert(e1.take(1) =~= e2.take(1));
            1
        } else {
            assert(e1.take(2) =~= e2.take(2));
            2
        }
    } else if has_width_3_encoding(c1) {
        assert(c1 <= 0xFFFF ==> (0xE0u8 | ((c1 >> 12) & 0x0F) as u8) <= 0xEFu8) by (bit_vector);
        assert(0x10000 <= c2 ==> 0xF0u8 <= (0xF0u8 | ((c2 >> 18) & 0x7) as u8)) by (bit_vector);
        0
    } else {
        assert(has_width_4_encoding(c1) && has_width_4_encoding(c2));
        let a0 = leading_byte_width_4(c1);
        let b0 = leading_byte_width_4(c2);
        let a1 = third_last_continuation_byte(c1);
        let b1 = third_last_continuation_byte(c2);
        let a2 = second_last_continuation_byte(c1);
        let b2 = second_last_continuation_byte(c2);
        assert(0x10000 <= c1 && c1 < c2 && c2 <= 0x10FFFF ==>
            ((0xF0u8 | ((c1 >> 18) & 0x7) as u8) < (0xF0u8 | ((c2 >> 18) & 0x7) as u8))
            || ((0xF0u8 | ((c1 >> 18) & 0x7) as u8) == (0xF0u8 | ((c2 >> 18) & 0x7) as u8)
                && (0x80u8 | ((c1 >> 12) & 0x3F) as u8) < (0x80u8 | ((c2 >> 12) & 0x3F) as u8))
            || ((0xF0u8 | ((c1 >> 18) & 0x7) as u8) == (0xF0u8 | ((c2 >> 18) & 0x7) as u8)
                && (0x80u8 | ((c1 >> 12) & 0x3F) as u8) == (0x80u8 | ((c2 >> 12) & 0x3F) as u8)
                && (0x80u8 | ((c1 >> 6) & 0x3F) as u8) < (0x80u8 | ((c2 >> 6) & 0x3F) as u8))
            || ((0xF0u8 | ((c1 >> 18) & 0x7) as u8) == (0xF0u8 | ((c2 >> 18) & 0x7) as u8)
                && (0x80u8 | ((c1 >> 12) & 0x3F) as u8) == (0x80u8 | ((c2 >> 12) & 0x3F) as u8)
                && (0x80u8 | ((c1 >> 6) & 0x3F) as u8) == (0x80u8 | ((c2 >> 6) & 0x3F) as u8)
                && (0x80u8 | (c1 & 0x3F) as u8) < (0x80u8 | (c2 & 0x3F) as u8))) by (bit_vector);
        if a0 < b0 {
            0
        } else if a1 < b1 {
            assert(e1.take(1) =~= e2.take(1));
            1
        } else if a2 < b2 {
            assert(e1.take(2) =~= e2.take(2));
            2
        } else {
            assert(e1.take(3) =~= e2.take(3));
            3
        }
    }
}

proof fn lemma_scalar_encoding_before(c1: char, c2: char, x: Seq<u8>, y: Seq<u8>)
    requires
        c1 < c2,
    ensures
        bytes_lt(encode_scalar(c1 as u32) + x, encode_scalar(c2 as u32) + y),
        !bytes_lt(encode_scalar(c2 as u32) + y, encode_scalar(c1 as u32) + x),
{
    broadcast use vstd::utf8::char_is_scalar;
    let k = lemma_scalar_encoding_order(c1 as u32, c2 as u32);
    let u = encode_scalar(c1 as u32) + x;
    let v = encode_scalar(c2 as u32) + y;
    assert(u.take(k) =~= encode_scalar(c1 as u32).take(k));
    assert(v.take(k) =~= encode_scalar(c2 as u32).take(k));
    assert(u[k] == encode_scalar(c1 as u32)[k]);
    assert(v[k] == encode_scalar(c2 as u32)[k]);
    lemma_bytes_first_difference(u, v, k);
    lemma_bytes_first_difference(v, u, k);
}

proof fn lemma_encode_scalar_nonempty(c: char)
    ensures
        encode_scalar(c as u32).len() > 0,
{
}

/// Strings sort in the same order whether compared character by character
/// or, as `str`'s `Ord` does, by their UTF-8 bytes: the order of the
/// directories follows `String`'s order.
pub proof fn law_str_order_is_utf8_byte_order(a: Seq<char>, b: Seq<char>)
    ensures
        str_lt(a, b) == bytes_lt(encode_utf8(a), encode_utf8(b)),
    decreases a.len(),
{
    if a.len() == 0 {
        assert(encode_utf8(a) =~= Seq::<u8>::empty());
        if b.len() > 0 {
            lemma_encode_scalar_nonempty(b[0]);
        } else {
            assert(encode_utf8(b) =~= Seq::<u8>::empty());
        }
    } else if b.len() == 0 {
        assert(encode_utf8(b) =~= Seq::<u8>::empty());
        lemma_encode_scalar_nonempty(a[0]);
    } else {
        let x = encode_utf8(a.drop_first());
        let y = encode_utf8(b.drop_first());
        assert(encode_utf8(a) == encode_scalar(a[0] as u32) + x);
        assert(encode_utf8(b) == encode_scalar(b[0] as u32) + y);
        if a[0] == b[0] {
            law_str_order_is_utf8_byte_order(a.drop_first(), b.drop_first());
            lemma_bytes_lt_common_prefix(encode_scalar(a[0] as u32), x, y);
        } else if a[0] < b[0] {
            lemma_scalar_encoding_before(a[0], b[0], x, y);
        } else {
            lemma_scalar_encoding_before(b[0], a[0], y, x);
        }
    }
}

} // verus!
