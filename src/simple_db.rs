//! The plain store: one text value under each unique key, kept in order.

use crate::format::{first_at, lemma_first_at_unique, split_lines, text_lines};
use crate::ordered::{
    has_pair_key, pair_keys_unique, pair_map_get_index, pair_map_get_index_of, pair_map_insert,
    pair_map_len, pair_map_new, pair_map_shift_remove, pairs_of, cells_of, PairModel,
};
use crate::text::{joined, lemma_text_before_asym, lemma_text_before_split, text_before, text_lt};
use indexmap::IndexMap;
use vstd::prelude::*;

verus! {

/// The place of key `k` among the pairs (meaningful where some pair has it).
pub open spec fn pair_index(e: Seq<PairModel>, k: Seq<char>) -> int {
    choose|j: int| 0 <= j < e.len() && e[j].0 == k
}

/// The pairs where key `k` holds `v`: in its place if it was there, else last.
pub open spec fn with_pair(e: Seq<PairModel>, k: Seq<char>, v: Seq<char>) -> Seq<PairModel> {
    if has_pair_key(e, k) {
        e.update(pair_index(e, k), (k, v))
    } else {
        e.push((k, v))
    }
}

/// The line that holds a pair.
pub open spec fn pair_line(p: PairModel) -> Seq<char> {
    p.0 + seq![':'] + p.1 + seq!['\n']
}

/// The text that holds the pairs.
pub open spec fn render_pairs(e: Seq<PairModel>) -> Seq<char>
    decreases e.len(),
{
    if e.len() == 0 {
        Seq::empty()
    } else {
        render_pairs(e.drop_last()) + pair_line(e.last())
    }
}

/// The pair that a line holds: the key before the first colon, the value
/// after it; none for a line without a colon.
pub open spec fn parse_pair(l: Seq<char>) -> Option<PairModel> {
    if exists|i: int| first_at(l, ':', i) {
        let i = choose|i: int| first_at(l, ':', i);
        Some((l.subrange(0, i), l.subrange(i + 1, l.len() as int)))
    } else {
        None
    }
}

/// The pairs after the lines `ls` are loaded, in order, into pairs `e`.
pub open spec fn load_pairs(e: Seq<PairModel>, ls: Seq<Seq<char>>) -> Seq<PairModel>
    decreases ls.len(),
{
    if ls.len() == 0 {
        e
    } else {
        let before = load_pairs(e, ls.drop_last());
        match parse_pair(ls.last()) {
            Some(p) => with_pair(before, p.0, p.1),
            None => before,
        }
    }
}

/// The message for a key that the store does not hold.
pub open spec fn missing_key_message(k: Seq<char>) -> Seq<char> {
    "Key '"@ + k + "' does not exist in the database"@
}

/// Where a held key stands.
proof fn lemma_pair_index(e: Seq<PairModel>, k: Seq<char>, j: int)
    requires
        pair_keys_unique(e),
        0 <= j < e.len(),
        e[j].0 == k,
    ensures
        has_pair_key(e, k),
        pair_index(e, k) == j,
{
    assert(has_pair_key(e, k));
    let c = pair_index(e, k);
    assert(e[c].0 == k);
}

/// The pair that a line holds, if it has a colon.
pub fn parse_pair_line(l: &str) -> (r: Option<(String, String)>)
    ensures
        match parse_pair(l@) {
            Some(p) => r matches Some((k, v)) && k@ == p.0 && v@ == p.1,
            None => r is None,
        },
{
    let n = l.unicode_len();
    let mut i: usize = 0;
    while i < n
        invariant
            n == l@.len(),
            i <= n,
            forall|j: int| 0 <= j < i ==> l@[j] != ':',
        decreases n - i,
    {
        if l.get_char(i) == ':' {
            assert(first_at(l@, ':', i as int));
            proof {
                let k = choose|k: int| first_at(l@, ':', k);
                lemma_first_at_unique(l@, ':', i as int, k);
            }
            let key = l.substring_char(0, i).to_owned();
            let value = l.substring_char(i + 1, n).to_owned();
            return Some((key, value));
        }
        i = i + 1;
    }
    assert(!exists|k: int| first_at(l@, ':', k));
    None
}

/// The text that a sort orders a pair by: its value, or its key.
pub open spec fn sort_field(p: PairModel, by_value: bool) -> Seq<char> {
    if by_value {
        p.1
    } else {
        p.0
    }
}

/// `x` placed into `s` just after the last pair whose field `x`'s field does
/// not come before.
pub open spec fn insert_in_order(s: Seq<PairModel>, x: PairModel, by_value: bool) -> Seq<
    PairModel,
>
    decreases s.len(),
{
    if s.len() == 0 {
        seq![x]
    } else if text_before(sort_field(x, by_value), sort_field(s.last(), by_value)) {
        insert_in_order(s.drop_last(), x, by_value).push(s.last())
    } else {
        s.push(x)
    }
}

/// The pairs in the order of their fields, pairs with equal fields in their
/// first order: each pair, in turn, goes in after those not after it.
pub open spec fn sorted_by_field(e: Seq<PairModel>, by_value: bool) -> Seq<PairModel>
    decreases e.len(),
{
    if e.len() == 0 {
        Seq::empty()
    } else {
        insert_in_order(sorted_by_field(e.drop_last(), by_value), e.last(), by_value)
    }
}

/// The message for a sort of an empty store.
pub open spec fn empty_sort_message() -> Seq<char> {
    "Database is empty. No sorting needed."@
}

/// Placing `x` at `j`, where every pair from `j` on comes after it and the
/// pair before `j` does not, is placing it in order.
proof fn lemma_insert_at(s: Seq<PairModel>, x: PairModel, by_value: bool, j: int)
    requires
        0 <= j <= s.len(),
        forall|m: int|
            j <= m < s.len() ==> text_before(
                sort_field(x, by_value),
                sort_field(#[trigger] s[m], by_value),
            ),
        j == 0 || !text_before(sort_field(x, by_value), sort_field(s[j - 1], by_value)),
    ensures
        insert_in_order(s, x, by_value) == s.insert(j, x),
    decreases s.len(),
{
    if s.len() == 0 {
        assert(s.insert(j, x) =~= seq![x]);
    } else if j == s.len() {
        assert(s.last() == s[j - 1]);
        assert(s.insert(j, x) =~= s.push(x));
    } else {
        assert(text_before(sort_field(x, by_value), sort_field(s[s.len() - 1], by_value)));
        let s0 = s.drop_last();
        assert forall|m: int| j <= m < s0.len() implies text_before(
            sort_field(x, by_value),
            sort_field(#[trigger] s0[m], by_value),
        ) by {
            assert(s0[m] == s[m]);
        }
        if j > 0 {
            assert(s0[j - 1] == s[j - 1]);
        }
        lemma_insert_at(s0, x, by_value, j);
        assert(s0.insert(j, x).push(s.last()) =~= s.insert(j, x));
    }
}

/// The pairs of a vector, as the contracts see them.
pub open spec fn pair_views(v: Seq<(String, String)>) -> Seq<PairModel> {
    v.map_values(|p: (String, String)| (p.0@, p.1@))
}

/// Whether `x` sorts strictly before `y`.
fn sorts_before(x: &(String, String), y: &(String, String), by_value: bool) -> (r: bool)
    ensures
        r == text_before(sort_field((x.0@, x.1@), by_value), sort_field((y.0@, y.1@), by_value)),
{
    if by_value {
        text_lt(x.1.as_str(), y.1.as_str())
    } else {
        text_lt(x.0.as_str(), y.0.as_str())
    }
}

/// No pair's field comes before the field of a pair ahead of it.
pub open spec fn in_field_order(s: Seq<PairModel>, by_value: bool) -> bool {
    forall|i: int, j: int|
        0 <= i < j < s.len() ==> !text_before(
            sort_field(#[trigger] s[j], by_value),
            sort_field(#[trigger] s[i], by_value),
        )
}

/// Placing a pair in order keeps the pairs in order and adds just that pair.
pub proof fn lemma_insert_in_order(s: Seq<PairModel>, x: PairModel, by_value: bool)
    requires
        in_field_order(s, by_value),
    ensures
        in_field_order(insert_in_order(s, x, by_value), by_value),
        insert_in_order(s, x, by_value).to_multiset() == s.to_multiset().insert(x),
    decreases s.len(),
{
    broadcast use vstd::seq_lib::group_to_multiset_ensures;

    let t = insert_in_order(s, x, by_value);
    let fx = sort_field(x, by_value);
    if s.len() == 0 {
        assert(seq![x] =~= Seq::<PairModel>::empty().push(x));
    } else {
        let s0 = s.drop_last();
        let last = s.last();
        assert(s0.push(last) =~= s);
        if text_before(fx, sort_field(last, by_value)) {
            assert(in_field_order(s0, by_value)) by {
                assert forall|i: int, j: int| 0 <= i < j < s0.len() implies !text_before(
                    sort_field(#[trigger] s0[j], by_value),
                    sort_field(#[trigger] s0[i], by_value),
                ) by {
                    assert(s0[i] == s[i] && s0[j] == s[j]);
                }
            }
            lemma_insert_in_order(s0, x, by_value);
            let u = insert_in_order(s0, x, by_value);
            lemma_text_before_asym(fx, sort_field(last, by_value));
            assert forall|i: int, j: int| 0 <= i < j < t.len() implies !text_before(
                sort_field(#[trigger] t[j], by_value),
                sort_field(#[trigger] t[i], by_value),
            ) by {
                if j < u.len() {
                    assert(t[i] == u[i] && t[j] == u[j]);
                } else {
                    assert(t[j] == last);
                    assert(t[i] == u[i]);
                    assert(u.to_multiset().count(u[i]) > 0);
                    if u[i] != x {
                        assert(s0.to_multiset().count(u[i]) > 0);
                        assert(s0.contains(u[i]));
                        let k = choose|k: int| 0 <= k < s0.len() && s0[k] == u[i];
                        assert(s[k] == u[i]);
                        assert(s[s.len() - 1] == last);
                    }
                }
            }
            assert(t.to_multiset() =~= s.to_multiset().insert(x));
        } else {
            assert forall|i: int, j: int| 0 <= i < j < t.len() implies !text_before(
                sort_field(#[trigger] t[j], by_value),
                sort_field(#[trigger] t[i], by_value),
            ) by {
                if j < s.len() {
                    assert(t[i] == s[i] && t[j] == s[j]);
                } else {
                    assert(t[j] == x && t[i] == s[i]);
                    assert(s[s.len() - 1] == last);
                    if i < s.len() - 1 {
                        lemma_text_before_split(fx, sort_field(last, by_value), sort_field(s[i], by_value));
                    }
                }
            }
        }
    }
}

/// The sorted pairs are in order and are the same pairs.
pub proof fn lemma_sorted_by_field(e: Seq<PairModel>, by_value: bool)
    ensures
        in_field_order(sorted_by_field(e, by_value), by_value),
        sorted_by_field(e, by_value).to_multiset() == e.to_multiset(),
    decreases e.len(),
{
    broadcast use vstd::seq_lib::group_to_multiset_ensures;

    if e.len() > 0 {
        lemma_sorted_by_field(e.drop_last(), by_value);
        lemma_insert_in_order(sorted_by_field(e.drop_last(), by_value), e.last(), by_value);
        assert(e.drop_last().push(e.last()) =~= e);
    } else {
        assert(sorted_by_field(e, by_value) =~= e);
    }
}

pub struct SimpleDB {
    pub data: IndexMap<String, String>,
    filename: String,
}

impl SimpleDB {
    /// The pairs, in order.
    pub closed spec fn pairs(&self) -> Seq<PairModel> {
        pairs_of(self.data)
    }

    /// The path of the backing file.
    pub closed spec fn path(&self) -> Seq<char> {
        self.filename@
    }

    /// Keys are unique.
    pub open spec fn wf(&self) -> bool {
        pair_keys_unique(self.pairs())
    }

    /// An empty store that persists to `filepath`.
    pub fn new(filepath: &str) -> (r: SimpleDB)
        ensures
            r.wf(),
            r.pairs() == Seq::<PairModel>::empty(),
            r.path() == filepath@,
    {
        SimpleDB { data: pair_map_new(), filename: filepath.to_owned() }
    }

    /// The path of the backing file.
    pub fn filename(&self) -> (r: &str)
        ensures
            r@ == self.path(),
    {
        self.filename.as_str()
    }

    /// The number of pairs.
    pub fn len(&self) -> (r: usize)
        ensures
            r == self.pairs().len(),
    {
        pair_map_len(&self.data)
    }

    /// Stores `value` under `key`: in the key's place if it is held, else last.
    pub fn insert(&mut self, key: &str, value: &str)
        requires
            old(self).wf(),
        ensures
            final(self).wf(),
            final(self).path() == old(self).path(),
            final(self).pairs() == with_pair(old(self).pairs(), key@, value@),
    {
        let ghost e = self.pairs();
        proof {
            if has_pair_key(e, key@) {
                let j = choose|j: int| 0 <= j < e.len() && e[j].0 == key@;
                lemma_pair_index(e, key@, j);
            }
        }
        pair_map_insert(&mut self.data, key.to_owned(), value.to_owned());
    }

    /// The value stored under `key`, if any.
    pub fn get(&self, key: &str) -> (r: Option<&String>)
        requires
            self.wf(),
        ensures
            r is Some <==> has_pair_key(self.pairs(), key@),
            r matches Some(v) ==> v@ == self.pairs()[pair_index(self.pairs(), key@)].1,
    {
        match pair_map_get_index_of(&self.data, key) {
            Some(j) => {
                proof {
                    lemma_pair_index(self.pairs(), key@, j as int);
                }
                let (_, v) = pair_map_get_index(&self.data, j).unwrap();
                Some(v)
            },
            None => None,
        }
    }

    /// Removes the pair of `key`; the others keep their order.
    pub fn delete(&mut self, key: &str) -> (r: Result<(), String>)
        requires
            old(self).wf(),
        ensures
            final(self).wf(),
            final(self).path() == old(self).path(),
            r is Ok <==> has_pair_key(old(self).pairs(), key@),
            r is Ok ==> final(self).pairs() == old(self).pairs().remove(
                pair_index(old(self).pairs(), key@),
            ),
            r is Err ==> final(self).pairs() == old(self).pairs(),
            r matches Err(m) ==> m@ == missing_key_message(key@),
    {
        let ghost e = self.pairs();
        proof {
            if has_pair_key(e, key@) {
                let j = choose|j: int| 0 <= j < e.len() && e[j].0 == key@;
                lemma_pair_index(e, key@, j);
            }
        }
        match pair_map_shift_remove(&mut self.data, key) {
            Some(_) => Ok(()),
            None => {
                let head = joined("Key '", key);
                Err(joined(head.as_str(), "' does not exist in the database"))
            },
        }
    }

    /// Loads the pairs that a file's text holds, in order: a line's pair
    /// replaces the value of its key in place or comes last; a line without
    /// a colon is passed over.
    pub fn load_text(&mut self, text: &str)
        requires
            old(self).wf(),
        ensures
            final(self).wf(),
            final(self).path() == old(self).path(),
            final(self).pairs() == load_pairs(old(self).pairs(), text_lines(text@)),
    {
        let lines = split_lines(text);
        let ghost ls = cells_of(lines@);
        let ghost e0 = self.pairs();
        let mut i: usize = 0;
        while i < lines.len()
            invariant
                i <= lines@.len(),
                ls == cells_of(lines@),
                ls == text_lines(text@),
                self.wf(),
                self.path() == old(self).path(),
                e0 == old(self).pairs(),
                self.pairs() == load_pairs(e0, ls.subrange(0, i as int)),
            decreases lines@.len() - i,
        {
            let ghost cur = ls.subrange(0, i + 1);
            assert(cur.drop_last() =~= ls.subrange(0, i as int));
            assert(cur.last() == lines@[i as int]@);
            match parse_pair_line(lines[i].as_str()) {
                Some((k, v)) => {
                    self.insert(k.as_str(), v.as_str());
                },
                None => {},
            }
            i = i + 1;
        }
        assert(ls.subrange(0, lines@.len() as int) =~= ls);
    }

    /// A store of path `filepath` loaded from the text of its file.
    pub fn from_text(filepath: &str, text: &str) -> (r: SimpleDB)
        ensures
            r.wf(),
            r.path() == filepath@,
            r.pairs() == load_pairs(Seq::empty(), text_lines(text@)),
    {
        let mut db = SimpleDB::new(filepath);
        db.load_text(text);
        db
    }

    /// The text of the backing file: one `key:value` line per pair, in order.
    pub fn to_text(&self) -> (r: String)
        ensures
            r@ == render_pairs(self.pairs()),
    {
        proof {
            reveal_strlit(":");
            reveal_strlit("\n");
            assert(":"@ =~= seq![':']);
            assert("\n"@ =~= seq!['\n']);
        }
        let ghost e = self.pairs();
        let n = pair_map_len(&self.data);
        let mut out = String::new();
        let mut i: usize = 0;
        while i < n
            invariant
                n == e.len(),
                e == pairs_of(self.data),
                ":"@ == seq![':'],
                "\n"@ == seq!['\n'],
                i <= n,
                out@ == render_pairs(e.subrange(0, i as int)),
            decreases n - i,
        {
            let ghost cur = e.subrange(0, i + 1);
            assert(cur.drop_last() =~= e.subrange(0, i as int));
            let (k, v) = pair_map_get_index(&self.data, i).unwrap();
            assert(cur.last() == (k@, v@));
            out.append(k.as_str());
            out.append(":");
            out.append(v.as_str());
            out.append("\n");
            assert(out@ =~= render_pairs(cur));
            i = i + 1;
        }
        assert(e.subrange(0, n as int) =~= e);
        out
    }
    /// Puts the pairs in the order of their fields, stable.
    fn sort_pairs(&mut self, by_value: bool)
        requires
            old(self).wf(),
        ensures
            final(self).wf(),
            final(self).path() == old(self).path(),
            final(self).pairs() == sorted_by_field(old(self).pairs(), by_value),
    {
        let ghost e = self.pairs();
        let n = pair_map_len(&self.data);
        let mut out: Vec<(String, String)> = Vec::new();
        let mut i: usize = 0;
        assert(e.subrange(0, 0) =~= Seq::<PairModel>::empty());
        assert(pair_views(out@) =~= Seq::<PairModel>::empty());
        while i < n
            invariant
                n == e.len(),
                e == pairs_of(self.data),
                pair_keys_unique(e),
                i <= n,
                pair_views(out@) == sorted_by_field(e.subrange(0, i as int), by_value),
                pair_keys_unique(pair_views(out@)),
                forall|a: int|
                    0 <= a < out@.len() ==> exists|b: int|
                        0 <= b < i && e[b].0 == (#[trigger] pair_views(out@)[a]).0,
            decreases n - i,
        {
            let (k, v) = pair_map_get_index(&self.data, i).unwrap();
            let x = (k.clone(), v.clone());
            let ghost xv = (x.0@, x.1@);
            assert(xv == e[i as int]);
            let ghost pv = pair_views(out@);
            let mut j: usize = out.len();
            while j > 0 && sorts_before(&x, &out[j - 1], by_value)
                invariant
                    j <= out@.len(),
                    pv == pair_views(out@),
                    xv == (x.0@, x.1@),
                    forall|m: int|
                        j <= m < pv.len() ==> text_before(
                            sort_field(xv, by_value),
                            sort_field(#[trigger] pv[m], by_value),
                        ),
                decreases j,
            {
                assert(pv[j - 1] == (out@[j - 1].0@, out@[j - 1].1@));
                j = j - 1;
            }
            if j > 0 {
                assert(pv[j - 1] == (out@[j - 1].0@, out@[j - 1].1@));
            }
            proof {
                lemma_insert_at(pv, xv, by_value, j as int);
                let cur = e.subrange(0, i + 1);
                assert(cur.drop_last() =~= e.subrange(0, i as int));
                assert(cur.last() == xv);
            }
            let ghost old_out = out@;
            out.insert(j, x);
            assert(pair_views(out@) =~= pv.insert(j as int, xv));
            proof {
                let t = pair_views(out@);
                assert forall|a: int| 0 <= a < t.len() implies exists|b: int|
                    0 <= b < i + 1 && e[b].0 == (#[trigger] t[a]).0 by {
                    if a < j {
                        assert(t[a] == pv[a]);
                    } else if a > j {
                        assert(t[a] == pv[a - 1]);
                    } else {
                        assert(e[i as int].0 == t[a].0);
                    }
                }
                assert forall|a: int, c: int|
                    0 <= a < t.len() && 0 <= c < t.len() && a != c implies t[a].0 != t[c].0 by {
                    if a != j && c != j {
                        let a2 = if a < j { a } else { a - 1 };
                        let c2 = if c < j { c } else { c - 1 };
                        assert(t[a] == pv[a2]);
                        assert(t[c] == pv[c2]);
                    } else {
                        let o = if a == j { c } else { a };
                        let o2 = if o < j { o } else { o - 1 };
                        assert(t[o] == pv[o2]);
                        let b = choose|b: int| 0 <= b < i && e[b].0 == pv[o2].0;
                        assert(e[b].0 != e[i as int].0);
                    }
                }
                assert(e.subrange(0, i + 1).last() == xv);
            }
            i = i + 1;
        }
        assert(e.subrange(0, n as int) =~= e);
        let ghost sorted = pair_views(out@);
        let mut fresh = pair_map_new();
        let mut m: usize = 0;
        while m < out.len()
            invariant
                m <= out@.len(),
                sorted == pair_views(out@),
                pair_keys_unique(sorted),
                pair_keys_unique(pairs_of(fresh)),
                pairs_of(fresh) == sorted.subrange(0, m as int),
            decreases out@.len() - m,
        {
            let ghost before = pairs_of(fresh);
            assert(sorted[m as int] == (out@[m as int].0@, out@[m as int].1@));
            assert(!has_pair_key(before, sorted[m as int].0)) by {
                if has_pair_key(before, sorted[m as int].0) {
                    let c = choose|c: int| 0 <= c < before.len() && before[c].0 == sorted[m as int].0;
                    assert(before[c] == sorted[c]);
                }
            }
            pair_map_insert(&mut fresh, out[m].0.clone(), out[m].1.clone());
            assert(pairs_of(fresh) =~= sorted.subrange(0, m + 1));
            m = m + 1;
        }
        assert(sorted.subrange(0, out@.len() as int) =~= sorted);
        self.data = fresh;
    }

    /// Puts the pairs in the order of their keys; refused on an empty store.
    pub fn sort_by_key(&mut self) -> (r: Result<(), String>)
        requires
            old(self).wf(),
        ensures
            final(self).wf(),
            final(self).path() == old(self).path(),
            r is Err <==> old(self).pairs().len() == 0,
            r matches Err(m) ==> m@ == empty_sort_message(),
            final(self).pairs() == sorted_by_field(old(self).pairs(), false),
            in_field_order(final(self).pairs(), false),
            final(self).pairs().to_multiset() == old(self).pairs().to_multiset(),
    {
        proof {
            lemma_sorted_by_field(self.pairs(), false);
        }
        if pair_map_len(&self.data) == 0 {
            assert(sorted_by_field(self.pairs(), false) == self.pairs());
            return Err("Database is empty. No sorting needed.".to_owned());
        }
        self.sort_pairs(false);
        Ok(())
    }

    /// Puts the pairs in the order of their values, pairs with equal values
    /// in their first order; refused on an empty store.
    pub fn sort_by_value(&mut self) -> (r: Result<(), String>)
        requires
            old(self).wf(),
        ensures
            final(self).wf(),
            final(self).path() == old(self).path(),
            r is Err <==> old(self).pairs().len() == 0,
            r matches Err(m) ==> m@ == empty_sort_message(),
            final(self).pairs() == sorted_by_field(old(self).pairs(), true),
            in_field_order(final(self).pairs(), true),
            final(self).pairs().to_multiset() == old(self).pairs().to_multiset(),
    {
        proof {
            lemma_sorted_by_field(self.pairs(), true);
        }
        if pair_map_len(&self.data) == 0 {
            assert(sorted_by_field(self.pairs(), true) == self.pairs());
            return Err("Database is empty. No sorting needed.".to_owned());
        }
        self.sort_pairs(true);
        Ok(())
    }

}

} // verus!
