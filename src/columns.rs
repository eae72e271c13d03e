//! Column addressing: a column is named by the header row, or by the word
//! `key`, which stands for the row's own key.

use crate::text::same_text;
use vstd::prelude::*;

verus! {

/// The name that addresses a row's key.
pub open spec fn key_word() -> Seq<char> {
    seq!['k', 'e', 'y']
}

/// `i` is the first place of `name` in `header`.
pub open spec fn first_place(header: Seq<Seq<char>>, name: Seq<char>, i: int) -> bool {
    0 <= i < header.len() && header[i] == name && forall|j: int| 0 <= j < i ==> header[j] != name
}

/// The position that a column name stands for: 0 for the key, `1 + i` for the
/// header's column `i` (its first occurrence), none for an unknown name.
pub open spec fn column_position(name: Seq<char>, header: Seq<Seq<char>>) -> Option<int> {
    if name == key_word() {
        Some(0)
    } else if exists|i: int| first_place(header, name, i) {
        Some(1 + choose|i: int| first_place(header, name, i))
    } else {
        None
    }
}

/// Two first places of a name are the same place.
pub proof fn lemma_first_place_unique(header: Seq<Seq<char>>, name: Seq<char>, i: int, k: int)
    requires
        first_place(header, name, i),
        first_place(header, name, k),
    ensures
        i == k,
{
    if i < k {
        assert(header[i] != name);
    } else if k < i {
        assert(header[k] != name);
    }
}

/// Resolves a column name against a header row.
pub fn resolve(name: &str, header: &Vec<String>) -> (r: Option<usize>)
    ensures
        column_position(name@, crate::ordered::cells_of(header@)) == match r {
            Some(q) => Some(q as int),
            None => None::<int>,
        },
{
    let ghost h = crate::ordered::cells_of(header@);
    proof {
        reveal_strlit("key");
        assert("key"@ =~= key_word());
    }
    if same_text(name, "key") {
        return Some(0);
    }
    let mut i: usize = 0;
    while i < header.len()
        invariant
            i <= header@.len(),
            h == crate::ordered::cells_of(header@),
            name@ != key_word(),
            forall|j: int| 0 <= j < i ==> h[j] != name@,
        decreases header@.len() - i,
    {
        if same_text(header[i].as_str(), name) {
            assert(first_place(h, name@, i as int));
            proof {
                let k = choose|k: int| first_place(h, name@, k);
                lemma_first_place_unique(h, name@, i as int, k);
            }
            return Some(i + 1);
        }
        i = i + 1;
    }
    assert(!exists|k: int| first_place(h, name@, k));
    None
}

} // verus!
