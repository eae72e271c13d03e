//! What holds of the store across its operations.

use crate::column_db::{
    all_columns, header_of, lemma_without_key, pick, selected_rows, unresolved, without_key,
};
use crate::columns::{column_position, first_place, key_word};
use crate::format::{
    lemma_line_body, lemma_render_split, line_body, load_lines, render, storable, strip_cr,
    text_lines,
};
use crate::ordered::{has_key, keys_unique, RowModel};
use vstd::prelude::*;

verus! {

/// A name that the header holds, other than `key`, resolves to one past its
/// first place in the header; `key` resolves to 0 whatever the header.
pub proof fn lemma_resolution(name: Seq<char>, h: Seq<Seq<char>>)
    ensures
        column_position(key_word(), h) == Some(0int),
        h.contains(name) && name != key_word() ==> exists|i: int|
            first_place(h, name, i) && column_position(name, h) == Some(1 + i),
{
    if h.contains(name) && name != key_word() {
        let k = choose|k: int| 0 <= k < h.len() && h[k] == name;
        lemma_first_of(h, name, k);
        let i = choose|i: int| first_place(h, name, i);
        let c = choose|c: int| first_place(h, name, c);
        crate::columns::lemma_first_place_unique(h, name, i, c);
        assert(column_position(name, h) == Some(1 + i));
    }
}

/// A name held at place `k` has a first place.
proof fn lemma_first_of(h: Seq<Seq<char>>, name: Seq<char>, k: int)
    requires
        0 <= k < h.len(),
        h[k] == name,
    ensures
        exists|i: int| first_place(h, name, i),
    decreases k,
{
    if forall|j: int| 0 <= j < k ==> h[j] != name {
        assert(first_place(h, name, k));
    } else {
        let j = choose|j: int| 0 <= j < k && h[j] == name;
        lemma_first_of(h, name, j);
    }
}

/// Cutting a row to the first `m` places keeps the whole row when it has at
/// most `m` cells.
proof fn lemma_pick_prefix(cells: Seq<Seq<char>>, m: nat)
    requires
        cells.len() <= m,
    ensures
        pick(cells, Seq::new(m, |i: int| i)) == cells,
    decreases m,
{
    lemma_pick_upto(cells, m);
    assert(cells.subrange(0, cells.len() as int) =~= cells);
}

/// Cutting a row to the first `m` places keeps its first `m` cells.
proof fn lemma_pick_upto(cells: Seq<Seq<char>>, m: nat)
    ensures
        pick(cells, Seq::new(m, |i: int| i)) == cells.subrange(
            0,
            if m <= cells.len() {
                m as int
            } else {
                cells.len() as int
            },
        ),
    decreases m,
{
    let cols = Seq::new(m, |i: int| i);
    if m > 0 {
        let prev = Seq::new((m - 1) as nat, |i: int| i);
        assert(cols.drop_last() =~= prev);
        lemma_pick_upto(cells, (m - 1) as nat);
        if m <= cells.len() {
            assert(cells.subrange(0, m - 1).push(cells[m - 1]) =~= cells.subrange(0, m as int));
        }
    } else {
        assert(cells.subrange(0, 0) =~= Seq::<Seq<char>>::empty());
    }
}

/// Selecting every row with every header column gives the rows back, in
/// order, where no row has more cells than the header.
pub proof fn lemma_full_selection(e: Seq<RowModel>)
    requires
        forall|i: int| 0 <= i < e.len() ==> (#[trigger] e[i]).1.len() <= header_of(e).len(),
    ensures
        selected_rows(e, 0, e.len() as int, all_columns(header_of(e))) == e,
{
    let h = header_of(e);
    let s = selected_rows(e, 0, e.len() as int, all_columns(h));
    assert forall|i: int| 0 <= i < e.len() implies s[i] == e[i] by {
        lemma_pick_prefix(e[i].1, h.len());
        assert(all_columns(h) =~= Seq::new(h.len(), |j: int| j));
    }
    assert(s =~= e);
}

/// A requested name that the header does not resolve is among the names
/// that a refused selection lists.
pub proof fn lemma_unknown_listed(names: Seq<Seq<char>>, h: Seq<Seq<char>>, name: Seq<char>)
    requires
        names.contains(name),
        column_position(name, h) is None,
    ensures
        unresolved(names, h).contains(name),
        unresolved(names, h).len() > 0,
    decreases names.len(),
{
    let rest = unresolved(names.drop_last(), h);
    if names.last() == name {
        assert(unresolved(names, h).last() == name);
    } else {
        let k = choose|k: int| 0 <= k < names.len() && names[k] == name;
        assert(names.drop_last()[k] == name);
        lemma_unknown_listed(names.drop_last(), h, name);
        let j = choose|j: int| 0 <= j < rest.len() && rest[j] == name;
        if column_position(names.last(), h) is None {
            assert(rest.push(names.last())[j] == name);
        }
    }
}

/// After a column is added to a store that has a header, the header names
/// it, so adding it again is refused.
pub proof fn lemma_added_column_named(before: Seq<Seq<char>>, name: Seq<char>)
    ensures
        before.push(name).contains(name),
{
    assert(before.push(name)[before.len() as int] == name);
}

/// Once a key's row is deleted, no row has the key, so reading a resolved
/// column of it fails.
pub proof fn lemma_deleted_key_gone(e: Seq<RowModel>, k: Seq<char>)
    requires
        keys_unique(e),
    ensures
        !has_key(without_key(e, k), k),
{
    lemma_without_key(e, k);
}


/// Loading the line bodies of rows with unique keys into no rows gives the
/// rows back.
proof fn lemma_load_bodies(e: Seq<RowModel>)
    requires
        keys_unique(e),
        forall|i: int| 0 <= i < e.len() ==> storable(#[trigger] e[i]),
    ensures
        load_lines(Seq::empty(), e.map_values(|r: RowModel| line_body(r))) == e,
    decreases e.len(),
{
    let bodies = e.map_values(|r: RowModel| line_body(r));
    if e.len() > 0 {
        let e0 = e.drop_last();
        assert(bodies.drop_last() =~= e0.map_values(|r: RowModel| line_body(r)));
        assert(keys_unique(e0));
        assert forall|i: int| 0 <= i < e0.len() implies storable(#[trigger] e0[i]) by {
            assert(e0[i] == e[i]);
        }
        lemma_load_bodies(e0);
        let r = e.last();
        assert(storable(e[e.len() - 1]));
        lemma_line_body(r);
        assert(bodies.last() == line_body(r));
        assert(!has_key(e0, r.0)) by {
            if has_key(e0, r.0) {
                let j = choose|j: int| 0 <= j < e0.len() && e0[j].0 == r.0;
                assert(e[j].0 == e[e.len() - 1].0);
            }
        }
        assert(e0.push(r) =~= e);
    } else {
        assert(bodies.len() == 0);
    }
}

/// Writing the rows to text and loading that text into an empty store gives
/// the same rows, where keys are unique, no key holds a colon, newline or
/// carriage return, and every row has a cell and no cell holds a comma,
/// newline or carriage return.
pub proof fn lemma_round_trip(e: Seq<RowModel>)
    requires
        keys_unique(e),
        forall|i: int| 0 <= i < e.len() ==> storable(#[trigger] e[i]),
    ensures
        load_lines(Seq::empty(), text_lines(render(e))) == e,
{
    lemma_render_split(e);
    let bodies = e.map_values(|r: RowModel| line_body(r));
    let p = bodies.push(Seq::<char>::empty());
    assert(p.drop_last() =~= bodies);
    assert forall|i: int| 0 <= i < bodies.len() implies strip_cr(#[trigger] bodies[i]) == bodies[i] by {
        assert(storable(e[i]));
        lemma_line_body(e[i]);
    }
    assert(text_lines(render(e)) =~= bodies);
    lemma_load_bodies(e);
}

} // verus!
