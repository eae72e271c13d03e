//! The backing file's text: one line `key:cell,cell,...` per row, in order.

use crate::column_db::with_row;
use crate::ordered::{cells_of, RowModel};
use vstd::prelude::*;

verus! {

/// The pieces of `s` between the separators `c`; there is always at least one.
pub open spec fn split_on(s: Seq<char>, c: char) -> Seq<Seq<char>>
    decreases s.len(),
{
    if s.len() == 0 {
        seq![Seq::<char>::empty()]
    } else {
        let pieces = split_on(s.drop_last(), c);
        if s.last() == c {
            pieces.push(Seq::empty())
        } else {
            pieces.update(pieces.len() - 1, pieces.last().push(s.last()))
        }
    }
}

/// The cells joined by commas.
pub open spec fn join_cells(cells: Seq<Seq<char>>) -> Seq<char>
    decreases cells.len(),
{
    if cells.len() == 0 {
        Seq::empty()
    } else if cells.len() == 1 {
        cells[0]
    } else {
        join_cells(cells.drop_last()) + seq![','] + cells.last()
    }
}

/// The line that holds a row.
pub open spec fn row_line(r: RowModel) -> Seq<char> {
    r.0 + seq![':'] + join_cells(r.1) + seq!['\n']
}

/// The text that holds the rows.
pub open spec fn render(e: Seq<RowModel>) -> Seq<char>
    decreases e.len(),
{
    if e.len() == 0 {
        Seq::empty()
    } else {
        render(e.drop_last()) + row_line(e.last())
    }
}

/// The lines of a text: the pieces between newlines, without an empty piece
/// after a last newline, each without one carriage return at its end.
pub open spec fn text_lines(t: Seq<char>) -> Seq<Seq<char>> {
    let p = split_on(t, '\n');
    let q = if p.last().len() == 0 {
        p.drop_last()
    } else {
        p
    };
    q.map_values(|l: Seq<char>| strip_cr(l))
}

/// A line without one carriage return at its end.
pub open spec fn strip_cr(l: Seq<char>) -> Seq<char> {
    if l.len() > 0 && l.last() == '\r' {
        l.drop_last()
    } else {
        l
    }
}

/// `i` is the first place of `c` in `s`.
pub open spec fn first_at(s: Seq<char>, c: char, i: int) -> bool {
    0 <= i < s.len() && s[i] == c && forall|j: int| 0 <= j < i ==> s[j] != c
}

/// The row that a line holds: the key before the first colon, the cells after
/// it split on commas; none for a line without a colon.
pub open spec fn parse_line(l: Seq<char>) -> Option<RowModel> {
    if exists|i: int| first_at(l, ':', i) {
        let i = choose|i: int| first_at(l, ':', i);
        Some((l.subrange(0, i), split_on(l.subrange(i + 1, l.len() as int), ',')))
    } else {
        None
    }
}

/// The rows after the lines `ls` are loaded, in order, into rows `e`.
pub open spec fn load_lines(e: Seq<RowModel>, ls: Seq<Seq<char>>) -> Seq<RowModel>
    decreases ls.len(),
{
    if ls.len() == 0 {
        e
    } else {
        let before = load_lines(e, ls.drop_last());
        match parse_line(ls.last()) {
            Some(r) => with_row(before, r.0, r.1),
            None => before,
        }
    }
}

/// There is always at least one piece.
pub proof fn lemma_split_nonempty(s: Seq<char>, c: char)
    ensures
        split_on(s, c).len() >= 1,
    decreases s.len(),
{
    if s.len() > 0 {
        lemma_split_nonempty(s.drop_last(), c);
    }
}

/// Two first places of a character are the same place.
pub proof fn lemma_first_at_unique(s: Seq<char>, c: char, i: int, k: int)
    requires
        first_at(s, c, i),
        first_at(s, c, k),
    ensures
        i == k,
{
    if i < k {
        assert(s[i] != c);
    } else if k < i {
        assert(s[k] != c);
    }
}

/// Splits `t` on `c` into new strings.
pub fn split_text(t: &str, c: char) -> (r: Vec<String>)
    ensures
        cells_of(r@) == split_on(t@, c),
{
    let n = t.unicode_len();
    let mut pieces: Vec<String> = Vec::new();
    let mut start: usize = 0;
    let mut i: usize = 0;
    assert(t@.subrange(0, 0) =~= Seq::<char>::empty());
    assert(cells_of(pieces@) =~= Seq::<Seq<char>>::empty());
    assert(t@.subrange(0, 0) =~= t@.subrange(0, 0));
    while i < n
        invariant
            n == t@.len(),
            start <= i <= n,
            split_on(t@.subrange(0, i as int), c) == cells_of(pieces@).push(
                t@.subrange(start as int, i as int),
            ),
        decreases n - i,
    {
        let ghost pre = t@.subrange(0, i as int);
        let ghost cur = t@.subrange(0, i + 1);
        assert(cur.drop_last() =~= pre);
        let ch = t.get_char(i);
        assert(cur.last() == ch);
        if ch == c {
            assert(split_on(cur, c) == split_on(pre, c).push(Seq::empty()));
            let ghost old_pieces = cells_of(pieces@);
            pieces.push(t.substring_char(start, i).to_owned());
            assert(cells_of(pieces@) =~= old_pieces.push(t@.subrange(start as int, i as int)));
            start = i + 1;
            assert(t@.subrange(start as int, i + 1) =~= Seq::<char>::empty());
            assert(split_on(cur, c) =~= cells_of(pieces@).push(
                t@.subrange(start as int, i + 1),
            ));
        } else {
            assert(t@.subrange(start as int, i + 1) =~= t@.subrange(start as int, i as int).push(
                ch,
            ));
            assert(split_on(cur, c) =~= cells_of(pieces@).push(
                t@.subrange(start as int, i + 1),
            ));
        }
        i = i + 1;
    }
    assert(t@.subrange(0, n as int) =~= t@);
    let ghost old_pieces = cells_of(pieces@);
    pieces.push(t.substring_char(start, n).to_owned());
    assert(cells_of(pieces@) =~= old_pieces.push(t@.subrange(start as int, n as int)));
    pieces
}


/// The cells joined by commas.
pub fn join_text(cells: &Vec<String>) -> (r: String)
    ensures
        r@ == join_cells(cells_of(cells@)),
{
    let ghost cv = cells_of(cells@);
    let mut out = String::new();
    if cells.len() == 0 {
        return out;
    }
    out.append(cells[0].as_str());
    assert(cv.subrange(0, 1).drop_last() =~= Seq::<Seq<char>>::empty());
    assert(join_cells(cv.subrange(0, 1)) == cv.subrange(0, 1)[0]);
    proof {
        reveal_strlit(",");
        assert(","@ =~= seq![',']);
    }
    let mut i: usize = 1;
    while i < cells.len()
        invariant
            1 <= i <= cells@.len(),
            cv == cells_of(cells@),
            ","@ == seq![','],
            out@ == join_cells(cv.subrange(0, i as int)),
        decreases cells@.len() - i,
    {
        let ghost cur = cv.subrange(0, i + 1);
        assert(cur.drop_last() =~= cv.subrange(0, i as int));
        assert(cur.last() == cells@[i as int]@);
        out.append(",");
        out.append(cells[i].as_str());
        assert(out@ =~= join_cells(cur));
        i = i + 1;
    }
    assert(cv.subrange(0, cells@.len() as int) =~= cv);
    out
}

/// The line that holds the row of `key`.
pub fn line_text(key: &String, cells: &Vec<String>) -> (r: String)
    ensures
        r@ == row_line((key@, cells_of(cells@))),
{
    proof {
        reveal_strlit(":");
        reveal_strlit("\n");
        assert(":"@ =~= seq![':']);
        assert("\n"@ =~= seq!['\n']);
    }
    let mut out = key.clone();
    out.append(":");
    let joined = join_text(cells);
    out.append(joined.as_str());
    out.append("\n");
    out
}

/// The row that a line holds, if it has a colon.
pub fn parse_text_line(l: &str) -> (r: Option<(String, Vec<String>)>)
    ensures
        match parse_line(l@) {
            Some(row) => r matches Some((k, c)) && k@ == row.0 && cells_of(c@) == row.1,
            None => r is None,
        },
{
    let n = l.unicode_len();
    let mut i: usize = 0;
    while i < n
        invariant
            n == l@.len(),
            i <= n,
            forall|j: int| 0 <= j < i ==> l@[j] != ':',
        decreases n - i,
    {
        if l.get_char(i) == ':' {
            assert(first_at(l@, ':', i as int));
            proof {
                let k = choose|k: int| first_at(l@, ':', k);
                lemma_first_at_unique(l@, ':', i as int, k);
            }
            let key = l.substring_char(0, i).to_owned();
            let cells = split_text(l.substring_char(i + 1, n), ',');
            return Some((key, cells));
        }
        i = i + 1;
    }
    assert(!exists|k: int| first_at(l@, ':', k));
    None
}

/// The lines of a text, as `text_lines` gives them.
pub fn split_lines(t: &str) -> (r: Vec<String>)
    ensures
        cells_of(r@) == text_lines(t@),
{
    let pieces = split_text(t, '\n');
    let ghost p = cells_of(pieces@);
    proof {
        lemma_split_nonempty(t@, '\n');
    }
    let mut count = pieces.len();
    if pieces[count - 1].unicode_len() == 0 {
        count = count - 1;
    }
    let ghost q = if p.last().len() == 0 {
        p.drop_last()
    } else {
        p
    };
    assert(q =~= p.subrange(0, count as int));
    let mut out: Vec<String> = Vec::new();
    let mut i: usize = 0;
    while i < count
        invariant
            count <= pieces@.len(),
            p == cells_of(pieces@),
            q == p.subrange(0, count as int),
            i <= count,
            out@.len() == i,
            cells_of(out@) == q.subrange(0, i as int).map_values(|l: Seq<char>| strip_cr(l)),
        decreases count - i,
    {
        let piece = pieces[i].as_str();
        let len = piece.unicode_len();
        let line = if len > 0 && piece.get_char(len - 1) == '\r' {
            piece.substring_char(0, len - 1).to_owned()
        } else {
            piece.to_owned()
        };
        assert(line@ =~= strip_cr(p[i as int]));
        let ghost before = cells_of(out@);
        let ghost raw = out@;
        out.push(line);
        assert(out@ == raw.push(line));
        assert forall|j: int| 0 <= j <= i implies cells_of(out@)[j] == q.subrange(0, i + 1).map_values(|l: Seq<char>| strip_cr(l))[j] by {
            if j < i {
                assert(before[j] == q.subrange(0, i as int).map_values(|l: Seq<char>| strip_cr(l))[j]);
            }
        }
        assert(cells_of(out@) =~= q.subrange(0, i + 1).map_values(|l: Seq<char>| strip_cr(l)));
        i = i + 1;
    }
    assert(q.subrange(0, count as int) =~= q);
    out
}


/// Splitting after a separator: the pieces before it, then the pieces after.
pub proof fn lemma_split_join(x: Seq<char>, y: Seq<char>, c: char)
    ensures
        split_on(x + seq![c] + y, c) == split_on(x, c) + split_on(y, c),
    decreases y.len(),
{
    let s = x + seq![c] + y;
    if y.len() == 0 {
        assert(s.drop_last() =~= x);
        assert(split_on(y, c) =~= seq![Seq::<char>::empty()]);
        assert(split_on(s, c) =~= split_on(x, c) + split_on(y, c));
    } else {
        let y0 = y.drop_last();
        lemma_split_join(x, y0, c);
        assert(s.drop_last() =~= x + seq![c] + y0);
        assert(s.last() == y.last());
        lemma_split_nonempty(y0, c);
        let a = split_on(x, c);
        let b = split_on(y0, c);
        if y.last() == c {
            assert(split_on(s, c) =~= a + b.push(Seq::empty()));
        } else {
            assert(split_on(s, c) =~= a + b.update(b.len() - 1, b.last().push(y.last())));
        }
    }
}

/// A text without the separator is one piece.
pub proof fn lemma_split_whole(s: Seq<char>, c: char)
    requires
        !s.contains(c),
    ensures
        split_on(s, c) == seq![s],
    decreases s.len(),
{
    if s.len() == 0 {
        assert(s =~= Seq::<char>::empty());
        assert(split_on(s, c) =~= seq![s]);
    } else {
        let s0 = s.drop_last();
        assert(!s0.contains(c)) by {
            if s0.contains(c) {
                let k = choose|k: int| 0 <= k < s0.len() && s0[k] == c;
                assert(s[k] == c);
            }
        }
        lemma_split_whole(s0, c);
        assert(s.last() != c) by {
            assert(s[s.len() - 1] == s.last());
        }
        assert(s0.push(s.last()) =~= s);
        let pieces = split_on(s0, c);
        assert(pieces.len() == 1 && pieces.last() == s0);
        assert(split_on(s, c) == pieces.update(0, s0.push(s.last())));
        assert(split_on(s, c) =~= seq![s]);
    }
}

/// No cell holds `ch`.
pub open spec fn cells_free_of(cells: Seq<Seq<char>>, ch: char) -> bool {
    forall|i: int| 0 <= i < cells.len() ==> !(#[trigger] cells[i]).contains(ch)
}

/// Joined cells hold no character that no cell holds, but for the comma.
pub proof fn lemma_join_free(cells: Seq<Seq<char>>, ch: char)
    requires
        cells_free_of(cells, ch),
        ch != ',',
    ensures
        !join_cells(cells).contains(ch),
    decreases cells.len(),
{
    if cells.len() == 1 {
        assert(!cells[0].contains(ch));
    } else if cells.len() > 1 {
        let c0 = cells.drop_last();
        assert(cells_free_of(c0, ch)) by {
            assert forall|i: int| 0 <= i < c0.len() implies !(#[trigger] c0[i]).contains(ch) by {
                assert(c0[i] == cells[i]);
            }
        }
        lemma_join_free(c0, ch);
        let j = join_cells(c0);
        let l = cells.last();
        assert(!l.contains(ch)) by {
            assert(cells[cells.len() - 1] == l);
        }
        let t = j + seq![','] + l;
        assert(!t.contains(ch)) by {
            if t.contains(ch) {
                let k = choose|k: int| 0 <= k < t.len() && t[k] == ch;
                if k < j.len() {
                    assert(j[k] == ch);
                } else if k > j.len() {
                    assert(l[k - j.len() - 1] == ch);
                }
            }
        }
    }
}

/// Splitting joined cells on commas gives the cells back, where there is at
/// least one cell and none holds a comma.
pub proof fn lemma_join_split(cells: Seq<Seq<char>>)
    requires
        cells.len() > 0,
        cells_free_of(cells, ','),
    ensures
        split_on(join_cells(cells), ',') == cells,
    decreases cells.len(),
{
    if cells.len() == 1 {
        lemma_split_whole(cells[0], ',');
        assert(seq![cells[0]] =~= cells);
    } else {
        let c0 = cells.drop_last();
        assert(cells_free_of(c0, ',')) by {
            assert forall|i: int| 0 <= i < c0.len() implies !(#[trigger] c0[i]).contains(',') by {
                assert(c0[i] == cells[i]);
            }
        }
        lemma_join_split(c0);
        lemma_split_join(join_cells(c0), cells.last(), ',');
        assert(!cells.last().contains(',')) by {
            assert(cells[cells.len() - 1] == cells.last());
        }
        lemma_split_whole(cells.last(), ',');
        assert(c0 + seq![cells.last()] =~= cells);
    }
}

/// The line of a row without its newline.
pub open spec fn line_body(r: RowModel) -> Seq<char> {
    r.0 + seq![':'] + join_cells(r.1)
}

/// A row that the file can hold as it is: a key without colon, newline or
/// carriage return, and at least one cell, none with a comma, newline or
/// carriage return.
pub open spec fn storable(r: RowModel) -> bool {
    &&& !r.0.contains(':')
    &&& !r.0.contains('\n')
    &&& !r.0.contains('\r')
    &&& r.1.len() > 0
    &&& cells_free_of(r.1, ',')
    &&& cells_free_of(r.1, '\n')
    &&& cells_free_of(r.1, '\r')
}

/// A storable row's line body has no newline or carriage return, and parses
/// back to the row.
pub proof fn lemma_line_body(r: RowModel)
    requires
        storable(r),
    ensures
        !line_body(r).contains('\n'),
        strip_cr(line_body(r)) == line_body(r),
        parse_line(line_body(r)) == Some(r),
{
    let b = line_body(r);
    let k = r.0;
    let j = join_cells(r.1);
    lemma_join_free(r.1, '\n');
    lemma_join_free(r.1, '\r');
    assert forall|ch: char| ch != ':' && !k.contains(ch) && !j.contains(ch) implies !b.contains(
        ch,
    ) by {
        if b.contains(ch) {
            let x = choose|x: int| 0 <= x < b.len() && b[x] == ch;
            if x < k.len() {
                assert(k[x] == ch);
            } else if x > k.len() {
                assert(j[x - k.len() - 1] == ch);
            }
        }
    }
    assert(!b.contains('\r'));
    assert(b.len() > 0 && b.last() != '\r') by {
        assert(b[b.len() - 1] == b.last());
    }
    let i = k.len() as int;
    assert(first_at(b, ':', i)) by {
        assert forall|x: int| 0 <= x < i implies b[x] != ':' by {
            assert(b[x] == k[x]);
        }
    }
    let c = choose|c: int| first_at(b, ':', c);
    lemma_first_at_unique(b, ':', i, c);
    assert(b.subrange(0, i) =~= k);
    assert(b.subrange(i + 1, b.len() as int) =~= j);
    lemma_join_split(r.1);
}

/// The file text of storable rows splits into their line bodies and one
/// empty piece after the last newline.
pub proof fn lemma_render_split(e: Seq<RowModel>)
    requires
        forall|i: int| 0 <= i < e.len() ==> storable(#[trigger] e[i]),
    ensures
        split_on(render(e), '\n') == e.map_values(|r: RowModel| line_body(r)).push(Seq::empty()),
    decreases e.len(),
{
    let bodies = e.map_values(|r: RowModel| line_body(r));
    if e.len() == 0 {
        assert(split_on(render(e), '\n') =~= bodies.push(Seq::empty()));
    } else {
        let e0 = e.drop_last();
        let r = e.last();
        assert(storable(e[e.len() - 1]));
        lemma_line_body(r);
        let y = line_body(r);
        assert(row_line(r) =~= y + seq!['\n']);
        assert(render(e) =~= render(e0) + y + seq!['\n']);
        lemma_render_split(e0);
        let b0 = e0.map_values(|r: RowModel| line_body(r));
        lemma_split_whole(y, '\n');
        if e0.len() == 0 {
            assert(render(e0) + y =~= y);
        } else {
            let x = render(e0);
            lemma_split_nonempty(x, '\n');
            assert(row_line(e0.last()).last() == '\n');
            assert(x.last() == '\n');
            let x0 = x.drop_last();
            assert(x =~= x0 + seq!['\n']);
            assert(x0.push('\n') =~= x);
            assert(split_on(x, '\n') == split_on(x0, '\n').push(Seq::empty()));
            lemma_split_join(x0, y, '\n');
            assert(x0 + seq!['\n'] + y =~= x + y);
            assert(split_on(x, '\n').drop_last() =~= b0);
            assert(split_on(x0, '\n').push(Seq::empty()).drop_last() =~= split_on(x0, '\n'));
            assert(split_on(x0, '\n') =~= b0);
            assert(split_on(x + y, '\n') =~= b0.push(y));
        }
        assert(split_on(render(e0) + y, '\n') =~= b0.push(y));
        assert((render(e0) + y + seq!['\n']).drop_last() =~= render(e0) + y);
        assert(split_on(render(e), '\n') =~= b0.push(y).push(Seq::empty()));
        assert(bodies =~= b0.push(y));
    }
}

} // verus!
