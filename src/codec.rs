use vstd::prelude::*;
use crate::table::{CanonicalTable, TableView, cells_nonempty};
use crate::text::push_char;

verus! {

/// The canonical text of one character: the delimiter, the escape character
/// and line terminators are escaped with a backslash.
pub open spec fn escape_char(c: char) -> Seq<char> {
    if c == '\\' {
        seq!['\\', '\\']
    } else if c == ',' {
        seq!['\\', ',']
    } else if c == '\n' {
        seq!['\\', 'n']
    } else if c == '\r' {
        seq!['\\', 'r']
    } else {
        seq![c]
    }
}

pub open spec fn escape_cell(s: Seq<char>) -> Seq<char>
    decreases s.len(),
{
    if s.len() == 0 {
        seq![]
    } else {
        escape_cell(s.drop_last()) + escape_char(s.last())
    }
}

/// Cells joined by commas.
pub open spec fn encode_row(r: Seq<Seq<char>>) -> Seq<char>
    decreases r.len(),
{
    if r.len() == 0 {
        seq![]
    } else if r.len() == 1 {
        escape_cell(r[0])
    } else {
        encode_row(r.drop_last()) + seq![','] + escape_cell(r.last())
    }
}

/// One line per row, each ended by a line feed.
pub open spec fn encode_table(t: TableView) -> Seq<char>
    decreases t.len(),
{
    if t.len() == 0 {
        seq![]
    } else {
        encode_table(t.drop_last()) + encode_row(t.last()) + seq!['\n']
    }
}

/// Where a reader of canonical text stands after some prefix of it.
pub struct Reader {
    pub rows: TableView,
    pub cells: Seq<Seq<char>>,
    pub cell: Seq<char>,
    pub escaped: bool,
    pub failed: bool,
}

pub open spec fn reader_start() -> Reader {
    Reader { rows: seq![], cells: seq![], cell: seq![], escaped: false, failed: false }
}

pub open spec fn fail(st: Reader) -> Reader {
    Reader { failed: true, ..st }
}

pub open spec fn add_char(st: Reader, c: char) -> Reader {
    Reader { cell: st.cell.push(c), escaped: false, ..st }
}

/// One character of canonical text read.
pub open spec fn read_step(st: Reader, c: char) -> Reader {
    if st.failed {
        st
    } else if st.escaped {
        if c == '\\' || c == ',' {
            add_char(st, c)
        } else if c == 'n' {
            add_char(st, '\n')
        } else if c == 'r' {
            add_char(st, '\r')
        } else {
            fail(st)
        }
    } else if c == '\\' {
        Reader { escaped: true, ..st }
    } else if c == ',' {
        if st.cell.len() == 0 {
            fail(st)
        } else {
            Reader { cells: st.cells.push(st.cell), cell: seq![], ..st }
        }
    } else if c == '\n' {
        if st.cells.len() == 0 && st.cell.len() == 0 {
            Reader { rows: st.rows.push(seq![]), ..st }
        } else if st.cell.len() == 0 {
            fail(st)
        } else {
            Reader { rows: st.rows.push(st.cells.push(st.cell)), cells: seq![], cell: seq![], ..st }
        }
    } else if c == '\r' {
        fail(st)
    } else {
        add_char(st, c)
    }
}

pub open spec fn read_all(st: Reader, s: Seq<char>) -> Reader
    decreases s.len(),
{
    if s.len() == 0 {
        st
    } else {
        read_step(read_all(st, s.drop_last()), s.last())
    }
}

/// A reader that has taken whole lines and nothing more.
pub open spec fn at_line_end(st: Reader) -> bool {
    !st.failed && !st.escaped && st.cells.len() == 0 && st.cell.len() == 0
}

/// The table that canonical text stands for, if it is well formed.
pub open spec fn decode_table(s: Seq<char>) -> Option<TableView> {
    let st = read_all(reader_start(), s);
    if at_line_end(st) {
        Some(st.rows)
    } else {
        None
    }
}

proof fn lemma_read_append(st: Reader, a: Seq<char>, b: Seq<char>)
    ensures
        read_all(st, a + b) == read_all(read_all(st, a), b),
    decreases b.len(),
{
    if b.len() == 0 {
        assert(a + b =~= a);
    } else {
        assert((a + b).drop_last() =~= a + b.drop_last());
        lemma_read_append(st, a, b.drop_last());
    }
}

proof fn lemma_read_one(st: Reader, c: char)
    ensures
        read_all(st, seq![c]) == read_step(st, c),
{
    assert(seq![c].drop_last() =~= Seq::<char>::empty());
    assert(read_all(st, seq![c].drop_last()) == st);
}

proof fn lemma_failed_stays(st: Reader, s: Seq<char>)
    requires
        st.failed,
    ensures
        read_all(st, s) == st,
    decreases s.len(),
{
    if s.len() > 0 {
        lemma_failed_stays(st, s.drop_last());
    }
}

proof fn lemma_read_cell(st: Reader, x: Seq<char>)
    requires
        !st.failed,
        !st.escaped,
    ensures
        read_all(st, escape_cell(x)) == (Reader { cell: st.cell + x, ..st }),
    decreases x.len(),
{
    if x.len() == 0 {
        assert(st.cell + x =~= st.cell);
        assert(read_all(st, seq![]) == st);
    } else {
        let head = escape_cell(x.drop_last());
        let c = x.last();
        lemma_read_cell(st, x.drop_last());
        lemma_read_append(st, head, escape_char(c));
        let mid = read_all(st, head);
        let e = escape_char(c);
        assert(st.cell + x.drop_last() + seq![c] =~= st.cell + x);
        if e.len() == 2 {
            assert(e.drop_last().drop_last() =~= Seq::<char>::empty());
            assert(e.drop_last().last() == e[0]);
            assert(read_all(mid, e.drop_last()) == read_step(read_all(mid, e.drop_last().drop_last()), e[0]));
            assert(read_all(mid, e.drop_last().drop_last()) == mid);
            let s1 = read_step(mid, e[0]);
            let s2 = read_step(s1, e[1]);
            assert(s2.cell =~= st.cell + x);
            assert(read_all(mid, e) == s2);
        } else {
            assert(e.drop_last() =~= Seq::<char>::empty());
            assert(read_all(mid, e.drop_last()) == mid);
            let s1 = read_step(mid, e[0]);
            assert(s1.cell =~= st.cell + x);
            assert(read_all(mid, e) == s1);
        }
    }
}

proof fn lemma_read_row(st: Reader, r: Seq<Seq<char>>)
    requires
        at_line_end(st),
        r.len() > 0,
        forall|j: int| 0 <= j < r.len() ==> #[trigger] r[j].len() > 0,
    ensures
        read_all(st, encode_row(r)) == (Reader { cells: r.drop_last(), cell: r.last(), ..st }),
    decreases r.len(),
{
    if r.len() == 1 {
        lemma_read_cell(st, r[0]);
        assert(st.cell + r[0] =~= r.last());
        assert(r.drop_last() =~= st.cells);
        assert(encode_row(r) == escape_cell(r[0]));
    } else {
        let front = r.drop_last();
        lemma_read_row(st, front);
        let after = read_all(st, encode_row(front));
        lemma_read_append(st, encode_row(front) + seq![','], escape_cell(r.last()));
        lemma_read_append(st, encode_row(front), seq![',']);
        assert(seq![','].drop_last() =~= Seq::<char>::empty());
        let comma = read_step(after, ',');
        assert(front.last().len() > 0);
        assert(comma.cells =~= r.drop_last());
        lemma_read_cell(comma, r.last());
        assert(comma.cell + r.last() =~= r.last());
        assert(encode_row(r) == encode_row(front) + seq![','] + escape_cell(r.last()));
        lemma_read_one(after, ',');
    }
}

proof fn lemma_read_table(t: TableView)
    requires
        cells_nonempty(t),
    ensures
        read_all(reader_start(), encode_table(t)) == (Reader { rows: t, ..reader_start() }),
    decreases t.len(),
{
    if t.len() == 0 {
        assert(t =~= seq![]);
    } else {
        let front = t.drop_last();
        assert(cells_nonempty(front)) by {
            assert forall|i: int, j: int| 0 <= i < front.len() && 0 <= j < front[i].len() implies
                #[trigger] front[i][j].len() > 0 by {
                assert(front[i] == t[i]);
            }
        }
        lemma_read_table(front);
        let st = Reader { rows: front, ..reader_start() };
        let row = t.last();
        lemma_read_append(reader_start(), encode_table(front) + encode_row(row), seq!['\n']);
        lemma_read_append(reader_start(), encode_table(front), encode_row(row));
        assert(seq!['\n'].drop_last() =~= Seq::<char>::empty());
        if row.len() == 0 {
            assert(encode_row(row) =~= Seq::<char>::empty());
            assert(read_all(st, encode_row(row)) == st);
            assert(row =~= Seq::<Seq<char>>::empty());
            assert(front.push(Seq::<Seq<char>>::empty()) =~= t);
            lemma_read_one(st, '\n');
        } else {
            assert forall|j: int| 0 <= j < row.len() implies #[trigger] row[j].len() > 0 by {
                assert(t[t.len() - 1][j] == row[j]);
            }
            lemma_read_row(st, row);
            assert(row.drop_last().push(row.last()) =~= row);
            assert(front.push(row) =~= t);
            let st2 = read_all(st, encode_row(row));
            lemma_read_one(st2, '\n');
        }
    }
}

/// The canonical text of what a reader holds in its unfinished line.
pub open spec fn pending_text(st: Reader) -> Seq<char> {
    (if st.cells.len() == 0 {
        Seq::<char>::empty()
    } else {
        encode_row(st.cells) + seq![',']
    }) + escape_cell(st.cell) + (if st.escaped {
        seq!['\\']
    } else {
        Seq::<char>::empty()
    })
}

/// What a reader holds is well formed and is written exactly as the text it has read.
pub open spec fn reader_matches(st: Reader, s: Seq<char>) -> bool {
    &&& cells_nonempty(st.rows)
    &&& forall|j: int| 0 <= j < st.cells.len() ==> #[trigger] st.cells[j].len() > 0
    &&& encode_table(st.rows) + pending_text(st) == s
}

proof fn lemma_encode_row_push(cells: Seq<Seq<char>>, cell: Seq<char>)
    ensures
        encode_row(cells.push(cell)) == (if cells.len() == 0 {
            Seq::<char>::empty()
        } else {
            encode_row(cells) + seq![',']
        }) + escape_cell(cell),
{
    assert(cells.push(cell).drop_last() =~= cells);
    if cells.len() == 0 {
        assert(cells.push(cell)[0] == cell);
        assert(Seq::<char>::empty() + escape_cell(cell) =~= escape_cell(cell));
    }
}

proof fn lemma_escape_cell_push(cell: Seq<char>, c: char)
    ensures
        escape_cell(cell.push(c)) == escape_cell(cell) + escape_char(c),
{
    assert(cell.push(c).drop_last() =~= cell);
}

proof fn lemma_reader_matches(s: Seq<char>)
    ensures
        !read_all(reader_start(), s).failed ==> reader_matches(read_all(reader_start(), s), s),
    decreases s.len(),
{
    if s.len() == 0 {
        let st = reader_start();
        assert(encode_table(st.rows) + pending_text(st) =~= s);
    } else {
        let prev = read_all(reader_start(), s.drop_last());
        let c = s.last();
        let st = read_step(prev, c);
        lemma_reader_matches(s.drop_last());
        if !st.failed {
            let p = s.drop_last();
            assert(p.push(c) =~= s);
            let base = encode_table(prev.rows);
            if prev.escaped {
                let d = st.cell.last();
                lemma_escape_cell_push(prev.cell, d);
                assert(st.cell == prev.cell.push(d));
                assert(escape_char(d) =~= seq!['\\', c]);
                assert(encode_table(st.rows) + pending_text(st) =~= s);
            } else if c == '\\' {
                assert(encode_table(st.rows) + pending_text(st) =~= s);
            } else if c == ',' {
                lemma_encode_row_push(prev.cells, prev.cell);
                assert forall|j: int| 0 <= j < st.cells.len() implies #[trigger] st.cells[j].len() > 0 by {
                    if j < prev.cells.len() {
                        assert(st.cells[j] == prev.cells[j]);
                    }
                }
                assert(encode_table(st.rows) + pending_text(st) =~= s);
            } else if c == '\n' {
                let row = if prev.cells.len() == 0 && prev.cell.len() == 0 {
                    Seq::<Seq<char>>::empty()
                } else {
                    prev.cells.push(prev.cell)
                };
                assert(st.rows == prev.rows.push(row));
                assert(st.rows.drop_last() =~= prev.rows);
                if prev.cells.len() == 0 && prev.cell.len() == 0 {
                    assert(row =~= seq![]);
                    assert(escape_cell(prev.cell) =~= Seq::<char>::empty());
                } else {
                    lemma_encode_row_push(prev.cells, prev.cell);
                }
                assert(encode_table(st.rows) == base + encode_row(row) + seq!['\n']);
                assert forall|i: int, j: int| 0 <= i < st.rows.len() && 0 <= j < st.rows[i].len() implies
                    #[trigger] st.rows[i][j].len() > 0 by {
                    if i < prev.rows.len() {
                        assert(st.rows[i] == prev.rows[i]);
                    } else if j < prev.cells.len() {
                        assert(st.rows[i][j] == prev.cells[j]);
                    }
                }
                assert(encode_table(st.rows) + pending_text(st) =~= s);
            } else {
                lemma_escape_cell_push(prev.cell, c);
                assert(escape_char(c) =~= seq![c]);
                assert(encode_table(st.rows) + pending_text(st) =~= s);
            }
        }
    }
}

/// Text that reads as a table is that table's canonical text: each table has one
/// canonical text, and nothing else stands for it.
pub proof fn lemma_decoded_is_canonical(s: Seq<char>)
    requires
        decode_table(s) is Some,
    ensures
        cells_nonempty(decode_table(s)->0),
        encode_table(decode_table(s)->0) == s,
{
    lemma_reader_matches(s);
    let st = read_all(reader_start(), s);
    assert(pending_text(st) =~= Seq::<char>::empty());
    assert(encode_table(st.rows) + pending_text(st) =~= encode_table(st.rows));
}

proof fn lemma_no_table_reads_as(s: Seq<char>)
    requires
        decode_table(s) is None,
    ensures
        forall|t: TableView| cells_nonempty(t) ==> encode_table(t) != s,
{
    assert forall|t: TableView| cells_nonempty(t) implies encode_table(t) != s by {
        lemma_round_trip(t);
    }
}

/// Reading back the canonical text of a table gives the same table.
pub proof fn lemma_round_trip(t: TableView)
    requires
        cells_nonempty(t),
    ensures
        decode_table(encode_table(t)) == Some(t),
{
    lemma_read_table(t);
}

} // verus!

verus! {

/// Canonical text that does not stand for any table.
#[derive(Debug, PartialEq, Eq)]
pub struct MalformedSnapshot;

fn write_cell(out: &mut String, cell: &str)
    ensures
        final(out)@ == old(out)@ + escape_cell(cell@),
{
    let ghost start = out@;
    let n = cell.unicode_len();
    let mut i: usize = 0;
    while i < n
        invariant
            n == cell@.len(),
            i <= n,
            out@ == start + escape_cell(cell@.take(i as int)),
        decreases n - i,
    {
        let c = cell.get_char(i);
        if c == '\\' {
            push_char(out, '\\');
            push_char(out, '\\');
        } else if c == ',' {
            push_char(out, '\\');
            push_char(out, ',');
        } else if c == '\n' {
            push_char(out, '\\');
            push_char(out, 'n');
        } else if c == '\r' {
            push_char(out, '\\');
            push_char(out, 'r');
        } else {
            push_char(out, c);
        }
        assert(cell@.take(i + 1).drop_last() =~= cell@.take(i as int));
        assert(out@ =~= start + escape_cell(cell@.take(i + 1)));
        i += 1;
    }
    assert(cell@.take(n as int) =~= cell@);
}

fn write_row(out: &mut String, row: &Vec<String>)
    ensures
        final(out)@ == old(out)@ + encode_row(row.deep_view()),
{
    let ghost start = out@;
    let ghost r = row.deep_view();
    let mut j: usize = 0;
    while j < row.len()
        invariant
            r == row.deep_view(),
            j <= row.len(),
            out@ == start + encode_row(r.take(j as int)),
        decreases row.len() - j,
    {
        if j > 0 {
            push_char(out, ',');
        }
        write_cell(out, row[j].as_str());
        assert(r.take(j + 1).drop_last() =~= r.take(j as int));
        assert(r[j as int] == row@[j as int]@);
        if j == 0 {
            assert(r.take(0) =~= Seq::<Seq<char>>::empty());
        }
        assert(out@ =~= start + encode_row(r.take(j + 1)));
        j += 1;
    }
    assert(r.take(row.len() as int) =~= r);
}

/// The canonical text of a table.
pub fn serialize(t: &CanonicalTable) -> (r: String)
    ensures
        r@ == encode_table(t@),
{
    let mut out = String::new();
    let ghost v = t@;
    let mut i: usize = 0;
    while i < t.rows.len()
        invariant
            v == t@,
            i <= t.rows.len(),
            out@ == encode_table(v.take(i as int)),
        decreases t.rows.len() - i,
    {
        write_row(&mut out, &t.rows[i]);
        push_char(&mut out, '\n');
        assert(v.take(i + 1).drop_last() =~= v.take(i as int));
        assert(v[i as int] == t.rows@[i as int].deep_view());
        assert(out@ =~= encode_table(v.take(i + 1)));
        i += 1;
    }
    assert(v.take(t.rows.len() as int) =~= v);
    out
}

/// The table that canonical text stands for.
pub fn deserialize(text: &str) -> (r: Result<CanonicalTable, MalformedSnapshot>)
    ensures
        match r {
            Ok(t) => decode_table(text@) == Some(t@) && t.well_formed() && encode_table(t@) == text@,
            Err(_) => decode_table(text@) is None && forall|t: TableView|
                cells_nonempty(t) ==> encode_table(t) != text@,
        },
{
    let ghost s = text@;
    let n = text.unicode_len();
    let mut rows: Vec<Vec<String>> = Vec::new();
    let mut cells: Vec<String> = Vec::new();
    let mut cell = String::new();
    let mut escaped = false;
    let mut i: usize = 0;
    while i < n
        invariant
            n == s.len(),
            s == text@,
            i <= n,
            ({
                let st = read_all(reader_start(), s.take(i as int));
                &&& !st.failed
                &&& st.rows == rows.deep_view()
                &&& st.cells == cells.deep_view()
                &&& st.cell == cell@
                &&& st.escaped == escaped
            }),
        decreases n - i,
    {
        let ghost st = read_all(reader_start(), s.take(i as int));
        let c = text.get_char(i);
        assert(s.take(i + 1).drop_last() =~= s.take(i as int));
        let ghost next = read_step(st, c);
        let mut ok = true;
        if escaped {
            if c == '\\' || c == ',' {
                push_char(&mut cell, c);
            } else if c == 'n' {
                push_char(&mut cell, '\n');
            } else if c == 'r' {
                push_char(&mut cell, '\r');
            } else {
                ok = false;
            }
            escaped = false;
        } else if c == '\\' {
            escaped = true;
        } else if c == ',' {
            if cell.unicode_len() == 0 {
                ok = false;
            } else {
                cells.push(cell);
                cell = String::new();
                assert(cells.deep_view() =~= st.cells.push(st.cell));
            }
        } else if c == '\n' {
            if cells.len() == 0 && cell.unicode_len() == 0 {
                let empty: Vec<String> = Vec::new();
                assert(empty.deep_view() =~= Seq::<Seq<char>>::empty());
                rows.push(empty);
                assert(rows.deep_view() =~= st.rows.push(seq![]));
            } else if cell.unicode_len() == 0 {
                ok = false;
            } else {
                cells.push(cell);
                assert(cells.deep_view() =~= st.cells.push(st.cell));
                rows.push(cells);
                assert(rows.deep_view() =~= st.rows.push(st.cells.push(st.cell)));
                cells = Vec::new();
                cell = String::new();
                assert(cells.deep_view() =~= Seq::<Seq<char>>::empty());
            }
        } else if c == '\r' {
            ok = false;
        } else {
            push_char(&mut cell, c);
        }
        if !ok {
            proof {
                lemma_read_append(reader_start(), s.take(i + 1), s.skip(i + 1));
                assert(s.take(i + 1) + s.skip(i + 1) =~= s);
                lemma_failed_stays(next, s.skip(i + 1));
                lemma_no_table_reads_as(s);
            }
            return Err(MalformedSnapshot);
        }
        i += 1;
    }
    assert(s.take(n as int) =~= s);
    if escaped || cells.len() > 0 || cell.unicode_len() > 0 {
        proof {
            lemma_no_table_reads_as(s);
        }
        return Err(MalformedSnapshot);
    }
    proof {
        lemma_decoded_is_canonical(s);
    }
    Ok(CanonicalTable { rows })
}

} // verus!
