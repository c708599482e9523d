//! The integer program's data rows, and reading its printed answer: the
//! numbers on each row of a section, and the order they describe.
use vstd::prelude::*;

verus! {

/// Scanning state of a row: the numbers read so far, the number being read
/// (if any), and whether every token so far was a number that fits.
pub struct RowScan {
    pub values: Seq<usize>,
    pub current: Option<int>,
    pub ok: bool,
}

pub open spec fn is_digit(b: u8) -> bool {
    48 <= b <= 57
}

pub open spec fn is_space(b: u8) -> bool {
    b == 32 || b == 9 || b == 13
}

/// The scan after one more byte: a digit extends the current number, a
/// space ends it, anything else spoils the row.
pub open spec fn scan_step(st: RowScan, b: u8) -> RowScan {
    if !st.ok {
        st
    } else if is_digit(b) {
        let v = match st.current {
            Some(c) => c * 10 + (b - 48),
            None => (b - 48) as int,
        };
        if v > usize::MAX {
            RowScan { values: st.values, current: None, ok: false }
        } else {
            RowScan { values: st.values, current: Some(v), ok: true }
        }
    } else if is_space(b) {
        match st.current {
            Some(c) => RowScan { values: st.values.push(c as usize), current: None, ok: true },
            None => st,
        }
    } else {
        RowScan { values: st.values, current: None, ok: false }
    }
}

pub open spec fn scan(s: Seq<u8>) -> RowScan
    decreases s.len(),
{
    if s.len() == 0 {
        RowScan { values: Seq::empty(), current: None, ok: true }
    } else {
        scan_step(scan(s.drop_last()), s.last())
    }
}

/// The numbers of a row separated by blanks, or nothing when a token is not
/// a number that fits in `usize`.
pub open spec fn row_values(s: Seq<u8>) -> Option<Seq<usize>> {
    let st = scan(s);
    if !st.ok {
        None
    } else {
        match st.current {
            Some(c) => Some(st.values.push(c as usize)),
            None => Some(st.values),
        }
    }
}

proof fn lemma_scan_stays_spoiled(s: Seq<u8>, j: int, m: int)
    requires
        0 <= j <= m <= s.len(),
        !scan(s.take(j)).ok,
    ensures
        !scan(s.take(m)).ok,
    decreases m - j,
{
    if m > j {
        lemma_scan_stays_spoiled(s, j, m - 1);
        assert(s.take(m).drop_last() == s.take(m - 1));
    }
}

/// The numbers on a row of the solver's answer.
pub fn parse_row(line: &Vec<u8>) -> (r: Option<Vec<usize>>)
    ensures
        r matches Some(v) ==> row_values(line@) == Some(v@),
        r is None ==> row_values(line@) is None,
{
    let mut values: Vec<usize> = Vec::new();
    let mut current: Option<usize> = None;
    let mut i: usize = 0;
    while i < line.len()
        invariant
            i <= line@.len(),
            scan(line@.take(i as int)).ok,
            scan(line@.take(i as int)).values == values@,
            scan(line@.take(i as int)).current == match current {
                Some(c) => Some(c as int),
                None => None::<int>,
            },
        decreases line@.len() - i,
    {
        let b = line[i];
        assert(line@.take(i + 1).drop_last() == line@.take(i as int));
        assert(line@.take(i + 1).last() == b);
        if 48 <= b && b <= 57 {
            let d = (b - 48) as usize;
            match current {
                Some(c) => {
                    if c > (usize::MAX - d) / 10 {
                        proof {
                            assert(c * 10 + d > usize::MAX) by (nonlinear_arith)
                                requires
                                    c > (usize::MAX - d) / 10,
                                    d <= 9,
                            ;
                            lemma_scan_stays_spoiled(line@, i + 1, line@.len() as int);
                            assert(line@.take(line@.len() as int) == line@);
                        }
                        return None;
                    }
                    proof {
                        assert(c * 10 + d <= usize::MAX) by (nonlinear_arith)
                            requires
                                c <= (usize::MAX - d) / 10,
                                d <= 9,
                        ;
                    }
                    current = Some(c * 10 + d);
                },
                None => {
                    current = Some(d);
                },
            }
        } else if b == 32 || b == 9 || b == 13 {
            match current {
                Some(c) => {
                    values.push(c);
                    current = None;
                },
                None => {},
            }
        } else {
            proof {
                lemma_scan_stays_spoiled(line@, i + 1, line@.len() as int);
                assert(line@.take(line@.len() as int) == line@);
            }
            return None;
        }
        i = i + 1;
    }
    assert(line@.take(i as int) == line@);
    match current {
        Some(c) => {
            values.push(c);
        },
        None => {},
    }
    Some(values)
}

/// The first number of the first row, if any.
pub open spec fn first_value(rows: Seq<Seq<usize>>) -> Option<usize> {
    if rows.len() > 0 && rows[0].len() > 0 {
        Some(rows[0][0])
    } else {
        None
    }
}

/// The transitions the solver chose: the rows `i j 1`, in order.
pub open spec fn chosen_transitions(rows: Seq<Seq<usize>>) -> Seq<(usize, usize)>
    decreases rows.len(),
{
    if rows.len() == 0 {
        Seq::empty()
    } else {
        let rest = chosen_transitions(rows.drop_last());
        let row = rows.last();
        if row.len() == 3 && row[2] == 1 {
            rest.push((row[0], row[1]))
        } else {
            rest
        }
    }
}

/// The first request, the chosen transitions and the last request, from
/// the rows of the three sections of the answer.
pub fn order_from_rows(first_rows: &Vec<Vec<usize>>, transition_rows: &Vec<Vec<usize>>, last_rows: &Vec<Vec<usize>>) -> (r: Option<
    (usize, Vec<(usize, usize)>, usize),
>)
    ensures
        r is Some <==> (first_value(first_rows@.map_values(|v: Vec<usize>| v@)) is Some && first_value(
            last_rows@.map_values(|v: Vec<usize>| v@),
        ) is Some),
        r matches Some((first, transitions, last)) ==> {
            &&& Some(first) == first_value(first_rows@.map_values(|v: Vec<usize>| v@))
            &&& Some(last) == first_value(last_rows@.map_values(|v: Vec<usize>| v@))
            &&& transitions@ == chosen_transitions(transition_rows@.map_values(|v: Vec<usize>| v@))
        },
{
    if first_rows.len() == 0 || first_rows[0].len() == 0 || last_rows.len() == 0 || last_rows[0].len() == 0 {
        return None;
    }
    let first = first_rows[0][0];
    let last = last_rows[0][0];
    let ghost rows = transition_rows@.map_values(|v: Vec<usize>| v@);
    let mut transitions: Vec<(usize, usize)> = Vec::new();
    let mut k: usize = 0;
    while k < transition_rows.len()
        invariant
            k <= transition_rows@.len(),
            rows == transition_rows@.map_values(|v: Vec<usize>| v@),
            transitions@ == chosen_transitions(rows.take(k as int)),
        decreases transition_rows@.len() - k,
    {
        let row = &transition_rows[k];
        assert(rows.take(k + 1).drop_last() == rows.take(k as int));
        assert(rows.take(k + 1).last() == row@);
        if row.len() == 3 && row[2] == 1 {
            transitions.push((row[0], row[1]));
        }
        k = k + 1;
    }
    assert(rows.take(k as int) == rows);
    Some((first, transitions, last))
}

/// The robot-indexed transitions the solver chose: the rows `r i j 1`, in
/// order.
pub open spec fn chosen_triples(rows: Seq<Seq<usize>>) -> Seq<(usize, usize, usize)>
    decreases rows.len(),
{
    if rows.len() == 0 {
        Seq::empty()
    } else {
        let rest = chosen_triples(rows.drop_last());
        let row = rows.last();
        if row.len() == 4 && row[3] == 1 {
            rest.push((row[0], row[1], row[2]))
        } else {
            rest
        }
    }
}

/// The pairs of the rows `a b 1`, in order.
pub fn pairs_from_rows(rows_in: &Vec<Vec<usize>>) -> (r: Vec<(usize, usize)>)
    ensures
        r@ == chosen_transitions(rows_in@.map_values(|v: Vec<usize>| v@)),
{
    let ghost rows = rows_in@.map_values(|v: Vec<usize>| v@);
    let mut out: Vec<(usize, usize)> = Vec::new();
    let mut k: usize = 0;
    while k < rows_in.len()
        invariant
            k <= rows_in@.len(),
            rows == rows_in@.map_values(|v: Vec<usize>| v@),
            out@ == chosen_transitions(rows.take(k as int)),
        decreases rows_in@.len() - k,
    {
        let row = &rows_in[k];
        assert(rows.take(k + 1).drop_last() == rows.take(k as int));
        assert(rows.take(k + 1).last() == row@);
        if row.len() == 3 && row[2] == 1 {
            out.push((row[0], row[1]));
        }
        k = k + 1;
    }
    assert(rows.take(k as int) == rows);
    out
}

/// The triples of the rows `a b c 1`, in order.
pub fn triples_from_rows(rows_in: &Vec<Vec<usize>>) -> (r: Vec<(usize, usize, usize)>)
    ensures
        r@ == chosen_triples(rows_in@.map_values(|v: Vec<usize>| v@)),
{
    let ghost rows = rows_in@.map_values(|v: Vec<usize>| v@);
    let mut out: Vec<(usize, usize, usize)> = Vec::new();
    let mut k: usize = 0;
    while k < rows_in.len()
        invariant
            k <= rows_in@.len(),
            rows == rows_in@.map_values(|v: Vec<usize>| v@),
            out@ == chosen_triples(rows.take(k as int)),
        decreases rows_in@.len() - k,
    {
        let row = &rows_in[k];
        assert(rows.take(k + 1).drop_last() == rows.take(k as int));
        assert(rows.take(k + 1).last() == row@);
        if row.len() == 4 && row[3] == 1 {
            out.push((row[0], row[1], row[2]));
        }
        k = k + 1;
    }
    assert(rows.take(k as int) == rows);
    out
}

/// The cost rows to hand the solver: those with a cost above zero, in
/// order (zero is the default).
pub fn nonzero_pairs(rows: &Vec<(usize, u64)>) -> (r: Vec<(usize, u64)>)
    ensures
        r@ == rows@.filter(|e: (usize, u64)| e.1 != 0),
{
    let mut out: Vec<(usize, u64)> = Vec::new();
    let mut k: usize = 0;
    while k < rows.len()
        invariant
            k <= rows@.len(),
            out@ == rows@.take(k as int).filter(|e: (usize, u64)| e.1 != 0),
        decreases rows@.len() - k,
    {
        assert(rows@.take(k + 1).drop_last() == rows@.take(k as int));
        reveal(Seq::filter);
        if rows[k].1 != 0 {
            out.push(rows[k]);
        }
        k = k + 1;
    }
    assert(rows@.take(k as int) == rows@);
    out
}

/// The cost rows to hand the solver: those with a cost above zero, in
/// order (zero is the default).
pub fn nonzero_triples(rows: &Vec<(usize, usize, u64)>) -> (r: Vec<(usize, usize, u64)>)
    ensures
        r@ == rows@.filter(|e: (usize, usize, u64)| e.2 != 0),
{
    let mut out: Vec<(usize, usize, u64)> = Vec::new();
    let mut k: usize = 0;
    while k < rows.len()
        invariant
            k <= rows@.len(),
            out@ == rows@.take(k as int).filter(|e: (usize, usize, u64)| e.2 != 0),
        decreases rows@.len() - k,
    {
        assert(rows@.take(k + 1).drop_last() == rows@.take(k as int));
        reveal(Seq::filter);
        if rows[k].2 != 0 {
            out.push(rows[k]);
        }
        k = k + 1;
    }
    assert(rows@.take(k as int) == rows@);
    out
}

} // verus!
