//! Deterministic transition systems shown as tables, and the making of a
//! deterministic transition system from a list of transitions.

use crate::class::{join_symbols, Class};
use crate::deterministic::{lookup, symbols_of_edges, Deterministic};
use itertools::Itertools;
use tabled::builder::Builder;
use tabled::settings::Style;
use vstd::prelude::*;

verus! {

/// The text of the table with the rows `rows`, the first of them the header,
/// each row a list of cells.
pub uninterp spec fn table_text(rows: Seq<Seq<Seq<char>>>) -> Seq<char>;

/// The cells of `rows` as sequences of characters.
pub open spec fn texts_of(rows: Seq<Vec<String>>) -> Seq<Seq<Seq<char>>> {
    rows.map_values(|row: Vec<String>| row@.map_values(|cell: String| cell@))
}

/// Lays out `rows` as a table with `tabled`: a `Builder` is made from the
/// rows, built into a `Table`, given the style `Style::re_structured_text()`
/// and written out. The text depends on the cells alone; it is named
/// `table_text`, and nothing more is said of it.
#[verifier::external_body]
fn render_table(rows: Vec<Vec<String>>) -> (text: String)
    ensures
        text@ == table_text(texts_of(rows@)),
{
    let mut table = Builder::from(rows).build();
    table.with(Style::re_structured_text());
    table.to_string()
}

/// Sorts `values` with `Itertools::sorted`: the result holds each value as
/// often as `values` does, in ascending order.
#[verifier::external_body]
fn sorted_numbers(values: &Vec<u32>) -> (out: Vec<u32>)
    ensures
        out@.to_multiset() == values@.to_multiset(),
        forall|i: int, j: int| 0 <= i <= j < out@.len() ==> out@[i] <= out@[j],
{
    values.iter().copied().sorted().collect()
}

/// Sorts `symbols` with `Itertools::sorted`: the result holds each symbol as
/// often as `symbols` does, in ascending order.
#[verifier::external_body]
fn sorted_symbols(symbols: &Vec<char>) -> (out: Vec<char>)
    ensures
        out@.to_multiset() == symbols@.to_multiset(),
        forall|i: int, j: int| 0 <= i <= j < out@.len() ==> out@[i] as int <= out@[j] as int,
{
    symbols.iter().copied().sorted().collect()
}

/// The decimal digit of `d`.
pub open spec fn digit(d: nat) -> char {
    if d == 0 {
        '0'
    } else if d == 1 {
        '1'
    } else if d == 2 {
        '2'
    } else if d == 3 {
        '3'
    } else if d == 4 {
        '4'
    } else if d == 5 {
        '5'
    } else if d == 6 {
        '6'
    } else if d == 7 {
        '7'
    } else if d == 8 {
        '8'
    } else {
        '9'
    }
}

/// The decimal numeral of `n`.
pub open spec fn decimal(n: nat) -> Seq<char>
    decreases n,
{
    if n < 10 {
        seq![digit(n)]
    } else {
        decimal(n / 10).push(digit(n % 10))
    }
}

/// The decimal digit of `d`.
pub fn digit_of(d: u32) -> (c: char)
    requires
        d < 10,
    ensures
        c == digit(d as nat),
{
    if d == 0 {
        '0'
    } else if d == 1 {
        '1'
    } else if d == 2 {
        '2'
    } else if d == 3 {
        '3'
    } else if d == 4 {
        '4'
    } else if d == 5 {
        '5'
    } else if d == 6 {
        '6'
    } else if d == 7 {
        '7'
    } else if d == 8 {
        '8'
    } else {
        '9'
    }
}

/// The decimal numeral of `n`.
pub fn numeral(n: u32) -> (text: String)
    ensures
        text@ == decimal(n as nat),
{
    let mut back: Vec<char> = Vec::new();
    let mut rest: u32 = n;
    while rest >= 10
        invariant
            decimal(n as nat) == decimal(rest as nat) + back@.reverse(),
        decreases rest,
    {
        let d = digit_of(rest % 10);
        proof {
            let more = back@.push(d);
            assert(more.reverse() =~= seq![d] + back@.reverse());
            assert(decimal(rest as nat) == decimal((rest / 10) as nat).push(d));
            assert(decimal((rest / 10) as nat).push(d) + back@.reverse() =~= decimal(
                (rest / 10) as nat,
            ) + more.reverse());
        }
        back.push(d);
        rest = rest / 10;
    }
    let mut out: Vec<char> = Vec::new();
    out.push(digit_of(rest));
    let mut i: usize = back.len();
    while i > 0
        invariant
            i <= back@.len(),
            out@ == seq![digit(rest as nat)] + back@.reverse().subrange(0, back@.len() - i),
        decreases i,
    {
        out.push(back[i - 1]);
        assert(back@.reverse()[back@.len() - i] == back@[i - 1]);
        i = i - 1;
    }
    assert(back@.reverse().subrange(0, back@.len() as int) == back@.reverse());
    join_symbols(&out)
}

/// `out` holds the values of `values`, in ascending order.
pub open spec fn ascending_numbers(out: Seq<u32>, values: Seq<u32>) -> bool {
    &&& out.to_multiset() == values.to_multiset()
    &&& forall|i: int, j: int| 0 <= i <= j < out.len() ==> out[i] <= out[j]
}

/// `out` holds the symbols of `values`, in ascending order.
pub open spec fn ascending_symbols(out: Seq<char>, values: Seq<char>) -> bool {
    &&& out.to_multiset() == values.to_multiset()
    &&& forall|i: int, j: int| 0 <= i <= j < out.len() ==> out[i] as int <= out[j] as int
}

/// What a cell shows for the state reached: its numeral, or a dash where
/// there is none.
pub open spec fn cell_text(target: Option<u32>) -> Seq<char> {
    match target {
        Some(t) => decimal(t as nat),
        None => seq!['-'],
    }
}

/// The row of the table for the state `q`: its numeral, then one cell for
/// each symbol.
pub open spec fn row_for(edges: Seq<(u32, char, u32)>, symbols: Seq<char>, q: u32) -> Seq<Seq<char>> {
    seq![decimal(q as nat)] + symbols.map_values(|a: char| cell_text(lookup(edges, q, a)))
}

/// The header of the table: a title, then one cell for each symbol.
pub open spec fn header_for(title: Seq<char>, symbols: Seq<char>) -> Seq<Seq<char>> {
    seq![title] + symbols.map_values(|a: char| seq![a])
}

/// The rows of the table: the header, then the row of each state.
pub open spec fn rows_for(
    edges: Seq<(u32, char, u32)>,
    title: Seq<char>,
    symbols: Seq<char>,
    states: Seq<u32>,
) -> Seq<Seq<Seq<char>>> {
    seq![header_for(title, symbols)] + states.map_values(|q: u32| row_for(edges, symbols, q))
}

impl Deterministic {
    /// The transition system with the transitions of `transitions`, as
    /// `(from, on, to)`: of two transitions from one state on one symbol the
    /// later one counts; its states are the ends of the transitions, in order
    /// of first occurrence.
    pub fn from_transitions(transitions: Vec<(u32, char, u32)>) -> (ts: Deterministic)
        ensures
            ts.wf(),
            ts.spec_states() == crate::sample::distinct(ends_of(transitions@)),
            forall|q: u32, a: char| #[trigger] ts.spec_succ(q, a) == last_target(transitions@, q, a),
    {
        let mut ts = Deterministic::new();
        let mut i: usize = 0;
        assert(ends_of(transitions@.subrange(0, 0)) =~= Seq::<u32>::empty());
        while i < transitions.len()
            invariant
                i <= transitions@.len(),
                ts.wf(),
                ts.spec_states() == crate::sample::distinct(
                    ends_of(transitions@.subrange(0, i as int)),
                ),
                forall|q: u32, a: char|
                    #[trigger] ts.spec_succ(q, a) == last_target(
                        transitions@.subrange(0, i as int),
                        q,
                        a,
                    ),
            decreases transitions@.len() - i,
        {
            let t = transitions[i];
            let ghost next = transitions@.subrange(0, i + 1);
            let ghost seen = transitions@.subrange(0, i as int);
            let ghost before = ts;
            proof {
                assert(next.drop_last() == seen);
                assert(next.last() == t);
            }
            ts.add_state(t.0);
            proof {
                let one = ends_of(seen).push(t.0);
                assert(one.drop_last() == ends_of(seen));
                assert(one.last() == t.0);
                assert(ts.spec_states() == crate::sample::distinct(one));
            }
            ts.add_state(t.2);
            proof {
                let one = ends_of(seen).push(t.0);
                let two = one.push(t.2);
                assert(two.drop_last() == one);
                assert(two.last() == t.2);
                assert(two == ends_of(next));
                assert(ts.spec_states() == crate::sample::distinct(two));
                assert(ts.spec_edges() == before.spec_edges());
            }
            ts.add_transition(t.0, t.1, t.2);
            proof {
                assert forall|q: u32, a: char| #[trigger]
                    ts.spec_succ(q, a) == last_target(next, q, a) by {
                    assert(before.spec_succ(q, a) == last_target(seen, q, a));
                }
            }
            i = i + 1;
        }
        assert(transitions@.subrange(0, transitions@.len() as int) == transitions@);
        ts
    }

    /// The rows of the table of the transition function: a header with a
    /// title and the symbols in ascending order, then a row for each state, in
    /// ascending order, with the state reached on each symbol, or a dash.
    pub fn table_rows(&self) -> (rows: Vec<Vec<String>>)
        ensures
            exists|symbols: Seq<char>, states: Seq<u32>|
                ascending_symbols(symbols, symbols_of_edges(self.spec_edges()))
                    && ascending_numbers(states, self.spec_states()) && #[trigger] rows_for(
                    self.spec_edges(),
                    "Deterministic"@,
                    symbols,
                    states,
                ) == texts_of(rows@),
    {
        let symbols = sorted_symbols(&self.vec_alphabet());
        let states = sorted_numbers(&self.vec_states());
        let ghost edges = self.spec_edges();
        let mut rows: Vec<Vec<String>> = Vec::new();
        let mut header: Vec<String> = Vec::new();
        let title = Class::from_text("Deterministic");
        header.push(join_symbols(&title.0));
        assert(header@.map_values(|cell: String| cell@) =~= header_for(
            "Deterministic"@,
            symbols@.subrange(0, 0),
        ));
        let mut k: usize = 0;
        while k < symbols.len()
            invariant
                k <= symbols@.len(),
                header@.map_values(|cell: String| cell@) == header_for(
                    "Deterministic"@,
                    symbols@.subrange(0, k as int),
                ),
            decreases symbols@.len() - k,
        {
            let mut one: Vec<char> = Vec::new();
            one.push(symbols[k]);
            let ghost cells = header@.map_values(|cell: String| cell@);
            let cell = join_symbols(&one);
            assert(cell@ =~= seq![symbols@[k as int]]);
            header.push(cell);
            assert(header@.map_values(|cell: String| cell@) =~= cells.push(
                seq![symbols@[k as int]],
            ));
            assert(symbols@.subrange(0, k + 1).map_values(|a: char| seq![a])
                =~= symbols@.subrange(0, k as int).map_values(|a: char| seq![a]).push(
                seq![symbols@[k as int]],
            ));
            assert(header@.map_values(|cell: String| cell@) =~= header_for(
                "Deterministic"@,
                symbols@.subrange(0, k + 1),
            ));
            k = k + 1;
        }
        assert(symbols@.subrange(0, symbols@.len() as int) == symbols@);
        rows.push(header);
        assert(texts_of(rows@)[0] == header_for("Deterministic"@, symbols@));
        assert(texts_of(rows@) =~= rows_for(
            edges,
            "Deterministic"@,
            symbols@,
            states@.subrange(0, 0),
        ));
        let mut i: usize = 0;
        while i < states.len()
            invariant
                i <= states@.len(),
                edges == self.spec_edges(),
                texts_of(rows@) == rows_for(
                    edges,
                    "Deterministic"@,
                    symbols@,
                    states@.subrange(0, i as int),
                ),
            decreases states@.len() - i,
        {
            let q = states[i];
            let mut row: Vec<String> = Vec::new();
            row.push(numeral(q));
            assert(row@.map_values(|cell: String| cell@) =~= row_for(
                edges,
                symbols@.subrange(0, 0),
                q,
            ));
            let mut k: usize = 0;
            while k < symbols.len()
                invariant
                    k <= symbols@.len(),
                    edges == self.spec_edges(),
                    row@.map_values(|cell: String| cell@) == row_for(
                        edges,
                        symbols@.subrange(0, k as int),
                        q,
                    ),
                decreases symbols@.len() - k,
            {
                let cell = match self.succ(q, symbols[k]) {
                    Some(t) => numeral(t),
                    None => {
                        let mut dash: Vec<char> = Vec::new();
                        dash.push('-');
                        join_symbols(&dash)
                    },
                };
                assert(cell@ =~= cell_text(lookup(edges, q, symbols@[k as int])));
                let ghost cells = row@.map_values(|cell: String| cell@);
                row.push(cell);
                assert(row@.map_values(|cell: String| cell@) =~= cells.push(
                    cell_text(lookup(edges, q, symbols@[k as int])),
                ));
                assert(symbols@.subrange(0, k + 1).map_values(
                    |a: char| cell_text(lookup(edges, q, a)),
                ) =~= symbols@.subrange(0, k as int).map_values(
                    |a: char| cell_text(lookup(edges, q, a)),
                ).push(cell_text(lookup(edges, q, symbols@[k as int]))));
                assert(row@.map_values(|cell: String| cell@) =~= row_for(
                    edges,
                    symbols@.subrange(0, k + 1),
                    q,
                ));
                k = k + 1;
            }
            assert(symbols@.subrange(0, symbols@.len() as int) == symbols@);
            let ghost texts = texts_of(rows@);
            rows.push(row);
            assert(texts_of(rows@) =~= texts.push(row_for(edges, symbols@, q)));
            assert(states@.subrange(0, i + 1).map_values(|q: u32| row_for(edges, symbols@, q))
                =~= states@.subrange(0, i as int).map_values(
                |q: u32| row_for(edges, symbols@, q),
            ).push(row_for(edges, symbols@, q)));
            assert(texts_of(rows@) =~= rows_for(
                edges,
                "Deterministic"@,
                symbols@,
                states@.subrange(0, i + 1),
            ));
            i = i + 1;
        }
        assert(states@.subrange(0, states@.len() as int) == states@);
        rows
    }

    /// The transition function as a table: the text that `table_rows` gives,
    /// laid out.
    pub fn to_string(&self) -> (text: String)
        ensures
            exists|symbols: Seq<char>, states: Seq<u32>|
                ascending_symbols(symbols, symbols_of_edges(self.spec_edges()))
                    && ascending_numbers(states, self.spec_states()) && text@ == table_text(
                    #[trigger] rows_for(self.spec_edges(), "Deterministic"@, symbols, states),
                ),
    {
        render_table(self.table_rows())
    }
}

/// The ends of the transitions of `transitions`, in order.
pub open spec fn ends_of(transitions: Seq<(u32, char, u32)>) -> Seq<u32>
    decreases transitions.len(),
{
    if transitions.len() == 0 {
        Seq::<u32>::empty()
    } else {
        ends_of(transitions.drop_last()).push(transitions.last().0).push(transitions.last().2)
    }
}

/// Where the last transition of `transitions` from `q` on `a` leads.
pub open spec fn last_target(transitions: Seq<(u32, char, u32)>, q: u32, a: char) -> Option<u32>
    decreases transitions.len(),
{
    if transitions.len() == 0 {
        None
    } else if transitions.last().0 == q && transitions.last().1 == a {
        Some(transitions.last().2)
    } else {
        last_target(transitions.drop_last(), q, a)
    }
}

} // verus!
