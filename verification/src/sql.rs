//! Rendering a keyset-paginated query to SQL.
//!
//! A query is assembled from *pieces*: literal SQL text and bind positions.
//! Rendering walks the pieces once, writing text as it stands and each bind
//! position as the positional placeholder `$1`, `$2`, … while collecting the
//! bound values in order.  [`KeysetPaginated::emit_sql`] produces the one
//! statement shape of keyset pagination:
//!
//! ```text
//! SELECT * FROM ( <base query> ) <anchor table>
//! WHERE ( <order> ) > (SELECT <order> FROM <anchor table> WHERE <cursor predicate>)
//! ORDER BY <order> LIMIT $n
//! ```

use vstd::prelude::*;
use vstd::string::StrSliceExecFns;
use vstd::string::StringExecFns;

verus! {

/// A value bound to a placeholder of the statement.
#[derive(PartialEq, Debug)]
pub enum BindValue {
    Int(i64),
    Text(String),
}

/// Mathematical value of a [`BindValue`].
pub enum BindV {
    Int(int),
    Text(Seq<char>),
}

impl View for BindValue {
    type V = BindV;

    open spec fn view(&self) -> BindV {
        match self {
            BindValue::Int(i) => BindV::Int(*i as int),
            BindValue::Text(s) => BindV::Text(s@),
        }
    }
}

/// One piece of a statement: literal SQL text, or a bind position.
pub enum SqlPiece {
    Sql(String),
    Bind(BindValue),
}

/// Mathematical value of a [`SqlPiece`].
pub enum PieceV {
    Sql(Seq<char>),
    Bind(BindV),
}

impl View for SqlPiece {
    type V = PieceV;

    open spec fn view(&self) -> PieceV {
        match self {
            SqlPiece::Sql(s) => PieceV::Sql(s@),
            SqlPiece::Bind(v) => PieceV::Bind(v@),
        }
    }
}

/// An SQL fragment a collaborator hands in — a base query, an order
/// expression, or a cursor predicate — as the sequence of its pieces.
pub struct Fragment {
    pub pieces: Vec<SqlPiece>,
}

/// Values of a sequence of pieces.
pub open spec fn piece_views(v: Seq<SqlPiece>) -> Seq<PieceV> {
    v.map_values(|p: SqlPiece| p@)
}

impl View for Fragment {
    type V = Seq<PieceV>;

    open spec fn view(&self) -> Seq<PieceV> {
        piece_views(self.pieces@)
    }
}

/// A column reference, with the table that owns the column.
pub struct ColumnRef {
    pub table: String,
    pub name: String,
}

/// The cursor specification: how the anchor row is identified.
///
/// With `ColumnValue` the anchor predicate is `<column> = <value>` and the
/// anchor relation is re-derived from the column's owning table.  With
/// `Predicate` the caller supplies the boolean predicate as a fragment and
/// names the base query's own table as the anchor relation.
pub enum CursorSpec {
    ColumnValue { column: ColumnRef, value: BindValue },
    Predicate { table: String, predicate: Fragment },
}

/// A not-yet-executed paginated view over a base query: the base query, the
/// order expression defining a total order over its rows, the cursor
/// specification, and the page size.
pub struct KeysetPaginated {
    pub query: Fragment,
    pub order: Fragment,
    pub cursor: CursorSpec,
    pub page_size: i64,
}

/// The decimal digit `d`.
pub open spec fn digit_char(d: nat) -> char {
    if d == 0 {
        '0'
    } else if d == 1 {
        '1'
    } else if d == 2 {
        '2'
    } else if d == 3 {
        '3'
    } else if d == 4 {
        '4'
    } else if d == 5 {
        '5'
    } else if d == 6 {
        '6'
    } else if d == 7 {
        '7'
    } else if d == 8 {
        '8'
    } else {
        '9'
    }
}

/// The decimal digits of `n`, most significant first.
pub open spec fn dec_digits(n: nat) -> Seq<char>
    decreases n,
{
    if n < 10 {
        seq![digit_char(n)]
    } else {
        dec_digits(n / 10).push(digit_char(n % 10))
    }
}

/// The SQL text of the pieces `ps`, numbering bind positions upward from
/// `next`.
pub open spec fn sql_of(ps: Seq<PieceV>, next: nat) -> Seq<char>
    decreases ps.len(),
{
    if ps.len() == 0 {
        Seq::empty()
    } else {
        match ps[0] {
            PieceV::Sql(s) => s + sql_of(ps.drop_first(), next),
            PieceV::Bind(_) => seq!['$'] + dec_digits(next) + sql_of(ps.drop_first(), next + 1),
        }
    }
}

/// The bound values of the pieces `ps`, in placeholder order.
pub open spec fn binds_of(ps: Seq<PieceV>) -> Seq<BindV>
    decreases ps.len(),
{
    if ps.len() == 0 {
        Seq::empty()
    } else {
        match ps[0] {
            PieceV::Sql(_) => binds_of(ps.drop_first()),
            PieceV::Bind(v) => seq![v] + binds_of(ps.drop_first()),
        }
    }
}

/// Values of a sequence of bind values.
pub open spec fn bind_views(v: Seq<BindValue>) -> Seq<BindV> {
    v.map_values(|b: BindValue| b@)
}

/// The quoted anchor relation, `"<table>"`.
pub open spec fn from_pieces(table: Seq<char>) -> Seq<PieceV> {
    seq![PieceV::Sql("\""@), PieceV::Sql(table), PieceV::Sql("\""@)]
}

/// The anchor relation named by a cursor specification.
pub open spec fn anchor_table(c: CursorSpec) -> Seq<char> {
    match c {
        CursorSpec::ColumnValue { column, value: _ } => column.table@,
        CursorSpec::Predicate { table, predicate: _ } => table@,
    }
}

/// The anchor predicate of a cursor specification: `"<table>"."<column>" =
/// <bound value>`, or the caller's own predicate fragment.
pub open spec fn cursor_pieces(c: CursorSpec) -> Seq<PieceV> {
    match c {
        CursorSpec::ColumnValue { column, value } => seq![
            PieceV::Sql("\""@),
            PieceV::Sql(column.table@),
            PieceV::Sql("\".\""@),
            PieceV::Sql(column.name@),
            PieceV::Sql("\""@),
            PieceV::Sql(" = "@),
            PieceV::Bind(value@),
        ],
        CursorSpec::Predicate { table: _, predicate } => predicate@,
    }
}

impl Clone for BindValue {
    /// A cloned bind value has the same value.
    fn clone(&self) -> (r: Self)
        ensures
            r@ == self@,
    {
        match self {
            BindValue::Int(i) => BindValue::Int(*i),
            BindValue::Text(s) => BindValue::Text(s.clone()),
        }
    }
}

impl Clone for SqlPiece {
    /// A cloned piece has the same value.
    fn clone(&self) -> (r: Self)
        ensures
            r@ == self@,
    {
        match self {
            SqlPiece::Sql(s) => SqlPiece::Sql(s.clone()),
            SqlPiece::Bind(v) => SqlPiece::Bind(v.clone()),
        }
    }
}

/// Appends literal SQL text as one piece.
fn push_sql_piece(out: &mut Vec<SqlPiece>, s: &str)
    ensures
        piece_views(final(out)@) == piece_views(old(out)@).push(PieceV::Sql(s@)),
{
    out.push(SqlPiece::Sql(s.to_owned()));
    proof {
        assert(piece_views(out@) =~= piece_views(old(out)@).push(PieceV::Sql(s@)));
    }
}

/// Appends a bind position holding `v`.
fn push_bind_piece(out: &mut Vec<SqlPiece>, v: BindValue)
    ensures
        piece_views(final(out)@) == piece_views(old(out)@).push(PieceV::Bind(v@)),
{
    let ghost vv = v@;
    out.push(SqlPiece::Bind(v));
    proof {
        assert(piece_views(out@) =~= piece_views(old(out)@).push(PieceV::Bind(vv)));
    }
}

/// Appends every piece of a fragment.
fn push_fragment(out: &mut Vec<SqlPiece>, f: &Fragment)
    ensures
        piece_views(final(out)@) == piece_views(old(out)@) + f@,
{
    let mut i: usize = 0;
    while i < f.pieces.len()
        invariant
            i <= f.pieces@.len(),
            piece_views(out@) == piece_views(old(out)@) + f@.take(i as int),
        decreases f.pieces@.len() - i,
    {
        let ghost prev = piece_views(out@);
        let c = f.pieces[i].clone();
        out.push(c);
        i += 1;
        proof {
            assert(piece_views(out@) =~= prev.push(f@[i - 1]));
            assert(piece_views(old(out)@) + f@.take(i as int) =~= prev.push(f@[i - 1]));
        }
    }
    proof {
        assert(f@.take(f@.len() as int) =~= f@);
    }
}

/// Appends the quoted anchor relation.
fn push_from_clause(out: &mut Vec<SqlPiece>, table: &String)
    ensures
        piece_views(final(out)@) == piece_views(old(out)@) + from_pieces(table@),
{
    push_sql_piece(out, "\"");
    push_sql_piece(out, table.as_str());
    push_sql_piece(out, "\"");
    proof {
        assert(piece_views(out@) =~= piece_views(old(out)@) + from_pieces(table@));
    }
}

/// Writes the decimal digits of `n` after the text already in `out`.
fn push_decimal(out: &mut String, n: u128)
    ensures
        final(out)@ == old(out)@ + dec_digits(n as nat),
    decreases n,
{
    proof {
        assert((n as nat) / 10 == (n / 10) as nat);
    }
    if n >= 10 {
        proof {
            assert(n / 10 < n) by (nonlinear_arith)
                requires
                    n >= 10,
            ;
        }
        push_decimal(out, n / 10);
    }
    let d = n % 10;
    if d == 0 {
        out.append("0");
        proof {
            reveal_strlit("0");
        }
    } else if d == 1 {
        out.append("1");
        proof {
            reveal_strlit("1");
        }
    } else if d == 2 {
        out.append("2");
        proof {
            reveal_strlit("2");
        }
    } else if d == 3 {
        out.append("3");
        proof {
            reveal_strlit("3");
        }
    } else if d == 4 {
        out.append("4");
        proof {
            reveal_strlit("4");
        }
    } else if d == 5 {
        out.append("5");
        proof {
            reveal_strlit("5");
        }
    } else if d == 6 {
        out.append("6");
        proof {
            reveal_strlit("6");
        }
    } else if d == 7 {
        out.append("7");
        proof {
            reveal_strlit("7");
        }
    } else if d == 8 {
        out.append("8");
        proof {
            reveal_strlit("8");
        }
    } else {
        out.append("9");
        proof {
            reveal_strlit("9");
        }
    }
    proof {
        if n < 10 {
            assert(out@ =~= old(out)@ + dec_digits(n as nat));
        } else {
            assert(dec_digits(n as nat) == dec_digits((n as nat) / 10).push(
                digit_char((n as nat) % 10),
            ));
            assert(out@ =~= old(out)@ + dec_digits(n as nat));
        }
    }
}

impl KeysetPaginated {
    /// The pieces of the whole statement, in emission order.
    pub open spec fn pieces(self) -> Seq<PieceV> {
        seq![PieceV::Sql("SELECT * FROM ("@)] + self.query@ + seq![PieceV::Sql(") "@)]
            + from_pieces(anchor_table(self.cursor)) + seq![PieceV::Sql(" WHERE ("@)] + self.order@
            + seq![PieceV::Sql(") > (SELECT "@)] + self.order@ + seq![PieceV::Sql(" FROM "@)]
            + from_pieces(anchor_table(self.cursor)) + seq![PieceV::Sql(" WHERE "@)]
            + cursor_pieces(self.cursor) + seq![PieceV::Sql(") ORDER BY "@)] + self.order@ + seq![
            PieceV::Sql(" LIMIT "@),
            PieceV::Bind(BindV::Int(self.page_size as int)),
        ]
    }

    /// The emitted SQL text, placeholders numbered from `$1`.
    pub open spec fn emitted_sql(self) -> Seq<char> {
        sql_of(self.pieces(), 1)
    }

    /// The emitted bind parameters, in placeholder order.
    pub open spec fn emitted_binds(self) -> Seq<BindV> {
        binds_of(self.pieces())
    }

    /// Assembles the pieces of the statement.
    fn assemble(&self) -> (ps: Vec<SqlPiece>)
        ensures
            piece_views(ps@) == self.pieces(),
    {
        let mut ps: Vec<SqlPiece> = Vec::new();
        let table: &String = match &self.cursor {
            CursorSpec::ColumnValue { column, value: _ } => &column.table,
            CursorSpec::Predicate { table, predicate: _ } => table,
        };
        push_sql_piece(&mut ps, "SELECT * FROM (");
        push_fragment(&mut ps, &self.query);
        push_sql_piece(&mut ps, ") ");
        push_from_clause(&mut ps, table);
        push_sql_piece(&mut ps, " WHERE (");
        push_fragment(&mut ps, &self.order);
        push_sql_piece(&mut ps, ") > (SELECT ");
        push_fragment(&mut ps, &self.order);
        push_sql_piece(&mut ps, " FROM ");
        push_from_clause(&mut ps, table);
        push_sql_piece(&mut ps, " WHERE ");
        match &self.cursor {
            CursorSpec::ColumnValue { column, value } => {
                push_sql_piece(&mut ps, "\"");
                push_sql_piece(&mut ps, column.table.as_str());
                push_sql_piece(&mut ps, "\".\"");
                push_sql_piece(&mut ps, column.name.as_str());
                push_sql_piece(&mut ps, "\"");
                push_sql_piece(&mut ps, " = ");
                let v = value.clone();
                push_bind_piece(&mut ps, v);
            },
            CursorSpec::Predicate { table: _, predicate } => {
                push_fragment(&mut ps, predicate);
            },
        }
        push_sql_piece(&mut ps, ") ORDER BY ");
        push_fragment(&mut ps, &self.order);
        push_sql_piece(&mut ps, " LIMIT ");
        push_bind_piece(&mut ps, BindValue::Int(self.page_size));
        proof {
            assert(piece_views(ps@) =~= self.pieces());
        }
        ps
    }

    /// Renders the paginated query to SQL text and positional bind
    /// parameters.  Emission is pure: the result is a function of `self`
    /// alone, so emitting twice yields the same text and the same
    /// parameters.
    pub fn emit_sql(&self) -> (r: (String, Vec<BindValue>))
        ensures
            r.0@ == self.emitted_sql(),
            bind_views(r.1@) == self.emitted_binds(),
    {
        let ps = self.assemble();
        let ghost psv = self.pieces();
        let mut sql = String::new();
        let mut binds: Vec<BindValue> = Vec::new();
        let mut next: u128 = 1;
        let mut i: usize = 0;
        proof {
            assert(psv.skip(0) =~= psv);
            assert(sql@ + sql_of(psv, 1) =~= sql_of(psv, 1));
            assert(bind_views(binds@) =~= Seq::<BindV>::empty());
            assert(bind_views(binds@) + binds_of(psv) =~= binds_of(psv));
        }
        while i < ps.len()
            invariant
                i <= ps@.len(),
                piece_views(ps@) == psv,
                1 <= next <= i + 1,
                sql@ + sql_of(psv.skip(i as int), next as nat) == sql_of(psv, 1),
                bind_views(binds@) + binds_of(psv.skip(i as int)) == binds_of(psv),
            decreases ps@.len() - i,
        {
            let ghost prev_sql = sql@;
            let ghost prev_binds = bind_views(binds@);
            proof {
                assert(psv.skip(i as int)[0] == psv[i as int]);
                assert(psv.skip(i as int).drop_first() =~= psv.skip(i as int + 1));
            }
            match &ps[i] {
                SqlPiece::Sql(s) => {
                    sql.append(s.as_str());
                    proof {
                        assert(psv[i as int] == PieceV::Sql(s@));
                        assert(sql@ + sql_of(psv.skip(i as int + 1), next as nat) =~= prev_sql
                            + sql_of(psv.skip(i as int), next as nat));
                    }
                },
                SqlPiece::Bind(v) => {
                    sql.append("$");
                    push_decimal(&mut sql, next);
                    let c = v.clone();
                    binds.push(c);
                    proof {
                        reveal_strlit("$");
                        assert(psv[i as int] == PieceV::Bind(v@));
                        assert(sql@ + sql_of(psv.skip(i as int + 1), (next + 1) as nat) =~= prev_sql
                            + sql_of(psv.skip(i as int), next as nat));
                        assert(bind_views(binds@) =~= prev_binds.push(v@));
                        assert(bind_views(binds@) + binds_of(psv.skip(i as int + 1)) =~= prev_binds
                            + binds_of(psv.skip(i as int)));
                    }
                    next = next + 1;
                },
            }
            i += 1;
        }
        proof {
            assert(psv.skip(psv.len() as int).len() == 0);
            assert(sql@ + sql_of(psv.skip(psv.len() as int), next as nat) =~= sql@);
            assert(bind_views(binds@) + binds_of(psv.skip(psv.len() as int)) =~= bind_views(
                binds@,
            ));
        }
        (sql, binds)
    }
}

} // verus!
