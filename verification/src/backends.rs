//! The parsing backends under comparison: a uniform validity capability
//! over heterogeneous parser crates, per-statement compatibility counting,
//! and percentage reporting.
use vstd::prelude::*;

verus! {

/// What the sqlparser-rs parser accepts under the PostgreSQL dialect; the
/// verdict is a function of the statement text alone.
pub uninterp spec fn sqlparser_accepts(s: Seq<char>) -> bool;

/// What the sql-parse parser accepts under the PostgreSQL dialect without
/// recording an error-level issue; a function of the statement text alone.
pub uninterp spec fn sql_parse_accepts(s: Seq<char>) -> bool;

/// Relies on sqlparser::parser::Parser::parse_sql with the PostgreSQL
/// dialect: it parses the given text and nothing else, so whether it
/// returns Ok depends on that text alone.
#[verifier::external_body]
pub fn is_valid_sqlparser(sql: &str) -> (r: bool)
    ensures
        r == sqlparser_accepts(sql@),
{
    let dialect = sqlparser::dialect::PostgreSqlDialect {};
    sqlparser::parser::Parser::parse_sql(&dialect, sql).is_ok()
}

/// Relies on sql_parse::parse_statements with the PostgreSQL dialect: the
/// issues it records depend on the given text alone, and validity here is
/// the absence of an error-level issue among them.
#[verifier::external_body]
pub fn is_valid_sql_parse(sql: &str) -> (r: bool)
    ensures
        r == sql_parse_accepts(sql@),
{
    let options = sql_parse::ParseOptions::new().dialect(sql_parse::SQLDialect::PostgreSQL);
    let mut issues = sql_parse::Issues::new(sql);
    let _ = sql_parse::parse_statements(sql, &mut issues, &options);
    !issues.get().iter().any(|i| i.level == sql_parse::Level::Error)
}

/// The registered parsing backends of this build. Availability is a
/// runtime property of the registry, not a build-time switch.
#[derive(Clone, Copy, PartialEq, Eq, Structural, Debug)]
pub enum SqlBackend {
    Sqlparser,
    SqlParse,
}

/// Whether `b` accepts the statement text `s`.
pub open spec fn backend_accepts(b: SqlBackend, s: Seq<char>) -> bool {
    match b {
        SqlBackend::Sqlparser => sqlparser_accepts(s),
        SqlBackend::SqlParse => sql_parse_accepts(s),
    }
}

/// The identifier naming `b`'s directory in a result store.
pub open spec fn backend_key(b: SqlBackend) -> Seq<char> {
    match b {
        SqlBackend::Sqlparser => "sqlparser"@,
        SqlBackend::SqlParse => "sql_parse"@,
    }
}

impl SqlBackend {
    /// The identifier under which this backend's measurements are stored.
    pub fn key(&self) -> (r: &'static str)
        ensures
            r@ == backend_key(*self),
    {
        match self {
            SqlBackend::Sqlparser => "sqlparser",
            SqlBackend::SqlParse => "sql_parse",
        }
    }

    /// The name shown for this backend in rendered output.
    pub fn display_name(&self) -> (r: &'static str) {
        match self {
            SqlBackend::Sqlparser => "sqlparser-rs",
            SqlBackend::SqlParse => "sql-parse",
        }
    }

    /// The (red, green, blue) color drawn for this backend's series.
    pub fn color(&self) -> (r: (u8, u8, u8)) {
        match self {
            SqlBackend::Sqlparser => (15, 76, 129),
            SqlBackend::SqlParse => (95, 75, 139),
        }
    }

    /// Whether this backend's parser accepts `sql` without a fatal
    /// diagnostic.
    pub fn is_valid(&self, sql: &str) -> (r: bool)
        ensures
            r == backend_accepts(*self, sql@),
    {
        match self {
            SqlBackend::Sqlparser => is_valid_sqlparser(sql),
            SqlBackend::SqlParse => is_valid_sql_parse(sql),
        }
    }
}

/// Every registered backend, in the order panels and legends list them.
pub fn all_backends() -> (r: Vec<SqlBackend>)
    ensures
        r@ == seq![SqlBackend::Sqlparser, SqlBackend::SqlParse],
{
    let mut v: Vec<SqlBackend> = Vec::new();
    v.push(SqlBackend::Sqlparser);
    v.push(SqlBackend::SqlParse);
    proof {
        assert(v@ =~= seq![SqlBackend::Sqlparser, SqlBackend::SqlParse]);
    }
    v
}

/// Whether the statement is valid for the whole reference set of parsers
/// active in this build.
pub fn is_valid_both(sql: &str) -> (r: bool)
    ensures
        r == sqlparser_accepts(sql@),
{
    is_valid_sqlparser(sql)
}

/// Whether every backend of `backends` accepts `sql`; the check stops at
/// the first rejection.
pub fn is_valid_for_all(sql: &str, backends: &Vec<SqlBackend>) -> (r: bool)
    ensures
        r == forall|i: int|
            0 <= i < backends@.len() ==> backend_accepts(#[trigger] backends@[i], sql@),
{
    let mut i: usize = 0;
    while i < backends.len()
        invariant
            i <= backends@.len(),
            forall|k: int| 0 <= k < i ==> backend_accepts(#[trigger] backends@[k], sql@),
        decreases backends@.len() - i,
    {
        if !backends[i].is_valid(sql) {
            return false;
        }
        i = i + 1;
    }
    true
}

/// How many of the statements `b` accepts.
pub open spec fn count_accepted(b: SqlBackend, ss: Seq<Seq<char>>) -> nat
    decreases ss.len(),
{
    if ss.len() == 0 {
        0
    } else {
        count_accepted(b, ss.drop_last()) + if backend_accepts(b, ss.last()) {
            1nat
        } else {
            0nat
        }
    }
}

/// Applies the backend's validity check to every statement independently
/// and returns (accepted, total).
pub fn compatibility(corpus: &Vec<String>, backend: &SqlBackend) -> (r: (usize, usize))
    ensures
        r.1 == corpus@.len(),
        r.0 == count_accepted(*backend, corpus.deep_view()),
        r.0 <= r.1,
{
    let ghost ss = corpus.deep_view();
    let mut ok: usize = 0;
    let mut i: usize = 0;
    proof {
        assert(ss.take(0) =~= Seq::<Seq<char>>::empty());
    }
    while i < corpus.len()
        invariant
            i <= corpus@.len(),
            ss == corpus.deep_view(),
            ss.len() == corpus@.len(),
            forall|k: int| 0 <= k < ss.len() ==> ss[k] == corpus@[k]@,
            ok == count_accepted(*backend, ss.take(i as int)),
            ok <= i,
        decreases corpus@.len() - i,
    {
        let valid = backend.is_valid(corpus[i].as_str());
        proof {
            assert(ss.take(i + 1).drop_last() =~= ss.take(i as int));
            assert(ss.take(i + 1).last() == ss[i as int]);
        }
        if valid {
            ok = ok + 1;
        }
        i = i + 1;
    }
    proof {
        assert(ss.take(corpus@.len() as int) =~= ss);
    }
    (ok, corpus.len())
}

/// The acceptance rate in tenths of a percent, rounded to the nearest
/// tenth with halves rounding up.
pub open spec fn percent_tenths_spec(accepted: nat, total: nat) -> nat
    recommends
        total > 0,
{
    ((1000 * (accepted as int) + (total as int) / 2) / (total as int)) as nat
}

/// The acceptance percentage in tenths of a percent; an empty corpus has
/// no defined percentage.
pub fn compatibility_percent_tenths(accepted: usize, total: usize) -> (r: Option<u64>)
    requires
        accepted <= total,
    ensures
        total == 0 <==> r is None,
        total > 0 ==> r == Option::Some(percent_tenths_spec(accepted as nat, total as nat) as u64),
{
    if total == 0 {
        return None;
    }
    let a = accepted as u128;
    let t = total as u128;
    let tenths = (1000 * a + t / 2) / t;
    proof {
        assert((1000 * (a as int) + (t as int) / 2) / (t as int) <= 1000) by (nonlinear_arith)
            requires
                a <= t,
                t >= 1,
        ;
    }
    Some(tenths as u64)
}

/// The digit character for `d`.
pub open spec fn digit_char(d: nat) -> char {
    if d == 0 {
        '0'
    } else if d == 1 {
        '1'
    } else if d == 2 {
        '2'
    } else if d == 3 {
        '3'
    } else if d == 4 {
        '4'
    } else if d == 5 {
        '5'
    } else if d == 6 {
        '6'
    } else if d == 7 {
        '7'
    } else if d == 8 {
        '8'
    } else {
        '9'
    }
}

/// The decimal rendering of `n`, most significant digit first.
pub open spec fn dec_str(n: nat) -> Seq<char>
    decreases n,
{
    if n < 10 {
        seq![digit_char(n)]
    } else {
        dec_str(n / 10).push(digit_char(n % 10))
    }
}

fn digit_to_str(d: u64) -> (r: &'static str)
    requires
        d < 10,
    ensures
        r@ == seq![digit_char(d as nat)],
{
    proof {
        reveal_strlit("0");
        reveal_strlit("1");
        reveal_strlit("2");
        reveal_strlit("3");
        reveal_strlit("4");
        reveal_strlit("5");
        reveal_strlit("6");
        reveal_strlit("7");
        reveal_strlit("8");
        reveal_strlit("9");
    }
    let r = match d {
        0 => "0",
        1 => "1",
        2 => "2",
        3 => "3",
        4 => "4",
        5 => "5",
        6 => "6",
        7 => "7",
        8 => "8",
        _ => "9",
    };
    proof {
        assert(r@ =~= seq![digit_char(d as nat)]);
    }
    r
}

/// Renders `n` in decimal.
pub fn u64_to_string(n: u64) -> (r: String)
    ensures
        r@ == dec_str(n as nat),
    decreases n,
{
    if n < 10 {
        String::from_str(digit_to_str(n))
    } else {
        let mut s = u64_to_string(n / 10);
        s.append(digit_to_str(n % 10));
        proof {
            assert(s@ =~= dec_str((n / 10) as nat).push(digit_char((n % 10) as nat)));
        }
        s
    }
}

/// The reported percentage for `tenths` tenths of a percent.
pub open spec fn percent_display_spec(tenths: nat) -> Seq<char> {
    dec_str(tenths / 10) + seq!['.'] + seq![digit_char(tenths % 10)] + seq!['%']
}

/// Renders tenths of a percent to one decimal place, e.g. 830 as "83.0%".
pub fn percent_display(tenths: u64) -> (r: String)
    ensures
        r@ == percent_display_spec(tenths as nat),
{
    let mut s = u64_to_string(tenths / 10);
    s.append(".");
    s.append(digit_to_str(tenths % 10));
    s.append("%");
    proof {
        reveal_strlit(".");
        reveal_strlit("%");
        assert(s@ =~= percent_display_spec(tenths as nat));
    }
    s
}

} // verus!
