//! Corpora of SQL statements: building them from line-delimited dataset
//! text, combining them, and concatenating size-bounded prefixes into
//! batches submitted to a parser as one unit of work.
use vstd::prelude::*;

verus! {

/// The separator placed between statements of a batch.
pub open spec fn sep_seq() -> Seq<char> {
    seq![';', ' ']
}

/// The concatenation of `ss` with `"; "` between consecutive statements.
pub open spec fn join_stmts(ss: Seq<Seq<char>>) -> Seq<char>
    decreases ss.len(),
{
    if ss.len() == 0 {
        Seq::empty()
    } else if ss.len() == 1 {
        ss[0]
    } else {
        ss[0] + sep_seq() + join_stmts(ss.drop_first())
    }
}

pub proof fn lemma_join_push(ss: Seq<Seq<char>>, x: Seq<char>)
    ensures
        ss.len() == 0 ==> join_stmts(ss.push(x)) == x,
        ss.len() > 0 ==> join_stmts(ss.push(x)) == join_stmts(ss) + sep_seq() + x,
    decreases ss.len(),
{
    if ss.len() == 0 {
        assert(join_stmts(ss.push(x)) == ss.push(x)[0]);
        assert(ss.push(x)[0] == x);
    } else if ss.len() == 1 {
        assert(ss.push(x)[0] == ss[0]);
        assert(ss.push(x).drop_first() =~= seq![x]);
        assert(join_stmts(seq![x]) == x);
        assert(join_stmts(ss) == ss[0]);
    } else {
        lemma_join_push(ss.drop_first(), x);
        assert(ss.push(x).drop_first() =~= ss.drop_first().push(x));
        assert(ss.push(x)[0] == ss[0]);
    }
}

/// Joins the statements with `"; "`, mirroring a multi-statement
/// submission to a parser.
pub fn concatenate_statements(statements: &[String]) -> (r: String)
    ensures
        r@ == join_stmts(statements.deep_view()),
{
    let ghost ss = statements.deep_view();
    let mut out = String::new();
    let mut i: usize = 0;
    proof {
        reveal_strlit("; ");
        assert(ss.take(0) =~= Seq::<Seq<char>>::empty());
    }
    while i < statements.len()
        invariant
            i <= statements.len(),
            ss == statements.deep_view(),
            ss.len() == statements@.len(),
            forall|k: int| 0 <= k < ss.len() ==> ss[k] == statements@[k]@,
            out@ == join_stmts(ss.take(i as int)),
        decreases statements.len() - i,
    {
        if i > 0 {
            out.append("; ");
        }
        out.append(statements[i].as_str());
        proof {
            reveal_strlit("; ");
            assert("; "@ =~= sep_seq());
            lemma_join_push(ss.take(i as int), ss[i as int]);
            assert(ss.take(i as int).push(ss[i as int]) =~= ss.take(i + 1));
        }
        i = i + 1;
    }
    proof {
        assert(ss.take(statements@.len() as int) =~= ss);
    }
    out
}

/// A separator occurrence starts at index `i` of `s`.
pub open spec fn sep_at(s: Seq<char>, i: int) -> bool {
    &&& 0 <= i
    &&& i + 2 <= s.len()
    &&& s[i] == ';'
    &&& s[i + 1] == ' '
}

/// Index of the first separator occurrence at or after `i`, or -1.
pub open spec fn find_sep(s: Seq<char>, i: int) -> int
    decreases s.len() - i,
{
    if i < 0 || i + 2 > s.len() {
        -1
    } else if sep_at(s, i) {
        i
    } else {
        find_sep(s, i + 1)
    }
}

/// Splitting a batch back into statements on the separator.
pub open spec fn split_stmts(s: Seq<char>) -> Seq<Seq<char>>
    decreases s.len(),
{
    let i = find_sep(s, 0);
    if i < 0 || i + 2 > s.len() {
        seq![s]
    } else {
        seq![s.take(i)] + split_stmts(s.skip(i + 2))
    }
}

proof fn lemma_find_sep_none(s: Seq<char>, j: int)
    requires
        forall|i: int| j <= i ==> !sep_at(s, i),
    ensures
        find_sep(s, j) == -1,
    decreases s.len() - j,
{
    if !(j < 0 || j + 2 > s.len()) {
        lemma_find_sep_none(s, j + 1);
    }
}

proof fn lemma_find_sep_at(s: Seq<char>, j: int, m: int)
    requires
        0 <= j <= m,
        sep_at(s, m),
        forall|i: int| j <= i < m ==> !sep_at(s, i),
    ensures
        find_sep(s, j) == m,
    decreases m - j,
{
    if j < m {
        lemma_find_sep_at(s, j + 1, m);
    }
}

/// No separator occurrence lies inside `s`.
pub open spec fn sep_free(s: Seq<char>) -> bool {
    forall|i: int| !sep_at(s, i)
}

/// Splitting on the separator recovers the statements a batch was joined
/// from, provided no individual statement contains the separator itself;
/// in particular the batch holds exactly `ss.len()` statements.
pub proof fn lemma_split_join(ss: Seq<Seq<char>>)
    requires
        ss.len() >= 1,
        forall|k: int| 0 <= k < ss.len() ==> sep_free(#[trigger] ss[k]),
    ensures
        split_stmts(join_stmts(ss)) == ss,
        split_stmts(join_stmts(ss)).len() == ss.len(),
    decreases ss.len(),
{
    let s = join_stmts(ss);
    if ss.len() == 1 {
        assert(s == ss[0]);
        assert(forall|i: int| !sep_at(s, i));
        lemma_find_sep_none(s, 0);
        assert(split_stmts(s) =~= ss);
    } else {
        let x = ss[0];
        let rest = ss.drop_first();
        let n = x.len() as int;
        assert(s == x + sep_seq() + join_stmts(rest));
        assert(s[n] == ';');
        assert(s[n + 1] == ' ');
        assert(sep_at(s, n));
        assert forall|i: int| 0 <= i < n implies !sep_at(s, i) by {
            if i + 2 <= n {
                assert(!sep_at(x, i));
                assert(s[i] == x[i] && s[i + 1] == x[i + 1]);
            } else {
                // the position straddles the boundary: s[i + 1] is ';'
                assert(s[i + 1] == ';');
            }
        }
        lemma_find_sep_at(s, 0, n);
        assert(s.take(n) =~= x);
        assert(s.skip(n + 2) =~= join_stmts(rest));
        lemma_split_join(rest);
        assert(split_stmts(s) =~= seq![x] + rest);
        assert(seq![x] + rest =~= ss);
    }
}

/// The number of statements a batch takes from the corpus.
pub open spec fn batch_len(corpus_len: nat, size: nat) -> nat {
    if size <= corpus_len {
        size
    } else {
        corpus_len
    }
}

/// The batch for `size`: the first `min(size, corpus length)` statements
/// joined with `"; "`.
pub fn batch_of(statements: &Vec<String>, size: usize) -> (r: String)
    ensures
        r@ == join_stmts(
            statements.deep_view().take(batch_len(statements@.len(), size as nat) as int),
        ),
{
    let k: usize = if size <= statements.len() {
        size
    } else {
        statements.len()
    };
    let mut prefix: Vec<String> = Vec::new();
    let mut i: usize = 0;
    while i < k
        invariant
            i <= k <= statements@.len(),
            prefix@ =~= statements@.take(i as int),
        decreases k - i,
    {
        prefix.push(statements[i].clone());
        proof {
            assert(prefix@ =~= statements@.take(i + 1));
        }
        i = i + 1;
    }
    let s = prefix.as_slice();
    proof {
        assert(s.deep_view() =~= statements.deep_view().take(k as int));
    }
    concatenate_statements(s)
}

/// A batch of at least one statement, none containing the separator,
/// splits back into exactly the prefix it was built from.
pub proof fn lemma_batch_recovers_prefix(ss: Seq<Seq<char>>, size: nat)
    requires
        size >= 1,
        ss.len() >= 1,
        forall|k: int| 0 <= k < ss.len() ==> sep_free(#[trigger] ss[k]),
    ensures
        split_stmts(join_stmts(ss.take(batch_len(ss.len(), size) as int))) == ss.take(
            batch_len(ss.len(), size) as int,
        ),
        split_stmts(join_stmts(ss.take(batch_len(ss.len(), size) as int))).len() == batch_len(
            ss.len(),
            size,
        ),
{
    let n = batch_len(ss.len(), size) as int;
    let prefix = ss.take(n);
    assert(forall|k: int| 0 <= k < prefix.len() ==> sep_free(#[trigger] prefix[k]));
    lemma_split_join(prefix);
}

/// The sample sizes every corpus is measured at.
pub open spec fn canonical_sizes() -> Seq<u64> {
    seq![1u64, 10u64, 50u64, 100u64, 500u64, 1000u64]
}

/// The sample sizes used for a corpus of `m` statements: the canonical
/// sizes, except that a corpus whose length lies strictly between 500 and
/// 1000 replaces 1000 by its own natural ceiling `m`.
pub open spec fn sizes_for_spec(m: nat) -> Seq<u64> {
    if 500 < m < 1000 {
        seq![1u64, 10u64, 50u64, 100u64, 500u64, m as u64]
    } else {
        canonical_sizes()
    }
}

/// The sample sizes at which `corpus` is measured.
pub fn sizes_for(corpus: &Vec<String>) -> (r: Vec<u64>)
    ensures
        r@ == sizes_for_spec(corpus@.len()),
{
    let m = corpus.len();
    let mut r: Vec<u64> = Vec::new();
    r.push(1);
    r.push(10);
    r.push(50);
    r.push(100);
    r.push(500);
    if 500 < m && m < 1000 {
        r.push(m as u64);
    } else {
        r.push(1000);
    }
    proof {
        assert(r@ =~= sizes_for_spec(corpus@.len()));
    }
    r
}

/// For a corpus whose length `m` lies strictly between 500 and 1000, the
/// sizes are exactly the canonical sizes not above `m` with `m` appended,
/// and they are strictly ascending (hence duplicate-free).
pub proof fn lemma_sizes_for_extended(m: nat)
    requires
        500 < m < 1000,
    ensures
        sizes_for_spec(m) == canonical_sizes().filter(|s: u64| s <= m).push(m as u64),
        forall|i: int, j: int|
            0 <= i < j < sizes_for_spec(m).len() ==> sizes_for_spec(m)[i] < sizes_for_spec(m)[j],
{
    let p = |s: u64| s <= m;
    let c = canonical_sizes();
    reveal_with_fuel(Seq::filter, 7);
    assert(c.drop_last() =~= seq![1u64, 10u64, 50u64, 100u64, 500u64]);
    assert(c.drop_last().drop_last() =~= seq![1u64, 10u64, 50u64, 100u64]);
    assert(c.drop_last().drop_last().drop_last() =~= seq![1u64, 10u64, 50u64]);
    assert(c.drop_last().drop_last().drop_last().drop_last() =~= seq![1u64, 10u64]);
    assert(c.drop_last().drop_last().drop_last().drop_last().drop_last() =~= seq![1u64]);
    assert(c.drop_last().drop_last().drop_last().drop_last().drop_last().drop_last() =~= Seq::<
        u64,
    >::empty());
    assert(c.filter(p) =~= seq![1u64, 10u64, 50u64, 100u64, 500u64]);
    assert(sizes_for_spec(m) =~= c.filter(p).push(m as u64));
}

/// Index of the first newline at or after `i`, or -1.
pub open spec fn find_newline(s: Seq<char>, i: int) -> int
    decreases s.len() - i,
{
    if i < 0 || i >= s.len() {
        -1
    } else if s[i] == '\n' {
        i
    } else {
        find_newline(s, i + 1)
    }
}

/// A line with one trailing carriage return of a `"\r\n"` ending removed.
pub open spec fn strip_cr(t: Seq<char>) -> Seq<char> {
    if t.len() > 0 && t[t.len() - 1] == '\r' {
        t.drop_last()
    } else {
        t
    }
}

/// The non-empty lines of `s`, split at `"\n"` or `"\r\n"` endings; a final
/// line needs no ending, and a bare `'\r'` ends no line.
pub open spec fn nonempty_lines(s: Seq<char>) -> Seq<Seq<char>>
    decreases s.len(),
{
    if s.len() == 0 {
        Seq::empty()
    } else {
        let i = find_newline(s, 0);
        if i < 0 || i >= s.len() {
            seq![s]
        } else {
            let line = strip_cr(s.take(i));
            let rest = nonempty_lines(s.skip(i + 1));
            if line.len() > 0 {
                seq![line] + rest
            } else {
                rest
            }
        }
    }
}

proof fn lemma_find_newline_none(s: Seq<char>, j: int)
    requires
        forall|i: int| j <= i < s.len() ==> s[i] != '\n',
    ensures
        find_newline(s, j) == -1,
    decreases s.len() - j,
{
    if !(j < 0 || j >= s.len()) {
        lemma_find_newline_none(s, j + 1);
    }
}

proof fn lemma_find_newline_at(s: Seq<char>, j: int, m: int)
    requires
        0 <= j <= m < s.len(),
        s[m] == '\n',
        forall|i: int| j <= i < m ==> s[i] != '\n',
    ensures
        find_newline(s, j) == m,
    decreases m - j,
{
    if j < m {
        lemma_find_newline_at(s, j + 1, m);
    }
}

/// The statements held in one dataset text: its non-empty lines, in order.
pub fn statements_from_text(text: &str) -> (r: Vec<String>)
    ensures
        r.deep_view() == nonempty_lines(text@),
{
    let n = text.unicode_len();
    let mut out: Vec<String> = Vec::new();
    let mut pos: usize = 0;
    proof {
        assert(text@.skip(0) =~= text@);
        assert(out.deep_view() =~= Seq::<Seq<char>>::empty());
    }
    while pos < n
        invariant
            pos <= n,
            n == text@.len(),
            nonempty_lines(text@) =~= out.deep_view() + nonempty_lines(text@.skip(pos as int)),
        decreases n - pos,
    {
        let ghost sub = text@.skip(pos as int);
        let mut j: usize = pos;
        while j < n && text.get_char(j) != '\n'
            invariant
                pos <= j <= n,
                n == text@.len(),
                forall|t: int| pos <= t < j ==> text@[t] != '\n',
            decreases n - j,
        {
            j = j + 1;
        }
        let terminated = j < n;
        let line_end: usize = if terminated && j > pos && text.get_char(j - 1) == '\r' {
            j - 1
        } else {
            j
        };
        proof {
            if terminated {
                lemma_find_newline_at(sub, 0, j - pos);
                assert(sub.take(j - pos) =~= text@.subrange(pos as int, j as int));
                assert(strip_cr(sub.take(j - pos)) =~= text@.subrange(
                    pos as int,
                    line_end as int,
                ));
            } else {
                lemma_find_newline_none(sub, 0);
            }
        }
        let ghost pre = out.deep_view();
        if line_end > pos {
            let line = text.substring_char(pos, line_end);
            out.push(line.to_owned());
            proof {
                assert(out.deep_view() =~= pre.push(
                    text@.subrange(pos as int, line_end as int),
                ));
            }
        }
        let new_pos: usize = if terminated {
            j + 1
        } else {
            n
        };
        proof {
            if terminated {
                assert(sub.skip(j - pos + 1) =~= text@.skip(new_pos as int));
            } else {
                assert(sub =~= text@.subrange(pos as int, line_end as int));
                assert(sub.len() > 0);
                assert(text@.skip(new_pos as int) =~= Seq::<char>::empty());
                assert(nonempty_lines(text@.skip(new_pos as int)) =~= Seq::<Seq<char>>::empty());
            }
            assert(nonempty_lines(text@) =~= out.deep_view() + nonempty_lines(
                text@.skip(new_pos as int),
            ));
        }
        pos = new_pos;
    }
    proof {
        assert(text@.skip(pos as int) =~= Seq::<char>::empty());
        assert(out.deep_view() =~= nonempty_lines(text@));
    }
    out
}

/// The texts of the dataset files, as the surrounding process read them;
/// a missing file is `None` and yields an empty corpus.
pub struct DatasetStore {
    pub spider_select: Option<String>,
    pub gretel_select: Option<String>,
    pub gretel_insert: Option<String>,
    pub gretel_update: Option<String>,
    pub gretel_delete: Option<String>,
}

/// The corpus a dataset text yields: its non-empty lines, or nothing at
/// all when the file was missing.
pub open spec fn corpus_of(text: Option<String>) -> Seq<Seq<char>> {
    match text {
        Option::None => Seq::empty(),
        Option::Some(t) => nonempty_lines(t@),
    }
}

fn corpus_from(text: &Option<String>) -> (r: Vec<String>)
    ensures
        r.deep_view() == corpus_of(*text),
{
    match text {
        Option::Some(t) => statements_from_text(t.as_str()),
        Option::None => {
            let v: Vec<String> = Vec::new();
            proof {
                assert(v.deep_view() =~= Seq::<Seq<char>>::empty());
            }
            v
        },
    }
}

/// The Spider SELECT statements (real-world text-to-SQL queries).
pub fn load_spider_select(data: &DatasetStore) -> (r: Vec<String>)
    ensures
        r.deep_view() == corpus_of(data.spider_select),
{
    corpus_from(&data.spider_select)
}

/// The Gretel SELECT statements (synthetic but realistic).
pub fn load_gretel_select(data: &DatasetStore) -> (r: Vec<String>)
    ensures
        r.deep_view() == corpus_of(data.gretel_select),
{
    corpus_from(&data.gretel_select)
}

/// All SELECT statements: Spider followed by Gretel.
pub fn load_select_statements(data: &DatasetStore) -> (r: Vec<String>)
    ensures
        r.deep_view() == corpus_of(data.spider_select) + corpus_of(data.gretel_select),
{
    let mut stmts = load_spider_select(data);
    let mut more = load_gretel_select(data);
    let ghost a = stmts.deep_view();
    let ghost b = more.deep_view();
    stmts.append(&mut more);
    proof {
        assert(stmts.deep_view() =~= a + b);
    }
    stmts
}

/// The INSERT statements (Gretel).
pub fn load_insert_statements(data: &DatasetStore) -> (r: Vec<String>)
    ensures
        r.deep_view() == corpus_of(data.gretel_insert),
{
    corpus_from(&data.gretel_insert)
}

/// The UPDATE statements (Gretel).
pub fn load_update_statements(data: &DatasetStore) -> (r: Vec<String>)
    ensures
        r.deep_view() == corpus_of(data.gretel_update),
{
    corpus_from(&data.gretel_update)
}

/// The DELETE statements (Gretel).
pub fn load_delete_statements(data: &DatasetStore) -> (r: Vec<String>)
    ensures
        r.deep_view() == corpus_of(data.gretel_delete),
{
    corpus_from(&data.gretel_delete)
}

/// All DML statements: SELECT, INSERT, UPDATE and DELETE corpora
/// concatenated in that order.
pub fn load_dml_statements(data: &DatasetStore) -> (r: Vec<String>)
    ensures
        r.deep_view() == corpus_of(data.spider_select) + corpus_of(data.gretel_select)
            + corpus_of(data.gretel_insert) + corpus_of(data.gretel_update) + corpus_of(
            data.gretel_delete,
        ),
{
    let mut stmts = load_select_statements(data);
    let mut ins = load_insert_statements(data);
    let mut upd = load_update_statements(data);
    let mut del = load_delete_statements(data);
    let ghost a = stmts.deep_view();
    let ghost b = ins.deep_view();
    let ghost c = upd.deep_view();
    let ghost d = del.deep_view();
    stmts.append(&mut ins);
    proof {
        assert(stmts.deep_view() =~= a + b);
    }
    let ghost ab = stmts.deep_view();
    stmts.append(&mut upd);
    proof {
        assert(stmts.deep_view() =~= ab + c);
    }
    let ghost abc = stmts.deep_view();
    stmts.append(&mut del);
    proof {
        assert(stmts.deep_view() =~= abc + d);
    }
    stmts
}

} // verus!
