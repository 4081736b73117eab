//! Assembly of the nested result table from a snapshot of the result
//! store: benchmark group, then backend, then sample size, keeping only
//! sizes from the allowed set and records whose mean can be extracted, and
//! omitting every level that ends up empty.
use crate::backends::backend_key;
use crate::backends::SqlBackend;
use crate::record::extract_pair_spec;
use crate::record::extract_mean_and_std_dev;
use crate::record::is_digit;
use vstd::prelude::*;

verus! {

/// `s` with one leading plus sign removed, as the integer reader allows.
pub open spec fn strip_plus(s: Seq<char>) -> Seq<char> {
    if s.len() > 0 && s[0] == '+' {
        s.drop_first()
    } else {
        s
    }
}

/// The value of a digit string, most significant digit first.
pub open spec fn digits_val(s: Seq<char>) -> int
    decreases s.len(),
{
    if s.len() == 0 {
        0
    } else {
        digits_val(s.drop_last()) * 10 + (s.last() as int - '0' as int)
    }
}

/// What `s` reads as an unsigned integer: an optional plus sign, then
/// digits only, rejected when the value does not fit.
pub open spec fn parse_u64_spec(s: Seq<char>) -> Option<u64> {
    let d = strip_plus(s);
    if d.len() > 0 && (forall|i: int| 0 <= i < d.len() ==> is_digit(#[trigger] d[i]))
        && digits_val(d) <= u64::MAX {
        Option::Some(digits_val(d) as u64)
    } else {
        Option::None
    }
}

proof fn lemma_digits_val_nonneg(d: Seq<char>)
    requires
        forall|i: int| 0 <= i < d.len() ==> is_digit(#[trigger] d[i]),
    ensures
        digits_val(d) >= 0,
    decreases d.len(),
{
    if d.len() > 0 {
        lemma_digits_val_nonneg(d.drop_last());
    }
}

proof fn lemma_digits_val_monotone(d: Seq<char>, k: int)
    requires
        0 <= k <= d.len(),
        forall|i: int| 0 <= i < d.len() ==> is_digit(#[trigger] d[i]),
    ensures
        digits_val(d.take(k)) <= digits_val(d),
    decreases d.len() - k,
{
    if k < d.len() {
        lemma_digits_val_monotone(d, k + 1);
        let t = d.take(k + 1);
        assert(t.drop_last() =~= d.take(k));
        assert(forall|i: int| 0 <= i < t.len() ==> is_digit(#[trigger] t[i]));
        lemma_digits_val_nonneg(d.take(k));
        assert(digits_val(t) == digits_val(d.take(k)) * 10 + (t.last() as int - '0' as int));
    } else {
        assert(d.take(k) =~= d);
    }
}

/// Reads a directory name as a sample size.
pub fn parse_u64(s: &str) -> (r: Option<u64>)
    ensures
        r == parse_u64_spec(s@),
{
    let n = s.unicode_len();
    let mut start: usize = 0;
    if n > 0 && s.get_char(0) == '+' {
        start = 1;
    }
    let ghost d = strip_plus(s@);
    proof {
        assert(d =~= s@.subrange(start as int, n as int));
    }
    if start == n {
        return None;
    }
    let mut v: u64 = 0;
    let mut j = start;
    while j < n
        invariant
            start <= j <= n,
            n == s@.len(),
            d == strip_plus(s@),
            d == s@.subrange(start as int, n as int),
            start < n,
            forall|k: int| 0 <= k < j - start ==> is_digit(#[trigger] d[k]),
            v == digits_val(d.take(j - start)),
        decreases n - j,
    {
        let c = s.get_char(j);
        proof {
            assert(d[j - start] == s@[j as int]);
        }
        if !('0' <= c && c <= '9') {
            proof {
                assert(!is_digit(d[j - start]));
            }
            return None;
        }
        let dv = (c as u32 - 48) as u64;
        proof {
            assert(d.take(j - start + 1).drop_last() =~= d.take(j - start));
            assert(d.take(j - start + 1).last() == d[j - start]);
            lemma_digits_val_nonneg(d.take(j - start));
        }
        if v > (u64::MAX - dv) / 10 {
            proof {
                let q = ((u64::MAX - dv) / 10) as int;
                assert(q * 10 + ((u64::MAX - dv) as int % 10) == u64::MAX - dv);
                assert(digits_val(d.take(j - start + 1)) > u64::MAX);
                if forall|i: int| 0 <= i < d.len() ==> is_digit(#[trigger] d[i]) {
                    lemma_digits_val_monotone(d, j - start + 1);
                }
            }
            return None;
        }
        v = v * 10 + dv;
        j = j + 1;
    }
    proof {
        assert(d.take(n - start) =~= d);
    }
    Some(v)
}

/// Whether `x` is one of the allowed sample sizes.
fn contains_u64(allowed: &Vec<u64>, x: u64) -> (r: bool)
    ensures
        r == allowed@.contains(x),
{
    let mut i: usize = 0;
    while i < allowed.len()
        invariant
            i <= allowed@.len(),
            forall|k: int| 0 <= k < i ==> allowed@[k] != x,
        decreases allowed@.len() - i,
    {
        if allowed[i] == x {
            return true;
        }
        i = i + 1;
    }
    false
}

/// Whether two pieces of text hold the same characters.
fn str_eq(a: &str, b: &str) -> (r: bool)
    ensures
        r == (a@ == b@),
{
    let n = a.unicode_len();
    if n != b.unicode_len() {
        proof {
            assert(a@.len() != b@.len());
        }
        return false;
    }
    let mut i: usize = 0;
    while i < n
        invariant
            i <= n,
            n == a@.len(),
            n == b@.len(),
            forall|k: int| 0 <= k < i ==> a@[k] == b@[k],
        decreases n - i,
    {
        if a.get_char(i) != b.get_char(i) {
            return false;
        }
        i = i + 1;
    }
    proof {
        assert(a@ =~= b@);
    }
    true
}

/// One size directory of a result store: its decimal name and the record
/// text found beneath it, if a record file was there.
pub struct SizeEntry {
    pub name: String,
    pub record: Option<String>,
}

/// One backend directory of a result store.
pub struct BackendDir {
    pub name: String,
    pub sizes: Vec<SizeEntry>,
}

/// One benchmark-group directory of a result store.
pub struct GroupDir {
    pub name: String,
    pub backends: Vec<BackendDir>,
}

/// A read-only snapshot of the result store's directory layout, as the
/// surrounding process walked it.
pub struct StoreSnapshot {
    pub groups: Vec<GroupDir>,
}

/// One extracted measurement: the mean and standard-deviation tokens, in
/// nanoseconds.
pub struct BenchmarkResult {
    pub mean_ns: String,
    pub std_dev_ns: String,
}

/// The measurement of one sample size.
pub struct SizeCell {
    pub size: u64,
    pub result: BenchmarkResult,
}

/// The measurements of one backend within a group.
pub struct BackendResults {
    pub backend: String,
    pub cells: Vec<SizeCell>,
}

/// The measurements of one benchmark group.
pub struct GroupResults {
    pub group: String,
    pub backends: Vec<BackendResults>,
}

/// The nested result table; a missing key means no data, never zero.
pub struct ResultTable {
    pub groups: Vec<GroupResults>,
}

/// The mathematical value of one measurement.
pub struct MeasurementView {
    pub mean: Seq<char>,
    pub std_dev: Seq<char>,
}

/// The mathematical value of one size's cell.
pub struct CellView {
    pub size: u64,
    pub result: MeasurementView,
}

/// The mathematical value of one backend's row.
pub struct BackendView {
    pub backend: Seq<char>,
    pub cells: Seq<CellView>,
}

/// The mathematical value of one group's rows.
pub struct GroupView {
    pub group: Seq<char>,
    pub backends: Seq<BackendView>,
}

impl View for BenchmarkResult {
    type V = MeasurementView;

    open spec fn view(&self) -> MeasurementView {
        MeasurementView { mean: self.mean_ns@, std_dev: self.std_dev_ns@ }
    }
}

impl View for SizeCell {
    type V = CellView;

    open spec fn view(&self) -> CellView {
        CellView { size: self.size, result: self.result@ }
    }
}

impl View for BackendResults {
    type V = BackendView;

    open spec fn view(&self) -> BackendView {
        BackendView {
            backend: self.backend@,
            cells: Seq::new(self.cells@.len(), |i: int| self.cells@[i]@),
        }
    }
}

impl View for GroupResults {
    type V = GroupView;

    open spec fn view(&self) -> GroupView {
        GroupView {
            group: self.group@,
            backends: Seq::new(self.backends@.len(), |i: int| self.backends@[i]@),
        }
    }
}

impl View for ResultTable {
    type V = Seq<GroupView>;

    open spec fn view(&self) -> Seq<GroupView> {
        Seq::new(self.groups@.len(), |i: int| self.groups@[i]@)
    }
}

/// The cell a size directory yields: its name must read as an allowed
/// size and its record must hold an extractable mean.
pub open spec fn cell_spec(e: SizeEntry, allowed: Seq<u64>) -> Option<CellView> {
    match parse_u64_spec(e.name@) {
        Option::None => Option::None,
        Option::Some(v) => if !allowed.contains(v) {
            Option::None
        } else {
            match e.record {
                Option::None => Option::None,
                Option::Some(c) => match extract_pair_spec(c@) {
                    Option::None => Option::None,
                    Option::Some(p) => Option::Some(
                        CellView { size: v, result: MeasurementView { mean: p.0, std_dev: p.1 } },
                    ),
                },
            }
        },
    }
}

/// The cells of one backend directory, in the order its sizes were found.
pub open spec fn cells_spec(es: Seq<SizeEntry>, allowed: Seq<u64>) -> Seq<CellView>
    decreases es.len(),
{
    if es.len() == 0 {
        Seq::empty()
    } else {
        let rest = cells_spec(es.drop_first(), allowed);
        match cell_spec(es[0], allowed) {
            Option::Some(c) => seq![c] + rest,
            Option::None => rest,
        }
    }
}

/// A size directory whose name is not an allowed sample size, or does not
/// read as an integer at all, contributes nothing to the table.
pub proof fn lemma_stale_size_excluded(e: SizeEntry, allowed: Seq<u64>)
    requires
        match parse_u64_spec(e.name@) {
            Option::Some(v) => !allowed.contains(v),
            Option::None => true,
        },
    ensures
        cell_spec(e, allowed) is None,
{
}

/// The first directory of `gs` named `name`.
pub open spec fn find_group(gs: Seq<GroupDir>, name: Seq<char>) -> Option<GroupDir>
    decreases gs.len(),
{
    if gs.len() == 0 {
        Option::None
    } else if gs[0].name@ == name {
        Option::Some(gs[0])
    } else {
        find_group(gs.drop_first(), name)
    }
}

/// The first directory of `bs` named `name`.
pub open spec fn find_backend(bs: Seq<BackendDir>, name: Seq<char>) -> Option<BackendDir>
    decreases bs.len(),
{
    if bs.len() == 0 {
        Option::None
    } else if bs[0].name@ == name {
        Option::Some(bs[0])
    } else {
        find_backend(bs.drop_first(), name)
    }
}

/// The row backend `b` contributes to group directory `g`: present only
/// when its directory exists and yields at least one cell.
pub open spec fn backend_row_spec(g: GroupDir, b: SqlBackend, allowed: Seq<u64>) -> Option<
    BackendView,
> {
    match find_backend(g.backends@, backend_key(b)) {
        Option::None => Option::None,
        Option::Some(bd) => {
            let cs = cells_spec(bd.sizes@, allowed);
            if cs.len() == 0 {
                Option::None
            } else {
                Option::Some(BackendView { backend: backend_key(b), cells: cs })
            }
        },
    }
}

/// The rows the backends of `registry` contribute to `g`, in registry
/// order, empty rows omitted.
pub open spec fn backend_rows_spec(g: GroupDir, registry: Seq<SqlBackend>, allowed: Seq<u64>) -> Seq<
    BackendView,
>
    decreases registry.len(),
{
    if registry.len() == 0 {
        Seq::empty()
    } else {
        let rest = backend_rows_spec(g, registry.drop_first(), allowed);
        match backend_row_spec(g, registry[0], allowed) {
            Option::Some(bv) => seq![bv] + rest,
            Option::None => rest,
        }
    }
}

/// The group named `name`: present only when its directory exists and at
/// least one backend contributes a row.
pub open spec fn group_spec(
    gs: Seq<GroupDir>,
    name: Seq<char>,
    registry: Seq<SqlBackend>,
    allowed: Seq<u64>,
) -> Option<GroupView> {
    match find_group(gs, name) {
        Option::None => Option::None,
        Option::Some(g) => {
            let rows = backend_rows_spec(g, registry, allowed);
            if rows.len() == 0 {
                Option::None
            } else {
                Option::Some(GroupView { group: name, backends: rows })
            }
        },
    }
}

/// The groups of the table, in the fixed group order, empty groups
/// omitted.
pub open spec fn groups_spec(
    gs: Seq<GroupDir>,
    names: Seq<Seq<char>>,
    registry: Seq<SqlBackend>,
    allowed: Seq<u64>,
) -> Seq<GroupView>
    decreases names.len(),
{
    if names.len() == 0 {
        Seq::empty()
    } else {
        let rest = groups_spec(gs, names.drop_first(), registry, allowed);
        match group_spec(gs, names[0], registry, allowed) {
            Option::Some(gv) => seq![gv] + rest,
            Option::None => rest,
        }
    }
}

/// The benchmark groups a result store may hold, in rendering order.
pub open spec fn group_names() -> Seq<Seq<char>> {
    seq!["select"@, "insert"@, "update"@, "delete"@, "dml"@]
}

/// The backend registry consulted by aggregation, in rendering order.
pub open spec fn registry_spec() -> Seq<SqlBackend> {
    seq![SqlBackend::Sqlparser, SqlBackend::SqlParse]
}

/// The rows an optional backend row contributes.
pub open spec fn opt_row(o: Option<BackendView>) -> Seq<BackendView> {
    match o {
        Option::Some(v) => seq![v],
        Option::None => Seq::empty(),
    }
}

/// The groups an optional group contributes.
pub open spec fn opt_group(o: Option<GroupView>) -> Seq<GroupView> {
    match o {
        Option::Some(v) => seq![v],
        Option::None => Seq::empty(),
    }
}

/// The views of the collected groups.
pub open spec fn group_views(v: Seq<GroupResults>) -> Seq<GroupView> {
    Seq::new(v.len(), |i: int| v[i]@)
}

fn find_group_dir<'a>(groups: &'a Vec<GroupDir>, name: &str) -> (r: Option<&'a GroupDir>)
    ensures
        match r {
            Option::Some(g) => find_group(groups@, name@) == Option::Some(*g),
            Option::None => find_group(groups@, name@) is None,
        },
{
    let mut i: usize = 0;
    proof {
        assert(groups@.skip(0) =~= groups@);
    }
    while i < groups.len()
        invariant
            i <= groups@.len(),
            find_group(groups@, name@) == find_group(groups@.skip(i as int), name@),
        decreases groups@.len() - i,
    {
        proof {
            assert(groups@.skip(i as int)[0] == groups@[i as int]);
            assert(groups@.skip(i as int).drop_first() =~= groups@.skip(i + 1));
        }
        if str_eq(groups[i].name.as_str(), name) {
            return Some(&groups[i]);
        }
        i = i + 1;
    }
    proof {
        assert(groups@.skip(groups@.len() as int) =~= Seq::<GroupDir>::empty());
    }
    None
}

fn find_backend_dir<'a>(backends: &'a Vec<BackendDir>, name: &str) -> (r: Option<&'a BackendDir>)
    ensures
        match r {
            Option::Some(b) => find_backend(backends@, name@) == Option::Some(*b),
            Option::None => find_backend(backends@, name@) is None,
        },
{
    let mut i: usize = 0;
    proof {
        assert(backends@.skip(0) =~= backends@);
    }
    while i < backends.len()
        invariant
            i <= backends@.len(),
            find_backend(backends@, name@) == find_backend(backends@.skip(i as int), name@),
        decreases backends@.len() - i,
    {
        proof {
            assert(backends@.skip(i as int)[0] == backends@[i as int]);
            assert(backends@.skip(i as int).drop_first() =~= backends@.skip(i + 1));
        }
        if str_eq(backends[i].name.as_str(), name) {
            return Some(&backends[i]);
        }
        i = i + 1;
    }
    proof {
        assert(backends@.skip(backends@.len() as int) =~= Seq::<BackendDir>::empty());
    }
    None
}

/// The views of collected cells.
pub open spec fn cell_views(v: Seq<SizeCell>) -> Seq<CellView> {
    Seq::new(v.len(), |i: int| v[i]@)
}

fn collect_cells(sizes: &Vec<SizeEntry>, allowed: &Vec<u64>) -> (r: Vec<SizeCell>)
    ensures
        cell_views(r@) == cells_spec(sizes@, allowed@),
{
    let mut out: Vec<SizeCell> = Vec::new();
    let mut i: usize = 0;
    proof {
        assert(cell_views(out@) =~= Seq::<CellView>::empty());
        assert(sizes@.skip(0) =~= sizes@);
    }
    while i < sizes.len()
        invariant
            i <= sizes@.len(),
            cells_spec(sizes@, allowed@) =~= cell_views(out@) + cells_spec(
                sizes@.skip(i as int),
                allowed@,
            ),
        decreases sizes@.len() - i,
    {
        proof {
            assert(sizes@.skip(i as int)[0] == sizes@[i as int]);
            assert(sizes@.skip(i as int).drop_first() =~= sizes@.skip(i + 1));
        }
        let entry = &sizes[i];
        let ghost pre = cell_views(out@);
        match parse_u64(entry.name.as_str()) {
            Option::None => {},
            Option::Some(size) => {
                if contains_u64(allowed, size) {
                    match &entry.record {
                        Option::None => {},
                        Option::Some(rec) => {
                            match extract_mean_and_std_dev(rec.as_str()) {
                                Option::None => {},
                                Option::Some(pair) => {
                                    let cell = SizeCell {
                                        size,
                                        result: BenchmarkResult {
                                            mean_ns: pair.0,
                                            std_dev_ns: pair.1,
                                        },
                                    };
                                    out.push(cell);
                                    proof {
                                        assert(cell_views(out@) =~= pre.push(
                                            cell_spec(sizes@[i as int], allowed@)->Some_0,
                                        ));
                                    }
                                },
                            }
                        },
                    }
                }
            },
        }
        proof {
            assert(cells_spec(sizes@, allowed@) =~= cell_views(out@) + cells_spec(
                sizes@.skip(i + 1),
                allowed@,
            ));
        }
        i = i + 1;
    }
    proof {
        assert(cells_spec(sizes@.skip(sizes@.len() as int), allowed@) =~= Seq::<CellView>::empty());
        assert(cell_views(out@) =~= cells_spec(sizes@, allowed@));
    }
    out
}

fn collect_backend_row(g: &GroupDir, b: SqlBackend, allowed: &Vec<u64>) -> (r: Option<
    BackendResults,
>)
    ensures
        match r {
            Option::Some(row) => backend_row_spec(*g, b, allowed@) == Option::Some(row@),
            Option::None => backend_row_spec(*g, b, allowed@) is None,
        },
{
    let bd = match find_backend_dir(&g.backends, b.key()) {
        Option::Some(bd) => bd,
        Option::None => {
            return None;
        },
    };
    let cells = collect_cells(&bd.sizes, allowed);
    if cells.len() == 0 {
        proof {
            assert(cells_spec(bd.sizes@, allowed@).len() == 0);
        }
        return None;
    }
    let row = BackendResults { backend: String::from_str(b.key()), cells };
    proof {
        assert(row@ == (BackendView {
            backend: backend_key(b),
            cells: cells_spec(bd.sizes@, allowed@),
        }));
    }
    Some(row)
}

fn collect_group(groups: &Vec<GroupDir>, name: &str, allowed: &Vec<u64>) -> (r: Option<
    GroupResults,
>)
    ensures
        match r {
            Option::Some(gr) => group_spec(groups@, name@, registry_spec(), allowed@)
                == Option::Some(gr@),
            Option::None => group_spec(groups@, name@, registry_spec(), allowed@) is None,
        },
{
    let g = match find_group_dir(groups, name) {
        Option::Some(g) => g,
        Option::None => {
            return None;
        },
    };
    let r1 = collect_backend_row(g, SqlBackend::Sqlparser, allowed);
    let r2 = collect_backend_row(g, SqlBackend::SqlParse, allowed);
    let ghost tail = seq![SqlBackend::SqlParse];
    proof {
        assert(backend_rows_spec(*g, Seq::<SqlBackend>::empty(), allowed@) =~= Seq::<
            BackendView,
        >::empty());
        assert(tail.drop_first() =~= Seq::<SqlBackend>::empty());
        assert(backend_rows_spec(*g, tail, allowed@) =~= opt_row(
            backend_row_spec(*g, SqlBackend::SqlParse, allowed@),
        ));
        assert(registry_spec().drop_first() =~= tail);
        assert(backend_rows_spec(*g, registry_spec(), allowed@) =~= opt_row(
            backend_row_spec(*g, SqlBackend::Sqlparser, allowed@),
        ) + opt_row(backend_row_spec(*g, SqlBackend::SqlParse, allowed@)));
    }
    let mut rows: Vec<BackendResults> = Vec::new();
    match (r1, r2) {
        (Option::Some(a), Option::Some(b)) => {
            let ghost av = a@;
            let ghost bv = b@;
            rows.push(a);
            rows.push(b);
            proof {
                assert(Seq::new(rows@.len(), |i: int| rows@[i]@) =~= seq![av, bv]);
                assert(seq![av, bv] =~= seq![av] + seq![bv]);
            }
        },
        (Option::Some(a), Option::None) => {
            let ghost av = a@;
            rows.push(a);
            proof {
                assert(Seq::new(rows@.len(), |i: int| rows@[i]@) =~= seq![av]);
                assert(seq![av] =~= seq![av] + Seq::<BackendView>::empty());
            }
        },
        (Option::None, Option::Some(b)) => {
            let ghost bv = b@;
            rows.push(b);
            proof {
                assert(Seq::new(rows@.len(), |i: int| rows@[i]@) =~= seq![bv]);
                assert(seq![bv] =~= Seq::<BackendView>::empty() + seq![bv]);
            }
        },
        (Option::None, Option::None) => {
            proof {
                assert(Seq::new(rows@.len(), |i: int| rows@[i]@) =~= Seq::<BackendView>::empty());
            }
        },
    }
    proof {
        assert(Seq::new(rows@.len(), |i: int| rows@[i]@) =~= backend_rows_spec(
            *g,
            registry_spec(),
            allowed@,
        ));
    }
    if rows.len() == 0 {
        return None;
    }
    let gr = GroupResults { group: String::from_str(name), backends: rows };
    proof {
        assert(gr@ == (GroupView {
            group: name@,
            backends: backend_rows_spec(*g, registry_spec(), allowed@),
        }));
    }
    Some(gr)
}

/// Builds the result table for a store snapshot, keeping only the allowed
/// sample sizes and dropping every group and backend that yields no data.
pub fn aggregate(snapshot: &StoreSnapshot, allowed_sizes: &Vec<u64>) -> (t: ResultTable)
    ensures
        t@ == groups_spec(snapshot.groups@, group_names(), registry_spec(), allowed_sizes@),
{
    let ghost gs = snapshot.groups@;
    let ghost reg = registry_spec();
    let ghost al = allowed_sizes@;
    let mut groups: Vec<GroupResults> = Vec::new();
    let ghost g0 = group_views(groups@);
    proof {
        assert(g0 =~= Seq::<GroupView>::empty());
    }
    match collect_group(&snapshot.groups, "select", allowed_sizes) {
        Option::Some(gr) => {
            groups.push(gr);
            proof {
                assert(group_views(groups@) =~= g0 + opt_group(
                    group_spec(gs, "select"@, reg, al),
                ));
            }
        },
        Option::None => {
            proof {
                assert(group_views(groups@) =~= g0 + opt_group(
                    group_spec(gs, "select"@, reg, al),
                ));
            }
        },
    }
    let ghost g1 = group_views(groups@);
    match collect_group(&snapshot.groups, "insert", allowed_sizes) {
        Option::Some(gr) => {
            groups.push(gr);
            proof {
                assert(group_views(groups@) =~= g1 + opt_group(
                    group_spec(gs, "insert"@, reg, al),
                ));
            }
        },
        Option::None => {
            proof {
                assert(group_views(groups@) =~= g1 + opt_group(
                    group_spec(gs, "insert"@, reg, al),
                ));
            }
        },
    }
    let ghost g2 = group_views(groups@);
    match collect_group(&snapshot.groups, "update", allowed_sizes) {
        Option::Some(gr) => {
            groups.push(gr);
            proof {
                assert(group_views(groups@) =~= g2 + opt_group(
                    group_spec(gs, "update"@, reg, al),
                ));
            }
        },
        Option::None => {
            proof {
                assert(group_views(groups@) =~= g2 + opt_group(
                    group_spec(gs, "update"@, reg, al),
                ));
            }
        },
    }
    let ghost g3 = group_views(groups@);
    match collect_group(&snapshot.groups, "delete", allowed_sizes) {
        Option::Some(gr) => {
            groups.push(gr);
            proof {
                assert(group_views(groups@) =~= g3 + opt_group(
                    group_spec(gs, "delete"@, reg, al),
                ));
            }
        },
        Option::None => {
            proof {
                assert(group_views(groups@) =~= g3 + opt_group(
                    group_spec(gs, "delete"@, reg, al),
                ));
            }
        },
    }
    let ghost g4 = group_views(groups@);
    match collect_group(&snapshot.groups, "dml", allowed_sizes) {
        Option::Some(gr) => {
            groups.push(gr);
            proof {
                assert(group_views(groups@) =~= g4 + opt_group(group_spec(gs, "dml"@, reg, al)));
            }
        },
        Option::None => {
            proof {
                assert(group_views(groups@) =~= g4 + opt_group(group_spec(gs, "dml"@, reg, al)));
            }
        },
    }
    let t = ResultTable { groups };
    proof {
        let n4 = seq!["dml"@];
        let n3 = seq!["delete"@, "dml"@];
        let n2 = seq!["update"@, "delete"@, "dml"@];
        let n1 = seq!["insert"@, "update"@, "delete"@, "dml"@];
        assert(n4.drop_first() =~= Seq::<Seq<char>>::empty());
        assert(groups_spec(gs, Seq::<Seq<char>>::empty(), reg, al) =~= Seq::<GroupView>::empty());
        assert(groups_spec(gs, n4, reg, al) =~= opt_group(group_spec(gs, "dml"@, reg, al)));
        assert(n3.drop_first() =~= n4);
        assert(groups_spec(gs, n3, reg, al) =~= opt_group(group_spec(gs, "delete"@, reg, al))
            + groups_spec(gs, n4, reg, al));
        assert(n2.drop_first() =~= n3);
        assert(groups_spec(gs, n2, reg, al) =~= opt_group(group_spec(gs, "update"@, reg, al))
            + groups_spec(gs, n3, reg, al));
        assert(n1.drop_first() =~= n2);
        assert(groups_spec(gs, n1, reg, al) =~= opt_group(group_spec(gs, "insert"@, reg, al))
            + groups_spec(gs, n2, reg, al));
        assert(group_names().drop_first() =~= n1);
        assert(groups_spec(gs, group_names(), reg, al) =~= opt_group(
            group_spec(gs, "select"@, reg, al),
        ) + groups_spec(gs, n1, reg, al));
        assert(t@ =~= group_views(groups@));
        assert(t@ =~= groups_spec(gs, group_names(), reg, al));
    }
    t
}

} // verus!
