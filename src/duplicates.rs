use indexmap::IndexSet;
use std::collections::BTreeMap;
use vstd::prelude::*;

verus! {

/// The identity of a duplicate group: a barcode and a unique molecular identifier.
#[derive(PartialEq, Eq, Hash, Debug, Clone)]
pub struct RecordIdentifier {
    pub bc: String,
    pub umi: String,
}

/// A group key as plain text: (barcode, UMI).
pub type GroupKey = (Seq<char>, Seq<char>);

/// A duplicate group as plain values: its key and the offsets of its reads.
pub type Group = (GroupKey, Seq<usize>);

impl RecordIdentifier {
    pub open spec fn key(&self) -> GroupKey {
        (self.bc@, self.umi@)
    }
}

#[verifier::external_type_specification]
#[verifier::external_body]
#[verifier::reject_recursive_types(T)]
#[verifier::reject_recursive_types(S)]
pub struct ExIndexSet<T, S>(IndexSet<T, S>);

/// The keys held by an insertion-ordered set, in insertion order.
pub uninterp spec fn set_keys(s: IndexSet<RecordIdentifier>) -> Seq<GroupKey>;

/// Relies on indexmap::IndexSet::new: a new set holds no keys.
#[verifier::external_body]
fn empty_key_set() -> (s: IndexSet<RecordIdentifier>)
    ensures
        set_keys(s) == Seq::<GroupKey>::empty(),
{
    IndexSet::new()
}

/// Relies on indexmap::IndexSet::insert_full: an equal key already present keeps its
/// position and is reported with `false`; otherwise the key is appended and its new
/// position is reported with `true`. Keys are equal when both their strings are
/// (the derived `Eq` and `Hash` of `RecordIdentifier`).
#[verifier::external_body]
fn insert_key(s: &mut IndexSet<RecordIdentifier>, id: RecordIdentifier) -> (r: (usize, bool))
    ensures
        r.1 == !set_keys(*old(s)).contains(id.key()),
        r.1 ==> r.0 == set_keys(*old(s)).len() && set_keys(*final(s)) == set_keys(*old(s)).push(
            id.key(),
        ),
        !r.1 ==> r.0 < set_keys(*old(s)).len() && set_keys(*old(s))[r.0 as int] == id.key()
            && set_keys(*final(s)) == set_keys(*old(s)),
{
    s.insert_full(id)
}

/// Relies on indexmap::IndexSet's `Index<usize>`: the key at that position.
#[verifier::external_body]
fn key_at(s: &IndexSet<RecordIdentifier>, i: usize) -> (r: &RecordIdentifier)
    requires
        i < set_keys(*s).len(),
    ensures
        r.key() == set_keys(*s)[i as int],
{
    &s[i]
}

// ---------------------------------------------------------------------------
// Offsets

pub open spec fn is_digit(c: char) -> bool {
    '0' <= c && c <= '9'
}

pub open spec fn all_digits(s: Seq<char>) -> bool {
    forall|i: int| 0 <= i < s.len() ==> is_digit(#[trigger] s[i])
}

/// The value of a string of decimal digits.
pub open spec fn digits_value(s: Seq<char>) -> nat
    decreases s.len(),
{
    if s.len() == 0 {
        0
    } else {
        digits_value(s.drop_last()) * 10 + (s.last() as nat - '0' as nat) as nat
    }
}

/// A byte offset written in decimal: one or more digits whose value fits in `usize`.
pub open spec fn offset_value(s: Seq<char>) -> Option<usize> {
    if s.len() > 0 && all_digits(s) && digits_value(s) <= usize::MAX {
        Some(digits_value(s) as usize)
    } else {
        None
    }
}

proof fn lemma_prefix_value_le(s: Seq<char>, i: int)
    requires
        all_digits(s),
        0 <= i <= s.len(),
    ensures
        digits_value(s.subrange(0, i)) <= digits_value(s),
    decreases s.len(),
{
    if i < s.len() {
        assert(s.drop_last() =~= s.subrange(0, s.len() - 1));
        assert(s.drop_last().subrange(0, i) =~= s.subrange(0, i));
        lemma_prefix_value_le(s.drop_last(), i);
    } else {
        assert(s.subrange(0, i) =~= s);
    }
}

/// Reads a decimal byte offset.
pub fn parse_offset(s: &str) -> (r: Option<usize>)
    ensures
        r == offset_value(s@),
{
    let n = s.unicode_len();
    if n == 0 {
        return None;
    }
    let mut v: usize = 0;
    let mut i: usize = 0;
    while i < n
        invariant
            n == s@.len(),
            i <= n,
            forall|j: int| 0 <= j < i ==> is_digit(#[trigger] s@[j]),
            v == digits_value(s@.subrange(0, i as int)),
        decreases n - i,
    {
        let c = s.get_char(i);
        if !('0' <= c && c <= '9') {
            return None;
        }
        let d: usize = (c as u32 - '0' as u32) as usize;
        assert(s@.subrange(0, i + 1).drop_last() =~= s@.subrange(0, i as int));
        if v > (usize::MAX - d) / 10 {
            proof {
                if all_digits(s@) {
                    lemma_prefix_value_le(s@, i + 1);
                }
            }
            return None;
        }
        v = v * 10 + d;
        i = i + 1;
    }
    assert(s@.subrange(0, n as int) =~= s@);
    Some(v)
}


// ---------------------------------------------------------------------------
// Grouping

/// Number of columns an offset-table row must have.
pub const MIN_COLUMNS: usize = 6;

pub open spec fn row_key(row: Seq<Seq<char>>) -> GroupKey {
    (row[1], row[4])
}

pub open spec fn row_offset(row: Seq<Seq<char>>) -> usize {
    match offset_value(row[5]) {
        Some(v) => v,
        None => 0,
    }
}

/// A row that names a barcode, a UMI and a valid offset.
pub open spec fn row_ok(row: Seq<Seq<char>>) -> bool {
    row.len() >= 6 && offset_value(row[5]) is Some
}

pub open spec fn has_key(g: Seq<Group>, k: GroupKey) -> bool {
    exists|j: int| 0 <= j < g.len() && (#[trigger] g[j]).0 == k
}

/// Appends an offset to the group of key `k`, or opens a new group at the end.
pub open spec fn add_to_groups(g: Seq<Group>, k: GroupKey, o: usize) -> Seq<Group> {
    if has_key(g, k) {
        let j = choose|j: int| 0 <= j < g.len() && (#[trigger] g[j]).0 == k;
        g.update(j, (k, g[j].1.push(o)))
    } else {
        g.push((k, seq![o]))
    }
}

/// The duplicate groups of a sequence of well-formed rows, keys in order of first
/// appearance, each group's offsets in row order.
pub open spec fn grouped(rows: Seq<Seq<Seq<char>>>) -> Seq<Group>
    decreases rows.len(),
{
    if rows.len() == 0 {
        Seq::empty()
    } else {
        add_to_groups(grouped(rows.drop_last()), row_key(rows.last()), row_offset(rows.last()))
    }
}

pub open spec fn keys_unique(g: Seq<Group>) -> bool {
    forall|a: int, b: int| 0 <= a < b < g.len() ==> (#[trigger] g[a]).0 != (#[trigger] g[b]).0
}

pub open spec fn groups_nonempty(g: Seq<Group>) -> bool {
    forall|j: int| 0 <= j < g.len() ==> (#[trigger] g[j]).1.len() >= 1
}

/// Duplicate groups, in order of first appearance of their keys.
pub struct DuplicateMap {
    keys: IndexSet<RecordIdentifier>,
    offsets: Vec<Vec<usize>>,
}

impl View for DuplicateMap {
    type V = Seq<Group>;

    closed spec fn view(&self) -> Seq<Group> {
        Seq::new(self.offsets@.len(), |i: int| (set_keys(self.keys)[i], self.offsets@[i]@))
    }
}

impl DuplicateMap {
    /// Keys are unique and every group holds at least one offset.
    pub closed spec fn wf(&self) -> bool {
        &&& set_keys(self.keys).len() == self.offsets@.len()
        &&& self.offsets@.len() <= usize::MAX
        &&& keys_unique(self@)
        &&& groups_nonempty(self@)
    }

    fn new() -> (m: DuplicateMap)
        ensures
            m.wf(),
            m@ == Seq::<Group>::empty(),
    {
        let m = DuplicateMap { keys: empty_key_set(), offsets: Vec::new() };
        assert(m@ =~= Seq::<Group>::empty());
        m
    }

    fn add(&mut self, id: RecordIdentifier, o: usize)
        requires
            old(self).wf(),
            old(self)@.len() < usize::MAX,
        ensures
            final(self).wf(),
            final(self)@ == add_to_groups(old(self)@, id.key(), o),
    {
        let ghost g = self@;
        let ghost k = id.key();
        let (j, fresh) = insert_key(&mut self.keys, id);
        if fresh {
            let v = vec![o];
            assert(v@ =~= seq![o]);
            self.offsets.push(v);
            proof {
                if has_key(g, k) {
                    let jj = choose|jj: int| 0 <= jj < g.len() && (#[trigger] g[jj]).0 == k;
                    assert(set_keys(old(self).keys)[jj] == k);
                }
            }
            assert(self@ =~= g.push((k, seq![o])));
        } else {
            self.offsets[j].push(o);
            assert(g[j as int].0 == k);
            assert(has_key(g, k));
            let ghost c = choose|jj: int| 0 <= jj < g.len() && (#[trigger] g[jj]).0 == k;
            assert(c == j);
            assert(self@ =~= g.update(j as int, (k, g[j as int].1.push(o))));
        }
    }

    /// Keys are unique, groups are non-empty, and their number fits in `usize`.
    pub proof fn lemma_wf(&self)
        requires
            self.wf(),
        ensures
            keys_unique(self@),
            groups_nonempty(self@),
            self@.len() <= usize::MAX,
    {
    }

    /// The number of groups.
    pub fn len(&self) -> (n: usize)
        requires
            self.wf(),
        ensures
            n == self@.len(),
    {
        self.offsets.len()
    }

    /// The key of group `i`.
    pub fn key(&self, i: usize) -> (r: &RecordIdentifier)
        requires
            self.wf(),
            i < self@.len(),
        ensures
            r.key() == self@[i as int].0,
    {
        key_at(&self.keys, i)
    }

    /// The offsets of group `i`, in row order.
    pub fn offsets(&self, i: usize) -> (r: &Vec<usize>)
        requires
            self.wf(),
            i < self@.len(),
        ensures
            r@ == self@[i as int].1,
    {
        &self.offsets[i]
    }
}


// ---------------------------------------------------------------------------
// Sizes of groups

pub open spec fn total_size(g: Seq<Group>) -> nat
    decreases g.len(),
{
    if g.len() == 0 {
        0
    } else {
        total_size(g.drop_last()) + g.last().1.len()
    }
}

proof fn lemma_total_size_update(g: Seq<Group>, j: int, k: GroupKey, o: usize)
    requires
        0 <= j < g.len(),
    ensures
        total_size(g.update(j, (k, g[j].1.push(o)))) == total_size(g) + 1,
    decreases g.len(),
{
    let u = g.update(j, (k, g[j].1.push(o)));
    if j == g.len() - 1 {
        assert(u.drop_last() =~= g.drop_last());
    } else {
        assert(u.drop_last() =~= g.drop_last().update(j, (k, g[j].1.push(o))));
        lemma_total_size_update(g.drop_last(), j, k, o);
    }
}

/// The groups of any rows have unique keys, are non-empty, and hold one offset per row.
proof fn lemma_grouped_facts(rows: Seq<Seq<Seq<char>>>)
    ensures
        keys_unique(grouped(rows)),
        groups_nonempty(grouped(rows)),
        total_size(grouped(rows)) == rows.len(),
    decreases rows.len(),
{
    if rows.len() > 0 {
        let g = grouped(rows.drop_last());
        let k = row_key(rows.last());
        let o = row_offset(rows.last());
        lemma_grouped_facts(rows.drop_last());
        if has_key(g, k) {
            let j = choose|j: int| 0 <= j < g.len() && (#[trigger] g[j]).0 == k;
            lemma_total_size_update(g, j, k, o);
        } else {
            assert(g.push((k, seq![o])).drop_last() =~= g);
        }
    }
}

// ---------------------------------------------------------------------------
// Loading

#[verifier::external_type_specification]
#[verifier::external_body]
pub struct ExCsvError(csv::Error);

/// What a table reader makes of a tab-separated text with a header row: the
/// records after the header, each as its fields, or nothing where the text is not
/// a well-formed table.
pub uninterp spec fn tsv_records(text: Seq<u8>) -> Option<Seq<Seq<Seq<char>>>>;

/// Relies on csv::ReaderBuilder (tab delimiter, header row skipped) and
/// csv::Reader::records: the data records with their fields as strings, or the
/// reader's error.
#[verifier::external_body]
fn read_records(text: &[u8]) -> (r: Result<Vec<Vec<String>>, csv::Error>)
    ensures
        match r {
            Ok(rows) => tsv_records(text@) == Some(rows.deep_view()),
            Err(_) => tsv_records(text@) is None,
        },
{
    csv::ReaderBuilder::new().delimiter(b'\t').has_headers(true).from_reader(text).records().map(
        |rec| rec.map(|fields| fields.iter().map(|f| f.to_string()).collect()),
    ).collect()
}

/// Why an offset table could not be loaded. Rows are counted from 0, after the header.
pub enum IndexError {
    /// The text is not a well-formed tab-separated table.
    Table(csv::Error),
    /// A row has fewer than six columns.
    MissingColumns { row: usize },
    /// A row's sixth column is not a decimal offset that fits in `usize`.
    BadOffset { row: usize },
}

/// Summary of the duplicate groups of an offset table.
pub struct DuplicateStatistics {
    /// Number of rows (reads).
    pub total_reads: usize,
    /// Number of reads in groups of two or more.
    pub duplicate_reads: usize,
    /// Number of groups of two or more.
    pub duplicate_ids: usize,
    /// Group size to number of groups of that size; the entry for size 1 counts the
    /// singleton groups.
    pub distribution: BTreeMap<usize, usize>,
}

pub open spec fn dup_reads_of(g: Seq<Group>) -> nat
    decreases g.len(),
{
    if g.len() == 0 {
        0
    } else {
        dup_reads_of(g.drop_last()) + if g.last().1.len() > 1 {
            g.last().1.len()
        } else {
            0
        }
    }
}

pub open spec fn dup_ids_of(g: Seq<Group>) -> nat
    decreases g.len(),
{
    if g.len() == 0 {
        0
    } else {
        dup_ids_of(g.drop_last()) + if g.last().1.len() > 1 {
            1nat
        } else {
            0nat
        }
    }
}

/// Group size to number of groups of that size, for sizes above 1.
pub open spec fn dup_dist_of(g: Seq<Group>) -> Map<usize, usize>
    decreases g.len(),
{
    if g.len() == 0 {
        Map::empty()
    } else {
        let m = dup_dist_of(g.drop_last());
        let n = g.last().1.len() as usize;
        if g.last().1.len() > 1 {
            m.insert(
                n,
                if m.contains_key(n) {
                    (m[n] + 1) as usize
                } else {
                    1
                },
            )
        } else {
            m
        }
    }
}

/// The statistics of groups `g` drawn from `total` rows.
pub open spec fn stats_match(st: DuplicateStatistics, g: Seq<Group>, total: nat) -> bool {
    &&& st.total_reads == total
    &&& st.duplicate_reads == dup_reads_of(g)
    &&& st.duplicate_ids == dup_ids_of(g)
    &&& st.distribution@ == dup_dist_of(g).insert(1, (total - dup_reads_of(g)) as usize)
}

proof fn lemma_counts_bounded(g: Seq<Group>)
    requires
        g.len() <= usize::MAX,
    ensures
        dup_reads_of(g) <= total_size(g),
        dup_ids_of(g) <= g.len(),
        forall|k: usize| #[trigger] dup_dist_of(g).contains_key(k) ==> dup_dist_of(g)[k] <= dup_ids_of(g),
    decreases g.len(),
{
    if g.len() > 0 {
        let p = g.drop_last();
        lemma_counts_bounded(p);
        let m = dup_dist_of(p);
        let n = g.last().1.len() as usize;
        assert forall|k: usize| #[trigger] dup_dist_of(g).contains_key(k) implies dup_dist_of(g)[k]
            <= dup_ids_of(g) by {
            if g.last().1.len() > 1 && k == n && m.contains_key(n) {
                assert(m[n] + 1 <= usize::MAX);
            }
        }
    }
}

proof fn lemma_total_size_prefix(g: Seq<Group>, i: int)
    requires
        0 <= i <= g.len(),
    ensures
        total_size(g.take(i)) <= total_size(g),
    decreases g.len(),
{
    if i < g.len() {
        assert(g.drop_last().take(i) =~= g.take(i));
        lemma_total_size_prefix(g.drop_last(), i);
    } else {
        assert(g.take(i) =~= g);
    }
}

/// Computes the statistics of a map built from `total` rows.
fn statistics(m: &DuplicateMap, total: usize) -> (st: DuplicateStatistics)
    requires
        m.wf(),
        total == total_size(m@),
    ensures
        stats_match(st, m@, total as nat),
{
    let ghost g = m@;
    let mut duplicate_reads: usize = 0;
    let mut duplicate_ids: usize = 0;
    let mut distribution: BTreeMap<usize, usize> = BTreeMap::new();
    let n = m.len();
    let mut i: usize = 0;
    while i < n
        invariant
            m.wf(),
            g == m@,
            n == g.len(),
            i <= n,
            total == total_size(g),
            duplicate_reads == dup_reads_of(g.take(i as int)),
            duplicate_ids == dup_ids_of(g.take(i as int)),
            distribution@ == dup_dist_of(g.take(i as int)),
        decreases n - i,
    {
        let ghost t = g.take(i as int);
        let ghost t1 = g.take(i + 1);
        assert(t1.drop_last() =~= t);
        proof {
            lemma_counts_bounded(t);
            lemma_total_size_prefix(g, i + 1);
        }
        let size = m.offsets(i).len();
        if size > 1 {
            duplicate_reads = duplicate_reads + size;
            duplicate_ids = duplicate_ids + 1;
            match distribution.get(&size) {
                Some(c) => {
                    let c1 = *c + 1;
                    distribution.insert(size, c1);
                },
                None => {
                    distribution.insert(size, 1);
                },
            }
        }
        i = i + 1;
    }
    assert(g.take(n as int) =~= g);
    proof {
        lemma_counts_bounded(g);
    }
    distribution.insert(1, total - duplicate_reads);
    DuplicateStatistics { total_reads: total, duplicate_reads, duplicate_ids, distribution }
}

/// The loading of well-formed rows, or the first row that is not.
pub open spec fn index_outcome(
    rows: Seq<Seq<Seq<char>>>,
    r: &Result<(DuplicateMap, DuplicateStatistics), IndexError>,
) -> bool {
    match r {
        Ok((m, st)) => {
            &&& forall|i: int| 0 <= i < rows.len() ==> row_ok(#[trigger] rows[i])
            &&& m.wf()
            &&& m@ == grouped(rows)
            &&& stats_match(*st, m@, rows.len())
        },
        Err(IndexError::MissingColumns { row }) => {
            &&& *row < rows.len()
            &&& rows[*row as int].len() < 6
            &&& forall|i: int| 0 <= i < *row ==> row_ok(#[trigger] rows[i])
        },
        Err(IndexError::BadOffset { row }) => {
            &&& *row < rows.len()
            &&& rows[*row as int].len() >= 6
            &&& offset_value(rows[*row as int][5]) is None
            &&& forall|i: int| 0 <= i < *row ==> row_ok(#[trigger] rows[i])
        },
        Err(IndexError::Table(_)) => false,
    }
}

/// Groups the rows of an offset table (the records after its header) by their
/// (barcode, UMI) key, and summarises the groups.
pub fn index_rows(rows: &Vec<Vec<String>>) -> (r: Result<(DuplicateMap, DuplicateStatistics), IndexError>)
    ensures
        index_outcome(rows.deep_view(), &r),
{
    let ghost rv = rows.deep_view();
    let mut m = DuplicateMap::new();
    let mut i: usize = 0;
    while i < rows.len()
        invariant
            rv == rows.deep_view(),
            m.wf(),
            i <= rows.len(),
            m@ == grouped(rv.take(i as int)),
            forall|j: int| 0 <= j < i ==> row_ok(#[trigger] rv[j]),
        decreases rows.len() - i,
    {
        let row = &rows[i];
        assert(rv[i as int] == row.deep_view());
        assert(rv[i as int].len() == row@.len());
        if row.len() < MIN_COLUMNS {
            return Err(IndexError::MissingColumns { row: i });
        }
        assert(rv[i as int][5] == row@[5]@);
        let offset = match parse_offset(row[5].as_str()) {
            Some(o) => o,
            None => {
                return Err(IndexError::BadOffset { row: i });
            },
        };
        assert(rv[i as int][1] == row@[1]@);
        assert(rv[i as int][4] == row@[4]@);
        let id = RecordIdentifier { bc: row[1].clone(), umi: row[4].clone() };
        proof {
            lemma_grouped_facts(rv.take(i as int));
            lemma_groups_le_total(m@);
        }
        m.add(id, offset);
        assert(rv.take(i + 1).drop_last() =~= rv.take(i as int));
        i = i + 1;
    }
    assert(rv.take(i as int) =~= rv);
    proof {
        lemma_grouped_facts(rv);
    }
    let st = statistics(&m, rows.len());
    Ok((m, st))
}

/// Loads an offset table: a tab-separated text with a header row, whose data rows
/// hold the barcode in their second column, the UMI in their fifth and the read's
/// byte offset in their sixth. Rows are grouped by (barcode, UMI) in order of first
/// appearance.
pub fn get_duplicates(index: &[u8]) -> (r: Result<(DuplicateMap, DuplicateStatistics), IndexError>)
    ensures
        match tsv_records(index@) {
            None => r matches Err(IndexError::Table(_)),
            Some(rows) => index_outcome(rows, &r),
        },
{
    match read_records(index) {
        Ok(rows) => index_rows(&rows),
        Err(e) => Err(IndexError::Table(e)),
    }
}


// ---------------------------------------------------------------------------
// Laws of the statistics

/// The part of a distribution entry that a sum takes: its count, or its count times
/// its size.
pub open spec fn entry_term(m: Map<usize, usize>, k: nat, weighted: bool) -> nat {
    if m.contains_key(k as usize) {
        if weighted {
            k * (m[k as usize] as nat)
        } else {
            m[k as usize] as nat
        }
    } else {
        0
    }
}

/// Sum of the entries for sizes 1 to `b`, each weighted by its size or not.
pub open spec fn dist_sum(m: Map<usize, usize>, b: nat, weighted: bool) -> nat
    decreases b,
{
    if b == 0 {
        0
    } else {
        dist_sum(m, (b - 1) as nat, weighted) + entry_term(m, b, weighted)
    }
}

proof fn lemma_dist_sum_insert(m: Map<usize, usize>, b: nat, k: usize, v: usize, weighted: bool)
    requires
        b <= usize::MAX,
        1 <= k,
    ensures
        k <= b ==> dist_sum(m.insert(k, v), b, weighted) + entry_term(m, k as nat, weighted)
            == dist_sum(m, b, weighted) + entry_term(m.insert(k, v), k as nat, weighted),
        k > b ==> dist_sum(m.insert(k, v), b, weighted) == dist_sum(m, b, weighted),
    decreases b,
{
    if b > 0 {
        lemma_dist_sum_insert(m, (b - 1) as nat, k, v, weighted);
        if b != k as nat {
            assert((b as usize) != k);
            assert(entry_term(m.insert(k, v), b, weighted) == entry_term(m, b, weighted));
        }
    }
}

proof fn lemma_dup_dist_keys(g: Seq<Group>)
    requires
        total_size(g) <= usize::MAX,
    ensures
        forall|k: usize| #[trigger] dup_dist_of(g).contains_key(k) ==> 2 <= k <= total_size(g),
    decreases g.len(),
{
    if g.len() > 0 {
        let p = g.drop_last();
        lemma_dup_dist_keys(p);
        let n = g.last().1.len() as usize;
        assert(n as nat == g.last().1.len());
        assert forall|k: usize| #[trigger] dup_dist_of(g).contains_key(k) implies 2 <= k <= total_size(
            g,
        ) by {
            if k != n || g.last().1.len() <= 1 {
                assert(dup_dist_of(p).contains_key(k));
            }
        }
    }
}

proof fn lemma_dup_dist_sums(g: Seq<Group>, b: nat)
    requires
        g.len() <= usize::MAX,
        total_size(g) <= usize::MAX,
        b <= usize::MAX,
        forall|k: usize| #[trigger] dup_dist_of(g).contains_key(k) ==> k <= b,
    ensures
        dist_sum(dup_dist_of(g), b, true) == dup_reads_of(g),
        dist_sum(dup_dist_of(g), b, false) == dup_ids_of(g),
    decreases g.len(),
{
    if g.len() == 0 {
        lemma_dist_sum_empty(b);
    } else {
        let p = g.drop_last();
        let m = dup_dist_of(p);
        let n = g.last().1.len() as usize;
        if g.last().1.len() > 1 {
            assert(dup_dist_of(g).contains_key(n));
            assert forall|k: usize| #[trigger] m.contains_key(k) implies k <= b by {
                assert(dup_dist_of(g).contains_key(k));
            }
            lemma_dup_dist_sums(p, b);
            lemma_counts_bounded(p);
            let v: usize = if m.contains_key(n) {
                (m[n] + 1) as usize
            } else {
                1
            };
            lemma_dist_sum_insert(m, b, n, v, true);
            lemma_dist_sum_insert(m, b, n, v, false);
            assert(n as nat == g.last().1.len());
            if m.contains_key(n) {
                assert(m[n] + 1 <= usize::MAX);
                assert(n * (m[n] + 1) == n * m[n] + n) by (nonlinear_arith);
                assert(entry_term(m.insert(n, v), n as nat, true) == n * (m[n] + 1));
                assert(entry_term(m, n as nat, true) == n * m[n]);
            } else {
                assert(entry_term(m.insert(n, v), n as nat, true) == n * 1);
                assert(entry_term(m, n as nat, true) == 0);
            }
        } else {
            lemma_dup_dist_sums(p, b);
        }
    }
}

proof fn lemma_dist_sum_empty(b: nat)
    ensures
        dist_sum(Map::<usize, usize>::empty(), b, true) == 0,
        dist_sum(Map::<usize, usize>::empty(), b, false) == 0,
    decreases b,
{
    if b > 0 {
        lemma_dist_sum_empty((b - 1) as nat);
    }
}

/// Over the groups of any offset table: the distribution's entries, each weighted by
/// its size, sum to the number of reads; without the entry for size 1 they sum to
/// the number of duplicate groups, and weighted by size to the number of duplicate
/// reads. Every size in the distribution lies between 1 and the number of reads,
/// but for an entry of 0 singletons in an empty table.
pub proof fn lemma_distribution_sums(
    rows: Seq<Seq<Seq<char>>>,
    m: DuplicateMap,
    st: DuplicateStatistics,
)
    requires
        rows.len() <= usize::MAX,
        m@ == grouped(rows),
        stats_match(st, m@, rows.len()),
    ensures
        forall|k: usize| #[trigger] st.distribution@.contains_key(k) ==> 1 <= k && (k
            <= st.total_reads || st.distribution@[k] == 0),
        dist_sum(st.distribution@, st.total_reads as nat, true) == st.total_reads,
        dist_sum(st.distribution@.remove(1), st.total_reads as nat, false) == st.duplicate_ids,
        dist_sum(st.distribution@.remove(1), st.total_reads as nat, true) == st.duplicate_reads,
{
    let g = grouped(rows);
    let t = rows.len();
    lemma_grouped_facts(rows);
    assert(g.len() <= t) by {
        lemma_groups_le_total(g);
    }
    lemma_counts_bounded(g);
    lemma_dup_dist_keys(g);
    let dd = dup_dist_of(g);
    lemma_dup_dist_sums(g, t);
    assert(st.distribution@.remove(1) =~= dd);
    lemma_dist_sum_insert(dd, t, 1, (t - dup_reads_of(g)) as usize, true);
}

proof fn lemma_groups_le_total(g: Seq<Group>)
    requires
        groups_nonempty(g),
    ensures
        g.len() <= total_size(g),
    decreases g.len(),
{
    if g.len() > 0 {
        assert(groups_nonempty(g.drop_last())) by {
            assert forall|j: int| 0 <= j < g.drop_last().len() implies (#[trigger] g.drop_last()[j]).1.len()
                >= 1 by {
                assert(g.drop_last()[j] == g[j]);
            }
        }
        assert(g.last() == g[g.len() - 1]);
        lemma_groups_le_total(g.drop_last());
    }
}

proof fn lemma_keys_of_grouped(rows: Seq<Seq<Seq<char>>>, k: GroupKey)
    ensures
        has_key(grouped(rows), k) <==> exists|i: int| 0 <= i < rows.len() && row_key(#[trigger] rows[i]) == k,
    decreases rows.len(),
{
    if rows.len() > 0 {
        let p = rows.drop_last();
        let g = grouped(p);
        let k2 = row_key(rows.last());
        let o = row_offset(rows.last());
        lemma_keys_of_grouped(p, k);
        let u = grouped(rows);
        if has_key(g, k2) {
            let j = choose|j: int| 0 <= j < g.len() && (#[trigger] g[j]).0 == k2;
            if has_key(g, k) {
                let a = choose|a: int| 0 <= a < g.len() && (#[trigger] g[a]).0 == k;
                assert(u[a].0 == k);
            }
            if has_key(u, k) {
                let a = choose|a: int| 0 <= a < u.len() && (#[trigger] u[a]).0 == k;
                assert(g[a].0 == k);
            }
        } else {
            if has_key(g, k) {
                let a = choose|a: int| 0 <= a < g.len() && (#[trigger] g[a]).0 == k;
                assert(u[a].0 == k);
            }
            assert(u[u.len() - 1].0 == k2);
            if has_key(u, k) {
                let a = choose|a: int| 0 <= a < u.len() && (#[trigger] u[a]).0 == k;
                if a < g.len() {
                    assert(g[a].0 == k);
                }
            }
        }
        if exists|i: int| 0 <= i < rows.len() && row_key(#[trigger] rows[i]) == k {
            let i = choose|i: int| 0 <= i < rows.len() && row_key(#[trigger] rows[i]) == k;
            if i < p.len() {
                assert(p[i] == rows[i]);
            }
        }
        if exists|i: int| 0 <= i < p.len() && row_key(#[trigger] p[i]) == k {
            let i = choose|i: int| 0 <= i < p.len() && row_key(#[trigger] p[i]) == k;
            assert(p[i] == rows[i]);
        }
        assert(rows.last() == rows[rows.len() - 1]);
    }
}

pub open spec fn all_singletons(g: Seq<Group>) -> bool {
    forall|j: int| 0 <= j < g.len() ==> (#[trigger] g[j]).1.len() == 1
}

proof fn lemma_distinct_rows_singletons(rows: Seq<Seq<Seq<char>>>)
    requires
        forall|a: int, b: int| 0 <= a < b < rows.len() ==> row_key(#[trigger] rows[a]) != row_key(#[trigger] rows[b]),
    ensures
        all_singletons(grouped(rows)),
    decreases rows.len(),
{
    if rows.len() > 0 {
        let p = rows.drop_last();
        assert forall|a: int, b: int| 0 <= a < b < p.len() implies row_key(#[trigger] p[a]) != row_key(#[trigger] p[b]) by {
            assert(p[a] == rows[a] && p[b] == rows[b]);
        }
        lemma_distinct_rows_singletons(p);
        let k2 = row_key(rows.last());
        lemma_keys_of_grouped(p, k2);
        if exists|i: int| 0 <= i < p.len() && row_key(#[trigger] p[i]) == k2 {
            let i = choose|i: int| 0 <= i < p.len() && row_key(#[trigger] p[i]) == k2;
            assert(p[i] == rows[i]);
            assert(rows.last() == rows[rows.len() - 1]);
        }
        let g = grouped(p);
        let u = grouped(rows);
        assert(u == g.push((k2, seq![row_offset(rows.last())])));
        assert forall|j: int| 0 <= j < u.len() implies (#[trigger] u[j]).1.len() == 1 by {
            if j < g.len() {
                assert(u[j] == g[j]);
            }
        }
    }
}

proof fn lemma_singletons_counts(g: Seq<Group>)
    requires
        all_singletons(g),
    ensures
        dup_reads_of(g) == 0,
        dup_ids_of(g) == 0,
        dup_dist_of(g) == Map::<usize, usize>::empty(),
    decreases g.len(),
{
    if g.len() > 0 {
        assert(all_singletons(g.drop_last())) by {
            assert forall|j: int| 0 <= j < g.drop_last().len() implies (#[trigger] g.drop_last()[j]).1.len()
                == 1 by {
                assert(g.drop_last()[j] == g[j]);
            }
        }
        assert(g.last() == g[g.len() - 1]);
        lemma_singletons_counts(g.drop_last());
    }
}

/// An offset table whose rows all carry different keys has no duplicates: no
/// duplicate reads, no duplicate groups, and a distribution of one entry, size 1
/// for all its rows.
pub proof fn lemma_no_duplicate_keys(rows: Seq<Seq<Seq<char>>>, m: DuplicateMap, st: DuplicateStatistics)
    requires
        forall|a: int, b: int| 0 <= a < b < rows.len() ==> row_key(#[trigger] rows[a]) != row_key(#[trigger] rows[b]),
        m@ == grouped(rows),
        stats_match(st, m@, rows.len()),
    ensures
        st.duplicate_reads == 0,
        st.duplicate_ids == 0,
        st.distribution@ == Map::<usize, usize>::empty().insert(1, st.total_reads),
{
    lemma_distinct_rows_singletons(rows);
    lemma_singletons_counts(grouped(rows));
}

} // verus!
