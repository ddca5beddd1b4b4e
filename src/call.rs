use crate::duplicates::{DuplicateMap, Group, GroupKey, RecordIdentifier};
use vstd::prelude::*;

verus! {

// ---------------------------------------------------------------------------
// Which groups are processed

/// Positions of the groups to process, in map order: all of them, or with
/// `duplicates_only` those of more than one read.
pub open spec fn selected(g: Seq<Group>, duplicates_only: bool) -> Seq<usize>
    decreases g.len(),
{
    if g.len() == 0 {
        Seq::empty()
    } else if duplicates_only && g.last().1.len() == 1 {
        selected(g.drop_last(), duplicates_only)
    } else {
        selected(g.drop_last(), duplicates_only).push((g.len() - 1) as usize)
    }
}

/// The positions of the groups that are fetched and emitted, in map order.
pub fn selected_groups(map: &DuplicateMap, duplicates_only: bool) -> (r: Vec<usize>)
    requires
        map.wf(),
    ensures
        r@ == selected(map@, duplicates_only),
{
    let n = map.len();
    let mut r: Vec<usize> = Vec::new();
    let mut i: usize = 0;
    while i < n
        invariant
            map.wf(),
            n == map@.len(),
            i <= n,
            r@ == selected(map@.take(i as int), duplicates_only),
        decreases n - i,
    {
        let ghost t1 = map@.take(i + 1);
        assert(t1.drop_last() =~= map@.take(i as int));
        if !(duplicates_only && map.offsets(i).len() == 1) {
            r.push(i);
        }
        i = i + 1;
    }
    assert(map@.take(n as int) =~= map@);
    r
}

/// With `duplicates_only`, every selected group holds more than one read.
pub proof fn lemma_selected_are_duplicates(g: Seq<Group>)
    requires
        g.len() <= usize::MAX,
        forall|j: int| 0 <= j < g.len() ==> (#[trigger] g[j]).1.len() >= 1,
    ensures
        forall|t: int|
            0 <= t < selected(g, true).len() ==> selected(g, true)[t] < g.len() && g[selected(
                g,
                true,
            )[t] as int].1.len() > 1,
    decreases g.len(),
{
    if g.len() > 0 {
        let p = g.drop_last();
        assert forall|j: int| 0 <= j < p.len() implies (#[trigger] p[j]).1.len() >= 1 by {
            assert(p[j] == g[j]);
        }
        lemma_selected_are_duplicates(p);
        let s = selected(g, true);
        let sp = selected(p, true);
        assert forall|t: int| 0 <= t < s.len() implies s[t] < g.len() && g[s[t] as int].1.len()
            > 1 by {
            assert(g.last() == g[g.len() - 1]);
            if g.last().1.len() == 1 {
                assert(s == sp);
                assert(p[sp[t] as int] == g[sp[t] as int]);
            } else if t < sp.len() {
                assert(s[t] == sp[t]);
                assert(p[sp[t] as int] == g[sp[t] as int]);
            } else {
                assert(s[t] == (g.len() - 1) as usize);
            }
        }
    }
}

// ---------------------------------------------------------------------------
// Fetched groups

/// A read fetched from the sequence file.
pub struct SequenceRecord {
    pub id: String,
    pub seq: String,
    pub qual: Vec<u8>,
}

/// A group's key with its reads, in the order of the group's offsets.
pub struct GroupBundle {
    pub id: RecordIdentifier,
    pub records: Vec<SequenceRecord>,
}

/// The sequences of some reads, in order.
pub open spec fn seqs_of(rs: Seq<SequenceRecord>) -> Seq<Seq<char>> {
    rs.map_values(|r: SequenceRecord| r.seq@)
}

// ---------------------------------------------------------------------------
// Output text

pub open spec fn digit_char(d: nat) -> char {
    if d == 0 {
        '0'
    } else if d == 1 {
        '1'
    } else if d == 2 {
        '2'
    } else if d == 3 {
        '3'
    } else if d == 4 {
        '4'
    } else if d == 5 {
        '5'
    } else if d == 6 {
        '6'
    } else if d == 7 {
        '7'
    } else if d == 8 {
        '8'
    } else {
        '9'
    }
}

/// A number in decimal, without leading zeros.
pub open spec fn decimal_text(n: nat) -> Seq<char>
    decreases n,
{
    if n < 10 {
        seq![digit_char(n)]
    } else {
        decimal_text(n / 10).push(digit_char(n % 10))
    }
}

/// `>{barcode}_{umi}_`
pub open spec fn header(k: GroupKey) -> Seq<char> {
    seq!['>'] + k.0 + seq!['_'] + k.1 + seq!['_']
}

/// The record of a group of one read.
pub open spec fn singleton_text(k: GroupKey, s: Seq<char>) -> Seq<char> {
    header(k) + seq!['S', 'I', 'N', '\n'] + s + seq!['\n']
}

/// The record of original member `i` of `n`.
pub open spec fn original_text(k: GroupKey, i: nat, n: nat, s: Seq<char>) -> Seq<char> {
    header(k) + seq!['D', 'U', 'P', '_'] + decimal_text(i) + seq!['_', 'o', 'f', '_']
        + decimal_text(n) + seq!['\n'] + s + seq!['\n']
}

/// The consensus record of a group of `n` reads.
pub open spec fn consensus_text(k: GroupKey, n: nat, c: Seq<char>) -> Seq<char> {
    header(k) + seq!['C', 'O', 'N', '_'] + decimal_text(n) + seq!['\n'] + c + seq!['\n']
}

/// The records of the members `seqs`, numbered from 1, out of `n`.
pub open spec fn originals_text(k: GroupKey, seqs: Seq<Seq<char>>, n: nat) -> Seq<char>
    decreases seqs.len(),
{
    if seqs.len() == 0 {
        Seq::empty()
    } else {
        originals_text(k, seqs.drop_last(), n) + original_text(k, seqs.len(), n, seqs.last())
    }
}

/// The whole output of one group: the lone read tagged `SIN`; or, for several reads,
/// the originals when asked for, then the consensus tagged `CON_{n}`.
pub open spec fn block_text(k: GroupKey, seqs: Seq<Seq<char>>, c: Seq<char>, originals: bool) -> Seq<
    char,
> {
    if seqs.len() == 1 {
        singleton_text(k, seqs[0])
    } else if originals {
        originals_text(k, seqs, seqs.len()) + consensus_text(k, seqs.len(), c)
    } else {
        consensus_text(k, seqs.len(), c)
    }
}

fn push_digit(s: &mut String, d: usize)
    requires
        d < 10,
    ensures
        final(s)@ == old(s)@.push(digit_char(d as nat)),
{
    let t: &str = if d == 0 {
        proof { reveal_strlit("0"); }
        "0"
    } else if d == 1 {
        proof { reveal_strlit("1"); }
        "1"
    } else if d == 2 {
        proof { reveal_strlit("2"); }
        "2"
    } else if d == 3 {
        proof { reveal_strlit("3"); }
        "3"
    } else if d == 4 {
        proof { reveal_strlit("4"); }
        "4"
    } else if d == 5 {
        proof { reveal_strlit("5"); }
        "5"
    } else if d == 6 {
        proof { reveal_strlit("6"); }
        "6"
    } else if d == 7 {
        proof { reveal_strlit("7"); }
        "7"
    } else if d == 8 {
        proof { reveal_strlit("8"); }
        "8"
    } else {
        proof { reveal_strlit("9"); }
        "9"
    };
    assert(t@ =~= seq![digit_char(d as nat)]);
    s.append(t);
    assert(final(s)@ =~= old(s)@.push(digit_char(d as nat)));
}

fn push_decimal(s: &mut String, n: usize)
    ensures
        final(s)@ == old(s)@ + decimal_text(n as nat),
    decreases n,
{
    if n >= 10 {
        push_decimal(s, n / 10);
    }
    push_digit(s, n % 10);
    assert(final(s)@ =~= old(s)@ + decimal_text(n as nat));
}

fn push_header(s: &mut String, id: &RecordIdentifier)
    ensures
        final(s)@ == old(s)@ + header(id.key()),
{
    proof { reveal_strlit(">"); reveal_strlit("_"); }
    s.append(">");
    s.append(id.bc.as_str());
    s.append("_");
    s.append(id.umi.as_str());
    s.append("_");
    assert(final(s)@ =~= old(s)@ + header(id.key()));
}

/// The record of a group of one read.
pub fn singleton_block(id: &RecordIdentifier, seq: &str) -> (r: String)
    ensures
        r@ == singleton_text(id.key(), seq@),
{
    let mut s = String::new();
    push_header(&mut s, id);
    proof { reveal_strlit("SIN\n"); reveal_strlit("\n"); }
    s.append("SIN\n");
    s.append(seq);
    s.append("\n");
    assert(s@ =~= singleton_text(id.key(), seq@));
    s
}

fn push_original(s: &mut String, id: &RecordIdentifier, i: usize, n: usize, seq: &str)
    ensures
        final(s)@ == old(s)@ + original_text(id.key(), i as nat, n as nat, seq@),
{
    push_header(s, id);
    proof { reveal_strlit("DUP_"); reveal_strlit("_of_"); reveal_strlit("\n"); }
    s.append("DUP_");
    push_decimal(s, i);
    s.append("_of_");
    push_decimal(s, n);
    s.append("\n");
    s.append(seq);
    s.append("\n");
    assert(final(s)@ =~= old(s)@ + original_text(id.key(), i as nat, n as nat, seq@));
}

/// The records of a group of several reads: with `output_originals`, each member
/// numbered `DUP_{i}_of_{n}` in fetch order, then the consensus tagged `CON_{n}`.
pub fn consensus_block(
    id: &RecordIdentifier,
    records: &Vec<SequenceRecord>,
    consensus: &str,
    output_originals: bool,
) -> (r: String)
    ensures
        r@ == (if output_originals {
            originals_text(id.key(), seqs_of(records@), records@.len())
        } else {
            Seq::empty()
        }) + consensus_text(id.key(), records@.len(), consensus@),
{
    let ghost sv = seqs_of(records@);
    let n = records.len();
    let mut s = String::new();
    if output_originals {
        let mut i: usize = 0;
        while i < n
            invariant
                sv == seqs_of(records@),
                n == records@.len(),
                i <= n,
                s@ == originals_text(id.key(), sv.take(i as int), n as nat),
            decreases n - i,
        {
            assert(sv.take(i + 1).drop_last() =~= sv.take(i as int));
            assert(sv.take(i + 1).last() == records@[i as int].seq@);
            push_original(&mut s, id, i + 1, n, records[i].seq.as_str());
            i = i + 1;
        }
        assert(sv.take(n as int) =~= sv);
    }
    push_header(&mut s, id);
    proof { reveal_strlit("CON_"); reveal_strlit("\n"); }
    s.append("CON_");
    push_decimal(&mut s, n);
    s.append("\n");
    s.append(consensus);
    s.append("\n");
    let ghost pre = if output_originals {
        originals_text(id.key(), sv, n as nat)
    } else {
        Seq::empty()
    };
    assert(s@ =~= pre + consensus_text(id.key(), n as nat, consensus@));
    s
}

impl GroupBundle {
    /// Whether the group holds several reads, whose consensus must be computed.
    pub fn needs_consensus(&self) -> (r: bool)
        ensures
            r == (self.records@.len() > 1),
    {
        self.records.len() > 1
    }

    /// The group's whole output, given the consensus of its reads (not read for a
    /// group of one read).
    pub fn render(&self, consensus: &str, output_originals: bool) -> (r: String)
        requires
            self.records@.len() >= 1,
        ensures
            r@ == block_text(self.id.key(), seqs_of(self.records@), consensus@, output_originals),
    {
        if self.records.len() == 1 {
            singleton_block(&self.id, self.records[0].seq.as_str())
        } else {
            consensus_block(&self.id, &self.records, consensus, output_originals)
        }
    }
}

/// With `duplicates_only`, no processed group yields a record tagged `SIN`: every
/// selected group holds more than one read, so a bundle of its reads renders as
/// originals (when asked for) followed by its consensus record.
pub proof fn lemma_duplicates_only_no_singletons(
    m: DuplicateMap,
    t: int,
    b: GroupBundle,
    c: Seq<char>,
    originals: bool,
)
    requires
        m.wf(),
        0 <= t < selected(m@, true).len(),
        b.records@.len() == m@[selected(m@, true)[t] as int].1.len(),
    ensures
        b.records@.len() > 1,
        block_text(b.id.key(), seqs_of(b.records@), c, originals) == (if originals {
            originals_text(b.id.key(), seqs_of(b.records@), b.records@.len())
        } else {
            Seq::empty()
        }) + consensus_text(b.id.key(), b.records@.len(), c),
{
    m.lemma_wf();
    lemma_selected_are_duplicates(m@);
    if !originals {
        assert(Seq::<char>::empty() + consensus_text(b.id.key(), b.records@.len(), c)
            =~= consensus_text(b.id.key(), b.records@.len(), c));
    }
}

} // verus!
