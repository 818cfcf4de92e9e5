//! Per-key statistics tables, folding chunks into a worker's private
//! table, and reducing many worker tables into one final table.
//!
//! A table is an association list from key to its exact accumulator,
//! together with the (ghost) sequence of records it was built from. The
//! well-formedness invariant ties every entry to the exact statistics of
//! that key's values among the records, and says a key has an entry
//! exactly when it occurs in a record.
use vstd::prelude::*;
use crate::chunker::nl;
use crate::parse::LineModel;
use crate::parse::Parsed;
use crate::parse::lemma_lines_concat;
use crate::parse::lines_of;
use crate::parse::parse_line;
use crate::parse::parse_line_spec;
use crate::parse::split_lines;
use crate::parse::views_of;
use crate::stats::Stat;
use crate::stats::StatModel;
use crate::stats::fits_value;
use crate::stats::identity_model;
use crate::stats::lemma_stat_of_concat;
use crate::stats::lemma_stat_of_exact;
use crate::stats::lemma_stat_of_wf;
use crate::stats::model_wf;
use crate::stats::push_model;
use crate::stats::stat_of;

verus! {

/// The valid records among a sequence of lines: each line that parses,
/// as a key and a value in tenths, in input order.
pub open spec fn records_of_lines(ls: Seq<Seq<u8>>) -> Seq<(Seq<u8>, int)>
    decreases ls.len(),
{
    if ls.len() == 0 {
        Seq::empty()
    } else {
        records_of_lines(ls.drop_last()) + (match parse_line_spec(ls.last()) {
            LineModel::Rec { key, tenths } => seq![(key, tenths)],
            LineModel::Skip { .. } => Seq::empty(),
        })
    }
}

/// How many of the lines are skipped rather than parsed.
pub open spec fn skipped_of_lines(ls: Seq<Seq<u8>>) -> int
    decreases ls.len(),
{
    if ls.len() == 0 {
        0
    } else {
        skipped_of_lines(ls.drop_last()) + (match parse_line_spec(ls.last()) {
            LineModel::Rec { .. } => 0int,
            LineModel::Skip { .. } => 1int,
        })
    }
}

/// The valid records of one line-aligned chunk.
pub open spec fn records_of_chunk(chunk: Seq<u8>) -> Seq<(Seq<u8>, int)> {
    records_of_lines(lines_of(chunk))
}

/// Every line is either one record or one skip: the two counts partition
/// the lines.
pub proof fn lemma_line_partition(ls: Seq<Seq<u8>>)
    ensures
        records_of_lines(ls).len() + skipped_of_lines(ls) == ls.len(),
        0 <= skipped_of_lines(ls) <= ls.len(),
        records_of_lines(ls).len() <= ls.len(),
    decreases ls.len(),
{
    if ls.len() > 0 {
        lemma_line_partition(ls.drop_last());
    }
}

/// Every record's value fits the accumulator's representation.
pub proof fn lemma_records_fit(ls: Seq<Seq<u8>>)
    ensures
        forall|i: int|
            0 <= i < records_of_lines(ls).len() ==> fits_value(
                (#[trigger] records_of_lines(ls)[i]).1,
            ),
    decreases ls.len(),
{
    if ls.len() > 0 {
        lemma_records_fit(ls.drop_last());
        let pre = records_of_lines(ls.drop_last());
        match parse_line_spec(ls.last()) {
            LineModel::Rec { key, tenths } => {
                let l = crate::parse::strip_cr(ls.last());
                let j = l.index_of_first(59u8).unwrap();
                crate::parse::lemma_value_fits(l.skip(j + 1));
                assert(fits_value(tenths));
                assert forall|i: int| 0 <= i < records_of_lines(ls).len() implies fits_value(
                    (#[trigger] records_of_lines(ls)[i]).1,
                ) by {
                    if i < pre.len() {
                        assert(records_of_lines(ls)[i] == pre[i]);
                    } else {
                        assert(records_of_lines(ls)[i] == (key, tenths));
                    }
                }
            },
            LineModel::Skip { .. } => {
                assert(records_of_lines(ls) =~= pre);
            },
        }
    }
}

/// Records and skip counts accumulate chunk by chunk.
pub proof fn lemma_records_concat(a: Seq<Seq<u8>>, b: Seq<Seq<u8>>)
    ensures
        records_of_lines(a + b) == records_of_lines(a) + records_of_lines(b),
        skipped_of_lines(a + b) == skipped_of_lines(a) + skipped_of_lines(b),
    decreases b.len(),
{
    if b.len() == 0 {
        assert(a + b =~= a);
        assert(records_of_lines(a) + records_of_lines(b) =~= records_of_lines(a));
    } else {
        lemma_records_concat(a, b.drop_last());
        assert((a + b).drop_last() =~= a + b.drop_last());
        assert((a + b).last() == b.last());
        match parse_line_spec(b.last()) {
            LineModel::Rec { key, tenths } => {
                assert((records_of_lines(a) + records_of_lines(b.drop_last())) + seq![
                    (key, tenths),
                ] =~= records_of_lines(a) + (records_of_lines(b.drop_last()) + seq![
                    (key, tenths),
                ]));
            },
            LineModel::Skip { .. } => {
                assert(records_of_lines(a + b) =~= records_of_lines(a) + records_of_lines(b));
            },
        }
    }
}

/// The values carried by the records of one key, in input order.
pub open spec fn key_vals(recs: Seq<(Seq<u8>, int)>, k: Seq<u8>) -> Seq<int>
    decreases recs.len(),
{
    if recs.len() == 0 {
        Seq::empty()
    } else {
        key_vals(recs.drop_last(), k) + (if recs.last().0 == k {
            seq![recs.last().1]
        } else {
            Seq::empty()
        })
    }
}

/// A key never has more values than there are records, and each of its
/// values is one of the records' values.
pub proof fn lemma_key_vals_len(recs: Seq<(Seq<u8>, int)>, k: Seq<u8>)
    ensures
        key_vals(recs, k).len() <= recs.len(),
        (forall|i: int| 0 <= i < recs.len() ==> fits_value((#[trigger] recs[i]).1)) ==> (forall|
            i: int,
        | 0 <= i < key_vals(recs, k).len() ==> fits_value(#[trigger] key_vals(recs, k)[i])),
    decreases recs.len(),
{
    if recs.len() > 0 {
        lemma_key_vals_len(recs.drop_last(), k);
        assert(forall|i: int| 0 <= i < recs.len() - 1 ==> recs.drop_last()[i] == #[trigger] recs[i]);
    }
}

/// Splitting the records anywhere splits each key's values the same way.
pub proof fn lemma_key_vals_concat(a: Seq<(Seq<u8>, int)>, b: Seq<(Seq<u8>, int)>, k: Seq<u8>)
    ensures
        key_vals(a + b, k) == key_vals(a, k) + key_vals(b, k),
    decreases b.len(),
{
    if b.len() == 0 {
        assert(a + b =~= a);
        assert(key_vals(a, k) + key_vals(b, k) =~= key_vals(a, k));
    } else {
        lemma_key_vals_concat(a, b.drop_last(), k);
        assert((a + b).drop_last() =~= a + b.drop_last());
        assert((a + b).last() == b.last());
        assert(key_vals(a + b, k) =~= key_vals(a, k) + key_vals(b, k));
    }
}

/// Appending one record extends exactly the values of its own key.
pub proof fn lemma_key_vals_push(recs: Seq<(Seq<u8>, int)>, r: (Seq<u8>, int), k: Seq<u8>)
    ensures
        key_vals(recs.push(r), k) == if r.0 == k {
            key_vals(recs, k).push(r.1)
        } else {
            key_vals(recs, k)
        },
{
    assert(recs.push(r).drop_last() =~= recs);
    assert(recs.push(r).last() == r);
    if r.0 == k {
        assert(key_vals(recs, k) + seq![r.1] =~= key_vals(recs, k).push(r.1));
    } else {
        assert(key_vals(recs, k) + Seq::<int>::empty() =~= key_vals(recs, k));
    }
}

/// A sequence of records the table representation can hold.
pub open spec fn recs_wf(recs: Seq<(Seq<u8>, int)>) -> bool {
    &&& recs.len() <= u64::MAX
    &&& forall|i: int| 0 <= i < recs.len() ==> fits_value((#[trigger] recs[i]).1)
}

fn bytes_eq(a: &Vec<u8>, b: &Vec<u8>) -> (r: bool)
    ensures
        r == (a@ == b@),
{
    if a.len() != b.len() {
        return false;
    }
    let mut i: usize = 0;
    while i < a.len()
        invariant
            i <= a@.len() == b@.len(),
            forall|k: int| 0 <= k < i ==> a@[k] == b@[k],
        decreases a@.len() - i,
    {
        if a[i] != b[i] {
            return false;
        }
        i = i + 1;
    }
    proof {
        assert(a@ =~= b@);
    }
    true
}

fn find_in(keys: &Vec<Vec<u8>>, key: &Vec<u8>) -> (r: Option<usize>)
    ensures
        match r {
            Some(i) => i < keys@.len() && keys@[i as int]@ == key@,
            None => forall|i: int| 0 <= i < keys@.len() ==> (#[trigger] keys@[i])@ != key@,
        },
{
    let mut i: usize = 0;
    while i < keys.len()
        invariant
            i <= keys@.len(),
            forall|k: int| 0 <= k < i ==> (#[trigger] keys@[k])@ != key@,
        decreases keys@.len() - i,
    {
        if bytes_eq(&keys[i], key) {
            return Some(i);
        }
        i = i + 1;
    }
    None
}

/// A mapping from key to the exact statistics of that key's values among
/// the records folded in so far.
pub struct StatsTable {
    keys: Vec<Vec<u8>>,
    stats: Vec<Stat>,
    records: Ghost<Seq<(Seq<u8>, int)>>,
}

impl StatsTable {
    /// The records this table was built from, in input order.
    pub closed spec fn records(self) -> Seq<(Seq<u8>, int)> {
        self.records@
    }

    /// The keys of the table's entries.
    pub closed spec fn key_views(self) -> Seq<Seq<u8>> {
        views_of(self.keys@)
    }

    /// The accumulator models of the table's entries.
    pub closed spec fn stat_models(self) -> Seq<StatModel> {
        self.stats@.map_values(|s: Stat| s@)
    }

    /// The table is exactly the per-key statistics of its records: one
    /// entry for each key that occurs, holding the exact statistics of
    /// that key's values.
    pub closed spec fn wf(self) -> bool {
        &&& self.keys@.len() == self.stats@.len()
        &&& recs_wf(self.records@)
        &&& forall|i: int, j: int|
            0 <= i < j < self.keys@.len() ==> (#[trigger] self.keys@[i])@ != (
            #[trigger] self.keys@[j])@
        &&& forall|i: int|
            0 <= i < self.keys@.len() ==> (#[trigger] self.stats@[i])@ == stat_of(
                key_vals(self.records@, self.keys@[i]@),
            )
        &&& forall|i: int| 0 <= i < self.keys@.len() ==> (#[trigger] self.stats@[i]).wf()
        &&& forall|i: int|
            0 <= i < self.keys@.len() ==> key_vals(self.records@, (#[trigger] self.keys@[i])@).len()
                > 0
        &&& forall|k: Seq<u8>|
            #[trigger] key_vals(self.records@, k).len() > 0 ==> exists|i: int|
                0 <= i < self.keys@.len() && (#[trigger] self.keys@[i])@ == k
    }

    /// An empty table: no records, no entries.
    pub fn new() -> (r: StatsTable)
        ensures
            r.wf(),
            r.records() == Seq::<(Seq<u8>, int)>::empty(),
            r.key_views() == Seq::<Seq<u8>>::empty(),
    {
        let r = StatsTable { keys: Vec::new(), stats: Vec::new(), records: Ghost(Seq::empty()) };
        proof {
            assert(r.key_views() =~= Seq::<Seq<u8>>::empty());
            assert(forall|k: Seq<u8>| key_vals(r.records@, k).len() == 0);
        }
        r
    }

    /// How many distinct keys have an entry.
    pub fn entry_count(&self) -> (n: usize)
        requires
            self.wf(),
        ensures
            n as int == self.key_views().len(),
    {
        self.keys.len()
    }

    /// The key of one entry.
    pub fn key_at(&self, i: usize) -> (r: &Vec<u8>)
        requires
            self.wf(),
            (i as int) < self.key_views().len(),
        ensures
            r@ == self.key_views()[i as int],
    {
        &self.keys[i]
    }

    /// The accumulator of one entry: the exact statistics of that key's
    /// values among the table's records.
    pub fn stat_at(&self, i: usize) -> (r: Stat)
        requires
            self.wf(),
            (i as int) < self.key_views().len(),
        ensures
            r@ == self.stat_models()[i as int],
            r@ == stat_of(key_vals(self.records(), self.key_views()[i as int])),
            r.wf(),
            r@.count > 0,
    {
        proof {
            let k = self.keys@[i as int]@;
            lemma_key_vals_len(self.records@, k);
            lemma_stat_of_wf(key_vals(self.records@, k));
        }
        self.stats[i]
    }

    /// Fold one record into the table: find or create the key's entry and
    /// fold the value into its accumulator.
    pub fn add_record(&mut self, key: Vec<u8>, v: i64)
        requires
            old(self).wf(),
            old(self).records().len() < u64::MAX,
        ensures
            final(self).wf(),
            final(self).records() == old(self).records().push((key@, v as int)),
    {
        let ghost recs0 = self.records@;
        let ghost r = (key@, v as int);
        match find_in(&self.keys, &key) {
            Some(i) => {
                let mut st = self.stats[i];
                proof {
                    let k = self.keys@[i as int]@;
                    lemma_key_vals_len(recs0, k);
                    lemma_stat_of_wf(key_vals(recs0, k));
                }
                st.add(v);
                self.stats[i] = st;
                proof {
                    self.records@ = recs0.push(r);
                    assert forall|k: Seq<u8>| #[trigger]
                        key_vals(self.records@, k).len() > 0 implies exists|t: int|
                        0 <= t < self.keys@.len() && (#[trigger] self.keys@[t])@ == k by {
                        lemma_key_vals_push(recs0, r, k);
                        if k == key@ {
                            assert(self.keys@[i as int]@ == k);
                        } else {
                            assert(key_vals(recs0, k).len() > 0);
                        }
                    }
                    assert forall|t: int| 0 <= t < self.keys@.len() implies (
                    #[trigger] self.stats@[t])@ == stat_of(key_vals(self.records@, self.keys@[t]@))
                        && self.stats@[t].wf() && key_vals(self.records@, self.keys@[t]@).len()
                        > 0 by {
                        let k = self.keys@[t]@;
                        lemma_key_vals_push(recs0, r, k);
                        lemma_key_vals_len(recs0, k);
                        lemma_key_vals_len(self.records@, k);
                        lemma_stat_of_wf(key_vals(self.records@, k));
                        if k == key@ {
                            assert(t == i) by {
                                if t != i {
                                    assert(self.keys@[i as int]@ == key@);
                                }
                            }
                            assert(key_vals(recs0, k).push(v as int).drop_last() =~= key_vals(
                                recs0,
                                k,
                            ));
                            assert(stat_of(key_vals(self.records@, k)) == push_model(
                                stat_of(key_vals(recs0, k)),
                                v as int,
                            ));
                        } else {
                            assert(t != i ==> self.stats@[t] == old(self).stats@[t]);
                            assert(t == i ==> k == key@);
                        }
                    }

                    assert(recs_wf(self.records@)) by {
                        assert(forall|t: int|
                            0 <= t < recs0.len() ==> self.records@[t] == #[trigger] recs0[t]);
                        assert(self.records@[recs0.len() as int].1 == v as int);
                        assert(forall|t: int|
                            0 <= t < self.records@.len() ==> fits_value(
                                (#[trigger] self.records@[t]).1,
                            ));
                    }

                    assert forall|t: int| 0 <= t < self.keys@.len() implies key_vals(
                        self.records@,
                        (#[trigger] self.keys@[t])@,
                    ).len() > 0 by {
                        let k = self.keys@[t]@;
                        assert(key_vals(recs0, k).len() > 0);
                        lemma_key_vals_push(recs0, r, k);
                    }
                }
            },
            None => {
                let mut st = Stat::identity();
                st.add(v);
                proof {
                    assert(key_vals(recs0, key@).len() == 0) by {
                        if key_vals(recs0, key@).len() > 0 {
                            let t = choose|t: int|
                                0 <= t < self.keys@.len() && (#[trigger] self.keys@[t])@ == key@;
                            assert((self.keys@[t])@ != key@);
                        }
                    }
                }
                self.keys.push(key);
                self.stats.push(st);
                proof {
                    self.records@ = recs0.push(r);
                    let n = self.keys@.len() - 1;
                    assert(self.keys@[n]@ == key@);
                    assert forall|k: Seq<u8>| #[trigger]
                        key_vals(self.records@, k).len() > 0 implies exists|t: int|
                        0 <= t < self.keys@.len() && (#[trigger] self.keys@[t])@ == k by {
                        lemma_key_vals_push(recs0, r, k);
                        if k == key@ {
                            assert(self.keys@[n]@ == k);
                        } else {
                            assert(key_vals(recs0, k).len() > 0);
                            let t2 = choose|t2: int|
                                0 <= t2 < old(self).keys@.len() && (#[trigger] old(
                                    self,
                                ).keys@[t2])@ == k;
                            assert(self.keys@[t2]@ == k);
                        }
                    }
                    assert forall|t: int| 0 <= t < self.keys@.len() implies (
                    #[trigger] self.stats@[t])@ == stat_of(key_vals(self.records@, self.keys@[t]@))
                        && self.stats@[t].wf() && key_vals(self.records@, self.keys@[t]@).len()
                        > 0 by {
                        let k = self.keys@[t]@;
                        lemma_key_vals_push(recs0, r, k);
                        if t == n {
                            assert(key_vals(recs0, key@) =~= Seq::<int>::empty());
                            assert(key_vals(self.records@, key@) =~= Seq::<int>::empty().push(
                                v as int,
                            ));
                            assert(Seq::<int>::empty().push(v as int).drop_last() =~= Seq::<
                                int,
                            >::empty());
                            assert(stat_of(Seq::<int>::empty()) == identity_model());
                            assert(stat_of(key_vals(self.records@, key@)) == push_model(
                                identity_model(),
                                v as int,
                            ));
                        } else {
                            assert(self.keys@[t] == old(self).keys@[t]);
                            assert(self.stats@[t] == old(self).stats@[t]);
                            assert(k != key@) by {
                                if k == key@ {
                                    assert((old(self).keys@[t])@ == key@);
                                    assert(key_vals(recs0, key@).len() > 0);
                                }
                            }
                        }
                    }
                    assert forall|i2: int, j2: int|
                        0 <= i2 < j2 < self.keys@.len() implies (#[trigger] self.keys@[i2])@ != (
                    #[trigger] self.keys@[j2])@ by {
                        if j2 == n {
                            assert((old(self).keys@[i2])@ != key@);
                        }
                    }

                    assert(recs_wf(self.records@)) by {
                        assert(forall|t: int|
                            0 <= t < recs0.len() ==> self.records@[t] == #[trigger] recs0[t]);
                        assert(self.records@[recs0.len() as int].1 == v as int);
                        assert(forall|t: int|
                            0 <= t < self.records@.len() ==> fits_value(
                                (#[trigger] self.records@[t]).1,
                            ));
                    }

                    assert forall|t: int| 0 <= t < self.keys@.len() implies key_vals(
                        self.records@,
                        (#[trigger] self.keys@[t])@,
                    ).len() > 0 by {
                        let k = self.keys@[t]@;
                        lemma_key_vals_push(recs0, r, k);
                        if t < n {
                            assert(old(self).keys@[t]@ == k);
                            assert(key_vals(recs0, k).len() > 0);
                        } else {
                            assert(k == key@);
                        }
                    }

                }
            },
        }
    }
}


/// One worker's private state: its statistics table, its count of
/// skipped lines, and (ghost) the lines it has processed.
pub struct Worker {
    /// The worker's private per-key table.
    pub table: StatsTable,
    /// How many lines the worker skipped as unparsable.
    pub skipped: u64,
    lines: Ghost<Seq<Seq<u8>>>,
}

impl Worker {
    /// The logical lines this worker has processed, in order.
    pub closed spec fn lines(self) -> Seq<Seq<u8>> {
        self.lines@
    }

    /// The worker's table, for specification purposes.
    pub closed spec fn table_spec(self) -> StatsTable {
        self.table
    }

    /// The worker's skip count, for specification purposes.
    pub closed spec fn skipped_count(self) -> int {
        self.skipped as int
    }

    /// The table holds exactly the records of the processed lines, and
    /// the skip count counts exactly the lines that did not parse.
    pub open spec fn wf(self) -> bool {
        &&& self.table_spec().wf()
        &&& self.table_spec().records() == records_of_lines(self.lines())
        &&& self.skipped_count() == skipped_of_lines(self.lines())
        &&& self.lines().len() <= u64::MAX
    }

    /// A fresh worker: nothing processed.
    pub fn new() -> (r: Worker)
        ensures
            r.wf(),
            r.lines() == Seq::<Seq<u8>>::empty(),
            r.skipped_count() == 0,
            r.table_spec().records() == Seq::<(Seq<u8>, int)>::empty(),
    {
        Worker { table: StatsTable::new(), skipped: 0, lines: Ghost(Seq::empty()) }
    }

    /// Fold one line-aligned chunk: every valid record goes into the
    /// table, every unparsable line is counted, in input order.
    pub fn fold_chunk(&mut self, chunk: &Vec<u8>)
        requires
            old(self).wf(),
            old(self).lines().len() + chunk@.len() + 1 <= u64::MAX,
        ensures
            final(self).wf(),
            final(self).lines() == old(self).lines() + lines_of(chunk@),
            final(self).table_spec().records() == old(self).table_spec().records()
                + records_of_chunk(chunk@),
            final(self).skipped_count() == old(self).skipped_count() + skipped_of_lines(
                lines_of(chunk@),
            ),
    {
        let ls = split_lines(chunk);
        let ghost lines0 = self.lines@;
        let ghost lsv = views_of(ls@);
        proof {
            crate::parse::lemma_lines_rec_len(chunk@, Seq::<u8>::empty());
        }
        let mut i: usize = 0;
        while i < ls.len()
            invariant
                self.wf(),
                i <= ls@.len(),
                views_of(ls@) == lsv,
                lsv == lines_of(chunk@),
                lines0.len() + lsv.len() <= u64::MAX,
                self.lines@ == lines0 + lsv.take(i as int),
            decreases ls@.len() - i,
        {
            let ghost pl = self.lines@;
            proof {
                assert(lsv.take(i as int + 1) =~= lsv.take(i as int).push(lsv[i as int]));
                assert((lines0 + lsv.take(i as int + 1)) =~= pl.push(lsv[i as int]));
                assert(pl.push(lsv[i as int]).drop_last() =~= pl);
                lemma_line_partition(pl);
                assert(pl.len() == lines0.len() + i);
            }
            let p = parse_line(&ls[i]);
            proof {
                assert(ls@[i as int]@ == lsv[i as int]);
            }
            match p {
                Parsed::Record { key, tenths } => {
                    self.table.add_record(key, tenths);
                    proof {
                        self.lines@ = pl.push(lsv[i as int]);
                        assert(records_of_lines(self.lines@) =~= self.table.records());
                    }
                },
                Parsed::Skipped { .. } => {
                    self.skipped = self.skipped + 1;
                    proof {
                        self.lines@ = pl.push(lsv[i as int]);
                        assert(records_of_lines(self.lines@) =~= records_of_lines(pl));
                    }
                },
            }
            i = i + 1;
        }
        proof {
            assert(lsv.take(lsv.len() as int) =~= lsv);
            lemma_records_concat(lines0, lsv);
        }
    }
}

impl StatsTable {
    /// Merge another table into a fresh one: the result is exactly the
    /// table of this table's records followed by the other's.
    pub fn merge(&self, other: &StatsTable) -> (r: StatsTable)
        requires
            self.wf(),
            other.wf(),
            self.records().len() + other.records().len() <= u64::MAX,
        ensures
            r.wf(),
            r.records() == self.records() + other.records(),
    {
        let ghost recs = self.records@ + other.records@;
        let mut keys: Vec<Vec<u8>> = Vec::new();
        let mut stats: Vec<Stat> = Vec::new();
        let sn = self.keys.len();
        let mut i: usize = 0;
        while i < sn
            invariant
                self.wf(),
                other.wf(),
                self.records@.len() + other.records@.len() <= u64::MAX,
                recs == self.records@ + other.records@,
                sn == self.keys@.len(),
                i <= sn,
                keys@.len() == i,
                stats@.len() == i,
                forall|t: int| 0 <= t < i ==> (#[trigger] keys@[t])@ == self.keys@[t]@,
                forall|t: int|
                    0 <= t < i ==> (#[trigger] stats@[t])@ == stat_of(key_vals(recs, keys@[t]@))
                        && stats@[t].wf(),
            decreases sn - i,
        {
            let k = crate::parse::subvec(&self.keys[i], 0, self.keys[i].len());
            proof {
                assert(k@ =~= self.keys@[i as int]@);
            }
            let ghost kk = k@;
            let ghost kv1 = key_vals(self.records@, kk);
            let ghost kv2 = key_vals(other.records@, kk);
            proof {
                lemma_key_vals_concat(self.records@, other.records@, kk);
                lemma_key_vals_len(self.records@, kk);
                lemma_key_vals_len(other.records@, kk);
                lemma_stat_of_wf(kv1);
                lemma_stat_of_wf(kv2);
                lemma_stat_of_concat(kv1, kv2);
            }
            let s1 = self.stats[i];
            let merged = match find_in(&other.keys, &k) {
                Some(j) => {
                    let m = s1.merge(&other.stats[j]);
                    proof {
                        assert(m@ == stat_of(key_vals(recs, kk)));
                    }
                    m
                },
                None => {
                    proof {
                        assert(kv2.len() == 0) by {
                            if kv2.len() > 0 {
                                let t = choose|t: int|
                                    0 <= t < other.keys@.len() && (#[trigger] other.keys@[t])@
                                        == kk;
                                assert((other.keys@[t])@ != kk);
                            }
                        }
                        assert(kv1 + kv2 =~= kv1);
                        assert(s1@ == stat_of(key_vals(recs, kk)));
                    }
                    s1
                },
            };
            keys.push(k);
            stats.push(merged);
            i = i + 1;
        }
        let ghost phase1_keys = keys@;
        let mut j: usize = 0;
        while j < other.keys.len()
            invariant
                self.wf(),
                other.wf(),
                self.records@.len() + other.records@.len() <= u64::MAX,
                recs == self.records@ + other.records@,
                sn == self.keys@.len(),
                j <= other.keys@.len(),
                keys@.len() == stats@.len(),
                keys@.len() >= sn,
                forall|t: int| 0 <= t < sn ==> (#[trigger] keys@[t])@ == self.keys@[t]@,
                forall|t: int|
                    sn <= t < keys@.len() ==> exists|u: int|
                        0 <= u < j && (#[trigger] keys@[t])@ == other.keys@[u]@,
                forall|t: int, t2: int|
                    sn <= t < keys@.len() && 0 <= t2 < keys@.len() && t2 != t ==> (
                    #[trigger] keys@[t])@ != (#[trigger] keys@[t2])@,
                forall|t: int|
                    0 <= t < keys@.len() ==> (#[trigger] stats@[t])@ == stat_of(
                        key_vals(recs, keys@[t]@),
                    ) && stats@[t].wf(),
                forall|u: int|
                    0 <= u < j ==> exists|t: int|
                        0 <= t < keys@.len() && (#[trigger] other.keys@[u])@ == keys@[t]@,
            decreases other.keys@.len() - j,
        {
            let k = crate::parse::subvec(&other.keys[j], 0, other.keys[j].len());
            proof {
                assert(k@ =~= other.keys@[j as int]@);
            }
            let ghost kk = k@;
            let ghost prev_keys = keys@;
            match find_in(&self.keys, &k) {
                Some(x) => {
                    proof {
                        assert(keys@[x as int]@ == kk);
                        assert forall|u: int| 0 <= u < j + 1 implies exists|t: int|
                            0 <= t < keys@.len() && (#[trigger] other.keys@[u])@ == keys@[t]@ by {
                            if u == j {
                                assert(keys@[x as int]@ == other.keys@[j as int]@);
                            }
                        }
                    }
                },
                None => {
                    let ghost kv1 = key_vals(self.records@, kk);
                    let ghost kv2 = key_vals(other.records@, kk);
                    proof {
                        lemma_key_vals_concat(self.records@, other.records@, kk);
                        assert(kv1.len() == 0) by {
                            if kv1.len() > 0 {
                                let t = choose|t: int|
                                    0 <= t < self.keys@.len() && (#[trigger] self.keys@[t])@ == kk;
                                assert((self.keys@[t])@ != kk);
                            }
                        }
                        assert(kv1 + kv2 =~= kv2);
                    }
                    let s2 = other.stats[j];
                    keys.push(k);
                    stats.push(s2);
                    proof {
                        let n2 = keys@.len() - 1;
                        assert(keys@[n2]@ == other.keys@[j as int]@);
                        assert forall|u: int| 0 <= u < j + 1 implies exists|t: int|
                            0 <= t < keys@.len() && (#[trigger] other.keys@[u])@ == keys@[t]@ by {
                            if u < j {
                                let t = choose|t: int|
                                    0 <= t < prev_keys.len() && (#[trigger] other.keys@[u])@
                                        == prev_keys[t]@;
                                assert(keys@[t]@ == other.keys@[u]@);
                            } else {
                                assert(keys@[n2]@ == other.keys@[u]@);
                            }
                        }
                        assert(s2@ == stat_of(key_vals(recs, kk)));
                        assert forall|t: int, t2: int|
                            sn <= t < keys@.len() && 0 <= t2 < keys@.len() && t2 != t implies (
                        #[trigger] keys@[t])@ != (#[trigger] keys@[t2])@ by {
                            if t == n2 || t2 == n2 {
                                let (a, b) = if t == n2 { (t, t2) } else { (t2, t) };
                                if b < sn {
                                    assert(keys@[b]@ == self.keys@[b]@);
                                    assert((self.keys@[b])@ != kk);
                                } else if b != n2 {
                                    let u = choose|u: int|
                                        0 <= u < j && (#[trigger] keys@[b])@ == other.keys@[u]@;
                                    assert(other.keys@[u]@ != other.keys@[j as int]@);
                                }
                            }
                        }
                    }
                },
            }
            j = j + 1;
        }
        let r = StatsTable { keys, stats, records: Ghost(recs) };
        proof {
            assert(recs_wf(recs)) by {
                assert(forall|t: int|
                    0 <= t < self.records@.len() ==> recs[t] == (#[trigger] self.records@[t]));
                assert(forall|t: int|
                    0 <= t < other.records@.len() ==> recs[self.records@.len() + t] == (
                    #[trigger] other.records@[t]));
                assert(forall|t: int|
                    0 <= t < recs.len() ==> fits_value((#[trigger] recs[t]).1));
            }
            assert forall|t: int, t2: int| 0 <= t < t2 < r.keys@.len() implies (
            #[trigger] r.keys@[t])@ != (#[trigger] r.keys@[t2])@ by {
                if t2 < sn {
                } else {
                }
            }
            assert forall|t: int| 0 <= t < r.keys@.len() implies key_vals(
                r.records@,
                (#[trigger] r.keys@[t])@,
            ).len() > 0 by {
                let kk = r.keys@[t]@;
                lemma_key_vals_concat(self.records@, other.records@, kk);
                if t < sn {
                    assert(key_vals(self.records@, kk).len() > 0);
                } else {
                    let u = choose|u: int|
                        0 <= u < other.keys@.len() && (#[trigger] r.keys@[t])@ == other.keys@[u]@;
                    assert(key_vals(other.records@, kk).len() > 0);
                }
            }
            assert forall|k: Seq<u8>| #[trigger] key_vals(r.records@, k).len() > 0 implies exists|
                t: int,
            | 0 <= t < r.keys@.len() && (#[trigger] r.keys@[t])@ == k by {
                lemma_key_vals_concat(self.records@, other.records@, k);
                if key_vals(self.records@, k).len() > 0 {
                    let t = choose|t: int|
                        0 <= t < self.keys@.len() && (#[trigger] self.keys@[t])@ == k;
                    assert(r.keys@[t]@ == k);
                } else {
                    assert(key_vals(other.records@, k).len() > 0);
                    let u = choose|u: int|
                        0 <= u < other.keys@.len() && (#[trigger] other.keys@[u])@ == k;
                    let t = choose|t: int|
                        0 <= t < r.keys@.len() && (#[trigger] other.keys@[u])@ == r.keys@[t]@;
                    assert(r.keys@[t]@ == k);
                }
            }
        }
        r
    }
}

/// All records folded by a sequence of workers, in worker order.
pub open spec fn all_records(ws: Seq<Worker>) -> Seq<(Seq<u8>, int)>
    decreases ws.len(),
{
    if ws.len() == 0 {
        Seq::empty()
    } else {
        all_records(ws.drop_last()) + ws.last().table_spec().records()
    }
}

/// The total number of lines skipped by a sequence of workers.
pub open spec fn total_skipped(ws: Seq<Worker>) -> int
    decreases ws.len(),
{
    if ws.len() == 0 {
        0int
    } else {
        total_skipped(ws.drop_last()) + ws.last().skipped_count()
    }
}

/// The total number of lines processed by a sequence of workers.
pub open spec fn total_lines(ws: Seq<Worker>) -> int
    decreases ws.len(),
{
    if ws.len() == 0 {
        0int
    } else {
        total_lines(ws.drop_last()) + ws.last().lines().len()
    }
}

/// Records and skips partition the lines, worker totals included.
pub proof fn lemma_worker_totals(ws: Seq<Worker>)
    requires
        forall|i: int| 0 <= i < ws.len() ==> (#[trigger] ws[i]).wf(),
    ensures
        all_records(ws).len() + total_skipped(ws) == total_lines(ws),
        0 <= total_skipped(ws),
        0 <= all_records(ws).len(),
    decreases ws.len(),
{
    if ws.len() > 0 {
        assert(forall|i: int| 0 <= i < ws.len() - 1 ==> ws.drop_last()[i] == #[trigger] ws[i]);
        lemma_worker_totals(ws.drop_last());
        assert(ws[ws.len() - 1].wf());
        lemma_line_partition(ws.last().lines());
    }
}

proof fn lemma_total_lines_take(ws: Seq<Worker>, i: int)
    requires
        0 <= i <= ws.len(),
    ensures
        total_lines(ws.take(i)) <= total_lines(ws),
    decreases ws.len() - i,
{
    if i == ws.len() {
        assert(ws.take(i) =~= ws);
    } else {
        lemma_total_lines_take(ws, i + 1);
        assert(ws.take(i + 1).drop_last() =~= ws.take(i));
        assert(ws.take(i + 1).last() == ws[i]);
    }
}

/// Reduce the worker tables into one final table, in worker-index order,
/// and total the skipped lines: the final table is exactly the table of
/// every worker's records, concatenated in worker order.
pub fn reduce(workers: &Vec<Worker>) -> (r: (StatsTable, u64))
    requires
        forall|i: int| 0 <= i < workers@.len() ==> (#[trigger] workers@[i]).wf(),
        total_lines(workers@) <= u64::MAX,
    ensures
        r.0.wf(),
        r.0.records() == all_records(workers@),
        r.1 as int == total_skipped(workers@),
{
    let mut table = StatsTable::new();
    let mut skipped: u64 = 0;
    let mut i: usize = 0;
    proof {
        assert(workers@.take(0) =~= Seq::<Worker>::empty());
    }
    while i < workers.len()
        invariant
            forall|t: int| 0 <= t < workers@.len() ==> (#[trigger] workers@[t]).wf(),
            total_lines(workers@) <= u64::MAX,
            i <= workers@.len(),
            table.wf(),
            table.records() == all_records(workers@.take(i as int)),
            skipped as int == total_skipped(workers@.take(i as int)),
        decreases workers@.len() - i,
    {
        proof {
            assert(workers@.take(i as int + 1).drop_last() =~= workers@.take(i as int));
            assert(workers@.take(i as int + 1).last() == workers@[i as int]);
            assert(forall|t: int|
                0 <= t < i + 1 ==> workers@.take(i as int + 1)[t] == #[trigger] workers@[t]);
            assert(forall|t: int|
                0 <= t < i ==> workers@.take(i as int)[t] == #[trigger] workers@[t]);
            lemma_worker_totals(workers@.take(i as int));
            lemma_worker_totals(workers@.take(i as int + 1));
            lemma_total_lines_take(workers@, i as int + 1);
            lemma_line_partition(workers@[i as int].lines());
        }
        let t2 = table.merge(&workers[i].table);
        table = t2;
        skipped = skipped + workers[i].skipped;
        i = i + 1;
    }
    proof {
        assert(workers@.take(workers@.len() as int) =~= workers@);
    }
    (table, skipped)
}

/// The lines of a sequence of chunks, chunk by chunk.
pub open spec fn lines_of_chunks(chunks: Seq<Seq<u8>>) -> Seq<Seq<u8>>
    decreases chunks.len(),
{
    if chunks.len() == 0 {
        Seq::empty()
    } else {
        lines_of(chunks.first()) + lines_of_chunks(chunks.drop_first())
    }
}

/// Chunking is invisible to parsing: if every chunk but the last ends at
/// a newline, the lines of the concatenated input are exactly the lines
/// of the chunks, chunk by chunk. Together with the chunker's guarantee
/// that it emits such chunks and loses no byte, parsing per chunk parses
/// the whole input.
pub proof fn lemma_lines_of_chunks(chunks: Seq<Seq<u8>>)
    requires
        forall|i: int|
            0 <= i < chunks.len() - 1 ==> (#[trigger] chunks[i]).len() > 0 && chunks[i].last()
                == nl(),
    ensures
        lines_of(chunks.flatten()) == lines_of_chunks(chunks),
    decreases chunks.len(),
{
    if chunks.len() == 0 {
        assert(chunks.flatten() =~= Seq::<u8>::empty());
    } else if chunks.len() == 1 {
        assert(chunks.drop_first().flatten() =~= Seq::<u8>::empty());
        assert(chunks.flatten() =~= chunks.first());
        assert(lines_of_chunks(chunks.drop_first()) =~= Seq::<Seq<u8>>::empty());
        assert(lines_of(chunks.first()) + lines_of_chunks(chunks.drop_first()) =~= lines_of(
            chunks.first(),
        ));
    } else {
        let rest = chunks.drop_first();
        assert(forall|i: int|
            0 <= i < rest.len() - 1 ==> rest[i] == #[trigger] chunks[i + 1]);
        assert(forall|i: int|
            0 <= i < rest.len() - 1 ==> (#[trigger] rest[i]).len() > 0 && rest[i].last() == nl());
        lemma_lines_of_chunks(rest);
        assert(chunks.first().len() > 0 && chunks.first().last() == nl()) by {
            assert(chunks[0].len() > 0 && chunks[0].last() == nl());
        }
        lemma_lines_concat(chunks.first(), rest.flatten());
    }
}

/// One entry describes its key's values exactly: the key occurs among
/// the records, the count is the number of that key's values, the sum,
/// minimum and maximum are exactly over those values, every value lies
/// between min and max, and both bounds are attained by some value.
pub open spec fn entry_exact(t: StatsTable, i: int) -> bool {
    let k = t.key_views()[i];
    let vals = key_vals(t.records(), k);
    let m = t.stat_models()[i];
    &&& vals.len() > 0
    &&& m == stat_of(vals)
    &&& m.count == vals.len()
    &&& model_wf(m)
    &&& forall|j: int| 0 <= j < vals.len() ==> m.min <= #[trigger] vals[j] <= m.max
    &&& (exists|j: int| 0 <= j < vals.len() && vals[j] == m.min)
    &&& (exists|j: int| 0 <= j < vals.len() && vals[j] == m.max)
}

/// Every entry of a well-formed table is exact.
pub proof fn lemma_table_entry_exact(t: StatsTable, i: int)
    requires
        t.wf(),
        0 <= i < t.key_views().len(),
    ensures
        entry_exact(t, i),
{
    assert(t.key_views().len() == t.keys@.len());
    assert(t.key_views()[i] == (t.keys@[i])@);
    assert(t.stat_models()[i] == (t.stats@[i])@);
    let k = t.key_views()[i];
    let vals = key_vals(t.records(), k);
    lemma_key_vals_len(t.records(), k);
    lemma_stat_of_wf(vals);
    lemma_stat_of_exact(vals);
}

/// The table has an entry for key `k`.
pub open spec fn has_entry(t: StatsTable, k: Seq<u8>) -> bool {
    exists|i: int| 0 <= i < t.key_views().len() && t.key_views()[i] == k
}

/// Every key that occurs among a well-formed table's records has an
/// entry, and every entry's key occurs: the table is complete and free
/// of spurious keys.
pub proof fn lemma_table_keys_cover(t: StatsTable, k: Seq<u8>)
    requires
        t.wf(),
    ensures
        (key_vals(t.records(), k).len() > 0) == has_entry(t, k),
{
    assert(t.key_views().len() == t.keys@.len());
    assert(forall|i: int| 0 <= i < t.keys@.len() ==> t.key_views()[i] == (#[trigger] t.keys@[i])@);
    if key_vals(t.records(), k).len() > 0 {
        let i = choose|i: int| 0 <= i < t.keys@.len() && (#[trigger] t.keys@[i])@ == k;
        assert(t.key_views()[i] == k);
    }
    if exists|i: int| 0 <= i < t.key_views().len() && t.key_views()[i] == k {
        let i = choose|i: int| 0 <= i < t.key_views().len() && t.key_views()[i] == k;
        assert(key_vals(t.records@, (t.keys@[i])@).len() > 0);
    }
}

/// Folding one more chunk appends exactly that chunk's lines: the step
/// by which a worker that folds every emitted chunk, in order, reaches
/// the lines of all chunks.
pub proof fn lemma_lines_of_chunks_push(chunks: Seq<Seq<u8>>, c: Seq<u8>)
    ensures
        lines_of_chunks(chunks.push(c)) == lines_of_chunks(chunks) + lines_of(c),
    decreases chunks.len(),
{
    if chunks.len() == 0 {
        assert(chunks =~= Seq::<Seq<u8>>::empty());
        assert(chunks.push(c).drop_first() =~= chunks);
        assert(chunks.push(c).first() == c);
        assert(lines_of_chunks(chunks) =~= Seq::<Seq<u8>>::empty());
        assert(lines_of(c) + Seq::<Seq<u8>>::empty() =~= lines_of(c));
        assert(Seq::<Seq<u8>>::empty() + lines_of(c) =~= lines_of(c));
        assert(lines_of_chunks(chunks.push(c)) =~= lines_of(c));
    } else {
        assert(chunks.push(c).drop_first() =~= chunks.drop_first().push(c));
        assert(chunks.push(c).first() == chunks.first());
        lemma_lines_of_chunks_push(chunks.drop_first(), c);
        assert((lines_of(chunks.first()) + lines_of_chunks(chunks.drop_first())) + lines_of(c)
            =~= lines_of(chunks.first()) + (lines_of_chunks(chunks.drop_first()) + lines_of(
            c,
        )));
    }
}

/// End to end, byte level: once the stream is closed, the logical lines
/// of everything the chunker received are exactly the lines of its
/// emitted chunks, in order. Nothing is lost, duplicated or cut mid-line
/// by chunking.
pub proof fn lemma_chunker_lines_exact(c: crate::chunker::Chunker)
    requires
        c.wf(),
        c.finished(),
    ensures
        lines_of(c.fed()) == lines_of_chunks(c.emitted()),
{
    assert(c.emitted().flatten() + c.carry_bytes() =~= c.emitted().flatten());
    assert(c.emitted().flatten() == c.fed());
    lemma_lines_of_chunks(c.emitted());
}

/// End to end, record level: a worker that folded every chunk the closed
/// chunker emitted holds exactly the records, and exactly the skip
/// count, of the whole byte stream the chunker received.
pub proof fn lemma_pipeline_exact(c: crate::chunker::Chunker, w: Worker)
    requires
        c.wf(),
        c.finished(),
        w.wf(),
        w.lines() == lines_of_chunks(c.emitted()),
    ensures
        w.table_spec().records() == records_of_lines(lines_of(c.fed())),
        w.skipped_count() == skipped_of_lines(lines_of(c.fed())),
{
    lemma_chunker_lines_exact(c);
}

} // verus!
