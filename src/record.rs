//! Batch records: the points of one series, grouped for one write.
use vstd::prelude::*;
use crate::carbon::GraphitePoint;
use crate::number::{is_float_text, json_number, push_json_number};

verus! {

/// One point as written: its time, and its value as a JSON number.
pub type PointView = (u64, Seq<char>);

/// A record as written: its series name and its points, in order.
pub type RecordView = (Seq<char>, Seq<PointView>);

/// The column names of a record of Carbon points.
pub open spec fn graphite_columns() -> Seq<Seq<char>> {
    seq![seq!['t', 'i', 'm', 'e'], seq!['v', 'a', 'l', 'u', 'e']]
}

/// The points of one series, with the names of the columns that each point fills.
#[derive(Debug, Clone)]
pub struct InfluxDataRecord {
    pub series_name: String,
    pub columns: Vec<&'static str>,
    /// Each point: its time, and its value as a JSON number.
    pub points: Vec<(u64, String)>,
}

impl InfluxDataRecord {
    pub open spec fn column_views(&self) -> Seq<Seq<char>> {
        self.columns@.map_values(|c: &'static str| c@)
    }

    pub open spec fn point_views(&self) -> Seq<PointView> {
        self.points@.map_values(|p: (u64, String)| (p.0, p.1@))
    }

    /// The record as a series name and a sequence of points.
    pub open spec fn view_record(&self) -> RecordView {
        (self.series_name@, self.point_views())
    }

    /// A record of Carbon points: its columns are `time` and `value`.
    pub open spec fn well_formed(&self) -> bool {
        self.column_views() == graphite_columns()
    }

    /// A record for Carbon points in the series `name`, with no points yet.
    pub fn new_graphite(name: String) -> (r: InfluxDataRecord)
        ensures
            r.well_formed(),
            r.series_name == name,
            r.point_views() == Seq::<PointView>::empty(),
    {
        proof {
            reveal_strlit("time");
            reveal_strlit("value");
        }
        let r = InfluxDataRecord { series_name: name, columns: vec!["time", "value"], points: Vec::new() };
        proof {
            assert(r.column_views() =~~= graphite_columns());
            assert(r.point_views() =~= Seq::<PointView>::empty());
        }
        r
    }

    /// Appends the point at `timestamp` with the value written by the float text `value`.
    pub fn push_graphite_point(&mut self, timestamp: u64, value: &str)
        requires
            is_float_text(value@),
        ensures
            final(self).series_name == old(self).series_name,
            final(self).columns == old(self).columns,
            final(self).point_views() == old(self).point_views().push((timestamp, json_number(value@))),
    {
        let mut v = String::new();
        push_json_number(&mut v, value);
        proof {
            assert(Seq::<char>::empty() + json_number(value@) =~= json_number(value@));
        }
        self.points.push((timestamp, v));
        proof {
            assert(self.point_views() =~= old(self).point_views().push((timestamp, json_number(value@))));
        }
    }
}

/// The views of a sequence of records.
pub open spec fn record_views(rs: Seq<InfluxDataRecord>) -> Seq<RecordView> {
    rs.map_values(|r: InfluxDataRecord| r.view_record())
}

/// Every record is well formed.
pub open spec fn all_well_formed(rs: Seq<InfluxDataRecord>) -> bool {
    forall|i: int| 0 <= i < rs.len() ==> (#[trigger] rs[i]).well_formed()
}

/// The index of the first record of the series `name` from `i` on, or -1.
pub open spec fn find_series(b: Seq<RecordView>, name: Seq<char>, i: int) -> int
    decreases b.len() - i,
{
    if i < 0 || i >= b.len() {
        -1
    } else if b[i].0 == name {
        i
    } else {
        find_series(b, name, i + 1)
    }
}

/// The batch `b` after a point for the series `name`: appended to the record of
/// that series if there is one, else in a new record at the end.
pub open spec fn batch_add(b: Seq<RecordView>, name: Seq<char>, point: PointView) -> Seq<RecordView> {
    let k = find_series(b, name, 0);
    if k >= 0 {
        b.update(k, (name, b[k].1.push(point)))
    } else {
        b.push((name, seq![point]))
    }
}

/// The point that a sample becomes.
pub open spec fn point_of(p: GraphitePoint) -> PointView {
    (p.timestamp, json_number(p.metric_value@))
}

/// The batch that the samples `ps` give, taken in order.
pub open spec fn batch_of(ps: Seq<GraphitePoint>) -> Seq<RecordView>
    decreases ps.len(),
{
    if ps.len() == 0 {
        Seq::empty()
    } else {
        batch_add(batch_of(ps.drop_last()), ps.last().metric_name@, point_of(ps.last()))
    }
}

proof fn lemma_find_series_range(b: Seq<RecordView>, name: Seq<char>, i: int)
    requires
        0 <= i,
    ensures
        -1 <= find_series(b, name, i) < b.len(),
        find_series(b, name, i) >= 0 ==> find_series(b, name, i) >= i && b[find_series(
            b,
            name,
            i,
        )].0 == name,
    decreases b.len() - i,
{
    if i < b.len() && b[i].0 != name {
        lemma_find_series_range(b, name, i + 1);
    }
}

/// Adds the sample `p` to the batch `records`: to the record of its series, or
/// to a new record at the end.
pub fn add_point(records: &mut Vec<InfluxDataRecord>, p: &GraphitePoint)
    requires
        p.well_formed(),
        all_well_formed(old(records)@),
    ensures
        all_well_formed(final(records)@),
        record_views(final(records)@) == batch_add(
            record_views(old(records)@),
            p.metric_name@,
            point_of(*p),
        ),
{
    let ghost b = record_views(records@);
    let n = records.len();
    let mut i: usize = 0;
    let mut found = false;
    while i < n && !found
        invariant
            n == records@.len(),
            records@ == old(records)@,
            b == record_views(records@),
            i <= n,
            !found ==> find_series(b, p.metric_name@, 0) == find_series(b, p.metric_name@, i as int),
            found ==> i < n && find_series(b, p.metric_name@, 0) == i,
        decreases (n - i) as int + if found { 0int } else { 1int },
    {
        if records[i].series_name == p.metric_name {
            found = true;
        } else {
            i = i + 1;
        }
    }
    proof {
        lemma_find_series_range(b, p.metric_name@, 0);
    }
    if found {
        let ghost before = records@;
        let mut r = records.remove(i);
        r.push_graphite_point(p.timestamp, p.metric_value.as_str());
        records.insert(i, r);
        proof {
            assert(records@ =~= before.update(i as int, r));
            assert(b[i as int].0 == p.metric_name@);
            assert(record_views(records@) =~~= batch_add(b, p.metric_name@, point_of(*p)));
        }
    } else {
        let mut r = InfluxDataRecord::new_graphite(p.metric_name.clone());
        r.push_graphite_point(p.timestamp, p.metric_value.as_str());
        records.push(r);
        proof {
            assert(r.point_views() =~= seq![point_of(*p)]);
            assert(record_views(records@) =~~= batch_add(b, p.metric_name@, point_of(*p)));
        }
    }
}

/// The batch of records for the samples `ps`, in order: one record per series,
/// in the order in which the series first appear, each with its points in order.
pub fn build_records(ps: &Vec<GraphitePoint>) -> (r: Vec<InfluxDataRecord>)
    requires
        forall|i: int| 0 <= i < ps@.len() ==> (#[trigger] ps@[i]).well_formed(),
    ensures
        all_well_formed(r@),
        record_views(r@) == batch_of(ps@),
{
    let mut records: Vec<InfluxDataRecord> = Vec::new();
    let mut i: usize = 0;
    proof {
        assert(record_views(records@) =~= Seq::<RecordView>::empty());
        assert(ps@.subrange(0, 0) =~= Seq::<GraphitePoint>::empty());
    }
    while i < ps.len()
        invariant
            i <= ps@.len(),
            forall|j: int| 0 <= j < ps@.len() ==> (#[trigger] ps@[j]).well_formed(),
            all_well_formed(records@),
            record_views(records@) == batch_of(ps@.subrange(0, i as int)),
        decreases ps@.len() - i,
    {
        add_point(&mut records, &ps[i]);
        proof {
            let t = ps@.subrange(0, i + 1);
            assert(t.drop_last() =~= ps@.subrange(0, i as int));
        }
        i = i + 1;
    }
    proof {
        assert(ps@.subrange(0, ps@.len() as int) =~= ps@);
    }
    records
}

/// The points of the samples in `ps` that belong to the series `name`, in order.
pub open spec fn series_points(ps: Seq<GraphitePoint>, name: Seq<char>) -> Seq<PointView>
    decreases ps.len(),
{
    if ps.len() == 0 {
        Seq::empty()
    } else if ps.last().metric_name@ == name {
        series_points(ps.drop_last(), name).push(point_of(ps.last()))
    } else {
        series_points(ps.drop_last(), name)
    }
}

/// No two records share a series.
pub open spec fn distinct_series(b: Seq<RecordView>) -> bool {
    forall|i: int, j: int| 0 <= i < j < b.len() ==> b[i].0 != b[j].0
}

proof fn lemma_find_series_absent(b: Seq<RecordView>, name: Seq<char>, i: int)
    requires
        0 <= i,
        find_series(b, name, i) == -1,
    ensures
        forall|j: int| i <= j < b.len() ==> b[j].0 != name,
    decreases b.len() - i,
{
    if i < b.len() {
        lemma_find_series_absent(b, name, i + 1);
    }
}

/// Batching keeps the order of each series: for every samples `ps`, each
/// series has one record, and its points are the points of the samples of
/// that series in the order in which they came. A series without samples has
/// no record.
pub proof fn law_batch_per_series_order(ps: Seq<GraphitePoint>)
    ensures
        distinct_series(batch_of(ps)),
        forall|k: int|
            0 <= k < batch_of(ps).len() ==> (#[trigger] batch_of(ps)[k]).1 == series_points(
                ps,
                batch_of(ps)[k].0,
            ),
        forall|name: Seq<char>|
            find_series(batch_of(ps), name, 0) == -1 ==> #[trigger] series_points(ps, name)
                == Seq::<PointView>::empty(),
    decreases ps.len(),
{
    if ps.len() > 0 {
        let prev = ps.drop_last();
        law_batch_per_series_order(prev);
        let b = batch_of(prev);
        let m = ps.last().metric_name@;
        let pt = point_of(ps.last());
        let k = find_series(b, m, 0);
        lemma_find_series_range(b, m, 0);
        let nb = batch_of(ps);
        assert(nb == batch_add(b, m, pt));
        if k >= 0 {
            assert forall|j: int| 0 <= j < nb.len() implies (#[trigger] nb[j]).1 == series_points(
                ps,
                nb[j].0,
            ) by {
                if j != k {
                    assert(nb[j] == b[j]);
                    assert(b[j].0 != m);
                }
            }
            assert forall|name: Seq<char>| find_series(nb, name, 0) == -1 implies #[trigger] series_points(
                ps,
                name,
            ) == Seq::<PointView>::empty() by {
                lemma_find_series_absent(nb, name, 0);
                assert(nb[k].0 == m);
                assert(name != m);
                lemma_find_series_absent_back(b, nb, name);
                assert(series_points(ps, name) == series_points(prev, name));
            }
        } else {
            lemma_find_series_absent(b, m, 0);
            assert(series_points(prev, m) == Seq::<PointView>::empty());
            assert forall|j: int| 0 <= j < nb.len() implies (#[trigger] nb[j]).1 == series_points(
                ps,
                nb[j].0,
            ) by {
                if j < b.len() {
                    assert(nb[j] == b[j]);
                    assert(b[j].0 != m);
                } else {
                    assert(series_points(prev, m).push(pt) =~= seq![pt]);
                }
            }
            assert forall|name: Seq<char>| find_series(nb, name, 0) == -1 implies #[trigger] series_points(
                ps,
                name,
            ) == Seq::<PointView>::empty() by {
                lemma_find_series_absent(nb, name, 0);
                assert(nb[b.len() as int].0 == m);
                assert(name != m);
                lemma_find_series_absent_back(b, nb, name);
                assert(series_points(ps, name) == series_points(prev, name));
            }
        }
    }
}

proof fn lemma_find_series_absent_back(b: Seq<RecordView>, nb: Seq<RecordView>, name: Seq<char>)
    requires
        b.len() <= nb.len(),
        forall|j: int| 0 <= j < b.len() ==> nb[j].0 == b[j].0,
        forall|j: int| 0 <= j < nb.len() ==> nb[j].0 != name,
    ensures
        find_series(b, name, 0) == -1,
{
    lemma_find_series_range(b, name, 0);
}

} // verus!
