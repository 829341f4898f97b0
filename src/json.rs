//! The JSON payload of a write: an array of objects with `name`, `columns` and `points`.
use vstd::prelude::*;
use crate::record::{graphite_columns, record_views, all_well_formed, InfluxDataRecord, PointView, RecordView};
use crate::text::{dec_text, json_quoted, push_dec, push_json_string};

verus! {

/// The parts joined with commas between them.
pub open spec fn join_comma(parts: Seq<Seq<char>>) -> Seq<char>
    decreases parts.len(),
{
    if parts.len() == 0 {
        Seq::empty()
    } else if parts.len() == 1 {
        parts[0]
    } else {
        join_comma(parts.drop_last()) + seq![','] + parts.last()
    }
}

/// A point as a JSON array: `[time,value]`.
pub open spec fn point_json(p: PointView) -> Seq<char> {
    seq!['['] + dec_text(p.0 as nat) + seq![','] + p.1 + seq![']']
}

/// The column names as a JSON array of strings.
pub open spec fn columns_json(cols: Seq<Seq<char>>) -> Seq<char> {
    seq!['['] + join_comma(cols.map_values(|c: Seq<char>| json_quoted(c))) + seq![']']
}

/// A record of Carbon points as a JSON object.
pub open spec fn record_json(r: RecordView) -> Seq<char> {
    "{\"name\":"@ + json_quoted(r.0) + ",\"columns\":"@ + columns_json(graphite_columns())
        + ",\"points\":["@ + join_comma(r.1.map_values(|p: PointView| point_json(p))) + "]}"@
}

/// A batch of records as a JSON array.
pub open spec fn batch_json(b: Seq<RecordView>) -> Seq<char> {
    seq!['['] + join_comma(b.map_values(|r: RecordView| record_json(r))) + seq![']']
}

proof fn lemma_join_push(parts: Seq<Seq<char>>, x: Seq<char>)
    ensures
        join_comma(parts.push(x)) == if parts.len() == 0 {
            x
        } else {
            join_comma(parts) + seq![','] + x
        },
{
    assert(parts.push(x).drop_last() =~= parts);
    if parts.len() == 0 {
        assert(parts.push(x)[0] == x);
    }
}

fn push_point(out: &mut String, p: &(u64, String))
    ensures
        final(out)@ == old(out)@ + point_json((p.0, p.1@)),
{
    proof {
        reveal_strlit("[");
        reveal_strlit(",");
        reveal_strlit("]");
    }
    out.append("[");
    push_dec(out, p.0);
    out.append(",");
    out.append(p.1.as_str());
    out.append("]");
    proof {
        assert(final(out)@ =~= old(out)@ + point_json((p.0, p.1@)));
    }
}

fn push_columns(out: &mut String)
    ensures
        final(out)@ == old(out)@ + columns_json(graphite_columns()),
{
    proof {
        reveal_strlit("[");
        reveal_strlit(",");
        reveal_strlit("]");
        reveal_strlit("time");
        reveal_strlit("value");
    }
    out.append("[");
    push_json_string(out, "time");
    out.append(",");
    push_json_string(out, "value");
    out.append("]");
    proof {
        assert("time"@ =~= seq!['t', 'i', 'm', 'e']);
        assert("value"@ =~= seq!['v', 'a', 'l', 'u', 'e']);
        let cols = graphite_columns().map_values(|c: Seq<char>| json_quoted(c));
        assert(cols =~= seq![json_quoted("time"@), json_quoted("value"@)]);
        assert(cols.drop_last() =~= seq![json_quoted("time"@)]);
        assert(join_comma(cols.drop_last()) == json_quoted("time"@));
        assert(join_comma(cols) == json_quoted("time"@) + seq![','] + json_quoted("value"@));
        assert(final(out)@ =~= old(out)@ + columns_json(graphite_columns()));
    }
}

fn push_record(out: &mut String, r: &InfluxDataRecord)
    ensures
        final(out)@ == old(out)@ + record_json(r.view_record()),
{
    proof {
        reveal_strlit("{\"name\":");
        reveal_strlit(",\"columns\":");
        reveal_strlit(",\"points\":[");
        reveal_strlit(",");
        reveal_strlit("]}");
    }
    out.append("{\"name\":");
    push_json_string(out, r.series_name.as_str());
    out.append(",\"columns\":");
    push_columns(out);
    out.append(",\"points\":[");
    let ghost head = out@;
    let ghost parts = r.point_views().map_values(|p: PointView| point_json(p));
    let mut i: usize = 0;
    proof {
        assert(parts.subrange(0, 0) =~= Seq::<Seq<char>>::empty());
        assert(out@ =~= head + join_comma(parts.subrange(0, 0)));
    }
    while i < r.points.len()
        invariant
            i <= r.points@.len(),
            parts == r.point_views().map_values(|p: PointView| point_json(p)),
            parts.len() == r.points@.len(),
            out@ == head + join_comma(parts.subrange(0, i as int)),
        decreases r.points@.len() - i,
    {
        proof {
            reveal_strlit(",");
            lemma_join_push(parts.subrange(0, i as int), parts[i as int]);
            assert(parts.subrange(0, i as int).push(parts[i as int]) =~= parts.subrange(0, i + 1));
        }
        if i > 0 {
            out.append(",");
        }
        push_point(out, &r.points[i]);
        proof {
            assert(parts[i as int] == point_json((r.points@[i as int].0, r.points@[i as int].1@)));
            assert(out@ =~= head + join_comma(parts.subrange(0, i + 1)));
        }
        i = i + 1;
    }
    out.append("]}");
    proof {
        assert(parts.subrange(0, parts.len() as int) =~= parts);
        assert(final(out)@ =~= old(out)@ + record_json(r.view_record()));
    }
}

/// The JSON payload for a batch of records.
pub fn encode_records(records: &Vec<InfluxDataRecord>) -> (r: String)
    requires
        all_well_formed(records@),
    ensures
        r@ == batch_json(record_views(records@)),
{
    proof {
        reveal_strlit("[");
        reveal_strlit(",");
        reveal_strlit("]");
    }
    let mut out = String::new();
    out.append("[");
    let ghost parts = record_views(records@).map_values(|r: RecordView| record_json(r));
    let mut i: usize = 0;
    proof {
        assert(parts.subrange(0, 0) =~= Seq::<Seq<char>>::empty());
        assert(out@ =~= seq!['['] + join_comma(parts.subrange(0, 0)));
    }
    while i < records.len()
        invariant
            i <= records@.len(),
            parts == record_views(records@).map_values(|r: RecordView| record_json(r)),
            parts.len() == records@.len(),
            out@ == seq!['['] + join_comma(parts.subrange(0, i as int)),
        decreases records@.len() - i,
    {
        proof {
            reveal_strlit(",");
            lemma_join_push(parts.subrange(0, i as int), parts[i as int]);
            assert(parts.subrange(0, i as int).push(parts[i as int]) =~= parts.subrange(0, i + 1));
        }
        if i > 0 {
            out.append(",");
        }
        push_record(&mut out, &records[i]);
        proof {
            assert(parts[i as int] == record_json(records@[i as int].view_record()));
            assert(out@ =~= seq!['['] + join_comma(parts.subrange(0, i + 1)));
        }
        i = i + 1;
    }
    out.append("]");
    proof {
        assert(parts.subrange(0, parts.len() as int) =~= parts);
        assert(out@ =~= batch_json(record_views(records@)));
    }
    out
}

/// Encoding is deterministic: two batches whose records hold the same series
/// and points, in the same order, encode to the same text.
pub proof fn law_encoding_deterministic(a: Seq<InfluxDataRecord>, b: Seq<InfluxDataRecord>)
    requires
        record_views(a) == record_views(b),
    ensures
        batch_json(record_views(a)) == batch_json(record_views(b)),
{
}

} // verus!
