//! The destination database, the write request for a batch, and the batch of one connection.
use vstd::prelude::*;
use crate::carbon::{fields_of, is_carbon_line, u64_text_value, GraphitePoint};
use crate::json::{batch_json, encode_records};
use crate::number::json_number;
use crate::record::{add_point, all_well_formed, batch_add, record_views, InfluxDataRecord, RecordView};
use crate::text::{push_signed_dec, signed_dec_text};

verus! {

/// One database to write to. Built once and only read after that.
pub struct InfluxDatabase {
    pub host: String,
    pub port: i64,
    pub database: String,
    pub username: String,
    pub password: String,
}

/// An HTTP POST to make: where, with which content type, and with which body.
pub struct WriteRequest {
    pub url: String,
    pub content_type: String,
    pub body: String,
}

/// The content type that the write API expects.
pub open spec fn form_content_type() -> Seq<char> {
    "application/x-www-form-urlencoded"@
}

impl InfluxDatabase {
    /// `http://<host>:<port>/db/<database>/series?u=<username>&p=<password>`
    pub open spec fn post_url(&self) -> Seq<char> {
        "http://"@ + self.host@ + ":"@ + signed_dec_text(self.port as int) + "/db/"@
            + self.database@ + "/series?u="@ + self.username@ + "&p="@ + self.password@
    }

    /// The URL that writes to the series of this database.
    pub fn get_post_url(&self) -> (r: String)
        ensures
            r@ == self.post_url(),
    {
        let mut u = String::new();
        u.append("http://");
        u.append(self.host.as_str());
        u.append(":");
        push_signed_dec(&mut u, self.port);
        u.append("/db/");
        u.append(self.database.as_str());
        u.append("/series?u=");
        u.append(self.username.as_str());
        u.append("&p=");
        u.append(self.password.as_str());
        proof {
            assert(u@ =~= self.post_url());
        }
        u
    }

    /// The request that writes `records`: a POST to the series URL whose body is
    /// one line, the JSON of the batch.
    pub fn write_request(&self, records: &Vec<InfluxDataRecord>) -> (r: WriteRequest)
        requires
            all_well_formed(records@),
        ensures
            r.url@ == self.post_url(),
            r.content_type@ == form_content_type(),
            r.body@ == batch_json(record_views(records@)) + seq!['\n'],
    {
        proof {
            reveal_strlit("\n");
        }
        let mut body = encode_records(records);
        body.append("\n");
        WriteRequest {
            url: self.get_post_url(),
            content_type: String::from_str("application/x-www-form-urlencoded"),
            body,
        }
    }
}

/// The batch that one connection builds: a record per series, its points in
/// the order in which the lines came.
pub struct CarbonConnection {
    pub records: Vec<InfluxDataRecord>,
}

impl CarbonConnection {
    pub open spec fn well_formed(&self) -> bool {
        all_well_formed(self.records@)
    }

    pub open spec fn batch(&self) -> Seq<RecordView> {
        record_views(self.records@)
    }

    /// A connection that has read nothing yet.
    pub fn new() -> (r: CarbonConnection)
        ensures
            r.well_formed(),
            r.batch() == Seq::<RecordView>::empty(),
    {
        let r = CarbonConnection { records: Vec::new() };
        proof {
            assert(r.batch() =~= Seq::<RecordView>::empty());
        }
        r
    }

    /// Takes one line. A Carbon line adds its point to the batch and gives
    /// `true`; any other line is dropped and gives `false`.
    pub fn feed_line(&mut self, line: &str) -> (r: bool)
        requires
            old(self).well_formed(),
        ensures
            final(self).well_formed(),
            r == is_carbon_line(line@),
            r ==> final(self).batch() == batch_add(
                old(self).batch(),
                fields_of(line@)[0],
                (u64_text_value(fields_of(line@)[2]) as u64, json_number(fields_of(line@)[1])),
            ),
            !r ==> final(self).batch() == old(self).batch(),
    {
        match GraphitePoint::from_carbon_line(line) {
            Some(p) => {
                add_point(&mut self.records, &p);
                true
            },
            None => false,
        }
    }

    /// Ends the connection: the request that writes its batch, or `None` when
    /// no line made a point, in which case nothing is sent.
    pub fn finish(self, db: &InfluxDatabase) -> (r: Option<WriteRequest>)
        requires
            self.well_formed(),
        ensures
            r.is_none() == (self.batch().len() == 0),
            r.is_some() ==> {
                let q = r.unwrap();
                &&& q.url@ == db.post_url()
                &&& q.content_type@ == form_content_type()
                &&& q.body@ == batch_json(self.batch()) + seq!['\n']
            },
    {
        if self.records.len() == 0 {
            None
        } else {
            Some(db.write_request(&self.records))
        }
    }
}

} // verus!
