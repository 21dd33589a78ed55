//! A metrics database that takes line-protocol writes over HTTP.
use vstd::prelude::*;
use vstd::string::StringExecFns;
use crate::line_protocol::{encode, line_of};
use crate::value::PublishData;

verus! {

pub const WRITE_PATH: &'static str = "api/v2/write";

/// The URL `base`, parsed, with its path replaced by `path`; `None` where
/// `base` does not parse as a URL.
pub uninterp spec fn url_with_path(base: Seq<char>, path: Seq<char>) -> Option<Seq<char>>;

/// Relies on url::Url::parse, Url::set_path and `From<Url> for String`: the
/// base URL parsed, its path replaced, and its serialization; `None` where
/// `Url::parse` returns an error.
#[verifier::external_body]
fn replace_url_path(base: &str, path: &str) -> (r: Option<String>)
    ensures
        r is Some == url_with_path(base@, path@) is Some,
        (r matches Some(u) ==> u@ == url_with_path(base@, path@).unwrap()),
{
    match url::Url::parse(base) {
        Ok(mut u) => {
            u.set_path(path);
            Some(u.into())
        },
        Err(_) => None,
    }
}

/// Why a write could not be prepared.
#[derive(Clone, Copy, Debug, PartialEq, Eq, Structural)]
pub enum PublishError {
    /// The configured base URL does not parse.
    BadUrl,
}

/// One write: POST `body` to `url` with the query `bucket=..&org=..` and the
/// given `Authorization` header.
#[derive(Clone, Debug)]
pub struct WriteRequest {
    pub url: String,
    pub bucket: String,
    pub org: String,
    pub authorization: String,
    pub body: String,
}

/// Where to publish, and under which measurement name.
#[derive(Clone, Debug)]
pub struct BackendInfluxDB {
    pub influx_url: String,
    pub bucket: String,
    pub org: String,
    pub token: String,
    pub measurement: String,
}

impl BackendInfluxDB {
    /// The line that encodes `data` under this target's measurement name.
    pub fn line(&self, data: &PublishData) -> (r: String)
        ensures
            r@ == line_of(self.measurement@, data@),
    {
        encode(self.measurement.as_str(), data)
    }

    /// The `Authorization` header of a write.
    pub fn authorization(&self) -> (r: String)
        ensures
            r@ == "Token "@ + self.token@,
    {
        let mut r = String::from_str("Token ");
        r.append(self.token.as_str());
        r
    }

    /// The write that publishes `data` to this target.
    pub fn write_request(&self, data: &PublishData) -> (r: Result<WriteRequest, PublishError>)
        ensures
            r is Err <==> url_with_path(self.influx_url@, WRITE_PATH@) is None,
            (r matches Ok(w) ==> {
                &&& w.url@ == url_with_path(self.influx_url@, WRITE_PATH@).unwrap()
                &&& w.bucket@ == self.bucket@
                &&& w.org@ == self.org@
                &&& w.authorization@ == "Token "@ + self.token@
                &&& w.body@ == line_of(self.measurement@, data@)
            }),
            (r matches Err(e) ==> e == PublishError::BadUrl),
    {
        let url = match replace_url_path(self.influx_url.as_str(), WRITE_PATH) {
            Some(u) => u,
            None => return Err(PublishError::BadUrl),
        };
        Ok(
            WriteRequest {
                url,
                bucket: self.bucket.clone(),
                org: self.org.clone(),
                authorization: self.authorization(),
                body: self.line(data),
            },
        )
    }
}

} // verus!
