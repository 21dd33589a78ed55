//! The closed set of device kinds, polled through one interface.
use vstd::prelude::*;
use crate::scrape::{outcome_is, ScrapeError};
use crate::sun600::Inverter;
use crate::tasmota::{dotted, Tasmota};
use crate::value::{FieldView, PublishData};

verus! {

#[derive(Clone, Debug)]
pub enum SourceDevice {
    Inverter(Inverter),
    Tasmota(Tasmota),
}

/// The one GET request that a poll makes: where, and with which
/// `Authorization` header, if any.
#[derive(Clone, Debug)]
pub struct DeviceRequest {
    pub url: String,
    pub authorization: Option<String>,
}

impl SourceDevice {
    /// What a poll of this device yields from the page `html`.
    pub open spec fn outcome(&self, html: Seq<char>) -> Result<Seq<FieldView>, ScrapeError> {
        match self {
            SourceDevice::Inverter(d) => d.outcome(html),
            SourceDevice::Tasmota(d) => d.outcome(html),
        }
    }

    pub fn id(&self) -> (r: &str)
        ensures
            r@ == (match self {
                SourceDevice::Inverter(d) => d.device_name@,
                SourceDevice::Tasmota(d) => d.device_name@,
            }),
    {
        match self {
            SourceDevice::Inverter(d) => d.id(),
            SourceDevice::Tasmota(d) => d.id(),
        }
    }

    /// The request for the device's status page.
    pub fn request(&self) -> (r: DeviceRequest)
        ensures
            (match self {
                SourceDevice::Inverter(d) => r.url@ == d.status_page_url@ && (r.authorization matches Some(a) && a@ == "Basic "@ + crate::sun600::base64_no_pad(d.user@ + ":"@ + d.password@)),
                SourceDevice::Tasmota(d) => r.url@ == "http://"@ + dotted(d.ip) + "/?m=1"@ && r.authorization is None,
            }),
    {
        match self {
            SourceDevice::Inverter(d) => DeviceRequest {
                url: d.status_page_url.clone(),
                authorization: Some(d.authorization()),
            },
            SourceDevice::Tasmota(d) => DeviceRequest { url: d.status_url(), authorization: None },
        }
    }

    /// Reads the device's readings out of its status page.
    pub fn parse_html(&self, html: &str) -> (r: Result<PublishData, ScrapeError>)
        ensures
            outcome_is(r, self.outcome(html@)),
            (r matches Ok(d) ==> d.wf()),
    {
        match self {
            SourceDevice::Inverter(d) => d.parse_html(html),
            SourceDevice::Tasmota(d) => d.parse_html(html),
        }
    }
}

} // verus!
