//! The micro-inverter: its status page sets JavaScript variables that hold
//! the serial number and the three energy readings.
use vstd::prelude::*;
use vstd::string::StringExecFns;
use crate::scrape::{
    all_zero, energy_fields, identity_tags, number_reading, outcome_is, push_energy,
    push_identity, read_number, read_text, text_reading, Reading, ScrapeError,
};
use crate::value::{FieldView, PublishData, Value};

verus! {

pub const P_DEVICE_SN: &'static str = r#"var cover_mid\s*=\s*"?([^;"]+)\s*"?;"#;

pub const P_CURRENT_POWER: &'static str = r#"var webdata_now_p\s*=\s*"?([^;"]+)\s*"?;"#;

pub const P_YIELD_TODAY: &'static str = r#"var webdata_today_e\s*=\s*"?([^;"]+)\s*"?;"#;

pub const P_TOTAL_YIELD: &'static str = r#"var webdata_total_e\s*=\s*"?([^;"]+)\s*"?;"#;

/// The standard alphabet base64 text, without padding, of the UTF-8 bytes of `s`.
pub uninterp spec fn base64_no_pad(s: Seq<char>) -> Seq<char>;

/// Relies on base64's `general_purpose::STANDARD_NO_PAD` engine and its
/// `Engine::encode`: the base64 text of the bytes of `s`.
#[verifier::external_body]
fn encode_base64(s: &str) -> (r: String)
    ensures
        r@ == base64_no_pad(s@),
{
    base64::Engine::encode(&base64::engine::general_purpose::STANDARD_NO_PAD, s)
}

/// A solar micro-inverter whose status page needs HTTP Basic credentials.
#[derive(Clone, Debug)]
pub struct Inverter {
    pub status_page_url: String,
    pub user: String,
    pub password: String,
    pub device_name: String,
    pub device_location: Option<String>,
}

impl Inverter {
    /// What a poll of this inverter yields from the page `html`.
    pub open spec fn outcome(&self, html: Seq<char>) -> Result<Seq<FieldView>, ScrapeError> {
        match text_reading(html, P_DEVICE_SN@, Reading::DeviceSerial) {
            Err(e) => Err(e),
            Ok(sn) => match number_reading(html, P_CURRENT_POWER@, Reading::CurrentPower) {
                Err(e) => Err(e),
                Ok(power) => match number_reading(html, P_YIELD_TODAY@, Reading::YieldToday) {
                    Err(e) => Err(e),
                    Ok(today) => match number_reading(html, P_TOTAL_YIELD@, Reading::TotalYield) {
                        Err(e) => Err(e),
                        Ok(total) => if all_zero(power, today, total) {
                            Err(ScrapeError::AllZero)
                        } else {
                            Ok(
                                identity_tags(self.device_name@, self.device_location).push(
                                    (true, "device"@, (false, sn)),
                                ) + energy_fields(power, today, total),
                            )
                        },
                    },
                },
            },
        }
    }

    pub fn id(&self) -> (r: &str)
        ensures
            r@ == self.device_name@,
    {
        self.device_name.as_str()
    }

    /// The `Authorization` header of a request for the status page.
    pub fn authorization(&self) -> (r: String)
        ensures
            r@ == "Basic "@ + base64_no_pad(self.user@ + ":"@ + self.password@),
    {
        let mut token = self.user.clone();
        token.append(":");
        token.append(self.password.as_str());
        let mut r = String::from_str("Basic ");
        r.append(encode_base64(token.as_str()).as_str());
        r
    }

    /// Reads the serial number and the three readings out of the status page.
    pub fn parse_html(&self, html: &str) -> (r: Result<PublishData, ScrapeError>)
        ensures
            outcome_is(r, self.outcome(html@)),
            (r matches Ok(d) ==> d.wf()),
    {
        let sn = match read_text(html, P_DEVICE_SN, Reading::DeviceSerial) {
            Ok(s) => s,
            Err(e) => return Err(e),
        };
        let power = match read_number(html, P_CURRENT_POWER, Reading::CurrentPower) {
            Ok(d) => d,
            Err(e) => return Err(e),
        };
        let today = match read_number(html, P_YIELD_TODAY, Reading::YieldToday) {
            Ok(d) => d,
            Err(e) => return Err(e),
        };
        let total = match read_number(html, P_TOTAL_YIELD, Reading::TotalYield) {
            Ok(d) => d,
            Err(e) => return Err(e),
        };
        if power.is_zero() && today.is_zero() && total.is_zero() {
            return Err(ScrapeError::AllZero);
        }
        let mut data = PublishData::new();
        push_identity(&mut data, &self.device_name, &self.device_location);
        data.tag("device", Value::String(sn));
        push_energy(&mut data, power, today, total);
        proof {
            assert(data@ =~= identity_tags(self.device_name@, self.device_location).push(
                (true, "device"@, (false, sn@)),
            ) + energy_fields(power@, today@, total@));
        }
        Ok(data)
    }
}

/// Where the page holds a serial number and three numbers that are not all
/// zero, the poll yields the identity tags, the serial number trimmed, and
/// those three numbers.
pub proof fn lemma_inverter_reports(
    inverter: Inverter,
    html: Seq<char>,
    sn: Seq<char>,
    power: Seq<char>,
    today: Seq<char>,
    total: Seq<char>,
)
    requires
        text_reading(html, P_DEVICE_SN@, Reading::DeviceSerial) == Ok::<Seq<char>, ScrapeError>(sn),
        number_reading(html, P_CURRENT_POWER@, Reading::CurrentPower) == Ok::<Seq<char>, ScrapeError>(power),
        number_reading(html, P_YIELD_TODAY@, Reading::YieldToday) == Ok::<Seq<char>, ScrapeError>(today),
        number_reading(html, P_TOTAL_YIELD@, Reading::TotalYield) == Ok::<Seq<char>, ScrapeError>(total),
        !all_zero(power, today, total),
    ensures
        inverter.outcome(html) == Ok::<Seq<FieldView>, ScrapeError>(
            identity_tags(inverter.device_name@, inverter.device_location).push(
                (true, "device"@, (false, sn)),
            ) + energy_fields(power, today, total),
        ),
{
}

/// Where current power, yield today and total yield all read zero, the poll
/// fails, whatever the serial number.
pub proof fn lemma_inverter_all_zero(
    inverter: Inverter,
    html: Seq<char>,
    power: Seq<char>,
    today: Seq<char>,
    total: Seq<char>,
)
    requires
        number_reading(html, P_CURRENT_POWER@, Reading::CurrentPower) == Ok::<Seq<char>, ScrapeError>(power),
        number_reading(html, P_YIELD_TODAY@, Reading::YieldToday) == Ok::<Seq<char>, ScrapeError>(today),
        number_reading(html, P_TOTAL_YIELD@, Reading::TotalYield) == Ok::<Seq<char>, ScrapeError>(total),
        all_zero(power, today, total),
    ensures
        inverter.outcome(html) is Err,
{
}

} // verus!
