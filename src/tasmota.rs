//! The smart plug: its status fragment is a table whose rows name a reading
//! and hold its value in the next cell.
use vstd::prelude::*;
use vstd::string::StringExecFns;
use crate::scrape::{
    energy_fields, identity_tags, number_reading, outcome_is, push_energy, push_identity,
    read_number, Reading, ScrapeError,
};
use crate::value::{FieldView, PublishData};

verus! {

pub const P_CURRENT_POWER: &'static str = "Active Power[^>]*>[^>]*>([^<]*)";

pub const P_YIELD_TODAY: &'static str = "Energy Today[^>]*>[^>]*>([^<]*)";

pub const P_TOTAL_YIELD: &'static str = "Energy Total[^>]*>[^>]*>([^<]*)";

pub open spec fn digit_char(d: int) -> char {
    seq!['0', '1', '2', '3', '4', '5', '6', '7', '8', '9'][d]
}

/// The decimal digits of `n`, without leading zeros.
pub open spec fn decimal_text(n: nat) -> Seq<char>
    decreases n,
{
    if n < 10 {
        seq![digit_char(n as int)]
    } else {
        decimal_text(n / 10).push(digit_char((n % 10) as int))
    }
}

/// Relies on `u8`'s `Display`, through `to_string`: its decimal digits.
#[verifier::external_body]
fn u8_text(n: u8) -> (r: String)
    ensures
        r@ == decimal_text(n as nat),
{
    n.to_string()
}

/// Dotted-decimal text of an IPv4 address.
pub open spec fn dotted(ip: [u8; 4]) -> Seq<char> {
    decimal_text(ip[0] as nat) + seq!['.'] + decimal_text(ip[1] as nat) + seq!['.'] + decimal_text(
        ip[2] as nat,
    ) + seq!['.'] + decimal_text(ip[3] as nat)
}

/// A smart plug, polled without credentials at its IPv4 address.
#[derive(Clone, Debug)]
pub struct Tasmota {
    pub ip: [u8; 4],
    pub device_name: String,
    pub device_location: Option<String>,
}

impl Tasmota {
    /// What a poll of this plug yields from the page `html`.
    pub open spec fn outcome(&self, html: Seq<char>) -> Result<Seq<FieldView>, ScrapeError> {
        match number_reading(html, P_CURRENT_POWER@, Reading::CurrentPower) {
            Err(e) => Err(e),
            Ok(power) => match number_reading(html, P_YIELD_TODAY@, Reading::YieldToday) {
                Err(e) => Err(e),
                Ok(today) => match number_reading(html, P_TOTAL_YIELD@, Reading::TotalYield) {
                    Err(e) => Err(e),
                    Ok(total) => Ok(
                        identity_tags(self.device_name@, self.device_location) + energy_fields(
                            power,
                            today,
                            total,
                        ),
                    ),
                },
            },
        }
    }

    pub fn id(&self) -> (r: &str)
        ensures
            r@ == self.device_name@,
    {
        self.device_name.as_str()
    }

    /// The address of the plug's status fragment.
    pub fn status_url(&self) -> (r: String)
        ensures
            r@ == "http://"@ + dotted(self.ip) + "/?m=1"@,
    {
        proof {
            reveal_strlit(".");
        }
        let mut r = String::from_str("http://");
        r.append(u8_text(self.ip[0]).as_str());
        r.append(".");
        r.append(u8_text(self.ip[1]).as_str());
        r.append(".");
        r.append(u8_text(self.ip[2]).as_str());
        r.append(".");
        r.append(u8_text(self.ip[3]).as_str());
        r.append("/?m=1");
        assert(r@ =~= "http://"@ + dotted(self.ip) + "/?m=1"@);
        r
    }

    /// Reads the three readings out of the status fragment.
    pub fn parse_html(&self, html: &str) -> (r: Result<PublishData, ScrapeError>)
        ensures
            outcome_is(r, self.outcome(html@)),
            (r matches Ok(d) ==> d.wf()),
    {
        let power = match read_number(html, P_CURRENT_POWER, Reading::CurrentPower) {
            Ok(d) => d,
            Err(e) => return Err(e),
        };
        let today = match read_number(html, P_YIELD_TODAY, Reading::YieldToday) {
            Ok(d) => d,
            Err(e) => return Err(e),
        };
        let total = match read_number(html, P_TOTAL_YIELD, Reading::TotalYield) {
            Ok(d) => d,
            Err(e) => return Err(e),
        };
        let mut data = PublishData::new();
        push_identity(&mut data, &self.device_name, &self.device_location);
        push_energy(&mut data, power, today, total);
        proof {
            assert(data@ =~= identity_tags(self.device_name@, self.device_location) + energy_fields(
                power@,
                today@,
                total@,
            ));
        }
        Ok(data)
    }
}

/// The plug publishes whatever three numbers it reads, zero included: there is
/// no filter.
pub proof fn lemma_plug_reports(
    plug: Tasmota,
    html: Seq<char>,
    power: Seq<char>,
    today: Seq<char>,
    total: Seq<char>,
)
    requires
        number_reading(html, P_CURRENT_POWER@, Reading::CurrentPower) == Ok::<Seq<char>, ScrapeError>(power),
        number_reading(html, P_YIELD_TODAY@, Reading::YieldToday) == Ok::<Seq<char>, ScrapeError>(today),
        number_reading(html, P_TOTAL_YIELD@, Reading::TotalYield) == Ok::<Seq<char>, ScrapeError>(total),
    ensures
        plug.outcome(html) == Ok::<Seq<FieldView>, ScrapeError>(
            identity_tags(plug.device_name@, plug.device_location) + energy_fields(power, today, total),
        ),
{
}

} // verus!
