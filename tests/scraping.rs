use solar_grabber::device::SourceDevice;
use solar_grabber::scrape::{Reading, ScrapeError};
use solar_grabber::sun600::Inverter;
use solar_grabber::tasmota::Tasmota;
use solar_grabber::value::{PublishData, Value};

fn number(v: &Value) -> f64 {
    match v {
        Value::Number(d) => d.as_str().parse::<f64>().unwrap(),
        Value::String(s) => panic!("expected a number, got {s:?}"),
    }
}

fn text(v: &Value) -> String {
    match v {
        Value::String(s) => s.clone(),
        Value::Number(d) => panic!("expected text, got {}", d.as_str()),
    }
}

fn inverter() -> Inverter {
    Inverter {
        status_page_url: "some url".to_string(),
        device_location: Some("location".to_string()),
        device_name: "name".to_string(),
        password: "password".to_string(),
        user: "user".to_string(),
    }
}

fn plug() -> Tasmota {
    Tasmota {
        device_location: Some("location".to_string()),
        device_name: "name".to_string(),
        ip: [127, 0, 0, 1],
    }
}

fn inverter_page(power: &str, today: &str, total: &str) -> String {
    format!(
        "var cover_mid = \"SN42  \";\nvar webdata_now_p = \"{power}\";\nvar webdata_today_e = \"{today}\";\nvar webdata_total_e = \"{total}\";\n"
    )
}

const PLUG_PAGE: &str = r#"{t}</table><hr/>{t}{s}</th><th></th><th style='text-align:center'><th></th><td>{e}{s}Voltage{m}</td><td style='text-align:left'>234</td><td>&nbsp;</td><td> V{e}{s}Current{m}</td><td style='text-align:left'>0.000</td><td>&nbsp;</td><td> A{e}{s}Active Power{m}</td><td style='text-align:left'>344</td><td>&nbsp;</td><td> W{e}{s}Apparent Power{m}</td><td style='text-align:left'>0</td><td>&nbsp;</td><td> VA{e}{s}Reactive Power{m}</td><td style='text-align:left'>0</td><td>&nbsp;</td><td> VAr{e}{s}Power Factor{m}</td><td style='text-align:left'>0.00</td><td>&nbsp;</td><td>                         {e}{s}Energy Today{m}</td><td style='text-align:left'>0.289</td><td>&nbsp;</td><td> kWh{e}{s}Energy Yesterday{m}</td><td style='text-align:left'>0.002</td><td>&nbsp;</td><td> kWh{e}{s}Energy Total{m}</td><td style='text-align:left'>0.291</td><td>&nbsp;</td><td> kWh{e}</table><hr/>{t}</table>{t}<tr><td style='width:100%;text-align:center;font-weight:bold;font-size:62px'>ON</td></tr><tr></tr></table>"#;

#[test]
fn test_status_parsing() {
    let status_data = inverter()
        .parse_html(
            r#"
            var cover_mid = "238483342                             ";
var webdata_now_p = "998";
var webdata_today_e = "99.0";
var webdata_total_e = "1010.2";
var webdata_alarm = "";
var webdata_utime = "0";
        "#,
        )
        .unwrap();
    assert_eq!(text(status_data.index("device")), "238483342".to_string());
    assert_eq!(number(status_data.index("currentPower")), 998.0);
    assert_eq!(number(status_data.index("yieldToday")), 99.0);
    assert_eq!(number(status_data.index("totalYield")), 1010.2);
}

#[test]
fn function_name_test() {
    let status_data = plug().parse_html(PLUG_PAGE).unwrap();
    assert_eq!(number(status_data.index("currentPower")), 344.0);
    assert_eq!(number(status_data.index("yieldToday")), 0.289);
    assert_eq!(number(status_data.index("totalYield")), 0.291);
}

fn names(d: &PublishData) -> Vec<(bool, String)> {
    (0..d.len())
        .map(|i| match d.entry(i) {
            solar_grabber::value::Field::Tag(n, _) => (true, n.clone()),
            solar_grabber::value::Field::Field(n, _) => (false, n.clone()),
        })
        .collect()
}

#[test]
fn inverter_tags_and_fields_in_order() {
    let d = inverter().parse_html(&inverter_page("1.5", "2", "3.25")).unwrap();
    assert_eq!(
        names(&d),
        vec![
            (true, "deviceName".to_string()),
            (true, "deviceLocation".to_string()),
            (true, "device".to_string()),
            (false, "currentPower".to_string()),
            (false, "yieldToday".to_string()),
            (false, "totalYield".to_string()),
        ]
    );
    assert_eq!(text(d.index("deviceName")), "name");
    assert_eq!(text(d.index("deviceLocation")), "location");
    assert_eq!(text(d.index("device")), "SN42");
    assert_eq!(number(d.index("currentPower")), 1.5);
    assert_eq!(number(d.index("totalYield")), 3.25);
}

#[test]
fn inverter_without_location_has_no_location_tag() {
    let mut inv = inverter();
    inv.device_location = None;
    let d = inv.parse_html(&inverter_page("1", "2", "3")).unwrap();
    assert!(d.get("deviceLocation").is_none());
    assert_eq!(d.len(), 5);
}

#[test]
fn inverter_all_zero_is_an_error() {
    let r = inverter().parse_html(&inverter_page("0", "0.0", "-0"));
    assert!(matches!(r, Err(ScrapeError::AllZero)));
    let r = inverter().parse_html(&inverter_page("0", "0", "0.001"));
    assert!(r.is_ok());
}

#[test]
fn inverter_trims_numbers() {
    let d = inverter().parse_html(&inverter_page(" 998 ", "99.0", "1010.2")).unwrap();
    assert_eq!(number(d.index("currentPower")), 998.0);
}

#[test]
fn inverter_reads_exponents() {
    let d = inverter().parse_html(&inverter_page("1e3", "9.9E1", "1.0102e3")).unwrap();
    assert_eq!(number(d.index("currentPower")), 1000.0);
    assert_eq!(number(d.index("yieldToday")), 99.0);
    assert_eq!(number(d.index("totalYield")), 1010.2);
    let r = inverter().parse_html(&inverter_page("0e3", "0E-2", "0"));
    assert!(matches!(r, Err(ScrapeError::AllZero)));
}

#[test]
fn plug_reads_exponents() {
    let page = "Active Power</td><td>3.44e2<x Energy Today</td><td>2.89E-1<x Energy Total</td><td>0.291<x";
    let d = plug().parse_html(page).unwrap();
    assert_eq!(number(d.index("currentPower")), 344.0);
    assert_eq!(number(d.index("yieldToday")), 0.289);
}

#[test]
fn inverter_missing_and_bad_readings() {
    let r = inverter().parse_html("var webdata_now_p = \"1\";");
    assert!(matches!(r, Err(ScrapeError::NotFound(Reading::DeviceSerial))));
    let page = "var cover_mid = \"x\";\nvar webdata_now_p = \"1\";\nvar webdata_total_e = \"3\";";
    let r = inverter().parse_html(page);
    assert!(matches!(r, Err(ScrapeError::NotFound(Reading::YieldToday))));
    let r = inverter().parse_html(&inverter_page("abc", "2", "3"));
    assert!(matches!(r, Err(ScrapeError::NotANumber(Reading::CurrentPower))));
}

#[test]
fn plug_all_zero_is_published() {
    let page = "Active Power</td><td>0<x Energy Today</td><td>0<x Energy Total</td><td>0.000<x";
    let d = plug().parse_html(page).unwrap();
    assert_eq!(number(d.index("currentPower")), 0.0);
    assert_eq!(number(d.index("yieldToday")), 0.0);
    assert_eq!(number(d.index("totalYield")), 0.0);
    assert!(d.get("device").is_none());
}

#[test]
fn plug_missing_reading() {
    let r = plug().parse_html("Active Power</td><td>5<x");
    assert!(matches!(r, Err(ScrapeError::NotFound(Reading::YieldToday))));
}

#[test]
fn device_requests() {
    let r = SourceDevice::Inverter(inverter()).request();
    assert_eq!(r.url, "some url");
    assert_eq!(r.authorization.as_deref(), Some("Basic dXNlcjpwYXNzd29yZA"));
    let mut p = plug();
    p.ip = [192, 168, 10, 7];
    let r = SourceDevice::Tasmota(p).request();
    assert_eq!(r.url, "http://192.168.10.7/?m=1");
    assert!(r.authorization.is_none());
    assert_eq!(SourceDevice::Tasmota(plug()).id(), "name");
    assert_eq!(inverter().id(), "name");
}

#[test]
fn device_dispatch_parses() {
    let d = SourceDevice::Tasmota(plug()).parse_html(PLUG_PAGE).unwrap();
    assert_eq!(number(d.index("currentPower")), 344.0);
}
