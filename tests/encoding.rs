use solar_grabber::backend::{BackendInfluxDB, PublishError};
use solar_grabber::config::{choose_channel, Config, ConfigChannel, ConfigError};
use solar_grabber::line_protocol::{encode, escape, escape_tag_value, Escaping};
use solar_grabber::device::SourceDevice;
use solar_grabber::number::Decimal;
use solar_grabber::tasmota::Tasmota;
use solar_grabber::value::{PublishData, Value};

fn num(s: &str) -> Value {
    Value::Number(Decimal::parse(s).unwrap())
}

fn s(t: &str) -> Value {
    Value::String(t.to_string())
}

#[test]
fn encodes_example_line() {
    let mut d = PublishData::new();
    d.tag("device", s("a,b"));
    d.field("p", num("1.5"));
    assert_eq!(encode("m", &d), "m,device=a\\,b p=1.5");
}

#[test]
fn encodes_tags_then_fields_in_order() {
    let mut d = PublishData::new();
    d.field("f1", num("1"));
    d.tag("t1", s("x"));
    d.field("f2", s("say \"hi\" \\o/"));
    d.tag("t2", num("2.50"));
    assert_eq!(encode("my meas,x=y", &d), "my\\ meas\\,x=y,t1=x,t2=2.5 f1=1,f2=say \\\"hi\\\" \\\\o/");
}

#[test]
fn encoding_twice_gives_same_line() {
    let mut d = PublishData::new();
    d.tag("k=1", s("v v"));
    d.field("n", num("-0.50"));
    assert_eq!(encode("m", &d), encode("m", &d));
    assert_eq!(encode("m", &d), "m,k\\=1=v\\ v n=-0.5");
}

fn unescape(t: &str, special: &[char]) -> String {
    let cs: Vec<char> = t.chars().collect();
    let mut out = String::new();
    let mut i = 0;
    while i < cs.len() {
        if cs[i] == '\\' && i + 1 < cs.len() && special.contains(&cs[i + 1]) {
            out.push(cs[i + 1]);
            i += 2;
        } else {
            out.push(cs[i]);
            i += 1;
        }
    }
    out
}

#[test]
fn line_reads_back() {
    let mut d = PublishData::new();
    d.tag("loc,1", s("back yard"));
    d.tag("id", s("a=b"));
    d.field("power", num("12.5"));
    d.field("note", s("x y"));
    let line = encode("m", &d);
    let key = [',', '=', ' '];
    let split = |t: &str, sep: char| -> Vec<String> {
        let mut parts = vec![String::new()];
        let mut esc = false;
        for c in t.chars() {
            if c == sep && !esc {
                parts.push(String::new());
            } else {
                parts.last_mut().unwrap().push(c);
            }
            esc = c == '\\' && !esc;
        }
        parts
    };
    let sections = split(&line, ' ');
    let head = sections[0].clone();
    let fields = sections[1..].join(" ");
    let tags: Vec<(String, String)> = split(&head, ',')[1..]
        .iter()
        .map(|p| {
            let kv = split(p, '=');
            (unescape(&kv[0], &key), unescape(&kv[1], &key))
        })
        .collect();
    assert_eq!(
        tags,
        vec![("loc,1".to_string(), "back yard".to_string()), ("id".to_string(), "a=b".to_string())]
    );
    let fields: Vec<(String, String)> = split(&fields, ',')
        .iter()
        .map(|p| {
            let kv = split(p, '=');
            (unescape(&kv[0], &key), unescape(&kv[1], &['"', '\\']))
        })
        .collect();
    assert_eq!(
        fields,
        vec![("power".to_string(), "12.5".to_string()), ("note".to_string(), "x y".to_string())]
    );
}

#[test]
fn escaping_classes() {
    assert_eq!(escape("a,b=c d", Escaping::Key), "a\\,b\\=c\\ d");
    assert_eq!(escape("a,b=c d", Escaping::Measurement), "a\\,b=c\\ d");
    assert_eq!(escape("q\"\\,", Escaping::StringField), "q\\\"\\\\,");
    assert_eq!(escape("plain", Escaping::Key), "plain");
    assert_eq!(escape("", Escaping::Key), "");
    assert_eq!(escape_tag_value("a\\b c=d,e"), "a\\\\b\\ c\\=d\\,e");
}

#[test]
fn decimals() {
    assert_eq!(Decimal::parse("998").unwrap().as_str(), "998");
    assert_eq!(Decimal::parse("99.0").unwrap().as_str(), "99");
    assert_eq!(Decimal::parse("+007.250").unwrap().as_str(), "7.25");
    assert_eq!(Decimal::parse(".5").unwrap().as_str(), "0.5");
    assert_eq!(Decimal::parse("5.").unwrap().as_str(), "5");
    assert_eq!(Decimal::parse("-0.0").unwrap().as_str(), "-0");
    assert!(Decimal::parse("-0.0").unwrap().is_zero());
    assert!(!Decimal::parse("0.01").unwrap().is_zero());
    assert!(Decimal::parse("").is_none());
    assert!(Decimal::parse(".").is_none());
    assert!(Decimal::parse("1.2.3").is_none());
    assert!(Decimal::parse("12a").is_none());
    assert!(Decimal::parse("-").is_none());
}

#[test]
fn decimals_with_exponent() {
    assert_eq!(Decimal::parse("1e3").unwrap().as_str(), "1000");
    assert_eq!(Decimal::parse("1.5E-3").unwrap().as_str(), "0.0015");
    assert_eq!(Decimal::parse("2.5e1").unwrap().as_str(), "25");
    assert_eq!(Decimal::parse("-12.34e+1").unwrap().as_str(), "-123.4");
    assert_eq!(Decimal::parse("123e-2").unwrap().as_str(), "1.23");
    assert_eq!(Decimal::parse("123e-3").unwrap().as_str(), "0.123");
    assert_eq!(Decimal::parse(".5e0").unwrap().as_str(), "0.5");
    assert_eq!(Decimal::parse("0e5").unwrap().as_str(), "0");
    assert!(Decimal::parse("0.0e-7").unwrap().is_zero());
    for text in ["1e3", "1.5E-3", "2.5e1", "-12.34e+1", "123e-3"] {
        let d = Decimal::parse(text).unwrap();
        assert_eq!(d.as_str(), text.parse::<f64>().unwrap().to_string());
    }
    assert_eq!(Decimal::parse("1e400").unwrap().as_str().len(), 401);
    assert!(Decimal::parse("1e401").is_none());
    assert!(Decimal::parse("1e").is_none());
    assert!(Decimal::parse("1e+").is_none());
    assert!(Decimal::parse("e5").is_none());
    assert!(Decimal::parse("1e2.5").is_none());
    assert!(Decimal::parse("1e2e3").is_none());
}

#[test]
fn lookup_takes_first_match() {
    let mut d = PublishData::default();
    d.tag("a", s("first"));
    d.field("a", num("2"));
    match d.index("a") {
        Value::String(t) => assert_eq!(t, "first"),
        _ => panic!("wrong entry"),
    }
    assert!(d.get("b").is_none());
}

fn target(url: &str) -> BackendInfluxDB {
    BackendInfluxDB {
        influx_url: url.to_string(),
        bucket: "bucket".to_string(),
        org: "org".to_string(),
        token: "token".to_string(),
        measurement: "solar".to_string(),
    }
}

#[test]
fn write_request_for_target() {
    let mut d = PublishData::new();
    d.field("p", num("3"));
    let w = target("http://influx:8086/ignored").write_request(&d).unwrap();
    assert_eq!(w.url, "http://influx:8086/api/v2/write");
    assert_eq!(w.authorization, "Token token");
    assert_eq!(w.body, "solar p=3");
    assert_eq!(w.bucket, "bucket");
    assert!(matches!(target("not a url").write_request(&d), Err(PublishError::BadUrl)));
}

#[test]
fn config_rules() {
    assert_eq!(choose_channel(true, true), Ok(ConfigChannel::Arguments));
    assert_eq!(choose_channel(false, false), Ok(ConfigChannel::File));
    assert_eq!(choose_channel(true, false), Err(ConfigError::Partial));
    assert_eq!(choose_channel(false, true), Err(ConfigError::Partial));
    let empty = Config { sources: vec![], targets: vec![target("http://x")] };
    assert!(matches!(empty.validate(), Err(ConfigError::NoSources)));
    let plug = Tasmota { ip: [10, 0, 0, 2], device_name: "plug".to_string(), device_location: None };
    let no_targets = Config { sources: vec![SourceDevice::Tasmota(plug.clone())], targets: vec![] };
    assert!(matches!(no_targets.validate(), Err(ConfigError::NoTargets)));
    let full = Config { sources: vec![SourceDevice::Tasmota(plug)], targets: vec![target("http://x")] };
    let ok = full.validate().unwrap();
    assert_eq!(ok.sources.len(), 1);
    assert_eq!(ok.targets.len(), 1);
}
