//! The line-protocol encoder: `measurement[,tag=value]* field=value[,field=value]*`.
use vstd::prelude::*;
use vstd::string::StrSliceExecFns;
use vstd::string::StringExecFns;
use crate::number::{is_number_char, number_chars};
use crate::value::{Field, FieldView, PublishData, Value, ValueView};

verus! {

/// Which characters get a backslash in front of them.
#[derive(Clone, Copy, Debug, PartialEq, Eq, Structural)]
pub enum Escaping {
    /// Measurement names: comma and space.
    Measurement,
    /// Tag keys, tag string values and field keys: comma, `=` and space.
    Key,
    /// String field values: double quote and backslash.
    StringField,
    /// Backslash, space, `=` and comma.
    Strict,
}

pub open spec fn is_special(e: Escaping, c: char) -> bool {
    match e {
        Escaping::Measurement => c == ',' || c == ' ',
        Escaping::Key => c == ',' || c == '=' || c == ' ',
        Escaping::StringField => c == '"' || c == '\\',
        Escaping::Strict => c == '\\' || c == ' ' || c == '=' || c == ',',
    }
}

/// The text that one character becomes.
pub open spec fn escaped_char(c: char, e: Escaping) -> Seq<char> {
    if is_special(e, c) {
        seq!['\\', c]
    } else {
        seq![c]
    }
}

/// `s` with a backslash put before each special character, in one scan.
pub open spec fn escaped(s: Seq<char>, e: Escaping) -> Seq<char>
    decreases s.len(),
{
    if s.len() == 0 {
        Seq::empty()
    } else {
        escaped(s.drop_last(), e) + escaped_char(s.last(), e)
    }
}

/// Reads escaped text back: a backslash before a special character is dropped.
pub open spec fn unescaped(t: Seq<char>, e: Escaping) -> Seq<char>
    decreases t.len(),
{
    if t.len() == 0 {
        Seq::empty()
    } else if t.len() >= 2 && t[0] == '\\' && is_special(e, t[1]) {
        seq![t[1]] + unescaped(t.subrange(2, t.len() as int), e)
    } else {
        seq![t[0]] + unescaped(t.drop_first(), e)
    }
}

pub open spec fn tag_value_text(v: ValueView) -> Seq<char> {
    if v.0 {
        v.1
    } else {
        escaped(v.1, Escaping::Key)
    }
}

pub open spec fn field_value_text(v: ValueView) -> Seq<char> {
    if v.0 {
        v.1
    } else {
        escaped(v.1, Escaping::StringField)
    }
}

/// `,key=value` for each tag, in order.
pub open spec fn tag_section(fs: Seq<FieldView>) -> Seq<char>
    decreases fs.len(),
{
    if fs.len() == 0 {
        Seq::empty()
    } else {
        let f = fs.last();
        tag_section(fs.drop_last()) + if f.0 {
            seq![','] + escaped(f.1, Escaping::Key) + seq!['='] + tag_value_text(f.2)
        } else {
            Seq::empty()
        }
    }
}

pub open spec fn field_item(f: FieldView) -> Seq<char> {
    escaped(f.1, Escaping::Key) + seq!['='] + field_value_text(f.2)
}

/// `key=value` for each field, in order, joined by commas.
pub open spec fn field_section(fs: Seq<FieldView>) -> Seq<char>
    decreases fs.len(),
{
    if fs.len() == 0 {
        Seq::empty()
    } else {
        let prev = field_section(fs.drop_last());
        let f = fs.last();
        if f.0 {
            prev
        } else if prev.len() == 0 {
            field_item(f)
        } else {
            prev + seq![','] + field_item(f)
        }
    }
}

/// The line that encodes `fs` under `measurement`.
pub open spec fn line_of(measurement: Seq<char>, fs: Seq<FieldView>) -> Seq<char> {
    escaped(measurement, Escaping::Measurement) + tag_section(fs) + seq![' '] + field_section(fs)
}

fn special_char(e: Escaping, c: char) -> (r: bool)
    ensures
        r == is_special(e, c),
{
    match e {
        Escaping::Measurement => c == ',' || c == ' ',
        Escaping::Key => c == ',' || c == '=' || c == ' ',
        Escaping::StringField => c == '"' || c == '\\',
        Escaping::Strict => c == '\\' || c == ' ' || c == '=' || c == ',',
    }
}

/// Appends `s`, escaped, to `out`.
fn push_escaped(out: &mut String, s: &str, e: Escaping)
    ensures
        final(out)@ == old(out)@ + escaped(s@, e),
{
    proof {
        reveal_strlit("\\");
    }
    assert("\\"@ =~= seq!['\\']);
    let ghost start = out@;
    let n = s.unicode_len();
    let mut i: usize = 0;
    assert(s@.subrange(0, 0) =~= Seq::<char>::empty());
    assert(out@ =~= start + escaped(s@.subrange(0, 0), e));
    while i < n
        invariant
            n == s@.len(),
            i <= n,
            out@ == start + escaped(s@.subrange(0, i as int), e),
            "\\"@ == seq!['\\'],
        decreases n - i,
    {
        let c = s.get_char(i);
        let ghost before = out@;
        if special_char(e, c) {
            out.append("\\");
        }
        out.append(s.substring_char(i, i + 1));
        assert(s@.subrange(0, i + 1).drop_last() =~= s@.subrange(0, i as int));
        assert(s@.subrange(i as int, i + 1) =~= seq![c]);
        assert(out@ =~= before + escaped_char(c, e));
        i = i + 1;
    }
    assert(s@.subrange(0, n as int) =~= s@);
}

/// `s` with a backslash before each character of the class `e`.
pub fn escape(s: &str, e: Escaping) -> (r: String)
    ensures
        r@ == escaped(s@, e),
{
    let mut r = String::new();
    push_escaped(&mut r, s, e);
    assert(r@ =~= escaped(s@, e));
    r
}

/// Escapes backslash, space, `=` and comma.
pub fn escape_tag_value(value: &str) -> (r: String)
    ensures
        r@ == escaped(value@, Escaping::Strict),
{
    escape(value, Escaping::Strict)
}

fn push_tag_value(out: &mut String, v: &Value)
    ensures
        final(out)@ == old(out)@ + tag_value_text(v@),
{
    match v {
        Value::String(s) => push_escaped(out, s.as_str(), Escaping::Key),
        Value::Number(d) => out.append(d.as_str()),
    }
}

fn push_field_value(out: &mut String, v: &Value)
    ensures
        final(out)@ == old(out)@ + field_value_text(v@),
{
    match v {
        Value::String(s) => push_escaped(out, s.as_str(), Escaping::StringField),
        Value::Number(d) => out.append(d.as_str()),
    }
}

/// Encodes `data` as one line under the measurement name `measurement`.
pub fn encode(measurement: &str, data: &PublishData) -> (r: String)
    ensures
        r@ == line_of(measurement@, data@),
{
    proof {
        reveal_strlit(",");
        reveal_strlit("=");
        reveal_strlit(" ");
    }
    assert(","@ =~= seq![',']);
    assert("="@ =~= seq!['=']);
    assert(" "@ =~= seq![' ']);
    let mut line = String::new();
    push_escaped(&mut line, measurement, Escaping::Measurement);
    let ghost head = line@;
    assert(head =~= escaped(measurement@, Escaping::Measurement));
    let n = data.len();
    let mut i: usize = 0;
    assert(data@.subrange(0, 0) =~= Seq::<FieldView>::empty());
    assert(line@ =~= head + tag_section(data@.subrange(0, 0)));
    while i < n
        invariant
            n == data@.len(),
            i <= n,
            line@ == head + tag_section(data@.subrange(0, i as int)),
            ","@ == seq![','],
            "="@ == seq!['='],
        decreases n - i,
    {
        let f = data.entry(i);
        let ghost before = line@;
        assert(data@.subrange(0, i + 1).drop_last() =~= data@.subrange(0, i as int));
        if let Field::Tag(name, value) = f {
            line.append(",");
            push_escaped(&mut line, name.as_str(), Escaping::Key);
            line.append("=");
            push_tag_value(&mut line, value);
            assert(line@ =~= before + (seq![','] + escaped(f@.1, Escaping::Key) + seq!['='] + tag_value_text(f@.2)));
        } else {
            assert(line@ =~= before + Seq::<char>::empty());
        }
        i = i + 1;
    }
    assert(data@.subrange(0, n as int) =~= data@);
    line.append(" ");
    let ghost mid = line@;
    let mut first = true;
    let mut j: usize = 0;
    assert(line@ =~= mid + field_section(data@.subrange(0, 0)));
    while j < n
        invariant
            n == data@.len(),
            j <= n,
            line@ == mid + field_section(data@.subrange(0, j as int)),
            first == (field_section(data@.subrange(0, j as int)).len() == 0),
            ","@ == seq![','],
            "="@ == seq!['='],
        decreases n - j,
    {
        let f = data.entry(j);
        let ghost before = line@;
        assert(data@.subrange(0, j + 1).drop_last() =~= data@.subrange(0, j as int));
        if let Field::Field(name, value) = f {
            if first {
                first = false;
            } else {
                line.append(",");
            }
            push_escaped(&mut line, name.as_str(), Escaping::Key);
            line.append("=");
            push_field_value(&mut line, value);
            assert(field_item(f@).len() > 0) by {
                assert(field_item(f@)[escaped(f@.1, Escaping::Key).len() as int] == '=');
            }
            assert(data@.subrange(0, j + 1).last() == f@);
            assert(line@ =~= mid + field_section(data@.subrange(0, j + 1)));
        }
        j = j + 1;
    }
    assert(data@.subrange(0, n as int) =~= data@);
    line
}

/// Escaping two texts one after the other is escaping the two together.
pub proof fn lemma_escaped_concat(a: Seq<char>, b: Seq<char>, e: Escaping)
    ensures
        escaped(a + b, e) == escaped(a, e) + escaped(b, e),
    decreases b.len(),
{
    if b.len() == 0 {
        assert(a + b =~= a);
        assert(escaped(a, e) + escaped(b, e) =~= escaped(a, e));
    } else {
        assert((a + b).drop_last() =~= a + b.drop_last());
        assert((a + b).last() == b.last());
        lemma_escaped_concat(a, b.drop_last(), e);
        assert(escaped(a + b, e) =~= escaped(a, e) + escaped(b, e));
    }
}

proof fn lemma_escaped_front(s: Seq<char>, e: Escaping)
    requires
        s.len() > 0,
    ensures
        escaped(s, e) == escaped_char(s[0], e) + escaped(s.drop_first(), e),
{
    assert(s =~= seq![s[0]] + s.drop_first());
    lemma_escaped_concat(seq![s[0]], s.drop_first(), e);
    let one = seq![s[0]];
    assert(one.drop_last() =~= Seq::<char>::empty());
    assert(one.last() == s[0]);
    assert(escaped(one.drop_last(), e) =~= Seq::<char>::empty());
    assert(escaped(one, e) =~= escaped_char(s[0], e));
}

/// Reading an escaped text back, a backslash before a special character
/// dropped, gives the original text: escaping loses nothing.
pub proof fn lemma_escape_round_trip(s: Seq<char>, e: Escaping)
    ensures
        unescaped(escaped(s, e), e) == s,
    decreases s.len(),
{
    if s.len() == 0 {
        assert(escaped(s, e) =~= Seq::<char>::empty());
        assert(s =~= Seq::<char>::empty());
    } else {
        let c = s[0];
        let rest = s.drop_first();
        let t = escaped(s, e);
        let tail = escaped(rest, e);
        lemma_escaped_front(s, e);
        lemma_escape_round_trip(rest, e);
        if is_special(e, c) {
            assert(t.subrange(2, t.len() as int) =~= tail);
        } else {
            assert(t.drop_first() =~= tail);
            if c == '\\' && t.len() >= 2 {
                lemma_escaped_front(rest, e);
                assert(t[1] == tail[0]);
                assert(!is_special(e, t[1]));
            }
        }
        assert(s =~= seq![c] + rest);
    }
}

/// In an escaped text every special character other than the backslash has a
/// backslash right before it.
pub proof fn lemma_escaped_guarded(s: Seq<char>, e: Escaping)
    ensures
        forall|i: int|
            0 <= i < escaped(s, e).len() && is_special(e, #[trigger] escaped(s, e)[i])
                && escaped(s, e)[i] != '\\' ==> i > 0 && escaped(s, e)[i - 1] == '\\',
    decreases s.len(),
{
    if s.len() > 0 {
        let p = escaped(s.drop_last(), e);
        let q = escaped_char(s.last(), e);
        lemma_escaped_guarded(s.drop_last(), e);
        assert forall|i: int|
            0 <= i < escaped(s, e).len() && is_special(e, #[trigger] escaped(s, e)[i])
                && escaped(s, e)[i] != '\\' implies i > 0 && escaped(s, e)[i - 1] == '\\' by {
            if i < p.len() {
                assert(escaped(s, e)[i] == p[i]);
                assert(escaped(s, e)[i - 1] == p[i - 1]);
            } else {
                assert(escaped(s, e)[i] == q[i - p.len()]);
                if is_special(e, s.last()) {
                    assert(escaped(s, e)[p.len() as int] == '\\');
                } else {
                    assert(q[0] == s.last());
                }
            }
        }
    }
}

/// Escaping adds exactly one character for each special character.
pub proof fn lemma_escaped_len(s: Seq<char>, e: Escaping)
    ensures
        escaped(s, e).len() == s.len() + s.filter(|c: char| is_special(e, c)).len(),
    decreases s.len(),
{
    reveal(Seq::filter);
    if s.len() > 0 {
        lemma_escaped_len(s.drop_last(), e);
    }
}

/// Scans `t` up to its first character of `stops` that is not part of an
/// escaped pair (a backslash before a special character, which stands for that
/// character): the text read, and how many characters it took.
pub open spec fn read_token(t: Seq<char>, e: Escaping, stops: Seq<char>) -> (Seq<char>, nat)
    decreases t.len(),
{
    if t.len() == 0 {
        (Seq::empty(), 0)
    } else if t.len() >= 2 && t[0] == '\\' && is_special(e, t[1]) {
        let r = read_token(t.subrange(2, t.len() as int), e, stops);
        (seq![t[1]] + r.0, r.1 + 2)
    } else if stops.contains(t[0]) {
        (Seq::empty(), 0)
    } else {
        let r = read_token(t.drop_first(), e, stops);
        (seq![t[0]] + r.0, r.1 + 1)
    }
}

/// Whether the text, escaped in class `e`, ends in a bare backslash that the
/// next character could pair with.
pub open spec fn ends_in_bare_backslash(s: Seq<char>, e: Escaping) -> bool {
    s.len() > 0 && s.last() == '\\' && !is_special(e, '\\')
}

/// Scanning an escaped text that a stop character (or the end) follows reads
/// back exactly the text, and stops right at that character. Each stop must
/// be a special character of the class or absent from the text, none a
/// backslash, and the text must not end in a bare backslash.
pub proof fn lemma_read_escaped(s: Seq<char>, e: Escaping, stops: Seq<char>, tail: Seq<char>)
    requires
        forall|k: int|
            0 <= k < stops.len() ==> #[trigger] stops[k] != '\\' && (is_special(e, stops[k])
                || !s.contains(stops[k])),
        tail.len() == 0 || stops.contains(tail[0]),
        !ends_in_bare_backslash(s, e),
    ensures
        read_token(escaped(s, e) + tail, e, stops) == (s, escaped(s, e).len()),
    decreases s.len(),
{
    if s.len() == 0 {
        assert(escaped(s, e) + tail =~= tail);
        assert(s =~= Seq::<char>::empty());
        if tail.len() > 0 {
            let k = choose|k: int| 0 <= k < stops.len() && stops[k] == tail[0];
            assert(tail[0] != '\\');
        }
    } else {
        let c = s[0];
        let rest = s.drop_first();
        let t = escaped(s, e) + tail;
        lemma_escaped_front(s, e);
        assert(t =~= escaped_char(c, e) + (escaped(rest, e) + tail));
        if rest.len() > 0 {
            assert(rest.last() == s.last());
        }
        assert forall|x: char| !s.contains(x) implies !rest.contains(x) by {
            if rest.contains(x) {
                let j = choose|j: int| 0 <= j < rest.len() && rest[j] == x;
                assert(s[j + 1] == x);
            }
        }
        lemma_read_escaped(rest, e, stops, tail);
        assert(s =~= seq![c] + rest);
        if is_special(e, c) {
            assert(t.subrange(2, t.len() as int) =~= escaped(rest, e) + tail);
        } else {
            assert(t.drop_first() =~= escaped(rest, e) + tail);
            if stops.contains(c) {
                let k = choose|k: int| 0 <= k < stops.len() && stops[k] == c;
                assert(s[0] == c);
            }
            if c == '\\' && t.len() >= 2 {
                assert(rest.len() > 0);
                lemma_escaped_front(rest, e);
                assert(t[1] == escaped(rest, e)[0]);
                assert(!is_special(e, t[1]));
            }
        }
    }
}

/// The stops of a tag key or a field key: `=`, and the separators that could
/// follow a tag.
pub open spec fn key_stops() -> Seq<char> {
    seq!['=', ',', ' ']
}

/// Reading one `key=value` segment of the tag section: after the comma, the
/// scan up to `=` gives the key, and the scan after it up to the next comma or
/// space gives the value's text.
pub proof fn lemma_read_tag(f: FieldView, tail: Seq<char>)
    requires
        f.0,
        tail.len() == 0 || tail[0] == ',' || tail[0] == ' ',
        !ends_in_bare_backslash(f.1, Escaping::Key),
        !ends_in_bare_backslash(f.2.1, Escaping::Key),
        f.2.0 ==> forall|k: int| 0 <= k < f.2.1.len() ==> !is_special(Escaping::Key, #[trigger] f.2.1[k]),
    ensures
        ({
            let seg = escaped(f.1, Escaping::Key) + seq!['='] + tag_value_text(f.2) + tail;
            let key = read_token(seg, Escaping::Key, key_stops());
            let after = seg.subrange(key.1 + 1int, seg.len() as int);
            let value = read_token(after, Escaping::Key, seq![',', ' ']);
            &&& key.0 == f.1
            &&& key.1 == escaped(f.1, Escaping::Key).len()
            &&& seg[key.1 as int] == '='
            &&& value.0 == f.2.1
            &&& value.1 == tag_value_text(f.2).len()
            &&& after.subrange(value.1 as int, after.len() as int) == tail
        }),
{
    let ek = escaped(f.1, Escaping::Key);
    let ev = tag_value_text(f.2);
    let seg = ek + seq!['='] + ev + tail;
    assert(key_stops().contains('='));
    assert(seg =~= ek + (seq!['='] + ev + tail));
    lemma_read_escaped(f.1, Escaping::Key, key_stops(), seq!['='] + ev + tail);
    let after = seg.subrange(ek.len() + 1int, seg.len() as int);
    assert(after =~= ev + tail);
    if tail.len() > 0 {
        assert(seq![',', ' '].contains(tail[0])) by {
            if tail[0] == ',' {
                assert(seq![',', ' '][0] == ',');
            } else {
                assert(seq![',', ' '][1] == ' ');
            }
        }
    }
    if f.2.0 {
        lemma_escape_plain(f.2.1, Escaping::Key);
    }
    lemma_read_escaped(f.2.1, Escaping::Key, seq![',', ' '], tail);
    assert(after.subrange(ev.len() as int, after.len() as int) =~= tail);
}

/// Reading one `key=value` segment of the field section: the scan up to `=`
/// gives the key, and the scan after it up to the next comma gives the
/// value's text. A text value must hold no comma, which its escaping leaves
/// bare.
pub proof fn lemma_read_field(f: FieldView, tail: Seq<char>)
    requires
        !f.0,
        tail.len() == 0 || tail[0] == ',',
        !ends_in_bare_backslash(f.1, Escaping::Key),
        !f.2.1.contains(','),
        f.2.0 ==> forall|k: int|
            0 <= k < f.2.1.len() ==> !is_special(Escaping::StringField, #[trigger] f.2.1[k]),
    ensures
        ({
            let seg = field_item(f) + tail;
            let key = read_token(seg, Escaping::Key, key_stops());
            let after = seg.subrange(key.1 + 1int, seg.len() as int);
            let value = read_token(after, Escaping::StringField, seq![',']);
            &&& key.0 == f.1
            &&& key.1 == escaped(f.1, Escaping::Key).len()
            &&& seg[key.1 as int] == '='
            &&& value.0 == f.2.1
            &&& value.1 == field_value_text(f.2).len()
            &&& after.subrange(value.1 as int, after.len() as int) == tail
        }),
{
    let ek = escaped(f.1, Escaping::Key);
    let ev = field_value_text(f.2);
    let seg = field_item(f) + tail;
    assert(key_stops().contains('='));
    assert(seg =~= ek + (seq!['='] + ev + tail));
    lemma_read_escaped(f.1, Escaping::Key, key_stops(), seq!['='] + ev + tail);
    let after = seg.subrange(ek.len() + 1int, seg.len() as int);
    assert(after =~= ev + tail);
    if tail.len() > 0 {
        assert(seq![','].contains(tail[0])) by {
            assert(seq![','][0] == ',');
        }
    }
    if f.2.0 {
        lemma_escape_plain(f.2.1, Escaping::StringField);
    }
    lemma_read_escaped(f.2.1, Escaping::StringField, seq![','], tail);
    assert(after.subrange(ev.len() as int, after.len() as int) =~= tail);
}

/// The `(name, text)` of each tag, in order.
pub open spec fn tag_pairs(fs: Seq<FieldView>) -> Seq<(Seq<char>, Seq<char>)>
    decreases fs.len(),
{
    if fs.len() == 0 {
        Seq::empty()
    } else if fs[0].0 {
        seq![(fs[0].1, fs[0].2.1)] + tag_pairs(fs.drop_first())
    } else {
        tag_pairs(fs.drop_first())
    }
}

/// The `(name, text)` of each field, in order.
pub open spec fn field_pairs(fs: Seq<FieldView>) -> Seq<(Seq<char>, Seq<char>)>
    decreases fs.len(),
{
    if fs.len() == 0 {
        Seq::empty()
    } else if !fs[0].0 {
        seq![(fs[0].1, fs[0].2.1)] + field_pairs(fs.drop_first())
    } else {
        field_pairs(fs.drop_first())
    }
}

/// Scans the segments `,key=value` at the start of `t`: their pairs, and what
/// follows them.
pub open spec fn decode_tags(t: Seq<char>) -> (Seq<(Seq<char>, Seq<char>)>, Seq<char>)
    decreases t.len(),
{
    if t.len() > 0 && t[0] == ',' {
        let body = t.drop_first();
        let key = read_token(body, Escaping::Key, key_stops());
        if key.1 < body.len() {
            let after = body.subrange(key.1 + 1int, body.len() as int);
            let value = read_token(after, Escaping::Key, seq![',', ' ']);
            if value.1 <= after.len() {
                let next = decode_tags(after.subrange(value.1 as int, after.len() as int));
                (seq![(key.0, value.0)] + next.0, next.1)
            } else {
                (Seq::empty(), t)
            }
        } else {
            (Seq::empty(), t)
        }
    } else {
        (Seq::empty(), t)
    }
}

/// Scans the segments `key=value`, joined by commas, that make up `t`.
pub open spec fn decode_fields(t: Seq<char>) -> Seq<(Seq<char>, Seq<char>)>
    decreases t.len(),
{
    if t.len() == 0 {
        Seq::empty()
    } else {
        let key = read_token(t, Escaping::Key, key_stops());
        if key.1 < t.len() {
            let after = t.subrange(key.1 + 1int, t.len() as int);
            let value = read_token(after, Escaping::StringField, seq![',']);
            if value.1 <= after.len() {
                let rest = after.subrange(value.1 as int, after.len() as int);
                seq![(key.0, value.0)] + if rest.len() > 0 {
                    decode_fields(rest.drop_first())
                } else {
                    Seq::empty()
                }
            } else {
                Seq::empty()
            }
        } else {
            Seq::empty()
        }
    }
}

/// Scans a whole line: the measurement name up to the first comma or space,
/// the tags up to the space, and the fields after it.
pub open spec fn decode_line(t: Seq<char>) -> (
    Seq<char>,
    Seq<(Seq<char>, Seq<char>)>,
    Seq<(Seq<char>, Seq<char>)>,
) {
    let m = read_token(t, Escaping::Measurement, seq![',', ' ']);
    let tags = decode_tags(t.subrange(m.1 as int, t.len() as int));
    (m.0, tags.0, decode_fields(tags.1.drop_first()))
}

pub open spec fn join_fields(x: Seq<char>, y: Seq<char>) -> Seq<char> {
    if x.len() == 0 {
        y
    } else if y.len() == 0 {
        x
    } else {
        x + seq![','] + y
    }
}

proof fn lemma_tag_section_concat(a: Seq<FieldView>, b: Seq<FieldView>)
    ensures
        tag_section(a + b) == tag_section(a) + tag_section(b),
    decreases b.len(),
{
    if b.len() == 0 {
        assert(a + b =~= a);
        assert(tag_section(a) + tag_section(b) =~= tag_section(a));
    } else {
        assert((a + b).drop_last() =~= a + b.drop_last());
        assert((a + b).last() == b.last());
        lemma_tag_section_concat(a, b.drop_last());
        assert(tag_section(a + b) =~= tag_section(a) + tag_section(b));
    }
}

proof fn lemma_field_section_concat(a: Seq<FieldView>, b: Seq<FieldView>)
    ensures
        field_section(a + b) == join_fields(field_section(a), field_section(b)),
    decreases b.len(),
{
    if b.len() == 0 {
        assert(a + b =~= a);
    } else {
        assert((a + b).drop_last() =~= a + b.drop_last());
        assert((a + b).last() == b.last());
        lemma_field_section_concat(a, b.drop_last());
        let x = field_section(a);
        let y = field_section(b.drop_last());
        let f = b.last();
        if !f.0 {
            if x.len() > 0 && y.len() > 0 {
                assert(x + seq![','] + y + seq![','] + field_item(f) =~= x + seq![','] + (y
                    + seq![','] + field_item(f)));
            } else if x.len() > 0 {
                assert(field_item(f).len() > 0) by {
                    assert(field_item(f)[escaped(f.1, Escaping::Key).len() as int] == '=');
                }
            }
        }
    }
}

proof fn lemma_sections_front(fs: Seq<FieldView>)
    requires
        fs.len() > 0,
    ensures
        tag_section(fs) == (if fs[0].0 {
            seq![','] + escaped(fs[0].1, Escaping::Key) + seq!['='] + tag_value_text(fs[0].2)
        } else {
            Seq::empty()
        }) + tag_section(fs.drop_first()),
        field_section(fs) == join_fields(
            if fs[0].0 {
                Seq::empty()
            } else {
                field_item(fs[0])
            },
            field_section(fs.drop_first()),
        ),
{
    let one = seq![fs[0]];
    assert(fs =~= one + fs.drop_first());
    lemma_tag_section_concat(one, fs.drop_first());
    lemma_field_section_concat(one, fs.drop_first());
    assert(one.drop_last() =~= Seq::<FieldView>::empty());
    assert(one.last() == fs[0]);
    assert(tag_section(one.drop_last()) =~= Seq::<char>::empty());
    assert(field_section(one.drop_last()) =~= Seq::<char>::empty());
    assert(tag_section(one) =~= Seq::<char>::empty() + (if fs[0].0 {
        seq![','] + escaped(fs[0].1, Escaping::Key) + seq!['='] + tag_value_text(fs[0].2)
    } else {
        Seq::empty()
    }));
}

/// Whether a tag or a field can be read back by scanning: its name does not
/// end in a bare backslash, a number has a number's text (as every `Decimal`
/// has), a tag's text does not end in a bare backslash, and a field's text
/// holds no comma.
pub open spec fn readable(f: FieldView) -> bool {
    &&& !ends_in_bare_backslash(f.1, Escaping::Key)
    &&& f.2.0 ==> number_chars(f.2.1)
    &&& f.0 && !f.2.0 ==> !ends_in_bare_backslash(f.2.1, Escaping::Key)
    &&& !f.0 && !f.2.0 ==> !f.2.1.contains(',')
}

/// A number's text holds no character that any class escapes, no comma, and
/// no backslash.
pub proof fn lemma_number_text_plain(t: Seq<char>)
    requires
        number_chars(t),
    ensures
        forall|k: int|
            0 <= k < t.len() ==> !is_special(Escaping::Key, #[trigger] t[k]) && !is_special(
                Escaping::StringField,
                t[k],
            ) && !is_special(Escaping::Measurement, t[k]),
        !t.contains(','),
        !ends_in_bare_backslash(t, Escaping::Key),
{
    if t.contains(',') {
        let k = choose|k: int| 0 <= k < t.len() && t[k] == ',';
        assert(is_number_char(t[k]));
    }
    if t.len() > 0 {
        assert(is_number_char(t[t.len() - 1]));
    }
}

#[verifier::rlimit(50)]
proof fn lemma_decode_tags(fs: Seq<FieldView>, tail: Seq<char>)
    requires
        forall|k: int| 0 <= k < fs.len() ==> readable(#[trigger] fs[k]),
        tail.len() > 0 && tail[0] == ' ',
    ensures
        decode_tags(tag_section(fs) + tail) == (tag_pairs(fs), tail),
    decreases fs.len(),
{
    if fs.len() == 0 {
        assert(tag_section(fs) + tail =~= tail);
        assert(tag_pairs(fs) =~= Seq::<(Seq<char>, Seq<char>)>::empty());
    } else {
        let f = fs[0];
        let rest = fs.drop_first();
        assert(readable(fs[0]));
        if f.2.0 {
            lemma_number_text_plain(f.2.1);
        }
        assert forall|k: int| 0 <= k < rest.len() implies readable(#[trigger] rest[k]) by {
            assert(rest[k] == fs[k + 1]);
        }
        lemma_sections_front(fs);
        lemma_decode_tags(rest, tail);
        if f.0 {
            let t2 = tag_section(rest) + tail;
            lemma_read_tag(f, t2);
            let seg = escaped(f.1, Escaping::Key) + seq!['='] + tag_value_text(f.2) + t2;
            let t = tag_section(fs) + tail;
            assert(t =~= seq![','] + seg);
            assert(t.drop_first() =~= seg);
            if tag_section(rest).len() > 0 {
                assert(tag_section(rest)[0] == ',') by {
                    lemma_tag_section_starts(rest);
                }
            }
            assert(t2.len() == 0 || t2[0] == ',' || t2[0] == ' ');
            let after = seg.subrange(escaped(f.1, Escaping::Key).len() + 1int, seg.len() as int);
            assert(after.subrange(tag_value_text(f.2).len() as int, after.len() as int) == t2);
            assert(tag_pairs(fs) == seq![(f.1, f.2.1)] + tag_pairs(rest));
        } else {
            assert(tag_section(fs) + tail =~= tag_section(rest) + tail);
        }
    }
}

proof fn lemma_tag_section_starts(fs: Seq<FieldView>)
    requires
        tag_section(fs).len() > 0,
    ensures
        tag_section(fs)[0] == ',',
    decreases fs.len(),
{
    if fs.len() > 0 {
        lemma_sections_front(fs);
        if !fs[0].0 {
            assert(tag_section(fs) =~= tag_section(fs.drop_first()));
            lemma_tag_section_starts(fs.drop_first());
        }
    }
}

proof fn lemma_field_pairs_empty(fs: Seq<FieldView>)
    requires
        field_section(fs).len() == 0,
    ensures
        field_pairs(fs).len() == 0,
    decreases fs.len(),
{
    if fs.len() > 0 {
        lemma_sections_front(fs);
        if !fs[0].0 {
            assert(field_item(fs[0])[escaped(fs[0].1, Escaping::Key).len() as int] == '=');
        } else {
            lemma_field_pairs_empty(fs.drop_first());
        }
    }
}

proof fn lemma_decode_fields(fs: Seq<FieldView>)
    requires
        forall|k: int| 0 <= k < fs.len() ==> readable(#[trigger] fs[k]),
    ensures
        decode_fields(field_section(fs)) == field_pairs(fs),
    decreases fs.len(),
{
    if fs.len() == 0 {
        assert(field_pairs(fs) =~= Seq::<(Seq<char>, Seq<char>)>::empty());
    } else {
        let f = fs[0];
        let rest = fs.drop_first();
        assert(readable(fs[0]));
        if f.2.0 {
            lemma_number_text_plain(f.2.1);
        }
        assert forall|k: int| 0 <= k < rest.len() implies readable(#[trigger] rest[k]) by {
            assert(rest[k] == fs[k + 1]);
        }
        lemma_sections_front(fs);
        lemma_decode_fields(rest);
        let y = field_section(rest);
        if !f.0 {
            let item = field_item(f);
            let tail = if y.len() == 0 {
                Seq::<char>::empty()
            } else {
                seq![','] + y
            };
            assert(field_section(fs) =~= item + tail);
            lemma_read_field(f, tail);
            assert(item[escaped(f.1, Escaping::Key).len() as int] == '=');
            let seg = item + tail;
            let after = seg.subrange(escaped(f.1, Escaping::Key).len() + 1int, seg.len() as int);
            assert(after.subrange(field_value_text(f.2).len() as int, after.len() as int) == tail);
            if y.len() == 0 {
                lemma_field_pairs_empty(rest);
                assert(field_pairs(rest) =~= Seq::<(Seq<char>, Seq<char>)>::empty());
                assert(field_pairs(fs) =~= seq![(f.1, f.2.1)]);
                assert(decode_fields(seg) =~= seq![(f.1, f.2.1)]);
            } else {
                assert(tail.drop_first() =~= y);
            }
        } else {
            assert(field_section(fs) == y);
        }
    }
}

/// Scanning an encoded line reads back the measurement name, then the name
/// and text of each tag in the order of insertion, then those of each field
/// in the order of insertion. The measurement name and each readable entry
/// must not end in a bare backslash, and no field text may hold a comma.
pub proof fn lemma_line_round_trip(measurement: Seq<char>, fs: Seq<FieldView>)
    requires
        !ends_in_bare_backslash(measurement, Escaping::Measurement),
        forall|k: int| 0 <= k < fs.len() ==> readable(#[trigger] fs[k]),
    ensures
        decode_line(line_of(measurement, fs)) == (measurement, tag_pairs(fs), field_pairs(fs)),
{
    let em = escaped(measurement, Escaping::Measurement);
    let fsec = field_section(fs);
    let tail = tag_section(fs) + seq![' '] + fsec;
    let line = line_of(measurement, fs);
    assert(line =~= em + tail);
    if tag_section(fs).len() > 0 {
        lemma_tag_section_starts(fs);
        assert(tail[0] == ',');
        assert(seq![',', ' '].contains(tail[0])) by {
            assert(seq![',', ' '][0] == ',');
        }
    } else {
        assert(tail[0] == ' ');
        assert(seq![',', ' '].contains(tail[0])) by {
            assert(seq![',', ' '][1] == ' ');
        }
    }
    lemma_read_escaped(measurement, Escaping::Measurement, seq![',', ' '], tail);
    assert(line.subrange(em.len() as int, line.len() as int) =~= tag_section(fs) + (seq![' ']
        + fsec));
    lemma_decode_tags(fs, seq![' '] + fsec);
    assert((seq![' '] + fsec).drop_first() =~= fsec);
    lemma_decode_fields(fs);
}

/// The round trip on data as a poll builds it: there every number has a
/// number's text, so only the names and texts need the conditions of
/// `readable`.
pub proof fn lemma_data_round_trip(measurement: Seq<char>, data: PublishData)
    requires
        data.wf(),
        !ends_in_bare_backslash(measurement, Escaping::Measurement),
        forall|k: int|
            0 <= k < data@.len() ==> {
                let f = #[trigger] data@[k];
                &&& !ends_in_bare_backslash(f.1, Escaping::Key)
                &&& f.0 && !f.2.0 ==> !ends_in_bare_backslash(f.2.1, Escaping::Key)
                &&& !f.0 && !f.2.0 ==> !f.2.1.contains(',')
            },
    ensures
        decode_line(line_of(measurement, data@)) == (
            measurement,
            tag_pairs(data@),
            field_pairs(data@),
        ),
{
    assert forall|k: int| 0 <= k < data@.len() implies readable(#[trigger] data@[k]) by {
        assert(data@[k].2.0 ==> number_chars(data@[k].2.1));
    }
    lemma_line_round_trip(measurement, data@);
}

/// In the line, the tag at position `k` stands as `,key=value`, with its
/// key and a text value escaped in the tag class, between the measurement and
/// the earlier tags and the later tags and the fields.
pub proof fn lemma_tag_in_line(measurement: Seq<char>, fs: Seq<FieldView>, k: int)
    requires
        0 <= k < fs.len(),
        fs[k].0,
    ensures
        line_of(measurement, fs) == escaped(measurement, Escaping::Measurement) + tag_section(
            fs.take(k),
        ) + (seq![','] + escaped(fs[k].1, Escaping::Key) + seq!['='] + tag_value_text(fs[k].2))
            + (tag_section(fs.skip(k + 1)) + seq![' '] + field_section(fs)),
{
    let one = seq![fs[k]];
    assert(fs =~= fs.take(k) + one + fs.skip(k + 1));
    lemma_tag_section_concat(fs.take(k) + one, fs.skip(k + 1));
    lemma_tag_section_concat(fs.take(k), one);
    lemma_sections_front(one);
    assert(one.drop_first() =~= Seq::<FieldView>::empty());
    assert(tag_section(one) =~= seq![','] + escaped(fs[k].1, Escaping::Key) + seq!['=']
        + tag_value_text(fs[k].2));
    assert(line_of(measurement, fs) =~= escaped(measurement, Escaping::Measurement)
        + tag_section(fs.take(k)) + tag_section(one) + (tag_section(fs.skip(k + 1)) + seq![' ']
        + field_section(fs)));
}

/// In the line, the field at position `k` stands as `key=value`, with its key
/// escaped in the key class and a text value in the string-field class, after
/// the space, the earlier fields and their comma, and before the comma and
/// the later fields.
pub proof fn lemma_field_in_line(measurement: Seq<char>, fs: Seq<FieldView>, k: int)
    requires
        0 <= k < fs.len(),
        !fs[k].0,
    ensures
        ({
            let before = field_section(fs.take(k));
            let after = field_section(fs.skip(k + 1));
            line_of(measurement, fs) == escaped(measurement, Escaping::Measurement) + tag_section(
                fs,
            ) + seq![' '] + (if before.len() == 0 {
                before
            } else {
                before + seq![',']
            }) + (escaped(fs[k].1, Escaping::Key) + seq!['='] + field_value_text(fs[k].2)) + (
            if after.len() == 0 {
                after
            } else {
                seq![','] + after
            })
        }),
{
    let one = seq![fs[k]];
    let before = field_section(fs.take(k));
    let after = field_section(fs.skip(k + 1));
    let item = field_item(fs[k]);
    assert(fs =~= fs.take(k) + one + fs.skip(k + 1));
    lemma_field_section_concat(fs.take(k) + one, fs.skip(k + 1));
    lemma_field_section_concat(fs.take(k), one);
    lemma_sections_front(one);
    assert(one.drop_first() =~= Seq::<FieldView>::empty());
    assert(field_section(one) =~= item);
    assert(item.len() > 0) by {
        assert(item[escaped(fs[k].1, Escaping::Key).len() as int] == '=');
    }
    let mid = if before.len() == 0 {
        before
    } else {
        before + seq![',']
    };
    let tail = if after.len() == 0 {
        after
    } else {
        seq![','] + after
    };
    assert(field_section(fs) =~= mid + item + tail);
    assert(line_of(measurement, fs) =~= escaped(measurement, Escaping::Measurement)
        + tag_section(fs) + seq![' '] + mid + item + tail);
}

pub open spec fn plain_in(s: Seq<char>, e: Escaping) -> bool {
    forall|i: int| 0 <= i < s.len() ==> !is_special(e, #[trigger] s[i])
}

/// Where the measurement name, the names and the texts hold no character of
/// their class, the line holds each of them verbatim: with the places that
/// `lemma_tag_in_line` and `lemma_field_in_line` give, no backslash is added.
pub proof fn lemma_plain_entries(measurement: Seq<char>, fs: Seq<FieldView>)
    requires
        plain_in(measurement, Escaping::Measurement),
        forall|k: int|
            0 <= k < fs.len() ==> {
                let f = #[trigger] fs[k];
                &&& plain_in(f.1, Escaping::Key)
                &&& f.0 && !f.2.0 ==> plain_in(f.2.1, Escaping::Key)
                &&& !f.0 && !f.2.0 ==> plain_in(f.2.1, Escaping::StringField)
            },
    ensures
        escaped(measurement, Escaping::Measurement) == measurement,
        forall|k: int|
            0 <= k < fs.len() ==> {
                let f = #[trigger] fs[k];
                &&& escaped(f.1, Escaping::Key) == f.1
                &&& f.0 ==> tag_value_text(f.2) == f.2.1
                &&& !f.0 ==> field_value_text(f.2) == f.2.1
            },
{
    lemma_escape_plain(measurement, Escaping::Measurement);
    assert forall|k: int| 0 <= k < fs.len() implies {
        let f = #[trigger] fs[k];
        &&& escaped(f.1, Escaping::Key) == f.1
        &&& f.0 ==> tag_value_text(f.2) == f.2.1
        &&& !f.0 ==> field_value_text(f.2) == f.2.1
    } by {
        let f = fs[k];
        lemma_escape_plain(f.1, Escaping::Key);
        if !f.2.0 {
            if f.0 {
                lemma_escape_plain(f.2.1, Escaping::Key);
            } else {
                lemma_escape_plain(f.2.1, Escaping::StringField);
            }
        }
    }
}

/// A text with no special character is written unchanged.
pub proof fn lemma_escape_plain(s: Seq<char>, e: Escaping)
    requires
        forall|i: int| 0 <= i < s.len() ==> !is_special(e, #[trigger] s[i]),
    ensures
        escaped(s, e) == s,
    decreases s.len(),
{
    if s.len() > 0 {
        lemma_escape_plain(s.drop_last(), e);
        assert(s =~= s.drop_last().push(s.last()));
        assert(escaped(s, e) =~= s);
    }
}

/// The encoding is a function of the measurement name and the data alone:
/// two encodings of the same data under the same name are the same text.
pub proof fn lemma_encode_twice(
    measurement: Seq<char>,
    data: Seq<FieldView>,
    first: Seq<char>,
    second: Seq<char>,
)
    requires
        first == line_of(measurement, data),
        second == line_of(measurement, data),
    ensures
        first == second,
{
}

} // verus!
