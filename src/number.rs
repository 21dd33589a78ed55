//! Exact decimal numbers, as scraped from a status page and as written on the wire.
use vstd::prelude::*;
use vstd::string::StrSliceExecFns;
use vstd::string::StringExecFns;

verus! {

pub open spec fn is_digit(c: char) -> bool {
    '0' <= c && c <= '9'
}

pub open spec fn all_digits(s: Seq<char>) -> bool {
    forall|i: int| 0 <= i < s.len() ==> is_digit(#[trigger] s[i])
}

/// Index of the first `c` in `s`, or `s.len()` when there is none.
pub open spec fn first_index(s: Seq<char>, c: char) -> int
    decreases s.len(),
{
    if s.len() == 0 {
        0
    } else if s[0] == c {
        0
    } else {
        1 + first_index(s.drop_first(), c)
    }
}

pub open spec fn trim_leading_zeros(s: Seq<char>) -> Seq<char>
    decreases s.len(),
{
    if s.len() > 0 && s[0] == '0' {
        trim_leading_zeros(s.drop_first())
    } else {
        s
    }
}

pub open spec fn trim_trailing_zeros(s: Seq<char>) -> Seq<char>
    decreases s.len(),
{
    if s.len() > 0 && s.last() == '0' {
        trim_trailing_zeros(s.drop_last())
    } else {
        s
    }
}

pub open spec fn has_sign(s: Seq<char>) -> bool {
    s.len() > 0 && (s[0] == '-' || s[0] == '+')
}

/// The text after an optional leading sign.
pub open spec fn unsigned_part(s: Seq<char>) -> Seq<char> {
    if has_sign(s) {
        s.drop_first()
    } else {
        s
    }
}

pub open spec fn is_exponent_mark(c: char) -> bool {
    c == 'e' || c == 'E'
}

/// Index of the first `e` or `E` in `s`, or `s.len()` when there is none.
pub open spec fn first_mark(s: Seq<char>) -> int
    decreases s.len(),
{
    if s.len() == 0 {
        0
    } else if is_exponent_mark(s[0]) {
        0
    } else {
        1 + first_mark(s.drop_first())
    }
}

/// The digits and point before the exponent.
pub open spec fn mantissa(s: Seq<char>) -> Seq<char> {
    let u = unsigned_part(s);
    u.subrange(0, first_mark(u))
}

/// The text after `e` or `E`, if there is one.
pub open spec fn exponent_text(s: Seq<char>) -> Option<Seq<char>> {
    let u = unsigned_part(s);
    let m = first_mark(u);
    if m < u.len() {
        Some(u.subrange(m + 1, u.len() as int))
    } else {
        None
    }
}

pub open spec fn exponent_digits(t: Seq<char>) -> Seq<char> {
    if has_sign(t) {
        t.drop_first()
    } else {
        t
    }
}

pub open spec fn digit_value(c: char) -> int {
    (c as u32) as int - ('0' as u32) as int
}

/// The number that a run of decimal digits writes.
pub open spec fn digits_value(d: Seq<char>) -> int
    decreases d.len(),
{
    if d.len() == 0 {
        0
    } else {
        digits_value(d.drop_last()) * 10 + digit_value(d.last())
    }
}

/// The power of ten that the exponent writes (zero where there is none).
pub open spec fn exponent_value(s: Seq<char>) -> int {
    match exponent_text(s) {
        None => 0,
        Some(t) => if t.len() > 0 && t[0] == '-' {
            -digits_value(exponent_digits(t))
        } else {
            digits_value(exponent_digits(t))
        },
    }
}

/// The largest exponent magnitude read; beyond it a binary double is
/// infinite or zero.
pub const MAX_EXPONENT: u64 = 400;

pub open spec fn integer_digits(s: Seq<char>) -> Seq<char> {
    let m = mantissa(s);
    m.subrange(0, first_index(m, '.'))
}

pub open spec fn fraction_digits(s: Seq<char>) -> Seq<char> {
    let m = mantissa(s);
    let d = first_index(m, '.');
    if d < m.len() {
        m.subrange(d + 1, m.len() as int)
    } else {
        Seq::empty()
    }
}

/// `[+-]? digits ('.' digits)? ([eE] [+-]? digits)?` with at least one digit
/// before the exponent, and an exponent of at most `MAX_EXPONENT`.
pub open spec fn is_decimal_text(s: Seq<char>) -> bool {
    &&& all_digits(integer_digits(s))
    &&& all_digits(fraction_digits(s))
    &&& integer_digits(s).len() + fraction_digits(s).len() > 0
    &&& match exponent_text(s) {
        None => true,
        Some(t) => {
            &&& exponent_digits(t).len() > 0
            &&& all_digits(exponent_digits(t))
            &&& digits_value(exponent_digits(t)) <= MAX_EXPONENT
        },
    }
}

pub open spec fn zeros(n: int) -> Seq<char> {
    Seq::new(n as nat, |i: int| '0')
}

/// The digits before the point, once the point of `d` stands after `p` digits.
pub open spec fn whole_of(d: Seq<char>, p: int) -> Seq<char> {
    if p <= 0 {
        Seq::empty()
    } else if p >= d.len() {
        d + zeros(p - d.len())
    } else {
        d.subrange(0, p)
    }
}

/// The digits after the point, once the point of `d` stands after `p` digits.
pub open spec fn frac_of(d: Seq<char>, p: int) -> Seq<char> {
    if p <= 0 {
        zeros(-p) + d
    } else if p >= d.len() {
        Seq::empty()
    } else {
        d.subrange(p, d.len() as int)
    }
}

/// Where the point stands once the exponent is applied.
pub open spec fn point(s: Seq<char>) -> int {
    integer_digits(s).len() + exponent_value(s)
}

/// The shortest plain text of the number that `s` writes, with the exponent
/// applied: no `+`, no leading zeros in the integer part (but a single `0`),
/// no trailing zeros in the fraction and no `.` when the fraction is empty. A
/// `-` stays, also before zero.
pub open spec fn canonical_text(s: Seq<char>) -> Seq<char> {
    let sign = if s.len() > 0 && s[0] == '-' { seq!['-'] } else { Seq::<char>::empty() };
    let digits = integer_digits(s) + fraction_digits(s);
    let whole = trim_leading_zeros(whole_of(digits, point(s)));
    let whole = if whole.len() == 0 { seq!['0'] } else { whole };
    let frac = trim_trailing_zeros(frac_of(digits, point(s)));
    let frac = if frac.len() == 0 { Seq::<char>::empty() } else { seq!['.'] + frac };
    sign + whole + frac
}

/// The number parsed from `s`, as its canonical text; `None` where `s` is no
/// decimal number.
pub open spec fn parse_decimal_spec(s: Seq<char>) -> Option<Seq<char>> {
    if is_decimal_text(s) {
        Some(canonical_text(s))
    } else {
        None
    }
}

/// Whether a canonical text stands for zero (of either sign).
pub open spec fn is_zero_text(t: Seq<char>) -> bool {
    t == seq!['0'] || t == seq!['-', '0']
}

/// A character of a number's text: a digit, `-` or `.`.
pub open spec fn is_number_char(c: char) -> bool {
    is_digit(c) || c == '-' || c == '.'
}

pub open spec fn number_chars(t: Seq<char>) -> bool {
    forall|i: int| 0 <= i < t.len() ==> is_number_char(#[trigger] t[i])
}

proof fn lemma_trims_keep_digits(x: Seq<char>)
    requires
        all_digits(x),
    ensures
        all_digits(trim_leading_zeros(x)),
        all_digits(trim_trailing_zeros(x)),
    decreases x.len(),
{
    if x.len() > 0 {
        assert(all_digits(x.drop_first()) && all_digits(x.drop_last())) by {
            assert forall|i: int| 0 <= i < x.len() - 1 implies is_digit(#[trigger] x.drop_first()[i]) && is_digit(x.drop_last()[i]) by {
                assert(x.drop_first()[i] == x[i + 1]);
                assert(x.drop_last()[i] == x[i]);
            }
        }
        lemma_trims_keep_digits(x.drop_first());
        lemma_trims_keep_digits(x.drop_last());
    }
}

/// The canonical text of a number holds only digits, `-` and `.`: no
/// character that line protocol escapes.
pub proof fn lemma_canonical_chars(s: Seq<char>)
    requires
        is_decimal_text(s),
    ensures
        number_chars(canonical_text(s)),
{
    let d = integer_digits(s) + fraction_digits(s);
    assert(all_digits(d)) by {
        assert forall|i: int| 0 <= i < d.len() implies is_digit(#[trigger] d[i]) by {
            if i < integer_digits(s).len() {
                assert(d[i] == integer_digits(s)[i]);
            } else {
                assert(d[i] == fraction_digits(s)[i - integer_digits(s).len()]);
            }
        }
    }
    let p = point(s);
    let w = whole_of(d, p);
    let f = frac_of(d, p);
    assert(all_digits(w)) by {
        assert forall|i: int| 0 <= i < w.len() implies is_digit(#[trigger] w[i]) by {
            if p >= d.len() && i >= d.len() {
                assert(w[i] == zeros(p - d.len())[i - d.len()]);
            } else {
                assert(w[i] == d[i]);
            }
        }
    }
    assert(all_digits(f)) by {
        assert forall|i: int| 0 <= i < f.len() implies is_digit(#[trigger] f[i]) by {
            if p <= 0 {
                if i < -p {
                    assert(f[i] == zeros(-p)[i]);
                } else {
                    assert(f[i] == d[i + p]);
                }
            } else {
                assert(f[i] == d[i + p]);
            }
        }
    }
    lemma_trims_keep_digits(w);
    lemma_trims_keep_digits(f);
    let c = canonical_text(s);
    assert forall|i: int| 0 <= i < c.len() implies is_number_char(#[trigger] c[i]) by {
        let sign = if s.len() > 0 && s[0] == '-' { seq!['-'] } else { Seq::<char>::empty() };
        let tw = trim_leading_zeros(w);
        let ww = if tw.len() == 0 { seq!['0'] } else { tw };
        let tf = trim_trailing_zeros(f);
        let ff = if tf.len() == 0 { Seq::<char>::empty() } else { seq!['.'] + tf };
        assert(c == sign + ww + ff);
        if i < sign.len() {
        } else if i < sign.len() + ww.len() {
            assert(c[i] == ww[i - sign.len()]);
        } else {
            assert(c[i] == ff[i - sign.len() - ww.len()]);
            if tf.len() > 0 && i > sign.len() + ww.len() {
                assert(ff[i - sign.len() - ww.len()] == tf[i - sign.len() - ww.len() - 1]);
            }
        }
    }
}

/// A decimal number, held as its canonical text.
#[derive(Debug)]
pub struct Decimal {
    text: String,
}

impl Clone for Decimal {
    fn clone(&self) -> (r: Decimal)
        ensures
            r@ == self@,
    {
        proof {
            use_type_invariant(self);
        }
        Decimal { text: self.text.clone() }
    }
}

impl View for Decimal {
    type V = Seq<char>;

    closed spec fn view(&self) -> Seq<char> {
        self.text@
    }
}

fn first_index_exec(s: &str, c: char, from: usize, to: usize) -> (r: usize)
    requires
        from <= to <= s@.len(),
    ensures
        from <= r <= to,
        r == from + first_index(s@.subrange(from as int, to as int), c),
{
    let mut i = from;
    while i < to && s.get_char(i) != c
        invariant
            from <= i <= to <= s@.len(),
            first_index(s@.subrange(from as int, to as int), c) == (i - from) + first_index(
                s@.subrange(i as int, to as int),
                c,
            ),
        decreases to - i,
    {
        assert(s@.subrange(i as int, to as int).drop_first() =~= s@.subrange(i + 1, to as int));
        i = i + 1;
    }
    proof {
        lemma_first_index_stop(s@.subrange(i as int, to as int), c);
    }
    i
}

fn first_mark_exec(s: &str, from: usize) -> (r: usize)
    requires
        from <= s@.len(),
    ensures
        from <= r <= s@.len(),
        r == from + first_mark(s@.subrange(from as int, s@.len() as int)),
{
    let n = s.unicode_len();
    let mut i = from;
    while i < n && !(s.get_char(i) == 'e' || s.get_char(i) == 'E')
        invariant
            n == s@.len(),
            from <= i <= n,
            first_mark(s@.subrange(from as int, n as int)) == (i - from) + first_mark(
                s@.subrange(i as int, n as int),
            ),
        decreases n - i,
    {
        assert(s@.subrange(i as int, n as int).drop_first() =~= s@.subrange(i + 1, n as int));
        i = i + 1;
    }
    proof {
        lemma_first_mark_bound(s@.subrange(i as int, n as int));
        if i < n {
            assert(s@.subrange(i as int, n as int)[0] == s@[i as int]);
        }
    }
    i
}

proof fn lemma_first_mark_bound(s: Seq<char>)
    ensures
        0 <= first_mark(s) <= s.len(),
        first_mark(s) < s.len() ==> is_exponent_mark(s[first_mark(s)]),
        s.len() == 0 || is_exponent_mark(s[0]) ==> first_mark(s) == 0,
    decreases s.len(),
{
    if s.len() > 0 && !is_exponent_mark(s[0]) {
        lemma_first_mark_bound(s.drop_first());
    }
}

proof fn lemma_digits_prefix(t: Seq<char>, k: int)
    requires
        0 <= k <= t.len(),
        all_digits(t),
    ensures
        0 <= digits_value(t.subrange(0, k)) <= digits_value(t),
    decreases t.len(),
{
    if k < t.len() {
        assert(t.drop_last().subrange(0, k) =~= t.subrange(0, k));
        assert(is_digit(t[t.len() - 1]));
        lemma_digits_prefix(t.drop_last(), k);
    } else {
        assert(t.subrange(0, k) =~= t);
        if t.len() > 0 {
            assert(is_digit(t[t.len() - 1]));
            lemma_digits_prefix(t.drop_last(), t.len() - 1);
            assert(t.drop_last().subrange(0, t.len() - 1) =~= t.drop_last());
        }
    }
}

/// The value of the digits `s[from..to]`, where it is at most `MAX_EXPONENT`.
fn read_exponent(s: &str, from: usize, to: usize) -> (r: Option<usize>)
    requires
        from <= to <= s@.len(),
        all_digits(s@.subrange(from as int, to as int)),
    ensures
        r is Some <==> digits_value(s@.subrange(from as int, to as int)) <= MAX_EXPONENT,
        (r matches Some(v) ==> v == digits_value(s@.subrange(from as int, to as int))),
{
    let ghost whole = s@.subrange(from as int, to as int);
    let mut v: usize = 0;
    let mut i = from;
    assert(s@.subrange(from as int, from as int) =~= Seq::<char>::empty());
    while i < to
        invariant
            from <= i <= to <= s@.len(),
            whole == s@.subrange(from as int, to as int),
            all_digits(whole),
            v == digits_value(s@.subrange(from as int, i as int)),
            v <= MAX_EXPONENT,
        decreases to - i,
    {
        let c = s.get_char(i);
        assert(whole[i - from] == c);
        assert(is_digit(c));
        let ghost next = s@.subrange(from as int, i + 1);
        assert(next.drop_last() =~= s@.subrange(from as int, i as int));
        assert(next.last() == c);
        let d = (c as u32 - '0' as u32) as usize;
        let nv = v * 10 + d;
        assert(nv == digits_value(next));
        if nv > MAX_EXPONENT as usize {
            proof {
                assert(whole.subrange(0, i + 1 - from) =~= next);
                lemma_digits_prefix(whole, i + 1 - from);
            }
            return None;
        }
        v = nv;
        i = i + 1;
    }
    Some(v)
}

fn push_zeros(out: &mut String, k: usize)
    ensures
        final(out)@ == old(out)@ + zeros(k as int),
{
    proof {
        reveal_strlit("0");
    }
    let ghost start = out@;
    let mut i: usize = 0;
    assert(out@ =~= start + zeros(0));
    while i < k
        invariant
            i <= k,
            out@ == start + zeros(i as int),
            "0"@ == seq!['0'],
        decreases k - i,
    {
        out.append("0");
        assert(zeros(i as int).push('0') =~= zeros(i + 1));
        assert(out@ =~= start + zeros(i + 1));
        i = i + 1;
    }
}

proof fn lemma_first_index_stop(s: Seq<char>, c: char)
    requires
        s.len() == 0 || s[0] == c,
    ensures
        first_index(s, c) == 0,
{
}

proof fn lemma_first_index_bound(s: Seq<char>, c: char)
    ensures
        0 <= first_index(s, c) <= s.len(),
        first_index(s, c) < s.len() ==> s[first_index(s, c)] == c,
    decreases s.len(),
{
    if s.len() > 0 && s[0] != c {
        lemma_first_index_bound(s.drop_first(), c);
    }
}

fn check_digits(s: &str, from: usize, to: usize) -> (r: bool)
    requires
        from <= to <= s@.len(),
    ensures
        r == all_digits(s@.subrange(from as int, to as int)),
{
    let mut i = from;
    while i < to
        invariant
            from <= i <= to <= s@.len(),
            all_digits(s@.subrange(from as int, i as int)),
        decreases to - i,
    {
        let c = s.get_char(i);
        if !('0' <= c && c <= '9') {
            assert(s@.subrange(from as int, to as int)[i - from] == c);
            return false;
        }
        assert forall|k: int| 0 <= k < i + 1 - from implies is_digit(
            #[trigger] s@.subrange(from as int, i + 1)[k],
        ) by {
            if k < i - from {
                assert(s@.subrange(from as int, i + 1)[k] == s@.subrange(from as int, i as int)[k]);
            }
        }
        i = i + 1;
    }
    true
}

/// The end of `s[from..to]` once its leading zeros are dropped.
fn skip_leading_zeros(s: &str, from: usize, to: usize) -> (r: usize)
    requires
        from <= to <= s@.len(),
    ensures
        from <= r <= to,
        s@.subrange(r as int, to as int) == trim_leading_zeros(s@.subrange(from as int, to as int)),
{
    let mut i = from;
    while i < to && s.get_char(i) == '0'
        invariant
            from <= i <= to <= s@.len(),
            trim_leading_zeros(s@.subrange(from as int, to as int)) == trim_leading_zeros(
                s@.subrange(i as int, to as int),
            ),
        decreases to - i,
    {
        assert(s@.subrange(i as int, to as int).drop_first() =~= s@.subrange(i + 1, to as int));
        i = i + 1;
    }
    i
}

/// The end of `s[from..to]` once its trailing zeros are dropped.
fn skip_trailing_zeros(s: &str, from: usize, to: usize) -> (r: usize)
    requires
        from <= to <= s@.len(),
    ensures
        from <= r <= to,
        s@.subrange(from as int, r as int) == trim_trailing_zeros(
            s@.subrange(from as int, to as int),
        ),
{
    let mut j = to;
    while j > from && s.get_char(j - 1) == '0'
        invariant
            from <= j <= to <= s@.len(),
            trim_trailing_zeros(s@.subrange(from as int, to as int)) == trim_trailing_zeros(
                s@.subrange(from as int, j as int),
            ),
        decreases j - from,
    {
        assert(s@.subrange(from as int, j as int).drop_last() =~= s@.subrange(
            from as int,
            j - 1,
        ));
        j = j - 1;
    }
    j
}

/// Reads the exponent text `s[from..]`: its sign and its value, where it is
/// valid and at most `MAX_EXPONENT`.
fn parse_exponent(s: &str, from: usize) -> (r: Option<(bool, usize)>)
    requires
        from <= s@.len(),
    ensures
        ({
            let t = s@.subrange(from as int, s@.len() as int);
            &&& r is Some <==> (exponent_digits(t).len() > 0 && all_digits(exponent_digits(t))
                && digits_value(exponent_digits(t)) <= MAX_EXPONENT)
            &&& (r matches Some(x) ==> x.0 == (t.len() > 0 && t[0] == '-') && x.1
                == digits_value(exponent_digits(t)))
        }),
{
    let n = s.unicode_len();
    let ghost t = s@.subrange(from as int, n as int);
    let ds = if from < n && (s.get_char(from) == '-' || s.get_char(from) == '+') {
        from + 1
    } else {
        from
    };
    let negative = from < n && s.get_char(from) == '-';
    assert(exponent_digits(t) =~= s@.subrange(ds as int, n as int));
    if ds == n || !check_digits(s, ds, n) {
        return None;
    }
    match read_exponent(s, ds, n) {
        Some(v) => Some((negative, v)),
        None => None,
    }
}

/// Places the point of `digits` after `idl` digits moved by the exponent.
fn expand(digits: &str, idl: usize, negative: bool, exp: usize) -> (r: (String, String))
    requires
        idl <= digits@.len(),
    ensures
        ({
            let p = idl + if negative { -(exp as int) } else { exp as int };
            r.0@ == whole_of(digits@, p) && r.1@ == frac_of(digits@, p)
        }),
{
    let dl = digits.unicode_len();
    let ghost d = digits@;
    let mut whole = String::new();
    let mut frac = String::new();
    if !negative {
        if exp <= dl - idl {
            let p = idl + exp;
            whole.append(digits.substring_char(0, p));
            frac.append(digits.substring_char(p, dl));
            assert(d.subrange(0, dl as int) =~= d);
            assert(whole@ =~= whole_of(d, p as int));
            assert(frac@ =~= frac_of(d, p as int));
        } else {
            whole.append(digits);
            push_zeros(&mut whole, exp - (dl - idl));
            assert(whole@ =~= whole_of(d, idl + exp));
            assert(frac@ =~= frac_of(d, idl + exp));
        }
    } else {
        if exp < idl {
            let p = idl - exp;
            whole.append(digits.substring_char(0, p));
            frac.append(digits.substring_char(p, dl));
            assert(whole@ =~= whole_of(d, p as int));
            assert(frac@ =~= frac_of(d, p as int));
        } else {
            push_zeros(&mut frac, exp - idl);
            frac.append(digits);
            assert(whole@ =~= whole_of(d, idl - exp));
            assert(frac@ =~= frac_of(d, idl - exp));
        }
    }
    (whole, frac)
}

/// The sign, the integer digits without leading zeros (or `0`), and the
/// fraction digits without trailing zeros after a point (or nothing).
pub open spec fn assembled(negative: bool, whole: Seq<char>, frac: Seq<char>) -> Seq<char> {
    let sign = if negative { seq!['-'] } else { Seq::<char>::empty() };
    let w = trim_leading_zeros(whole);
    let w = if w.len() == 0 { seq!['0'] } else { w };
    let f = trim_trailing_zeros(frac);
    let f = if f.len() == 0 { Seq::<char>::empty() } else { seq!['.'] + f };
    sign + w + f
}

fn assemble(negative: bool, whole: &str, frac: &str) -> (r: String)
    ensures
        r@ == assembled(negative, whole@, frac@),
{
    let mut text = String::new();
    proof {
        reveal_strlit("-");
        reveal_strlit("0");
        reveal_strlit(".");
    }
    if negative {
        text.append("-");
    }
    let wl = whole.unicode_len();
    let w = skip_leading_zeros(whole, 0, wl);
    assert(whole@.subrange(0, wl as int) =~= whole@);
    if w == wl {
        text.append("0");
    } else {
        text.append(whole.substring_char(w, wl));
    }
    let fl = frac.unicode_len();
    let e = skip_trailing_zeros(frac, 0, fl);
    assert(frac@.subrange(0, fl as int) =~= frac@);
    if e > 0 {
        text.append(".");
        text.append(frac.substring_char(0, e));
    }
    assert(text@ =~= assembled(negative, whole@, frac@));
    text
}

impl Decimal {
    /// The text is the canonical text of some decimal number, and so holds
    /// only digits, `-` and `.`.
    #[verifier::type_invariant]
    pub open spec fn wf(&self) -> bool {
        &&& exists|s: Seq<char>| is_decimal_text(s) && self@ == canonical_text(s)
        &&& number_chars(self@)
    }

    /// Parses `[+-]? digits ('.' digits)? ([eE] [+-]? digits)?` into its
    /// canonical text.
    pub fn parse(s: &str) -> (r: Option<Decimal>)
        ensures
            r.is_some() == is_decimal_text(s@),
            (r matches Some(d) ==> d@ == canonical_text(s@) && d.wf()),
    {
        let n = s.unicode_len();
        let start: usize = if n > 0 && (s.get_char(0) == '-' || s.get_char(0) == '+') {
            1
        } else {
            0
        };
        let ghost u = unsigned_part(s@);
        assert(u =~= s@.subrange(start as int, n as int));
        let mark = first_mark_exec(s, start);
        proof {
            lemma_first_mark_bound(u);
        }
        let ghost m = mantissa(s@);
        assert(m =~= s@.subrange(start as int, mark as int));
        let dot = first_index_exec(s, '.', start, mark);
        proof {
            lemma_first_index_bound(m, '.');
        }
        assert(integer_digits(s@) =~= s@.subrange(start as int, dot as int));
        let frac_start = if dot < mark {
            dot + 1
        } else {
            mark
        };
        assert(fraction_digits(s@) =~= s@.subrange(frac_start as int, mark as int));
        if !check_digits(s, start, dot) || !check_digits(s, frac_start, mark) || (dot - start) + (
        mark - frac_start) == 0 {
            return None;
        }
        let mut negative_exp = false;
        let mut exp: usize = 0;
        if mark < n {
            assert(u.subrange(mark - start + 1, u.len() as int) =~= s@.subrange(
                mark + 1,
                n as int,
            ));
            match parse_exponent(s, mark + 1) {
                Some(x) => {
                    negative_exp = x.0;
                    exp = x.1;
                },
                None => return None,
            }
        }
        assert(exponent_value(s@) == if negative_exp { -(exp as int) } else { exp as int });
        let mut digits = String::new();
        digits.append(s.substring_char(start, dot));
        digits.append(s.substring_char(frac_start, mark));
        assert(digits@ =~= integer_digits(s@) + fraction_digits(s@));
        let (whole, frac) = expand(digits.as_str(), dot - start, negative_exp, exp);
        let text = assemble(start == 1 && s.get_char(0) == '-', whole.as_str(), frac.as_str());
        assert(text@ =~= canonical_text(s@));
        proof {
            lemma_canonical_chars(s@);
        }
        Some(Decimal { text })
    }

    /// Whether the number is zero, of either sign.
    pub fn is_zero(&self) -> (r: bool)
        ensures
            r == is_zero_text(self@),
    {
        let s = self.text.as_str();
        let n = s.unicode_len();
        if n == 1 {
            let r = s.get_char(0) == '0';
            assert(r ==> s@ =~= seq!['0']);
            r
        } else if n == 2 {
            let r = s.get_char(0) == '-' && s.get_char(1) == '0';
            assert(r ==> s@ =~= seq!['-', '0']);
            r
        } else {
            false
        }
    }

    /// The canonical text of the number.
    pub fn as_str(&self) -> (r: &str)
        ensures
            r@ == self@,
    {
        self.text.as_str()
    }
}

} // verus!
