use vstd::prelude::*;
use vstd::string::StrSliceExecFns;

verus! {

/// The value a characteristic holds.
#[derive(Clone, Copy, PartialEq, Eq, Structural, Debug)]
pub enum Value {
    Bool(bool),
    Int(i64),
}

/// The set of values that a characteristic accepts.
#[derive(Clone, Copy, PartialEq, Eq, Structural, Debug)]
pub enum Domain {
    /// `true` or `false`.
    Bool,
    /// A decimal integer within `min..=max`.
    Int { min: i64, max: i64 },
}

/// Largest magnitude that a decimal payload of an `i64` can have.
pub const MAGNITUDE_LIMIT: u128 = 9223372036854775808;

pub open spec fn is_digit(c: char) -> bool {
    '0' <= c && c <= '9'
}

pub open spec fn digit_of(c: char) -> int {
    (c as int) - ('0' as int)
}

pub open spec fn all_digits(s: Seq<char>) -> bool {
    forall|i: int| 0 <= i < s.len() ==> is_digit(#[trigger] s[i])
}

/// The number that a string of decimal digits denotes.
pub open spec fn digits_value(s: Seq<char>) -> int
    decreases s.len(),
{
    if s.len() == 0 {
        0
    } else {
        digits_value(s.drop_last()) * 10 + digit_of(s.last())
    }
}

/// A decimal integer: an optional `-` followed by one or more digits.
pub open spec fn decimal_of(s: Seq<char>) -> Option<int> {
    if s.len() > 0 && s[0] == '-' {
        let d = s.drop_first();
        if d.len() > 0 && all_digits(d) {
            Some(-digits_value(d))
        } else {
            None
        }
    } else if s.len() > 0 && all_digits(s) {
        Some(digits_value(s))
    } else {
        None
    }
}

pub open spec fn bool_of(s: Seq<char>) -> Option<bool> {
    if s == seq!['t', 'r', 'u', 'e'] {
        Some(true)
    } else if s == seq!['f', 'a', 'l', 's', 'e'] {
        Some(false)
    } else {
        None
    }
}

/// The value that payload `s` denotes in domain `d`, or `None` when it is malformed.
pub open spec fn parse_spec(s: Seq<char>, d: Domain) -> Option<Value> {
    match d {
        Domain::Bool => match bool_of(s) {
            Some(b) => Some(Value::Bool(b)),
            None => None,
        },
        Domain::Int { min, max } => match decimal_of(s) {
            Some(v) => if min <= v <= max {
                Some(Value::Int(v as i64))
            } else {
                None
            },
            None => None,
        },
    }
}

proof fn lemma_digits_value_nonneg(s: Seq<char>)
    requires
        all_digits(s),
    ensures
        digits_value(s) >= 0,
    decreases s.len(),
{
    if s.len() > 0 {
        lemma_digits_value_nonneg(s.drop_last());
    }
}

proof fn lemma_prefix_value_le(s: Seq<char>, k: int)
    requires
        all_digits(s),
        0 <= k <= s.len(),
    ensures
        digits_value(s.take(k)) <= digits_value(s),
    decreases s.len(),
{
    if k < s.len() {
        assert(s.drop_last().take(k) =~= s.take(k));
        lemma_prefix_value_le(s.drop_last(), k);
        lemma_digits_value_nonneg(s.drop_last());
    } else {
        assert(s.take(k) =~= s);
    }
}

fn parse_bool(s: &str) -> (r: Option<bool>)
    ensures
        r == bool_of(s@),
{
    let n = s.unicode_len();
    if n == 4 && s.get_char(0) == 't' && s.get_char(1) == 'r' && s.get_char(2) == 'u'
        && s.get_char(3) == 'e' {
        assert(s@ =~= seq!['t', 'r', 'u', 'e']);
        Some(true)
    } else if n == 5 && s.get_char(0) == 'f' && s.get_char(1) == 'a' && s.get_char(2) == 'l'
        && s.get_char(3) == 's' && s.get_char(4) == 'e' {
        assert(s@ =~= seq!['f', 'a', 'l', 's', 'e']);
        Some(false)
    } else {
        proof {
            if s@ == seq!['t', 'r', 'u', 'e'] {
                assert(s@.len() == 4);
                assert(s@[0] == 't' && s@[1] == 'r' && s@[2] == 'u' && s@[3] == 'e');
            }
            if s@ == seq!['f', 'a', 'l', 's', 'e'] {
                assert(s@.len() == 5);
                assert(s@[0] == 'f' && s@[1] == 'a' && s@[2] == 'l' && s@[3] == 's'
                    && s@[4] == 'e');
            }
        }
        None
    }
}

/// The integer that payload `s` denotes, when it is one and lies in `min..=max`.
pub open spec fn int_in(s: Seq<char>, min: i64, max: i64) -> Option<i64> {
    match decimal_of(s) {
        Some(v) => if min <= v <= max {
            Some(v as i64)
        } else {
            None
        },
        None => None,
    }
}

fn parse_int(s: &str, min: i64, max: i64) -> (r: Option<i64>)
    ensures
        r == int_in(s@, min, max),
{
    let n = s.unicode_len();
    let neg = n > 0 && s.get_char(0) == '-';
    let start: usize = if neg { 1 } else { 0 };
    if start >= n {
        return None;
    }
    let ghost digits = s@.subrange(start as int, n as int);
    proof {
        if neg {
            assert(digits =~= s@.drop_first());
        } else {
            assert(digits =~= s@);
        }
    }
    let mut mag: u128 = 0;
    let mut i: usize = start;
    while i < n
        invariant
            start <= i <= n,
            n == s@.len(),
            start < n,
            start == (if neg { 1int } else { 0int }),
            neg <==> s@[0] == '-',
            neg ==> digits == s@.drop_first(),
            !neg ==> digits == s@,
            digits == s@.subrange(start as int, n as int),
            all_digits(s@.subrange(start as int, i as int)),
            mag == digits_value(s@.subrange(start as int, i as int)),
            mag <= MAGNITUDE_LIMIT,
        decreases n - i,
    {
        let c = s.get_char(i);
        if !('0' <= c && c <= '9') {
            assert(!is_digit(digits[i - start]));
            assert(!all_digits(digits));
            return None;
        }
        let d: u128 = (c as u128) - ('0' as u128);
        let next: u128 = mag * 10 + d;
        let ghost pre = s@.subrange(start as int, i as int + 1);
        proof {
            assert(pre.drop_last() =~= s@.subrange(start as int, i as int));
            assert(pre.last() == c);
        }
        if next > MAGNITUDE_LIMIT {
            proof {
                if all_digits(digits) {
                    assert(digits.take(i - start + 1) =~= pre);
                    lemma_prefix_value_le(digits, i - start + 1);
                }
            }
            return None;
        }
        mag = next;
        i = i + 1;
        assert(all_digits(pre)) by {
            assert forall|j: int| 0 <= j < pre.len() implies is_digit(#[trigger] pre[j]) by {
                if j < pre.len() - 1 {
                    assert(pre[j] == s@.subrange(start as int, i - 1)[j]);
                }
            }
        }
    }
    assert(s@.subrange(start as int, i as int) == digits);
    let v: i128 = if neg {
        -(mag as i128)
    } else {
        mag as i128
    };
    if (min as i128) <= v && v <= (max as i128) {
        Some(v as i64)
    } else {
        None
    }
}

/// Reads a payload as a value of `domain`; `None` when the payload is malformed.
pub fn parse_payload(payload: &str, domain: Domain) -> (r: Option<Value>)
    ensures
        r == parse_spec(payload@, domain),
{
    match domain {
        Domain::Bool => match parse_bool(payload) {
            Some(b) => Some(Value::Bool(b)),
            None => None,
        },
        Domain::Int { min, max } => match parse_int(payload, min, max) {
            Some(v) => Some(Value::Int(v)),
            None => None,
        },
    }
}

pub open spec fn digit_char(d: int) -> char {
    if d == 0 { '0' } else if d == 1 { '1' } else if d == 2 { '2' } else if d == 3 { '3' }
    else if d == 4 { '4' } else if d == 5 { '5' } else if d == 6 { '6' } else if d == 7 { '7' }
    else if d == 8 { '8' } else { '9' }
}

/// The decimal digits of `n`, without leading zeros.
pub open spec fn digits_of(n: nat) -> Seq<char>
    decreases n,
{
    if n < 10 {
        seq![digit_char(n as int)]
    } else {
        digits_of(n / 10).push(digit_char((n % 10) as int))
    }
}

/// The decimal text of `v`: its digits, after a `-` when negative.
pub open spec fn decimal_text(v: int) -> Seq<char> {
    if v < 0 {
        seq!['-'] + digits_of((-v) as nat)
    } else {
        digits_of(v as nat)
    }
}

/// The payload that carries `v`.
pub open spec fn render_spec(v: Value) -> Seq<char> {
    match v {
        Value::Bool(true) => seq!['t', 'r', 'u', 'e'],
        Value::Bool(false) => seq!['f', 'a', 'l', 's', 'e'],
        Value::Int(i) => decimal_text(i as int),
    }
}

/// `v` is a value of domain `d`.
pub open spec fn in_domain(v: Value, d: Domain) -> bool {
    match (v, d) {
        (Value::Bool(_), Domain::Bool) => true,
        (Value::Int(i), Domain::Int { min, max }) => min <= i <= max,
        _ => false,
    }
}

proof fn lemma_digits_of(n: nat)
    ensures
        digits_of(n).len() > 0,
        all_digits(digits_of(n)),
        digits_value(digits_of(n)) == n,
    decreases n,
{
    let s = digits_of(n);
    if n < 10 {
        assert(s.drop_last() =~= Seq::<char>::empty());
        assert(digits_value(Seq::<char>::empty()) == 0);
        assert(s.last() == digit_char(n as int));
        assert(digits_value(s) == digit_of(digit_char(n as int)));
    } else {
        lemma_digits_of(n / 10);
        assert(s.drop_last() =~= digits_of(n / 10));
        assert(all_digits(s)) by {
            assert forall|i: int| 0 <= i < s.len() implies is_digit(#[trigger] s[i]) by {
                if i < s.len() - 1 {
                    assert(s[i] == digits_of(n / 10)[i]);
                }
            }
        }
    }
}

/// A value written as a payload reads back as the same value in any domain that holds it.
pub proof fn lemma_render_parse_round_trip(v: Value, d: Domain)
    requires
        in_domain(v, d),
    ensures
        parse_spec(render_spec(v), d) == Some(v),
{
    match v {
        Value::Bool(_) => {},
        Value::Int(i) => {
            let t = render_spec(v);
            if i < 0 {
                lemma_digits_of((-i) as nat);
                assert(t.drop_first() =~= digits_of((-i) as nat));
            } else {
                lemma_digits_of(i as nat);
                assert(is_digit(t[0]));
            }
        },
    }
}

/// Relies on `ToString` for `i64` (through its `Display`): the decimal digits of the
/// value without leading zeros, after a `-` when it is negative.
#[verifier::external_body]
fn decimal_string(v: i64) -> (r: String)
    ensures
        r@ == decimal_text(v as int),
{
    v.to_string()
}

/// The payload that carries `v`: `true`, `false` or a decimal integer.
pub fn render(v: Value) -> (r: String)
    ensures
        r@ == render_spec(v),
{
    match v {
        Value::Bool(true) => {
            proof { reveal_strlit("true"); }
            let r = "true".to_owned();
            assert(r@ =~= seq!['t', 'r', 'u', 'e']);
            r
        },
        Value::Bool(false) => {
            proof { reveal_strlit("false"); }
            let r = "false".to_owned();
            assert(r@ =~= seq!['f', 'a', 'l', 's', 'e']);
            r
        },
        Value::Int(i) => decimal_string(i),
    }
}

} // verus!
