//! Session identifiers of the durable store and their text form.
//!
//! A key reads `{"t":<millis>,"r":<random>}`: the instant at which it was
//! issued, in milliseconds since the Unix epoch (a signed decimal), and a
//! random 64-bit component (an unsigned decimal). Both numbers are written
//! without leading zeros and without a plus sign, so each identifier has
//! exactly one text form, and `parse` accepts nothing else.
use vstd::prelude::*;

verus! {

/// Identifier of a record of the durable store.
#[derive(Clone, Copy, Debug, PartialEq, Eq, Structural)]
pub struct SessionId {
    /// Milliseconds since the Unix epoch when the identifier was issued.
    pub timestamp: i64,
    /// The random component.
    pub random: u64,
}

/// The text given is not the text form of a `SessionId`.
#[derive(Clone, Copy, Debug, PartialEq, Eq, Structural)]
pub struct KeyDecodeError;

pub open spec fn digit_char(d: nat) -> char {
    if d == 0 {
        '0'
    } else if d == 1 {
        '1'
    } else if d == 2 {
        '2'
    } else if d == 3 {
        '3'
    } else if d == 4 {
        '4'
    } else if d == 5 {
        '5'
    } else if d == 6 {
        '6'
    } else if d == 7 {
        '7'
    } else if d == 8 {
        '8'
    } else {
        '9'
    }
}

pub open spec fn is_digit(c: char) -> bool {
    c == '0' || c == '1' || c == '2' || c == '3' || c == '4' || c == '5' || c == '6' || c == '7'
        || c == '8' || c == '9'
}

pub open spec fn digit_value(c: char) -> nat {
    if c == '1' {
        1
    } else if c == '2' {
        2
    } else if c == '3' {
        3
    } else if c == '4' {
        4
    } else if c == '5' {
        5
    } else if c == '6' {
        6
    } else if c == '7' {
        7
    } else if c == '8' {
        8
    } else if c == '9' {
        9
    } else {
        0
    }
}

pub open spec fn all_digits(s: Seq<char>) -> bool {
    forall|i: int| 0 <= i < s.len() ==> is_digit(#[trigger] s[i])
}

/// The number that a string of decimal digits denotes.
pub open spec fn digits_value(s: Seq<char>) -> nat
    decreases s.len(),
{
    if s.len() == 0 {
        0
    } else {
        digits_value(s.drop_last()) * 10 + digit_value(s.last())
    }
}

/// The decimal form of `n`, without leading zeros.
pub open spec fn decimal(n: nat) -> Seq<char>
    decreases n,
{
    if n < 10 {
        seq![digit_char(n)]
    } else {
        decimal(n / 10).push(digit_char(n % 10))
    }
}

/// The decimal form of a signed number.
pub open spec fn signed_decimal(n: int) -> Seq<char> {
    if n >= 0 {
        decimal(n as nat)
    } else {
        seq!['-'] + decimal((-n) as nat)
    }
}

pub open spec fn key_head() -> Seq<char> {
    seq!['{', '"', 't', '"', ':']
}

pub open spec fn key_middle() -> Seq<char> {
    seq![',', '"', 'r', '"', ':']
}

/// The text form of an identifier.
pub open spec fn key_text(id: SessionId) -> Seq<char> {
    key_head() + signed_decimal(id.timestamp as int) + key_middle() + decimal(id.random as nat)
        + seq!['}']
}

/// The identifier whose text form is `raw`, if there is one.
pub open spec fn decode_key(raw: Seq<char>) -> Option<SessionId> {
    if exists|id: SessionId| key_text(id) == raw {
        Some(choose|id: SessionId| key_text(id) == raw)
    } else {
        None
    }
}

proof fn lemma_digit_char(d: nat)
    requires
        d < 10,
    ensures
        is_digit(digit_char(d)),
        digit_value(digit_char(d)) == d,
        d != 0 ==> digit_char(d) != '0',
{
}

/// The decimal form is a non-empty string of digits that denotes `n`,
/// with a leading zero only in the form of zero itself.
proof fn lemma_decimal(n: nat)
    ensures
        decimal(n).len() >= 1,
        all_digits(decimal(n)),
        digits_value(decimal(n)) == n,
        decimal(n).len() > 1 ==> decimal(n)[0] != '0',
        decimal(n).len() == 1 ==> n < 10,
    decreases n,
{
    if n < 10 {
        lemma_digit_char(n);
        assert(decimal(n).drop_last() =~= Seq::<char>::empty());
        assert(digits_value(Seq::<char>::empty()) == 0);
    } else {
        lemma_decimal(n / 10);
        lemma_digit_char(n % 10);
        let s = decimal(n);
        assert(s.drop_last() =~= decimal(n / 10));
        assert(s.last() == digit_char(n % 10));
        assert(n == (n / 10) * 10 + n % 10);
        assert(s[0] == decimal(n / 10)[0]);
    }
}

/// A string of digits without a leading zero denotes at least one.
proof fn lemma_value_positive(s: Seq<char>)
    requires
        s.len() >= 1,
        all_digits(s),
        s[0] != '0',
    ensures
        digits_value(s) >= 1,
        s.len() >= 2 ==> digits_value(s) >= 10,
    decreases s.len(),
{
    if s.len() >= 2 {
        let t = s.drop_last();
        assert(all_digits(t)) by {
            assert forall|i: int| 0 <= i < t.len() implies is_digit(#[trigger] t[i]) by {
                assert(t[i] == s[i]);
            }
        }
        assert(t[0] == s[0]);
        lemma_value_positive(t);
    } else {
        assert(s.drop_last() =~= Seq::<char>::empty());
    }
}

/// A string of digits without a leading zero is the decimal form of what it denotes.
proof fn lemma_canonical(s: Seq<char>)
    requires
        s.len() >= 1,
        all_digits(s),
        s.len() > 1 ==> s[0] != '0',
    ensures
        decimal(digits_value(s)) == s,
    decreases s.len(),
{
    let t = s.drop_last();
    assert(all_digits(t)) by {
        assert forall|i: int| 0 <= i < t.len() implies is_digit(#[trigger] t[i]) by {
            assert(t[i] == s[i]);
        }
    }
    let v = digits_value(s);
    let d = digit_value(s.last());
    assert(is_digit(s[s.len() - 1]));
    assert(d < 10);
    if s.len() == 1 {
        assert(t =~= Seq::<char>::empty());
        assert(digits_value(Seq::<char>::empty()) == 0);
        assert(v == d);
        assert(decimal(v) =~= s);
    } else {
        assert(t[0] == s[0]);
        lemma_canonical(t);
        lemma_value_positive(s);
        assert(v / 10 == digits_value(t) && v % 10 == d) by (nonlinear_arith)
            requires
                v == digits_value(t) * 10 + d,
                d < 10,
        ;
        assert(digit_char(d) == s.last());
        assert(decimal(v) =~= s);
    }
}

/// A prefix of a string of digits denotes no more than the whole.
proof fn lemma_prefix_value(s: Seq<char>, i: int)
    requires
        0 <= i <= s.len(),
        all_digits(s),
    ensures
        digits_value(s.subrange(0, i)) <= digits_value(s),
    decreases s.len(),
{
    if i < s.len() {
        let t = s.drop_last();
        assert(all_digits(t)) by {
            assert forall|k: int| 0 <= k < t.len() implies is_digit(#[trigger] t[k]) by {
                assert(t[k] == s[k]);
            }
        }
        lemma_prefix_value(t, i);
        assert(t.subrange(0, i) =~= s.subrange(0, i));
    } else {
        assert(s.subrange(0, i) =~= s);
    }
}

fn digit_text(d: u64) -> (r: &'static str)
    requires
        d < 10,
    ensures
        r@ == seq![digit_char(d as nat)],
{
    if d == 0 {
        let s = "0";
        proof {
            reveal_strlit("0");
        }
        assert(s@ =~= seq!['0']);
        s
    } else if d == 1 {
        let s = "1";
        proof {
            reveal_strlit("1");
        }
        assert(s@ =~= seq!['1']);
        s
    } else if d == 2 {
        let s = "2";
        proof {
            reveal_strlit("2");
        }
        assert(s@ =~= seq!['2']);
        s
    } else if d == 3 {
        let s = "3";
        proof {
            reveal_strlit("3");
        }
        assert(s@ =~= seq!['3']);
        s
    } else if d == 4 {
        let s = "4";
        proof {
            reveal_strlit("4");
        }
        assert(s@ =~= seq!['4']);
        s
    } else if d == 5 {
        let s = "5";
        proof {
            reveal_strlit("5");
        }
        assert(s@ =~= seq!['5']);
        s
    } else if d == 6 {
        let s = "6";
        proof {
            reveal_strlit("6");
        }
        assert(s@ =~= seq!['6']);
        s
    } else if d == 7 {
        let s = "7";
        proof {
            reveal_strlit("7");
        }
        assert(s@ =~= seq!['7']);
        s
    } else if d == 8 {
        let s = "8";
        proof {
            reveal_strlit("8");
        }
        assert(s@ =~= seq!['8']);
        s
    } else {
        let s = "9";
        proof {
            reveal_strlit("9");
        }
        assert(s@ =~= seq!['9']);
        s
    }
}

/// Appends the decimal form of `n`.
fn push_decimal(out: &mut String, n: u64)
    ensures
        final(out)@ == old(out)@ + decimal(n as nat),
    decreases n,
{
    if n >= 10 {
        push_decimal(out, n / 10);
    }
    out.append(digit_text(n % 10));
    assert(final(out)@ =~= old(out)@ + decimal(n as nat));
}

fn digit_of(c: char) -> (r: Option<u64>)
    ensures
        r == (if is_digit(c) {
            Some(digit_value(c) as u64)
        } else {
            None::<u64>
        }),
{
    if c == '0' {
        Some(0)
    } else if c == '1' {
        Some(1)
    } else if c == '2' {
        Some(2)
    } else if c == '3' {
        Some(3)
    } else if c == '4' {
        Some(4)
    } else if c == '5' {
        Some(5)
    } else if c == '6' {
        Some(6)
    } else if c == '7' {
        Some(7)
    } else if c == '8' {
        Some(8)
    } else if c == '9' {
        Some(9)
    } else {
        None
    }
}

/// `s[start..e]` is a run of digits that no digit follows.
pub open spec fn digit_run(s: Seq<char>, start: int, e: int) -> bool {
    &&& 0 <= start < e <= s.len()
    &&& all_digits(s.subrange(start, e))
    &&& (e == s.len() || !is_digit(s[e]))
}

/// Digits from `start` up to `a` do not reach past the end of a run.
proof fn lemma_within_run(s: Seq<char>, start: int, a: int, e: int)
    requires
        start <= a <= s.len(),
        all_digits(s.subrange(start, a)),
        digit_run(s, start, e),
    ensures
        a <= e,
{
    if a > e {
        assert(e < s.len());
        let t = s.subrange(start, a);
        assert(t[e - start] == s[e]);
        assert(is_digit(t[e - start]));
    }
}

proof fn lemma_value_push(s: Seq<char>, c: char)
    ensures
        digits_value(s.push(c)) == digits_value(s) * 10 + digit_value(c),
{
    assert(s.push(c).drop_last() =~= s);
}

/// Reads the run of digits that starts at `start`, if it is not empty and its
/// value fits in a `u64`.
fn scan_number(s: &str, len: usize, start: usize) -> (r: Option<(u64, usize)>)
    requires
        start <= len,
        len == s@.len(),
    ensures
        r matches Some((v, e)) ==> digit_run(s@, start as int, e as int) && v == digits_value(
            s@.subrange(start as int, e as int),
        ),
        forall|e: int|
            #![trigger s@.subrange(start as int, e)]
            digit_run(s@, start as int, e) && digits_value(s@.subrange(start as int, e))
                <= u64::MAX ==> r == Some(
                (digits_value(s@.subrange(start as int, e)) as u64, e as usize),
            ),
{
    let mut i: usize = start;
    let mut acc: u64 = 0;
    let mut stop = false;
    assert(s@.subrange(start as int, start as int) =~= Seq::<char>::empty());
    while i < len && !stop
        invariant
            start <= i <= len,
            len == s@.len(),
            all_digits(s@.subrange(start as int, i as int)),
            acc == digits_value(s@.subrange(start as int, i as int)),
            stop ==> i < len && !is_digit(s@[i as int]),
        decreases len - i + (if stop {
            0int
        } else {
            1int
        }),
    {
        let c = s.get_char(i);
        match digit_of(c) {
            None => {
                stop = true;
            },
            Some(d) => {
                let ghost run = s@.subrange(start as int, i as int + 1);
                assert(run =~= s@.subrange(start as int, i as int).push(c));
                proof {
                    lemma_value_push(s@.subrange(start as int, i as int), c);
                }
                assert(all_digits(run)) by {
                    assert forall|k: int| 0 <= k < run.len() implies is_digit(#[trigger] run[k]) by {
                        if k < run.len() - 1 {
                            assert(run[k] == s@.subrange(start as int, i as int)[k]);
                        }
                    }
                }
                if acc > 1844674407370955161 || (acc == 1844674407370955161 && d > 5) {
                    assert(digits_value(run) > u64::MAX);
                    assert forall|e: int|
                        #![trigger s@.subrange(start as int, e)]
                        digit_run(s@, start as int, e) implies digits_value(
                            s@.subrange(start as int, e),
                        ) > u64::MAX by {
                        lemma_within_run(s@, start as int, i as int + 1, e);
                        lemma_prefix_value(s@.subrange(start as int, e), i + 1 - start);
                        assert(s@.subrange(start as int, e).subrange(0, i + 1 - start) =~= run);
                    }
                    return None;
                }
                acc = acc * 10 + d;
                i = i + 1;
            },
        }
    }
    if i == start {
        assert forall|e: int|
            #![trigger s@.subrange(start as int, e)]
            !digit_run(s@, start as int, e) by {
            if digit_run(s@, start as int, e) {
                assert(s@.subrange(start as int, e)[0] == s@[start as int]);
            }
        }
        None
    } else {
        assert forall|e: int|
            #![trigger s@.subrange(start as int, e)]
            digit_run(s@, start as int, e) implies e == i by {
            lemma_within_run(s@, start as int, i as int, e);
            lemma_within_run(s@, start as int, e, i as int);
        }
        Some((acc, i))
    }
}

/// Whether `lit` stands in `s` at `at`.
fn text_at(s: &str, len: usize, at: usize, lit: &str) -> (r: bool)
    requires
        len == s@.len(),
        at <= len,
    ensures
        r == (at + lit@.len() <= len && s@.subrange(at as int, at + lit@.len()) == lit@),
{
    let n = lit.unicode_len();
    if n > len - at {
        return false;
    }
    let mut k: usize = 0;
    while k < n
        invariant
            n == lit@.len(),
            at + n <= len,
            len == s@.len(),
            k <= n,
            forall|j: int| 0 <= j < k ==> s@[at + j] == lit@[j],
        decreases n - k,
    {
        if s.get_char(at + k) != lit.get_char(k) {
            assert(s@.subrange(at as int, at + lit@.len())[k as int] != lit@[k as int]);
            return false;
        }
        k = k + 1;
    }
    assert(s@.subrange(at as int, at + lit@.len()) =~= lit@);
    true
}

/// The magnitude of a signed number.
pub open spec fn magnitude(n: int) -> nat {
    if n < 0 {
        (-n) as nat
    } else {
        n as nat
    }
}

/// Where the parts of the text form of `id` stand.
spec fn key_layout(id: SessionId) -> bool {
    let s = key_text(id);
    let neg = id.timestamp < 0;
    let dt = decimal(magnitude(id.timestamp as int));
    let dr = decimal(id.random as nat);
    let p: int = if neg {
        6
    } else {
        5
    };
    let e1 = p + dt.len();
    let q = e1 + 5;
    let e2 = q + dr.len();
    &&& 5 < s.len()
    &&& s.subrange(0, 5) == key_head()
    &&& (s[5] == '-') == neg
    &&& s.subrange(p, e1) == dt
    &&& digit_run(s, p, e1)
    &&& s.subrange(e1, q) == key_middle()
    &&& s.subrange(q, e2) == dr
    &&& digit_run(s, q, e2)
    &&& s.len() == e2 + 1
    &&& s[e2] == '}'
}

proof fn lemma_key_layout(id: SessionId)
    ensures
        key_layout(id),
{
    let s = key_text(id);
    let neg = id.timestamp < 0;
    let mag = magnitude(id.timestamp as int);
    let sd = signed_decimal(id.timestamp as int);
    let dt = decimal(mag);
    let dr = decimal(id.random as nat);
    lemma_decimal(mag);
    lemma_decimal(id.random as nat);
    let p: int = if neg {
        6
    } else {
        5
    };
    let e1 = p + dt.len();
    let q = e1 + 5;
    let e2 = q + dr.len();
    if neg {
        assert(sd =~= seq!['-'] + dt);
    } else {
        assert(sd == dt);
        assert(is_digit(dt[0]));
    }
    assert(s.subrange(0, 5) =~= key_head());
    assert(s.subrange(p, e1) =~= dt);
    assert(s.subrange(e1, q) =~= key_middle());
    assert(s.subrange(q, e2) =~= dr);
    assert(s[e1] == ',');
    assert(s[e2] == '}');
}

/// Distinct identifiers have distinct text forms.
pub proof fn lemma_key_text_injective(a: SessionId, b: SessionId)
    requires
        key_text(a) == key_text(b),
    ensures
        a == b,
{
    lemma_key_layout(a);
    lemma_key_layout(b);
    let s = key_text(a);
    let ma = magnitude(a.timestamp as int);
    let mb = magnitude(b.timestamp as int);
    let p: int = if a.timestamp < 0 {
        6
    } else {
        5
    };
    let e1a = p + decimal(ma).len();
    let e1b = p + decimal(mb).len();
    lemma_within_run(s, p, e1a, e1b);
    lemma_within_run(s, p, e1b, e1a);
    lemma_decimal(ma);
    lemma_decimal(mb);
    let qa = e1a + 5;
    let e2a = qa + decimal(a.random as nat).len();
    let e2b = qa + decimal(b.random as nat).len();
    lemma_within_run(s, qa, e2a, e2b);
    lemma_within_run(s, qa, e2b, e2a);
    lemma_decimal(a.random as nat);
    lemma_decimal(b.random as nat);
}

/// Reading a key back from its text form gives the identifier it was written from.
pub proof fn lemma_parse_round_trip(id: SessionId)
    ensures
        decode_key(key_text(id)) == Some(id),
{
    let other = choose|x: SessionId| key_text(x) == key_text(id);
    lemma_key_text_injective(other, id);
}

/// Relies on chrono's `Utc::now` and `DateTime::timestamp_millis`: the
/// current instant in milliseconds since the Unix epoch. `Utc::now` panics on
/// a system clock before the epoch, so the instant is never negative.
#[verifier::external_body]
fn clock_millis() -> (r: i64)
    ensures
        r >= 0,
{
    chrono::Utc::now().timestamp_millis()
}

/// `rand::random` draws a value from the thread-local generator; nothing is
/// known of it in advance.
pub assume_specification<T>[ rand::random::<T> ]() -> (r: T)
    where
        rand::distributions::Standard: rand::distributions::Distribution<T>,
;

/// Reads an identifier from its text form.
#[verifier::rlimit(60)]
fn read_key(raw: &str) -> (r: Option<SessionId>)
    ensures
        r matches Some(id) ==> key_text(id) == raw@,
        decode_key(raw@) matches Some(id) ==> r == Some(id),
{
    let ghost found = exists|id: SessionId| key_text(id) == raw@;
    let ghost id0 = choose|id: SessionId| key_text(id) == raw@;
    let ghost mag0 = magnitude(id0.timestamp as int);
    proof {
        if found {
            lemma_key_layout(id0);
            lemma_decimal(mag0);
            lemma_decimal(id0.random as nat);
        }
    }
    let len = raw.unicode_len();
    let head = "{\"t\":";
    let middle = ",\"r\":";
    proof {
        reveal_strlit("{\"t\":");
        reveal_strlit(",\"r\":");
    }
    assert(head@ =~= key_head());
    assert(middle@ =~= key_middle());
    if !text_at(raw, len, 0, head) {
        return None;
    }
    let neg = 5 < len && raw.get_char(5) == '-';
    let i: usize = if neg {
        6
    } else {
        5
    };
    assert(found ==> neg == (id0.timestamp < 0));
    let (m, e) = match scan_number(raw, len, i) {
        Some(p) => p,
        None => {
            return None;
        },
    };
    assert(found ==> e == i + decimal(mag0).len() && m == mag0);
    let ghost run1 = raw@.subrange(i as int, e as int);
    assert(run1[0] == raw@[i as int]);
    if e - i > 1 && raw.get_char(i) == '0' {
        return None;
    }
    let t: i64;
    if neg {
        if m == 0 || m > 9223372036854775808 {
            return None;
        }
        t = (-(m as i128)) as i64;
    } else {
        if m > 9223372036854775807 {
            return None;
        }
        t = m as i64;
    }
    if e > len || !text_at(raw, len, e, middle) {
        return None;
    }
    let k = e + 5;
    let (v, e2) = match scan_number(raw, len, k) {
        Some(p) => p,
        None => {
            return None;
        },
    };
    assert(found ==> e2 == k + decimal(id0.random as nat).len() && v == id0.random);
    let ghost run2 = raw@.subrange(k as int, e2 as int);
    assert(run2[0] == raw@[k as int]);
    if e2 - k > 1 && raw.get_char(k) == '0' {
        return None;
    }
    if len - e2 != 1 || raw.get_char(e2) != '}' {
        return None;
    }
    let id = SessionId { timestamp: t, random: v };
    proof {
        lemma_canonical(run1);
        lemma_canonical(run2);
        let sd = raw@.subrange(5, e as int);
        if neg {
            assert(sd =~= seq!['-'] + run1);
        } else {
            assert(sd =~= run1);
        }
        assert(sd == signed_decimal(t as int));
        assert(raw@ =~= raw@.subrange(0, 5) + sd + raw@.subrange(e as int, k as int) + run2
            + seq!['}']);
        assert(raw@ =~= key_text(id));
    }
    Some(id)
}

impl SessionId {
    /// The text form of the identifier.
    pub fn to_string(&self) -> (r: String)
        ensures
            r@ == key_text(*self),
    {
        let mut out = String::new();
        let head = "{\"t\":";
        let middle = ",\"r\":";
        let minus = "-";
        let tail = "}";
        proof {
            reveal_strlit("{\"t\":");
            reveal_strlit(",\"r\":");
            reveal_strlit("-");
            reveal_strlit("}");
        }
        assert(head@ =~= key_head());
        assert(middle@ =~= key_middle());
        assert(minus@ =~= seq!['-']);
        assert(tail@ =~= seq!['}']);
        out.append(head);
        if self.timestamp >= 0 {
            push_decimal(&mut out, self.timestamp as u64);
        } else {
            out.append(minus);
            push_decimal(&mut out, (-(self.timestamp as i128)) as u64);
        }
        out.append(middle);
        push_decimal(&mut out, self.random);
        out.append(tail);
        assert(out@ =~= key_text(*self));
        out
    }

    /// A new identifier: the current instant and a random 64-bit number.
    pub fn generate() -> (r: SessionId)
        ensures
            r.timestamp >= 0,
    {
        SessionId { timestamp: clock_millis(), random: rand::random::<u64>() }
    }

    /// The identifier whose text form is `raw`; anything else is refused.
    pub fn parse(raw: &str) -> (r: Result<SessionId, KeyDecodeError>)
        ensures
            match decode_key(raw@) {
                Some(id) => r == Ok::<SessionId, KeyDecodeError>(id),
                None => r == Err::<SessionId, KeyDecodeError>(KeyDecodeError),
            },
    {
        match read_key(raw) {
            Some(id) => Ok(id),
            None => Err(KeyDecodeError),
        }
    }
}

} // verus!
