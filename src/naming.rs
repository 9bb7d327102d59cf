//! Record file names: how they are built, recognised and ordered.
use vstd::prelude::*;

verus! {

/// The character of a decimal digit.
pub open spec fn digit_char(d: nat) -> char {
    if d == 0 { '0' }
    else if d == 1 { '1' }
    else if d == 2 { '2' }
    else if d == 3 { '3' }
    else if d == 4 { '4' }
    else if d == 5 { '5' }
    else if d == 6 { '6' }
    else if d == 7 { '7' }
    else if d == 8 { '8' }
    else { '9' }
}

/// An ASCII decimal digit.
pub open spec fn is_digit(c: char) -> bool {
    '0' <= c && c <= '9'
}

/// The decimal form of a natural number, without leading zeros.
pub open spec fn decimal(n: nat) -> Seq<char>
    decreases n,
{
    if n < 10 {
        seq![digit_char(n)]
    } else {
        decimal(n / 10).push(digit_char(n % 10))
    }
}

/// The decimal form of an integer, with a leading `-` when it is negative.
pub open spec fn signed_decimal(n: int) -> Seq<char> {
    if n < 0 {
        seq!['-'] + decimal((-n) as nat)
    } else {
        decimal(n as nat)
    }
}

/// `trapmail_`, the start of every record file name.
pub open spec fn name_prefix() -> Seq<char> {
    seq!['t', 'r', 'a', 'p', 'm', 'a', 'i', 'l', '_']
}

/// `.json`, the end of every record file name.
pub open spec fn name_suffix() -> Seq<char> {
    seq!['.', 'j', 's', 'o', 'n']
}

/// The file name of the record captured at `timestamp_us` by process `pid`, child of `ppid`:
/// `trapmail_<timestamp>_<ppid>_<pid>.json`.
pub open spec fn record_file_name(timestamp_us: nat, ppid: int, pid: int) -> Seq<char> {
    name_prefix() + decimal(timestamp_us) + seq!['_'] + signed_decimal(ppid) + seq!['_']
        + signed_decimal(pid) + name_suffix()
}

/// A non-empty run of ASCII digits.
pub open spec fn all_digits(s: Seq<char>) -> bool {
    s.len() > 0 && forall|i: int| 0 <= i < s.len() ==> is_digit(#[trigger] s[i])
}

/// A name of the form `trapmail_<digits>_<digits>_<digits>.json`.
pub open spec fn is_record_name(s: Seq<char>) -> bool {
    exists|a: Seq<char>, b: Seq<char>, c: Seq<char>|
        all_digits(a) && all_digits(b) && all_digits(c) && #[trigger] (name_prefix() + a
            + seq!['_'] + b + seq!['_'] + c + name_suffix()) == s
}

/// Lexicographic order of texts by code point: `a` comes strictly before `b`.
pub open spec fn lex_lt(a: Seq<char>, b: Seq<char>) -> bool {
    exists|i: int|
        0 <= i <= a.len() && i <= b.len() && a.subrange(0, i) == b.subrange(0, i) && #[trigger] lex_step(
            a,
            b,
            i,
        )
}

/// At position `i`, where `a` and `b` agree before it, `a` ends first or has the smaller
/// code point.
pub open spec fn lex_step(a: Seq<char>, b: Seq<char>, i: int) -> bool {
    (i == a.len() && i < b.len()) || (i < a.len() && i < b.len() && (a[i] as u32) < (b[i] as u32))
}

/// `a` comes before `b` or equals it.
pub open spec fn lex_le(a: Seq<char>, b: Seq<char>) -> bool {
    a == b || lex_lt(a, b)
}

/// The one-character text of a digit.
fn digit_text(d: u8) -> (r: &'static str)
    requires
        d < 10,
    ensures
        r@ == seq![digit_char(d as nat)],
{
    proof {
        reveal_strlit("0");
        reveal_strlit("1");
        reveal_strlit("2");
        reveal_strlit("3");
        reveal_strlit("4");
        reveal_strlit("5");
        reveal_strlit("6");
        reveal_strlit("7");
        reveal_strlit("8");
        reveal_strlit("9");
    }
    let r = if d == 0 {
        "0"
    } else if d == 1 {
        "1"
    } else if d == 2 {
        "2"
    } else if d == 3 {
        "3"
    } else if d == 4 {
        "4"
    } else if d == 5 {
        "5"
    } else if d == 6 {
        "6"
    } else if d == 7 {
        "7"
    } else if d == 8 {
        "8"
    } else {
        "9"
    };
    assert(r@ =~= seq![digit_char(d as nat)]);
    r
}

/// The decimal digits of `n`.
fn u128_decimal(n: u128) -> (r: String)
    ensures
        r@ == decimal(n as nat),
{
    // Digits from the least significant on.
    let mut digits: Vec<u8> = Vec::new();
    let mut cur = n;
    let ghost mut tail: Seq<char> = seq![];
    while cur >= 10
        invariant
            decimal(n as nat) == decimal(cur as nat) + tail,
            tail.len() == digits@.len(),
            forall|i: int|
                0 <= i < digits@.len() ==> #[trigger] digits@[i] < 10 && tail[tail.len() - 1 - i]
                    == digit_char(digits@[i] as nat),
        decreases cur,
    {
        let d = (cur % 10) as u8;
        let ghost old_tail = tail;
        proof {
            tail = seq![digit_char(d as nat)] + tail;
            assert(decimal(cur as nat) == decimal((cur / 10) as nat).push(digit_char(d as nat)));
            assert(decimal(cur as nat) + old_tail =~= decimal((cur / 10) as nat) + tail);
        }
        digits.push(d);
        cur = cur / 10;
        assert forall|i: int| 0 <= i < digits@.len() implies #[trigger] digits@[i] < 10 && tail[tail.len()
            - 1 - i] == digit_char(digits@[i] as nat) by {
            if i < digits@.len() - 1 {
                assert(tail[tail.len() - 1 - i] == old_tail[old_tail.len() - 1 - i]);
            }
        }
    }
    let mut out = String::from_str(digit_text(cur as u8));
    let len = digits.len();
    let mut i = len;
    while i > 0
        invariant
            i <= len,
            len == digits@.len(),
            tail.len() == len,
            out@ == decimal(cur as nat) + tail.subrange(0, len - i),
            forall|k: int|
                0 <= k < digits@.len() ==> #[trigger] digits@[k] < 10 && tail[tail.len() - 1 - k]
                    == digit_char(digits@[k] as nat),
        decreases i,
    {
        i = i - 1;
        let t = digit_text(digits[i]);
        out.append(t);
        assert(tail.subrange(0, len - i) =~= tail.subrange(0, len - i - 1).push(tail[len - 1 - i]));
    }
    assert(tail.subrange(0, len as int) =~= tail);
    out
}

/// The decimal digits of `n`, after a `-` when it is negative.
fn i32_decimal(n: i32) -> (r: String)
    ensures
        r@ == signed_decimal(n as int),
{
    if n < 0 {
        let magnitude = u128_decimal((-(n as i64)) as u128);
        let mut out = String::from_str("-");
        proof {
            reveal_strlit("-");
        }
        out.append(magnitude.as_str());
        assert(out@ =~= signed_decimal(n as int));
        out
    } else {
        u128_decimal(n as u128)
    }
}

/// Build the file name of a record: `trapmail_<timestamp_us>_<ppid>_<pid>.json`.
pub fn make_file_name(timestamp_us: u128, ppid: i32, pid: i32) -> (r: String)
    ensures
        r@ == record_file_name(timestamp_us as nat, ppid as int, pid as int),
{
    let mut name = String::from_str("trapmail_");
    let ts = u128_decimal(timestamp_us);
    let pp = i32_decimal(ppid);
    let p = i32_decimal(pid);
    name.append(ts.as_str());
    name.append("_");
    name.append(pp.as_str());
    name.append("_");
    name.append(p.as_str());
    name.append(".json");
    proof {
        reveal_strlit("trapmail_");
        reveal_strlit("_");
        reveal_strlit(".json");
    }
    name
}

/// Whether `s` holds `lit` from position `at` on.
fn holds_at(s: &str, lit: &str, at: usize) -> (r: bool)
    requires
        at <= s@.len(),
    ensures
        r == (at + lit@.len() <= s@.len() && s@.subrange(at as int, at + lit@.len()) == lit@),
{
    let n = s.unicode_len();
    let m = lit.unicode_len();
    if m > n - at {
        return false;
    }
    let mut i: usize = 0;
    while i < m
        invariant
            i <= m,
            at + m <= n,
            n == s@.len(),
            m == lit@.len(),
            forall|k: int| 0 <= k < i ==> s@[at + k] == lit@[k],
        decreases m - i,
    {
        if s.get_char(at + i) != lit.get_char(i) {
            assert(s@.subrange(at as int, at + m)[i as int] != lit@[i as int]);
            return false;
        }
        i = i + 1;
    }
    assert(s@.subrange(at as int, at + m) =~= lit@);
    true
}

/// The first position in `from..to` where `s` holds `c`, or `to` if there is none.
fn find_char(s: &str, c: char, from: usize, to: usize) -> (r: usize)
    requires
        from <= to <= s@.len(),
    ensures
        from <= r <= to,
        forall|k: int| from <= k < r ==> s@[k] != c,
        r < to ==> s@[r as int] == c,
{
    let mut i = from;
    while i < to
        invariant
            from <= i <= to,
            to <= s@.len(),
            forall|k: int| from <= k < i ==> s@[k] != c,
        decreases to - i,
    {
        if s.get_char(i) == c {
            return i;
        }
        i = i + 1;
    }
    i
}

/// Whether `s` holds a non-empty run of digits from `from` to `to`.
fn digits_between(s: &str, from: usize, to: usize) -> (r: bool)
    requires
        from <= to <= s@.len(),
    ensures
        r == all_digits(s@.subrange(from as int, to as int)),
{
    if from == to {
        return false;
    }
    let mut i = from;
    while i < to
        invariant
            from <= i <= to,
            to <= s@.len(),
            forall|k: int| from <= k < i ==> is_digit(s@[k]),
        decreases to - i,
    {
        let ch = s.get_char(i);
        if !('0' <= ch && ch <= '9') {
            assert(!is_digit(s@.subrange(from as int, to as int)[i - from]));
            return false;
        }
        i = i + 1;
    }
    assert forall|k: int| 0 <= k < to - from implies is_digit(
        #[trigger] s@.subrange(from as int, to as int)[k],
    ) by {
        assert(s@.subrange(from as int, to as int)[k] == s@[from + k]);
    }
    true
}

/// Where the parts of a record name stand in it.
proof fn lemma_record_name_parts(s: Seq<char>, a: Seq<char>, b: Seq<char>, c: Seq<char>)
    requires
        s == name_prefix() + a + seq!['_'] + b + seq!['_'] + c + name_suffix(),
    ensures
        s.len() == a.len() as int + b.len() as int + c.len() as int + 16,
        s.subrange(0, 9) == name_prefix(),
        s.subrange(s.len() - 5, s.len() as int) == name_suffix(),
        s.subrange(9, 9 + a.len() as int) == a,
        s[9 + a.len() as int] == '_',
        s.subrange(10 + a.len() as int, 10 + a.len() as int + b.len() as int) == b,
        s[10 + a.len() as int + b.len() as int] == '_',
        s.subrange(11 + a.len() as int + b.len() as int, s.len() - 5) == c,
{
    assert(s.subrange(0, 9) =~= name_prefix());
    assert(s.subrange(s.len() - 5, s.len() as int) =~= name_suffix());
    assert(s.subrange(9, 9 + a.len() as int) =~= a);
    assert(s.subrange(10 + a.len() as int, 10 + a.len() as int + b.len() as int) =~= b);
    assert(s.subrange(11 + a.len() as int + b.len() as int, s.len() - 5) =~= c);
}

/// A name made of the parts of a record name is a record name.
proof fn lemma_record_name_from_parts(s: Seq<char>, i: int, j: int)
    requires
        s.len() >= 5,
        9 <= i < j < s.len() - 5,
        s.subrange(0, 9) == name_prefix(),
        s.subrange(s.len() - 5, s.len() as int) == name_suffix(),
        s[i] == '_',
        s[j] == '_',
        all_digits(s.subrange(9, i)),
        all_digits(s.subrange(i + 1, j)),
        all_digits(s.subrange(j + 1, s.len() - 5)),
    ensures
        is_record_name(s),
{
    let end = s.len() - 5;
    let a = s.subrange(9, i);
    let b = s.subrange(i + 1, j);
    let c = s.subrange(j + 1, end);
    let t1 = name_prefix() + a;
    assert(t1 =~= s.subrange(0, i));
    let t2 = t1 + seq!['_'];
    assert(t2 =~= s.subrange(0, i + 1));
    let t3 = t2 + b;
    assert(t3 =~= s.subrange(0, j));
    let t4 = t3 + seq!['_'];
    assert(t4 =~= s.subrange(0, j + 1));
    let t5 = t4 + c;
    assert(t5 =~= s.subrange(0, end));
    assert(t5 + name_suffix() =~= s);
}

/// In a record name the two underscores after the prefix are the first two.
proof fn lemma_record_name_positions(s: Seq<char>) -> (p: (int, int))
    requires
        is_record_name(s),
    ensures
        s.len() >= 19,
        9 <= p.0 < p.1 < s.len() - 5,
        s.subrange(0, 9) == name_prefix(),
        s.subrange(s.len() - 5, s.len() as int) == name_suffix(),
        s[p.0] == '_',
        s[p.1] == '_',
        forall|k: int| 9 <= k < p.0 ==> s[k] != '_',
        forall|k: int| p.0 < k < p.1 ==> s[k] != '_',
        all_digits(s.subrange(9, p.0)),
        all_digits(s.subrange(p.0 + 1, p.1)),
        all_digits(s.subrange(p.1 + 1, s.len() - 5)),
{
    let (a, b, c) = choose|a: Seq<char>, b: Seq<char>, c: Seq<char>|
        all_digits(a) && all_digits(b) && all_digits(c) && #[trigger] (name_prefix() + a
            + seq!['_'] + b + seq!['_'] + c + name_suffix()) == s;
    lemma_record_name_parts(s, a, b, c);
    let i = 9 + a.len() as int;
    let j = i + 1 + b.len() as int;
    assert forall|k: int| 9 <= k < i implies s[k] != '_' by {
        assert(s[k] == s.subrange(9, i)[k - 9]);
    }
    assert forall|k: int| i < k < j implies s[k] != '_' by {
        assert(s[k] == s.subrange(i + 1, j)[k - i - 1]);
    }
    (i, j)
}

/// Whether `name` has the form `trapmail_<digits>_<digits>_<digits>.json`.
pub fn is_record_file_name(name: &str) -> (r: bool)
    ensures
        r == is_record_name(name@),
{
    let n = name.unicode_len();
    if n < 19 {
        proof {
            if is_record_name(name@) {
                lemma_record_name_positions(name@);
            }
        }
        return false;
    }
    let end = n - 5;
    let pre = holds_at(name, "trapmail_", 0);
    let suf = holds_at(name, ".json", end);
    proof {
        reveal_strlit("trapmail_");
        reveal_strlit(".json");
        assert("trapmail_"@ =~= name_prefix());
        assert(".json"@ =~= name_suffix());
    }
    let i = find_char(name, '_', 9, end);
    let j = if i < end {
        find_char(name, '_', i + 1, end)
    } else {
        end
    };
    let ok = pre && suf && i < end && j < end && digits_between(name, 9, i) && digits_between(
        name,
        i + 1,
        j,
    ) && digits_between(name, j + 1, end);
    proof {
        if is_record_name(name@) {
            let p = lemma_record_name_positions(name@);
            assert(i == p.0);
            assert(j == p.1);
        }
        if ok {
            lemma_record_name_from_parts(name@, i as int, j as int);
        }
    }
    ok
}

/// The code point of a digit character.
proof fn lemma_digit_char(d: nat)
    requires
        d < 10,
    ensures
        digit_char(d) as u32 == 48 + d,
        is_digit(digit_char(d)),
{
}

/// A decimal form is a non-empty run of digits, of length one exactly below ten.
proof fn lemma_decimal_digits(n: nat)
    ensures
        all_digits(decimal(n)),
        decimal(n).len() == 1 <==> n < 10,
    decreases n,
{
    if n < 10 {
        lemma_digit_char(n);
    } else {
        lemma_decimal_digits(n / 10);
        lemma_digit_char(n % 10);
        let d = decimal(n);
        assert forall|i: int| 0 <= i < d.len() implies is_digit(#[trigger] d[i]) by {
            if i < d.len() - 1 {
                assert(d[i] == decimal(n / 10)[i]);
            }
        }
    }
}

/// Of two numbers with decimal forms of one length, the smaller has the smaller digit at
/// the first position where they differ.
proof fn lemma_decimal_lt(n1: nat, n2: nat) -> (k: int)
    requires
        n1 < n2,
        decimal(n1).len() == decimal(n2).len(),
    ensures
        0 <= k < decimal(n1).len(),
        decimal(n1).subrange(0, k) == decimal(n2).subrange(0, k),
        (decimal(n1)[k] as u32) < (decimal(n2)[k] as u32),
    decreases n2,
{
    lemma_decimal_digits(n1);
    lemma_decimal_digits(n2);
    if n2 < 10 {
        lemma_digit_char(n1);
        lemma_digit_char(n2);
        0
    } else {
        let q1 = n1 / 10;
        let q2 = n2 / 10;
        let d1 = decimal(n1);
        let d2 = decimal(n2);
        if q1 < q2 {
            let k = lemma_decimal_lt(q1, q2);
            assert(d1.subrange(0, k) =~= decimal(q1).subrange(0, k));
            assert(d2.subrange(0, k) =~= decimal(q2).subrange(0, k));
            k
        } else {
            lemma_digit_char(n1 % 10);
            lemma_digit_char(n2 % 10);
            let k = d1.len() - 1;
            assert(d1.subrange(0, k) =~= decimal(q1));
            assert(d2.subrange(0, k) =~= decimal(q2));
            k
        }
    }
}

/// Record file names put every text that follows the timestamp after the timestamp.
proof fn lemma_name_at(timestamp_us: nat, ppid: int, pid: int, k: int)
    requires
        0 <= k < decimal(timestamp_us).len(),
    ensures
        record_file_name(timestamp_us, ppid, pid).subrange(0, 9 + k) == name_prefix()
            + decimal(timestamp_us).subrange(0, k),
        record_file_name(timestamp_us, ppid, pid)[9 + k] == decimal(timestamp_us)[k],
{
    let s = record_file_name(timestamp_us, ppid, pid);
    assert(s.subrange(0, 9 + k) =~= name_prefix() + decimal(timestamp_us).subrange(0, k));
}

/// Records from one process and parent never share a file name: two different timestamps
/// give two different names.
pub proof fn lemma_names_differ_in_time(t1: nat, t2: nat, ppid: int, pid: int)
    requires
        t1 != t2,
    ensures
        record_file_name(t1, ppid, pid) != record_file_name(t2, ppid, pid),
{
    let s1 = record_file_name(t1, ppid, pid);
    let s2 = record_file_name(t2, ppid, pid);
    let d1 = decimal(t1);
    let d2 = decimal(t2);
    lemma_decimal_digits(t1);
    lemma_decimal_digits(t2);
    if d1.len() == d2.len() {
        let k = if t1 < t2 { lemma_decimal_lt(t1, t2) } else { lemma_decimal_lt(t2, t1) };
        lemma_name_at(t1, ppid, pid, k);
        lemma_name_at(t2, ppid, pid, k);
    } else if d1.len() < d2.len() {
        let k = d1.len() as int;
        assert(s1[9 + k] == '_');
        lemma_name_at(t2, ppid, pid, k);
        assert(is_digit(d2[k]));
    } else {
        let k = d2.len() as int;
        assert(s2[9 + k] == '_');
        lemma_name_at(t1, ppid, pid, k);
        assert(is_digit(d1[k]));
    }
}

/// Among timestamps written with the same number of digits, the order of the file names is
/// the order of the timestamps, whatever the process ids.
pub proof fn lemma_name_order_follows_time(
    t1: nat,
    t2: nat,
    ppid1: int,
    pid1: int,
    ppid2: int,
    pid2: int,
)
    requires
        t1 < t2,
        decimal(t1).len() == decimal(t2).len(),
    ensures
        lex_lt(record_file_name(t1, ppid1, pid1), record_file_name(t2, ppid2, pid2)),
{
    let s1 = record_file_name(t1, ppid1, pid1);
    let s2 = record_file_name(t2, ppid2, pid2);
    let k = lemma_decimal_lt(t1, t2);
    lemma_name_at(t1, ppid1, pid1, k);
    lemma_name_at(t2, ppid2, pid2, k);
    assert(lex_step(s1, s2, 9 + k));
}

/// The name of a record whose process ids are not negative is a record name: the store
/// finds every record that it wrote.
pub proof fn lemma_file_name_is_record_name(timestamp_us: nat, ppid: int, pid: int)
    requires
        ppid >= 0,
        pid >= 0,
    ensures
        is_record_name(record_file_name(timestamp_us, ppid, pid)),
{
    lemma_decimal_digits(timestamp_us);
    lemma_decimal_digits(ppid as nat);
    lemma_decimal_digits(pid as nat);
    let a = decimal(timestamp_us);
    let b = decimal(ppid as nat);
    let c = decimal(pid as nat);
    assert(name_prefix() + a + seq!['_'] + b + seq!['_'] + c + name_suffix()
        == record_file_name(timestamp_us, ppid, pid));
}

} // verus!
