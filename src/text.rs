//! Times and keys written as text.
use vstd::prelude::*;

verus! {

pub open spec fn digit_chars() -> Seq<char> {
    seq!['0', '1', '2', '3', '4', '5', '6', '7', '8', '9', 'a', 'b', 'c', 'd', 'e', 'f']
}

/// The lower-case hex digit of `d < 16`.
pub open spec fn digit_char(d: int) -> char {
    digit_chars()[d]
}

/// `n` in decimal, without leading zeros.
pub open spec fn decimal(n: nat) -> Seq<char>
    decreases n,
{
    if n < 10 {
        seq![digit_char(n as int)]
    } else {
        decimal(n / 10).push(digit_char((n % 10) as int))
    }
}

pub open spec fn repeat_char(c: char, k: int) -> Seq<char> {
    Seq::new(if k > 0 { k as nat } else { 0 }, |_i: int| c)
}

/// `n` in decimal, with leading zeros up to `width` digits.
pub open spec fn padded(n: nat, width: int) -> Seq<char> {
    repeat_char('0', width - decimal(n).len()) + decimal(n)
}

/// `m:ss.mmm`, or `mm:ss.mmm` when `long`.
pub open spec fn time_text(ms: nat, long: bool) -> Seq<char> {
    padded(ms / 1000 / 60, if long { 2 } else { 1 }) + seq![':'] + padded((ms / 1000) % 60, 2) + seq!['.']
        + padded(ms % 1000, 3)
}

/// Each byte as two lower-case hex digits.
pub open spec fn hex_of(bytes: Seq<u8>) -> Seq<char>
    decreases bytes.len(),
{
    if bytes.len() == 0 {
        Seq::empty()
    } else {
        hex_of(bytes.drop_last()) + seq![digit_char(bytes.last() as int / 16), digit_char(bytes.last() as int % 16)]
    }
}

fn digit_str(d: u8) -> (r: &'static str)
    requires
        d < 16,
    ensures
        r@ == seq![digit_char(d as int)],
{
    proof {
        reveal_strlit("0");
        reveal_strlit("1");
        reveal_strlit("2");
        reveal_strlit("3");
        reveal_strlit("4");
        reveal_strlit("5");
        reveal_strlit("6");
        reveal_strlit("7");
        reveal_strlit("8");
        reveal_strlit("9");
        reveal_strlit("a");
        reveal_strlit("b");
        reveal_strlit("c");
        reveal_strlit("d");
        reveal_strlit("e");
        reveal_strlit("f");
    }
    let r = match d {
        0 => "0",
        1 => "1",
        2 => "2",
        3 => "3",
        4 => "4",
        5 => "5",
        6 => "6",
        7 => "7",
        8 => "8",
        9 => "9",
        10 => "a",
        11 => "b",
        12 => "c",
        13 => "d",
        14 => "e",
        _ => "f",
    };
    assert(r@ =~= seq![digit_char(d as int)]);
    r
}

pub(crate) fn push_decimal(s: &mut String, n: usize)
    ensures
        final(s)@ == old(s)@ + decimal(n as nat),
    decreases n,
{
    if n >= 10 {
        push_decimal(s, n / 10);
    }
    s.append(digit_str((n % 10) as u8));
    assert(s@ =~= old(s)@ + decimal(n as nat));
}

fn decimal_len(n: usize) -> (r: usize)
    ensures
        r == decimal(n as nat).len(),
        r <= n + 1,
    decreases n,
{
    if n < 10 {
        1
    } else {
        1 + decimal_len(n / 10)
    }
}

pub(crate) fn push_repeated(s: &mut String, piece: &str, k: usize)
    requires
        piece@.len() == 1,
    ensures
        final(s)@ == old(s)@ + repeat_char(piece@[0], k as int),
{
    let mut i: usize = 0;
    while i < k
        invariant
            piece@.len() == 1,
            i <= k,
            s@ == old(s)@ + repeat_char(piece@[0], i as int),
        decreases k - i,
    {
        s.append(piece);
        assert(s@ =~= old(s)@ + repeat_char(piece@[0], i + 1));
        i = i + 1;
    }
}

fn push_padded(s: &mut String, n: usize, width: usize)
    ensures
        final(s)@ == old(s)@ + padded(n as nat, width as int),
{
    let len = decimal_len(n);
    let zeros = if width > len { width - len } else { 0 };
    proof {
        reveal_strlit("0");
    }
    push_repeated(s, "0", zeros);
    push_decimal(s, n);
    assert(repeat_char('0', zeros as int) =~= repeat_char('0', width - decimal(n as nat).len()));
    assert(s@ =~= old(s)@ + padded(n as nat, width as int));
}

/// `ms` milliseconds as `m:ss.mmm`, or with two minute digits (`mm:ss.mmm`) when `long`.
pub fn format_time(ms: usize, long: bool) -> (r: String)
    ensures
        r@ == time_text(ms as nat, long),
{
    let minutes = ms / 1000 / 60;
    let seconds = (ms / 1000) % 60;
    let millis = ms % 1000;
    let mut s = String::new();
    push_padded(&mut s, minutes, if long { 2 } else { 1 });
    proof {
        reveal_strlit(":");
        reveal_strlit(".");
    }
    s.append(":");
    push_padded(&mut s, seconds, 2);
    s.append(".");
    push_padded(&mut s, millis, 3);
    assert(s@ =~= time_text(ms as nat, long));
    s
}

/// The blank shown in place of a zero gap.
pub open spec fn no_delta() -> Seq<char> {
    repeat_char(' ', 9)
}

/// How far `ms` is behind `fast`: blank when level, else `+` and the gap as a time.
pub fn format_delta(ms: usize, fast: usize, long: bool) -> (r: String)
    requires
        ms >= fast,
    ensures
        r@ == if ms == fast {
            no_delta()
        } else {
            seq!['+'] + time_text((ms - fast) as nat, long)
        },
{
    if ms == fast {
        let s = String::from_str("         ");
        proof {
            reveal_strlit("         ");
        }
        assert(s@ =~= no_delta());
        s
    } else {
        let mut s = String::from_str("+");
        proof {
            reveal_strlit("+");
        }
        let t = format_time(ms - fast, long);
        s.append(t.as_str());
        assert(s@ =~= seq!['+'] + time_text((ms - fast) as nat, long));
        s
    }
}

/// Writes `bytes` as lower-case hex, two digits a byte.
pub fn hex_string(bytes: &Vec<u8>) -> (r: String)
    ensures
        r@ == hex_of(bytes@),
{
    let mut s = String::new();
    let mut i: usize = 0;
    while i < bytes.len()
        invariant
            i <= bytes@.len(),
            s@ == hex_of(bytes@.take(i as int)),
        decreases bytes@.len() - i,
    {
        let b = bytes[i];
        s.append(digit_str(b / 16));
        s.append(digit_str(b % 16));
        assert(bytes@.take(i + 1).drop_last() =~= bytes@.take(i as int));
        assert(s@ =~= hex_of(bytes@.take(i + 1)));
        i = i + 1;
    }
    assert(bytes@.take(bytes@.len() as int) =~= bytes@);
    s
}

/// The lower-case form of a text, as std writes it.
pub uninterp spec fn lower_of(s: Seq<char>) -> Seq<char>;

/// Relies on `str::to_lowercase`: the result depends on the characters alone.
#[verifier::external_body]
fn lowercase(s: &str) -> (r: String)
    ensures
        r@ == lower_of(s@),
{
    s.to_lowercase()
}

/// Every space made a dash.
pub open spec fn dashed(s: Seq<char>) -> Seq<char> {
    s.map_values(|c: char| if c == ' ' { '-' } else { c })
}

/// Relies on `str::replace` with a one-character pattern: each space is replaced by a
/// dash and every other character is kept.
#[verifier::external_body]
fn spaces_to_dashes(s: &str) -> (r: String)
    ensures
        r@ == dashed(s@),
{
    s.replace(" ", "-")
}

/// A name fit for a page file: lower case, with dashes for spaces.
pub fn url_safe(s: &str) -> (r: String)
    ensures
        r@ == dashed(lower_of(s@)),
{
    let lower = lowercase(s);
    spaces_to_dashes(lower.as_str())
}

} // verus!
