//! The wire form of the published status.
//!
//! The master answers each status request with one JSON object,
//! `{"playing":<bool>,"track":"<id>","start_time":<int>}`, in exactly this
//! canonical spelling: no spaces, fields in this order, the number in
//! canonical decimal, the track written literally.  Track identifiers are
//! hex strings (or empty), so the format needs no escapes; any track free
//! of `"`, `\` and control characters is encodable.  The decoder accepts
//! precisely the canonical encodings and rejects everything else, which a
//! follower treats as a fetch failure for that tick.

use crate::status::SyncStatus;
use vstd::prelude::*;

verus! {

/// A character that may stand literally inside the quoted track field:
/// anything but the delimiter, the escape character and control
/// characters.
pub open spec fn wire_char_ok(c: char) -> bool {
    c != '"' && c != '\\' && c as u32 >= 0x20
}

/// A track identifier that the escape-free format can carry.
pub open spec fn wire_track_ok(t: Seq<char>) -> bool {
    forall|i: int| 0 <= i < t.len() ==> wire_char_ok(t[i])
}

/// The decimal digit character for `d`.
pub open spec fn digit_char(d: int) -> char {
    if d == 0 {
        '0'
    } else if d == 1 {
        '1'
    } else if d == 2 {
        '2'
    } else if d == 3 {
        '3'
    } else if d == 4 {
        '4'
    } else if d == 5 {
        '5'
    } else if d == 6 {
        '6'
    } else if d == 7 {
        '7'
    } else if d == 8 {
        '8'
    } else {
        '9'
    }
}

/// Canonical decimal spelling of a non-negative integer: no leading
/// zeroes, at least one digit.
pub open spec fn spec_nat_digits(n: int) -> Seq<char>
    recommends
        n >= 0,
    decreases n,
{
    if n < 10 {
        seq![digit_char(n)]
    } else {
        spec_nat_digits(n / 10) + seq![digit_char(n % 10)]
    }
}

/// Canonical decimal spelling of a signed integer: a minus sign exactly
/// for negative values, no `-0`.
pub open spec fn spec_int_digits(n: int) -> Seq<char> {
    if n < 0 {
        seq!['-'] + spec_nat_digits(-n)
    } else {
        spec_nat_digits(n)
    }
}

/// The spelled-out boolean of the playing field.
pub open spec fn spec_bool_str(p: bool) -> Seq<char> {
    if p {
        "true"@
    } else {
        "false"@
    }
}

/// Its length: `true` has four characters, `false` five.
pub open spec fn spec_bool_len(p: bool) -> int {
    if p {
        4
    } else {
        5
    }
}

/// The canonical wire form of a status with the given fields.
pub open spec fn spec_encode(playing: bool, track: Seq<char>, start_time: int) -> Seq<char> {
    "{\"playing\":"@ + spec_bool_str(playing) + ",\"track\":\""@ + track + "\",\"start_time\":"@
        + spec_int_digits(start_time) + "}"@
}

/// The canonical wire form of a status value.
pub open spec fn spec_encode_status(st: SyncStatus) -> Seq<char> {
    spec_encode(st.playing, st.track@, st.start_time as int)
}

/// The one-character string for a decimal digit.
fn digit_str(d: u64) -> (r: &'static str)
    requires
        d < 10,
    ensures
        r@ == seq![digit_char(d as int)],
{
    proof {
        reveal_strlit("0");
        reveal_strlit("1");
        reveal_strlit("2");
        reveal_strlit("3");
        reveal_strlit("4");
        reveal_strlit("5");
        reveal_strlit("6");
        reveal_strlit("7");
        reveal_strlit("8");
        reveal_strlit("9");
    }
    let r = match d {
        0 => "0",
        1 => "1",
        2 => "2",
        3 => "3",
        4 => "4",
        5 => "5",
        6 => "6",
        7 => "7",
        8 => "8",
        _ => "9",
    };
    proof {
        assert(r@ =~= seq![digit_char(d as int)]);
    }
    r
}

/// Appends the canonical decimal digits of `n` to `out`.
fn push_nat(out: &mut String, n: u64)
    ensures
        final(out)@ == old(out)@ + spec_nat_digits(n as int),
    decreases n,
{
    if n < 10 {
        out.append(digit_str(n));
    } else {
        push_nat(out, n / 10);
        out.append(digit_str(n % 10));
        proof {
            assert(out@ =~= old(out)@ + spec_nat_digits(n as int));
        }
    }
}

/// Appends the canonical decimal spelling of `n` to `out`.
fn push_int(out: &mut String, n: i64)
    ensures
        final(out)@ == old(out)@ + spec_int_digits(n as int),
{
    if n < 0 {
        proof {
            reveal_strlit("-");
        }
        out.append("-");
        let mag: u64 = ((-(n + 1)) as u64) + 1;
        push_nat(out, mag);
        proof {
            assert(out@ =~= old(out)@ + spec_int_digits(n as int));
        }
    } else {
        push_nat(out, n as u64);
    }
}

/// Encodes a status into its canonical wire form.
pub fn encode_status(st: &SyncStatus) -> (r: String)
    requires
        wire_track_ok(st.track@),
    ensures
        r@ == spec_encode_status(*st),
{
    let mut out = String::new();
    out.append("{\"playing\":");
    if st.playing {
        out.append("true");
    } else {
        out.append("false");
    }
    out.append(",\"track\":\"");
    out.append(st.track.as_str());
    out.append("\",\"start_time\":");
    push_int(&mut out, st.start_time);
    out.append("}");
    proof {
        assert(out@ =~= spec_encode_status(*st));
    }
    out
}

/// A decimal digit character.
pub open spec fn is_digit(c: char) -> bool {
    48 <= c as u32 <= 57
}

/// The value of a decimal digit character.
pub open spec fn digit_of(c: char) -> int {
    c as u32 - 48
}

/// Every character of `s` is a decimal digit.
pub open spec fn all_digits(s: Seq<char>) -> bool {
    forall|i: int| 0 <= i < s.len() ==> is_digit(s[i])
}

/// The value of a digit string read as a decimal number.
pub open spec fn digits_val(s: Seq<char>) -> int
    decreases s.len(),
{
    if s.len() == 0 {
        0
    } else {
        digits_val(s.drop_last()) * 10 + digit_of(s.last())
    }
}

/// The canonical digits of `n` spell a number whose value is `n` again.
proof fn lemma_nat_digits(n: int)
    requires
        n >= 0,
    ensures
        spec_nat_digits(n).len() >= 1,
        all_digits(spec_nat_digits(n)),
        digits_val(spec_nat_digits(n)) == n,
    decreases n,
{
    if n < 10 {
        let w = spec_nat_digits(n);
        assert(is_digit(digit_char(n)) && digit_of(digit_char(n)) == n);
        assert(w.len() == 1);
        assert(w.last() == digit_char(n));
        assert(w.drop_last() =~= Seq::<char>::empty());
        assert(digits_val(w) == digits_val(w.drop_last()) * 10 + digit_of(w.last()));
        assert(digits_val(w.drop_last()) == 0);
    } else {
        lemma_nat_digits(n / 10);
        assert(is_digit(digit_char(n % 10)) && digit_of(digit_char(n % 10)) == n % 10);
        let a = spec_nat_digits(n / 10);
        let w = spec_nat_digits(n);
        assert(w == a + seq![digit_char(n % 10)]);
        assert(w.len() == a.len() + 1);
        assert(w.drop_last() =~= a);
        assert(w.last() == digit_char(n % 10));
        assert(digits_val(w) == digits_val(a) * 10 + (n % 10));
        assert(n / 10 * 10 + n % 10 == n) by {
            vstd::arithmetic::div_mod::lemma_fundamental_div_mod(n, 10);
        }
    }
}

/// A digit string has a non-negative value.
proof fn lemma_digits_val_nonneg(s: Seq<char>)
    requires
        all_digits(s),
    ensures
        digits_val(s) >= 0,
    decreases s.len(),
{
    if s.len() > 0 {
        lemma_digits_val_nonneg(s.drop_last());
    }
}

/// Reading only a prefix of a digit string never overshoots its value.
proof fn lemma_digits_val_prefix(s: Seq<char>, i: int)
    requires
        all_digits(s),
        0 <= i <= s.len(),
    ensures
        digits_val(s.subrange(0, i)) <= digits_val(s),
    decreases s.len(),
{
    if i == s.len() {
        assert(s.subrange(0, i) =~= s);
    } else {
        assert(s.drop_last().subrange(0, i) =~= s.subrange(0, i));
        lemma_digits_val_prefix(s.drop_last(), i);
        lemma_digits_val_nonneg(s.drop_last());
    }
}

/// Tries to read the literal `lit` at position `pos` of `s`.
fn expect_lit(s: &str, pos: usize, lit: &str) -> (r: Option<usize>)
    requires
        pos <= s@.len(),
    ensures
        (r matches Some(p2) ==> p2 == pos + lit@.len() && pos + lit@.len() <= s@.len() && (
        forall|k: int| 0 <= k < lit@.len() ==> s@[pos + k] == lit@[k])),
        (r is None ==> pos + lit@.len() > s@.len() || (exists|k: int|
            0 <= k < lit@.len() && s@[pos + k] != lit@[k])),
{
    let ll = lit.unicode_len();
    let sl = s.unicode_len();
    if ll > sl - pos {
        return None;
    }
    let mut k: usize = 0;
    while k < ll
        invariant
            0 <= k <= ll,
            ll == lit@.len(),
            sl == s@.len(),
            pos + ll <= sl,
            forall|j: int| 0 <= j < k ==> s@[pos + j] == lit@[j],
        decreases ll - k,
    {
        if s.get_char(pos + k) != lit.get_char(k) {
            return None;
        }
        k += 1;
    }
    Some(pos + ll)
}

/// Scans from `pos` for the quote that closes the track field, checking
/// that everything before it may stand in the field literally.
fn scan_track(s: &str, pos: usize) -> (r: Option<usize>)
    requires
        pos <= s@.len(),
    ensures
        (r matches Some(j) ==> pos <= j < s@.len() && s@[j as int] == '"' && (forall|k: int|
            pos <= k < j ==> wire_char_ok(s@[k]))),
        (r is None ==> forall|j: int|
            pos <= j < s@.len() && s@[j] == '"' ==> exists|k: int|
                pos <= k < j && !wire_char_ok(s@[k])),
{
    let sl = s.unicode_len();
    let mut i: usize = pos;
    while i < sl
        invariant
            pos <= i <= sl,
            sl == s@.len(),
            forall|k: int| pos <= k < i ==> wire_char_ok(s@[k]),
        decreases sl - i,
    {
        let c = s.get_char(i);
        if c == '"' {
            return Some(i);
        }
        if c == '\\' || (c as u32) < 0x20 {
            return None;
        }
        i += 1;
    }
    None
}

/// The canonical decimal spelling of `m` stands at position `pos` of `s`,
/// ended by the end of `s` or by a non-digit.
pub open spec fn int_at(s: Seq<char>, pos: int, m: int) -> bool {
    let d = spec_int_digits(m);
    &&& pos + d.len() <= s.len()
    &&& (forall|k: int| 0 <= k < d.len() ==> s[pos + k] == d[k])
    &&& (pos + d.len() == s.len() || !is_digit(s[pos + d.len()]))
}

/// What a sign-then-digits scan that has reached position `i` knows when
/// the canonical spelling of `m` stands at `pos`: the scan is still inside
/// the digits of `m`; while it sees digits its running value stays within
/// the magnitude of `m`, and when it stops it has read exactly those
/// digits.
proof fn lemma_int_scan(s: Seq<char>, pos: int, m: int, ds: int, i: int)
    requires
        int_at(s, pos, m),
        0 <= pos <= ds <= i <= s.len(),
        ds == pos || ds == pos + 1,
        (ds == pos + 1) ==> pos < s.len() && s[pos] == '-',
        (ds == pos) ==> (pos == s.len() || s[pos] != '-'),
        forall|k: int| ds <= k < i ==> is_digit(s[k]),
    ensures
        (m < 0) <==> (ds == pos + 1),
        ({
            let a = if m < 0 {
                -m
            } else {
                m
            };
            let nd = spec_nat_digits(a);
            &&& ds + nd.len() <= s.len()
            &&& ds < s.len() && is_digit(s[ds])
            &&& i <= ds + nd.len()
            &&& (i < s.len() && is_digit(s[i])) ==> (i < ds + nd.len() && digits_val(
                s.subrange(ds, i + 1),
            ) <= a)
            &&& (i == s.len() || !is_digit(s[i])) ==> (i == ds + nd.len() && digits_val(
                s.subrange(ds, i),
            ) == a && spec_int_digits(m).len() == ds - pos + nd.len())
        }),
{
    let a = if m < 0 {
        -m
    } else {
        m
    };
    let nd = spec_nat_digits(a);
    lemma_nat_digits(a);
    let d = spec_int_digits(m);
    if m < 0 {
        assert(d == seq!['-'] + nd);
        assert(d[0] == '-');
        assert(s[pos] == d[0]);
        assert(ds == pos + 1);
        assert forall|k: int| 0 <= k < nd.len() implies s[ds + k] == nd[k] by {
            assert(s[pos + (k + 1)] == d[k + 1]);
            assert(d[k + 1] == nd[k]);
        }
    } else {
        assert(d == nd);
        assert(is_digit(d[0]));
        assert(d[0] != '-');
        assert(s[pos] == d[0]);
        assert(ds == pos);
        assert forall|k: int| 0 <= k < nd.len() implies s[ds + k] == nd[k] by {
            assert(s[pos + k] == d[k]);
        }
    }
    assert(s[ds + 0] == nd[0]);
    assert(is_digit(nd[0]));
    if i > ds + nd.len() {
        assert(is_digit(s[ds + nd.len()]));
        assert(false);
    }
    assert(pos + d.len() == ds + nd.len());
    if i < s.len() && is_digit(s[i]) {
        if i == ds + nd.len() {
            assert(!is_digit(s[pos + d.len()]));
            assert(false);
        }
        let j = i + 1;
        let w = s.subrange(ds, j);
        let u = nd.subrange(0, j - ds);
        assert forall|k: int| 0 <= k < j - ds implies w[k] == u[k] by {
            assert(s[ds + k] == nd[k]);
            assert(w[k] == s[ds + k]);
            assert(u[k] == nd[k]);
        }
        assert(s.subrange(ds, i + 1) =~= nd.subrange(0, i + 1 - ds));
        lemma_digits_val_prefix(nd, i + 1 - ds);
    }
    if i == s.len() || !is_digit(s[i]) {
        if i < ds + nd.len() {
            assert(s[ds + (i - ds)] == nd[i - ds]);
            assert(is_digit(nd[i - ds]));
            assert(false);
        }
        assert(i == ds + nd.len());
        assert forall|k: int| 0 <= k < nd.len() implies s.subrange(ds, i)[k] == nd[k] by {
            assert(s[ds + k] == nd[k]);
        }
        assert(s.subrange(ds, i) =~= nd);
    }
}

/// Reads an optionally signed decimal number starting at `pos`, stopping
/// at the first non-digit.  Wherever the canonical spelling of an `i64`
/// stands at `pos`, the read returns exactly that value and stops exactly
/// behind its digits.
fn parse_i64(s: &str, pos: usize) -> (r: Option<(i64, usize)>)
    requires
        pos <= s@.len(),
    ensures
        (r matches Some(v) ==> pos <= v.1 <= s@.len()),
        (forall|m: int|
            i64::MIN <= m <= i64::MAX && int_at(s@, pos as int, m) ==> (r matches Some(v) && v.0
                == m && v.1 == pos + spec_int_digits(m).len())),
{
    let sl = s.unicode_len();
    let mut neg = false;
    let mut ds = pos;
    if pos < sl {
        if s.get_char(pos) == '-' {
            neg = true;
            ds = pos + 1;
        }
    }
    let mut i = ds;
    let mut val: u64 = 0;
    let mut stop = false;
    proof {
        assert(s@.subrange(ds as int, ds as int) =~= Seq::<char>::empty());
    }
    while i < sl && !stop
        invariant
            pos <= ds <= i <= sl,
            sl == s@.len(),
            ds == pos || ds == pos + 1,
            neg <==> (ds == pos + 1),
            neg ==> pos < sl && s@[pos as int] == '-',
            !neg ==> (pos == sl || s@[pos as int] != '-'),
            forall|k: int| ds <= k < i ==> is_digit(s@[k]),
            val == digits_val(s@.subrange(ds as int, i as int)),
            stop ==> i < sl && !is_digit(s@[i as int]),
        decreases sl - i + (if stop {
            0int
        } else {
            1int
        }),
    {
        let c = s.get_char(i);
        let cu = c as u32;
        if cu < 48 || cu > 57 {
            stop = true;
        } else {
            let dv = (cu - 48) as u64;
            let step = match val.checked_mul(10) {
                Some(x) => x.checked_add(dv),
                None => None,
            };
            match step {
                Some(y) => {
                    proof {
                        let w = s@.subrange(ds as int, i + 1);
                        assert(w.drop_last() =~= s@.subrange(ds as int, i as int));
                        assert(w.last() == s@[i as int]);
                        assert(digit_of(s@[i as int]) == dv);
                    }
                    val = y;
                    i = i + 1;
                },
                None => {
                    proof {
                        assert forall|m: int|
                            i64::MIN <= m <= i64::MAX && int_at(
                                s@,
                                pos as int,
                                m,
                            ) implies false by {
                            lemma_int_scan(s@, pos as int, m, ds as int, i as int);
                            assert(is_digit(s@[i as int]));
                            let a = if m < 0 {
                                -m
                            } else {
                                m
                            };
                            let w = s@.subrange(ds as int, i + 1);
                            assert(digits_val(w) <= a);
                            assert(w.drop_last() =~= s@.subrange(ds as int, i as int));
                            assert(w.last() == s@[i as int]);
                            assert(digits_val(w) == val * 10 + dv);
                            assert(val * 10 + dv <= a);
                        }
                    }
                    return None;
                },
            }
        }
    }
    if i == ds {
        proof {
            assert forall|m: int|
                i64::MIN <= m <= i64::MAX && int_at(s@, pos as int, m) implies false by {
                lemma_int_scan(s@, pos as int, m, ds as int, i as int);
                assert(is_digit(s@[ds as int]));
            }
        }
        return None;
    }
    let res: i64;
    if neg {
        if val <= 0x7fff_ffff_ffff_ffffu64 {
            res = -(val as i64);
        } else if val == 0x8000_0000_0000_0000u64 {
            res = i64::MIN;
        } else {
            proof {
                assert forall|m: int|
                    i64::MIN <= m <= i64::MAX && int_at(s@, pos as int, m) implies false by {
                    lemma_int_scan(s@, pos as int, m, ds as int, i as int);
                    let a = if m < 0 {
                        -m
                    } else {
                        m
                    };
                    assert(digits_val(s@.subrange(ds as int, i as int)) == a);
                    assert(val == a);
                }
            }
            return None;
        }
    } else {
        if val <= 0x7fff_ffff_ffff_ffffu64 {
            res = val as i64;
        } else {
            proof {
                assert forall|m: int|
                    i64::MIN <= m <= i64::MAX && int_at(s@, pos as int, m) implies false by {
                    lemma_int_scan(s@, pos as int, m, ds as int, i as int);
                    let a = if m < 0 {
                        -m
                    } else {
                        m
                    };
                    assert(digits_val(s@.subrange(ds as int, i as int)) == a);
                    assert(val == a);
                }
            }
            return None;
        }
    }
    proof {
        assert forall|m: int|
            i64::MIN <= m <= i64::MAX && int_at(s@, pos as int, m) implies (res == m && i == pos
            + spec_int_digits(m).len()) by {
            lemma_int_scan(s@, pos as int, m, ds as int, i as int);
            let a = if m < 0 {
                -m
            } else {
                m
            };
            assert(digits_val(s@.subrange(ds as int, i as int)) == a);
            assert(val == a);
        }
    }
    Some((res, i))
}

/// A concatenation splits back into its two parts.
proof fn lemma_concat_parts(x: Seq<char>, y: Seq<char>)
    ensures
        (x + y).subrange(0, x.len() as int) == x,
        (x + y).subrange(x.len() as int, (x + y).len() as int) == y,
{
    assert((x + y).subrange(0, x.len() as int) =~= x);
    assert((x + y).subrange(x.len() as int, (x + y).len() as int) =~= y);
}

/// A subrange taken inside a prefix is a subrange of the whole.
proof fn lemma_subrange_of_prefix(s: Seq<char>, x: Seq<char>, a: int, b: int)
    requires
        0 <= a <= b <= x.len(),
        x.len() <= s.len(),
        x == s.subrange(0, x.len() as int),
    ensures
        s.subrange(a, b) == x.subrange(a, b),
{
    assert(s.subrange(a, b) =~= x.subrange(a, b));
}

/// Where the canonical encoding of `(p, t, n)` is the whole of `s`, each
/// field and literal of the format stands at its fixed place.
proof fn lemma_encode_anatomy(s: Seq<char>, p: bool, t: Seq<char>, n: int)
    requires
        s == spec_encode(p, t, n),
    ensures
        ({
            let bl = spec_bool_len(p);
            let tl = t.len() as int;
            let dl = spec_int_digits(n).len() as int;
            &&& s.len() == 37 + bl + tl + dl
            &&& s.subrange(0, 11) == "{\"playing\":"@
            &&& s.subrange(11, 11 + bl) == spec_bool_str(p)
            &&& s.subrange(11 + bl, 21 + bl) == ",\"track\":\""@
            &&& s.subrange(21 + bl, 21 + bl + tl) == t
            &&& s.subrange(21 + bl + tl, 36 + bl + tl) == "\",\"start_time\":"@
            &&& s.subrange(36 + bl + tl, 36 + bl + tl + dl) == spec_int_digits(n)
            &&& s.subrange(36 + bl + tl + dl, 37 + bl + tl + dl) == "}"@
            &&& int_at(s, 36 + bl + tl, n)
        }),
{
    reveal_strlit("{\"playing\":");
    reveal_strlit("true");
    reveal_strlit("false");
    reveal_strlit(",\"track\":\"");
    reveal_strlit("\",\"start_time\":");
    reveal_strlit("}");
    let l1 = "{\"playing\":"@;
    let b = spec_bool_str(p);
    let l2 = ",\"track\":\""@;
    let l3 = "\",\"start_time\":"@;
    let d = spec_int_digits(n);
    let l4 = "}"@;
    let bl = spec_bool_len(p);
    let tl = t.len() as int;
    let dl = d.len() as int;
    if n < 0 {
        lemma_nat_digits(-n);
    } else {
        lemma_nat_digits(n);
    }
    assert(l1.len() == 11 && b.len() == bl && l2.len() == 10 && l3.len() == 15 && l4.len() == 1);
    let a1 = l1 + b;
    let a2 = a1 + l2;
    let a3 = a2 + t;
    let a4 = a3 + l3;
    let a5 = a4 + d;
    assert(s == a5 + l4);
    lemma_concat_parts(a5, l4);
    assert(a5 == s.subrange(0, a5.len() as int)) by {
        lemma_concat_parts(a5, l4);
    }
    lemma_concat_parts(a4, d);
    lemma_subrange_of_prefix(s, a5, 0, a4.len() as int);
    lemma_subrange_of_prefix(s, a5, a4.len() as int, a5.len() as int);
    assert(a4 == s.subrange(0, a4.len() as int));
    lemma_concat_parts(a3, l3);
    lemma_subrange_of_prefix(s, a4, 0, a3.len() as int);
    lemma_subrange_of_prefix(s, a4, a3.len() as int, a4.len() as int);
    assert(a3 == s.subrange(0, a3.len() as int));
    lemma_concat_parts(a2, t);
    lemma_subrange_of_prefix(s, a3, 0, a2.len() as int);
    lemma_subrange_of_prefix(s, a3, a2.len() as int, a3.len() as int);
    assert(a2 == s.subrange(0, a2.len() as int));
    lemma_concat_parts(a1, l2);
    lemma_subrange_of_prefix(s, a2, 0, a1.len() as int);
    lemma_subrange_of_prefix(s, a2, a1.len() as int, a2.len() as int);
    assert(a1 == s.subrange(0, a1.len() as int));
    lemma_concat_parts(l1, b);
    lemma_subrange_of_prefix(s, a1, 0, l1.len() as int);
    lemma_subrange_of_prefix(s, a1, l1.len() as int, a1.len() as int);
    let pd = 36 + bl + tl;
    assert(s.subrange(pd, pd + dl) == d);
    assert forall|k: int| 0 <= k < d.len() implies s[pd + k] == d[k] by {
        assert(s.subrange(pd, pd + dl)[k] == s[pd + k]);
    }
    assert(s.subrange(pd + dl, pd + dl + 1) == l4);
    assert(s.subrange(pd + dl, pd + dl + 1)[0] == s[pd + dl + 0]);
    assert(s[pd + dl] == '}');
    assert(!is_digit('}'));
    assert(int_at(s, pd, n));
}

/// A literal that stands at `pos` of `s` cannot mismatch there.
proof fn lemma_expect_ok(s: Seq<char>, pos: int, lit: Seq<char>)
    requires
        0 <= pos,
        pos + lit.len() <= s.len(),
        s.subrange(pos, pos + lit.len()) == lit,
    ensures
        !(exists|k: int| 0 <= k < lit.len() && s[pos + k] != lit[k]),
{
    if exists|k: int| 0 <= k < lit.len() && s[pos + k] != lit[k] {
        let k = choose|k: int| 0 <= k < lit.len() && s[pos + k] != lit[k];
        assert(s.subrange(pos, pos + lit.len())[k] == s[pos + k]);
        assert(false);
    }
}

/// The boolean literal that was read at position 11 is the encoded one.
proof fn lemma_pin_bool(s: Seq<char>, p: bool, t: Seq<char>, n: int, playing: bool)
    requires
        s == spec_encode(p, t, n),
        playing ==> (forall|k: int| 0 <= k < 4 ==> s[11 + k] == "true"@[k]),
        !playing ==> (forall|k: int| 0 <= k < 5 ==> s[11 + k] == "false"@[k]),
    ensures
        p == playing,
{
    lemma_encode_anatomy(s, p, t, n);
    reveal_strlit("true");
    reveal_strlit("false");
    if p != playing {
        if playing {
            assert(s[11int + 0] == "true"@[0]);
            assert(s.subrange(11, 16)[0] == s[11int + 0]);
            assert(false);
        } else {
            assert(s[11int + 0] == "false"@[0]);
            assert(s.subrange(11, 15)[0] == s[11int + 0]);
            assert(false);
        }
    }
}

/// The first quote at or after the track field's start closes it: it
/// stands exactly behind the encoded track.
proof fn lemma_pin_quote(s: Seq<char>, p: bool, t: Seq<char>, n: int, j: int)
    requires
        s == spec_encode(p, t, n),
        wire_track_ok(t),
        21 + spec_bool_len(p) <= j < s.len(),
        s[j] == '"',
        forall|k: int| 21 + spec_bool_len(p) <= k < j ==> wire_char_ok(s[k]),
    ensures
        j == 21 + spec_bool_len(p) + t.len(),
{
    lemma_encode_anatomy(s, p, t, n);
    let bl = spec_bool_len(p);
    let pt = 21 + bl;
    let tl = t.len() as int;
    if j < pt + tl {
        assert(s.subrange(pt, pt + tl)[j - pt] == s[pt + (j - pt)]);
        assert(wire_char_ok(t[j - pt]));
        assert(false);
    }
    if j > pt + tl {
        reveal_strlit("\",\"start_time\":");
        assert(s.subrange(pt + tl, 36 + bl + tl)[0] == s[pt + tl + 0]);
        assert(s[pt + tl] == '"');
        assert(wire_char_ok(s[pt + tl]));
        assert(false);
    }
}

/// Everything a successful parse up to the closing quote pins down about
/// the encoded fields and the positions behind them.
proof fn lemma_pin_all(s: Seq<char>, p: bool, t: Seq<char>, n: int, playing: bool, j: int)
    requires
        s == spec_encode(p, t, n),
        wire_track_ok(t),
        playing ==> (forall|k: int| 0 <= k < 4 ==> s[11 + k] == "true"@[k]),
        !playing ==> (forall|k: int| 0 <= k < 5 ==> s[11 + k] == "false"@[k]),
        21 + spec_bool_len(playing) <= j < s.len(),
        s[j] == '"',
        forall|k: int| 21 + spec_bool_len(playing) <= k < j ==> wire_char_ok(s[k]),
    ensures
        p == playing,
        j == 21 + spec_bool_len(p) + t.len(),
        s.subrange(21 + spec_bool_len(p), j) == t,
        s.subrange(j, j + 15) == "\",\"start_time\":"@,
        int_at(s, j + 15, n),
        s.len() == j + 16 + spec_int_digits(n).len(),
        s.subrange(
            j + 15 + spec_int_digits(n).len(),
            j + 16 + spec_int_digits(n).len(),
        ) == "}"@,
{
    lemma_pin_bool(s, p, t, n, playing);
    lemma_pin_quote(s, p, t, n, j);
    lemma_encode_anatomy(s, p, t, n);
}

/// Equal canonical decimal spellings come from equal numbers.
proof fn lemma_int_digits_injective(n1: int, n2: int)
    requires
        i64::MIN <= n1 <= i64::MAX,
        i64::MIN <= n2 <= i64::MAX,
        spec_int_digits(n1) == spec_int_digits(n2),
    ensures
        n1 == n2,
{
    let d1 = spec_int_digits(n1);
    let d2 = spec_int_digits(n2);
    if n1 >= 0 && n2 >= 0 {
        lemma_nat_digits(n1);
        lemma_nat_digits(n2);
    } else if n1 < 0 && n2 < 0 {
        lemma_nat_digits(-n1);
        lemma_nat_digits(-n2);
        lemma_concat_parts(seq!['-'], spec_nat_digits(-n1));
        lemma_concat_parts(seq!['-'], spec_nat_digits(-n2));
        assert(spec_nat_digits(-n1) == d1.subrange(1, d1.len() as int));
        assert(spec_nat_digits(-n2) == d2.subrange(1, d2.len() as int));
    } else if n1 >= 0 {
        lemma_nat_digits(n1);
        assert(is_digit(d1[0]));
        assert(d2[0] == '-');
        assert(false);
    } else {
        lemma_nat_digits(n2);
        assert(is_digit(d2[0]));
        assert(d1[0] == '-');
        assert(false);
    }
}

/// Law: the wire form is injective.  Two statuses the format can carry
/// with the same encoding agree in every field, so a decoded status is
/// the one and only status the input spells.
pub proof fn lemma_encode_injective(
    p1: bool,
    t1: Seq<char>,
    n1: int,
    p2: bool,
    t2: Seq<char>,
    n2: int,
)
    requires
        wire_track_ok(t1),
        wire_track_ok(t2),
        i64::MIN <= n1 <= i64::MAX,
        i64::MIN <= n2 <= i64::MAX,
        spec_encode(p1, t1, n1) == spec_encode(p2, t2, n2),
    ensures
        p1 == p2,
        t1 == t2,
        n1 == n2,
{
    let s = spec_encode(p1, t1, n1);
    lemma_encode_anatomy(s, p1, t1, n1);
    lemma_encode_anatomy(s, p2, t2, n2);
    reveal_strlit("true");
    reveal_strlit("false");
    if p1 != p2 {
        assert(s.subrange(11, 11 + spec_bool_len(p1))[0] == s[11int + 0]);
        assert(s.subrange(11, 11 + spec_bool_len(p2))[0] == s[11int + 0]);
        assert(false);
    }
    let bl = spec_bool_len(p1);
    let tl = t1.len() as int;
    let j = 21 + bl + tl;
    reveal_strlit("\",\"start_time\":");
    assert(s.subrange(21 + bl + tl, 36 + bl + tl)[0] == s[j + 0]);
    assert(s[j] == '"');
    assert forall|k: int| 21 + bl <= k < j implies wire_char_ok(s[k]) by {
        assert(s.subrange(21 + bl, j)[k - (21 + bl)] == s[21 + bl + (k - (21 + bl))]);
        assert(wire_char_ok(t1[k - (21 + bl)]));
    }
    lemma_pin_quote(s, p2, t2, n2, j);
    assert(t1.len() == t2.len());
    assert(t1 == t2);
    assert(spec_int_digits(n1).len() == spec_int_digits(n2).len());
    assert(spec_int_digits(n1) == spec_int_digits(n2));
    lemma_int_digits_injective(n1, n2);
}

/// Decodes one wire-form status.  Exactly the canonical encodings are
/// accepted: a `Some` result carries the fields whose encoding the input
/// is, and an input that is the canonical encoding of some fields yields
/// `Some` of exactly those fields.
pub fn decode_status(s: &str) -> (r: Option<SyncStatus>)
    ensures
        (r matches Some(st) ==> wire_track_ok(st.track@) && s@ == spec_encode_status(st)),
        (forall|p: bool, t: Seq<char>, n: int|
            wire_track_ok(t) && i64::MIN <= n <= i64::MAX && s@ == spec_encode(p, t, n) ==> (r
                matches Some(st) && st.playing == p && st.track@ == t && st.start_time == n)),
{
    let sl = s.unicode_len();
    proof {
        reveal_strlit("{\"playing\":");
        reveal_strlit("true");
        reveal_strlit("false");
        reveal_strlit(",\"track\":\"");
        reveal_strlit("\",\"start_time\":");
        reveal_strlit("}");
    }
    let pos1 = match expect_lit(s, 0, "{\"playing\":") {
        Some(x) => x,
        None => {
            proof {
                assert forall|p: bool, t: Seq<char>, n: int|
                    wire_track_ok(t) && i64::MIN <= n <= i64::MAX && s@ == spec_encode(
                        p,
                        t,
                        n,
                    ) implies false by {
                    lemma_encode_anatomy(s@, p, t, n);
                    lemma_expect_ok(s@, 0, "{\"playing\":"@);
                }
            }
            return None;
        },
    };
    let (playing, pos2) = match expect_lit(s, pos1, "true") {
        Some(x) => (true, x),
        None => match expect_lit(s, pos1, "false") {
            Some(x) => (false, x),
            None => {
                proof {
                    assert forall|p: bool, t: Seq<char>, n: int|
                        wire_track_ok(t) && i64::MIN <= n <= i64::MAX && s@ == spec_encode(
                            p,
                            t,
                            n,
                        ) implies false by {
                        lemma_encode_anatomy(s@, p, t, n);
                        if p {
                            lemma_expect_ok(s@, 11, "true"@);
                        } else {
                            lemma_expect_ok(s@, 11, "false"@);
                        }
                    }
                }
                return None;
            },
        },
    };
    let pos3 = match expect_lit(s, pos2, ",\"track\":\"") {
        Some(x) => x,
        None => {
            proof {
                assert forall|p: bool, t: Seq<char>, n: int|
                    wire_track_ok(t) && i64::MIN <= n <= i64::MAX && s@ == spec_encode(
                        p,
                        t,
                        n,
                    ) implies false by {
                    lemma_pin_bool(s@, p, t, n, playing);
                    lemma_encode_anatomy(s@, p, t, n);
                    lemma_expect_ok(s@, 11 + spec_bool_len(p), ",\"track\":\""@);
                }
            }
            return None;
        },
    };
    let j = match scan_track(s, pos3) {
        Some(x) => x,
        None => {
            proof {
                assert forall|p: bool, t: Seq<char>, n: int|
                    wire_track_ok(t) && i64::MIN <= n <= i64::MAX && s@ == spec_encode(
                        p,
                        t,
                        n,
                    ) implies false by {
                    lemma_pin_bool(s@, p, t, n, playing);
                    lemma_encode_anatomy(s@, p, t, n);
                    let bl = spec_bool_len(p);
                    let tl = t.len() as int;
                    let jq = 21 + bl + tl;
                    assert(s@.subrange(jq, 36 + bl + tl)[0] == s@[jq + 0]);
                    assert(s@[jq] == '"') by {
                        reveal_strlit("\",\"start_time\":");
                    }
                    let k = choose|k: int| pos3 <= k < jq && !wire_char_ok(s@[k]);
                    assert(pos3 <= k < jq && !wire_char_ok(s@[k]));
                    assert(s@.subrange(21 + bl, jq)[k - (21 + bl)] == s@[21 + bl + (k - (21
                        + bl))]);
                    assert(wire_char_ok(t[k - (21 + bl)]));
                    assert(false);
                }
            }
            return None;
        },
    };
    let track_str = s.substring_char(pos3, j);
    let track = track_str.to_owned();
    proof {
        assert forall|k: int| 0 <= k < track@.len() implies wire_char_ok(track@[k]) by {
            assert(track@[k] == s@.subrange(pos3 as int, j as int)[k]);
            assert(s@.subrange(pos3 as int, j as int)[k] == s@[pos3 + k]);
        }
    }
    let pos4 = match expect_lit(s, j, "\",\"start_time\":") {
        Some(x) => x,
        None => {
            proof {
                assert forall|p: bool, t: Seq<char>, n: int|
                    wire_track_ok(t) && i64::MIN <= n <= i64::MAX && s@ == spec_encode(
                        p,
                        t,
                        n,
                    ) implies false by {
                    lemma_pin_all(s@, p, t, n, playing, j as int);
                    lemma_expect_ok(s@, j as int, "\",\"start_time\":"@);
                }
            }
            return None;
        },
    };
    let parsed = match parse_i64(s, pos4) {
        Some(x) => x,
        None => {
            proof {
                assert forall|p: bool, t: Seq<char>, n: int|
                    wire_track_ok(t) && i64::MIN <= n <= i64::MAX && s@ == spec_encode(
                        p,
                        t,
                        n,
                    ) implies false by {
                    lemma_pin_all(s@, p, t, n, playing, j as int);
                    assert(int_at(s@, pos4 as int, n));
                }
            }
            return None;
        },
    };
    let num = parsed.0;
    let pos5 = parsed.1;
    let pos6 = match expect_lit(s, pos5, "}") {
        Some(x) => x,
        None => {
            proof {
                assert forall|p: bool, t: Seq<char>, n: int|
                    wire_track_ok(t) && i64::MIN <= n <= i64::MAX && s@ == spec_encode(
                        p,
                        t,
                        n,
                    ) implies false by {
                    lemma_pin_all(s@, p, t, n, playing, j as int);
                    assert(int_at(s@, pos4 as int, n));
                    assert(pos5 == pos4 + spec_int_digits(n).len());
                    lemma_expect_ok(s@, pos5 as int, "}"@);
                }
            }
            return None;
        },
    };
    if pos6 != sl {
        proof {
            assert forall|p: bool, t: Seq<char>, n: int|
                wire_track_ok(t) && i64::MIN <= n <= i64::MAX && s@ == spec_encode(
                    p,
                    t,
                    n,
                ) implies false by {
                lemma_pin_all(s@, p, t, n, playing, j as int);
                assert(int_at(s@, pos4 as int, n));
                assert(pos5 == pos4 + spec_int_digits(n).len());
            }
        }
        return None;
    }
    let st = SyncStatus { playing, track, start_time: num };
    let e = encode_status(&st);
    if e == s.to_owned() {
        proof {
            assert forall|p: bool, t: Seq<char>, n: int|
                wire_track_ok(t) && i64::MIN <= n <= i64::MAX && s@ == spec_encode(
                    p,
                    t,
                    n,
                ) implies (st.playing == p && st.track@ == t && st.start_time == n) by {
                lemma_encode_injective(p, t, n, st.playing, st.track@, st.start_time as int);
            }
        }
        Some(st)
    } else {
        proof {
            assert forall|p: bool, t: Seq<char>, n: int|
                wire_track_ok(t) && i64::MIN <= n <= i64::MAX && s@ == spec_encode(
                    p,
                    t,
                    n,
                ) implies false by {
                lemma_pin_all(s@, p, t, n, playing, j as int);
                assert(int_at(s@, pos4 as int, n));
                assert(num == n);
                assert(st.track@ == s@.subrange(pos3 as int, j as int));
                assert(st.track@ == t);
                assert(spec_encode_status(st) == spec_encode(p, t, n));
                assert(false);
            }
        }
        None
    }
}


} // verus!
