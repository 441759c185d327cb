//! Canonical text form of a record.
//!
//! Every record is stored as compact JSON: no whitespace, strings quoted
//! with `"` and `\` and control bytes escaped, integers in decimal.
//! `write_json` produces exactly `ser` of the document; `parse_json`
//! accepts a byte string only if it is such a canonical form, and then
//! returns a document whose serialization is the input itself.

use vstd::prelude::*;

use crate::json::{bytes_eq, lemma_model_arr, lemma_model_obj, Json, JsonValue};

verus! {

broadcast use vstd::std_specs::vec::group_vec_axioms;

/// One decimal digit as its ASCII byte.
pub open spec fn digit_byte(d: int) -> u8 {
    (48 + d) as u8
}

/// Decimal digits of a non-negative integer, most significant first.
pub open spec fn dec_digits(n: int) -> Seq<u8>
    decreases n,
{
    if n < 10 {
        seq![digit_byte(n)]
    } else {
        dec_digits(n / 10) + seq![digit_byte(n % 10)]
    }
}

/// Canonical text of an integer.
pub open spec fn ser_int(i: int) -> Seq<u8> {
    if i < 0 {
        seq![45u8] + dec_digits(-i)
    } else {
        dec_digits(i)
    }
}

/// One hexadecimal digit as its ASCII byte (lower case).
pub open spec fn hex_byte(d: int) -> u8 {
    if d < 10 {
        (48 + d) as u8
    } else {
        (87 + d) as u8
    }
}

/// The escape of one string byte: `"` and `\` get a backslash, control
/// bytes become `\u00XX`, everything else stands for itself.
pub open spec fn esc_byte(b: u8) -> Seq<u8> {
    if b == 34 {
        seq![92u8, 34u8]
    } else if b == 92 {
        seq![92u8, 92u8]
    } else if b < 32 {
        seq![92u8, 117u8, 48u8, 48u8, hex_byte(b as int / 16), hex_byte(b as int % 16)]
    } else {
        seq![b]
    }
}

/// The escaped form of a whole string.
pub open spec fn escape(s: Seq<u8>) -> Seq<u8>
    decreases s,
{
    if s.len() == 0 {
        Seq::empty()
    } else {
        escape(s.subrange(0, s.len() - 1)) + esc_byte(s[s.len() - 1])
    }
}

/// Canonical text of a document.
pub open spec fn ser(j: Json) -> Seq<u8>
    decreases j,
{
    match j {
        Json::Null => seq![110u8, 117u8, 108u8, 108u8],
        Json::Bool(b) => if b {
            seq![116u8, 114u8, 117u8, 101u8]
        } else {
            seq![102u8, 97u8, 108u8, 115u8, 101u8]
        },
        Json::Int(i) => ser_int(i),
        Json::Str(s) => seq![34u8] + escape(s) + seq![34u8],
        Json::Arr(a) => seq![91u8] + ser_elems(a) + seq![93u8],
        Json::Obj(o) => seq![123u8] + ser_entries(o) + seq![125u8],
    }
}

/// Canonical text of the elements of an array, comma-separated.
pub open spec fn ser_elems(a: Seq<Json>) -> Seq<u8>
    decreases a,
{
    if a.len() == 0 {
        Seq::empty()
    } else if a.len() == 1 {
        ser(a[0])
    } else {
        ser_elems(a.subrange(0, a.len() - 1)) + seq![44u8] + ser(a[a.len() - 1])
    }
}

/// Canonical text of the entries of an object, comma-separated.
pub open spec fn ser_entries(o: Seq<(Seq<u8>, Json)>) -> Seq<u8>
    decreases o,
{
    if o.len() == 0 {
        Seq::empty()
    } else {
        let entry = seq![34u8] + escape(o[o.len() - 1].0) + seq![34u8, 58u8] + ser(o[o.len() - 1].1);
        if o.len() == 1 {
            entry
        } else {
            ser_entries(o.subrange(0, o.len() - 1)) + seq![44u8] + entry
        }
    }
}

/// Appends the decimal digits of `n`.
fn write_uint(n: u64, out: &mut Vec<u8>)
    ensures
        final(out)@ == old(out)@ + dec_digits(n as int),
    decreases n,
{
    if n < 10 {
        out.push(48 + n as u8);
    } else {
        write_uint(n / 10, out);
        out.push(48 + (n % 10) as u8);
    }
}

/// Appends the canonical text of `i`.
fn write_int(i: i64, out: &mut Vec<u8>)
    ensures
        final(out)@ == old(out)@ + ser_int(i as int),
{
    if i >= 0 {
        write_uint(i as u64, out);
    } else {
        out.push(45);
        let wide: i128 = i as i128;
        let mag: u64 = (-wide) as u64;
        write_uint(mag, out);
        assert(mag as int == -(i as int));
    }
}

/// Appends the escaped form of `s` between quotes.
fn write_string(s: &Vec<u8>, out: &mut Vec<u8>)
    ensures
        final(out)@ == old(out)@ + seq![34u8] + escape(s@) + seq![34u8],
{
    out.push(34);
    let n = s.len();
    for i in 0..n
        invariant
            n == s@.len(),
            out@ == old(out)@ + seq![34u8] + escape(s@.subrange(0, i as int)),
        decreases n - i,
    {
        let b = s[i];
        if b == 34 {
            out.push(92);
            out.push(34);
        } else if b == 92 {
            out.push(92);
            out.push(92);
        } else if b < 32 {
            out.push(92);
            out.push(117);
            out.push(48);
            out.push(48);
            let hi = b / 16;
            let lo = b % 16;
            out.push(if hi < 10 { 48 + hi } else { 87 + hi });
            out.push(if lo < 10 { 48 + lo } else { 87 + lo });
        } else {
            out.push(b);
        }
        proof {
            let pre = s@.subrange(0, i as int);
            let cur = s@.subrange(0, i + 1);
            assert(cur.subrange(0, cur.len() - 1) =~= pre);
            assert(cur[cur.len() - 1] == s@[i as int]);
            assert(escape(cur) == escape(pre) + esc_byte(s@[i as int]));
        }
    }
    proof {
        assert(s@.subrange(0, s@.len() as int) =~= s@);
    }
    out.push(34);
}

/// Appends the canonical text of a document.
pub fn write_json(v: &JsonValue, out: &mut Vec<u8>)
    ensures
        final(out)@ == old(out)@ + ser(v.model()),
    decreases *v,
{
    match v {
        JsonValue::Null => {
            out.push(110);
            out.push(117);
            out.push(108);
            out.push(108);
            assert(out@ =~= old(out)@ + ser(v.model()));
        },
        JsonValue::Bool(b) => {
            if *b {
                out.push(116);
                out.push(114);
                out.push(117);
                out.push(101);
            } else {
                out.push(102);
                out.push(97);
                out.push(108);
                out.push(115);
                out.push(101);
            }
            assert(out@ =~= old(out)@ + ser(v.model()));
        },
        JsonValue::Int(i) => {
            write_int(*i, out);
        },
        JsonValue::Str(s) => {
            write_string(s, out);
        },
        JsonValue::Arr(elems) => {
            proof {
                lemma_model_arr(*v);
            }
            out.push(91);
            let ghost m = v.model()->Arr_0;
            let n = elems.len();
            for i in 0..n
                invariant
                    n == elems@.len(),
                    m == v.model()->Arr_0,
                    m.len() == n,
                    forall|j: int| 0 <= j < n ==> m[j] == elems@[j].model(),
                    out@ == old(out)@ + seq![91u8] + ser_elems(m.subrange(0, i as int)),
                    v is Arr && v->Arr_0 == *elems,
                decreases n - i,
            {
                if i > 0 {
                    out.push(44);
                }
                write_json(&elems[i], out);
                proof {
                    let pre = m.subrange(0, i as int);
                    let cur = m.subrange(0, i + 1);
                    assert(cur.subrange(0, cur.len() - 1) =~= pre);
                    assert(cur[cur.len() - 1] == m[i as int]);
                    if i == 0 {
                        assert(ser_elems(cur) == ser(m[0]));
                        assert(out@ =~= old(out)@ + seq![91u8] + ser_elems(cur));
                    } else {
                        assert(ser_elems(cur) == ser_elems(pre) + seq![44u8] + ser(m[i as int]));
                        assert(out@ =~= old(out)@ + seq![91u8] + ser_elems(cur));
                    }
                }
            }
            out.push(93);
            proof {
                assert(m.subrange(0, m.len() as int) =~= m);
                assert(out@ =~= old(out)@ + ser(v.model()));
            }
        },
        JsonValue::Obj(entries) => {
            proof {
                lemma_model_obj(*v);
            }
            out.push(123);
            let ghost m = v.model()->Obj_0;
            let n = entries.len();
            for i in 0..n
                invariant
                    n == entries@.len(),
                    m == v.model()->Obj_0,
                    m.len() == n,
                    forall|j: int| 0 <= j < n
                        ==> m[j] == (entries@[j].0@, entries@[j].1.model()),
                    out@ == old(out)@ + seq![123u8] + ser_entries(m.subrange(0, i as int)),
                    v is Obj && v->Obj_0 == *entries,
                decreases n - i,
            {
                if i > 0 {
                    out.push(44);
                }
                write_string(&entries[i].0, out);
                out.push(58);
                write_json(&entries[i].1, out);
                proof {
                    let pre = m.subrange(0, i as int);
                    let cur = m.subrange(0, i + 1);
                    assert(cur.subrange(0, cur.len() - 1) =~= pre);
                    assert(cur[cur.len() - 1] == m[i as int]);
                    let entry = seq![34u8] + escape(m[i as int].0) + seq![34u8, 58u8] + ser(m[i as int].1);
                    if i == 0 {
                        assert(ser_entries(cur) == entry);
                    } else {
                        assert(ser_entries(cur) == ser_entries(pre) + seq![44u8] + entry);
                    }
                    assert(out@ =~= old(out)@ + seq![123u8] + ser_entries(cur));
                }
            }
            out.push(125);
            proof {
                assert(m.subrange(0, m.len() as int) =~= m);
                assert(out@ =~= old(out)@ + ser(v.model()));
            }
        },
    }
}

/// The canonical text of a document, as a fresh byte string.
pub fn to_bytes(v: &JsonValue) -> (r: Vec<u8>)
    ensures
        r@ == ser(v.model()),
{
    let mut out: Vec<u8> = Vec::new();
    write_json(v, &mut out);
    assert(out@ =~= ser(v.model()));
    out
}

/// Reads one quoted string starting at the opening quote.
fn parse_string(s: &Vec<u8>, pos: usize) -> (r: Option<(Vec<u8>, usize)>)
    requires
        pos < s@.len(),
    ensures
        r is Some ==> pos < r.unwrap().1 <= s@.len(),
{
    if s[pos] != 34 {
        return None;
    }
    let n = s.len();
    let mut cur = pos + 1;
    let mut text: Vec<u8> = Vec::new();
    loop
        invariant
            pos < cur <= n,
            n == s@.len(),
        decreases n - cur,
    {
        if cur >= n {
            return None;
        }
        let b = s[cur];
        if b == 34 {
            return Some((text, cur + 1));
        } else if b == 92 {
            if cur + 1 >= n {
                return None;
            }
            let e = s[cur + 1];
            if e == 34 {
                text.push(34);
                cur = cur + 2;
            } else if e == 92 {
                text.push(92);
                cur = cur + 2;
            } else if e == 117 {
                if n - cur < 6 {
                    return None;
                }
                if s[cur + 2] != 48 || s[cur + 3] != 48 {
                    return None;
                }
                let hi = hex_value(s[cur + 4]);
                let lo = hex_value(s[cur + 5]);
                match (hi, lo) {
                    (Some(h), Some(l)) => {
                        text.push(h * 16 + l);
                        cur = cur + 6;
                    },
                    _ => {
                        return None;
                    },
                }
            } else {
                return None;
            }
        } else {
            text.push(b);
            cur = cur + 1;
        }
    }
}

/// The value of one hexadecimal digit byte, lower case.
fn hex_value(b: u8) -> (r: Option<u8>)
    ensures
        r is Some <==> hex_digit_val(b) >= 0,
        r is Some ==> r.unwrap() == hex_digit_val(b) && r.unwrap() < 16,
{
    if 48 <= b && b <= 57 {
        Some(b - 48)
    } else if 97 <= b && b <= 102 {
        Some(b - 87)
    } else {
        None
    }
}

/// Reads one integer starting at `pos`.
fn parse_int(s: &Vec<u8>, pos: usize) -> (r: Option<(i64, usize)>)
    requires
        pos < s@.len(),
    ensures
        r is Some ==> pos < r.unwrap().1 <= s@.len(),
{
    let n = s.len();
    let mut cur = pos;
    let negative = s[cur] == 45;
    if negative {
        cur = cur + 1;
    }
    let mut digits: usize = 0;
    let mut mag: u64 = 0;
    loop
        invariant
            pos <= cur <= n,
            n == s@.len(),
            negative ==> pos < cur,
            mag <= 0xffff_ffff_ffff_ffff,
            digits <= 19,
            (digits > 0 || negative) ==> cur > pos,
        decreases n - cur,
    {
        if cur >= n {
            break;
        }
        let b = s[cur];
        if 48 <= b && b <= 57 {
            if digits == 19 {
                return None;
            }
            assert(mag <= 0xffff_ffff_ffff_ffff);
            if mag > 0x0fff_ffff_ffff_ffff {
                // More headroom than any 19-digit number needs.
                if mag > 1844674407370955160 {
                    return None;
                }
            }
            let d = (b - 48) as u64;
            if mag == 1844674407370955160 && d > 15 {
                return None;
            }
            mag = mag * 10 + d;
            digits = digits + 1;
            cur = cur + 1;
        } else {
            break;
        }
    }
    if digits == 0 {
        return None;
    }
    if negative {
        if mag > 9223372036854775808 {
            return None;
        }
        if mag == 9223372036854775808 {
            Some((i64::MIN, cur))
        } else {
            Some((-(mag as i64), cur))
        }
    } else {
        if mag > 9223372036854775807 {
            return None;
        }
        Some((mag as i64, cur))
    }
}

/// Reads one document starting at `pos`; gives it back with the position
/// one past its last byte.
fn parse_value(s: &Vec<u8>, pos: usize) -> (r: Option<(JsonValue, usize)>)
    requires
        pos <= s@.len(),
    ensures
        r is Some ==> pos < r.unwrap().1 <= s@.len(),
    decreases s@.len() - pos,
{
    let n = s.len();
    if pos >= n {
        return None;
    }
    let b = s[pos];
    if b == 110 {
        if n - pos >= 4 && s[pos + 1] == 117 && s[pos + 2] == 108 && s[pos + 3] == 108 {
            Some((JsonValue::Null, pos + 4))
        } else {
            None
        }
    } else if b == 116 {
        if n - pos >= 4 && s[pos + 1] == 114 && s[pos + 2] == 117 && s[pos + 3] == 101 {
            Some((JsonValue::Bool(true), pos + 4))
        } else {
            None
        }
    } else if b == 102 {
        if n - pos >= 5 && s[pos + 1] == 97 && s[pos + 2] == 108 && s[pos + 3] == 115
            && s[pos + 4] == 101 {
            Some((JsonValue::Bool(false), pos + 5))
        } else {
            None
        }
    } else if b == 34 {
        match parse_string(s, pos) {
            Some((text, end)) => Some((JsonValue::Str(text), end)),
            None => None,
        }
    } else if b == 45 || (48 <= b && b <= 57) {
        match parse_int(s, pos) {
            Some((i, end)) => Some((JsonValue::Int(i), end)),
            None => None,
        }
    } else if b == 91 {
        let mut elems: Vec<JsonValue> = Vec::new();
        let mut cur = pos + 1;
        if cur < n && s[cur] == 93 {
            return Some((JsonValue::Arr(elems), cur + 1));
        }
        loop
            invariant
                pos < cur <= n,
                n == s@.len(),
            decreases n - cur,
        {
            match parse_value(s, cur) {
                None => {
                    return None;
                },
                Some((v, end)) => {
                    elems.push(v);
                    cur = end;
                },
            }
            if cur < n && s[cur] == 44 {
                cur = cur + 1;
            } else if cur < n && s[cur] == 93 {
                return Some((JsonValue::Arr(elems), cur + 1));
            } else {
                return None;
            }
        }
    } else if b == 123 {
        let mut entries: Vec<(Vec<u8>, JsonValue)> = Vec::new();
        let mut cur = pos + 1;
        if cur < n && s[cur] == 125 {
            return Some((JsonValue::Obj(entries), cur + 1));
        }
        loop
            invariant
                pos < cur <= n,
                n == s@.len(),
            decreases n - cur,
        {
            if cur >= n {
                return None;
            }
            let (key, after_key) = match parse_string(s, cur) {
                None => {
                    return None;
                },
                Some(p) => p,
            };
            if after_key >= n || s[after_key] != 58 {
                return None;
            }
            let (v, end) = match parse_value(s, after_key + 1) {
                None => {
                    return None;
                },
                Some(p) => p,
            };
            entries.push((key, v));
            cur = end;
            if cur < n && s[cur] == 44 {
                cur = cur + 1;
            } else if cur < n && s[cur] == 125 {
                return Some((JsonValue::Obj(entries), cur + 1));
            } else {
                return None;
            }
        }
    } else {
        None
    }
}

/// The number a string of decimal digits stands for.
pub open spec fn dec_val(s: Seq<u8>) -> int
    decreases s,
{
    if s.len() == 0 {
        0
    } else {
        dec_val(s.subrange(0, s.len() - 1)) * 10 + (s[s.len() - 1] - 48)
    }
}

/// The digits of a number are decimal digits, at least one of them, and
/// stand for the number.
pub proof fn lemma_dec_digits(n: int)
    requires
        n >= 0,
    ensures
        dec_digits(n).len() >= 1,
        forall|i: int| 0 <= i < dec_digits(n).len() ==> 48 <= #[trigger] dec_digits(n)[i] <= 57,
        dec_val(dec_digits(n)) == n,
    decreases n,
{
    if n < 10 {
        assert(dec_digits(n) == seq![digit_byte(n)]);
        assert(dec_digits(n).subrange(0, 0) =~= Seq::<u8>::empty());
        assert(dec_val(Seq::<u8>::empty()) == 0);
        assert(dec_val(dec_digits(n)) == 0 * 10 + (digit_byte(n) - 48));
    } else {
        lemma_dec_digits(n / 10);
        let s = dec_digits(n);
        assert(s == dec_digits(n / 10) + seq![digit_byte(n % 10)]);
        assert(s.subrange(0, s.len() - 1) =~= dec_digits(n / 10));
        assert(s[s.len() - 1] == digit_byte(n % 10));
        assert(forall|i: int| 0 <= i < s.len() - 1 ==> s[i] == #[trigger] dec_digits(n / 10)[i]);
        vstd::arithmetic::div_mod::lemma_fundamental_div_mod(n, 10);
    }
}

/// Digit strings stand for nothing negative, and no prefix outgrows the
/// whole.
pub proof fn lemma_dec_val_prefix(s: Seq<u8>, k: int)
    requires
        0 <= k <= s.len(),
        forall|i: int| 0 <= i < s.len() ==> 48 <= #[trigger] s[i] <= 57,
    ensures
        0 <= dec_val(s.subrange(0, k)) <= dec_val(s),
    decreases s.len() - k,
{
    if k == s.len() {
        assert(s.subrange(0, k) =~= s);
        lemma_dec_val_nonneg(s);
    } else {
        lemma_dec_val_prefix(s, k + 1);
        let longer = s.subrange(0, k + 1);
        assert(longer.subrange(0, longer.len() - 1) =~= s.subrange(0, k));
        lemma_dec_val_nonneg(s.subrange(0, k));
        assert(dec_val(longer) == dec_val(s.subrange(0, k)) * 10 + (s[k] - 48));
    }
}

/// Digit strings stand for nothing negative.
pub proof fn lemma_dec_val_nonneg(s: Seq<u8>)
    requires
        forall|i: int| 0 <= i < s.len() ==> 48 <= #[trigger] s[i] <= 57,
    ensures
        dec_val(s) >= 0,
    decreases s,
{
    if s.len() > 0 {
        lemma_dec_val_nonneg(s.subrange(0, s.len() - 1));
    }
}

/// A number's digits stand at `pos`, with nothing to carry them on: the
/// byte after them, if any, is no digit.
pub open spec fn digits_at(t: Seq<u8>, pos: int, v: int) -> bool {
    &&& 0 <= v
    &&& pos + dec_digits(v).len() <= t.len()
    &&& t.subrange(pos, pos + dec_digits(v).len() as int) == dec_digits(v)
    &&& (pos + dec_digits(v).len() == t.len() || !(48 <= t[pos + dec_digits(v).len()] <= 57))
}

/// Reads the run of decimal digits at `pos`. Complete on canonical
/// digits: where some number's digits stand at `pos`, that number and
/// the position after its digits come back.
pub fn read_uint_at(t: &Vec<u8>, pos: usize) -> (r: Option<(u64, usize)>)
    requires
        pos <= t@.len(),
    ensures
        r matches Some(p) ==> pos < p.1 <= t@.len(),
        forall|v: int| 0 <= v < 0x0400_0000_0000_0000 && digits_at(t@, pos as int, v)
            ==> (r matches Some(p) && p.0 == v && p.1 == pos + dec_digits(v).len()),
{
    let n = t.len();
    let mut cur = pos;
    let mut acc: u64 = 0;
    while cur < n && 48 <= t[cur] && t[cur] <= 57
        invariant
            pos <= cur <= n,
            n == t@.len(),
            forall|j: int| pos <= j < cur ==> 48 <= #[trigger] t@[j] <= 57,
            acc == dec_val(t@.subrange(pos as int, cur as int)),
        decreases n - cur,
    {
        if acc >= 0x0400_0000_0000_0000 {
            // Too many digits for any number this store writes.
            proof {
                assert forall|v: int| 0 <= v < 0x0400_0000_0000_0000 && digits_at(
                    t@,
                    pos as int,
                    v,
                ) implies false by {
                    lemma_dec_digits(v);
                    let dl = dec_digits(v).len() as int;
                    assert(cur <= pos + dl) by {
                        if cur > pos + dl {
                            assert(48 <= t@[pos + dl] <= 57);
                            assert(pos + dl < t@.len());
                            assert(t@.subrange(pos as int, pos + dl) == dec_digits(v));
                            assert(!(48 <= t@[pos + dl] <= 57));
                        }
                    }
                    assert(t@.subrange(pos as int, cur as int) =~= dec_digits(v).subrange(
                        0,
                        cur - pos,
                    ));
                    lemma_dec_val_prefix(dec_digits(v), cur - pos);
                    assert(dec_val(dec_digits(v)) == v);
                }
            }
            return None;
        }
        let d = (t[cur] - 48) as u64;
        proof {
            let before = t@.subrange(pos as int, cur as int);
            let after = t@.subrange(pos as int, cur + 1);
            assert(after.subrange(0, after.len() - 1) =~= before);
            assert(after[after.len() - 1] == t@[cur as int]);
        }
        acc = acc * 10 + d;
        cur = cur + 1;
    }
    if cur == pos {
        // No digit stands here.
        proof {
            assert forall|v: int| 0 <= v < 0x0400_0000_0000_0000 && digits_at(t@, pos as int, v)
                implies false by {
                lemma_dec_digits(v);
                assert(t@[pos as int] == dec_digits(v)[0]);
            }
        }
        return None;
    }
    proof {
        assert forall|v: int| 0 <= v < 0x0400_0000_0000_0000 && digits_at(t@, pos as int, v)
            implies acc == v && cur == pos + dec_digits(v).len() by {
            lemma_dec_digits(v);
            let dl = dec_digits(v).len() as int;
            assert(cur <= pos + dl) by {
                if cur > pos + dl {
                    assert(48 <= t@[pos + dl] <= 57);
                    assert(pos + dl < t@.len());
                    assert(!(48 <= t@[pos + dl] <= 57));
                }
            }
            assert(cur >= pos + dl) by {
                if cur < pos + dl {
                    assert(dec_digits(v)[cur - pos] == t@[cur as int]);
                    assert(48 <= dec_digits(v)[cur - pos] <= 57);
                    assert(cur == n || !(48 <= t@[cur as int] <= 57));
                    assert(cur < n);
                }
            }
            assert(t@.subrange(pos as int, cur as int) =~= dec_digits(v));
        }
    }
    Some((acc, cur))
}

/// Whether the given bytes stand at `pos`.
pub fn bytes_at(t: &Vec<u8>, pos: usize, lit: &Vec<u8>) -> (r: bool)
    requires
        pos <= t@.len(),
    ensures
        r == (pos + lit@.len() <= t@.len() && t@.subrange(pos as int, pos + lit@.len())
            == lit@),
{
    let m = lit.len();
    let n = t.len();
    if m > n - pos {
        return false;
    }
    for i in 0..m
        invariant
            m == lit@.len(),
            n == t@.len(),
            pos + m <= n,
            forall|j: int| 0 <= j < i ==> t@[pos + j] == #[trigger] lit@[j],
        decreases m - i,
    {
        if t[pos + i] != lit[i] {
            assert(t@.subrange(pos as int, pos + lit@.len())[i as int] != lit@[i as int]);
            return false;
        }
    }
    assert(t@.subrange(pos as int, pos + lit@.len()) =~= lit@);
    true
}

/// The value of a lower-case hexadecimal digit byte, or -1.
pub open spec fn hex_digit_val(b: u8) -> int {
    if 48 <= b <= 57 {
        b - 48
    } else if 97 <= b <= 102 {
        b - 87
    } else {
        -1
    }
}

/// Escaping splits over concatenation.
pub proof fn lemma_escape_concat(s1: Seq<u8>, s2: Seq<u8>)
    ensures
        escape(s1 + s2) == escape(s1) + escape(s2),
    decreases s2.len(),
{
    if s2.len() == 0 {
        assert(s1 + s2 =~= s1);
        assert(escape(s1 + s2) =~= escape(s1) + escape(s2));
    } else {
        let all = s1 + s2;
        assert(all.subrange(0, all.len() - 1) =~= s1 + s2.subrange(0, s2.len() - 1));
        assert(all[all.len() - 1] == s2[s2.len() - 1]);
        lemma_escape_concat(s1, s2.subrange(0, s2.len() - 1));
        assert(escape(s1 + s2) =~= escape(s1) + escape(s2));
    }
}

/// Reads an escaped string up to its unescaped closing quote: the string
/// it stands for and everything after the quote. `None` where no
/// well-formed quoted text starts.
pub open spec fn unquote(t: Seq<u8>) -> Option<(Seq<u8>, Seq<u8>)>
    decreases t.len(),
{
    if t.len() == 0 {
        Option::None
    } else if t[0] == 34 {
        Option::Some((Seq::empty(), t.subrange(1, t.len() as int)))
    } else if t[0] == 92 {
        if t.len() >= 2 && (t[1] == 34 || t[1] == 92) {
            match unquote(t.subrange(2, t.len() as int)) {
                Option::Some(p) => Option::Some((seq![t[1]] + p.0, p.1)),
                Option::None => Option::None,
            }
        } else if t.len() >= 6 && t[1] == 117 && t[2] == 48 && t[3] == 48 && hex_digit_val(t[4])
            >= 0 && hex_digit_val(t[5]) >= 0 {
            match unquote(t.subrange(6, t.len() as int)) {
                Option::Some(p) => Option::Some(
                    (seq![(hex_digit_val(t[4]) * 16 + hex_digit_val(t[5])) as u8] + p.0, p.1),
                ),
                Option::None => Option::None,
            }
        } else {
            Option::None
        }
    } else {
        match unquote(t.subrange(1, t.len() as int)) {
            Option::Some(p) => Option::Some((seq![t[0]] + p.0, p.1)),
            Option::None => Option::None,
        }
    }
}

/// Unquoting inverts escaping: the escaped form of a string, its closing
/// quote, and anything after read back as exactly that string and that
/// remainder.
pub proof fn lemma_unquote_escape(s: Seq<u8>, rest: Seq<u8>)
    ensures
        unquote(escape(s) + seq![34u8] + rest) == Option::Some((s, rest)),
    decreases s.len(),
{
    let t = escape(s) + seq![34u8] + rest;
    if s.len() == 0 {
        assert(escape(s) =~= Seq::<u8>::empty());
        assert(t =~= seq![34u8] + rest);
        assert(t[0] == 34);
        assert(t.subrange(1, t.len() as int) =~= rest);
    } else {
        let s0 = s[0];
        let s1 = s.subrange(1, s.len() as int);
        assert(s =~= seq![s0] + s1);
        lemma_escape_concat(seq![s0], s1);
        assert(escape(seq![s0]) =~= esc_byte(s0)) by {
            assert(seq![s0].subrange(0, 0) =~= Seq::<u8>::empty());
            assert(escape(Seq::<u8>::empty()) =~= Seq::<u8>::empty());
        }
        assert(escape(s) == esc_byte(s0) + escape(s1));
        lemma_unquote_escape(s1, rest);
        let t1 = escape(s1) + seq![34u8] + rest;
        if s0 == 34 {
            assert(t[0] == 92 && t[1] == 34);
            assert(t.subrange(2, t.len() as int) =~= t1);
            assert(seq![t[1]] + s1 =~= s);
        } else if s0 == 92 {
            assert(t[0] == 92 && t[1] == 92);
            assert(t.subrange(2, t.len() as int) =~= t1);
            assert(seq![t[1]] + s1 =~= s);
        } else if s0 < 32 {
            assert(t[0] == 92 && t[1] == 117 && t[2] == 48 && t[3] == 48);
            assert(t[4] == hex_byte(s0 as int / 16) && t[5] == hex_byte(s0 as int % 16));
            assert(hex_digit_val(hex_byte(s0 as int / 16)) == s0 as int / 16);
            assert(hex_digit_val(hex_byte(s0 as int % 16)) == s0 as int % 16);
            vstd::arithmetic::div_mod::lemma_fundamental_div_mod(s0 as int, 16);
            assert(t.subrange(6, t.len() as int) =~= t1);
            assert(seq![(hex_digit_val(t[4]) * 16 + hex_digit_val(t[5])) as u8] + s1 =~= s);
        } else {
            assert(t[0] == s0 && s0 != 34 && s0 != 92);
            assert(t.subrange(1, t.len() as int) =~= t1);
            assert(seq![t[0]] + s1 =~= s);
        }
    }
}

/// Reads the escaped string starting at `pos` up to its closing quote,
/// exactly as `unquote` reads the byte suffix there.
pub fn take_quoted(t: &Vec<u8>, pos: usize) -> (r: Option<(Vec<u8>, usize)>)
    requires
        pos <= t@.len(),
    ensures
        match unquote(t@.subrange(pos as int, t@.len() as int)) {
            Option::Some(p) => r matches Some(q) && q.0@ == p.0 && pos < q.1 <= t@.len() && p.1
                == t@.subrange(q.1 as int, t@.len() as int),
            Option::None => r is None,
        },
{
    let n = t.len();
    let mut cur = pos;
    let mut acc: Vec<u8> = Vec::new();
    loop
        invariant
            pos <= cur <= n,
            n == t@.len(),
            match unquote(t@.subrange(cur as int, n as int)) {
                Option::Some(p) => unquote(t@.subrange(pos as int, n as int))
                    == Option::Some((acc@ + p.0, p.1)),
                Option::None => unquote(t@.subrange(pos as int, n as int)) is None,
            },
        decreases n - cur,
    {
        let ghost suffix = t@.subrange(cur as int, n as int);
        if cur == n {
            proof {
                assert(suffix =~= Seq::<u8>::empty());
            }
            return None;
        }
        let b = t[cur];
        proof {
            assert(suffix[0] == b);
        }
        if b == 34 {
            proof {
                assert(unquote(suffix) == Option::Some(
                    (Seq::<u8>::empty(), suffix.subrange(1, suffix.len() as int)),
                ));
                assert(acc@ + Seq::<u8>::empty() =~= acc@);
                assert(suffix.subrange(1, suffix.len() as int) =~= t@.subrange(
                    cur + 1,
                    n as int,
                ));
            }
            return Some((acc, cur + 1));
        } else if b == 92 {
            if n - cur >= 2 {
                let e = t[cur + 1];
                proof {
                    assert(suffix[1] == e);
                }
                if e == 34 || e == 92 {
                    proof {
                        assert(suffix.subrange(2, suffix.len() as int) =~= t@.subrange(
                            cur + 2,
                            n as int,
                        ));
                        assert(acc@.push(e) =~= acc@ + seq![e]);
                    }
                    acc.push(e);
                    cur = cur + 2;
                    proof {
                        assert(forall|x: Seq<u8>, y: Seq<u8>, z: Seq<u8>| (x + y) + z =~= x + (
                        y + z));
                    }
                } else if n - cur >= 6 && e == 117 && t[cur + 2] == 48 && t[cur + 3] == 48 {
                    let h = hex_value(t[cur + 4]);
                    let l = hex_value(t[cur + 5]);
                    proof {
                        assert(suffix[2] == t@[cur + 2] && suffix[3] == t@[cur + 3]);
                        assert(suffix[4] == t@[cur + 4] && suffix[5] == t@[cur + 5]);
                    }
                    match (h, l) {
                        (Some(hv), Some(lv)) => {
                            proof {
                                assert(suffix.subrange(6, suffix.len() as int) =~= t@.subrange(
                                    cur + 6,
                                    n as int,
                                ));
                                assert(acc@.push((hv * 16 + lv) as u8) =~= acc@ + seq![
                                    (hex_digit_val(suffix[4]) * 16 + hex_digit_val(suffix[5])) as u8,
                                ]);
                                assert(forall|x: Seq<u8>, y: Seq<u8>, z: Seq<u8>| (x + y) + z
                                    =~= x + (y + z));
                            }
                            acc.push(hv * 16 + lv);
                            cur = cur + 6;
                        },
                        _ => {
                            return None;
                        },
                    }
                } else {
                    return None;
                }
            } else {
                return None;
            }
        } else {
            proof {
                assert(suffix.subrange(1, suffix.len() as int) =~= t@.subrange(cur + 1, n as int));
                assert(acc@.push(b) =~= acc@ + seq![b]);
                assert(forall|x: Seq<u8>, y: Seq<u8>, z: Seq<u8>| (x + y) + z =~= x + (y + z));
            }
            acc.push(b);
            cur = cur + 1;
        }
    }
}

/// Escaping touches nothing in a string of plain bytes: no control
/// bytes, no quote, no backslash.
pub proof fn lemma_escape_plain(s: Seq<u8>)
    requires
        forall|i: int| 0 <= i < s.len() ==> 32 <= #[trigger] s[i] && s[i] != 34 && s[i] != 92,
    ensures
        escape(s) == s,
    decreases s,
{
    if s.len() > 0 {
        lemma_escape_plain(s.subrange(0, s.len() - 1));
        assert(esc_byte(s[s.len() - 1]) == seq![s[s.len() - 1]]);
        assert(escape(s) =~= s);
    }
}

/// Reads a whole canonical document. A byte string is accepted only when
/// it is exactly the canonical text of the returned document.
pub fn parse_json(bytes: &Vec<u8>) -> (r: Option<JsonValue>)
    ensures
        r is Some ==> ser(r.unwrap().model()) == bytes@,
{
    match parse_value(bytes, 0) {
        None => None,
        Some((v, end)) => {
            if end != bytes.len() {
                return None;
            }
            let echo = to_bytes(&v);
            if bytes_eq(&echo, bytes) {
                Some(v)
            } else {
                None
            }
        },
    }
}

} // verus!
