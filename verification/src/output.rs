//! Textual output: one JSON line per OHLC record, with decimal prices
//! serialized as strings to preserve exact precision.

use vstd::prelude::*;
use vstd::string::StringExecFns;
use crate::price::Price;

verus! {

/// The digit character for `d` (`0 <= d <= 9`).
pub open spec fn digit_char(d: int) -> char {
    ((48 + d) as u8) as char
}

/// The decimal digits of `n`, most significant first.
pub open spec fn dec_digits(n: nat) -> Seq<char>
    decreases n,
{
    if n < 10 {
        seq![digit_char(n as int)]
    } else {
        dec_digits(n / 10).push(digit_char((n % 10) as int))
    }
}

/// Every character is a decimal digit.
pub open spec fn digits_only(s: Seq<char>) -> bool {
    forall|k: int| 0 <= k < s.len() ==> '0' <= #[trigger] s[k] <= '9'
}

/// No character is a line break.
pub open spec fn line_free(s: Seq<char>) -> bool {
    forall|k: int| 0 <= k < s.len() ==> #[trigger] s[k] != '\n'
}

/// A printed integer consists of digits alone.
pub proof fn lemma_dec_digits_only(n: nat)
    ensures
        digits_only(dec_digits(n)),
    decreases n,
{
    if n < 10 {
        assert('0' <= digit_char(n as int) <= '9');
    } else {
        lemma_dec_digits_only(n / 10);
        assert('0' <= digit_char((n % 10) as int) <= '9');
        assert forall|k: int| 0 <= k < dec_digits(n).len() implies '0' <= #[trigger] dec_digits(
            n,
        )[k] <= '9' by {
            if k < dec_digits(n / 10).len() {
                assert(dec_digits(n)[k] == dec_digits(n / 10)[k]);
            }
        }
    }
}

/// Joining two line-free texts is line-free.
proof fn lemma_line_free_concat(a: Seq<char>, b: Seq<char>)
    requires
        line_free(a),
        line_free(b),
    ensures
        line_free(a + b),
{
    assert forall|k: int| 0 <= k < (a + b).len() implies #[trigger] (a + b)[k] != '\n' by {
        if k < a.len() {
            assert((a + b)[k] == a[k]);
        } else {
            assert((a + b)[k] == b[k - a.len()]);
        }
    }
}

/// Relies on `String::push`: appends one character at the end.
#[verifier::external_body]
fn string_push(s: &mut String, c: char)
    ensures
        final(s)@ == old(s)@.push(c),
{
    s.push(c);
}

/// Prints an integer in decimal.
pub fn u128_to_string(n: u128) -> (r: String)
    ensures
        r@ == dec_digits(n as nat),
    decreases n,
{
    if n < 10 {
        let mut s = String::new();
        string_push(&mut s, (48 + n as u8) as char);
        s
    } else {
        let mut s = u128_to_string(n / 10);
        string_push(&mut s, (48 + (n % 10) as u8) as char);
        s
    }
}

/// The text `rust_decimal` prints for the decimal `mantissa / 10^scale`: a
/// function of the two alone.
pub uninterp spec fn decimal_str_of(mantissa: int, scale: int) -> Seq<char>;

/// Relies on `Decimal::to_string` (its `Display` impl): the text depends on
/// the decimal's mantissa and scale alone, is never empty, and holds only
/// digits, a leading minus sign, and a decimal point.
#[verifier::external_body]
fn price_to_string(p: &Price) -> (r: String)
    requires
        p.wf(),
    ensures
        r@ == decimal_str_of(p.mantissa as int, p.scale as int),
        r@.len() > 0,
        forall|k: int|
            0 <= k < r@.len() ==> ('0' <= #[trigger] r@[k] <= '9' || r@[k] == '-' || r@[k]
                == '.'),
{
    let d = rust_decimal::Decimal::from_i128_with_scale(p.mantissa, p.scale);
    d.to_string()
}

/// The exact line emitted for one record, newline-terminated.
pub open spec fn json_line_of(sym: Seq<char>, t: nat, o: Price, h: Price, l: Price, c: Price) -> Seq<
    char,
> {
    "{\"symbol\":\""@ + sym + "\",\"timestamp\":"@ + dec_digits(t) + ",\"open\":\""@
        + decimal_str_of(o.mantissa as int, o.scale as int) + "\",\"high\":\""@ + decimal_str_of(
        h.mantissa as int,
        h.scale as int,
    ) + "\",\"low\":\""@ + decimal_str_of(l.mantissa as int, l.scale as int) + "\",\"close\":\""@
        + decimal_str_of(c.mantissa as int, c.scale as int) + "\"}\n"@
}

/// Serializes one OHLC record as its JSON line, decimals as strings.
pub fn format_output(name: &String, time: u128, o: Price, h: Price, l: Price, c: Price) -> (r:
    String)
    requires
        o.wf(),
        h.wf(),
        l.wf(),
        c.wf(),
    ensures
        r@ == json_line_of(name@, time as nat, o, h, l, c),
        line_free(name@) ==> ({
            &&& r@.len() > 0
            &&& forall|k: int| 0 <= k < r@.len() ==> ((r@[k] == '\n') <==> k == r@.len() - 1)
        }),
{
    let mut s = String::new();
    s.append("{\"symbol\":\"");
    s.append(name.as_str());
    s.append("\",\"timestamp\":");
    let ts = u128_to_string(time);
    s.append(ts.as_str());
    s.append(",\"open\":\"");
    let os = price_to_string(&o);
    s.append(os.as_str());
    s.append("\",\"high\":\"");
    let hs = price_to_string(&h);
    s.append(hs.as_str());
    s.append("\",\"low\":\"");
    let ls = price_to_string(&l);
    s.append(ls.as_str());
    s.append("\",\"close\":\"");
    let cs = price_to_string(&c);
    s.append(cs.as_str());
    s.append("\"}\n");
    proof {
        assert(s@ =~= json_line_of(name@, time as nat, o, h, l, c));
        if line_free(name@) {
            reveal_strlit("{\"symbol\":\"");
            reveal_strlit("\",\"timestamp\":");
            reveal_strlit(",\"open\":\"");
            reveal_strlit("\",\"high\":\"");
            reveal_strlit("\",\"low\":\"");
            reveal_strlit("\",\"close\":\"");
            reveal_strlit("\"}\n");
            let q1 = "{\"symbol\":\""@ + name@;
            let q2 = q1 + "\",\"timestamp\":"@;
            let q3 = q2 + ts@;
            let q4 = q3 + ",\"open\":\""@;
            let q5 = q4 + os@;
            let q6 = q5 + "\",\"high\":\""@;
            let q7 = q6 + hs@;
            let q8 = q7 + "\",\"low\":\""@;
            let q9 = q8 + ls@;
            let q10 = q9 + "\",\"close\":\""@;
            let q11 = q10 + cs@;
            let tail = "\"}\n"@;
            assert(s@ =~= q11 + tail);
            assert(line_free("{\"symbol\":\""@));
            assert(line_free("\",\"timestamp\":"@));
            assert(line_free(",\"open\":\""@));
            assert(line_free("\",\"high\":\""@));
            assert(line_free("\",\"low\":\""@));
            assert(line_free("\",\"close\":\""@));
            lemma_dec_digits_only(time as nat);
            assert(line_free(ts@)) by {
                assert forall|k: int| 0 <= k < ts@.len() implies #[trigger] ts@[k] != '\n' by {
                    assert('0' <= ts@[k] <= '9');
                }
            }
            assert(line_free(os@));
            assert(line_free(hs@));
            assert(line_free(ls@));
            assert(line_free(cs@));
            lemma_line_free_concat("{\"symbol\":\""@, name@);
            lemma_line_free_concat(q1, "\",\"timestamp\":"@);
            lemma_line_free_concat(q2, ts@);
            lemma_line_free_concat(q3, ",\"open\":\""@);
            lemma_line_free_concat(q4, os@);
            lemma_line_free_concat(q5, "\",\"high\":\""@);
            lemma_line_free_concat(q6, hs@);
            lemma_line_free_concat(q7, "\",\"low\":\""@);
            lemma_line_free_concat(q8, ls@);
            lemma_line_free_concat(q9, "\",\"close\":\""@);
            lemma_line_free_concat(q10, cs@);
            assert(tail.len() == 3 && tail[0] == '"' && tail[1] == '}' && tail[2] == '\n');
            assert forall|k: int| 0 <= k < s@.len() implies ((s@[k] == '\n') <==> k == s@.len()
                - 1) by {
                assert(s@.len() == q11.len() + 3);
                if k < q11.len() {
                    assert(s@[k] == q11[k]);
                } else {
                    assert(s@[k] == tail[k - q11.len()]);
                }
            }
        }
    }
    s
}

} // verus!
