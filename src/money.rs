//! Amounts written for people: whole units grouped by thousands, with the
//! currency's name.
use crate::amount::{decimal_of, parse_decimal, pow10, pow10_exec, Amount};
use crate::text::{group_thousands, grouped, int_text, int_to_text, nat_digits, push_char, push_digits};
use vstd::prelude::*;
use vstd::string::StringExecFns;

verus! {

/// The narrow no-break space that separates groups of digits on screen.
pub const THIN_SPACE: char = '\u{202f}';

/// The whole units of an amount, its decimal places dropped.
pub open spec fn whole_units(a: Amount) -> nat {
    (a.mantissa as nat / pow10(a.scale as nat)) as nat
}

/// The whole units of an amount, written in decimal.
pub open spec fn whole_text(a: Amount) -> Seq<char> {
    nat_digits(whole_units(a))
}

/// An amount as a closing note writes it: "1 234 567 Ariary".
pub open spec fn ariary_note_text(a: Amount) -> Seq<char> {
    grouped(whole_text(a), ' ') + " Ariary"@
}

/// The note written when a year is closed automatically.
pub open spec fn closing_note_text(year: i32, total: Amount) -> Seq<char> {
    "CONTRIBUTIONS de l'année "@ + int_text(year as int) + " / TOTAL : "@ + ariary_note_text(total)
}

/// The whole number a decimal text denotes, its decimal places dropped (towards
/// zero); 0 when the text is not a decimal number.
pub open spec fn truncated_of(s: Seq<char>) -> int {
    match decimal_of(s) {
        Some((m, sc)) => if m >= 0 {
            m as int / pow10(sc as nat) as int
        } else {
            -((-m) as int / pow10(sc as nat) as int)
        },
        None => 0,
    }
}

/// An amount text as the screens show it: "1 234 567 Ar", with narrow spaces.
pub open spec fn ariary_display_text(s: Seq<char>) -> Seq<char> {
    grouped(int_text(truncated_of(s)), THIN_SPACE) + seq![THIN_SPACE] + "Ar"@
}

/// The whole units of an amount, written in decimal.
pub fn whole_units_text(a: &Amount) -> (r: String)
    requires
        a.wf(),
    ensures
        r@ == whole_text(*a),
{
    let p = pow10_exec(a.scale);
    let mut s = String::new();
    push_digits(&mut s, a.mantissa / p);
    assert(s@ =~= nat_digits((a.mantissa / p) as nat));
    s
}

/// Writes an amount for a closing note: whole units grouped by three with spaces,
/// then " Ariary".
pub fn ariary_note(total: &Amount) -> (r: String)
    requires
        total.wf(),
    ensures
        r@ == ariary_note_text(*total),
{
    let digits = whole_units_text(total);
    let mut r = group_thousands(digits.as_str(), ' ');
    r.append(" Ariary");
    r
}

/// The note of a year closed automatically, naming the year and its total.
pub fn closing_note(year: i32, total: &Amount) -> (r: String)
    requires
        total.wf(),
    ensures
        r@ == closing_note_text(year, *total),
{
    let mut r = String::from_str("CONTRIBUTIONS de l'année ");
    let y = int_to_text(year as i128);
    r.append(y.as_str());
    r.append(" / TOTAL : ");
    let t = ariary_note(total);
    r.append(t.as_str());
    assert(r@ =~= closing_note_text(year, *total));
    r
}

/// Writes an amount text as the screens show it: its whole part grouped by three
/// with narrow no-break spaces, then " Ar". A text that is not a decimal number
/// counts as 0. The text is read as rust_decimal reads a decimal, not as a float:
/// "1_000" gives "1 000 Ar", and a number beyond a decimal's range, such as "1e30",
/// or "inf" and "NaN", gives "0 Ar".
pub fn format_ariary(amount_str: &str) -> (r: String)
    ensures
        r@ == ariary_display_text(amount_str@),
{
    let whole: i128 = match parse_decimal(amount_str) {
        Some((m, sc)) => {
            let p = pow10_exec(sc);
            if m >= 0 {
                let q = (m as u128) / p;
                q as i128
            } else {
                let q = ((-m) as u128) / p;
                -(q as i128)
            }
        },
        None => 0,
    };
    let digits = int_to_text(whole);
    let mut r = group_thousands(digits.as_str(), THIN_SPACE);
    push_char(&mut r, THIN_SPACE);
    r.append("Ar");
    r
}

} // verus!
