//! Log lines: `[HH:MM:SS] text`.

use vstd::prelude::*;
use crate::text::{dec_chars, dec_chars_signed, push_dec_signed};

verus! {

/// A clock field as `{:02}` writes it: at least two characters, zero padded.
pub open spec fn two_digits(v: i32) -> Seq<char> {
    if 0 <= v < 10 {
        "0"@ + dec_chars(v as nat)
    } else {
        dec_chars_signed(v as int)
    }
}

/// Local wall-clock time as `HH:MM:SS`.
pub fn stamp_text(h: i32, m: i32, s: i32) -> (r: String)
    ensures
        r@ == two_digits(h) + ":"@ + two_digits(m) + ":"@ + two_digits(s),
{
    let mut r = String::new();
    push_two(&mut r, h);
    r.append(":");
    push_two(&mut r, m);
    r.append(":");
    push_two(&mut r, s);
    r
}

fn push_two(out: &mut String, v: i32)
    ensures
        final(out)@ == old(out)@ + two_digits(v),
{
    if 0 <= v && v < 10 {
        out.append("0");
        push_dec_signed(out, v as i64);
    } else {
        push_dec_signed(out, v as i64);
    }
}

/// The log line for `text` at time `stamp`.
pub fn log(stamp: &str, text: &str) -> (r: String)
    ensures
        r@ == "["@ + stamp@ + "] "@ + text@,
{
    let mut r = String::new();
    r.append("[");
    r.append(stamp);
    r.append("] ");
    r.append(text);
    r
}

} // verus!
