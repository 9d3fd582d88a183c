//! Text helpers.

use vstd::prelude::*;
use unicode_normalization::UnicodeNormalization;
use vstd::string::*;
use vstd::std_specs::iter::IteratorSpec;

verus! {

/// Whether two strings hold the same characters.
pub fn str_eq(a: &str, b: &str) -> (r: bool)
    ensures
        r == (a@ == b@),
{
    broadcast use vstd::utf8::group_utf8_lib;

    let ab = a.as_bytes();
    let bb = b.as_bytes();
    let same = crate::util::hash::bytes_equal(ab, bb);
    proof {
        if same {
            assert(vstd::utf8::decode_utf8(vstd::utf8::encode_utf8(a@)) == a@);
            assert(vstd::utf8::decode_utf8(vstd::utf8::encode_utf8(b@)) == b@);
        }
    }
    same
}



/// The characters of `s`, in order.
pub fn str_chars(s: &str) -> (r: Vec<char>)
    ensures
        r@ == s@,
{
    broadcast use vstd::string::axiom_spec_iter, vstd::string::next_postcondition;

    let mut it = s.chars();
    let mut out: Vec<char> = Vec::new();
    loop
        invariant
            it.obeys_prophetic_iter_laws(),
            out@ + it.remaining() == s@,
        decreases s@.len() - out@.len(),
    {
        let ghost before = it.remaining();
        match it.next() {
            Some(c) => {
                out.push(c);
                assert(out@ + it.remaining() =~= s@) by {
                    assert(before == seq![c] + it.remaining());
                }
            },
            None => {
                assert(out@ =~= s@);
                return out;
            },
        }
    }
}

/// The decimal digit character of `d` (below ten).
pub open spec fn digit_char(d: nat) -> char {
    if d == 0 { '0' } else if d == 1 { '1' } else if d == 2 { '2' } else if d == 3 { '3' }
    else if d == 4 { '4' } else if d == 5 { '5' } else if d == 6 { '6' } else if d == 7 { '7' }
    else if d == 8 { '8' } else { '9' }
}

/// The decimal notation of `n`, without leading zeros.
pub open spec fn decimal_chars(n: nat) -> Seq<char>
    decreases n,
{
    if n < 10 {
        seq![digit_char(n)]
    } else {
        decimal_chars(n / 10).push(digit_char(n % 10))
    }
}

fn digit_str(d: u64) -> (r: &'static str)
    requires
        d < 10,
    ensures
        r@ == seq![digit_char(d as nat)],
{
    if d == 0 {
        proof { reveal_strlit("0"); }
        "0"
    } else if d == 1 {
        proof { reveal_strlit("1"); }
        "1"
    } else if d == 2 {
        proof { reveal_strlit("2"); }
        "2"
    } else if d == 3 {
        proof { reveal_strlit("3"); }
        "3"
    } else if d == 4 {
        proof { reveal_strlit("4"); }
        "4"
    } else if d == 5 {
        proof { reveal_strlit("5"); }
        "5"
    } else if d == 6 {
        proof { reveal_strlit("6"); }
        "6"
    } else if d == 7 {
        proof { reveal_strlit("7"); }
        "7"
    } else if d == 8 {
        proof { reveal_strlit("8"); }
        "8"
    } else {
        proof { reveal_strlit("9"); }
        "9"
    }
}

/// The decimal notation of `n`.
pub fn decimal_string(n: u64) -> (r: String)
    ensures
        r@ == decimal_chars(n as nat),
    decreases n,
{
    if n < 10 {
        String::from_str(digit_str(n))
    } else {
        let mut s = decimal_string(n / 10);
        s.append(digit_str(n % 10));
        s
    }
}

/// Position of `s` in `strings`, when it occurs there.
pub open spec fn string_position(strings: Seq<Seq<char>>, s: Seq<char>) -> Option<int> {
    if exists|i: int| 0 <= i < strings.len() && strings[i] == s {
        Some(choose|i: int| 0 <= i < strings.len() && strings[i] == s)
    } else {
        None
    }
}

/// In a table of distinct strings, the position of a string is the one it occurs at.
pub proof fn lemma_string_position_unique(strings: Seq<Seq<char>>, s: Seq<char>, i: int)
    requires
        strings_distinct(strings),
        0 <= i < strings.len(),
        strings[i] == s,
    ensures
        string_position(strings, s) == Some(i),
{
    let k = choose|k: int| 0 <= k < strings.len() && strings[k] == s;
    assert(0 <= k < strings.len() && strings[k] == s);
}

/// No string occurs twice.
pub open spec fn strings_distinct(strings: Seq<Seq<char>>) -> bool {
    forall|i: int, j: int|
        0 <= i < strings.len() && 0 <= j < strings.len() && i != j ==> strings[i] != strings[j]
}

/// The Unicode Normalization Form C of a text, as the `nfc` iterator of the
/// `unicode-normalization` crate computes it.
pub uninterp spec fn nfc_form(s: Seq<char>) -> Seq<char>;

/// A text in Unicode Normalization Form C, through `UnicodeNormalization::nfc` of the
/// `unicode-normalization` crate, collected into a `String`. Claims the named result.
#[verifier::external_body]
pub(crate) fn nfc_normalize(s: &str) -> (r: String)
    ensures
        r@ == nfc_form(s@),
{
    s.nfc().collect::<String>()
}

} // verus!
