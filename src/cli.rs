use vstd::prelude::*;

verus! {

/// Whether Unicode counts `c` as numeric.
pub uninterp spec fn numeric_char(c: char) -> bool;

/// Relies on `char::is_numeric`: true for the characters of Unicode's number
/// categories, which hold the ASCII digits.
#[verifier::external_body]
fn is_numeric(c: char) -> (r: bool)
    ensures
        r == numeric_char(c),
        ('0' <= c && c <= '9') ==> r,
{
    c.is_numeric()
}

/// The numeric characters of `s`, in order.
pub open spec fn numeric_part(s: Seq<char>) -> Seq<char>
    decreases s.len(),
{
    if s.len() == 0 {
        Seq::empty()
    } else {
        numeric_part(s.drop_last()) + if numeric_char(s.last()) {
            seq![s.last()]
        } else {
            Seq::empty()
        }
    }
}

pub open spec fn is_ascii_digit(c: char) -> bool {
    '0' <= c && c <= '9'
}

pub open spec fn ascii_digits(s: Seq<char>) -> bool {
    forall|i: int| 0 <= i < s.len() ==> is_ascii_digit(#[trigger] s[i])
}

/// The value of a string of ASCII digits.
pub open spec fn digits_number(s: Seq<char>) -> nat
    decreases s.len(),
{
    if s.len() == 0 {
        0
    } else {
        digits_number(s.drop_last()) * 10 + (s.last() as int - '0' as int) as nat
    }
}

proof fn lemma_number_prefix(s: Seq<char>, i: int)
    requires
        0 <= i <= s.len(),
        ascii_digits(s),
    ensures
        digits_number(s.subrange(0, i)) <= digits_number(s),
    decreases s.len() - i,
{
    if i < s.len() {
        lemma_number_prefix(s, i + 1);
        assert(s.subrange(0, i + 1).drop_last() =~= s.subrange(0, i));
    } else {
        assert(s.subrange(0, i) =~= s);
    }
}

/// Reads a number typed by a user: every non-numeric character is dropped,
/// nothing left reads as zero, and what is left must be ASCII digits whose
/// value fits in a `u16`.
pub fn parse_number(s: &[char]) -> (r: Option<u16>)
    ensures
        ({
            let d = numeric_part(s@);
            &&& d.len() == 0 ==> r == Some(0u16)
            &&& d.len() > 0 && ascii_digits(d) && digits_number(d) <= u16::MAX ==> r == Some(
                digits_number(d) as u16,
            )
            &&& d.len() > 0 && !(ascii_digits(d) && digits_number(d) <= u16::MAX) ==> r is None
        }),
{
    let mut kept: Vec<char> = Vec::new();
    let mut i: usize = 0;
    while i < s.len()
        invariant
            0 <= i <= s@.len(),
            kept@ == numeric_part(s@.subrange(0, i as int)),
        decreases s@.len() - i,
    {
        let c = s[i];
        let keep = is_numeric(c);
        proof {
            assert(s@.subrange(0, i + 1).drop_last() =~= s@.subrange(0, i as int));
        }
        if keep {
            kept.push(c);
        }
        i = i + 1;
        proof {
            assert(kept@ =~= numeric_part(s@.subrange(0, i as int)));
        }
    }
    proof {
        assert(s@.subrange(0, s@.len() as int) =~= s@);
    }
    let ghost d = kept@;
    if kept.len() == 0 {
        return Some(0);
    }
    let mut v: u32 = 0;
    let mut j: usize = 0;
    while j < kept.len()
        invariant
            d == kept@,
            d == numeric_part(s@),
            d.len() > 0,
            0 <= j <= d.len(),
            ascii_digits(d.subrange(0, j as int)),
            v as nat == digits_number(d.subrange(0, j as int)),
            v <= 65535,
        decreases d.len() - j,
    {
        let c = kept[j];
        if c < '0' || c > '9' {
            proof {
                assert(c == d[j as int]);
                assert(!is_ascii_digit(d[j as int]));
                assert(!ascii_digits(d));
            }
            return None;
        }
        let dv = (c as u32) - ('0' as u32);
        let w = v * 10 + dv;
        proof {
            assert(d.subrange(0, j + 1).drop_last() =~= d.subrange(0, j as int));
            assert forall|k: int| 0 <= k < j + 1 implies is_ascii_digit(#[trigger] d.subrange(0, j + 1)[k]) by {
                if k < j {
                    assert(d.subrange(0, j + 1)[k] == d.subrange(0, j as int)[k]);
                }
            }
        }
        proof {
            assert(c == d[j as int]);
            assert(d.subrange(0, j + 1).last() == c);
            assert(digits_number(d.subrange(0, j + 1)) == w as nat);
        }
        if w > 65535 {
            proof {
                if ascii_digits(d) {
                    lemma_number_prefix(d, j + 1);
                }
            }
            return None;
        }
        v = w;
        j = j + 1;
    }
    proof {
        assert(d.subrange(0, d.len() as int) =~= d);
    }
    Some(v as u16)
}

/// The resolution that the prompt's answer asks for: 0 for none, 1, 2 and 3
/// as shortcuts for 480, 720 and 1080, any other number as it stands.
pub fn resolution_from_answer(n: u16) -> (r: Option<u16>)
    ensures
        n == 0 ==> r is None,
        n == 1 ==> r == Some(480u16),
        n == 2 ==> r == Some(720u16),
        n == 3 ==> r == Some(1080u16),
        n > 3 ==> r == Some(n),
{
    match n {
        0 => None,
        1 => Some(480),
        2 => Some(720),
        3 => Some(1080),
        r => Some(r),
    }
}

/// The episodes to search for, first and last, both included: from the
/// given episode (1 when none), to the given last one, never before the first.
pub fn episode_span(episode: Option<u16>, last: Option<u16>) -> (r: (u16, u16))
    ensures
        r.0 == match episode {
            Some(e) => e,
            None => 1u16,
        },
        r.1 == match last {
            Some(l) => if l >= r.0 { l } else { r.0 },
            None => r.0,
        },
{
    let first = match episode {
        Some(e) => e,
        None => 1,
    };
    let end = match last {
        Some(l) => if l >= first { l } else { first },
        None => first,
    };
    (first, end)
}

} // verus!
