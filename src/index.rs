//! Record indices given as text.

use vstd::prelude::*;

verus! {

/// Whether `c` is an ASCII decimal digit.
pub open spec fn is_digit(c: char) -> bool {
    '0' as int <= c as int <= '9' as int
}

/// Whether every character of `s` is a decimal digit.
pub open spec fn all_digits(s: Seq<char>) -> bool {
    forall|i: int| 0 <= i < s.len() ==> is_digit(#[trigger] s[i])
}

/// The number that the decimal digits `s` write.
pub open spec fn digits_value(s: Seq<char>) -> nat
    decreases s.len(),
{
    if s.len() == 0 {
        0
    } else {
        digits_value(s.drop_last()) * 10 + (s.last() as int - '0' as int) as nat
    }
}

/// The text of an index without its optional leading `+`.
pub open spec fn unsigned_digits(s: Seq<char>) -> Seq<char> {
    if s.len() > 0 && s[0] == '+' {
        s.drop_first()
    } else {
        s
    }
}

/// Whether `s` is the text of an unsigned machine-sized integer: an optional
/// `+`, then one or more decimal digits whose value fits in `usize`.
pub open spec fn index_text(s: Seq<char>) -> bool {
    let d = unsigned_digits(s);
    d.len() > 0 && all_digits(d) && digits_value(d) <= usize::MAX
}

/// The value of an index text.
pub open spec fn index_value(s: Seq<char>) -> nat {
    digits_value(unsigned_digits(s))
}

/// A prefix of a run of digits never writes a larger number than the run.
pub proof fn lemma_digits_prefix(s: Seq<char>, k: int)
    requires
        all_digits(s),
        0 <= k <= s.len(),
    ensures
        digits_value(s.take(k)) <= digits_value(s),
    decreases s.len(),
{
    if k < s.len() {
        let p = s.drop_last();
        assert(p.take(k) =~= s.take(k));
        assert(all_digits(p));
        lemma_digits_prefix(p, k);
    } else {
        assert(s.take(k) =~= s);
    }
}

/// Parses an index as `str::parse::<usize>` does: an optional `+` followed by
/// at least one decimal digit, with no sign, space or other character, and a
/// value that fits in `usize`.
pub fn parse_index(text: &str) -> (r: Option<usize>)
    ensures
        r.is_some() == index_text(text@),
        r.is_some() ==> r.unwrap() == index_value(text@),
{
    let ghost s = text@;
    let ghost start: int = if s.len() > 0 && s[0] == '+' { 1 } else { 0 };
    let mut first = true;
    let mut any = false;
    let mut acc: usize = 0;
    for c in it: text.chars()
        invariant
            it.seq() == s,
            s == text@,
            first == (it.index() == 0),
            start == (if s.len() > 0 && s[0] == '+' { 1int } else { 0int }),
            it.index() >= start ==> all_digits(s.subrange(start, it.index() as int)),
            it.index() >= start ==> acc == digits_value(s.subrange(start, it.index() as int)),
            any == (it.index() > start),
    {
        let ghost i = it.index() as int;
        assert(c == s[i]);
        if first && c == '+' {
            first = false;
            acc = 0;
            assert(s.subrange(start, i + 1) =~= Seq::<char>::empty());
            assert(digits_value(s.subrange(start, i + 1)) == 0);
        } else {
            first = false;
            if c < '0' || c > '9' {
                proof {
                    let d = unsigned_digits(s);
                    assert(0 <= i - start < d.len());
                    assert(d[i - start] == c);
                    assert(!is_digit(d[i - start]));
                    assert(!all_digits(d));
                    assert(!index_text(s));
                }
                return None;
            }
            let ghost next = s.subrange(start, i + 1);
            assert(next.drop_last() =~= s.subrange(start, i));
            assert(all_digits(next));
            let d = (c as u32 - 48) as usize;
            assert(digits_value(next) == acc * 10 + d);
            match acc.checked_mul(10) {
                Some(m) => match m.checked_add(d) {
                    Some(v) => {
                        acc = v;
                    },
                    None => {
                        proof {
                            let ds = unsigned_digits(s);
                        assert(digits_value(next) > usize::MAX);
                            assert(digits_value(next) > usize::MAX);
                            assert(ds.take(i + 1 - start) =~= next);
                            if all_digits(ds) {
                                lemma_digits_prefix(ds, i + 1 - start);
                            }
                            assert(!index_text(s));
                        }
                        return None;
                    },
                },
                None => {
                    proof {
                        let ds = unsigned_digits(s);
                        assert(digits_value(next) > usize::MAX);
                        assert(ds.take(i + 1 - start) =~= next);
                        if all_digits(ds) {
                            lemma_digits_prefix(ds, i + 1 - start);
                        }
                    }
                    return None;
                },
            }
            any = true;
        }
    }
    assert(s.subrange(start, s.len() as int) =~= unsigned_digits(s));
    if any {
        Some(acc)
    } else {
        None
    }
}

} // verus!
