//! Tokenizer for the raw series text.

use vstd::prelude::*;

verus! {

/// Whether `c` has Unicode's White_Space property, as `char::is_whitespace`
/// decides it.
pub open spec fn white_space(c: char) -> bool {
    let u = c as u32;
    (0x09 <= u <= 0x0d) || u == 0x20 || u == 0x85 || u == 0xa0 || u == 0x1680 || (0x2000 <= u
        <= 0x200a) || u == 0x2028 || u == 0x2029 || u == 0x202f || u == 0x205f || u == 0x3000
}

/// The text once each newline has become a comma and every white space
/// character has been taken out.
pub open spec fn cleaned(s: Seq<char>) -> Seq<char>
    decreases s.len(),
{
    if s.len() == 0 {
        seq![]
    } else {
        let before = cleaned(s.drop_last());
        let c = s.last();
        if c == '\n' {
            before.push(',')
        } else if white_space(c) {
            before
        } else {
            before.push(c)
        }
    }
}

/// The fields of `t` between commas, empty ones included: a text with `k`
/// commas has `k + 1` fields.
pub open spec fn fields(t: Seq<char>) -> Seq<Seq<char>>
    decreases t.len(),
{
    if t.len() == 0 {
        seq![seq![]]
    } else {
        let before = fields(t.drop_last());
        let c = t.last();
        if c == ',' {
            before.push(seq![])
        } else {
            before.update(before.len() - 1, before.last().push(c))
        }
    }
}

/// The tokens of a raw series text.
pub open spec fn tokens(s: Seq<char>) -> Seq<Seq<char>> {
    fields(cleaned(s))
}

proof fn lemma_cleaned_has_no_white_space(s: Seq<char>)
    ensures
        forall|j: int| 0 <= j < cleaned(s).len() ==> !white_space(#[trigger] cleaned(s)[j]),
    decreases s.len(),
{
    if s.len() > 0 {
        let before = cleaned(s.drop_last());
        lemma_cleaned_has_no_white_space(s.drop_last());
        assert(!white_space(','));
        assert forall|j: int| 0 <= j < cleaned(s).len() implies !white_space(
            #[trigger] cleaned(s)[j],
        ) by {
            if j < before.len() {
                assert(cleaned(s)[j] == before[j]);
            }
        }
    }
}

proof fn lemma_fields_keep_out(t: Seq<char>)
    requires
        forall|j: int| 0 <= j < t.len() ==> !white_space(#[trigger] t[j]),
    ensures
        fields(t).len() >= 1,
        forall|i: int, j: int|
            0 <= i < fields(t).len() && 0 <= j < fields(t)[i].len() ==> {
                let c = #[trigger] fields(t)[i][j];
                c != ',' && !white_space(c)
            },
    decreases t.len(),
{
    if t.len() > 0 {
        let p = t.drop_last();
        lemma_fields_keep_out(p);
        let before = fields(p);
        if t.last() != ',' {
            assert forall|i: int, j: int|
                0 <= i < fields(t).len() && 0 <= j < fields(t)[i].len() implies {
                    let c = #[trigger] fields(t)[i][j];
                    c != ',' && !white_space(c)
                } by {
                if i == before.len() - 1 && j == before.last().len() {
                    assert(fields(t)[i][j] == t.last());
                } else if i == before.len() - 1 {
                    assert(fields(t)[i][j] == before[i][j]);
                }
            }
        }
    }
}

/// A series text always has at least one token, and no token holds a comma,
/// a newline or any other white space character.
pub proof fn lemma_tokens_are_clean(s: Seq<char>)
    ensures
        tokens(s).len() >= 1,
        forall|i: int, j: int|
            0 <= i < tokens(s).len() && 0 <= j < tokens(s)[i].len() ==> {
                let c = #[trigger] tokens(s)[i][j];
                c != ',' && c != '\n' && !white_space(c)
            },
{
    lemma_cleaned_has_no_white_space(s);
    lemma_fields_keep_out(cleaned(s));
}

/// Decides the White_Space property of `c`.
pub fn is_white_space(c: char) -> (r: bool)
    ensures
        r == white_space(c),
{
    let u = c as u32;
    (0x09 <= u && u <= 0x0d) || u == 0x20 || u == 0x85 || u == 0xa0 || u == 0x1680 || (0x2000 <= u
        && u <= 0x200a) || u == 0x2028 || u == 0x2029 || u == 0x202f || u == 0x205f || u == 0x3000
}

/// Relies on `String::push`: appends one character.
#[verifier::external_body]
fn push_char(s: &mut String, c: char)
    ensures
        final(s)@ == old(s)@.push(c),
{
    s.push(c)
}

/// Splits a raw series text into the tokens that hold its numbers: newlines
/// and commas separate tokens, and white space anywhere is dropped, also inside
/// a number ("1 2" is the token "12"). Empty tokens are kept.
pub fn tokenize(raw: &str) -> (r: Vec<String>)
    ensures
        r@.map_values(|t: String| t@) == tokens(raw@),
{
    let mut done: Vec<String> = Vec::new();
    let mut cur: String = String::new();
    for c in it: raw.chars()
        invariant
            it.seq() == raw@,
            done@.map_values(|t: String| t@).push(cur@) == tokens(raw@.take(it.index() as int)),
    {
        let ghost pre = raw@.take(it.index() as int);
        let ghost next = raw@.take(it.index() + 1);
        proof {
            assert(c == raw@[it.index() as int]);
            assert(next.drop_last() =~= pre);
            assert(next.last() == c);
        }
        if c == '\n' || c == ',' {
            proof {
                assert(cleaned(next) == cleaned(pre).push(','));
                assert(cleaned(next).drop_last() =~= cleaned(pre));
            }
            done.push(cur);
            cur = String::new();
            assert(done@.map_values(|t: String| t@).push(cur@) =~= tokens(next));
        } else if is_white_space(c) {
            assert(cleaned(next) == cleaned(pre));
        } else {
            proof {
                assert(cleaned(next) == cleaned(pre).push(c));
                assert(cleaned(next).drop_last() =~= cleaned(pre));
            }
            push_char(&mut cur, c);
            assert(done@.map_values(|t: String| t@).push(cur@) =~= tokens(next));
        }
    }
    assert(raw@.take(raw@.len() as int) =~= raw@);
    done.push(cur);
    done
}

} // verus!
