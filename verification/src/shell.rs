//! Quoting for the POSIX shell that runs the commands sent over SSH.

use vstd::prelude::*;
use crate::text::{chars_of, push_char};

verus! {

/// How one character is written inside single quotes: itself, except a
/// single quote, which closes the quotes, is written in double quotes, and
/// opens them again.
pub open spec fn quote_char(c: char) -> Seq<char> {
    if c == '\'' {
        seq!['\'', '"', '\'', '"', '\'']
    } else {
        seq![c]
    }
}

/// The characters of `s`, each written as [`quote_char`] writes it.
pub open spec fn quote_body(s: Seq<char>) -> Seq<char>
    decreases s.len(),
{
    if s.len() == 0 {
        seq![]
    } else {
        quote_body(s.drop_last()) + quote_char(s.last())
    }
}

/// `s` in single quotes, fit to be one word of a shell command.
pub open spec fn shell_quoted(s: Seq<char>) -> Seq<char> {
    seq!['\''] + quote_body(s) + seq!['\'']
}

/// Appends the quoted form of `value` to `out`.
pub(crate) fn push_shell_quoted(out: &mut String, value: &str)
    ensures
        final(out)@ == old(out)@ + shell_quoted(value@),
{
    let v = chars_of(value);
    let ghost start = out@;
    push_char(out, '\'');
    assert(v@.take(0) =~= Seq::<char>::empty());
    for i in 0..v.len()
        invariant
            out@ == start + seq!['\''] + quote_body(v@.take(i as int)),
    {
        let c = v[i];
        assert(v@.take(i + 1).drop_last() =~= v@.take(i as int));
        assert(v@.take(i + 1).last() == c);
        if c == '\'' {
            push_char(out, '\'');
            push_char(out, '"');
            push_char(out, '\'');
            push_char(out, '"');
            push_char(out, '\'');
        } else {
            push_char(out, c);
        }
        assert(out@ =~= start + seq!['\''] + quote_body(v@.take(i + 1)));
    }
    assert(v@.take(v.len() as int) =~= v@);
    push_char(out, '\'');
    assert(out@ =~= start + shell_quoted(value@));
}

/// Quotes `value` for the shell: the empty string becomes `''`, and every
/// other value is put in single quotes, with each single quote inside written
/// as `'"'"'`.
pub fn shell_quote(value: &str) -> (s: String)
    ensures
        s@ == shell_quoted(value@),
{
    let mut out = String::new();
    push_shell_quoted(&mut out, value);
    out
}

/// Where a reader of a shell word stands: outside quotes, inside single
/// quotes, or inside double quotes.
pub enum QuoteState {
    Outside,
    Single,
    Double,
}

/// The value of a shell word made of quoted parts, read from state `st`, as a
/// POSIX shell reads it: inside single quotes every character is literal up to
/// the next single quote; inside double quotes every character is literal up
/// to the next double quote, and `$`, `` ` `` and `\`, which would be special
/// there, are not admitted. `None` for any other text, and where a quote is
/// left open.
pub open spec fn quoted_word_value(t: Seq<char>, st: QuoteState) -> Option<Seq<char>>
    decreases t.len(),
{
    if t.len() == 0 {
        if st is Outside { Some(seq![]) } else { None }
    } else {
        let c = t[0];
        let rest = t.drop_first();
        match st {
            QuoteState::Outside => if c == '\'' {
                quoted_word_value(rest, QuoteState::Single)
            } else if c == '"' {
                quoted_word_value(rest, QuoteState::Double)
            } else {
                None
            },
            QuoteState::Single => if c == '\'' {
                quoted_word_value(rest, QuoteState::Outside)
            } else {
                match quoted_word_value(rest, QuoteState::Single) {
                    Some(w) => Some(seq![c] + w),
                    None => None,
                }
            },
            QuoteState::Double => if c == '"' {
                quoted_word_value(rest, QuoteState::Outside)
            } else if c == '$' || c == '`' || c == '\\' {
                None
            } else {
                match quoted_word_value(rest, QuoteState::Double) {
                    Some(w) => Some(seq![c] + w),
                    None => None,
                }
            },
        }
    }
}

proof fn lemma_quote_body_front(s: Seq<char>)
    requires
        s.len() > 0,
    ensures
        quote_body(s) == quote_char(s[0]) + quote_body(s.drop_first()),
    decreases s.len(),
{
    if s.len() == 1 {
        assert(s.drop_last() =~= Seq::<char>::empty());
        assert(s.drop_first() =~= Seq::<char>::empty());
        assert(quote_body(s) =~= quote_char(s[0]) + quote_body(s.drop_first()));
    } else {
        lemma_quote_body_front(s.drop_last());
        assert(s.drop_last().drop_first() =~= s.drop_first().drop_last());
        assert(s.drop_first().last() == s.last());
        assert(quote_body(s) =~= quote_char(s[0]) + quote_body(s.drop_first()));
    }
}

proof fn lemma_quote_body_reads_back(s: Seq<char>, tail: Seq<char>)
    ensures
        quoted_word_value(quote_body(s) + seq!['\''] + tail, QuoteState::Single) == (
        match quoted_word_value(tail, QuoteState::Outside) {
            Some(w) => Some(s + w),
            None => None,
        }),
    decreases s.len(),
{
    let t = quote_body(s) + seq!['\''] + tail;
    if s.len() == 0 {
        assert(quote_body(s) =~= Seq::<char>::empty());
        assert(t =~= seq!['\''] + tail);
        assert(t.drop_first() =~= tail);
        match quoted_word_value(tail, QuoteState::Outside) {
            Some(w) => { assert(s + w =~= w); },
            None => {},
        }
    } else {
        let c = s[0];
        let inner = quote_body(s.drop_first()) + seq!['\''] + tail;
        lemma_quote_body_front(s);
        lemma_quote_body_reads_back(s.drop_first(), tail);
        if c == '\'' {
            assert(t =~= seq!['\'', '"', '\'', '"', '\''] + inner);
            let t1 = t.drop_first();
            let t2 = t1.drop_first();
            let t3 = t2.drop_first();
            let t4 = t3.drop_first();
            assert(t1 =~= seq!['"', '\'', '"', '\''] + inner);
            assert(t2 =~= seq!['\'', '"', '\''] + inner);
            assert(t4 =~= seq!['\''] + inner);
            assert(quoted_word_value(t, QuoteState::Single) == quoted_word_value(t1, QuoteState::Outside));
            assert(quoted_word_value(t1, QuoteState::Outside) == quoted_word_value(t2, QuoteState::Double));
            assert(t4.drop_first() =~= inner);
            assert(t4[0] == '\'');
            assert(quoted_word_value(t4, QuoteState::Outside) == quoted_word_value(inner, QuoteState::Single));
            assert(t4.drop_first() =~= inner);
            assert(t3 =~= seq!['"'] + t4);
            assert(t2 =~= seq!['\''] + t3);
            assert(quoted_word_value(t3, QuoteState::Double) == quoted_word_value(t4, QuoteState::Outside));
            assert(quoted_word_value(t2, QuoteState::Double) == (match quoted_word_value(t3, QuoteState::Double) {
                Some(w) => Some(seq!['\''] + w),
                None => None,
            }));
            match quoted_word_value(tail, QuoteState::Outside) {
                Some(w) => { assert(seq![c] + (s.drop_first() + w) =~= s + w); },
                None => {},
            }
        } else {
            assert(t =~= seq![c] + inner);
            assert(t.drop_first() =~= inner);
            match quoted_word_value(tail, QuoteState::Outside) {
                Some(w) => { assert(seq![c] + (s.drop_first() + w) =~= s + w); },
                None => {},
            }
        }
    }
}

/// A quoted value reads back, in the shell, as exactly the value.
pub proof fn law_shell_quote_reads_back(s: Seq<char>)
    ensures
        quoted_word_value(shell_quoted(s), QuoteState::Outside) == Some(s),
{
    let t = shell_quoted(s);
    lemma_quote_body_reads_back(s, Seq::empty());
    assert(t.drop_first() =~= quote_body(s) + seq!['\''] + Seq::<char>::empty());
    assert(s + Seq::<char>::empty() =~= s);
}

} // verus!
