//! Tokens of an input line: the line is split on single space characters,
//! and each segment is either one of the four operator symbols or a decimal
//! literal.  The first segment that is neither makes the whole line a parse
//! error.

use vstd::prelude::*;

use crate::literal::{parse_decimal, spec_parse_decimal, ParseError};
use crate::num::Num;

verus! {

/// An arithmetic operator.
#[derive(Clone, Copy, Debug, PartialEq, Eq, Structural)]
pub enum Op {
    Plus,
    Minus,
    Mul,
    Div,
}

/// One token of an input line: an operator symbol or a numeric operand.
#[derive(Clone, Copy, Debug, PartialEq, Eq, Structural)]
pub enum Val {
    Op(Op),
    Val(Num),
}

/// Every operand among the tokens is a well-formed number.
pub open spec fn tokens_wf(ts: Seq<Val>) -> bool {
    forall|i: int| 0 <= i < ts.len() ==> (#[trigger] ts[i] matches Val::Val(n) ==> n.wf())
}

/// What one segment is read as: an exact operator symbol, else a decimal
/// literal.
pub open spec fn spec_parse_token(t: Seq<char>) -> Result<Val, ParseError> {
    if t == seq!['+'] {
        Ok(Val::Op(Op::Plus))
    } else if t == seq!['-'] {
        Ok(Val::Op(Op::Minus))
    } else if t == seq!['*'] {
        Ok(Val::Op(Op::Mul))
    } else if t == seq!['/'] {
        Ok(Val::Op(Op::Div))
    } else {
        match spec_parse_decimal(t) {
            Ok(n) => Ok(Val::Val(n)),
            Err(e) => Err(e),
        }
    }
}

/// The index of the first space of `s`, or `s.len()` if there is none.
pub open spec fn space_split(s: Seq<char>) -> int
    decreases s.len(),
{
    if s.len() == 0 {
        0
    } else if s[0] == ' ' {
        0
    } else {
        1 + space_split(s.drop_first())
    }
}

/// `space_split` points into the sequence or just past its end.
pub proof fn lemma_space_split_bounds(s: Seq<char>)
    ensures
        0 <= space_split(s) <= s.len(),
    decreases s.len(),
{
    if s.len() > 0 && s[0] != ' ' {
        lemma_space_split_bounds(s.drop_first());
    }
}

/// A position that is a space with none before it is where `space_split`
/// points; so is the end of a sequence without a space.
pub proof fn lemma_space_split_at(s: Seq<char>, k: int)
    requires
        0 <= k <= s.len(),
        k < s.len() ==> s[k] == ' ',
        forall|j: int| 0 <= j < k ==> s[j] != ' ',
    ensures
        space_split(s) == k,
    decreases s.len(),
{
    if s.len() > 0 && s[0] != ' ' {
        lemma_space_split_at(s.drop_first(), k - 1);
    }
}

/// What parsing a line yields: the tokens of its space-separated segments in
/// order, or the error of the first segment that parses as neither an
/// operator symbol nor a decimal literal.
pub open spec fn spec_parse_line(s: Seq<char>) -> Result<Seq<Val>, ParseError>
    decreases s.len(),
    via spec_parse_line_dec
{
    let k = space_split(s);
    match spec_parse_token(s.take(k)) {
        Err(e) => Err(e),
        Ok(v) => {
            if k == s.len() {
                Ok(seq![v])
            } else {
                match spec_parse_line(s.skip(k + 1)) {
                    Err(e) => Err(e),
                    Ok(rest) => Ok(seq![v] + rest),
                }
            }
        },
    }
}

#[via_fn]
proof fn spec_parse_line_dec(s: Seq<char>) {
    lemma_space_split_bounds(s);
}

/// Reads one segment as a token.
pub fn parse_token(t: &str) -> (r: Result<Val, ParseError>)
    ensures
        r == spec_parse_token(t@),
        r matches Ok(v) ==> (v matches Val::Val(n) ==> n.wf()),
{
    let len = t.unicode_len();
    if len == 1 {
        let c = t.get_char(0);
        proof {
            assert(c == '+' ==> t@ =~= seq!['+']);
            assert(c == '-' ==> t@ =~= seq!['-']);
            assert(c == '*' ==> t@ =~= seq!['*']);
            assert(c == '/' ==> t@ =~= seq!['/']);
        }
        if c == '+' {
            return Ok(Val::Op(Op::Plus));
        }
        if c == '-' {
            return Ok(Val::Op(Op::Minus));
        }
        if c == '*' {
            return Ok(Val::Op(Op::Mul));
        }
        if c == '/' {
            return Ok(Val::Op(Op::Div));
        }
    }
    match parse_decimal(t) {
        Ok(n) => Ok(Val::Val(n)),
        Err(e) => Err(e),
    }
}

/// Splits a line on single spaces and reads each segment as a token.
///
/// Parsing is whole-line: the first bad segment makes the whole line a parse
/// error, and nothing of the line is handed on.
pub fn parse(line: &str) -> (r: Result<Vec<Val>, ParseError>)
    ensures
        r matches Ok(v) ==> spec_parse_line(line@) == Ok::<Seq<Val>, ParseError>(v@) && tokens_wf(
            v@,
        ),
        r matches Err(e) ==> spec_parse_line(line@) == Err::<Seq<Val>, ParseError>(e),
    decreases line@.len(),
{
    let len = line.unicode_len();
    let mut k: usize = 0;
    loop
        invariant
            len == line@.len(),
            0 <= k <= len,
            forall|j: int| 0 <= j < k ==> line@[j] != ' ',
        ensures
            0 <= k <= len,
            forall|j: int| 0 <= j < k ==> line@[j] != ' ',
            k == len || line@[k as int] == ' ',
        decreases len - k,
    {
        if k >= len {
            break ;
        }
        if line.get_char(k) == ' ' {
            break ;
        }
        k = k + 1;
    }
    proof {
        lemma_space_split_at(line@, k as int);
    }
    let tok = line.substring_char(0, k);
    proof {
        assert(tok@ == line@.take(k as int));
    }
    let v = match parse_token(tok) {
        Ok(v) => v,
        Err(e) => {
            return Err(e);
        },
    };
    if k == len {
        let mut out: Vec<Val> = Vec::new();
        out.push(v);
        proof {
            assert(out@ =~= seq![v]);
        }
        Ok(out)
    } else {
        let rest = line.substring_char(k + 1, len);
        proof {
            assert(rest@ == line@.skip(k as int + 1));
        }
        match parse(rest) {
            Ok(mut vs) => {
                let ghost before = vs@;
                vs.insert(0, v);
                proof {
                    assert(vs@ =~= seq![v] + before);
                }
                Ok(vs)
            },
            Err(e) => Err(e),
        }
    }
}

} // verus!
