//! The operand texts the printer writes read back as the same values.

use vstd::prelude::*;

use crate::scheduler::emit::{dec, digit_text, int_text};
use crate::scheduler::parser::{imm_spec, mem_spec, pred_reg_spec, x_reg_spec};
use crate::text::{
    digit_value, digits_value, first_char_from, is_ws, parse_i64_spec, parse_u8_spec, trim, trim_end, trim_start,
};

verus! {

/// Every character is a decimal digit.
pub open spec fn digits_only(s: Seq<char>) -> bool {
    forall|i: int| 0 <= i < s.len() ==> 0x30 <= (#[trigger] s[i]) as u32 <= 0x39
}

/// A text with no white space and no comma.
pub open spec fn token(s: Seq<char>) -> bool {
    &&& s.len() > 0
    &&& forall|i: int| 0 <= i < s.len() ==> !is_ws(#[trigger] s[i]) && s[i] != ','
}

proof fn lemma_digit_text(d: int)
    requires
        0 <= d <= 9,
    ensures
        digit_text(d).len() == 1,
        digit_text(d)[0] as u32 == 0x30 + d,
{
    reveal_strlit("0");
    reveal_strlit("1");
    reveal_strlit("2");
    reveal_strlit("3");
    reveal_strlit("4");
    reveal_strlit("5");
    reveal_strlit("6");
    reveal_strlit("7");
    reveal_strlit("8");
    reveal_strlit("9");
}

proof fn lemma_dec(n: nat)
    ensures
        dec(n).len() >= 1,
        digits_only(dec(n)),
        digits_value(dec(n), 10) == n,
    decreases n,
{
    if n < 10 {
        lemma_digit_text(n as int);
        assert(dec(n).drop_last() =~= Seq::<char>::empty());
        assert(digits_value(Seq::<char>::empty(), 10) == 0);
        assert(digit_value(dec(n).last(), 10) == n);
    } else {
        lemma_dec(n / 10);
        lemma_digit_text((n % 10) as int);
        let a = dec(n / 10);
        let b = digit_text((n % 10) as int);
        assert(dec(n) == a + b);
        assert((a + b).drop_last() =~= a);
        assert((a + b).last() == b[0]);
        assert(digit_value(b[0], 10) == n % 10);
        assert(digits_value(a + b, 10) == digits_value(a, 10) * 10 + digit_value(b[0], 10));
        assert((n / 10) * 10 + n % 10 == n);
    }
}

proof fn lemma_digits_all(s: Seq<char>)
    requires
        digits_only(s),
    ensures
        forall|i: int| 0 <= i < s.len() ==> digit_value(#[trigger] s[i], 10) >= 0,
{
}

/// A decimal text denotes its number.
#[verifier::spinoff_prover]
#[verifier::rlimit(100)]
proof fn lemma_parse_dec(n: nat)
    ensures
        crate::text::unsigned_literal(dec(n), 10) == Some(n as int),
        n <= 255 ==> parse_u8_spec(dec(n)) == Some(n as u8),
        n <= i64::MAX ==> parse_i64_spec(dec(n), 10) == Some(n as i64),
{
    lemma_dec(n);
    lemma_digits_all(dec(n));
    assert(dec(n)[0] != '+');
    assert(dec(n)[0] != '-');
}

proof fn lemma_dec_token(n: nat)
    ensures
        token(dec(n)),
        digits_only(dec(n)),
        forall|i: int| 0 <= i < dec(n).len() ==> #[trigger] dec(n)[i] != '(' && dec(n)[i] != ')' && dec(n)[i] != 'x',
{
    lemma_dec(n);
}

proof fn lemma_int_text(x: int)
    requires
        i64::MIN <= x <= i64::MAX,
    ensures
        token(int_text(x)),
        forall|i: int| 0 <= i < int_text(x).len() ==> #[trigger] int_text(x)[i] != '(' && int_text(x)[i] != ')' && int_text(x)[i] != 'x',
        0x30 <= int_text(x).last() as u32 <= 0x39,
        int_text(x)[0] == '-' || 0x30 <= int_text(x)[0] as u32 <= 0x39,
        imm_spec(int_text(x)) == Ok::<i64, crate::scheduler::parser::InstrError>(x as i64),
{
    reveal_strlit("-");
    reveal_strlit("0x");
    if x < 0 {
        let m = (-x) as nat;
        lemma_dec(m);
        lemma_digits_all(dec(m));
        let t = int_text(x);
        assert(t == "-"@ + dec(m));
        assert(t.drop_first() =~= dec(m));
        assert(trim_start(t) == t);
        assert(trim_end(t) == t);
        assert(!crate::text::has_prefix(t, seq!['0', 'x']));
        assert(!crate::text::has_prefix(t, seq!['0', 'X']));
        assert(!crate::text::has_prefix(t, seq!['-', '0', 'x'])) by {
            if t.len() >= 3 {
                assert(t[2] == dec(m)[1]);
            }
        }
        assert(!crate::text::has_prefix(t, seq!['-', '0', 'X'])) by {
            if t.len() >= 3 {
                assert(t[2] == dec(m)[1]);
            }
        }
        assert forall|i: int| 0 <= i < t.len() implies !is_ws(#[trigger] t[i]) && t[i] != ',' by {
            if i > 0 {
                assert(t[i] == dec(m)[i - 1]);
            }
        }
        assert forall|i: int| 0 <= i < t.len() implies #[trigger] t[i] != '(' && t[i] != ')' && t[i] != 'x' by {
            if i > 0 {
                assert(t[i] == dec(m)[i - 1]);
            }
        }
        assert(t.last() == dec(m).last());
    } else {
        lemma_parse_dec(x as nat);
        lemma_dec(x as nat);
        let t = int_text(x);
        assert(trim_start(t) == t);
        assert(trim_end(t) == t);
        assert(!crate::text::has_prefix(t, seq!['0', 'x'])) by {
            if t.len() >= 2 {
                assert(t.take(2)[1] == t[1]);
            }
        }
        assert(!crate::text::has_prefix(t, seq!['0', 'X'])) by {
            if t.len() >= 2 {
                assert(t.take(2)[1] == t[1]);
            }
        }
        assert(!crate::text::has_prefix(t, seq!['-', '0', 'x'])) by {
            if t.len() >= 3 {
                assert(t.take(3)[0] == t[0]);
            }
        }
        assert(!crate::text::has_prefix(t, seq!['-', '0', 'X'])) by {
            if t.len() >= 3 {
                assert(t.take(3)[0] == t[0]);
            }
        }
    }
}


proof fn lemma_trim_token(t: Seq<char>)
    requires
        token(t),
    ensures
        trim_start(t) == t,
        trim(t) == t,
        trim(seq![' '] + t) == t,
        trim_start(seq![' '] + t) == t,
{
    assert(!is_ws(t[0]));
    assert(!is_ws(t.last()));
    assert(is_ws(' '));
    assert((seq![' '] + t).drop_first() =~= t);
    assert((seq![' '] + t)[0] == ' ');
    assert(trim_start(seq![' '] + t) == trim_start(t));
    assert(trim_start(t) == t);
    assert(trim_end(t) == t);
}

/// The text `xN`.
pub open spec fn x_text(n: u8) -> Seq<char> {
    seq!['x'] + dec(n as nat)
}

/// The text `imm(xN)`.
pub open spec fn mem_text(imm: i64, n: u8) -> Seq<char> {
    int_text(imm as int) + seq!['(', 'x'] + dec(n as nat) + seq![')']
}

proof fn lemma_x_text(n: u8)
    ensures
        token(x_text(n)),
        x_text(n)[0] == 'x',
        x_reg_spec(x_text(n)) == Ok::<u8, crate::scheduler::parser::InstrError>(n),
        pred_reg_spec(seq!['p'] + dec(n as nat)) == Ok::<u8, crate::scheduler::parser::InstrError>(n),
        token(seq!['p'] + dec(n as nat)),
        0x30 <= x_text(n).last() as u32 <= 0x39,
{
    lemma_dec_token(n as nat);
    lemma_parse_dec(n as nat);
    let t = x_text(n);
    let p = seq!['p'] + dec(n as nat);
    assert forall|i: int| 0 <= i < t.len() implies !is_ws(#[trigger] t[i]) && t[i] != ',' by {
        if i > 0 {
            assert(t[i] == dec(n as nat)[i - 1]);
        }
    }
    assert forall|i: int| 0 <= i < p.len() implies !is_ws(#[trigger] p[i]) && p[i] != ',' by {
        if i > 0 {
            assert(p[i] == dec(n as nat)[i - 1]);
        }
    }
    lemma_trim_token(t);
    lemma_trim_token(p);
    assert(t.last() == dec(n as nat).last());
    assert(t.drop_first() =~= dec(n as nat));
    assert(p.drop_first() =~= dec(n as nat));
}

proof fn lemma_mem_text(imm: i64, n: u8)
    ensures
        token(mem_text(imm, n)),
        mem_text(imm, n).last() == ')',
        mem_spec(mem_text(imm, n)) == Ok::<(i64, u8), crate::scheduler::parser::InstrError>((imm, n)),
{
    let it = int_text(imm as int);
    let d = dec(n as nat);
    lemma_int_text(imm as int);
    lemma_dec_token(n as nat);
    lemma_parse_dec(n as nat);
    let t = mem_text(imm, n);
    let o = it.len() as int;
    let c = (t.len() - 1) as int;
    assert(t[o] == '(');
    assert(t[o + 1] == 'x');
    assert(t[c] == ')');
    assert forall|i: int| 0 <= i < t.len() implies !is_ws(#[trigger] t[i]) && t[i] != ',' by {
        if i < o {
            assert(t[i] == it[i]);
        } else if o + 1 < i < c {
            assert(t[i] == d[i - o - 2]);
        }
    }
    crate::text::lemma_first_char_bounds(t, '(', 0);
    crate::text::lemma_first_char_bounds(t, ')', 0);
    assert(first_char_from(t, '(', 0) == o) by {
        if first_char_from(t, '(', 0) < o {
            assert(t[first_char_from(t, '(', 0)] == it[first_char_from(t, '(', 0)]);
        }
    }
    assert(first_char_from(t, ')', 0) == c) by {
        let f = first_char_from(t, ')', 0);
        if f < c {
            if f < o {
                assert(t[f] == it[f]);
            } else if f > o + 1 {
                assert(t[f] == d[f - o - 2]);
            }
        }
    }
    assert(t.take(o) =~= it);
    lemma_trim_token(it);
    assert(t.subrange(o + 1, c) =~= x_text(n));
    lemma_x_text(n);
}


/// The register, predicate, immediate and memory operands the printer
/// writes are read back by the parser as the same values: `xN`, `pN`, a
/// decimal immediate with `-` before a negative one, and `imm(xN)`.
pub proof fn lemma_operands_parse_back(n: u8, v: i64)
    ensures
        x_reg_spec(seq!['x'] + dec(n as nat)) == Ok::<u8, crate::scheduler::parser::InstrError>(n),
        pred_reg_spec(seq!['p'] + dec(n as nat)) == Ok::<u8, crate::scheduler::parser::InstrError>(n),
        imm_spec(int_text(v as int)) == Ok::<i64, crate::scheduler::parser::InstrError>(v),
        mem_spec(int_text(v as int) + seq!['(', 'x'] + dec(n as nat) + seq![')']) == Ok::<(i64, u8), crate::scheduler::parser::InstrError>((v, n)),
{
    lemma_x_text(n);
    lemma_int_text(v as int);
    lemma_mem_text(v, n);
}

} // verus!
