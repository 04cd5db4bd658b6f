//! Grammar-constrained line parser.
//!
//! A record line is `<key-bytes> ';' ['-'] <1-3 digits> '.' <digit>`.  The
//! parser classifies only the fixed-width tail of the line: the byte layout
//! of the number part determines the separator position arithmetically, and
//! the value is a small linear combination of digit values.  Unlike an
//! unchecked fast path, every classification step is validated first, so a
//! line that violates the grammar is rejected rather than misread.

use crate::{VALUE_MAX, VALUE_MIN};
use vstd::prelude::*;

verus! {

/// The key/value separator `;`.
pub const SEMI: u8 = 0x3b;

/// The minus sign `-`.
pub const DASH: u8 = 0x2d;

/// The decimal dot `.`.
pub const DOT: u8 = 0x2e;

/// ASCII decimal digit.
pub open spec fn is_digit(b: u8) -> bool {
    0x30 <= b <= 0x39
}

/// Numeric value of an ASCII digit.
pub open spec fn digit_val(b: u8) -> int {
    b as int - 0x30
}

/// `s` matches `<1-3 digits> '.' <digit>`.
pub open spec fn is_unsigned_number(s: Seq<u8>) -> bool {
    &&& 3 <= s.len() <= 5
    &&& s[s.len() - 2] == DOT
    &&& is_digit(s[s.len() - 1])
    &&& forall|i: int| 0 <= i < s.len() - 2 ==> is_digit(#[trigger] s[i])
}

/// Value of a run of decimal digits.
pub open spec fn int_digits_value(s: Seq<u8>) -> int
    decreases s.len(),
{
    if s.len() == 0 {
        0
    } else {
        int_digits_value(s.drop_last()) * 10 + digit_val(s.last())
    }
}

/// Scaled value of an unsigned number: ten times its integer part plus the
/// fractional digit.
pub open spec fn unsigned_value(s: Seq<u8>) -> int {
    int_digits_value(s.take(s.len() - 2)) * 10 + digit_val(s[s.len() - 1])
}

/// `s` matches `['-'] <1-3 digits> '.' <digit>`.
pub open spec fn is_number(s: Seq<u8>) -> bool {
    if s.len() >= 1 && s[0] == DASH {
        is_unsigned_number(s.skip(1))
    } else {
        is_unsigned_number(s)
    }
}

/// Scaled value of a number.
pub open spec fn number_value(s: Seq<u8>) -> int {
    if s.len() >= 1 && s[0] == DASH {
        -unsigned_value(s.skip(1))
    } else {
        unsigned_value(s)
    }
}

/// `sep` splits `line` into a key and a well-formed number.
pub open spec fn sep_at(line: Seq<u8>, sep: int) -> bool {
    &&& 0 <= sep < line.len()
    &&& line[sep] == SEMI
    &&& is_number(line.skip(sep + 1))
}

/// The line matches the record grammar.
pub open spec fn valid_line(line: Seq<u8>) -> bool {
    exists|sep: int| sep_at(line, sep)
}

/// The unique separator position of a valid line.
pub open spec fn line_sep(line: Seq<u8>) -> int {
    choose|sep: int| sep_at(line, sep)
}

/// Key bytes of a valid line.
pub open spec fn line_key(line: Seq<u8>) -> Seq<u8> {
    line.take(line_sep(line))
}

/// Scaled value of a valid line.
pub open spec fn line_value(line: Seq<u8>) -> int {
    number_value(line.skip(line_sep(line) + 1))
}

/// A well-formed number contains no `;`.
proof fn lemma_num_has_no_semi(num: Seq<u8>)
    requires
        is_number(num),
    ensures
        forall|r: int| 0 <= r < num.len() ==> #[trigger] num[r] != SEMI,
{
    assert forall|r: int| 0 <= r < num.len() implies #[trigger] num[r] != SEMI by {
        if num[0] == DASH {
            let u = num.skip(1);
            if r != 0 {
                assert(u[r - 1] == num[r]);
                if r - 1 < u.len() - 2 {
                    assert(is_digit(u[r - 1]));
                } else if r - 1 == u.len() - 2 {
                    assert(u[r - 1] == DOT);
                } else {
                    assert(is_digit(u[r - 1]));
                }
            }
        } else {
            if r < num.len() - 2 {
                assert(is_digit(num[r]));
            } else if r == num.len() - 2 {
                assert(num[r] == DOT);
            } else {
                assert(is_digit(num[r]));
            }
        }
    }
}

/// The separator of a valid line is unique: the number part holds no `;`.
pub proof fn lemma_sep_unique(line: Seq<u8>, s1: int, s2: int)
    requires
        sep_at(line, s1),
        sep_at(line, s2),
    ensures
        s1 == s2,
{
    if s1 < s2 {
        lemma_num_has_no_semi(line.skip(s1 + 1));
        assert(line.skip(s1 + 1)[s2 - s1 - 1] == SEMI);
    } else if s2 < s1 {
        lemma_num_has_no_semi(line.skip(s2 + 1));
        assert(line.skip(s2 + 1)[s1 - s2 - 1] == SEMI);
    }
}

/// On a valid line, the bytes before the fractional digit can take exactly
/// six layouts: a one-, two- or three-digit integer part, each with or
/// without a sign, always closed off by the separator.
proof fn lemma_valid_line_shape(line: Seq<u8>)
    requires
        valid_line(line),
    ensures
        line.len() >= 4,
        is_digit(line[line.len() - 1]),
        line[line.len() - 2] == DOT,
        is_digit(line[line.len() - 3]),
        line[line.len() - 4] == SEMI || line[line.len() - 4] == DASH || is_digit(
            line[line.len() - 4],
        ),
        line[line.len() - 4] == DASH ==> line.len() >= 5 && line[line.len() - 5] == SEMI,
        is_digit(line[line.len() - 4]) ==> line.len() >= 5 && (line[line.len() - 5] == SEMI || line[
            line.len() - 5] == DASH || is_digit(line[line.len() - 5])),
        is_digit(line[line.len() - 4]) && line[line.len() - 5] == DASH ==> line.len() >= 6 && line[
            line.len() - 6] == SEMI,
        is_digit(line[line.len() - 4]) && is_digit(line[line.len() - 5]) ==> line.len() >= 6 && (
        line[line.len() - 6] == SEMI || line[line.len() - 6] == DASH),
        is_digit(line[line.len() - 4]) && is_digit(line[line.len() - 5]) && line[line.len() - 6]
            == DASH ==> line.len() >= 7 && line[line.len() - 7] == SEMI,
{
    let sep = choose|sep: int| sep_at(line, sep);
    let len = line.len() as int;
    let num = line.skip(sep + 1);
    let nlen = num.len() as int;
    assert(forall|i: int| 0 <= i < nlen ==> num[i] == line[sep + 1 + i]);
    if num[0] == DASH {
        let u = num.skip(1);
        assert(forall|i: int| 0 <= i < u.len() ==> u[i] == num[i + 1]);
        assert(3 <= u.len() <= 5);
        assert(nlen >= 4);
        assert(sep == len - nlen - 1);
        assert(line[len - 1] == u[u.len() - 1]);
        assert(line[len - 2] == u[u.len() - 2]);
        assert(line[len - 3] == u[u.len() - 3]);
        if u.len() == 3 {
            assert(line[len - 4] == num[0]);
            assert(line[len - 5] == line[sep]);
        } else if u.len() == 4 {
            assert(line[len - 4] == u[u.len() - 4]);
            assert(is_digit(line[len - 4]));
            assert(line[len - 5] == num[0]);
            assert(line[len - 6] == line[sep]);
        } else {
            assert(line[len - 4] == u[u.len() - 4]);
            assert(line[len - 5] == u[u.len() - 5]);
            assert(is_digit(line[len - 4]));
            assert(is_digit(line[len - 5]));
            assert(line[len - 6] == num[0]);
            assert(line[len - 7] == line[sep]);
        }
    } else {
        let u = num;
        assert(3 <= u.len() <= 5);
        assert(sep == len - nlen - 1);
        assert(line[len - 1] == u[u.len() - 1]);
        assert(line[len - 2] == u[u.len() - 2]);
        assert(line[len - 3] == u[u.len() - 3]);
        if u.len() == 3 {
            assert(line[len - 4] == line[sep]);
        } else if u.len() == 4 {
            assert(line[len - 4] == u[u.len() - 4]);
            assert(is_digit(line[len - 4]));
            assert(line[len - 5] == line[sep]);
        } else {
            assert(line[len - 4] == u[u.len() - 4]);
            assert(line[len - 5] == u[u.len() - 5]);
            assert(is_digit(line[len - 4]));
            assert(is_digit(line[len - 5]));
            assert(line[len - 6] == line[sep]);
        }
    }
}

/// Value of a one-digit run.
proof fn lemma_int_digits1(a: u8)
    ensures
        int_digits_value(seq![a]) == digit_val(a),
{
    assert(seq![a].drop_last() =~= Seq::<u8>::empty());
    reveal_with_fuel(int_digits_value, 2);
}

/// Value of a two-digit run.
proof fn lemma_int_digits2(a: u8, b: u8)
    ensures
        int_digits_value(seq![a, b]) == digit_val(a) * 10 + digit_val(b),
{
    assert(seq![a, b].drop_last() =~= seq![a]);
    lemma_int_digits1(a);
}

/// Value of a three-digit run.
proof fn lemma_int_digits3(a: u8, b: u8, c: u8)
    ensures
        int_digits_value(seq![a, b, c]) == digit_val(a) * 100 + digit_val(b) * 10 + digit_val(c),
{
    assert(seq![a, b, c].drop_last() =~= seq![a, b]);
    lemma_int_digits2(a, b);
}

/// The scaled value of an unsigned number of the grammar lies in
/// `[0, VALUE_MAX]`.
proof fn lemma_unsigned_number_parts(line: Seq<u8>, sep: int, neg: bool, digits: Seq<u8>)
    requires
        0 <= sep < line.len(),
        line[sep] == SEMI,
        line.skip(sep + 1) =~= if neg {
            seq![DASH] + digits + seq![DOT, line[line.len() - 1]]
        } else {
            digits + seq![DOT, line[line.len() - 1]]
        },
        1 <= digits.len() <= 3,
        forall|i: int| 0 <= i < digits.len() ==> is_digit(#[trigger] digits[i]),
        is_digit(line[line.len() - 1]),
    ensures
        sep_at(line, sep),
        number_value(line.skip(sep + 1)) == (if neg {
            -(int_digits_value(digits) * 10 + digit_val(line[line.len() - 1]))
        } else {
            int_digits_value(digits) * 10 + digit_val(line[line.len() - 1])
        }),
{
    let num = line.skip(sep + 1);
    let f = line[line.len() - 1];
    if neg {
        let u = num.skip(1);
        assert(u =~= digits + seq![DOT, f]);
        assert(u.len() == digits.len() + 2);
        assert(u[u.len() - 2] == DOT);
        assert(u[u.len() - 1] == f);
        assert(forall|i: int| 0 <= i < u.len() - 2 ==> #[trigger] u[i] == digits[i]);
        assert(is_unsigned_number(u));
        assert(num[0] == DASH);
        assert(u.take(u.len() - 2) =~= digits);
        assert(num.len() >= 1);
    } else {
        let u = num;
        assert(u =~= digits + seq![DOT, f]);
        assert(u.len() == digits.len() + 2);
        assert(u[u.len() - 2] == DOT);
        assert(u[u.len() - 1] == f);
        assert(forall|i: int| 0 <= i < u.len() - 2 ==> #[trigger] u[i] == digits[i]);
        assert(is_unsigned_number(u));
        assert(u[0] == digits[0]);
        assert(u[0] != DASH);
        assert(u.take(u.len() - 2) =~= digits);
    }
}

/// Parse one record line.  Returns the key length (the separator position)
/// and the scaled value, or `None` exactly when the line does not match the
/// grammar.  Only the fixed-width tail of the line is inspected.
pub fn fast_parse_line(line: &[u8]) -> (r: Option<(usize, i16)>)
    ensures
        r is Some <==> valid_line(line@),
        match r {
            Some(kv) => {
                &&& sep_at(line@, kv.0 as int)
                &&& kv.0 as int == line_sep(line@)
                &&& kv.1 as int == line_value(line@)
                &&& VALUE_MIN <= kv.1 <= VALUE_MAX
            },
            None => !valid_line(line@),
        },
{
    let len = line.len();
    if len < 4 {
        proof {
            if valid_line(line@) {
                lemma_valid_line_shape(line@);
            }
        }
        return None;
    }
    let f = line[len - 1];
    let dot = line[len - 2];
    let d3 = line[len - 3];
    if !(0x30 <= f && f <= 0x39) || dot != DOT || !(0x30 <= d3 && d3 <= 0x39) {
        proof {
            if valid_line(line@) {
                lemma_valid_line_shape(line@);
            }
        }
        return None;
    }
    let fv = (f - 0x30) as i16;
    let dv3 = (d3 - 0x30) as i16;
    let c4 = line[len - 4];
    let r: Option<(usize, i16)> = if c4 == SEMI {
        // `key;D.F`
        let sep = len - 4;
        let v = dv3 * 10 + fv;
        proof {
            lemma_one_digit(line@, sep as int, false);
        }
        Some((sep, v))
    } else if c4 == DASH {
        // `key;-D.F`
        if len >= 5 && line[len - 5] == SEMI {
            let sep = len - 5;
            let v = -(dv3 * 10 + fv);
            proof {
                lemma_one_digit(line@, sep as int, true);
            }
            Some((sep, v))
        } else {
            proof {
                if valid_line(line@) {
                    lemma_valid_line_shape(line@);
                }
            }
            None
        }
    } else if 0x30 <= c4 && c4 <= 0x39 {
        let dv2 = (c4 - 0x30) as i16;
        if len < 5 {
            proof {
                if valid_line(line@) {
                    lemma_valid_line_shape(line@);
                }
            }
            None
        } else {
            let c5 = line[len - 5];
            if c5 == SEMI {
                // `key;DD.F`
                let sep = len - 5;
                let v = dv2 * 100 + dv3 * 10 + fv;
                proof {
                    lemma_two_digits(line@, sep as int, false);
                }
                Some((sep, v))
            } else if c5 == DASH {
                // `key;-DD.F`
                if len >= 6 && line[len - 6] == SEMI {
                    let sep = len - 6;
                    let v = -(dv2 * 100 + dv3 * 10 + fv);
                    proof {
                        lemma_two_digits(line@, sep as int, true);
                    }
                    Some((sep, v))
                } else {
                    proof {
                        if valid_line(line@) {
                            lemma_valid_line_shape(line@);
                        }
                    }
                    None
                }
            } else if 0x30 <= c5 && c5 <= 0x39 {
                let dv1 = (c5 - 0x30) as i16;
                if len < 6 {
                    proof {
                        if valid_line(line@) {
                            lemma_valid_line_shape(line@);
                        }
                    }
                    None
                } else {
                    let c6 = line[len - 6];
                    if c6 == SEMI {
                        // `key;DDD.F`
                        let sep = len - 6;
                        let v = dv1 * 1000 + dv2 * 100 + dv3 * 10 + fv;
                        proof {
                            lemma_three_digits(line@, sep as int, false);
                        }
                        Some((sep, v))
                    } else if c6 == DASH {
                        // `key;-DDD.F`
                        if len >= 7 && line[len - 7] == SEMI {
                            let sep = len - 7;
                            let v = -(dv1 * 1000 + dv2 * 100 + dv3 * 10 + fv);
                            proof {
                                lemma_three_digits(line@, sep as int, true);
                            }
                            Some((sep, v))
                        } else {
                            proof {
                                if valid_line(line@) {
                                    lemma_valid_line_shape(line@);
                                }
                            }
                            None
                        }
                    } else {
                        // more than three integer digits, or garbage
                        proof {
                            if valid_line(line@) {
                                lemma_valid_line_shape(line@);
                            }
                        }
                        None
                    }
                }
            } else {
                proof {
                    if valid_line(line@) {
                        lemma_valid_line_shape(line@);
                    }
                }
                None
            }
        }
    } else {
        proof {
            if valid_line(line@) {
                lemma_valid_line_shape(line@);
            }
        }
        None
    };
    proof {
        if r is Some {
            let sep = r->Some_0.0 as int;
            assert(valid_line(line@));
            lemma_sep_unique(line@, sep, line_sep(line@));
        }
    }
    r
}

/// A one-digit tail `;D.F` or `;-D.F` is a valid number of the stated value.
proof fn lemma_one_digit(line: Seq<u8>, sep: int, neg: bool)
    requires
        0 <= sep,
        line.len() >= 4,
        sep == line.len() - (if neg { 5int } else { 4int }),
        line[sep] == SEMI,
        neg ==> line[line.len() - 4] == DASH,
        is_digit(line[line.len() - 3]),
        line[line.len() - 2] == DOT,
        is_digit(line[line.len() - 1]),
    ensures
        sep_at(line, sep),
        number_value(line.skip(sep + 1)) == (if neg {
            -(digit_val(line[line.len() - 3]) * 10 + digit_val(line[line.len() - 1]))
        } else {
            digit_val(line[line.len() - 3]) * 10 + digit_val(line[line.len() - 1])
        }),
{
    let len = line.len() as int;
    let digits = seq![line[len - 3]];
    assert(line.skip(sep + 1) =~= if neg {
        seq![DASH] + digits + seq![DOT, line[len - 1]]
    } else {
        digits + seq![DOT, line[len - 1]]
    });
    lemma_unsigned_number_parts(line, sep, neg, digits);
    lemma_int_digits1(line[len - 3]);
    let y = digit_val(line[len - 3]) * 10 + digit_val(line[len - 1]);
    assert(int_digits_value(digits) * 10 + digit_val(line[len - 1]) == y);
    assert(number_value(line.skip(sep + 1)) == if neg {
        -y
    } else {
        y
    });
}


/// A two-digit tail `;DD.F` or `;-DD.F` is a valid number of the stated
/// value.
proof fn lemma_two_digits(line: Seq<u8>, sep: int, neg: bool)
    requires
        0 <= sep,
        line.len() >= 5,
        sep == line.len() - (if neg { 6int } else { 5int }),
        line[sep] == SEMI,
        neg ==> line[line.len() - 5] == DASH,
        is_digit(line[line.len() - 4]),
        is_digit(line[line.len() - 3]),
        line[line.len() - 2] == DOT,
        is_digit(line[line.len() - 1]),
    ensures
        sep_at(line, sep),
        number_value(line.skip(sep + 1)) == (if neg {
            -(digit_val(line[line.len() - 4]) * 100 + digit_val(line[line.len() - 3]) * 10
                + digit_val(line[line.len() - 1]))
        } else {
            digit_val(line[line.len() - 4]) * 100 + digit_val(line[line.len() - 3]) * 10
                + digit_val(line[line.len() - 1])
        }),
{
    let len = line.len() as int;
    let digits = seq![line[len - 4], line[len - 3]];
    assert(line.skip(sep + 1) =~= if neg {
        seq![DASH] + digits + seq![DOT, line[len - 1]]
    } else {
        digits + seq![DOT, line[len - 1]]
    });
    lemma_unsigned_number_parts(line, sep, neg, digits);
    lemma_int_digits2(line[len - 4], line[len - 3]);
    let y = digit_val(line[len - 4]) * 100 + digit_val(line[len - 3]) * 10 + digit_val(
        line[len - 1],
    );
    assert(int_digits_value(digits) * 10 + digit_val(line[len - 1]) == y);
    assert(number_value(line.skip(sep + 1)) == if neg {
        -y
    } else {
        y
    });
}


/// A three-digit tail `;DDD.F` or `;-DDD.F` is a valid number of the stated
/// value.
proof fn lemma_three_digits(line: Seq<u8>, sep: int, neg: bool)
    requires
        0 <= sep,
        line.len() >= 6,
        sep == line.len() - (if neg { 7int } else { 6int }),
        line[sep] == SEMI,
        neg ==> line[line.len() - 6] == DASH,
        is_digit(line[line.len() - 5]),
        is_digit(line[line.len() - 4]),
        is_digit(line[line.len() - 3]),
        line[line.len() - 2] == DOT,
        is_digit(line[line.len() - 1]),
    ensures
        sep_at(line, sep),
        number_value(line.skip(sep + 1)) == (if neg {
            -(digit_val(line[line.len() - 5]) * 1000 + digit_val(line[line.len() - 4]) * 100
                + digit_val(line[line.len() - 3]) * 10 + digit_val(line[line.len() - 1]))
        } else {
            digit_val(line[line.len() - 5]) * 1000 + digit_val(line[line.len() - 4]) * 100
                + digit_val(line[line.len() - 3]) * 10 + digit_val(line[line.len() - 1])
        }),
{
    let len = line.len() as int;
    let digits = seq![line[len - 5], line[len - 4], line[len - 3]];
    assert(line.skip(sep + 1) =~= if neg {
        seq![DASH] + digits + seq![DOT, line[len - 1]]
    } else {
        digits + seq![DOT, line[len - 1]]
    });
    lemma_unsigned_number_parts(line, sep, neg, digits);
    lemma_int_digits3(line[len - 5], line[len - 4], line[len - 3]);
    let y = digit_val(line[len - 5]) * 1000 + digit_val(line[len - 4]) * 100 + digit_val(
        line[len - 3],
    ) * 10 + digit_val(line[len - 1]);
    assert(int_digits_value(digits) * 10 + digit_val(line[len - 1]) == y);
    assert(number_value(line.skip(sep + 1)) == if neg {
        -y
    } else {
        y
    });
}


} // verus!
