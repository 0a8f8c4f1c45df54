//! Persisting the atlas: a structured, field-labelled text record (JSON
//! syntax) written and read back exactly, so that an atlas survives a round
//! trip through storage unchanged.

use vstd::prelude::*;
use vstd::string::StrSliceExecFns;
use vstd::string::StringExecFns;
use crate::atlas::{Atlas, AtlasModel, AtlasSquare, SquareModel};

verus! {

/// The stored record is malformed: it does not parse as an atlas record.
#[derive(Debug, Clone, Copy, PartialEq, Eq, Structural)]
pub struct PersistenceError;

/// The decimal digit character for value `d`.
pub open spec fn dec_digit(d: int) -> char {
    ((48 + d) as u8) as char
}

/// The decimal numeral of `n`, most significant digit first, no sign, no
/// leading zeros (a single zero for 0).
pub open spec fn dec_of(n: int) -> Seq<char>
    decreases n,
{
    if n < 10 {
        seq![dec_digit(n)]
    } else {
        dec_of(n / 10).push(dec_digit(n % 10))
    }
}

/// A character's code point sits in the unicode scalar range.
proof fn lemma_char_bounds(c: char)
    ensures
        0 <= c as int <= 0x10FFFF,
{
}

/// The lowercase hexadecimal digit character for value `d`.
pub open spec fn hex_digit(d: int) -> char {
    if d < 10 {
        ((48 + d) as u8) as char
    } else {
        ((87 + d) as u8) as char
    }
}

/// A string character as it is stored: the quote and the backslash get a
/// backslash before them, control characters become a four-digit escape, and
/// every other character stands as itself.
pub open spec fn esc_char(c: char) -> Seq<char> {
    if c == '"' || c == '\\' {
        seq!['\\', c]
    } else if (c as int) < 32 {
        seq!['\\', 'u', '0', '0', hex_digit(c as int / 16), hex_digit(c as int % 16)]
    } else {
        seq![c]
    }
}

/// `c` is a lowercase hexadecimal digit character.
pub open spec fn is_hex(c: char) -> bool {
    48 <= c as int <= 57 || 97 <= c as int <= 102
}

/// The value of a lowercase hexadecimal digit character.
pub open spec fn hex_val(c: char) -> int {
    if c as int <= 57 {
        c as int - 48
    } else {
        c as int - 87
    }
}

/// A name with its characters escaped.
pub open spec fn esc(s: Seq<char>) -> Seq<char>
    decreases s.len(),
{
    if s.len() == 0 {
        Seq::empty()
    } else {
        esc_char(s[0]) + esc(s.drop_first())
    }
}

/// The stored form of one square.
pub open spec fn ser_square(sq: SquareModel) -> Seq<char> {
    "{\"name\":\""@ + esc(sq.name) + "\",\"x\":"@ + dec_of(sq.x as int) + ",\"y\":"@ + dec_of(
        sq.y as int,
    ) + "}"@
}

/// The stored form of a square list: comma-separated.
pub open spec fn ser_squares(sqs: Seq<SquareModel>) -> Seq<char>
    decreases sqs.len(),
{
    if sqs.len() == 0 {
        Seq::empty()
    } else if sqs.len() == 1 {
        ser_square(sqs[0])
    } else {
        ser_square(sqs[0]) + ","@ + ser_squares(sqs.drop_first())
    }
}

/// The stored head: the optional diagnostic label field, then the opening of
/// the side-length field.
pub open spec fn ser_head(label: Option<Seq<char>>) -> Seq<char> {
    match label {
        Some(l) => "{\"pack_name\":"@ + seq!['"'] + esc(l) + seq!['"'] + ",\"side_length\":"@,
        None => "{\"side_length\":"@,
    }
}

/// The stored form of a whole atlas.
pub open spec fn ser_atlas(m: AtlasModel) -> Seq<char> {
    ser_head(m.pack_name) + dec_of(m.side_length as int) + ",\"squares\":["@ + ser_squares(m.squares)
        + "]}"@
}

/// `c` is a decimal digit character.
pub open spec fn is_digit(c: char) -> bool {
    48 <= c as int <= 57
}

/// The value of a decimal digit character.
pub open spec fn digit_val(c: char) -> int {
    c as int - 48
}

/// Consumes the digit run starting at `i`, folding it onto `acc`: the value
/// read so far and the position just past the run.
pub open spec fn parse_num_rec(s: Seq<char>, i: int, acc: int) -> (int, int)
    decreases s.len() - i,
{
    if 0 <= i < s.len() && is_digit(s[i]) {
        parse_num_rec(s, i + 1, acc * 10 + digit_val(s[i]))
    } else {
        (acc, i)
    }
}

/// A number at `i`: at least one digit, value within 32 bits.
pub open spec fn parse_num(s: Seq<char>, i: int) -> Option<(int, int)> {
    if 0 <= i < s.len() && is_digit(s[i]) {
        let (v, j) = parse_num_rec(s, i, 0);
        if v <= u32::MAX {
            Some((v, j))
        } else {
            None
        }
    } else {
        None
    }
}

/// A string body at `i` (the opening quote already consumed): characters up
/// to the closing quote, honouring the two escapes.
pub open spec fn parse_str_rec(s: Seq<char>, i: int) -> Option<(Seq<char>, int)>
    decreases s.len() - i,
{
    if !(0 <= i < s.len()) {
        None
    } else if s[i] == '"' {
        Some((Seq::empty(), i + 1))
    } else if s[i] == '\\' {
        if i + 1 < s.len() && (s[i + 1] == '"' || s[i + 1] == '\\') {
            match parse_str_rec(s, i + 2) {
                Some(t) => Some((seq![s[i + 1]] + t.0, t.1)),
                None => None,
            }
        } else if i + 5 < s.len() && s[i + 1] == 'u' && s[i + 2] == '0' && s[i + 3] == '0'
            && is_hex(s[i + 4]) && is_hex(s[i + 5]) {
            match parse_str_rec(s, i + 6) {
                Some(t) => Some(
                    (seq![((hex_val(s[i + 4]) * 16 + hex_val(s[i + 5])) as u8) as char] + t.0, t.1),
                ),
                None => None,
            }
        } else {
            None
        }
    } else {
        match parse_str_rec(s, i + 1) {
            Some(t) => Some((seq![s[i]] + t.0, t.1)),
            None => None,
        }
    }
}

/// The text `lit` stands at position `i` of `s`.
pub open spec fn spec_match_lit(s: Seq<char>, i: int, lit: Seq<char>) -> bool {
    0 <= i && i + lit.len() <= s.len() && s.subrange(i, i + lit.len()) == lit
}

/// One square record at `i`.
pub open spec fn parse_square(s: Seq<char>, i: int) -> Option<(SquareModel, int)> {
    let l1 = "{\"name\":\""@;
    let l2 = ",\"x\":"@;
    let l3 = ",\"y\":"@;
    if spec_match_lit(s, i, l1) {
        match parse_str_rec(s, i + l1.len()) {
            Some(nt) => {
                if spec_match_lit(s, nt.1, l2) {
                    match parse_num(s, nt.1 + l2.len()) {
                        Some(xt) => {
                            if spec_match_lit(s, xt.1, l3) {
                                match parse_num(s, xt.1 + l3.len()) {
                                    Some(yt) => {
                                        if spec_match_lit(s, yt.1, "}"@) {
                                            Some(
                                                (
                                                    SquareModel {
                                                        name: nt.0,
                                                        x: xt.0 as u32,
                                                        y: yt.0 as u32,
                                                    },
                                                    yt.1 + 1,
                                                ),
                                            )
                                        } else {
                                            None
                                        }
                                    },
                                    None => None,
                                }
                            } else {
                                None
                            }
                        },
                        None => None,
                    }
                } else {
                    None
                }
            },
            None => None,
        }
    } else {
        None
    }
}

/// The square list at `i` (the opening bracket already consumed), up to and
/// including the closing bracket. `fuel` only bounds the recursion; any fuel
/// larger than the remaining text gives the list's one meaning.
pub open spec fn parse_squares_rec(s: Seq<char>, i: int, fuel: nat) -> Option<
    (Seq<SquareModel>, int),
>
    decreases fuel,
{
    if fuel == 0 {
        None
    } else if spec_match_lit(s, i, "]"@) {
        Some((Seq::empty(), i + 1))
    } else {
        match parse_square(s, i) {
            Some(st) => {
                if spec_match_lit(s, st.1, ","@) {
                    match parse_squares_rec(s, st.1 + 1, (fuel - 1) as nat) {
                        Some(rt) => {
                            if rt.0.len() > 0 {
                                Some((seq![st.0] + rt.0, rt.1))
                            } else {
                                None
                            }
                        },
                        None => None,
                    }
                } else if spec_match_lit(s, st.1, "]"@) {
                    Some((seq![st.0], st.1 + 1))
                } else {
                    None
                }
            },
            None => None,
        }
    }
}

/// The record from the side-length value on: the number, the square list and
/// the closing brace, which must end the text.
pub open spec fn parse_atlas_tail(s: Seq<char>, i: int) -> Option<(u32, Seq<SquareModel>)> {
    let l2 = ",\"squares\":["@;
    match parse_num(s, i) {
        Some(st) => {
            if spec_match_lit(s, st.1, l2) {
                match parse_squares_rec(s, st.1 + l2.len(), (s.len() + 1) as nat) {
                    Some(qt) => {
                        if spec_match_lit(s, qt.1, "}"@) && qt.1 + 1 == s.len() {
                            Some((st.0 as u32, qt.0))
                        } else {
                            None
                        }
                    },
                    None => None,
                }
            } else {
                None
            }
        },
        None => None,
    }
}

/// A whole atlas record, with or without the optional label field, which must
/// span the entire text.
pub open spec fn parse_atlas(s: Seq<char>) -> Option<AtlasModel> {
    let lp = "{\"pack_name\":\""@;
    let lm = ",\"side_length\":"@;
    let l1 = "{\"side_length\":"@;
    if spec_match_lit(s, 0, lp) {
        match parse_str_rec(s, lp.len() as int) {
            Some(nt) => {
                if spec_match_lit(s, nt.1, lm) {
                    match parse_atlas_tail(s, nt.1 + lm.len()) {
                        Some(t) => Some(
                            AtlasModel { pack_name: Some(nt.0), side_length: t.0, squares: t.1 },
                        ),
                        None => None,
                    }
                } else {
                    None
                }
            },
            None => None,
        }
    } else if spec_match_lit(s, 0, l1) {
        match parse_atlas_tail(s, l1.len() as int) {
            Some(t) => Some(AtlasModel { pack_name: None, side_length: t.0, squares: t.1 }),
            None => None,
        }
    } else {
        None
    }
}

/// Ten to the `k`.
pub open spec fn pow10(k: nat) -> int
    decreases k,
{
    if k == 0 {
        1
    } else {
        10 * pow10((k - 1) as nat)
    }
}

proof fn lemma_pow10_pos(k: nat)
    ensures
        pow10(k) >= 1,
    decreases k,
{
    if k > 0 {
        lemma_pow10_pos((k - 1) as nat);
    }
}

/// A numeral is at least one character, and all of them digits.
proof fn lemma_dec_digits(n: int)
    requires
        n >= 0,
    ensures
        dec_of(n).len() >= 1,
        forall|k: int| 0 <= k < dec_of(n).len() ==> is_digit(#[trigger] dec_of(n)[k]),
    decreases n,
{
    if n >= 10 {
        lemma_dec_digits(n / 10);
    }
}

/// A subrange of an embedded text is the corresponding subrange of `s`.
proof fn lemma_sub_of_sub(s: Seq<char>, i: int, t: Seq<char>, a: int, b: int)
    requires
        0 <= i,
        i + t.len() <= s.len(),
        s.subrange(i, i + t.len()) == t,
        0 <= a <= b <= t.len(),
    ensures
        s.subrange(i + a, i + b) == t.subrange(a, b),
{
    assert forall|k: int| 0 <= k < b - a implies s.subrange(i + a, i + b)[k] == t.subrange(
        a,
        b,
    )[k] by {
        assert(s.subrange(i, i + t.len())[a + k] == s[i + a + k]);
    }
    assert(s.subrange(i + a, i + b) =~= t.subrange(a, b));
}

/// Reading the digit run of the numeral of `n` folds `n` onto the accumulator.
proof fn lemma_parse_num_run(s: Seq<char>, i: int, n: int, acc: int)
    requires
        0 <= i,
        acc >= 0,
        n >= 0,
        i + dec_of(n).len() <= s.len(),
        s.subrange(i, i + dec_of(n).len()) == dec_of(n),
    ensures
        parse_num_rec(s, i, acc) == parse_num_rec(
            s,
            i + dec_of(n).len(),
            acc * pow10(dec_of(n).len() as nat) + n,
        ),
    decreases n,
{
    lemma_dec_digits(n);
    lemma_pow10_pos(dec_of(n).len() as nat);
    if n < 10 {
        assert(s.subrange(i, i + 1)[0] == s[i]);
        assert(s[i] == dec_digit(n));
        assert(is_digit(s[i]) && digit_val(s[i]) == n);
        assert(pow10(1) == 10 * pow10(0));
        assert(pow10(0) == 1);
        assert(acc * 10 + n == acc * pow10(1) + n) by (nonlinear_arith)
            requires
                pow10(1) == 10,
        ;
    } else {
        let d = dec_of(n);
        let dq = dec_of(n / 10);
        let lq = dq.len();
        assert(d == dq.push(dec_digit(n % 10)));
        assert(d.subrange(0, lq as int) =~= dq);
        lemma_sub_of_sub(s, i, d, 0, lq as int);
        lemma_dec_digits(n / 10);
        lemma_parse_num_run(s, i, n / 10, acc);
        lemma_pow10_pos(lq);
        let mid = acc * pow10(lq) + n / 10;
        assert(acc * pow10(lq) >= 0) by (nonlinear_arith)
            requires
                acc >= 0,
                pow10(lq) >= 1,
        ;
        assert(s.subrange(i, i + d.len() as int)[lq as int] == s[i + lq]);
        assert(s[i + lq] == dec_digit(n % 10));
        assert(is_digit(s[i + lq]) && digit_val(s[i + lq]) == n % 10);
        assert(parse_num_rec(s, i + lq, mid) == parse_num_rec(s, i + lq + 1, mid * 10 + n % 10));
        assert(pow10((lq + 1) as nat) == 10 * pow10(lq));
        assert((acc * pow10(lq) + n / 10) * 10 + n % 10 == acc * (10 * pow10(lq)) + (10 * (n / 10)
            + n % 10)) by (nonlinear_arith);
        vstd::arithmetic::div_mod::lemma_fundamental_div_mod(n, 10);
    }
}

/// A numeral followed by a non-digit parses to exactly its value.
proof fn lemma_parse_num_value(s: Seq<char>, i: int, n: int)
    requires
        0 <= i,
        0 <= n <= u32::MAX,
        i + dec_of(n).len() <= s.len(),
        s.subrange(i, i + dec_of(n).len()) == dec_of(n),
        i + dec_of(n).len() == s.len() || !is_digit(s[i + dec_of(n).len()]),
    ensures
        parse_num(s, i) == Some((n, i + dec_of(n).len())),
{
    lemma_dec_digits(n);
    assert(s.subrange(i, i + dec_of(n).len() as int)[0] == s[i]);
    assert(is_digit(s[i]));
    lemma_parse_num_run(s, i, n, 0);
    assert(0 * pow10(dec_of(n).len() as nat) == 0) by (nonlinear_arith);
}

/// The escaped form of a name, followed by a closing quote, parses back to
/// exactly that name.
proof fn lemma_parse_str_of_esc(s: Seq<char>, i: int, name: Seq<char>)
    requires
        0 <= i,
        i + esc(name).len() + 1 <= s.len(),
        s.subrange(i, i + esc(name).len()) == esc(name),
        s[i + esc(name).len()] == '"',
    ensures
        parse_str_rec(s, i) == Some((name, i + esc(name).len() + 1)),
    decreases name.len(),
{
    if name.len() == 0 {
        assert(name =~= Seq::<char>::empty());
    } else {
        let c = name[0];
        let rest = name.drop_first();
        let e = esc(name);
        assert(e == esc_char(c) + esc(rest));
        if c == '"' || c == '\\' {
            assert(e[0] == '\\' && e[1] == c);
            assert(s.subrange(i, i + e.len() as int)[0] == s[i]);
            assert(s.subrange(i, i + e.len() as int)[1] == s[i + 1]);
            assert(e.subrange(2, e.len() as int) =~= esc(rest));
            lemma_sub_of_sub(s, i, e, 2, e.len() as int);
            lemma_parse_str_of_esc(s, i + 2, rest);
            assert(seq![s[i + 1]] + rest =~= name);
        } else if (c as int) < 32 {
            let hi = c as int / 16;
            let lo = c as int % 16;
            assert(e[0] == '\\' && e[1] == 'u' && e[2] == '0' && e[3] == '0' && e[4] == hex_digit(
                hi,
            ) && e[5] == hex_digit(lo));
            assert forall|k: int| 0 <= k < 6 implies s[i + k] == e[k] by {
                assert(s.subrange(i, i + e.len() as int)[k] == s[i + k]);
            }
            lemma_char_bounds(c);
            vstd::arithmetic::div_mod::lemma_fundamental_div_mod(c as int, 16);
            assert(0 <= lo < 16) by {
                vstd::arithmetic::div_mod::lemma_mod_bound(c as int, 16);
            }
            assert(0 <= hi < 2) by {
                vstd::arithmetic::div_mod::lemma_div_pos_is_pos(c as int, 16);
                vstd::arithmetic::div_mod::lemma_div_is_ordered(c as int, 31, 16);
            }
            assert(is_hex(hex_digit(hi)) && is_hex(hex_digit(lo)));
            assert(hex_val(hex_digit(hi)) == hi && hex_val(hex_digit(lo)) == lo);
            assert(hex_val(s[i + 4]) * 16 + hex_val(s[i + 5]) == c as int);
            assert((((c as int) as u8) as char) == c);
            assert(e.subrange(6, e.len() as int) =~= esc(rest));
            lemma_sub_of_sub(s, i, e, 6, e.len() as int);
            lemma_parse_str_of_esc(s, i + 6, rest);
            assert(seq![((hex_val(s[i + 4]) * 16 + hex_val(s[i + 5])) as u8) as char] + rest
                =~= name);
        } else {
            assert(e[0] == c);
            assert(s.subrange(i, i + e.len() as int)[0] == s[i]);
            assert(e.subrange(1, e.len() as int) =~= esc(rest));
            lemma_sub_of_sub(s, i, e, 1, e.len() as int);
            lemma_parse_str_of_esc(s, i + 1, rest);
            assert(seq![s[i]] + rest =~= name);
        }
    }
}

/// A serialized square parses back to exactly that square.
#[verifier::rlimit(100)]
proof fn lemma_parse_square_of_ser(s: Seq<char>, i: int, sq: SquareModel)
    requires
        0 <= i,
        i + ser_square(sq).len() <= s.len(),
        s.subrange(i, i + ser_square(sq).len()) == ser_square(sq),
    ensures
        parse_square(s, i) == Some((sq, i + ser_square(sq).len())),
{
    reveal_strlit("{\"name\":\"");
    reveal_strlit("\",\"x\":");
    reveal_strlit(",\"x\":");
    reveal_strlit(",\"y\":");
    reveal_strlit("}");
    let t = ser_square(sq);
    let l1 = "{\"name\":\""@;
    let lq = "\",\"x\":"@;
    let l2 = ",\"x\":"@;
    let l3 = ",\"y\":"@;
    let e = esc(sq.name);
    let dx = dec_of(sq.x as int);
    let dy = dec_of(sq.y as int);
    lemma_dec_digits(sq.x as int);
    lemma_dec_digits(sq.y as int);
    let p1 = i + l1.len();
    let p2 = p1 + e.len();
    let p3 = p2 + lq.len();
    let p4 = p3 + dx.len();
    let p5 = p4 + l3.len();
    let p6 = p5 + dy.len();
    assert(t.len() == l1.len() + e.len() + lq.len() + dx.len() + l3.len() + dy.len() + 1);
    assert(t.subrange(0, l1.len() as int) =~= l1);
    lemma_sub_of_sub(s, i, t, 0, l1.len() as int);
    assert(spec_match_lit(s, i, l1));
    assert(t.subrange(p1 - i, p2 - i) =~= e);
    lemma_sub_of_sub(s, i, t, p1 - i, p2 - i);
    assert(t[p2 - i] == lq[0]);
    assert(s.subrange(i, i + t.len() as int)[p2 - i] == s[p2]);
    assert(s[p2] == '"');
    lemma_parse_str_of_esc(s, p1, sq.name);
    assert(parse_str_rec(s, p1) == Some((sq.name, p2 + 1)));
    assert(t.subrange(p2 + 1 - i, p3 - i) =~= l2);
    lemma_sub_of_sub(s, i, t, p2 + 1 - i, p3 - i);
    assert(spec_match_lit(s, p2 + 1, l2));
    assert(t.subrange(p3 - i, p4 - i) =~= dx);
    lemma_sub_of_sub(s, i, t, p3 - i, p4 - i);
    assert(t[p4 - i] == l3[0]);
    assert(s.subrange(i, i + t.len() as int)[p4 - i] == s[p4]);
    assert(s[p4] == ',' && !is_digit(s[p4]));
    lemma_parse_num_value(s, p3, sq.x as int);
    assert(t.subrange(p4 - i, p5 - i) =~= l3);
    lemma_sub_of_sub(s, i, t, p4 - i, p5 - i);
    assert(spec_match_lit(s, p4, l3));
    assert(t.subrange(p5 - i, p6 - i) =~= dy);
    lemma_sub_of_sub(s, i, t, p5 - i, p6 - i);
    assert(t[p6 - i] == '}');
    assert(s.subrange(i, i + t.len() as int)[p6 - i] == s[p6]);
    assert(s[p6] == '}' && !is_digit(s[p6]));
    lemma_parse_num_value(s, p5, sq.y as int);
    assert(t.subrange(p6 - i, p6 + 1 - i) =~= "}"@);
    lemma_sub_of_sub(s, i, t, p6 - i, p6 + 1 - i);
    assert(spec_match_lit(s, p6, "}"@));
    assert(parse_square(s, i) == Some(
        (SquareModel { name: sq.name, x: (sq.x as int) as u32, y: (sq.y as int) as u32 }, p6 + 1),
    ));
}

/// A serialized square is never empty and starts with a brace.
proof fn lemma_ser_square_shape(sq: SquareModel)
    ensures
        ser_square(sq).len() >= 1,
        ser_square(sq)[0] == '{',
{
    reveal_strlit("{\"name\":\"");
    let l1 = "{\"name\":\""@;
    assert(ser_square(sq)[0] == l1[0]);
}

/// A serialized square list has at least one character per square.
proof fn lemma_ser_squares_len(sqs: Seq<SquareModel>)
    ensures
        ser_squares(sqs).len() >= sqs.len(),
    decreases sqs.len(),
{
    if sqs.len() == 1 {
        lemma_ser_square_shape(sqs[0]);
    } else if sqs.len() > 1 {
        lemma_ser_square_shape(sqs[0]);
        lemma_ser_squares_len(sqs.drop_first());
    }
}

/// A serialized square list, followed by its closing bracket, parses back to
/// exactly that list, under any sufficient fuel.
proof fn lemma_parse_squares_of_ser(s: Seq<char>, i: int, sqs: Seq<SquareModel>, fuel: nat)
    requires
        0 <= i,
        i + ser_squares(sqs).len() + 1 <= s.len(),
        s.subrange(i, i + ser_squares(sqs).len()) == ser_squares(sqs),
        s[i + ser_squares(sqs).len()] == ']',
        fuel >= sqs.len() + 1,
    ensures
        parse_squares_rec(s, i, fuel) == Some((sqs, i + ser_squares(sqs).len() + 1)),
    decreases sqs.len(),
{
    reveal_strlit("]");
    reveal_strlit(",");
    let t = ser_squares(sqs);
    if sqs.len() == 0 {
        assert(s.subrange(i, i + 1) =~= "]"@);
        assert(spec_match_lit(s, i, "]"@));
        assert(sqs =~= Seq::<SquareModel>::empty());
    } else {
        lemma_ser_square_shape(sqs[0]);
        let t0 = ser_square(sqs[0]);
        assert(t.subrange(0, t0.len() as int) =~= t0);
        lemma_sub_of_sub(s, i, t, 0, t0.len() as int);
        lemma_parse_square_of_ser(s, i, sqs[0]);
        assert(s.subrange(i, i + t.len() as int)[0] == s[i]);
        assert(s[i] == '{');
        assert(!spec_match_lit(s, i, "]"@)) by {
            if spec_match_lit(s, i, "]"@) {
                assert(s.subrange(i, i + 1)[0] == s[i]);
            }
        }
        let j = i + t0.len();
        if sqs.len() == 1 {
            assert(s[j] == ']');
            assert(!spec_match_lit(s, j, ","@)) by {
                if spec_match_lit(s, j, ","@) {
                    assert(s.subrange(j, j + 1)[0] == s[j]);
                }
            }
            assert(s.subrange(j, j + 1) =~= "]"@);
            assert(spec_match_lit(s, j, "]"@));
            assert(seq![sqs[0]] =~= sqs);
        } else {
            let rest = sqs.drop_first();
            let tr = ser_squares(rest);
            assert(t == t0 + ","@ + tr);
            assert(t[t0.len() as int] == ',');
            assert(s.subrange(i, i + t.len() as int)[t0.len() as int] == s[j]);
            assert(s[j] == ',');
            assert(s.subrange(j, j + 1) =~= ","@);
            assert(spec_match_lit(s, j, ","@));
            assert(t.subrange(j + 1 - i, i + t.len() - i) =~= tr);
            lemma_sub_of_sub(s, i, t, j + 1 - i, t.len() as int);
            lemma_parse_squares_of_ser(s, j + 1, rest, (fuel - 1) as nat);
            assert(rest.len() > 0);
            assert(seq![sqs[0]] + rest =~= sqs);
        }
    }
}

/// The serialized record from the side-length value on parses back to
/// exactly the side and the squares.
#[verifier::rlimit(60)]
proof fn lemma_parse_tail_of_ser(s: Seq<char>, i: int, m: AtlasModel)
    requires
        0 <= i <= s.len(),
        s.subrange(i, s.len() as int) == dec_of(m.side_length as int) + ",\"squares\":["@
            + ser_squares(m.squares) + "]}"@,
    ensures
        parse_atlas_tail(s, i) == Some((m.side_length, m.squares)),
{
    reveal_strlit(",\"squares\":[");
    reveal_strlit("]}");
    reveal_strlit("}");
    reveal_strlit("]");
    let d = dec_of(m.side_length as int);
    let l2 = ",\"squares\":["@;
    let q = ser_squares(m.squares);
    let t = d + l2 + q + "]}"@;
    lemma_dec_digits(m.side_length as int);
    lemma_ser_squares_len(m.squares);
    assert(s.subrange(i, s.len() as int).len() == s.len() - i);
    assert(s.subrange(i, s.len() as int) == t);
    assert(t.len() == d.len() + l2.len() + q.len() + 2);
    assert(s.len() == i + d.len() + l2.len() + q.len() + 2);
    let p2 = i + d.len();
    let p3 = p2 + l2.len();
    let p4 = p3 + q.len();
    assert(t.subrange(0, d.len() as int) =~= d);
    lemma_sub_of_sub(s, i, t, 0, d.len() as int);
    assert(t[d.len() as int] == ',');
    assert(s.subrange(i, i + t.len() as int)[d.len() as int] == s[p2]);
    assert(s[p2] == ',');
    assert(!is_digit(s[p2]));
    lemma_parse_num_value(s, i, m.side_length as int);
    assert(t.subrange(p2 - i, p3 - i) =~= l2);
    lemma_sub_of_sub(s, i, t, p2 - i, p3 - i);
    assert(spec_match_lit(s, p2, l2));
    assert(t.subrange(p3 - i, p4 - i) =~= q);
    lemma_sub_of_sub(s, i, t, p3 - i, p4 - i);
    assert(t[p4 - i] == ']');
    assert(s.subrange(i, i + t.len() as int)[p4 - i] == s[p4]);
    assert(s[p4] == ']');
    assert((s.len() + 1) as nat >= m.squares.len() + 1);
    lemma_parse_squares_of_ser(s, p3, m.squares, (s.len() + 1) as nat);
    assert(t.subrange(p4 + 1 - i, p4 + 2 - i) =~= "}"@);
    lemma_sub_of_sub(s, i, t, p4 + 1 - i, p4 + 2 - i);
    assert(spec_match_lit(s, p4 + 1, "}"@));
    assert(p4 + 2 == s.len());
    assert(((m.side_length as int) as u32) == m.side_length);
}

/// The round trip: the stored text of any atlas parses back to exactly that
/// atlas, field for field, the optional label and the empty square list
/// included.
#[verifier::rlimit(100)]
pub proof fn lemma_store_round_trip(m: AtlasModel)
    ensures
        parse_atlas(ser_atlas(m)) == Some(m),
{
    reveal_strlit("{\"side_length\":");
    reveal_strlit("{\"pack_name\":");
    reveal_strlit("{\"pack_name\":\"");
    reveal_strlit(",\"side_length\":");
    let s = ser_atlas(m);
    let tail = dec_of(m.side_length as int) + ",\"squares\":["@ + ser_squares(m.squares) + "]}"@;
    assert(s == ser_head(m.pack_name) + tail);
    match m.pack_name {
        Some(l) => {
            let lp = "{\"pack_name\":\""@;
            let lm = ",\"side_length\":"@;
            let e = esc(l);
            assert(s.subrange(0, lp.len() as int) =~= lp);
            assert(spec_match_lit(s, 0, lp));
            let pe = lp.len() as int + e.len();
            assert(s.subrange(lp.len() as int, pe) =~= e);
            assert(s[pe] == '"');
            lemma_parse_str_of_esc(s, lp.len() as int, l);
            assert(s.subrange(pe + 1, pe + 1 + lm.len()) =~= lm);
            assert(spec_match_lit(s, pe + 1, lm));
            let pt = pe + 1 + lm.len();
            assert(s.subrange(pt, s.len() as int) =~= tail);
            lemma_parse_tail_of_ser(s, pt, m);
            assert(parse_atlas(s) == Some(
                AtlasModel { pack_name: Some(l), side_length: m.side_length, squares: m.squares },
            ));
            assert(AtlasModel { pack_name: Some(l), side_length: m.side_length, squares: m.squares }
                == m);
        },
        None => {
            let l1 = "{\"side_length\":"@;
            assert(s.subrange(0, l1.len() as int) =~= l1);
            assert(spec_match_lit(s, 0, l1));
            assert(!spec_match_lit(s, 0, "{\"pack_name\":\""@)) by {
                if spec_match_lit(s, 0, "{\"pack_name\":\""@) {
                    assert(s.subrange(0, "{\"pack_name\":\""@.len() as int)[2] == s[2]);
                    assert(s.subrange(0, l1.len() as int)[2] == s[2]);
                }
            }
            let pt = l1.len() as int;
            assert(s.subrange(pt, s.len() as int) =~= tail);
            lemma_parse_tail_of_ser(s, pt, m);
            assert(parse_atlas(s) == Some(
                AtlasModel { pack_name: None, side_length: m.side_length, squares: m.squares },
            ));
            assert(AtlasModel { pack_name: None, side_length: m.side_length, squares: m.squares }
                == m);
        },
    }
}

/// Relies on String::push: appends exactly one character.
#[verifier::external_body]
fn string_push_char(s: &mut String, c: char)
    ensures
        final(s)@ == old(s)@.push(c),
{
    s.push(c);
}

/// Appends the decimal numeral of `n`.
fn write_u32(out: &mut String, n: u32)
    ensures
        final(out)@ == old(out)@ + dec_of(n as int),
    decreases n,
{
    if n < 10 {
        string_push_char(out, (48u8 + (n as u8)) as char);
        proof {
            assert(final(out)@ =~= old(out)@ + dec_of(n as int));
        }
    } else {
        write_u32(out, n / 10);
        string_push_char(out, (48u8 + ((n % 10) as u8)) as char);
        proof {
            assert(final(out)@ =~= old(out)@ + dec_of(n as int));
        }
    }
}

/// The lowercase hexadecimal digit character for a value below 16.
fn hex_char(d: u8) -> (r: char)
    requires
        d < 16,
    ensures
        r == hex_digit(d as int),
{
    if d < 10 {
        (48 + d) as char
    } else {
        (87 + d) as char
    }
}

/// Appends a name in its escaped, quoted form.
fn write_string(out: &mut String, s: &String)
    ensures
        final(out)@ == old(out)@ + seq!['"'] + esc(s@) + seq!['"'],
{
    string_push_char(out, '"');
    let n = s.as_str().unicode_len();
    let mut i: usize = 0;
    while i < n
        invariant
            i <= n,
            n == s@.len(),
            out@ == old(out)@ + seq!['"'] + esc(s@.take(i as int)),
        decreases n - i,
    {
        let c = s.as_str().get_char(i);
        let code = c as u32;
        if c == '"' || c == '\\' {
            string_push_char(out, '\\');
            string_push_char(out, c);
        } else if code < 32 {
            string_push_char(out, '\\');
            string_push_char(out, 'u');
            string_push_char(out, '0');
            string_push_char(out, '0');
            string_push_char(out, hex_char((code / 16) as u8));
            string_push_char(out, hex_char((code % 16) as u8));
        } else {
            string_push_char(out, c);
        }
        proof {
            lemma_esc_push(s@, i as int);
            assert(out@ =~= old(out)@ + seq!['"'] + esc(s@.take((i + 1) as int)));
        }
        i = i + 1;
    }
    string_push_char(out, '"');
    proof {
        assert(s@.take(n as int) =~= s@);
        assert(out@ =~= old(out)@ + seq!['"'] + esc(s@) + seq!['"']);
    }
}

/// Escaping one more character appends that character's escaped form.
proof fn lemma_esc_push(s: Seq<char>, i: int)
    requires
        0 <= i < s.len(),
    ensures
        esc(s.take(i + 1)) == esc(s.take(i)) + esc_char(s[i]),
    decreases i,
{
    if i == 0 {
        assert(s.take(1).drop_first() =~= s.take(0));
        assert(esc(s.take(1)) =~= esc_char(s[0]) + esc(s.take(0)));
        assert(esc(s.take(0)) + esc_char(s[0]) =~= esc_char(s[0]));
        assert(esc_char(s[0]) + esc(s.take(0)) =~= esc_char(s[0]));
    } else {
        lemma_esc_push(s.drop_first(), i - 1);
        assert(s.take(i + 1).drop_first() =~= s.drop_first().take(i));
        assert(s.take(i).drop_first() =~= s.drop_first().take(i - 1));
        assert(s.take(i + 1)[0] == s[0] && s.take(i)[0] == s[0]);
        assert(s.drop_first()[i - 1] == s[i]);
        assert(esc(s.take(i + 1)) == esc_char(s[0]) + esc(s.drop_first().take(i)));
        assert(esc(s.take(i)) == esc_char(s[0]) + esc(s.drop_first().take(i - 1)));
        assert(esc_char(s[0]) + (esc(s.drop_first().take(i - 1)) + esc_char(s[i])) =~= (esc_char(
            s[0],
        ) + esc(s.drop_first().take(i - 1))) + esc_char(s[i]));
    }
}

/// Appending one more square extends the comma-separated list.
proof fn lemma_ser_squares_push(sqs: Seq<SquareModel>, sq: SquareModel)
    ensures
        ser_squares(sqs.push(sq)) == if sqs.len() == 0 {
            ser_square(sq)
        } else {
            ser_squares(sqs) + ","@ + ser_squares(seq![sq])
        },
    decreases sqs.len(),
{
    if sqs.len() == 0 {
        assert(sqs.push(sq)[0] == sq);
        assert(ser_squares(sqs.push(sq)) == ser_square(sq));
    } else {
        lemma_ser_squares_push(sqs.drop_first(), sq);
        assert(sqs.push(sq).drop_first() =~= sqs.drop_first().push(sq));
        assert(sqs.push(sq)[0] == sqs[0]);
        if sqs.len() == 1 {
            assert(sqs.drop_first().len() == 0);
            assert(ser_squares(sqs.push(sq)) == ser_square(sqs[0]) + ","@ + ser_square(sq));
            assert(ser_square(sqs[0]) + ","@ + ser_square(sq) =~= ser_squares(sqs) + ","@
                + ser_squares(seq![sq]));
        } else {
            assert(ser_squares(sqs.push(sq)) == ser_square(sqs[0]) + ","@ + ser_squares(
                sqs.drop_first().push(sq),
            ));
            assert(ser_square(sqs[0]) + ","@ + ((ser_squares(sqs.drop_first()) + ","@
                + ser_squares(seq![sq]))) =~= (ser_square(sqs[0]) + ","@ + ser_squares(
                sqs.drop_first(),
            )) + ","@ + ser_squares(seq![sq]));
        }
    }
}

/// One square's stored form, split at the pieces the writer appends.
proof fn lemma_ser_square_parts(sqm: SquareModel)
    ensures
        ser_square(sqm) == "{\"name\":"@ + (seq!['"'] + esc(sqm.name) + seq!['"']) + ",\"x\":"@
            + dec_of(sqm.x as int) + ",\"y\":"@ + dec_of(sqm.y as int) + "}"@,
{
    reveal_strlit("{\"name\":\"");
    reveal_strlit("{\"name\":");
    reveal_strlit("\",\"x\":");
    reveal_strlit(",\"x\":");
    reveal_strlit("\"");
    assert(ser_square(sqm) =~= "{\"name\":"@ + (seq!['"'] + esc(sqm.name) + seq!['"'])
        + ",\"x\":"@ + dec_of(sqm.x as int) + ",\"y\":"@ + dec_of(sqm.y as int) + "}"@);
}

/// The labelled head's stored form, split at the pieces the writer appends.
proof fn lemma_ser_head_parts(l: Seq<char>)
    ensures
        ser_head(Some(l)) == "{\"pack_name\":"@ + (seq!['"'] + esc(l) + seq!['"'])
            + ",\"side_length\":"@,
{
    assert(ser_head(Some(l)) =~= "{\"pack_name\":"@ + (seq!['"'] + esc(l) + seq!['"'])
        + ",\"side_length\":"@);
}

impl Atlas {
    /// Serializes the atlas to its stored text form.
    #[verifier::loop_isolation(false)]
    #[verifier::rlimit(100)]
    pub fn save(&self) -> (r: String)
        ensures
            r@ == ser_atlas(self@),
    {
        let atlas = self;
        let ghost m = atlas@;
    let mut out = String::new();
    match &atlas.pack_name {
        Some(label) => {
            out.append("{\"pack_name\":");
            write_string(&mut out, label);
            out.append(",\"side_length\":");
            proof {
                lemma_ser_head_parts(label@);
                assert(out@ =~= ser_head(m.pack_name));
            }
        },
        None => {
            out.append("{\"side_length\":");
            proof {
                assert(out@ =~= ser_head(m.pack_name));
            }
        },
    }
    write_u32(&mut out, atlas.side_length);
    out.append(",\"squares\":[");
    let ghost header = ser_head(m.pack_name) + dec_of(m.side_length as int) + ",\"squares\":["@;
    proof {
        assert(out@ =~= header);
    }
    let n = atlas.squares.len();
    let mut i: usize = 0;
    while i < n
        invariant
            i <= n,
            n == m.squares.len(),
            out@ == header + ser_squares(m.squares.take(i as int)),
        decreases n - i,
    {
        let ghost list_pre = ser_squares(m.squares.take(i as int));
        if i > 0 {
            out.append(",");
        }
        let sq = &atlas.squares[i];
        out.append("{\"name\":");
        write_string(&mut out, &sq.name);
        out.append(",\"x\":");
        write_u32(&mut out, sq.x);
        out.append(",\"y\":");
        write_u32(&mut out, sq.y);
        out.append("}");
        proof {
            let sqm = m.squares[i as int];
            assert(sqm == atlas.squares@[i as int]@);
            lemma_ser_square_parts(sqm);
            lemma_ser_squares_push(m.squares.take(i as int), sqm);
            assert(m.squares.take((i + 1) as int) =~= m.squares.take(i as int).push(sqm));
            assert(ser_squares(seq![sqm]) == ser_square(sqm));
            if i > 0 {
                assert(out@ =~= header + (list_pre + ","@ + ser_squares(seq![sqm])));
            } else {
                assert(out@ =~= header + ser_square(sqm));
                assert(m.squares.take(0int).len() == 0);
            }
        }
        i = i + 1;
    }
    out.append("]}");
    proof {
        assert(m.squares.take(n as int) =~= m.squares);
        assert(out@ =~= ser_atlas(m));
    }
    out
    }
}

fn lit_at(s: &str, i: usize, lit: &str) -> (r: bool)
    ensures
        r == spec_match_lit(s@, i as int, lit@),
{
    let n = s.unicode_len();
    let m = lit.unicode_len();
    if m > n || i > n - m {
        return false;
    }
    let mut j: usize = 0;
    while j < m
        invariant
            j <= m,
            i + m <= n,
            n == s@.len(),
            m == lit@.len(),
            forall|k: int| 0 <= k < j ==> s@[i + k] == lit@[k],
        decreases m - j,
    {
        if s.get_char(i + j) != lit.get_char(j) {
            proof {
                assert(s@.subrange(i as int, i + lit@.len())[j as int] == s@[i + j as int]);
            }
            return false;
        }
        j = j + 1;
    }
    proof {
        assert(s@.subrange(i as int, i + lit@.len()) =~= lit@);
    }
    true
}

/// The digit run's value never falls below the accumulator it started from,
/// and its end never moves left.
proof fn lemma_parse_num_rec_ge(s: Seq<char>, i: int, acc: int)
    requires
        acc >= 0,
    ensures
        parse_num_rec(s, i, acc).0 >= acc,
        parse_num_rec(s, i, acc).1 >= i,
        parse_num_rec(s, i, acc).1 <= s.len() || parse_num_rec(s, i, acc).1 == i,
    decreases s.len() - i,
{
    if 0 <= i < s.len() && is_digit(s[i]) {
        lemma_parse_num_rec_ge(s, i + 1, acc * 10 + digit_val(s[i]));
    }
}

fn parse_num_at(s: &str, i: usize) -> (r: Option<(u32, usize)>)
    ensures
        r matches Some(t) ==> parse_num(s@, i as int) == Some((t.0 as int, t.1 as int)) && i < t.1
            <= s@.len(),
        r is None ==> parse_num(s@, i as int) is None,
{
    let n = s.unicode_len();
    if i >= n {
        return None;
    }
    let c0 = s.get_char(i) as u32;
    if !(48 <= c0 && c0 <= 57) {
        return None;
    }
    let mut idx: usize = i;
    let mut acc: u64 = 0;
    loop
        invariant_except_break
            i <= idx <= n,
            n == s@.len(),
            acc <= u32::MAX,
            i < n && is_digit(s@[i as int]),
            parse_num_rec(s@, i as int, 0) == parse_num_rec(s@, idx as int, acc as int),
        ensures
            i < idx <= n,
            acc <= u32::MAX,
            i < n && is_digit(s@[i as int]),
            parse_num_rec(s@, i as int, 0) == (acc as int, idx as int),
        decreases n - idx,
    {
        if idx >= n {
            break ;
        }
        let c = s.get_char(idx) as u32;
        if !(48 <= c && c <= 57) {
            break ;
        }
        proof {
            assert(is_digit(s@[idx as int]));
        }
        acc = acc * 10 + ((c - 48) as u64);
        if acc > u32::MAX as u64 {
            proof {
                lemma_parse_num_rec_ge(s@, idx + 1, acc as int);
            }
            return None;
        }
        idx = idx + 1;
    }
    Some((acc as u32, idx))
}

fn hex_value(c: char) -> (r: Option<u32>)
    ensures
        r is Some <==> is_hex(c),
        r matches Some(v) ==> v == hex_val(c) && v < 16,
{
    let b = c as u32;
    if 48 <= b && b <= 57 {
        Some(b - 48)
    } else if 97 <= b && b <= 102 {
        Some(b - 87)
    } else {
        None
    }
}

fn parse_string_at(s: &str, i: usize) -> (r: Option<(String, usize)>)
    ensures
        r matches Some(t) ==> parse_str_rec(s@, i as int) == Some((t.0@, t.1 as int)) && i < t.1
            <= s@.len(),
        r is None ==> parse_str_rec(s@, i as int) is None,
{
    let n = s.unicode_len();
    if i >= n {
        return None;
    }
    let mut idx: usize = i;
    let mut built = String::new();
    loop
        invariant_except_break
            i <= idx <= n,
            n == s@.len(),
            parse_str_rec(s@, i as int) == (match parse_str_rec(s@, idx as int) {
                Some(t) => Some((built@ + t.0, t.1)),
                None => None,
            }),
        decreases n - idx,
    {
        if idx >= n {
            return None;
        }
        let c = s.get_char(idx);
        if c == '"' {
            proof {
                assert(built@ + Seq::<char>::empty() =~= built@);
            }
            return Some((built, idx + 1));
        }
        let ghost built_pre = built@;
        if c == '\\' {
            if idx + 1 < n {
                let e = s.get_char(idx + 1);
                if e == '"' || e == '\\' {
                    string_push_char(&mut built, e);
                    proof {
                        if parse_str_rec(s@, idx + 2) is Some {
                            let t = parse_str_rec(s@, idx + 2)->Some_0;
                            assert(built_pre + (seq![e] + t.0) =~= built@ + t.0);
                        }
                    }
                    idx = idx + 2;
                } else if n - idx > 5 && e == 'u' && s.get_char(idx + 2) == '0' && s.get_char(
                    idx + 3,
                ) == '0' {
                    let h1 = match hex_value(s.get_char(idx + 4)) {
                        Some(v) => v,
                        None => {
                            return None;
                        },
                    };
                    let h2 = match hex_value(s.get_char(idx + 5)) {
                        Some(v) => v,
                        None => {
                            return None;
                        },
                    };
                    let decoded = ((h1 * 16 + h2) as u8) as char;
                    string_push_char(&mut built, decoded);
                    proof {
                        if parse_str_rec(s@, idx + 6) is Some {
                            let t = parse_str_rec(s@, idx + 6)->Some_0;
                            assert(built_pre + (seq![decoded] + t.0) =~= built@ + t.0);
                        }
                    }
                    idx = idx + 6;
                } else {
                    return None;
                }
            } else {
                return None;
            }
        } else {
            string_push_char(&mut built, c);
            proof {
                if parse_str_rec(s@, idx + 1) is Some {
                    let t = parse_str_rec(s@, idx + 1)->Some_0;
                    assert(built_pre + (seq![c] + t.0) =~= built@ + t.0);
                }
            }
            idx = idx + 1;
        }
    }
}

fn parse_square_at(s: &str, i: usize) -> (r: Option<(AtlasSquare, usize)>)
    ensures
        r matches Some(t) ==> parse_square(s@, i as int) == Some((t.0@, t.1 as int)) && i < t.1
            <= s@.len(),
        r is None ==> parse_square(s@, i as int) is None,
{
    let n = s.unicode_len();
    if !lit_at(s, i, "{\"name\":\"") {
        return None;
    }
    let j = i + "{\"name\":\"".unicode_len();
    let (name, j) = match parse_string_at(s, j) {
        Some(t) => t,
        None => {
            return None;
        },
    };
    if !lit_at(s, j, ",\"x\":") {
        return None;
    }
    let j = j + ",\"x\":".unicode_len();
    let (x, j) = match parse_num_at(s, j) {
        Some(t) => t,
        None => {
            return None;
        },
    };
    if !lit_at(s, j, ",\"y\":") {
        return None;
    }
    let j = j + ",\"y\":".unicode_len();
    let (y, j) = match parse_num_at(s, j) {
        Some(t) => t,
        None => {
            return None;
        },
    };
    if !lit_at(s, j, "}") {
        return None;
    }
    proof {
        reveal_strlit("}");
    }
    Some((AtlasSquare { name, x, y }, j + 1))
}

/// A position where a square record stands is not where the list ends.
proof fn lemma_square_not_bracket(s: Seq<char>, i: int)
    requires
        parse_square(s, i) is Some,
    ensures
        !spec_match_lit(s, i, "]"@),
{
    reveal_strlit("{\"name\":\"");
    reveal_strlit("]");
    let l1 = "{\"name\":\""@;
    assert(s.subrange(i, i + l1.len())[0] == s[i]);
    assert(s[i] == '{');
    if spec_match_lit(s, i, "]"@) {
        assert(s.subrange(i, i + 1)[0] == s[i]);
    }
}

#[verifier::loop_isolation(false)]
fn parse_squares_at(s: &str, i: usize) -> (r: Option<(Vec<AtlasSquare>, usize)>)
    ensures
        r matches Some(t) ==> parse_squares_rec(s@, i as int, (s@.len() + 1) as nat) == Some(
            (t.0.deep_view(), t.1 as int),
        ) && t.1 <= s@.len(),
        r is None ==> parse_squares_rec(s@, i as int, (s@.len() + 1) as nat) is None,
{
    let n = s.unicode_len();
    let ghost f0 = (s@.len() + 1) as nat;
    if lit_at(s, i, "]") {
        let empty: Vec<AtlasSquare> = Vec::new();
        proof {
            reveal_strlit("]");
            assert(empty.deep_view() =~= Seq::<SquareModel>::empty());
        }
        return Some((empty, i + 1));
    }
    if i > n {
        return None;
    }
    let mut out: Vec<AtlasSquare> = Vec::new();
    let mut idx: usize = i;
    let ghost mut f: nat = f0;
    proof {
        assert(out.deep_view() =~= Seq::<SquareModel>::empty());
        if parse_squares_rec(s@, i as int, f0) is Some {
            let t = parse_squares_rec(s@, i as int, f0)->Some_0;
            assert(out.deep_view() + t.0 =~= t.0);
        }
    }
    loop
        invariant
            i <= idx <= n,
            n == s@.len(),
            f >= n - idx + 1,
            f <= f0,
            out.deep_view().len() == 0 ==> idx == i && f == f0 && !spec_match_lit(
                s@,
                i as int,
                "]"@,
            ),
            parse_squares_rec(s@, i as int, f0) == (match parse_squares_rec(s@, idx as int, f) {
                Some(t) => if out.deep_view().len() == 0 || t.0.len() > 0 {
                    Some((out.deep_view() + t.0, t.1))
                } else {
                    None
                },
                None => None,
            }),
        decreases n - idx,
    {
        let ghost out_pre = out.deep_view();
        let (sq, j) = match parse_square_at(s, idx) {
            Some(t) => t,
            None => {
                return None;
            },
        };
        proof {
            lemma_square_not_bracket(s@, idx as int);
            reveal_strlit("]");
            reveal_strlit(",");
        }
        out.push(sq);
        proof {
            assert(out.deep_view() =~= out_pre.push(sq@));
        }
        if lit_at(s, j, ",") {
            proof {
                reveal_strlit(",");
                if parse_squares_rec(s@, j + 1, (f - 1) as nat) is Some {
                    let t = parse_squares_rec(s@, j + 1, (f - 1) as nat)->Some_0;
                    assert(out_pre + (seq![sq@] + t.0) =~= out.deep_view() + t.0);
                }
            }
            idx = j + 1;
            proof {
                f = (f - 1) as nat;
            }
        } else if lit_at(s, j, "]") {
            proof {
                reveal_strlit("]");
                assert(out_pre + seq![sq@] =~= out.deep_view());
                assert(parse_squares_rec(s@, i as int, f0) == Some((out.deep_view(), j + 1)));
            }
            return Some((out, j + 1));
        } else {
            return None;
        }
    }
}

fn parse_tail_at(s: &str, i: usize) -> (r: Option<(u32, Vec<AtlasSquare>)>)
    ensures
        r matches Some(t) ==> parse_atlas_tail(s@, i as int) == Some((t.0, t.1.deep_view())),
        r is None ==> parse_atlas_tail(s@, i as int) is None,
{
    let n = s.unicode_len();
    let (side, j) = match parse_num_at(s, i) {
        Some(t) => t,
        None => {
            return None;
        },
    };
    if !lit_at(s, j, ",\"squares\":[") {
        return None;
    }
    let j = j + ",\"squares\":[".unicode_len();
    let (squares, j) = match parse_squares_at(s, j) {
        Some(t) => t,
        None => {
            return None;
        },
    };
    if !lit_at(s, j, "}") {
        return None;
    }
    proof {
        reveal_strlit("}");
    }
    if j + 1 != n {
        return None;
    }
    Some((side, squares))
}

impl Atlas {
    /// Deserializes an atlas from its stored text form: the parse either
    /// yields the one atlas the text denotes, or fails because the text is
    /// not a well-formed atlas record.
    pub fn load(s: &str) -> (r: Result<Atlas, PersistenceError>)
        ensures
            r matches Ok(a) ==> parse_atlas(s@) == Some(a@),
            r is Err <==> parse_atlas(s@) is None,
    {
        let _n = s.unicode_len();
        if lit_at(s, 0, "{\"pack_name\":\"") {
            let j = "{\"pack_name\":\"".unicode_len();
            let (label, j) = match parse_string_at(s, j) {
                Some(t) => t,
                None => {
                    return Err(PersistenceError);
                },
            };
            if !lit_at(s, j, ",\"side_length\":") {
                return Err(PersistenceError);
            }
            let j = j + ",\"side_length\":".unicode_len();
            match parse_tail_at(s, j) {
                Some((side, squares)) => Ok(
                    Atlas { pack_name: Some(label), side_length: side, squares },
                ),
                None => Err(PersistenceError),
            }
        } else if lit_at(s, 0, "{\"side_length\":") {
            let j = "{\"side_length\":".unicode_len();
            match parse_tail_at(s, j) {
                Some((side, squares)) => Ok(Atlas { pack_name: None, side_length: side, squares }),
                None => Err(PersistenceError),
            }
        } else {
            Err(PersistenceError)
        }
    }
}

} // verus!
