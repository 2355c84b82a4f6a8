//! The text encoding of payload values: a compact JSON form, written and
//! read entirely over byte sequences.
//!
//! The writer emits ASCII bytes only: every character outside the printable
//! ASCII range is escaped with `\uXXXX` (a surrogate pair for characters
//! beyond the basic plane). The reader accepts more: the usual JSON
//! whitespace, the standard short escapes, and raw UTF-8 sequences, so it
//! reads back everything the writer emits and the output of producers
//! that write non-ASCII characters or non-integer numbers verbatim.

use vstd::prelude::*;
use vstd::arithmetic::div_mod::{lemma_fundamental_div_mod, lemma_div_denominator, lemma_small_mod};
use crate::value::{Val, JsonValue, val_of, vals_of, members_of};
use vstd::string::StrSliceExecFns;

verus! {

/// JSON whitespace: space, tab, line feed, carriage return.
pub open spec fn is_ws(b: u8) -> bool {
    b == 32 || b == 9 || b == 10 || b == 13
}

/// Index of the first non-whitespace byte at or after `i`.
pub open spec fn skip_ws(s: Seq<u8>, i: int) -> int
    decreases s.len() - i,
{
    if 0 <= i < s.len() && is_ws(s[i]) {
        skip_ws(s, i + 1)
    } else {
        i
    }
}

pub proof fn lemma_skip_ws_bounds(s: Seq<u8>, i: int)
    requires
        0 <= i <= s.len(),
    ensures
        i <= skip_ws(s, i) <= s.len(),
    decreases s.len() - i,
{
    if i < s.len() && is_ws(s[i]) {
        lemma_skip_ws_bounds(s, i + 1);
    }
}

// ---------------------------------------------------------------------------
// Writing
// ---------------------------------------------------------------------------

/// Decimal digits of a non-negative integer, most significant first.
pub open spec fn ser_nat(n: int) -> Seq<u8>
    decreases n,
{
    if n < 10 {
        seq![(48 + (if n >= 0 { n } else { 0 })) as u8]
    } else {
        ser_nat(n / 10) + seq![(48 + n % 10) as u8]
    }
}

/// Decimal rendering of an integer, with a leading minus sign if negative.
pub open spec fn ser_int(n: int) -> Seq<u8> {
    if n < 0 {
        seq![45u8] + ser_nat(-n)
    } else {
        ser_nat(n)
    }
}

/// One lowercase hexadecimal digit.
pub open spec fn hex_digit(d: int) -> u8 {
    if d < 10 {
        (48 + d) as u8
    } else {
        (87 + d) as u8
    }
}

/// Four hexadecimal digits, most significant first.
pub open spec fn hex4(n: int) -> Seq<u8> {
    seq![
        hex_digit(n / 4096 % 16),
        hex_digit(n / 256 % 16),
        hex_digit(n / 16 % 16),
        hex_digit(n % 16),
    ]
}

/// The bytes a single character contributes inside a string literal.
/// Quotes and backslashes take a two-byte escape, other printable ASCII
/// stands for itself, and everything else becomes `\uXXXX` escapes.
pub open spec fn esc_char(c: char) -> Seq<u8> {
    let u = c as u32;
    if u == 34 {
        seq![92u8, 34u8]
    } else if u == 92 {
        seq![92u8, 92u8]
    } else if 32 <= u < 127 {
        seq![u as u8]
    } else if u < 0x10000 {
        seq![92u8, 117u8] + hex4(u as int)
    } else {
        seq![92u8, 117u8] + hex4(0xD800 + (u - 0x10000) as int / 0x400)
            + seq![92u8, 117u8] + hex4(0xDC00 + (u - 0x10000) as int % 0x400)
    }
}

/// The bytes of a string body, character by character.
pub open spec fn ser_str_chars(cs: Seq<char>) -> Seq<u8>
    decreases cs.len(),
{
    if cs.len() == 0 {
        Seq::empty()
    } else {
        esc_char(cs[0]) + ser_str_chars(cs.drop_first())
    }
}

/// The compact text rendering of a value.
pub open spec fn ser_val(v: Val) -> Seq<u8>
    decreases v, 1int,
    via ser_val_decreases
{
    match v {
        Val::Null => seq![110u8, 117u8, 108u8, 108u8],
        Val::Bool(b) => if b {
            seq![116u8, 114u8, 117u8, 101u8]
        } else {
            seq![102u8, 97u8, 108u8, 115u8, 101u8]
        },
        Val::Int(n) => ser_int(n),
        Val::Num(bs) => bs,
        Val::Str(cs) => seq![34u8] + ser_str_chars(cs) + seq![34u8],
        Val::Arr(elems) => if elems.len() == 0 {
            seq![91u8, 93u8]
        } else {
            seq![91u8] + ser_elems(elems) + seq![93u8]
        },
        Val::Obj(ms) => if ms.len() == 0 {
            seq![123u8, 125u8]
        } else {
            seq![123u8] + ser_members(ms) + seq![125u8]
        },
    }
}

/// The rendering of a non-empty element list, elements separated by commas.
pub open spec fn ser_elems(elems: Seq<Val>) -> Seq<u8>
    decreases elems, 2int,
    via ser_elems_decreases
{
    if elems.len() <= 1 {
        if elems.len() == 1 {
            ser_val(elems[0])
        } else {
            Seq::empty()
        }
    } else {
        ser_val(elems[0]) + seq![44u8] + ser_elems(elems.drop_first())
    }
}

/// The rendering of a non-empty member list: quoted key, colon, value,
/// members separated by commas.
pub open spec fn ser_members(ms: Seq<(Seq<char>, Val)>) -> Seq<u8>
    decreases ms, 2int,
    via ser_members_decreases
{
    if ms.len() == 0 {
        Seq::empty()
    } else {
        let head = seq![34u8] + ser_str_chars(ms[0].0) + seq![34u8, 58u8] + ser_val(ms[0].1);
        if ms.len() == 1 {
            head
        } else {
            head + seq![44u8] + ser_members(ms.drop_first())
        }
    }
}

#[via_fn]
proof fn ser_val_decreases(v: Val) {
}

#[via_fn]
proof fn ser_elems_decreases(elems: Seq<Val>) {
    broadcast use vstd::seq::axiom_seq_index_decreases;
    broadcast use vstd::seq::axiom_seq_subrange_decreases;

}

#[via_fn]
proof fn ser_members_decreases(ms: Seq<(Seq<char>, Val)>) {
    broadcast use vstd::seq::axiom_seq_index_decreases;
    broadcast use vstd::seq::axiom_seq_subrange_decreases;

}

// ---------------------------------------------------------------------------
// Reading
// ---------------------------------------------------------------------------

/// Index of the first non-digit byte at or after `i`.
pub open spec fn digits_end(s: Seq<u8>, i: int) -> int
    decreases s.len() - i,
{
    if 0 <= i < s.len() && 48 <= s[i] <= 57 {
        digits_end(s, i + 1)
    } else {
        i
    }
}

/// The value of a run of decimal digit bytes.
pub open spec fn digits_val(ds: Seq<u8>) -> int
    decreases ds.len(),
{
    if ds.len() == 0 {
        0
    } else {
        digits_val(ds.drop_last()) * 10 + (ds.last() - 48)
    }
}

/// The value of a run of hexadecimal digit bytes, or -1 on a non-digit.
pub open spec fn hex_val(ds: Seq<u8>) -> int
    decreases ds.len(),
{
    if ds.len() == 0 {
        0
    } else {
        let d = hex_byte_val(ds.last());
        if d < 0 || hex_val(ds.drop_last()) < 0 {
            -1
        } else {
            hex_val(ds.drop_last()) * 16 + d
        }
    }
}

/// The value of one hexadecimal digit byte, or -1 if it is not one.
pub open spec fn hex_byte_val(b: u8) -> int {
    if 48 <= b <= 57 {
        b - 48
    } else if 97 <= b <= 102 {
        b - 87
    } else if 65 <= b <= 70 {
        b - 55
    } else {
        -1
    }
}

/// Reads a number at `i` (first byte is a digit or a minus sign): an
/// optional sign, an integer part without a spurious leading zero, an
/// optional fraction and an optional exponent. A plain integer within
/// the 64-bit signed range becomes an integer; anything else — fraction,
/// exponent, or a wider magnitude — keeps its exact text.
pub open spec fn parse_number(s: Seq<u8>, i: int) -> Option<(Val, int)> {
    let neg = 0 <= i < s.len() && s[i] == 45;
    let d0 = if neg { i + 1 } else { i };
    let dend = digits_end(s, d0);
    if dend <= d0 {
        None
    } else if dend - d0 > 1 && s[d0] == 48 {
        None
    } else {
        let has_frac = dend < s.len() && s[dend] == 46;
        let fend = if has_frac { digits_end(s, dend + 1) } else { dend };
        if has_frac && fend <= dend + 1 {
            None
        } else {
            let has_exp = fend < s.len() && (s[fend] == 101 || s[fend] == 69);
            let epos = if has_exp && fend + 1 < s.len() && (s[fend + 1] == 43 || s[fend + 1]
                == 45) {
                fend + 2
            } else {
                fend + 1
            };
            let eend = if has_exp { digits_end(s, epos) } else { fend };
            if has_exp && eend <= epos {
                None
            } else {
                let end = if has_exp { eend } else { fend };
                if !has_frac && !has_exp {
                    let mag = digits_val(s.subrange(d0, dend));
                    let limit = if neg { 0x8000_0000_0000_0000int } else {
                        0x7fff_ffff_ffff_ffffint
                    };
                    if mag > limit {
                        Some((Val::Num(s.subrange(i, end)), end))
                    } else {
                        Some((Val::Int(if neg { -mag } else { mag }), end))
                    }
                } else {
                    Some((Val::Num(s.subrange(i, end)), end))
                }
            }
        }
    }
}

/// A well-formed number lexeme: bytes that read as one number covering
/// them completely, in the verbatim (non-integer) form.
pub open spec fn num_lexeme(s: Seq<u8>) -> bool {
    parse_number(s, 0) == Some((Val::Num(s), s.len() as int))
}

/// A byte that cannot continue a number: anything but a digit, a dot, or
/// an exponent letter.
pub open spec fn num_break(b: u8) -> bool {
    !(48 <= b <= 57) && b != 46 && b != 101 && b != 69
}

/// Reads the body of a string literal starting just after the opening
/// quote; yields the characters and the index just after the closing
/// quote. Accepts the standard JSON escapes, `\uXXXX` escapes with
/// surrogate pairs, and printable ASCII; anything else is malformed.
pub open spec fn parse_string(s: Seq<u8>, i: int) -> Option<(Seq<char>, int)>
    decreases s.len() - i,
{
    if !(0 <= i < s.len()) {
        None
    } else {
        let b = s[i];
        if b == 34 {
            Some((Seq::empty(), i + 1))
        } else if b == 92 {
            if i + 1 >= s.len() {
                None
            } else {
                let e = s[i + 1];
                if e == 117 {
                    // \uXXXX
                    if i + 6 > s.len() {
                        None
                    } else {
                        let u = hex_val(s.subrange(i + 2, i + 6));
                        if u < 0 {
                            None
                        } else if 0xD800 <= u < 0xDC00 {
                            // high surrogate: a low surrogate escape must follow
                            if i + 12 > s.len() || s[i + 6] != 92 || s[i + 7] != 117 {
                                None
                            } else {
                                let u2 = hex_val(s.subrange(i + 8, i + 12));
                                if !(0xDC00 <= u2 < 0xE000) {
                                    None
                                } else {
                                    let c = (0x10000 + (u - 0xD800) * 0x400 + (u2 - 0xDC00)) as u32 as char;
                                    match parse_string(s, i + 12) {
                                        Some((cs, j)) => Some((seq![c] + cs, j)),
                                        None => None,
                                    }
                                }
                            }
                        } else if 0xDC00 <= u < 0xE000 {
                            None
                        } else {
                            let c = u as u32 as char;
                            match parse_string(s, i + 6) {
                                Some((cs, j)) => Some((seq![c] + cs, j)),
                                None => None,
                            }
                        }
                    }
                } else {
                    let c: char = if e == 34 {
                        '"'
                    } else if e == 92 {
                        '\\'
                    } else if e == 47 {
                        '/'
                    } else if e == 110 {
                        '\n'
                    } else if e == 116 {
                        '\t'
                    } else if e == 114 {
                        '\r'
                    } else if e == 98 {
                        8u8 as char
                    } else if e == 102 {
                        12u8 as char
                    } else {
                        ' '
                    };
                    let known = e == 34 || e == 92 || e == 47 || e == 110 || e == 116
                        || e == 114 || e == 98 || e == 102;
                    if !known {
                        None
                    } else {
                        match parse_string(s, i + 2) {
                            Some((cs, j)) => Some((seq![c] + cs, j)),
                            None => None,
                        }
                    }
                }
            }
        } else if 32 <= b < 127 {
            let c = b as char;
            match parse_string(s, i + 1) {
                Some((cs, j)) => Some((seq![c] + cs, j)),
                None => None,
            }
        } else if b >= 128 {
            // a raw UTF-8 sequence, as other producers write non-ASCII
            // characters; overlong forms and surrogates are malformed
            if vstd::utf8::is_leading_byte_width_2(b) && i + 2 <= s.len()
                && vstd::utf8::is_continuation_byte(s[i + 1]) {
                let u = vstd::utf8::codepoint_width_2(b, s[i + 1]);
                if u < 0x80 {
                    None
                } else {
                    let c = u as char;
                    match parse_string(s, i + 2) {
                        Some((cs, j)) => Some((seq![c] + cs, j)),
                        None => None,
                    }
                }
            } else if vstd::utf8::is_leading_byte_width_3(b) && i + 3 <= s.len()
                && vstd::utf8::is_continuation_byte(s[i + 1])
                && vstd::utf8::is_continuation_byte(s[i + 2]) {
                let u = vstd::utf8::codepoint_width_3(b, s[i + 1], s[i + 2]);
                if u < 0x800 || (0xD800 <= u && u <= 0xDFFF) {
                    None
                } else {
                    let c = u as char;
                    match parse_string(s, i + 3) {
                        Some((cs, j)) => Some((seq![c] + cs, j)),
                        None => None,
                    }
                }
            } else if vstd::utf8::is_leading_byte_width_4(b) && i + 4 <= s.len()
                && vstd::utf8::is_continuation_byte(s[i + 1])
                && vstd::utf8::is_continuation_byte(s[i + 2])
                && vstd::utf8::is_continuation_byte(s[i + 3]) {
                let u = vstd::utf8::codepoint_width_4(b, s[i + 1], s[i + 2], s[i + 3]);
                if u < 0x10000 || u > 0x10FFFF {
                    None
                } else {
                    let c = u as char;
                    match parse_string(s, i + 4) {
                        Some((cs, j)) => Some((seq![c] + cs, j)),
                        None => None,
                    }
                }
            } else {
                None
            }
        } else {
            None
        }
    }
}

/// Reads one value at `i`, whitespace allowed in front.
pub open spec fn parse_value(s: Seq<u8>, i: int) -> Option<(Val, int)>
    decreases s.len() - i, 1int,
    via parse_value_decreases
{
    let j = skip_ws(s, i);
    if j < i || j >= s.len() {
        None
    } else {
        let b = s[j];
        if b == 110 {
            if j + 4 <= s.len() && s[j + 1] == 117 && s[j + 2] == 108 && s[j + 3] == 108 {
                Some((Val::Null, j + 4))
            } else {
                None
            }
        } else if b == 116 {
            if j + 4 <= s.len() && s[j + 1] == 114 && s[j + 2] == 117 && s[j + 3] == 101 {
                Some((Val::Bool(true), j + 4))
            } else {
                None
            }
        } else if b == 102 {
            if j + 5 <= s.len() && s[j + 1] == 97 && s[j + 2] == 108 && s[j + 3] == 115
                && s[j + 4] == 101 {
                Some((Val::Bool(false), j + 5))
            } else {
                None
            }
        } else if b == 34 {
            match parse_string(s, j + 1) {
                Some((cs, k)) => Some((Val::Str(cs), k)),
                None => None,
            }
        } else if b == 91 {
            let k = skip_ws(s, j + 1);
            if j + 1 <= k < s.len() && s[k] == 93 {
                Some((Val::Arr(Seq::empty()), k + 1))
            } else {
                match parse_elems(s, j + 1) {
                    Some((vs, k2)) => Some((Val::Arr(vs), k2)),
                    None => None,
                }
            }
        } else if b == 123 {
            let k = skip_ws(s, j + 1);
            if j + 1 <= k < s.len() && s[k] == 125 {
                Some((Val::Obj(Seq::empty()), k + 1))
            } else {
                match parse_members(s, j + 1) {
                    Some((ms, k2)) => Some((Val::Obj(ms), k2)),
                    None => None,
                }
            }
        } else if b == 45 || (48 <= b && b <= 57) {
            parse_number(s, j)
        } else {
            None
        }
    }
}

/// Reads the elements of a non-empty array, starting just after `[`;
/// yields them and the index just after `]`.
pub open spec fn parse_elems(s: Seq<u8>, i: int) -> Option<(Seq<Val>, int)>
    decreases s.len() - i, 2int,
    via parse_elems_decreases
{
    match parse_value(s, i) {
        Some((v, i2)) => {
            if i2 <= i {
                None
            } else {
                let k = skip_ws(s, i2);
                if k < i2 {
                    None
                } else if k < s.len() && s[k] == 44 {
                    match parse_elems(s, k + 1) {
                        Some((vs, i3)) => Some((seq![v] + vs, i3)),
                        None => None,
                    }
                } else if k < s.len() && s[k] == 93 {
                    Some((seq![v], k + 1))
                } else {
                    None
                }
            }
        }
        None => None,
    }
}

/// Reads the members of a non-empty object, starting just after `{`;
/// yields them and the index just after `}`.
pub open spec fn parse_members(s: Seq<u8>, i: int) -> Option<(Seq<(Seq<char>, Val)>, int)>
    decreases s.len() - i, 2int,
    via parse_members_decreases
{
    let j = skip_ws(s, i);
    if j < i {
        None
    } else if j < s.len() && s[j] == 34 {
        match parse_string(s, j + 1) {
            Some((key, i2)) => {
                if i2 <= j {
                    None
                } else {
                    let k = skip_ws(s, i2);
                    if k < i2 {
                        None
                    } else if k < s.len() && s[k] == 58 {
                        match parse_value(s, k + 1) {
                            Some((v, i3)) => {
                                if i3 <= k {
                                    None
                                } else {
                                    let k2 = skip_ws(s, i3);
                                    if k2 < i3 {
                                        None
                                    } else if k2 < s.len() && s[k2] == 44 {
                                        match parse_members(s, k2 + 1) {
                                            Some((ms, i4)) => Some((seq![(key, v)] + ms, i4)),
                                            None => None,
                                        }
                                    } else if k2 < s.len() && s[k2] == 125 {
                                        Some((seq![(key, v)], k2 + 1))
                                    } else {
                                        None
                                    }
                                }
                            }
                            None => None,
                        }
                    } else {
                        None
                    }
                }
            }
            None => None,
        }
    } else {
        None
    }
}

#[via_fn]
proof fn parse_value_decreases(s: Seq<u8>, i: int) {
    lemma_skip_ws_helper(s, i);
}

#[via_fn]
proof fn parse_elems_decreases(s: Seq<u8>, i: int) {
}

#[via_fn]
proof fn parse_members_decreases(s: Seq<u8>, i: int) {
}

proof fn lemma_skip_ws_helper(s: Seq<u8>, i: int)
    ensures
        0 <= i <= s.len() ==> i <= skip_ws(s, i) <= s.len(),
{
    if 0 <= i <= s.len() {
        lemma_skip_ws_bounds(s, i);
    }
}

// ---------------------------------------------------------------------------
// Round trip: reading back what was written
// ---------------------------------------------------------------------------

/// Values whose integers fit the 64-bit signed range; exactly the values
/// an executable payload can hold.
pub open spec fn val_wf(v: Val) -> bool
    decreases v, 1int,
{
    match v {
        Val::Null => true,
        Val::Bool(_) => true,
        Val::Int(n) => -0x8000_0000_0000_0000 <= n <= 0x7fff_ffff_ffff_ffff,
        Val::Num(bs) => num_lexeme(bs),
        Val::Str(_) => true,
        Val::Arr(elems) => arr_wf(elems),
        Val::Obj(ms) => obj_wf(ms),
    }
}

pub open spec fn arr_wf(elems: Seq<Val>) -> bool
    decreases elems, 2int,
    via arr_wf_decreases
{
    elems.len() == 0 || (val_wf(elems[0]) && arr_wf(elems.drop_first()))
}

pub open spec fn obj_wf(ms: Seq<(Seq<char>, Val)>) -> bool
    decreases ms, 2int,
    via obj_wf_decreases
{
    ms.len() == 0 || (val_wf(ms[0].1) && obj_wf(ms.drop_first()))
}

#[via_fn]
proof fn arr_wf_decreases(elems: Seq<Val>) {
    broadcast use vstd::seq::axiom_seq_index_decreases;
    broadcast use vstd::seq::axiom_seq_subrange_decreases;

}

#[via_fn]
proof fn obj_wf_decreases(ms: Seq<(Seq<char>, Val)>) {
    broadcast use vstd::seq::axiom_seq_index_decreases;
    broadcast use vstd::seq::axiom_seq_subrange_decreases;

}

/// Establishes that a value models a well-formed mathematical value:
/// its integers come from 64-bit words, and its number texts are
/// well-formed lexemes by construction. A pure traversal of the tree.
pub fn confirm_val_wf(v: &JsonValue)
    ensures
        val_wf(val_of(v)),
    decreases val_of(v),
{
    match v {
        JsonValue::Num(nl) => {
            nl.check();
        }
        JsonValue::Array(a) => {
            proof {
                crate::value::lemma_vals_of_index(a@);
            }
            let n = a.len();
            let mut k: usize = 0;
            while k < n
                invariant
                    val_of(v) == Val::Arr(vals_of(a@)),
                    n == a@.len(),
                    k <= n,
                    vals_of(a@).len() == n,
                    forall|j: int| 0 <= j < n ==> vals_of(a@)[j] == val_of(&a@[j]),
                    forall|j: int| 0 <= j < k ==> val_wf(#[trigger] vals_of(a@)[j]),
                decreases n - k,
            {
                proof {
                    let gv = val_of(v);
                    let es = vals_of(a@);
                    assert(decreases_to!(gv => gv->Arr_0));
                    assert(decreases_to!(es => es[k as int]));
                    assert(es[k as int] == val_of(&a@[k as int]));
                    assert(decreases_to!(gv => val_of(&a@[k as int])));
                }
                confirm_val_wf(&a[k]);
                k = k + 1;
            }
            proof {
                lemma_arr_wf_of_pointwise(vals_of(a@));
            }
        }
        JsonValue::Object(o) => {
            proof {
                crate::value::lemma_members_of_index(o@);
            }
            let n = o.len();
            let mut k: usize = 0;
            while k < n
                invariant
                    val_of(v) == Val::Obj(members_of(o@)),
                    n == o@.len(),
                    k <= n,
                    members_of(o@).len() == n,
                    forall|j: int| 0 <= j < n ==> #[trigger] members_of(o@)[j] == (o@[j].0@,
                        val_of(&o@[j].1)),
                    forall|j: int| 0 <= j < k ==> val_wf((#[trigger] members_of(o@)[j]).1),
                decreases n - k,
            {
                proof {
                    let gv = val_of(v);
                    let ms = members_of(o@);
                    assert(decreases_to!(gv => gv->Obj_0));
                    assert(decreases_to!(ms => ms[k as int]));
                    let pr = ms[k as int];
                    assert(decreases_to!(pr => pr.1));
                    assert(pr.1 == val_of(&o@[k as int].1));
                    assert(decreases_to!(gv => val_of(&o@[k as int].1)));
                }
                confirm_val_wf(&o[k].1);
                k = k + 1;
            }
            proof {
                lemma_obj_wf_of_pointwise(members_of(o@));
            }
        }
        _ => {}
    }
}

/// Element-wise well-formedness gives the list form the recursion uses.
proof fn lemma_arr_wf_of_pointwise(es: Seq<Val>)
    requires
        forall|j: int| 0 <= j < es.len() ==> val_wf(#[trigger] es[j]),
    ensures
        arr_wf(es),
    decreases es.len(),
{
    if es.len() > 0 {
        let t = es.drop_first();
        assert forall|j: int| 0 <= j < t.len() implies val_wf(#[trigger] t[j]) by {
            assert(t[j] == es[j + 1]);
        }
        lemma_arr_wf_of_pointwise(t);
    }
}

proof fn lemma_obj_wf_of_pointwise(ms: Seq<(Seq<char>, Val)>)
    requires
        forall|j: int| 0 <= j < ms.len() ==> val_wf((#[trigger] ms[j]).1),
    ensures
        obj_wf(ms),
    decreases ms.len(),
{
    if ms.len() > 0 {
        let t = ms.drop_first();
        assert forall|j: int| 0 <= j < t.len() implies val_wf((#[trigger] t[j]).1) by {
            assert(t[j] == ms[j + 1]);
        }
        lemma_obj_wf_of_pointwise(t);
    }
}

/// Splits a subrange equality against a concatenation into the equalities
/// of its two halves.
proof fn lemma_subrange_split(s: Seq<u8>, i: int, a: Seq<u8>, b: Seq<u8>)
    requires
        0 <= i,
        i + a.len() + b.len() <= s.len(),
        s.subrange(i, i + a.len() + b.len()) == a + b,
    ensures
        s.subrange(i, i + a.len()) == a,
        s.subrange(i + a.len(), i + a.len() + b.len()) == b,
{
    let whole = s.subrange(i, i + a.len() + b.len());
    assert(s.subrange(i, i + a.len()) =~= a) by {
        assert forall|k: int| 0 <= k < a.len() implies s.subrange(i, i + a.len())[k] == a[k] by {
            assert(whole[k] == (a + b)[k]);
        }
    }
    assert(s.subrange(i + a.len(), i + a.len() + b.len()) =~= b) by {
        assert forall|k: int| 0 <= k < b.len()
            implies s.subrange(i + a.len(), i + a.len() + b.len())[k] == b[k] by {
            assert(whole[a.len() + k] == (a + b)[a.len() + k]);
        }
    }
}

/// A matched region gives the bytes of the region one by one.
proof fn lemma_subrange_index(s: Seq<u8>, i: int, a: Seq<u8>, k: int)
    requires
        0 <= i,
        i + a.len() <= s.len(),
        s.subrange(i, i + a.len()) == a,
        0 <= k < a.len(),
    ensures
        s[i + k] == a[k],
{
    assert(s.subrange(i, i + a.len())[k] == a[k]);
}

/// The decimal rendering of a non-negative integer consists of digits,
/// has no leading zero in front of further digits, and reads back to the
/// same integer.
proof fn lemma_ser_nat(n: int)
    requires
        n >= 0,
    ensures
        ser_nat(n).len() >= 1,
        forall|k: int| 0 <= k < ser_nat(n).len() ==> 48 <= #[trigger] ser_nat(n)[k] <= 57,
        n >= 10 ==> ser_nat(n).len() >= 2,
        ser_nat(n).len() >= 2 ==> ser_nat(n)[0] != 48,
        digits_val(ser_nat(n)) == n,
    decreases n,
{
    if n < 10 {
        assert(ser_nat(n) =~= seq![(48 + n) as u8]);
        assert(ser_nat(n).drop_last() =~= Seq::<u8>::empty());
        assert(digits_val(ser_nat(n)) == digits_val(Seq::<u8>::empty()) * 10 + (ser_nat(n).last() - 48));
        assert(digits_val(ser_nat(n)) == n);
    } else {
        lemma_ser_nat(n / 10);
        let pre = ser_nat(n / 10);
        let d = (48 + n % 10) as u8;
        assert(ser_nat(n) == pre + seq![d]);
        assert(ser_nat(n).drop_last() =~= pre);
        assert(ser_nat(n).last() == d);
        assert(digits_val(ser_nat(n)) == digits_val(pre) * 10 + (d - 48));
        assert(n / 10 >= 1);
        if pre.len() >= 2 {
            assert(ser_nat(n)[0] == pre[0]);
        } else {
            assert(pre[0] != 48) by {
                assert(digits_val(pre) == n / 10 >= 1);
                assert(pre.drop_last().len() == 0);
                assert(digits_val(pre) == pre.last() - 48);
            }
            assert(ser_nat(n)[0] == pre[0]);
        }
    }
}

/// In a region known to hold digits and then a non-digit (or the end),
/// the digit scan stops exactly at the boundary.
proof fn lemma_digits_end(s: Seq<u8>, d0: int, dend: int)
    requires
        0 <= d0 <= dend <= s.len(),
        forall|k: int| d0 <= k < dend ==> 48 <= #[trigger] s[k] <= 57,
        dend == s.len() || !(48 <= s[dend] <= 57),
    ensures
        digits_end(s, d0) == dend,
    decreases dend - d0,
{
    if d0 < dend {
        lemma_digits_end(s, d0 + 1, dend);
    }
}

/// What the digit scan finds: its bounds, that everything before the
/// stop is a digit, and that the stop byte (when there is one) is not.
proof fn lemma_digits_end_props(s: Seq<u8>, k: int)
    requires
        0 <= k <= s.len(),
    ensures
        k <= digits_end(s, k) <= s.len(),
        forall|j: int| k <= j < digits_end(s, k) ==> 48 <= #[trigger] s[j] <= 57,
        digits_end(s, k) < s.len() ==> !(48 <= s[digits_end(s, k)] <= 57),
    decreases s.len() - k,
{
    if k < s.len() && 48 <= s[k] <= 57 {
        lemma_digits_end_props(s, k + 1);
    }
}

/// The digit scan inside a window agrees with the scan of the whole,
/// offset by the window's start, as long as the byte after the window
/// (when the run reaches the window's end) is not a digit.
proof fn lemma_digits_end_window(s: Seq<u8>, a: int, b: int, k: int)
    requires
        0 <= a <= b <= s.len(),
        0 <= k <= b - a,
        digits_end(s.subrange(a, b), k) == b - a ==> b == s.len() || !(48 <= s[b] <= 57),
    ensures
        digits_end(s, a + k) == a + digits_end(s.subrange(a, b), k),
{
    let r = s.subrange(a, b);
    lemma_digits_end_props(r, k);
    let de = digits_end(r, k);
    assert forall|j: int| a + k <= j < a + de implies 48 <= #[trigger] s[j] <= 57 by {
        assert(r[j - a] == s[j]);
    }
    if de < r.len() {
        assert(s[a + de] == r[de]);
        lemma_digits_end(s, a + k, a + de);
    } else {
        lemma_digits_end(s, a + k, a + de);
    }
}

/// Reading a well-formed number lexeme at its position yields its
/// verbatim form and consumes exactly the lexeme, provided no byte that
/// could continue a number follows it.
proof fn lemma_parse_number_widen(bs: Seq<u8>, s: Seq<u8>, i: int)
    requires
        num_lexeme(bs),
        0 <= i,
        i + bs.len() <= s.len(),
        s.subrange(i, i + bs.len()) == bs,
        i + bs.len() == s.len() || num_break(s[i + bs.len()]),
    ensures
        parse_number(s, i) == Some((Val::Num(bs), i + bs.len())),
{
    let b = i + bs.len();
    assert forall|j: int| 0 <= j < bs.len() implies #[trigger] s[i + j] == bs[j] by {
        assert(s.subrange(i, b)[j] == bs[j]);
    }
    assert(bs.len() > 0) by {
        if bs.len() == 0 {
            assert(digits_end(bs, 0) == 0);
        }
    }
    let neg_b = bs[0] == 45;
    assert((0 <= i < s.len() && s[i] == 45) == neg_b);
    let d0b = if neg_b { 1int } else { 0int };
    let dendb = digits_end(bs, d0b);
    lemma_digits_end_props(bs, d0b);
    // the integer run transfers
    assert(dendb == bs.len() ==> b == s.len() || !(48 <= s[b] <= 57));
    lemma_digits_end_window(s, i, b, d0b);
    let dends = i + dendb;
    assert(digits_end(s, i + d0b) == dends);
    assert(dendb > d0b) by {
        if dendb <= d0b {
            assert(parse_number(bs, 0) is None);
        }
    }
    assert(!(dendb - d0b > 1 && bs[d0b] == 48)) by {
        if dendb - d0b > 1 && bs[d0b] == 48 {
            assert(parse_number(bs, 0) is None);
        }
    }
    assert(s[i + d0b] == bs[d0b]);
    // the fraction test and run transfer
    let has_frac_b = dendb < bs.len() && bs[dendb] == 46;
    let has_frac_s = dends < s.len() && s[dends] == 46;
    assert(has_frac_b == has_frac_s) by {
        if dendb < bs.len() {
            assert(s[dends] == bs[dendb]);
        }
    }
    let fendb = if has_frac_b { digits_end(bs, dendb + 1) } else { dendb };
    if has_frac_b {
        lemma_digits_end_props(bs, dendb + 1);
        lemma_digits_end_window(s, i, b, dendb + 1);
    }
    let fends = i + fendb;
    assert(digits_end(s, dends + 1) == fends || !has_frac_b);
    assert(!(has_frac_b && fendb <= dendb + 1)) by {
        if has_frac_b && fendb <= dendb + 1 {
            assert(parse_number(bs, 0) is None);
        }
    }
    // the exponent test, sign and run transfer
    let has_exp_b = fendb < bs.len() && (bs[fendb] == 101 || bs[fendb] == 69);
    let has_exp_s = fends < s.len() && (s[fends] == 101 || s[fends] == 69);
    assert(has_exp_b == has_exp_s) by {
        if fendb < bs.len() {
            assert(s[fends] == bs[fendb]);
        }
    }
    let eposb = if has_exp_b && fendb + 1 < bs.len() && (bs[fendb + 1] == 43 || bs[fendb + 1]
        == 45) {
        fendb + 2
    } else {
        fendb + 1
    };
    let eposs = if has_exp_s && fends + 1 < s.len() && (s[fends + 1] == 43 || s[fends + 1]
        == 45) {
        fends + 2
    } else {
        fends + 1
    };
    let eendb = if has_exp_b { digits_end(bs, eposb) } else { fendb };
    if has_exp_b {
        assert(eendb > eposb) by {
            if eendb <= eposb {
                assert(parse_number(bs, 0) is None);
            }
        }
        assert(eposb <= bs.len());
        assert(fendb + 1 < bs.len() ==> s[fends + 1] == bs[fendb + 1]);
        assert(fendb + 1 == bs.len() ==> fends + 1 == b);
        // a sign at the window's end cannot occur: the exponent then has
        // no digits inside the lexeme
        assert(eposs == i + eposb) by {
            if fendb + 1 == bs.len() {
                assert(digits_end(bs, eposb) <= bs.len());
            }
        }
        lemma_digits_end_props(bs, eposb);
        lemma_digits_end_window(s, i, b, eposb);
        assert(digits_end(s, eposs) == i + eendb);
    }
    let endb = if has_exp_b { eendb } else { fendb };
    assert(endb == bs.len()) by {
        assert(parse_number(bs, 0) == Some((Val::Num(bs), bs.len() as int)));
    }
    // the verbatim branch transfers: equal digit runs give equal
    // magnitudes, and the captured bytes are the lexeme itself
    if !has_frac_b && !has_exp_b {
        assert(bs.subrange(d0b, dendb) =~= s.subrange(i + d0b, dends));
        assert(bs.subrange(0, bs.len() as int) =~= bs);
    }
    assert(s.subrange(i, i + endb) =~= bs);
}

/// A number successfully read from a region forms, on its own, a
/// well-formed lexeme when the verbatim branch was taken.
#[verifier::rlimit(100)]
proof fn lemma_parse_number_narrow(s: Seq<u8>, i: int)
    requires
        0 <= i <= s.len(),
        parse_number(s, i) matches Some((v, end)) && v is Num,
    ensures
        parse_number(s, i) matches Some((v, end)) && i < end <= s.len() && num_lexeme(
            s.subrange(i, end)),
{
    let (v, end) = parse_number(s, i)->0;
    let neg = 0 <= i < s.len() && s[i] == 45;
    let d0 = if neg { i + 1 } else { i };
    let dend = digits_end(s, d0);
    lemma_digits_end_props(s, d0);
    let has_frac = dend < s.len() && s[dend] == 46;
    let fend = if has_frac { digits_end(s, dend + 1) } else { dend };
    if has_frac {
        lemma_digits_end_props(s, dend + 1);
    }
    let has_exp = fend < s.len() && (s[fend] == 101 || s[fend] == 69);
    let epos = if has_exp && fend + 1 < s.len() && (s[fend + 1] == 43 || s[fend + 1] == 45) {
        fend + 2
    } else {
        fend + 1
    };
    let eend = if has_exp { digits_end(s, epos) } else { fend };
    if has_exp {
        lemma_digits_end_props(s, epos);
    }
    assert(end == if has_exp { eend } else { fend });
    assert(i < end <= s.len());
    let r = s.subrange(i, end);
    assert forall|j: int| 0 <= j < r.len() implies #[trigger] r[j] == s[i + j] by {}
    // each digit run of the region ends inside it or at its end, so the
    // standalone scans agree with the region's
    assert(digits_end(r, d0 - i) == dend - i) by {
        lemma_region_run(s, i, end, d0, dend);
    }
    if has_frac {
        assert(r[dend - i] == s[dend]);
        assert(digits_end(r, dend + 1 - i) == fend - i) by {
            lemma_region_run(s, i, end, dend + 1, fend);
        }
    }
    if has_exp {
        assert(r[fend - i] == s[fend]);
        assert(fend + 1 < end ==> r[fend + 1 - i] == s[fend + 1]);
        assert(digits_end(r, epos - i) == eend - i) by {
            lemma_region_run(s, i, end, epos, eend);
        }
        assert(epos - i == if (r.len() > fend - i + 1 && (r[fend - i + 1] == 43 || r[fend - i
            + 1] == 45)) {
            fend - i + 2
        } else {
            fend - i + 1
        }) by {
            if fend + 1 >= end {
                assert(eend <= fend + 1);
            }
        }
    }
    if !has_frac && !has_exp {
        assert(r.subrange(d0 - i, dend - i) =~= s.subrange(d0, dend));
    }
    assert(r.subrange(0, r.len() as int) =~= r);
    assert(r.subrange(i - i, end - i) =~= r);
}

/// A digit run of the region, mapped into the region's own frame: the
/// run either stops inside the region or exactly at its end.
proof fn lemma_region_run(s: Seq<u8>, a: int, b: int, k: int, e: int)
    requires
        0 <= a <= k <= e <= b <= s.len(),
        e == digits_end(s, k),
    ensures
        digits_end(s.subrange(a, b), k - a) == e - a,
{
    let r = s.subrange(a, b);
    lemma_digits_end_props(s, k);
    assert forall|j: int| k - a <= j < e - a implies 48 <= #[trigger] r[j] <= 57 by {
        assert(r[j] == s[a + j]);
    }
    if e < b {
        assert(r[e - a] == s[e]);
        lemma_digits_end(r, k - a, e - a);
    } else {
        lemma_digits_end(r, k - a, e - a);
    }
}

/// Reading a rendered integer at its position yields that integer and
/// consumes exactly its rendering, provided no digit follows it.
proof fn lemma_parse_ser_int(n: int, s: Seq<u8>, i: int)
    requires
        -0x8000_0000_0000_0000 <= n <= 0x7fff_ffff_ffff_ffff,
        0 <= i,
        i + ser_int(n).len() <= s.len(),
        s.subrange(i, i + ser_int(n).len()) == ser_int(n),
        i + ser_int(n).len() == s.len() || num_break(s[i + ser_int(n).len()]),
    ensures
        parse_number(s, i) == Some((Val::Int(n), i + ser_int(n).len())),
{
    let e = i + ser_int(n).len();
    if n >= 0 {
        lemma_ser_nat(n);
        assert(ser_int(n) == ser_nat(n));
        assert forall|k: int| i <= k < e implies 48 <= #[trigger] s[k] <= 57 by {
            lemma_subrange_index(s, i, ser_nat(n), k - i);
        }
        lemma_subrange_index(s, i, ser_nat(n), 0);
        assert(s[i] != 45);
        lemma_digits_end(s, i, e);
        assert(s.subrange(i, e) == ser_nat(n));
        assert(digits_val(s.subrange(i, e)) == n);
        if ser_nat(n).len() >= 2 {
            assert(s[i] == ser_nat(n)[0]);
            assert(s[i] != 48);
        }
    } else {
        let m = -n;
        lemma_ser_nat(m);
        assert(ser_int(n) == seq![45u8] + ser_nat(m));
        lemma_subrange_split(s, i, seq![45u8], ser_nat(m));
        lemma_subrange_index(s, i, seq![45u8], 0);
        assert(s[i] == 45);
        let d0 = i + 1;
        assert(s.subrange(d0, e) == ser_nat(m));
        assert forall|k: int| d0 <= k < e implies 48 <= #[trigger] s[k] <= 57 by {
            lemma_subrange_index(s, d0, ser_nat(m), k - d0);
        }
        lemma_digits_end(s, d0, e);
        assert(digits_val(s.subrange(d0, e)) == m);
        if ser_nat(m).len() >= 2 {
            lemma_subrange_index(s, d0, ser_nat(m), 0);
            assert(s[d0] != 48);
        }
        assert(m <= 0x8000_0000_0000_0000);
    }
    // the rendering is followed by a break byte (or nothing), so the
    // reader takes neither a fraction nor an exponent
    assert(digits_end(s, if n < 0 { i + 1 } else { i }) == e);
    assert(e == s.len() || (s[e] != 46 && s[e] != 101 && s[e] != 69));
}

/// A hexadecimal digit reads back to its value.
proof fn lemma_hex_digit(d: int)
    requires
        0 <= d < 16,
    ensures
        hex_byte_val(hex_digit(d)) == d,
{
}

/// Four rendered hexadecimal digits read back to the rendered value.
proof fn lemma_hex4_val(u: int)
    requires
        0 <= u < 0x10000,
    ensures
        hex_val(hex4(u)) == u,
{
    let d0 = u / 4096 % 16;
    let d1 = u / 256 % 16;
    let d2 = u / 16 % 16;
    let d3 = u % 16;
    lemma_hex_digit(d0);
    lemma_hex_digit(d1);
    lemma_hex_digit(d2);
    lemma_hex_digit(d3);
    let h = hex4(u);
    assert(h.last() == hex_digit(d3));
    assert(h.drop_last() =~= seq![hex_digit(d0), hex_digit(d1), hex_digit(d2)]);
    let h3 = seq![hex_digit(d0), hex_digit(d1), hex_digit(d2)];
    assert(h3.last() == hex_digit(d2));
    assert(h3.drop_last() =~= seq![hex_digit(d0), hex_digit(d1)]);
    let h2 = seq![hex_digit(d0), hex_digit(d1)];
    assert(h2.last() == hex_digit(d1));
    assert(h2.drop_last() =~= seq![hex_digit(d0)]);
    let h1 = seq![hex_digit(d0)];
    assert(h1.drop_last() =~= Seq::<u8>::empty());
    assert(h1.last() == hex_digit(d0));
    assert(hex_val(Seq::<u8>::empty()) == 0);
    assert(hex_val(h1) == d0);
    assert(hex_val(h2) == d0 * 16 + d1);
    assert(hex_val(h3) == (d0 * 16 + d1) * 16 + d2);
    assert(hex_val(h) == ((d0 * 16 + d1) * 16 + d2) * 16 + d3);
    lemma_fundamental_div_mod(u, 16);
    lemma_fundamental_div_mod(u / 16, 16);
    lemma_fundamental_div_mod(u / 256, 16);
    lemma_div_denominator(u, 16, 16);
    lemma_div_denominator(u, 256, 16);
    lemma_small_mod((u / 4096) as nat, 16);
    assert(u == ((u / 4096) * 16 + d1) * 16 * 16 + d2 * 16 + d3) by {
        assert(u == (u / 16) * 16 + d3);
        assert(u / 16 == (u / 256) * 16 + d2);
        assert(u / 256 == (u / 4096) * 16 + d1);
    }
    assert(d0 == u / 4096);
}

/// Reading a rendered string body (followed by its closing quote) yields
/// exactly the rendered characters.
proof fn lemma_parse_ser_str(cs: Seq<char>, s: Seq<u8>, i: int)
    requires
        0 <= i,
        i + ser_str_chars(cs).len() + 1 <= s.len(),
        s.subrange(i, i + ser_str_chars(cs).len() + 1) == ser_str_chars(cs) + seq![34u8],
    ensures
        parse_string(s, i) == Some((cs, i + ser_str_chars(cs).len() + 1)),
    decreases cs.len(),
{
    let e = i + ser_str_chars(cs).len() + 1;
    if cs.len() == 0 {
        assert(ser_str_chars(cs) + seq![34u8] =~= seq![34u8]);
        lemma_subrange_index(s, i, seq![34u8], 0);
        assert(s[i] == 34);
    } else {
        let c0 = cs[0];
        let u = c0 as u32;
        let ec = esc_char(c0);
        let tail = ser_str_chars(cs.drop_first());
        assert(ser_str_chars(cs) == ec + tail);
        assert(ser_str_chars(cs) + seq![34u8] =~= ec + (tail + seq![34u8]));
        lemma_subrange_split(s, i, ec, tail + seq![34u8]);
        let i2 = i + ec.len();
        lemma_parse_ser_str(cs.drop_first(), s, i2);
        assert(parse_string(s, i2) == Some((cs.drop_first(), e)));
        assert(seq![c0] + cs.drop_first() =~= cs);
        vstd::utf8::char_is_scalar(c0);
        if u == 34 {
            lemma_subrange_index(s, i, ec, 0);
            lemma_subrange_index(s, i, ec, 1);
            assert(s[i] == 92 && s[i + 1] == 34);
            vstd::utf8::char_u32_cast(c0, 34u32);
            vstd::utf8::char_u32_cast('"', 34u32);
            assert('"' == c0);
        } else if u == 92 {
            lemma_subrange_index(s, i, ec, 0);
            lemma_subrange_index(s, i, ec, 1);
            assert(s[i] == 92 && s[i + 1] == 92);
            vstd::utf8::char_u32_cast(c0, 92u32);
            vstd::utf8::char_u32_cast('\\', 92u32);
            assert('\\' == c0);
        } else if 32 <= u < 127 {
            lemma_subrange_index(s, i, ec, 0);
            assert(s[i] == u as u8);
            let b = u as u8;
            assert(32 <= b < 127 && b != 34 && b != 92);
            vstd::utf8::char_u32_cast(c0, u);
            assert(b as char == c0);
        } else if u < 0x10000 {
            assert(ec =~= seq![92u8, 117u8] + hex4(u as int));
            lemma_subrange_split(s, i, seq![92u8, 117u8], hex4(u as int));
            lemma_subrange_index(s, i, seq![92u8, 117u8], 0);
            lemma_subrange_index(s, i, seq![92u8, 117u8], 1);
            assert(s[i] == 92 && s[i + 1] == 117);
            assert(s.subrange(i + 2, i + 6) == hex4(u as int));
            lemma_hex4_val(u as int);
            assert(hex_val(s.subrange(i + 2, i + 6)) == u);
            assert(!(0xD800 <= u <= 0xDFFF));
            vstd::utf8::char_u32_cast(c0, u);
            assert(u as u32 as char == c0);
        } else {
            let w = (u - 0x10000) as int;
            let hi = 0xD800 + w / 0x400;
            let lo = 0xDC00 + w % 0x400;
            lemma_fundamental_div_mod(w, 0x400);
            assert(0 <= w <= 0xFFFFF);
            assert(0 <= w % 0x400 < 0x400);
            assert(0 <= w / 0x400 < 0x400) by {
                assert(w / 0x400 <= 0xFFFFFint / 0x400) by {
                    vstd::arithmetic::div_mod::lemma_div_is_ordered(w, 0xFFFFFint, 0x400);
                }
            }
            assert(ec =~= seq![92u8, 117u8] + hex4(hi) + (seq![92u8, 117u8] + hex4(lo)));
            lemma_subrange_split(s, i, seq![92u8, 117u8] + hex4(hi), seq![92u8, 117u8] + hex4(lo));
            lemma_subrange_split(s, i, seq![92u8, 117u8], hex4(hi));
            lemma_subrange_split(s, i + 6, seq![92u8, 117u8], hex4(lo));
            lemma_subrange_index(s, i, seq![92u8, 117u8], 0);
            lemma_subrange_index(s, i, seq![92u8, 117u8], 1);
            lemma_subrange_index(s, i + 6, seq![92u8, 117u8], 0);
            lemma_subrange_index(s, i + 6, seq![92u8, 117u8], 1);
            assert(s[i] == 92 && s[i + 1] == 117);
            assert(s[i + 6] == 92 && s[i + 7] == 117);
            assert(s.subrange(i + 2, i + 6) == hex4(hi));
            assert(s.subrange(i + 8, i + 12) == hex4(lo));
            lemma_hex4_val(hi);
            lemma_hex4_val(lo);
            assert(hex_val(s.subrange(i + 2, i + 6)) == hi);
            assert(hex_val(s.subrange(i + 8, i + 12)) == lo);
            assert(0xD800 <= hi < 0xDC00);
            assert(0xDC00 <= lo < 0xE000);
            assert(0x10000 + (hi - 0xD800) * 0x400 + (lo - 0xDC00) == u);
            vstd::utf8::char_u32_cast(c0, u);
            assert((0x10000 + (hi - 0xD800) * 0x400 + (lo - 0xDC00)) as u32 as char == c0);
        }
    }
}

/// The bytes a value rendering can start with.
pub open spec fn is_value_start(b: u8) -> bool {
    b == 110 || b == 116 || b == 102 || b == 34 || b == 91 || b == 123 || b == 45
        || (48 <= b && b <= 57)
}

/// Every rendering is non-empty and starts with a value-start byte, which
/// is neither whitespace nor a closing bracket.
proof fn lemma_ser_val_first(v: Val)
    requires
        val_wf(v),
    ensures
        ser_val(v).len() >= 1,
        is_value_start(ser_val(v)[0]),
{
    match v {
        Val::Int(n) => {
            if n >= 0 {
                lemma_ser_nat(n);
            } else {
                lemma_ser_nat(-n);
            }
        }
        Val::Num(bs) => {
            lemma_num_lexeme_first(bs);
        }
        _ => {}
    }
}

/// A number lexeme is non-empty and starts with a sign or a digit.
proof fn lemma_num_lexeme_first(bs: Seq<u8>)
    requires
        num_lexeme(bs),
    ensures
        bs.len() >= 1,
        bs[0] == 45 || (48 <= bs[0] && bs[0] <= 57),
{
    if bs.len() == 0 {
        assert(digits_end(bs, 0) == 0);
        assert(parse_number(bs, 0) is None);
    }
    if !(bs[0] == 45 || (48 <= bs[0] && bs[0] <= 57)) {
        assert(digits_end(bs, 0) == 0);
        assert(parse_number(bs, 0) is None);
    }
}

/// Reading a rendered value at its position yields that value and
/// consumes exactly its rendering, provided no digit follows it.
#[verifier::rlimit(100)]
proof fn lemma_parse_ser_val(v: Val, s: Seq<u8>, i: int)
    requires
        val_wf(v),
        0 <= i,
        i + ser_val(v).len() <= s.len(),
        s.subrange(i, i + ser_val(v).len()) == ser_val(v),
        i + ser_val(v).len() == s.len() || num_break(s[i + ser_val(v).len()]),
    ensures
        parse_value(s, i) == Some((v, i + ser_val(v).len())),
    decreases v, 1int,
{
    broadcast use vstd::seq::axiom_seq_index_decreases;
    broadcast use vstd::seq::axiom_seq_subrange_decreases;

    let w = ser_val(v);
    let e = i + w.len();
    lemma_ser_val_first(v);
    lemma_subrange_index(s, i, w, 0);
    assert(s[i] == w[0]);
    assert(!is_ws(s[i]));
    assert(skip_ws(s, i) == i);
    match v {
        Val::Null => {
            lemma_subrange_index(s, i, w, 1);
            lemma_subrange_index(s, i, w, 2);
            lemma_subrange_index(s, i, w, 3);
            assert(parse_value(s, i) == Some((v, e)));
        }
        Val::Bool(b) => {
            lemma_subrange_index(s, i, w, 1);
            lemma_subrange_index(s, i, w, 2);
            lemma_subrange_index(s, i, w, 3);
            if !b {
                lemma_subrange_index(s, i, w, 4);
            }
            assert(parse_value(s, i) == Some((v, e)));
        }
        Val::Int(n) => {
            lemma_parse_ser_int(n, s, i);
            assert(parse_value(s, i) == Some((v, e)));
        }
        Val::Num(bs) => {
            lemma_parse_number_widen(bs, s, i);
            lemma_num_lexeme_first(bs);
            assert(parse_value(s, i) == Some((v, e)));
        }
        Val::Str(cs) => {
            assert(w =~= seq![34u8] + (ser_str_chars(cs) + seq![34u8]));
            lemma_subrange_split(s, i, seq![34u8], ser_str_chars(cs) + seq![34u8]);
            lemma_parse_ser_str(cs, s, i + 1);
            assert(parse_value(s, i) == Some((v, e)));
        }
        Val::Arr(elems) => {
            if elems.len() == 0 {
                lemma_subrange_index(s, i, w, 1);
                assert(s[i + 1] == 93);
                assert(skip_ws(s, i + 1) == i + 1);
                assert(elems =~= Seq::<Val>::empty());
                assert(parse_value(s, i) == Some((v, e)));
            } else {
                lemma_parse_ser_val_arr(elems, s, i);
            }
        }
        Val::Obj(ms) => {
            if ms.len() == 0 {
                lemma_subrange_index(s, i, w, 1);
                assert(s[i + 1] == 125);
                assert(skip_ws(s, i + 1) == i + 1);
                assert(ms =~= Seq::<(Seq<char>, Val)>::empty());
            } else {
                lemma_parse_ser_val_obj(ms, s, i);
            }
            assert(parse_value(s, i) == Some((v, e)));
        }
    }
}

/// The non-empty array case of [`lemma_parse_ser_val`].
#[verifier::rlimit(100)]
proof fn lemma_parse_ser_val_arr(elems: Seq<Val>, s: Seq<u8>, i: int)
    requires
        elems.len() >= 1,
        val_wf(Val::Arr(elems)),
        0 <= i,
        i + ser_val(Val::Arr(elems)).len() <= s.len(),
        s.subrange(i, i + ser_val(Val::Arr(elems)).len()) == ser_val(Val::Arr(elems)),
    ensures
        parse_value(s, i) == Some((Val::Arr(elems), i + ser_val(Val::Arr(elems)).len())),
    decreases elems, 3int,
{
    let v = Val::Arr(elems);
    let w = ser_val(v);
    let e = i + w.len();
    lemma_subrange_index(s, i, w, 0);
    assert(s[i] == 91);
    assert(skip_ws(s, i) == i);
    assert(w =~= seq![91u8] + (ser_elems(elems) + seq![93u8]));
    lemma_subrange_split(s, i, seq![91u8], ser_elems(elems) + seq![93u8]);
    lemma_parse_ser_elems(elems, s, i + 1);
    assert(ser_elems(elems)[0] == ser_val(elems[0])[0]) by {
        lemma_ser_val_first(elems[0]);
        if elems.len() == 1 {
        } else {
            assert(ser_elems(elems) == ser_val(elems[0]) + seq![44u8]
                + ser_elems(elems.drop_first()));
        }
    }
    lemma_ser_val_first(elems[0]);
    lemma_subrange_index(s, i + 1, ser_elems(elems) + seq![93u8], 0);
    assert(s[i + 1] == ser_elems(elems)[0]);
    assert(!is_ws(s[i + 1]));
    assert(skip_ws(s, i + 1) == i + 1);
    assert(parse_elems(s, i + 1) == Some((elems, e)));
    assert(s[i + 1] != 93);
    assert(parse_value(s, i) == Some((v, e)));
}

/// The non-empty object case of [`lemma_parse_ser_val`].
#[verifier::rlimit(100)]
proof fn lemma_parse_ser_val_obj(ms: Seq<(Seq<char>, Val)>, s: Seq<u8>, i: int)
    requires
        ms.len() >= 1,
        val_wf(Val::Obj(ms)),
        0 <= i,
        i + ser_val(Val::Obj(ms)).len() <= s.len(),
        s.subrange(i, i + ser_val(Val::Obj(ms)).len()) == ser_val(Val::Obj(ms)),
    ensures
        parse_value(s, i) == Some((Val::Obj(ms), i + ser_val(Val::Obj(ms)).len())),
    decreases ms, 3int,
{
    let v = Val::Obj(ms);
    let w = ser_val(v);
    let e = i + w.len();
    lemma_subrange_index(s, i, w, 0);
    assert(s[i] == 123);
    assert(skip_ws(s, i) == i);
    assert(w =~= seq![123u8] + (ser_members(ms) + seq![125u8]));
    lemma_subrange_split(s, i, seq![123u8], ser_members(ms) + seq![125u8]);
    lemma_parse_ser_members(ms, s, i + 1);
    assert(ser_members(ms)[0] == 34) by {
        let head = seq![34u8] + ser_str_chars(ms[0].0) + seq![34u8, 58u8]
            + ser_val(ms[0].1);
        assert(head[0] == 34);
    }
    lemma_subrange_index(s, i + 1, ser_members(ms) + seq![125u8], 0);
    assert(s[i + 1] == 34);
    assert(skip_ws(s, i + 1) == i + 1);
    assert(s[i + 1] != 125);
    assert(parse_members(s, i + 1) == Some((ms, e)));
    assert(parse_value(s, i) == Some((v, e)));
}

/// Reading a rendered element list (followed by `]`) yields exactly the
/// rendered elements.
proof fn lemma_parse_ser_elems(elems: Seq<Val>, s: Seq<u8>, i: int)
    requires
        elems.len() >= 1,
        arr_wf(elems),
        0 <= i,
        i + ser_elems(elems).len() + 1 <= s.len(),
        s.subrange(i, i + ser_elems(elems).len() + 1) == ser_elems(elems) + seq![93u8],
    ensures
        parse_elems(s, i) == Some((elems, i + ser_elems(elems).len() + 1)),
    decreases elems, 2int,
{
    broadcast use vstd::seq::axiom_seq_index_decreases;
    broadcast use vstd::seq::axiom_seq_subrange_decreases;

    let e = i + ser_elems(elems).len() + 1;
    let v0 = elems[0];
    let w0 = ser_val(v0);
    lemma_ser_val_first(v0);
    if elems.len() == 1 {
        assert(ser_elems(elems) == w0);
        assert(ser_elems(elems) + seq![93u8] =~= w0 + seq![93u8]);
        lemma_subrange_split(s, i, w0, seq![93u8]);
        let i2 = i + w0.len();
        lemma_subrange_index(s, i2, seq![93u8], 0);
        assert(s[i2] == 93);
        lemma_parse_ser_val(v0, s, i);
        assert(parse_value(s, i) == Some((v0, i2)));
        assert(skip_ws(s, i2) == i2);
        assert(seq![v0] =~= elems);
    } else {
        let rest = elems.drop_first();
        assert(ser_elems(elems) == w0 + seq![44u8] + ser_elems(rest));
        assert(ser_elems(elems) + seq![93u8] =~= w0 + (seq![44u8] + (ser_elems(rest)
            + seq![93u8])));
        lemma_subrange_split(s, i, w0, seq![44u8] + (ser_elems(rest) + seq![93u8]));
        let i2 = i + w0.len();
        lemma_subrange_split(s, i2, seq![44u8], ser_elems(rest) + seq![93u8]);
        lemma_subrange_index(s, i2, seq![44u8], 0);
        assert(s[i2] == 44);
        lemma_parse_ser_val(v0, s, i);
        assert(parse_value(s, i) == Some((v0, i2)));
        assert(skip_ws(s, i2) == i2);
        lemma_parse_ser_elems(rest, s, i2 + 1);
        assert(parse_elems(s, i2 + 1) == Some((rest, e)));
        assert(seq![v0] + rest =~= elems);
    }
}

/// Reading a rendered member list (followed by `}`) yields exactly the
/// rendered members.
#[verifier::rlimit(100)]
proof fn lemma_parse_ser_members(ms: Seq<(Seq<char>, Val)>, s: Seq<u8>, i: int)
    requires
        ms.len() >= 1,
        obj_wf(ms),
        0 <= i,
        i + ser_members(ms).len() + 1 <= s.len(),
        s.subrange(i, i + ser_members(ms).len() + 1) == ser_members(ms) + seq![125u8],
    ensures
        parse_members(s, i) == Some((ms, i + ser_members(ms).len() + 1)),
    decreases ms, 2int,
{
    broadcast use vstd::seq::axiom_seq_index_decreases;
    broadcast use vstd::seq::axiom_seq_subrange_decreases;

    let e = i + ser_members(ms).len() + 1;
    let key = ms[0].0;
    let v0 = ms[0].1;
    let kb = ser_str_chars(key);
    let w0 = ser_val(v0);
    let head = seq![34u8] + kb + seq![34u8, 58u8] + w0;
    lemma_ser_val_first(v0);
    // shared decomposition of the head: quote, key body, quote, colon, value
    let after_key = i + 1 + kb.len() + 1;
    let vstart = after_key + 1;
    if ms.len() == 1 {
        assert(ser_members(ms) == head);
        assert(ser_members(ms) + seq![125u8] =~= seq![34u8] + ((kb + seq![34u8]) + (seq![58u8]
            + (w0 + seq![125u8]))));
        lemma_subrange_split(s, i, seq![34u8], (kb + seq![34u8]) + (seq![58u8] + (w0
            + seq![125u8])));
        lemma_subrange_index(s, i, seq![34u8], 0);
        assert(s[i] == 34);
        assert(skip_ws(s, i) == i);
        lemma_subrange_split(s, i + 1, kb + seq![34u8], seq![58u8] + (w0 + seq![125u8]));
        lemma_parse_ser_str(key, s, i + 1);
        assert(parse_string(s, i + 1) == Some((key, after_key)));
        lemma_subrange_split(s, after_key, seq![58u8], w0 + seq![125u8]);
        lemma_subrange_index(s, after_key, seq![58u8], 0);
        assert(s[after_key] == 58);
        assert(skip_ws(s, after_key) == after_key);
        lemma_subrange_split(s, vstart, w0, seq![125u8]);
        lemma_subrange_index(s, vstart + w0.len(), seq![125u8], 0);
        assert(s[vstart + w0.len()] == 125);
        lemma_parse_ser_val(v0, s, vstart);
        assert(parse_value(s, vstart) == Some((v0, vstart + w0.len())));
        assert(skip_ws(s, vstart + w0.len()) == vstart + w0.len());
        assert(seq![(key, v0)] =~= ms);
        assert(vstart + w0.len() + 1 == e);
    } else {
        let rest = ms.drop_first();
        assert(ser_members(ms) == head + seq![44u8] + ser_members(rest));
        assert(ser_members(ms) + seq![125u8] =~= seq![34u8] + ((kb + seq![34u8]) + (seq![58u8]
            + (w0 + (seq![44u8] + (ser_members(rest) + seq![125u8]))))));
        lemma_subrange_split(s, i, seq![34u8], (kb + seq![34u8]) + (seq![58u8] + (w0
            + (seq![44u8] + (ser_members(rest) + seq![125u8])))));
        lemma_subrange_index(s, i, seq![34u8], 0);
        assert(s[i] == 34);
        assert(skip_ws(s, i) == i);
        lemma_subrange_split(s, i + 1, kb + seq![34u8], seq![58u8] + (w0 + (seq![44u8]
            + (ser_members(rest) + seq![125u8]))));
        lemma_parse_ser_str(key, s, i + 1);
        assert(parse_string(s, i + 1) == Some((key, after_key)));
        lemma_subrange_split(s, after_key, seq![58u8], w0 + (seq![44u8] + (ser_members(rest)
            + seq![125u8])));
        lemma_subrange_index(s, after_key, seq![58u8], 0);
        assert(s[after_key] == 58);
        assert(skip_ws(s, after_key) == after_key);
        lemma_subrange_split(s, vstart, w0, seq![44u8] + (ser_members(rest) + seq![125u8]));
        let i3 = vstart + w0.len();
        lemma_subrange_split(s, i3, seq![44u8], ser_members(rest) + seq![125u8]);
        lemma_subrange_index(s, i3, seq![44u8], 0);
        assert(s[i3] == 44);
        lemma_parse_ser_val(v0, s, vstart);
        assert(parse_value(s, vstart) == Some((v0, i3)));
        assert(skip_ws(s, i3) == i3);
        lemma_parse_ser_members(rest, s, i3 + 1);
        assert(parse_members(s, i3 + 1) == Some((rest, e)));
        assert(seq![(key, v0)] + rest =~= ms);
    }
}

/// Round trip: reading a rendered value gives the value back, for every
/// value whose integers fit the 64-bit signed range.
pub proof fn lemma_text_round_trip(v: Val)
    requires
        val_wf(v),
    ensures
        parse_text(ser_val(v)) == Some(v),
{
    let s = ser_val(v);
    assert(s.subrange(0, s.len() as int) =~= s);
    lemma_parse_ser_val(v, s, 0);
    assert(skip_ws(s, s.len() as int) == s.len());
}

// ---------------------------------------------------------------------------
// Executable writer
// ---------------------------------------------------------------------------

/// Appending an element to a list extends its rendering by a comma (after
/// the first element) and the element's rendering.
proof fn lemma_ser_elems_push(s: Seq<Val>, x: Val)
    ensures
        ser_elems(s.push(x)) == if s.len() == 0 {
            ser_val(x)
        } else {
            ser_elems(s) + seq![44u8] + ser_val(x)
        },
    decreases s.len(),
{
    if s.len() == 0 {
        assert(s.push(x).len() == 1);
        assert(s.push(x)[0] == x);
    } else {
        let t = s.push(x);
        assert(t.len() >= 2);
        assert(t[0] == s[0]);
        assert(t.drop_first() =~= s.drop_first().push(x));
        lemma_ser_elems_push(s.drop_first(), x);
        if s.len() == 1 {
            assert(s.drop_first().len() == 0);
            assert(ser_elems(t) == ser_val(s[0]) + seq![44u8] + ser_val(x));
            assert(ser_elems(s) == ser_val(s[0]));
            assert(ser_elems(s) + seq![44u8] + ser_val(x) == ser_elems(t));
        } else {
            assert(ser_elems(t) == ser_val(s[0]) + seq![44u8] + (ser_elems(s.drop_first())
                + seq![44u8] + ser_val(x)));
            assert(ser_elems(s) == ser_val(s[0]) + seq![44u8] + ser_elems(s.drop_first()));
            assert(ser_elems(s) + seq![44u8] + ser_val(x) =~= ser_elems(t));
        }
    }
}

/// The same for object members.
proof fn lemma_ser_members_push(s: Seq<(Seq<char>, Val)>, x: (Seq<char>, Val))
    ensures
        ser_members(s.push(x)) == if s.len() == 0 {
            seq![34u8] + ser_str_chars(x.0) + seq![34u8, 58u8] + ser_val(x.1)
        } else {
            ser_members(s) + seq![44u8] + (seq![34u8] + ser_str_chars(x.0) + seq![34u8, 58u8]
                + ser_val(x.1))
        },
    decreases s.len(),
{
    let hx = seq![34u8] + ser_str_chars(x.0) + seq![34u8, 58u8] + ser_val(x.1);
    if s.len() == 0 {
        assert(s.push(x).len() == 1);
        assert(s.push(x)[0] == x);
    } else {
        let t = s.push(x);
        let h0 = seq![34u8] + ser_str_chars(s[0].0) + seq![34u8, 58u8] + ser_val(s[0].1);
        assert(t.len() >= 2);
        assert(t[0] == s[0]);
        assert(t.drop_first() =~= s.drop_first().push(x));
        lemma_ser_members_push(s.drop_first(), x);
        if s.len() == 1 {
            assert(s.drop_first().len() == 0);
            assert(ser_members(t) == h0 + seq![44u8] + hx);
            assert(ser_members(s) == h0);
        } else {
            assert(ser_members(t) == h0 + seq![44u8] + (ser_members(s.drop_first())
                + seq![44u8] + hx));
            assert(ser_members(s) == h0 + seq![44u8] + ser_members(s.drop_first()));
            assert(ser_members(s) + seq![44u8] + hx =~= ser_members(t));
        }
    }
}

/// Appending a character extends a string body's rendering by its escape.
proof fn lemma_ser_str_chars_push(cs: Seq<char>, c: char)
    ensures
        ser_str_chars(cs.push(c)) == ser_str_chars(cs) + esc_char(c),
    decreases cs.len(),
{
    if cs.len() == 0 {
        let t = cs.push(c);
        assert(t.len() == 1);
        assert(t[0] == c);
        assert(t.drop_first() =~= Seq::<char>::empty());
        assert(ser_str_chars(t.drop_first()) == Seq::<u8>::empty());
        assert(ser_str_chars(t) == esc_char(c) + Seq::<u8>::empty());
        assert(esc_char(c) + Seq::<u8>::empty() =~= esc_char(c));
        assert(ser_str_chars(cs) == Seq::<u8>::empty());
        assert(ser_str_chars(cs) + esc_char(c) =~= esc_char(c));
    } else {
        let t = cs.push(c);
        assert(t[0] == cs[0]);
        assert(t.drop_first() =~= cs.drop_first().push(c));
        lemma_ser_str_chars_push(cs.drop_first(), c);
        assert(ser_str_chars(t) == esc_char(cs[0]) + (ser_str_chars(cs.drop_first())
            + esc_char(c)));
        assert(ser_str_chars(cs) + esc_char(c) =~= ser_str_chars(t));
    }
}

/// One lowercase hexadecimal digit byte.
fn hex_digit_byte(d: u32) -> (r: u8)
    requires
        d < 16,
    ensures
        r == hex_digit(d as int),
{
    if d < 10 {
        48 + (d as u8)
    } else {
        87 + (d as u8)
    }
}

/// Writes four hexadecimal digits.
fn write_hex4(u: u32, out: &mut Vec<u8>)
    requires
        u < 0x10000,
    ensures
        final(out)@ == old(out)@ + hex4(u as int),
{
    out.push(hex_digit_byte(u / 4096 % 16));
    out.push(hex_digit_byte(u / 256 % 16));
    out.push(hex_digit_byte(u / 16 % 16));
    out.push(hex_digit_byte(u % 16));
    assert(final(out)@ =~= old(out)@ + hex4(u as int));
}

/// Writes the escape of one character.
fn write_escape(c: char, out: &mut Vec<u8>)
    ensures
        final(out)@ == old(out)@ + esc_char(c),
{
    proof {
        vstd::utf8::char_is_scalar(c);
    }
    let u = c as u32;
    if u == 34 {
        out.push(92);
        out.push(34);
        assert(final(out)@ =~= old(out)@ + esc_char(c));
    } else if u == 92 {
        out.push(92);
        out.push(92);
        assert(final(out)@ =~= old(out)@ + esc_char(c));
    } else if 32 <= u && u < 127 {
        out.push(u as u8);
        assert(final(out)@ =~= old(out)@ + esc_char(c));
    } else if u < 0x10000 {
        out.push(92);
        out.push(117);
        write_hex4(u, out);
        assert(final(out)@ =~= old(out)@ + esc_char(c));
    } else {
        let w = u - 0x10000;
        proof {
            lemma_fundamental_div_mod(w as int, 0x400);
            assert(w / 0x400 < 0x400) by {
                assert(w <= 0xFFFFF);
            }
        }
        out.push(92);
        out.push(117);
        write_hex4(0xD800 + w / 0x400, out);
        out.push(92);
        out.push(117);
        write_hex4(0xDC00 + w % 0x400, out);
        assert(final(out)@ =~= old(out)@ + esc_char(c));
    }
}

/// Writes the body of a string literal, without the quotes.
fn write_str_body(s: &str, out: &mut Vec<u8>)
    ensures
        final(out)@ == old(out)@ + ser_str_chars(s@),
{
    let n = s.unicode_len();
    let mut k: usize = 0;
    while k < n
        invariant
            n == s@.len(),
            k <= n,
            out@ == old(out)@ + ser_str_chars(s@.take(k as int)),
        decreases n - k,
    {
        let c = s.get_char(k);
        write_escape(c, out);
        proof {
            assert(s@.take(k as int).push(s@[k as int]) =~= s@.take(k as int + 1));
            lemma_ser_str_chars_push(s@.take(k as int), s@[k as int]);
        }
        k = k + 1;
    }
    proof {
        assert(s@.take(n as int) =~= s@);
    }
}

/// Writes the decimal digits of a non-negative number.
fn write_nat(m: u64, out: &mut Vec<u8>)
    ensures
        final(out)@ == old(out)@ + ser_nat(m as int),
    decreases m,
{
    if m < 10 {
        out.push(48 + (m as u8));
        assert(final(out)@ =~= old(out)@ + ser_nat(m as int));
    } else {
        write_nat(m / 10, out);
        out.push(48 + ((m % 10) as u8));
        assert(final(out)@ =~= old(out)@ + ser_nat(m as int));
    }
}

/// Writes an integer in decimal.
fn write_int(n: i64, out: &mut Vec<u8>)
    ensures
        final(out)@ == old(out)@ + ser_int(n as int),
{
    if n < 0 {
        out.push(45);
        let mag = (-(n as i128)) as u64;
        assert(mag == -(n as int));
        write_nat(mag, out);
        assert(final(out)@ =~= old(out)@ + ser_int(n as int));
    } else {
        write_nat(n as u64, out);
    }
}

/// Writes the rendering of a value at the end of `out`.
fn write_value(v: &JsonValue, out: &mut Vec<u8>)
    ensures
        final(out)@ == old(out)@ + ser_val(v@),
    decreases val_of(v),
{
    match v {
        JsonValue::Null => {
            out.push(110);
            out.push(117);
            out.push(108);
            out.push(108);
            assert(final(out)@ =~= old(out)@ + ser_val(v@));
        }
        JsonValue::Bool(b) => {
            if *b {
                out.push(116);
                out.push(114);
                out.push(117);
                out.push(101);
            } else {
                out.push(102);
                out.push(97);
                out.push(108);
                out.push(115);
                out.push(101);
            }
            assert(final(out)@ =~= old(out)@ + ser_val(v@));
        }
        JsonValue::Int(n) => {
            write_int(*n, out);
        }
        JsonValue::Num(nl) => {
            let bsv = nl.as_bytes();
            let m = bsv.len();
            let mut k: usize = 0;
            proof {
                assert(nl.lex().take(0) =~= Seq::<u8>::empty());
                assert(out@ =~= old(out)@ + nl.lex().take(0));
            }
            while k < m
                invariant
                    m == nl.lex().len(),
                    bsv@ == nl.lex(),
                    k <= m,
                    out@ == old(out)@ + nl.lex().take(k as int),
                decreases m - k,
            {
                out.push(bsv[k]);
                proof {
                    assert(nl.lex().take(k as int).push(nl.lex()[k as int]) =~= nl.lex().take(
                        k as int + 1));
                    assert(out@ =~= old(out)@ + nl.lex().take(k as int + 1));
                }
                k = k + 1;
            }
            proof {
                assert(nl.lex().take(m as int) =~= nl.lex());
                assert(final(out)@ =~= old(out)@ + ser_val(v@));
            }
        }
        JsonValue::Str(s) => {
            out.push(34);
            write_str_body(s.as_str(), out);
            out.push(34);
            assert(final(out)@ =~= old(out)@ + ser_val(v@));
        }
        JsonValue::Array(a) => {
            out.push(91);
            let n = a.len();
            let mut k: usize = 0;
            proof {
                crate::value::lemma_vals_of_index(a@);
            }
            while k < n
                invariant
                    val_of(v) == Val::Arr(vals_of(a@)),
                    n == a@.len(),
                    k <= n,
                    vals_of(a@).len() == n,
                    forall|j: int| 0 <= j < n ==> vals_of(a@)[j] == val_of(&a@[j]),
                    k == 0 ==> out@ == old(out)@ + seq![91u8],
                    k > 0 ==> out@ == old(out)@ + seq![91u8]
                        + ser_elems(vals_of(a@).take(k as int)),
                decreases n - k,
            {
                if k > 0 {
                    out.push(44);
                }
                proof {
                    let gv = val_of(v);
                    let es = vals_of(a@);
                    assert(gv == Val::Arr(es));
                    assert(decreases_to!(gv => gv->Arr_0));
                    assert(decreases_to!(es => es[k as int]));
                    assert(es[k as int] == val_of(&a@[k as int]));
                    assert(decreases_to!(gv => val_of(&a@[k as int])));
                }
                write_value(&a[k], out);
                proof {
                    assert(vals_of(a@).take(k as int).push(vals_of(a@)[k as int])
                        =~= vals_of(a@).take(k as int + 1));
                    lemma_ser_elems_push(vals_of(a@).take(k as int), vals_of(a@)[k as int]);
                    assert(val_of(&a@[k as int]) == vals_of(a@)[k as int]);
                }
                k = k + 1;
                assert(out@ == old(out)@ + seq![91u8] + ser_elems(vals_of(a@).take(k as int)));
            }
            out.push(93);
            proof {
                assert(vals_of(a@).take(n as int) =~= vals_of(a@));
                if n == 0 {
                    assert(final(out)@ =~= old(out)@ + ser_val(v@));
                } else {
                    assert(final(out)@ =~= old(out)@ + ser_val(v@));
                }
            }
        }
        JsonValue::Object(o) => {
            out.push(123);
            let n = o.len();
            let mut k: usize = 0;
            proof {
                crate::value::lemma_members_of_index(o@);
            }
            while k < n
                invariant
                    val_of(v) == Val::Obj(members_of(o@)),
                    n == o@.len(),
                    k <= n,
                    members_of(o@).len() == n,
                    forall|j: int| 0 <= j < n ==> members_of(o@)[j] == (o@[j].0@, val_of(&o@[j].1)),
                    k == 0 ==> out@ == old(out)@ + seq![123u8],
                    k > 0 ==> out@ == old(out)@ + seq![123u8]
                        + ser_members(members_of(o@).take(k as int)),
                decreases n - k,
            {
                if k > 0 {
                    out.push(44);
                }
                out.push(34);
                write_str_body(o[k].0.as_str(), out);
                out.push(34);
                out.push(58);
                proof {
                    let gv = val_of(v);
                    let ms = members_of(o@);
                    assert(gv == Val::Obj(ms));
                    assert(decreases_to!(gv => gv->Obj_0));
                    assert(decreases_to!(ms => ms[k as int]));
                    let p = ms[k as int];
                    assert(decreases_to!(p => p.1));
                    assert(p.1 == val_of(&o@[k as int].1));
                    assert(decreases_to!(gv => val_of(&o@[k as int].1)));
                }
                write_value(&o[k].1, out);
                proof {
                    assert(members_of(o@).take(k as int).push(members_of(o@)[k as int])
                        =~= members_of(o@).take(k as int + 1));
                    lemma_ser_members_push(members_of(o@).take(k as int),
                        members_of(o@)[k as int]);
                    assert(members_of(o@)[k as int] == (o@[k as int].0@, val_of(&o@[k as int].1)));
                }
                k = k + 1;
                assert(out@ == old(out)@ + seq![123u8]
                    + ser_members(members_of(o@).take(k as int)));
            }
            out.push(125);
            proof {
                assert(members_of(o@).take(n as int) =~= members_of(o@));
                assert(final(out)@ =~= old(out)@ + ser_val(v@));
            }
        }
    }
}

/// Renders a value as compact JSON text.
pub fn to_json_bytes(v: &JsonValue) -> (out: Vec<u8>)
    ensures
        out@ == ser_val(v@),
{
    let mut out: Vec<u8> = Vec::new();
    write_value(v, &mut out);
    proof {
        assert(out@ =~= ser_val(v@));
    }
    out
}

/// Reads a whole text: one value, with nothing but whitespace after it.
pub open spec fn parse_text(s: Seq<u8>) -> Option<Val> {
    match parse_value(s, 0) {
        Some((v, i)) => {
            if 0 <= i <= s.len() && skip_ws(s, i) == s.len() {
                Some(v)
            } else {
                None
            }
        }
        None => None,
    }
}

// ---------------------------------------------------------------------------
// Pretty rendering
// ---------------------------------------------------------------------------

/// Two spaces per indentation level.
pub open spec fn indent(n: int) -> Seq<u8>
    decreases n,
{
    if n <= 0 {
        Seq::empty()
    } else {
        seq![32u8, 32u8] + indent(n - 1)
    }
}

/// The pretty text rendering of a value at a given depth: scalars as in
/// the compact form, containers with one member per line.
pub open spec fn pretty_val(v: Val, d: int) -> Seq<u8>
    decreases v, 1int,
    via pretty_val_dec
{
    match v {
        Val::Arr(elems) => if elems.len() == 0 {
            seq![91u8, 93u8]
        } else {
            seq![91u8, 10u8] + pretty_elems(elems, d + 1) + seq![10u8] + indent(d)
                + seq![93u8]
        },
        Val::Obj(ms) => if ms.len() == 0 {
            seq![123u8, 125u8]
        } else {
            seq![123u8, 10u8] + pretty_members(ms, d + 1) + seq![10u8] + indent(d)
                + seq![125u8]
        },
        _ => ser_val(v),
    }
}

/// Pretty element lines of a non-empty array.
pub open spec fn pretty_elems(elems: Seq<Val>, d: int) -> Seq<u8>
    decreases elems, 2int,
    via pretty_elems_dec
{
    if elems.len() <= 1 {
        if elems.len() == 1 {
            indent(d) + pretty_val(elems[0], d)
        } else {
            Seq::empty()
        }
    } else {
        indent(d) + pretty_val(elems[0], d) + seq![44u8, 10u8] + pretty_elems(
            elems.drop_first(), d)
    }
}

/// Pretty member lines of a non-empty object.
pub open spec fn pretty_members(ms: Seq<(Seq<char>, Val)>, d: int) -> Seq<u8>
    decreases ms, 2int,
    via pretty_members_dec
{
    if ms.len() == 0 {
        Seq::empty()
    } else {
        let head = indent(d) + seq![34u8] + ser_str_chars(ms[0].0) + seq![34u8, 58u8, 32u8]
            + pretty_val(ms[0].1, d);
        if ms.len() == 1 {
            head
        } else {
            head + seq![44u8, 10u8] + pretty_members(ms.drop_first(), d)
        }
    }
}

#[via_fn]
proof fn pretty_val_dec(v: Val, d: int) {
}

#[via_fn]
proof fn pretty_elems_dec(elems: Seq<Val>, d: int) {
    broadcast use vstd::seq::axiom_seq_index_decreases;
    broadcast use vstd::seq::axiom_seq_subrange_decreases;

}

#[via_fn]
proof fn pretty_members_dec(ms: Seq<(Seq<char>, Val)>, d: int) {
    broadcast use vstd::seq::axiom_seq_index_decreases;
    broadcast use vstd::seq::axiom_seq_subrange_decreases;

}

/// One more level of indentation.
proof fn lemma_indent_snoc(n: int)
    requires
        n >= 0,
    ensures
        indent(n + 1) == indent(n) + seq![32u8, 32u8],
    decreases n,
{
    if n > 0 {
        lemma_indent_snoc(n - 1);
        assert(indent(n + 1) =~= indent(n) + seq![32u8, 32u8]);
    } else {
        assert(indent(1) =~= indent(0) + seq![32u8, 32u8]);
    }
}

/// Appending an element extends the pretty lines by a separator and the
/// element's line.
proof fn lemma_pretty_elems_push(s: Seq<Val>, x: Val, d: int)
    ensures
        pretty_elems(s.push(x), d) == if s.len() == 0 {
            indent(d) + pretty_val(x, d)
        } else {
            pretty_elems(s, d) + seq![44u8, 10u8] + (indent(d) + pretty_val(x, d))
        },
    decreases s.len(),
{
    if s.len() == 0 {
        assert(s.push(x).len() == 1);
        assert(s.push(x)[0] == x);
    } else {
        let t = s.push(x);
        assert(t.len() >= 2);
        assert(t[0] == s[0]);
        assert(t.drop_first() =~= s.drop_first().push(x));
        lemma_pretty_elems_push(s.drop_first(), x, d);
        if s.len() == 1 {
            assert(s.drop_first().len() == 0);
            assert(pretty_elems(s, d) + seq![44u8, 10u8] + (indent(d) + pretty_val(x, d))
                =~= pretty_elems(t, d));
        } else {
            assert(pretty_elems(s, d) + seq![44u8, 10u8] + (indent(d) + pretty_val(x, d))
                =~= pretty_elems(t, d));
        }
    }
}

/// The same for object members.
proof fn lemma_pretty_members_push(s: Seq<(Seq<char>, Val)>, x: (Seq<char>, Val), d: int)
    ensures
        pretty_members(s.push(x), d) == if s.len() == 0 {
            indent(d) + seq![34u8] + ser_str_chars(x.0) + seq![34u8, 58u8, 32u8] + pretty_val(
                x.1, d)
        } else {
            pretty_members(s, d) + seq![44u8, 10u8] + (indent(d) + seq![34u8] + ser_str_chars(
                x.0) + seq![34u8, 58u8, 32u8] + pretty_val(x.1, d))
        },
    decreases s.len(),
{
    if s.len() == 0 {
        assert(s.push(x).len() == 1);
        assert(s.push(x)[0] == x);
    } else {
        let t = s.push(x);
        assert(t.len() >= 2);
        assert(t[0] == s[0]);
        assert(t.drop_first() =~= s.drop_first().push(x));
        lemma_pretty_members_push(s.drop_first(), x, d);
        let hx = indent(d) + seq![34u8] + ser_str_chars(x.0) + seq![34u8, 58u8, 32u8]
            + pretty_val(x.1, d);
        if s.len() == 1 {
            assert(s.drop_first().len() == 0);
            assert(pretty_members(s, d) + seq![44u8, 10u8] + hx =~= pretty_members(t, d));
        } else {
            assert(pretty_members(s, d) + seq![44u8, 10u8] + hx =~= pretty_members(t, d));
        }
    }
}

/// The given pad, two spaces longer.
fn extend_pad(pad: &Vec<u8>) -> (r: Vec<u8>)
    ensures
        r@ == pad@ + seq![32u8, 32u8],
{
    let n = pad.len();
    let mut out: Vec<u8> = Vec::new();
    let mut k: usize = 0;
    while k < n
        invariant
            n == pad@.len(),
            k <= n,
            out@ == pad@.take(k as int),
        decreases n - k,
    {
        out.push(pad[k]);
        proof {
            assert(pad@.take(k as int).push(pad@[k as int]) =~= pad@.take(k as int + 1));
        }
        k = k + 1;
    }
    out.push(32);
    out.push(32);
    proof {
        assert(pad@.take(n as int) =~= pad@);
        assert(out@ =~= pad@ + seq![32u8, 32u8]);
    }
    out
}

/// Writes the pretty rendering of a value at the end of `out`; `pad` is
/// the current depth's indentation.
fn write_pretty(v: &JsonValue, pad: &Vec<u8>, Ghost(d): Ghost<int>, out: &mut Vec<u8>)
    requires
        d >= 0,
        pad@ == indent(d),
    ensures
        final(out)@ == old(out)@ + pretty_val(v@, d),
    decreases val_of(v),
{
    match v {
        JsonValue::Array(a) => {
            let n = a.len();
            if n == 0 {
                out.push(91);
                out.push(93);
                proof {
                    assert(final(out)@ =~= old(out)@ + pretty_val(v@, d));
                }
                return;
            }
            out.push(91);
            out.push(10);
            let inner = extend_pad(pad);
            proof {
                lemma_indent_snoc(d);
                crate::value::lemma_vals_of_index(a@);
            }
            let mut k: usize = 0;
            while k < n
                invariant
                    val_of(v) == Val::Arr(vals_of(a@)),
                    d >= 0,
                    inner@ == indent(d + 1),
                    n == a@.len(),
                    n >= 1,
                    k <= n,
                    vals_of(a@).len() == n,
                    forall|j: int| 0 <= j < n ==> vals_of(a@)[j] == val_of(&a@[j]),
                    k == 0 ==> out@ == old(out)@ + seq![91u8, 10u8],
                    k > 0 ==> out@ == old(out)@ + seq![91u8, 10u8] + pretty_elems(vals_of(
                        a@).take(k as int), d + 1),
                decreases n - k,
            {
                if k > 0 {
                    out.push(44);
                    out.push(10);
                }
                let ghost outpre = out@;
                let mut q: usize = 0;
                proof {
                    assert(out@ =~= outpre + inner@.take(0));
                }
                while q < inner.len()
                    invariant
                        q <= inner@.len(),
                        out@ == outpre + inner@.take(q as int),
                    decreases inner@.len() - q,
                {
                    out.push(inner[q]);
                    proof {
                        assert(inner@.take(q as int).push(inner@[q as int]) =~= inner@.take(
                            q as int + 1));
                        assert(out@ =~= outpre + inner@.take(q as int + 1));
                    }
                    q = q + 1;
                }
                proof {
                    assert(inner@.take(inner@.len() as int) =~= inner@);
                    let gv = val_of(v);
                    let es = vals_of(a@);
                    assert(decreases_to!(gv => gv->Arr_0));
                    assert(decreases_to!(es => es[k as int]));
                    assert(es[k as int] == val_of(&a@[k as int]));
                    assert(decreases_to!(gv => val_of(&a@[k as int])));
                }
                write_pretty(&a[k], &inner, Ghost(d + 1), out);
                proof {
                    assert(vals_of(a@).take(k as int).push(vals_of(a@)[k as int])
                        =~= vals_of(a@).take(k as int + 1));
                    lemma_pretty_elems_push(vals_of(a@).take(k as int), vals_of(a@)[k as int],
                        d + 1);
                    assert(out@ =~= old(out)@ + seq![91u8, 10u8] + pretty_elems(vals_of(
                        a@).take(k as int + 1), d + 1));
                }
                k = k + 1;
            }
            out.push(10);
            let ghost outpre2 = out@;
            let mut q2: usize = 0;
            proof {
                assert(out@ =~= outpre2 + pad@.take(0));
            }
            while q2 < pad.len()
                invariant
                    q2 <= pad@.len(),
                    out@ == outpre2 + pad@.take(q2 as int),
                decreases pad@.len() - q2,
            {
                out.push(pad[q2]);
                proof {
                    assert(pad@.take(q2 as int).push(pad@[q2 as int]) =~= pad@.take(q2 as int
                        + 1));
                    assert(out@ =~= outpre2 + pad@.take(q2 as int + 1));
                }
                q2 = q2 + 1;
            }
            out.push(93);
            proof {
                assert(pad@.take(pad@.len() as int) =~= pad@);
                assert(vals_of(a@).take(n as int) =~= vals_of(a@));
                assert(final(out)@ =~= old(out)@ + pretty_val(v@, d));
            }
        }
        JsonValue::Object(o) => {
            let n = o.len();
            if n == 0 {
                out.push(123);
                out.push(125);
                proof {
                    assert(final(out)@ =~= old(out)@ + pretty_val(v@, d));
                }
                return;
            }
            out.push(123);
            out.push(10);
            let inner = extend_pad(pad);
            proof {
                lemma_indent_snoc(d);
                crate::value::lemma_members_of_index(o@);
            }
            let mut k: usize = 0;
            while k < n
                invariant
                    val_of(v) == Val::Obj(members_of(o@)),
                    d >= 0,
                    inner@ == indent(d + 1),
                    n == o@.len(),
                    n >= 1,
                    k <= n,
                    members_of(o@).len() == n,
                    forall|j: int| 0 <= j < n ==> #[trigger] members_of(o@)[j] == (o@[j].0@,
                        val_of(&o@[j].1)),
                    k == 0 ==> out@ == old(out)@ + seq![123u8, 10u8],
                    k > 0 ==> out@ == old(out)@ + seq![123u8, 10u8] + pretty_members(
                        members_of(o@).take(k as int), d + 1),
                decreases n - k,
            {
                if k > 0 {
                    out.push(44);
                    out.push(10);
                }
                let ghost outpre = out@;
                let mut q: usize = 0;
                proof {
                    assert(out@ =~= outpre + inner@.take(0));
                }
                while q < inner.len()
                    invariant
                        q <= inner@.len(),
                        out@ == outpre + inner@.take(q as int),
                    decreases inner@.len() - q,
                {
                    out.push(inner[q]);
                    proof {
                        assert(inner@.take(q as int).push(inner@[q as int]) =~= inner@.take(
                            q as int + 1));
                        assert(out@ =~= outpre + inner@.take(q as int + 1));
                    }
                    q = q + 1;
                }
                proof {
                    assert(inner@.take(inner@.len() as int) =~= inner@);
                }
                out.push(34);
                write_str_body(o[k].0.as_str(), out);
                out.push(34);
                out.push(58);
                out.push(32);
                proof {
                    let gv = val_of(v);
                    let ms = members_of(o@);
                    assert(decreases_to!(gv => gv->Obj_0));
                    assert(decreases_to!(ms => ms[k as int]));
                    let pr = ms[k as int];
                    assert(decreases_to!(pr => pr.1));
                    assert(pr.1 == val_of(&o@[k as int].1));
                    assert(decreases_to!(gv => val_of(&o@[k as int].1)));
                }
                write_pretty(&o[k].1, &inner, Ghost(d + 1), out);
                proof {
                    assert(members_of(o@).take(k as int).push(members_of(o@)[k as int])
                        =~= members_of(o@).take(k as int + 1));
                    lemma_pretty_members_push(members_of(o@).take(k as int),
                        members_of(o@)[k as int], d + 1);
                    assert(out@ =~= old(out)@ + seq![123u8, 10u8] + pretty_members(members_of(
                        o@).take(k as int + 1), d + 1));
                }
                k = k + 1;
            }
            out.push(10);
            let ghost outpre2 = out@;
            let mut q2: usize = 0;
            proof {
                assert(out@ =~= outpre2 + pad@.take(0));
            }
            while q2 < pad.len()
                invariant
                    q2 <= pad@.len(),
                    out@ == outpre2 + pad@.take(q2 as int),
                decreases pad@.len() - q2,
            {
                out.push(pad[q2]);
                proof {
                    assert(pad@.take(q2 as int).push(pad@[q2 as int]) =~= pad@.take(q2 as int
                        + 1));
                    assert(out@ =~= outpre2 + pad@.take(q2 as int + 1));
                }
                q2 = q2 + 1;
            }
            out.push(125);
            proof {
                assert(pad@.take(pad@.len() as int) =~= pad@);
                assert(members_of(o@).take(n as int) =~= members_of(o@));
                assert(final(out)@ =~= old(out)@ + pretty_val(v@, d));
            }
        }
        _ => {
            write_value(v, out);
            proof {
                assert(pretty_val(v@, d) == ser_val(v@));
            }
        }
    }
}

/// Renders a value as pretty text: containers one member per line, two
/// spaces of indentation per level.
pub fn to_pretty_bytes(v: &JsonValue) -> (out: Vec<u8>)
    ensures
        out@ == pretty_val(v@, 0),
{
    let pad: Vec<u8> = Vec::new();
    let mut out: Vec<u8> = Vec::new();
    proof {
        assert(pad@ =~= indent(0));
    }
    write_pretty(v, &pad, Ghost(0), &mut out);
    proof {
        assert(out@ =~= pretty_val(v@, 0));
    }
    out
}

// ---------------------------------------------------------------------------
// Executable reader
// ---------------------------------------------------------------------------

/// Relies on char::from_u32: every Unicode scalar value (below the
/// surrogate range or above it, up to 0x10FFFF) names exactly the
/// character with that value.
#[verifier::external_body]
fn char_from_scalar(u: u32) -> (c: char)
    requires
        u < 0xD800 || (0xE000 <= u && u <= 0x10FFFF),
    ensures
        c as u32 == u,
        c == u as char,
{
    char::from_u32(u).unwrap()
}

/// Relies on String::push: it appends exactly the given character.
#[verifier::external_body]
fn string_push_char(s: &mut String, c: char)
    ensures
        final(s)@ == old(s)@.push(c),
{
    s.push(c);
}

fn is_ws_byte(b: u8) -> (r: bool)
    ensures
        r == is_ws(b),
{
    b == 32 || b == 9 || b == 10 || b == 13
}

fn skip_ws_run(s: &[u8], i: usize) -> (r: usize)
    requires
        i <= s@.len(),
    ensures
        r as int == skip_ws(s@, i as int),
        i <= r <= s@.len(),
{
    let mut j = i;
    while j < s.len() && is_ws_byte(s[j])
        invariant
            i <= j <= s@.len(),
            skip_ws(s@, i as int) == skip_ws(s@, j as int),
        decreases s@.len() - j,
    {
        j = j + 1;
    }
    j
}

/// The value of the four hexadecimal digit bytes at `at`, if they all are
/// hexadecimal digits.
fn read_hex4(s: &[u8], at: usize) -> (r: Option<u32>)
    requires
        at + 4 <= s@.len(),
    ensures
        match r {
            Some(u) => hex_val(s@.subrange(at as int, at as int + 4)) == u as int && u < 0x10000,
            None => hex_val(s@.subrange(at as int, at as int + 4)) < 0,
        },
{
    let b0 = s[at];
    let b1 = s[at + 1];
    let b2 = s[at + 2];
    let b3 = s[at + 3];
    proof {
        let h = s@.subrange(at as int, at as int + 4);
        assert(h.len() == 4);
        assert(h[0] == b0 && h[1] == b1 && h[2] == b2 && h[3] == b3);
        assert(h.last() == b3);
        assert(h.drop_last() =~= seq![b0, b1, b2]);
        assert(seq![b0, b1, b2].last() == b2);
        assert(seq![b0, b1, b2].drop_last() =~= seq![b0, b1]);
        assert(seq![b0, b1].last() == b1);
        assert(seq![b0, b1].drop_last() =~= seq![b0]);
        assert(seq![b0].last() == b0);
        assert(seq![b0].drop_last() =~= Seq::<u8>::empty());
        assert(hex_val(Seq::<u8>::empty()) == 0);
    }
    let d0 = hex_byte(b0);
    let d1 = hex_byte(b1);
    let d2 = hex_byte(b2);
    let d3 = hex_byte(b3);
    proof {
        let h = s@.subrange(at as int, at as int + 4);
        let v1 = hex_val(seq![b0]);
        let v2 = hex_val(seq![b0, b1]);
        let v3 = hex_val(seq![b0, b1, b2]);
        let v4 = hex_val(h);
        assert(v1 == if hex_byte_val(b0) < 0 { -1int } else { hex_byte_val(b0) });
        assert(v2 == if hex_byte_val(b1) < 0 || v1 < 0 { -1int } else { v1 * 16
            + hex_byte_val(b1) });
        assert(v3 == if hex_byte_val(b2) < 0 || v2 < 0 { -1int } else { v2 * 16
            + hex_byte_val(b2) });
        assert(v4 == if hex_byte_val(b3) < 0 || v3 < 0 { -1int } else { v3 * 16
            + hex_byte_val(b3) });
    }
    if d0 < 0 || d1 < 0 || d2 < 0 || d3 < 0 {
        None
    } else {
        let u = (d0 as u32) * 4096 + (d1 as u32) * 256 + (d2 as u32) * 16 + (d3 as u32);
        Some(u)
    }
}

fn hex_byte(b: u8) -> (r: i8)
    ensures
        r as int == hex_byte_val(b),
{
    if 48 <= b && b <= 57 {
        (b - 48) as i8
    } else if 97 <= b && b <= 102 {
        (b - 87) as i8
    } else if 65 <= b && b <= 70 {
        (b - 55) as i8
    } else {
        -1
    }
}

/// Continuing a string parse: what the whole parse yields, given the
/// characters read so far and the parse of the remainder.
pub open spec fn string_cont(acc: Seq<char>, m: Option<(Seq<char>, int)>) -> Option<(Seq<char>, int)> {
    match m {
        Some((cs, j)) => Some((acc + cs, j)),
        None => None,
    }
}

fn p_string(s: &[u8], i: usize) -> (r: Option<(String, usize)>)
    requires
        i <= s@.len(),
    ensures
        match r {
            Some((st, j)) => parse_string(s@, i as int) == Some((st@, j as int)) && i < j
                <= s@.len(),
            None => parse_string(s@, i as int) is None,
        },
{
    let mut acc = String::new();
    let mut cur = i;
    loop
        invariant
            i <= cur <= s@.len(),
            parse_string(s@, i as int) == string_cont(acc@, parse_string(s@, cur as int)),
        decreases s@.len() - cur,
    {
        if cur >= s.len() {
            return None;
        }
        let b = s[cur];
        if b == 34 {
            proof {
                assert(parse_string(s@, cur as int) == Some((Seq::<char>::empty(), cur as int
                    + 1)));
                assert(acc@ + Seq::<char>::empty() =~= acc@);
            }
            return Some((acc, cur + 1));
        } else if b == 92 {
            if s.len() - cur < 2 {
                return None;
            }
            let e = s[cur + 1];
            if e == 117 {
                if s.len() - cur < 6 {
                    return None;
                }
                match read_hex4(s, cur + 2) {
                    None => {
                        return None;
                    }
                    Some(u) => {
                        if 0xD800 <= u && u < 0xDC00 {
                            if s.len() - cur < 12 || s[cur + 6] != 92 || s[cur + 7] != 117 {
                                return None;
                            }
                            match read_hex4(s, cur + 8) {
                                None => {
                                    return None;
                                }
                                Some(u2) => {
                                    if !(0xDC00 <= u2 && u2 < 0xE000) {
                                        return None;
                                    }
                                    let uc = 0x10000 + (u - 0xD800) * 0x400 + (u2 - 0xDC00);
                                    let c = char_from_scalar(uc);
                                    proof {
                                        let m = parse_string(s@, cur as int + 12);
                                        assert(parse_string(s@, cur as int) == match m {
                                            Some((cs, j)) => Some((seq![c] + cs, j)),
                                            None => None::<(Seq<char>, int)>,
                                        });
                                        assert(string_cont(acc@, parse_string(s@, cur as int))
                                            == string_cont(acc@.push(c), m)) by {
                                            if m is Some {
                                                let (cs, j) = m->0;
                                                assert(acc@ + (seq![c] + cs) =~= acc@.push(c)
                                                    + cs);
                                            }
                                        }
                                    }
                                    string_push_char(&mut acc, c);
                                    cur = cur + 12;
                                }
                            }
                        } else if 0xDC00 <= u && u < 0xE000 {
                            return None;
                        } else {
                            let c = char_from_scalar(u);
                            proof {
                                let m = parse_string(s@, cur as int + 6);
                                assert(parse_string(s@, cur as int) == match m {
                                    Some((cs, j)) => Some((seq![c] + cs, j)),
                                    None => None::<(Seq<char>, int)>,
                                });
                                assert(string_cont(acc@, parse_string(s@, cur as int))
                                    == string_cont(acc@.push(c), m)) by {
                                    if m is Some {
                                        let (cs, j) = m->0;
                                        assert(acc@ + (seq![c] + cs) =~= acc@.push(c) + cs);
                                    }
                                }
                            }
                            string_push_char(&mut acc, c);
                            cur = cur + 6;
                        }
                    }
                }
            } else {
                let c: char = if e == 34 {
                    '"'
                } else if e == 92 {
                    '\\'
                } else if e == 47 {
                    '/'
                } else if e == 110 {
                    '\n'
                } else if e == 116 {
                    '\t'
                } else if e == 114 {
                    '\r'
                } else if e == 98 {
                    8u8 as char
                } else if e == 102 {
                    12u8 as char
                } else {
                    ' '
                };
                let known = e == 34 || e == 92 || e == 47 || e == 110 || e == 116 || e == 114
                    || e == 98 || e == 102;
                if !known {
                    return None;
                }
                proof {
                    let m = parse_string(s@, cur as int + 2);
                    assert(parse_string(s@, cur as int) == match m {
                        Some((cs, j)) => Some((seq![c] + cs, j)),
                        None => None::<(Seq<char>, int)>,
                    });
                    assert(string_cont(acc@, parse_string(s@, cur as int)) == string_cont(
                        acc@.push(c), m)) by {
                        if m is Some {
                            let (cs, j) = m->0;
                            assert(acc@ + (seq![c] + cs) =~= acc@.push(c) + cs);
                        }
                    }
                }
                string_push_char(&mut acc, c);
                cur = cur + 2;
            }
        } else if 32 <= b && b < 127 {
            let c = b as char;
            proof {
                let m = parse_string(s@, cur as int + 1);
                assert(parse_string(s@, cur as int) == match m {
                    Some((cs, j)) => Some((seq![c] + cs, j)),
                    None => None::<(Seq<char>, int)>,
                });
                assert(string_cont(acc@, parse_string(s@, cur as int)) == string_cont(
                    acc@.push(c), m)) by {
                    if m is Some {
                        let (cs, j) = m->0;
                        assert(acc@ + (seq![c] + cs) =~= acc@.push(c) + cs);
                    }
                }
            }
            string_push_char(&mut acc, c);
            cur = cur + 1;
        } else if b >= 128 {
            // a raw UTF-8 sequence from another producer
            let width: usize;
            let u: u32;
            if 0xc0 <= b && b <= 0xdf && s.len() - cur >= 2 && 0x80 <= s[cur + 1] && s[cur
                + 1] <= 0xbf {
                let b1 = s[cur + 1];
                u = (((b & 0x1f) as u32) << 6) | ((b1 & 0x3f) as u32);
                if u < 0x80 {
                    return None;
                }
                proof {
                    assert(u <= 0x7ff) by (bit_vector)
                        requires u == (((b & 0x1f) as u32) << 6) | ((b1 & 0x3f) as u32);
                }
                width = 2;
            } else if 0xe0 <= b && b <= 0xef && s.len() - cur >= 3 && 0x80 <= s[cur + 1]
                && s[cur + 1] <= 0xbf && 0x80 <= s[cur + 2] && s[cur + 2] <= 0xbf {
                let b1 = s[cur + 1];
                let b2 = s[cur + 2];
                u = (((b & 0x0f) as u32) << 12) | (((b1 & 0x3f) as u32) << 6) | ((b2
                    & 0x3f) as u32);
                if u < 0x800 || (0xD800 <= u && u <= 0xDFFF) {
                    return None;
                }
                proof {
                    assert(u <= 0xffff) by (bit_vector)
                        requires u == (((b & 0x0f) as u32) << 12) | (((b1 & 0x3f) as u32)
                            << 6) | ((b2 & 0x3f) as u32);
                }
                width = 3;
            } else if 0xf0 <= b && b <= 0xf7 && s.len() - cur >= 4 && 0x80 <= s[cur + 1]
                && s[cur + 1] <= 0xbf && 0x80 <= s[cur + 2] && s[cur + 2] <= 0xbf && 0x80
                <= s[cur + 3] && s[cur + 3] <= 0xbf {
                let b1 = s[cur + 1];
                let b2 = s[cur + 2];
                let b3 = s[cur + 3];
                u = (((b & 0x07) as u32) << 18) | (((b1 & 0x3f) as u32) << 12) | (((b2
                    & 0x3f) as u32) << 6) | ((b3 & 0x3f) as u32);
                if u < 0x10000 || u > 0x10FFFF {
                    return None;
                }
                width = 4;
            } else {
                return None;
            }
            let c = char_from_scalar(u);
            proof {
                let m = parse_string(s@, cur as int + width as int);
                assert(parse_string(s@, cur as int) == match m {
                    Some((cs, j)) => Some((seq![c] + cs, j)),
                    None => None::<(Seq<char>, int)>,
                });
                assert(string_cont(acc@, parse_string(s@, cur as int)) == string_cont(
                    acc@.push(c), m)) by {
                    if m is Some {
                        let (cs, j) = m->0;
                        assert(acc@ + (seq![c] + cs) =~= acc@.push(c) + cs);
                    }
                }
            }
            string_push_char(&mut acc, c);
            cur = cur + width;
        } else {
            return None;
        }
    }
}

/// A run of decimal digit bytes has a non-negative value, and the value
/// of a prefix never exceeds the value of the whole run.
proof fn lemma_digits_val_nonneg(ds: Seq<u8>)
    requires
        forall|k: int| 0 <= k < ds.len() ==> 48 <= #[trigger] ds[k] <= 57,
    ensures
        digits_val(ds) >= 0,
    decreases ds.len(),
{
    if ds.len() > 0 {
        lemma_digits_val_nonneg(ds.drop_last());
    }
}

proof fn lemma_digits_val_prefix(s: Seq<u8>, d0: int, t: int, dend: int)
    requires
        0 <= d0 <= t <= dend <= s.len(),
        forall|k: int| d0 <= k < dend ==> 48 <= #[trigger] s[k] <= 57,
    ensures
        digits_val(s.subrange(d0, t)) <= digits_val(s.subrange(d0, dend)),
    decreases dend - t,
{
    assert forall|k: int| 0 <= k < s.subrange(d0, t).len()
        implies 48 <= #[trigger] s.subrange(d0, t)[k] <= 57 by {
        assert(s.subrange(d0, t)[k] == s[d0 + k]);
    }
    lemma_digits_val_nonneg(s.subrange(d0, t));
    if t < dend {
        assert(s.subrange(d0, t + 1).drop_last() =~= s.subrange(d0, t));
        assert(s.subrange(d0, t + 1).last() == s[t]);
        assert(digits_val(s.subrange(d0, t + 1)) == digits_val(s.subrange(d0, t)) * 10 + (s[t]
            - 48));
        assert(digits_val(s.subrange(d0, t)) <= digits_val(s.subrange(d0, t + 1)));
        lemma_digits_val_prefix(s, d0, t + 1, dend);
    }
}

/// Accumulates a digit run as a 64-bit magnitude, or reports that it
/// exceeds the given limit.
fn digits_to_u64(s: &[u8], d0: usize, dend: usize, limit: u64) -> (r: Option<u64>)
    requires
        d0 <= dend <= s@.len(),
        limit >= 9,
        forall|k: int| d0 <= k < dend ==> 48 <= #[trigger] s@[k] <= 57,
    ensures
        match r {
            Some(a) => a as int == digits_val(s@.subrange(d0 as int, dend as int)) && a
                <= limit,
            None => digits_val(s@.subrange(d0 as int, dend as int)) > limit,
        },
{
    let ghost whole = s@.subrange(d0 as int, dend as int);
    let mut acc: u64 = 0;
    let mut t = d0;
    proof {
        assert(s@.subrange(d0 as int, d0 as int) =~= Seq::<u8>::empty());
    }
    while t < dend
        invariant
            d0 <= t <= dend <= s@.len(),
            limit >= 9,
            forall|k: int| d0 <= k < dend ==> 48 <= #[trigger] s@[k] <= 57,
            acc as int == digits_val(s@.subrange(d0 as int, t as int)),
            acc <= limit,
            whole == s@.subrange(d0 as int, dend as int),
        decreases dend - t,
    {
        let d = (s[t] - 48) as u64;
        proof {
            assert(s@.subrange(d0 as int, t as int + 1).drop_last() =~= s@.subrange(d0 as int,
                t as int));
            assert(s@.subrange(d0 as int, t as int + 1).last() == s@[t as int]);
        }
        if acc > (limit - d) / 10 {
            proof {
                assert(acc * 10 + d > limit) by {
                    assert(acc >= (limit - d) / 10 + 1);
                    assert(((limit - d) / 10 + 1) * 10 >= limit - d + 1) by {
                        lemma_fundamental_div_mod((limit - d) as int, 10);
                    }
                    assert(acc * 10 >= ((limit - d) / 10 + 1) * 10) by (nonlinear_arith)
                        requires acc >= (limit - d) / 10 + 1;
                }
                assert(digits_val(s@.subrange(d0 as int, t as int + 1)) > limit);
                lemma_digits_val_prefix(s@, d0 as int, t as int + 1, dend as int);
                assert(digits_val(whole) > limit);
            }
            return None;
        }
        proof {
            assert(acc * 10 + d <= limit) by {
                assert(acc <= (limit - d) / 10);
                assert(((limit - d) / 10) * 10 <= limit - d) by {
                    lemma_fundamental_div_mod((limit - d) as int, 10);
                }
                assert(acc * 10 <= ((limit - d) / 10) * 10) by (nonlinear_arith)
                    requires acc <= (limit - d) / 10;
            }
        }
        acc = acc * 10 + d;
        t = t + 1;
    }
    Some(acc)
}

#[verifier::rlimit(100)]
pub(crate) fn p_number(s: &[u8], i: usize) -> (r: Option<(JsonValue, usize)>)
    requires
        i <= s@.len(),
    ensures
        match r {
            Some((v, j)) => parse_number(s@, i as int) == Some((val_of(&v), j as int)) && i
                < j <= s@.len(),
            None => parse_number(s@, i as int) is None,
        },
{
    let neg = i < s.len() && s[i] == 45;
    let d0 = if neg {
        i + 1
    } else {
        i
    };
    // the integer digit run
    let mut dend = d0;
    while dend < s.len() && 48 <= s[dend] && s[dend] <= 57
        invariant
            d0 <= dend <= s@.len(),
            digits_end(s@, d0 as int) == digits_end(s@, dend as int),
            forall|k: int| d0 <= k < dend ==> 48 <= #[trigger] s@[k] <= 57,
        decreases s@.len() - dend,
    {
        dend = dend + 1;
    }
    assert(digits_end(s@, d0 as int) == dend);
    if dend == d0 {
        return None;
    }
    if dend - d0 > 1 && s[d0] == 48 {
        return None;
    }
    // the fraction
    let has_frac = dend < s.len() && s[dend] == 46;
    let mut fend = dend;
    if has_frac {
        fend = dend + 1;
        while fend < s.len() && 48 <= s[fend] && s[fend] <= 57
            invariant
                dend + 1 <= fend <= s@.len(),
                digits_end(s@, dend as int + 1) == digits_end(s@, fend as int),
            decreases s@.len() - fend,
        {
            fend = fend + 1;
        }
        assert(digits_end(s@, dend as int + 1) == fend);
        if fend == dend + 1 {
            return None;
        }
    }
    // the exponent
    let has_exp = fend < s.len() && (s[fend] == 101 || s[fend] == 69);
    let mut end = fend;
    let mut epos: usize = 0;
    if has_exp {
        epos = fend + 1;
        if epos < s.len() && (s[epos] == 43 || s[epos] == 45) {
            epos = epos + 1;
        }
        let mut eend = epos;
        while eend < s.len() && 48 <= s[eend] && s[eend] <= 57
            invariant
                epos <= eend <= s@.len(),
                digits_end(s@, epos as int) == digits_end(s@, eend as int),
            decreases s@.len() - eend,
        {
            eend = eend + 1;
        }
        assert(digits_end(s@, epos as int) == eend);
        if eend == epos {
            return None;
        }
        end = eend;
    }
    // a plain integer within the 64-bit range
    if !has_frac && !has_exp {
        let limit: u64 = if neg {
            0x8000_0000_0000_0000
        } else {
            0x7fff_ffff_ffff_ffff
        };
        match digits_to_u64(s, d0, dend, limit) {
            Some(acc) => {
                if neg {
                    let n = (-(acc as i128)) as i64;
                    assert(n as int == -(acc as int));
                    return Some((JsonValue::Int(n), end));
                } else {
                    let n = acc as i64;
                    return Some((JsonValue::Int(n), end));
                }
            }
            None => {}
        }
    }
    // the verbatim form: capture the lexeme's exact bytes
    proof {
        assert(parse_number(s@, i as int) == Some((Val::Num(s@.subrange(i as int,
            end as int)), end as int)));
    }
    let mut lexeme: Vec<u8> = Vec::new();
    let mut k = i;
    proof {
        assert(s@.subrange(i as int, i as int) =~= Seq::<u8>::empty());
    }
    while k < end
        invariant
            i <= k <= end <= s@.len(),
            lexeme@ == s@.subrange(i as int, k as int),
        decreases end - k,
    {
        lexeme.push(s[k]);
        proof {
            assert(s@.subrange(i as int, k as int).push(s@[k as int]) =~= s@.subrange(
                i as int, k as int + 1));
        }
        k = k + 1;
    }
    proof {
        lemma_parse_number_narrow(s@, i as int);
        assert(num_lexeme(lexeme@));
    }
    let nl = crate::value::NumberLit::from_verified(lexeme);
    Some((JsonValue::Num(nl), end))
}

/// What the executable reader returns agrees with the reading relation.
pub open spec fn matches_val(r: Option<(JsonValue, usize)>, m: Option<(Val, int)>) -> bool {
    match (r, m) {
        (Option::None, Option::None) => true,
        (Option::Some((jv, j)), Option::Some((mv, mi))) => val_of(&jv) == mv && j as int == mi,
        _ => false,
    }
}

pub open spec fn matches_elems(r: Option<(Vec<JsonValue>, usize)>, m: Option<(Seq<Val>, int)>) -> bool {
    match (r, m) {
        (Option::None, Option::None) => true,
        (Option::Some((jv, j)), Option::Some((mv, mi))) => vals_of(jv@) == mv && j as int == mi,
        _ => false,
    }
}

pub open spec fn matches_members(
    r: Option<(Vec<(String, JsonValue)>, usize)>,
    m: Option<(Seq<(Seq<char>, Val)>, int)>,
) -> bool {
    match (r, m) {
        (Option::None, Option::None) => true,
        (Option::Some((jv, j)), Option::Some((mv, mi))) => members_of(jv@) == mv && j as int
            == mi,
        _ => false,
    }
}

fn p_value(s: &[u8], i: usize) -> (r: Option<(JsonValue, usize)>)
    requires
        i <= s@.len(),
    ensures
        matches_val(r, parse_value(s@, i as int)),
        r matches Some((_, j)) ==> i < j <= s@.len(),
    decreases s@.len() - i, 1int,
{
    let j = skip_ws_run(s, i);
    if j >= s.len() {
        return None;
    }
    let b = s[j];
    if b == 110 {
        if s.len() - j >= 4 && s[j + 1] == 117 && s[j + 2] == 108 && s[j + 3] == 108 {
            Some((JsonValue::Null, j + 4))
        } else {
            None
        }
    } else if b == 116 {
        if s.len() - j >= 4 && s[j + 1] == 114 && s[j + 2] == 117 && s[j + 3] == 101 {
            Some((JsonValue::Bool(true), j + 4))
        } else {
            None
        }
    } else if b == 102 {
        if s.len() - j >= 5 && s[j + 1] == 97 && s[j + 2] == 108 && s[j + 3] == 115 && s[j + 4]
            == 101 {
            Some((JsonValue::Bool(false), j + 5))
        } else {
            None
        }
    } else if b == 34 {
        match p_string(s, j + 1) {
            Some((st, k)) => Some((JsonValue::Str(st), k)),
            None => None,
        }
    } else if b == 91 {
        let k = skip_ws_run(s, j + 1);
        if k < s.len() && s[k] == 93 {
            let out: Vec<JsonValue> = Vec::new();
            proof {
                assert(vals_of(out@) =~= Seq::<Val>::empty());
            }
            Some((JsonValue::Array(out), k + 1))
        } else {
            match p_elems(s, j + 1) {
                Some((vs, k2)) => Some((JsonValue::Array(vs), k2)),
                None => None,
            }
        }
    } else if b == 123 {
        let k = skip_ws_run(s, j + 1);
        if k < s.len() && s[k] == 125 {
            let out: Vec<(String, JsonValue)> = Vec::new();
            proof {
                assert(members_of(out@) =~= Seq::<(Seq<char>, Val)>::empty());
            }
            Some((JsonValue::Object(out), k + 1))
        } else {
            match p_members(s, j + 1) {
                Some((ms, k2)) => Some((JsonValue::Object(ms), k2)),
                None => None,
            }
        }
    } else if b == 45 || (48 <= b && b <= 57) {
        match p_number(s, j) {
            Some((v, k)) => Some((v, k)),
            None => None,
        }
    } else {
        None
    }
}

fn p_elems(s: &[u8], i: usize) -> (r: Option<(Vec<JsonValue>, usize)>)
    requires
        i <= s@.len(),
    ensures
        matches_elems(r, parse_elems(s@, i as int)),
        r matches Some((_, j)) ==> i < j <= s@.len(),
    decreases s@.len() - i, 2int,
{
    match p_value(s, i) {
        None => None,
        Some((v, i2)) => {
            let k = skip_ws_run(s, i2);
            if k < s.len() && s[k] == 44 {
                match p_elems(s, k + 1) {
                    None => None,
                    Some((mut vs, i3)) => {
                        let ghost pre = vs@;
                        vs.insert(0, v);
                        proof {
                            assert(vs@ =~= seq![v] + pre);
                            crate::value::lemma_vals_of_index(vs@);
                            crate::value::lemma_vals_of_index(pre);
                            assert(vals_of(vs@) =~= seq![val_of(&v)] + vals_of(pre));
                        }
                        Some((vs, i3))
                    }
                }
            } else if k < s.len() && s[k] == 93 {
                let mut out: Vec<JsonValue> = Vec::new();
                out.push(v);
                proof {
                    crate::value::lemma_vals_of_index(out@);
                    assert(vals_of(out@) =~= seq![val_of(&v)]);
                }
                Some((out, k + 1))
            } else {
                None
            }
        }
    }
}

fn p_members(s: &[u8], i: usize) -> (r: Option<(Vec<(String, JsonValue)>, usize)>)
    requires
        i <= s@.len(),
    ensures
        matches_members(r, parse_members(s@, i as int)),
        r matches Some((_, j)) ==> i < j <= s@.len(),
    decreases s@.len() - i, 2int,
{
    let j = skip_ws_run(s, i);
    if j < s.len() && s[j] == 34 {
        match p_string(s, j + 1) {
            None => None,
            Some((key, i2)) => {
                let k = skip_ws_run(s, i2);
                if k < s.len() && s[k] == 58 {
                    match p_value(s, k + 1) {
                        None => None,
                        Some((v, i3)) => {
                            let k2 = skip_ws_run(s, i3);
                            if k2 < s.len() && s[k2] == 44 {
                                match p_members(s, k2 + 1) {
                                    None => None,
                                    Some((mut ms, i4)) => {
                                        let ghost pre = ms@;
                                        ms.insert(0, (key, v));
                                        proof {
                                            assert(ms@ =~= seq![(key, v)] + pre);
                                            crate::value::lemma_members_of_index(ms@);
                                            crate::value::lemma_members_of_index(pre);
                                            assert(members_of(ms@) =~= seq![(key@, val_of(&v))]
                                                + members_of(pre));
                                        }
                                        Some((ms, i4))
                                    }
                                }
                            } else if k2 < s.len() && s[k2] == 125 {
                                let mut out: Vec<(String, JsonValue)> = Vec::new();
                                out.push((key, v));
                                proof {
                                    crate::value::lemma_members_of_index(out@);
                                    assert(members_of(out@) =~= seq![(key@, val_of(&v))]);
                                }
                                Some((out, k2 + 1))
                            } else {
                                None
                            }
                        }
                    }
                } else {
                    None
                }
            }
        }
    } else {
        None
    }
}

/// Reads a whole text into a value; yields nothing exactly when the
/// reading relation rejects the bytes.
pub fn from_json_bytes(s: &[u8]) -> (r: Option<JsonValue>)
    ensures
        match r {
            Some(v) => parse_text(s@) == Some(val_of(&v)),
            None => parse_text(s@) is None,
        },
{
    match p_value(s, 0) {
        None => None,
        Some((v, j)) => {
            let k = skip_ws_run(s, j);
            if k == s.len() {
                Some(v)
            } else {
                None
            }
        }
    }
}

} // verus!
