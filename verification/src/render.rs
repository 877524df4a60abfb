//! Turning tree values into text: the compact one-line serialization used
//! inside `old => new` substitutions, and the indented multi-line renderer
//! for whole diff trees.

use vstd::prelude::*;
use vstd::string::StrSliceExecFns;
use vstd::string::StringExecFns;
use crate::{Json, Jv, model_arr, model_obj};
use crate::{lemma_model_arr_len, lemma_model_arr_index, lemma_model_obj_len, lemma_model_obj_index};
use crate::distance::str_chars;

verus! {

/// The hexadecimal digit for a value below sixteen.
pub open spec fn hex_char(d: int) -> char {
    if d < 10 {
        crate::value::digit_char(d)
    } else if d == 10 {
        'a'
    } else if d == 11 {
        'b'
    } else if d == 12 {
        'c'
    } else if d == 13 {
        'd'
    } else if d == 14 {
        'e'
    } else {
        'f'
    }
}

/// How one character is written inside a quoted string: quotes and
/// backslashes get a backslash, the common control characters get their
/// short escapes, any other control character is written as `\u00..`,
/// and everything else stands for itself.
pub open spec fn esc_char(c: char) -> Seq<char> {
    if c == '"' {
        seq!['\\', '"']
    } else if c == '\\' {
        seq!['\\', '\\']
    } else if c == '\u{8}' {
        seq!['\\', 'b']
    } else if c == '\u{c}' {
        seq!['\\', 'f']
    } else if c == '\n' {
        seq!['\\', 'n']
    } else if c == '\r' {
        seq!['\\', 'r']
    } else if c == '\t' {
        seq!['\\', 't']
    } else {
        let code = c as u32 as int;
        if code < 32 {
            seq!['\\', 'u', '0', '0'] + seq![hex_char(code / 16)] + seq![hex_char(code % 16)]
        } else {
            seq![c]
        }
    }
}

/// A string with every character escaped for quoting.
pub open spec fn esc_str(s: Seq<char>) -> Seq<char>
    decreases s.len(),
{
    if s.len() == 0 {
        Seq::empty()
    } else {
        esc_char(s[0]) + esc_str(s.drop_first())
    }
}

/// The compact one-line text of a value: the form in which changed values
/// are written into `old => new` substitution strings.
pub open spec fn to_text(v: Jv) -> Seq<char>
    decreases v, 0int,
{
    match v {
        Jv::Null => "null"@,
        Jv::Bool(b) => if b {
            "true"@
        } else {
            "false"@
        },
        Jv::Num(t) => t,
        Jv::Str(s) => seq!['"'] + esc_str(s) + seq!['"'],
        Jv::Arr(els) => seq!['['] + text_items(els) + seq![']'],
        Jv::Obj(o) => seq!['{'] + text_entries(o) + seq!['}'],
    }
}

/// The elements of an array in compact text, comma-separated.
pub open spec fn text_items(els: Seq<Jv>) -> Seq<char>
    decreases els, 1int,
{
    if els.len() == 0 {
        Seq::empty()
    } else if els.len() == 1 {
        to_text(els[0])
    } else {
        to_text(els[0]) + seq![','] + text_items(els.drop_first())
    }
}

/// The entries of a mapping in compact text, comma-separated.
pub open spec fn text_entries(o: Seq<(Seq<char>, Jv)>) -> Seq<char>
    decreases o, 1int,
{
    if o.len() == 0 {
        Seq::empty()
    } else {
        let entry = seq!['"'] + esc_str(o[0].0) + seq!['"'] + seq![':'] + to_text(o[0].1);
        if o.len() == 1 {
            entry
        } else {
            entry + seq![','] + text_entries(o.drop_first())
        }
    }
}

/// The hexadecimal digit of a value below sixteen, as a one-character
/// string.
fn hex_str(d: u32) -> (r: &'static str)
    requires
        d < 16,
    ensures
        r@ == seq![hex_char(d as int)],
{
    proof {
        reveal_strlit("0");
        reveal_strlit("1");
        reveal_strlit("2");
        reveal_strlit("3");
        reveal_strlit("4");
        reveal_strlit("5");
        reveal_strlit("6");
        reveal_strlit("7");
        reveal_strlit("8");
        reveal_strlit("9");
        reveal_strlit("a");
        reveal_strlit("b");
        reveal_strlit("c");
        reveal_strlit("d");
        reveal_strlit("e");
        reveal_strlit("f");
    }
    match d {
        0 => "0",
        1 => "1",
        2 => "2",
        3 => "3",
        4 => "4",
        5 => "5",
        6 => "6",
        7 => "7",
        8 => "8",
        9 => "9",
        10 => "a",
        11 => "b",
        12 => "c",
        13 => "d",
        14 => "e",
        _ => "f",
    }
}

/// Append the escaped form of `s` to `out`.
fn push_escaped(out: &mut String, s: &str)
    ensures
        final(out)@ == old(out)@ + esc_str(s@),
{
    let chars = str_chars(s);
    let n = chars.len();
    let mut i: usize = 0;
    proof {
        assert(s@.skip(0int) =~= s@);
        assert(old(out)@ + Seq::<char>::empty() =~= old(out)@);
    }
    while i < n
        invariant
            n == s@.len(),
            i <= n,
            chars@ == s@,
            old(out)@ + esc_str(s@) == out@ + esc_str(s@.skip(i as int)),
        decreases n - i,
    {
        proof {
            assert(s@.skip(i as int)[0] == s@[i as int]);
            assert(s@.skip(i as int).drop_first() =~= s@.skip(i as int + 1));
            reveal_strlit("\\\"");
            reveal_strlit("\\\\");
            reveal_strlit("\\b");
            reveal_strlit("\\f");
            reveal_strlit("\\n");
            reveal_strlit("\\r");
            reveal_strlit("\\t");
            reveal_strlit("\\u00");
        }
        let c = chars[i];
        if c == '"' {
            out.append("\\\"");
            proof {
                assert("\\\""@ =~= esc_char(c));
            }
        } else if c == '\\' {
            out.append("\\\\");
            proof {
                assert("\\\\"@ =~= esc_char(c));
            }
        } else if c == '\u{8}' {
            out.append("\\b");
            proof {
                assert("\\b"@ =~= esc_char(c));
            }
        } else if c == '\u{c}' {
            out.append("\\f");
            proof {
                assert("\\f"@ =~= esc_char(c));
            }
        } else if c == '\n' {
            out.append("\\n");
            proof {
                assert("\\n"@ =~= esc_char(c));
            }
        } else if c == '\r' {
            out.append("\\r");
            proof {
                assert("\\r"@ =~= esc_char(c));
            }
        } else if c == '\t' {
            out.append("\\t");
            proof {
                assert("\\t"@ =~= esc_char(c));
            }
        } else if (c as u32) < 32 {
            let code = c as u32;
            out.append("\\u00");
            out.append(hex_str(code / 16));
            out.append(hex_str(code % 16));
            proof {
                assert("\\u00"@ + seq![hex_char(code as int / 16)] + seq![
                    hex_char(code as int % 16),
                ] =~= esc_char(c));
            }
        } else {
            out.append(single_char_str(c).as_str());
            proof {
                assert(seq![c] =~= esc_char(c));
            }
        }
        proof {
            assert(out@ + esc_str(s@.skip(i as int + 1)) =~= old(out)@ + esc_str(s@));
        }
        i += 1;
    }
    proof {
        assert(s@.skip(n as int) =~= Seq::<char>::empty());
        assert(out@ + Seq::<char>::empty() =~= out@);
    }
}

/// The compact one-line text of a value.
pub fn json_text(v: &Json) -> (r: String)
    ensures
        r@ == to_text(v@),
    decreases *v,
{
    match v {
        Json::Null => String::from_str("null"),
        Json::Bool(b) => {
            if *b {
                String::from_str("true")
            } else {
                String::from_str("false")
            }
        }
        Json::Num(t) => t.clone(),
        Json::Str(s) => {
            proof {
                reveal_strlit("\"");
            }
            let mut out = String::from_str("\"");
            push_escaped(&mut out, s.as_str());
            out.append("\"");
            proof {
                assert(out@ =~= seq!['"'] + esc_str(s@) + seq!['"']);
            }
            out
        }
        Json::Arr(els) => {
            proof {
                reveal_strlit("[");
                reveal_strlit("]");
                reveal_strlit(",");
                lemma_model_arr_len(els@);
            }
            let ghost m = model_arr(els@);
            let mut out = String::from_str("[");
            let n = els.len();
            let mut i: usize = 0;
            proof {
                assert(m.skip(0int) =~= m);
                assert(out@ =~= seq!['['] + Seq::<char>::empty());
            }
            while i < n
                invariant
                    n == els@.len(),
                    i <= n,
                    m == model_arr(els@),
                    m.len() == n,
                    decreases_to!(*v => *els),
                    seq!['['] + text_items(m) =~= out@ + text_items(m.skip(i as int)),
                decreases n - i,
            {
                proof {
                    assert(decreases_to!(*els => els@));
                    assert(decreases_to!(els@ => els@[i as int]));
                    lemma_model_arr_index(els@, i as int);
                    assert(m.skip(i as int)[0] == m[i as int]);
                    assert(m.skip(i as int).drop_first() =~= m.skip(i as int + 1));
                    reveal_strlit(",");
                }
                let piece = json_text(&els[i]);
                out.append(piece.as_str());
                if i + 1 < n {
                    out.append(",");
                }
                proof {
                    assert(seq!['['] + text_items(m) =~= out@ + text_items(m.skip(i as int + 1)));
                }
                i += 1;
            }
            out.append("]");
            proof {
                assert(m.skip(n as int) =~= Seq::<Jv>::empty());
                assert(out@ =~= seq!['['] + text_items(m) + seq![']']);
            }
            out
        }
        Json::Obj(o) => {
            proof {
                reveal_strlit("{");
                reveal_strlit("}");
                reveal_strlit(",");
                reveal_strlit(":");
                reveal_strlit("\"");
                lemma_model_obj_len(o@);
            }
            let ghost m = model_obj(o@);
            let mut out = String::from_str("{");
            let n = o.len();
            let mut i: usize = 0;
            proof {
                assert(m.skip(0int) =~= m);
                assert(out@ =~= seq!['{'] + Seq::<char>::empty());
            }
            while i < n
                invariant
                    n == o@.len(),
                    i <= n,
                    m == model_obj(o@),
                    m.len() == n,
                    decreases_to!(*v => *o),
                    seq!['{'] + text_entries(m) =~= out@ + text_entries(m.skip(i as int)),
                decreases n - i,
            {
                proof {
                    assert(decreases_to!(*o => o@));
                    assert(decreases_to!(o@ => o@[i as int]));
                    assert(decreases_to!(o@[i as int] => o@[i as int].1));
                    lemma_model_obj_index(o@, i as int);
                    assert(m.skip(i as int)[0] == m[i as int]);
                    assert(m.skip(i as int).drop_first() =~= m.skip(i as int + 1));
                    reveal_strlit(",");
                    reveal_strlit(":");
                    reveal_strlit("\"");
                }
                out.append("\"");
                push_escaped(&mut out, o[i].0.as_str());
                out.append("\"");
                out.append(":");
                let piece = json_text(&o[i].1);
                out.append(piece.as_str());
                if i + 1 < n {
                    out.append(",");
                }
                proof {
                    assert(seq!['{'] + text_entries(m) =~= out@ + text_entries(
                        m.skip(i as int + 1),
                    ));
                }
                i += 1;
            }
            out.append("}");
            proof {
                assert(m.skip(n as int) =~= Seq::<(Seq<char>, Jv)>::empty());
                assert(out@ =~= seq!['{'] + text_entries(m) + seq!['}']);
            }
            out
        }
    }
}

/// Relies on char::to_string from std: the resulting string holds exactly
/// the one character.
#[verifier::external_body]
fn single_char_str(c: char) -> (r: String)
    ensures
        r@ == seq![c],
{
    c.to_string()
}

/// A run of spaces.
pub open spec fn spaces(n: nat) -> Seq<char>
    decreases n,
{
    if n == 0 {
        Seq::empty()
    } else {
        spaces((n - 1) as nat) + seq![' ']
    }
}

/// The position of the first ` => ` separator at or after `i`, or minus
/// one.
pub open spec fn first_sep_from(s: Seq<char>, i: int) -> int
    decreases s.len() - i,
{
    if i < 0 || i + 4 > s.len() {
        -1
    } else if s.subrange(i, i + 4) == crate::value::sep_seq() {
        i
    } else {
        first_sep_from(s, i + 1)
    }
}

/// Whether the string ends with the given four-character marker.
pub open spec fn ends_with4(s: Seq<char>, m: Seq<char>) -> bool {
    s.len() >= 4 && s.subrange(s.len() - 4, s.len() as int) == m
}

/// How a diff string renders: an `old => new` pair splits at the first
/// separator and each side is quoted; a trailing `[+]` or `[-]` marker
/// moves outside the quotes; anything else is simply quoted.  Embedded
/// quotes are not escaped here.
pub open spec fn format_string(s: Seq<char>) -> Seq<char> {
    let p = first_sep_from(s, 0);
    if p >= 0 {
        seq!['"'] + s.subrange(0, p) + seq!['"'] + crate::value::sep_seq() + seq!['"'] + s.subrange(
            p + 4,
            s.len() as int,
        ) + seq!['"']
    } else if ends_with4(s, crate::value::add_seq()) {
        seq!['"'] + s.subrange(0, s.len() - 4) + seq!['"'] + crate::value::add_seq()
    } else if ends_with4(s, crate::value::del_seq()) {
        seq!['"'] + s.subrange(0, s.len() - 4) + seq!['"'] + crate::value::del_seq()
    } else {
        seq!['"'] + s + seq!['"']
    }
}

/// One rendered mapping entry: indented, the key quoted verbatim, a
/// colon and a space, then the rendered value.
pub open spec fn entry_line(k: Seq<char>, v: Jv, ind: nat) -> Seq<char>
    decreases v, 1int,
{
    spaces(ind + 2) + seq!['"'] + k + seq!['"', ':', ' '] + spec_format(v, ind + 2)
}

/// The rendered entries other than `idx` ones, each preceded by a comma
/// and a line break.
pub open spec fn rest_lines(o: Seq<(Seq<char>, Jv)>, ind: nat) -> Seq<char>
    decreases o, 2int,
{
    if o.len() == 0 {
        Seq::empty()
    } else if o[0].0 == "idx"@ {
        rest_lines(o.drop_first(), ind)
    } else {
        seq![',', '\n'] + entry_line(o[0].0, o[0].1, ind) + rest_lines(o.drop_first(), ind)
    }
}

/// The rendered entries other than `idx` ones, the first without a
/// leading comma.
pub open spec fn first_then_rest(o: Seq<(Seq<char>, Jv)>, ind: nat) -> Seq<char>
    decreases o, 2int,
{
    if o.len() == 0 {
        Seq::empty()
    } else if o[0].0 == "idx"@ {
        first_then_rest(o.drop_first(), ind)
    } else {
        entry_line(o[0].0, o[0].1, ind) + rest_lines(o.drop_first(), ind)
    }
}

/// The rendered elements of an array, one per line, comma-separated.
pub open spec fn item_lines(els: Seq<Jv>, ind: nat) -> Seq<char>
    decreases els, 1int,
{
    if els.len() == 0 {
        Seq::empty()
    } else if els.len() == 1 {
        spaces(ind + 2) + spec_format(els[0], ind + 2)
    } else {
        spaces(ind + 2) + spec_format(els[0], ind + 2) + seq![',', '\n'] + item_lines(
            els.drop_first(),
            ind,
        )
    }
}

/// The indented, human-readable rendering of a diff tree: empty
/// containers as `{}` / `[]`, mappings as brace blocks with any `idx`
/// entry first, arrays as bracket blocks, strings with the comparator's
/// markers interpreted, and scalars by their natural text.
pub open spec fn spec_format(v: Jv, ind: nat) -> Seq<char>
    decreases v, 0int,
    via spec_format_decreases
{
    match v {
        Jv::Null => "null"@,
        Jv::Bool(b) => if b {
            "true"@
        } else {
            "false"@
        },
        Jv::Num(t) => t,
        Jv::Str(s) => format_string(s),
        Jv::Arr(els) => {
            if els.len() == 0 {
                "[]"@
            } else {
                seq!['[', '\n'] + item_lines(els, ind) + seq!['\n'] + spaces(ind) + seq![']']
            }
        }
        Jv::Obj(o) => {
            if o.len() == 0 {
                "{}"@
            } else {
                let inner = match crate::value::obj_get(o, "idx"@) {
                    Some(iv) => entry_line("idx"@, iv, ind) + rest_lines(o, ind),
                    None => first_then_rest(o, ind),
                };
                seq!['{', '\n'] + inner + seq!['\n'] + spaces(ind) + seq!['}']
            }
        }
    }
}

/// A value found under a key is structurally below the entries that hold
/// it.
proof fn lemma_obj_get_smaller(o: Seq<(Seq<char>, Jv)>, k: Seq<char>)
    requires
        crate::value::obj_get(o, k) is Some,
    ensures
        decreases_to!(o => crate::value::obj_get(o, k)->0),
    decreases o.len(),
{
    if o[0].0 == k {
        assert(decreases_to!(o => o[0]));
        assert(decreases_to!(o[0] => o[0].1));
    } else {
        lemma_obj_get_smaller(o.drop_first(), k);
        assert(decreases_to!(o => o.drop_first()));
    }
}

#[via_fn]
proof fn spec_format_decreases(v: Jv, ind: nat) {
    match v {
        Jv::Arr(els) => {
            assert(decreases_to!(v => els));
        }
        Jv::Obj(o) => {
            assert(decreases_to!(v => o));
            if crate::value::obj_get(o, "idx"@) is Some {
                lemma_obj_get_smaller(o, "idx"@);
            }
        }
        _ => {}
    }
}

/// The larger of two depths.
pub open spec fn max2(a: nat, b: nat) -> nat {
    if a >= b {
        a
    } else {
        b
    }
}

/// Nesting depth of a value: zero for scalars, one more than the deepest
/// child for containers.
pub open spec fn depth(v: Jv) -> nat
    decreases v, 0int,
    via depth_decreases
{
    match v {
        Jv::Arr(els) => 1 + depth_arr(els),
        Jv::Obj(o) => 1 + depth_obj(o),
        _ => 0,
    }
}

/// The deepest element of an array.
pub open spec fn depth_arr(els: Seq<Jv>) -> nat
    decreases els, 1int,
{
    if els.len() == 0 {
        0
    } else {
        max2(depth(els[0]), depth_arr(els.drop_first()))
    }
}

/// The deepest value of a mapping.
pub open spec fn depth_obj(o: Seq<(Seq<char>, Jv)>) -> nat
    decreases o, 1int,
{
    if o.len() == 0 {
        0
    } else {
        max2(depth(o[0].1), depth_obj(o.drop_first()))
    }
}

#[via_fn]
proof fn depth_decreases(v: Jv) {
    match v {
        Jv::Arr(els) => {
            assert(decreases_to!(v => els));
        }
        Jv::Obj(o) => {
            assert(decreases_to!(v => o));
        }
        _ => {}
    }
}

/// No element of an array is deeper than the array's element depth.
pub proof fn lemma_depth_arr_ge(els: Seq<Jv>, i: int)
    requires
        0 <= i < els.len(),
    ensures
        depth_arr(els) >= depth(els[i]),
    decreases els.len(),
{
    if i > 0 {
        lemma_depth_arr_ge(els.drop_first(), i - 1);
    }
}

/// No value of a mapping is deeper than the mapping's value depth.
pub proof fn lemma_depth_obj_ge(o: Seq<(Seq<char>, Jv)>, i: int)
    requires
        0 <= i < o.len(),
    ensures
        depth_obj(o) >= depth(o[i].1),
    decreases o.len(),
{
    if i > 0 {
        lemma_depth_obj_ge(o.drop_first(), i - 1);
    }
}

/// A run of `n` spaces.
fn spaces_string(n: usize) -> (r: String)
    ensures
        r@ == spaces(n as nat),
{
    proof {
        reveal_strlit(" ");
    }
    let mut out = String::new();
    let mut i: usize = 0;
    while i < n
        invariant
            i <= n,
            out@ =~= spaces(i as nat),
        decreases n - i,
    {
        out.append(" ");
        proof {
            reveal_strlit(" ");
            assert(out@ =~= spaces(i as nat + 1));
        }
        i += 1;
    }
    out
}

/// The position of the first entry keyed `k`, with the value stored
/// there.
fn find_key_index(o: &Vec<(String, Json)>, k: &String) -> (r: Option<usize>)
    ensures
        match r {
            Some(ix) => ix < o@.len() && o@[ix as int].0@ == k@ && crate::value::obj_get(
                model_obj(o@),
                k@,
            ) == Some(o@[ix as int].1.model()),
            None => crate::value::obj_get(model_obj(o@), k@) is None,
        },
{
    let ghost m = model_obj(o@);
    proof {
        lemma_model_obj_len(o@);
        assert(m.skip(0int) =~= m);
    }
    let n = o.len();
    let mut i: usize = 0;
    while i < n
        invariant
            n == o@.len(),
            i <= n,
            m == model_obj(o@),
            m.len() == n,
            crate::value::obj_get(m, k@) == crate::value::obj_get(m.skip(i as int), k@),
        decreases n - i,
    {
        proof {
            lemma_model_obj_index(o@, i as int);
            assert(m.skip(i as int)[0] == m[i as int]);
            assert(m.skip(i as int).drop_first() =~= m.skip(i as int + 1));
        }
        if o[i].0 == *k {
            return Some(i);
        }
        i += 1;
    }
    proof {
        assert(m.skip(n as int) =~= Seq::<(Seq<char>, Jv)>::empty());
    }
    None
}

/// Render a diff tree as indented text, starting at the given base
/// indent.  The indent grows by two per nesting level, so the base must
/// leave room for the tree's depth.
pub fn format_diff_to_string(value: &Json, indent: usize) -> (r: String)
    requires
        indent + 2 * depth(value@) <= usize::MAX,
    ensures
        r@ == spec_format(value@, indent as nat),
    decreases *value,
{
    match value {
        Json::Null => String::from_str("null"),
        Json::Bool(b) => {
            if *b {
                String::from_str("true")
            } else {
                String::from_str("false")
            }
        }
        Json::Num(t) => t.clone(),
        Json::Str(s) => format_marker_string(s),
        Json::Arr(els) => {
            proof {
                reveal_strlit("[]");
            }
            if els.len() == 0 {
                proof {
                    lemma_model_arr_len(els@);
                }
                return String::from_str("[]");
            }
            let ghost m = model_arr(els@);
            proof {
                lemma_model_arr_len(els@);
                reveal_strlit("[\n");
                reveal_strlit(",\n");
                reveal_strlit("\n");
                reveal_strlit("]");
            }
            let ind2 = indent + 2;
            let pad = spaces_string(ind2);
            let mut out = String::from_str("[\n");
            let n = els.len();
            let mut i: usize = 0;
            proof {
                assert(m.skip(0int) =~= m);
                assert(out@ =~= seq!['[', '\n'] + Seq::<char>::empty());
            }
            while i < n
                invariant
                    n == els@.len(),
                    i <= n,
                    m == model_arr(els@),
                    m.len() == n,
                    n > 0,
                    ind2 == indent + 2,
                    indent + 2 * depth(Jv::Arr(m)) <= usize::MAX,
                    value@ == Jv::Arr(m),
                    pad@ == spaces(ind2 as nat),
                    decreases_to!(*value => *els),
                    seq!['[', '\n'] + item_lines(m, indent as nat) =~= out@ + (if i < n {
                        item_lines(m.skip(i as int), indent as nat)
                    } else {
                        Seq::<char>::empty()
                    }),
                decreases n - i,
            {
                proof {
                    assert(decreases_to!(*els => els@));
                    assert(decreases_to!(els@ => els@[i as int]));
                    lemma_model_arr_index(els@, i as int);
                    lemma_depth_arr_ge(m, i as int);
                    assert(m.skip(i as int)[0] == m[i as int]);
                    assert(m.skip(i as int).drop_first() =~= m.skip(i as int + 1));
                    reveal_strlit(",\n");
                }
                out.append(pad.as_str());
                let piece = format_diff_to_string(&els[i], ind2);
                out.append(piece.as_str());
                if i + 1 < n {
                    out.append(",\n");
                    proof {
                        assert(seq!['[', '\n'] + item_lines(m, indent as nat) =~= out@
                            + item_lines(m.skip(i as int + 1), indent as nat));
                    }
                } else {
                    proof {
                        assert(m.skip(i as int).len() == 1);
                        assert(seq!['[', '\n'] + item_lines(m, indent as nat) =~= out@
                            + Seq::<char>::empty());
                    }
                }
                i += 1;
            }
            out.append("\n");
            let tail = spaces_string(indent);
            out.append(tail.as_str());
            out.append("]");
            proof {
                reveal_strlit("\n");
                reveal_strlit("]");
                assert(out@ =~= seq!['[', '\n'] + item_lines(m, indent as nat) + seq!['\n']
                    + spaces(indent as nat) + seq![']']);
            }
            out
        }
        Json::Obj(o) => {
            proof {
                reveal_strlit("{}");
            }
            if o.len() == 0 {
                proof {
                    lemma_model_obj_len(o@);
                }
                return String::from_str("{}");
            }
            let ghost m = model_obj(o@);
            proof {
                lemma_model_obj_len(o@);
                reveal_strlit("{\n");
                reveal_strlit("\n");
                reveal_strlit("}");
            }
            let ind2 = indent + 2;
            let pad = spaces_string(ind2);
            let mut out = String::from_str("{\n");
            let idx_key = String::from_str("idx");
            let mut first = true;
            let ghost inner = match crate::value::obj_get(m, "idx"@) {
                Some(iv) => entry_line("idx"@, iv, indent as nat) + rest_lines(m, indent as nat),
                None => first_then_rest(m, indent as nat),
            };
            match find_key_index(o, &idx_key) {
                Some(ix) => {
                    proof {
                        assert(decreases_to!(*value => *o));
                        assert(decreases_to!(*o => o@));
                        assert(decreases_to!(o@ => o@[ix as int]));
                        assert(decreases_to!(o@[ix as int] => o@[ix as int].1));
                        lemma_model_obj_index(o@, ix as int);
                        lemma_depth_obj_ge(m, ix as int);
                        reveal_strlit("\"idx\": ");
                        reveal_strlit("idx");
                    }
                    out.append(pad.as_str());
                    out.append("\"idx\": ");
                    let piece = format_diff_to_string(&o[ix].1, ind2);
                    out.append(piece.as_str());
                    first = false;
                    proof {
                        assert("\"idx\": "@ =~= seq!['"'] + "idx"@ + seq!['"', ':', ' ']);
                        assert(out@ =~= seq!['{', '\n'] + entry_line(
                            "idx"@,
                            m[ix as int].1,
                            indent as nat,
                        ));
                    }
                }
                None => {
                    proof {
                        assert(out@ =~= seq!['{', '\n'] + Seq::<char>::empty());
                    }
                }
            }
            let n = o.len();
            let mut i: usize = 0;
            proof {
                assert(m.skip(0int) =~= m);
            }
            while i < n
                invariant
                    n == o@.len(),
                    i <= n,
                    m == model_obj(o@),
                    m.len() == n,
                    n > 0,
                    ind2 == indent + 2,
                    indent + 2 * depth(Jv::Obj(m)) <= usize::MAX,
                    value@ == Jv::Obj(m),
                    pad@ == spaces(ind2 as nat),
                    idx_key@ == "idx"@,
                    decreases_to!(*value => *o),
                    inner == (match crate::value::obj_get(m, "idx"@) {
                        Some(iv) => entry_line("idx"@, iv, indent as nat) + rest_lines(
                            m,
                            indent as nat,
                        ),
                        None => first_then_rest(m, indent as nat),
                    }),
                    first ==> seq!['{', '\n'] + inner =~= out@ + first_then_rest(
                        m.skip(i as int),
                        indent as nat,
                    ),
                    !first ==> seq!['{', '\n'] + inner =~= out@ + rest_lines(
                        m.skip(i as int),
                        indent as nat,
                    ),
                decreases n - i,
            {
                proof {
                    assert(decreases_to!(*o => o@));
                    assert(decreases_to!(o@ => o@[i as int]));
                    assert(decreases_to!(o@[i as int] => o@[i as int].1));
                    lemma_model_obj_index(o@, i as int);
                    lemma_depth_obj_ge(m, i as int);
                    assert(m.skip(i as int)[0] == m[i as int]);
                    assert(m.skip(i as int).drop_first() =~= m.skip(i as int + 1));
                    reveal_strlit(",\n");
                    reveal_strlit("\"");
                    reveal_strlit("\": ");
                }
                let ghost g_first = first;
                let ghost g_out = out@;
                if !(o[i].0 == idx_key) {
                    if !first {
                        out.append(",\n");
                    }
                    out.append(pad.as_str());
                    out.append("\"");
                    out.append(o[i].0.as_str());
                    out.append("\": ");
                    let piece = format_diff_to_string(&o[i].1, ind2);
                    out.append(piece.as_str());
                    proof {
                        assert("\""@ =~= seq!['"']);
                        assert("\": "@ =~= seq!['"', ':', ' ']);
                        let el = entry_line(m[i as int].0, m[i as int].1, indent as nat);
                        let r1 = rest_lines(m.skip(i as int + 1), indent as nat);
                        if g_first {
                            assert(first_then_rest(m.skip(i as int), indent as nat) == el + r1);
                            assert(out@ =~= g_out + el);
                            assert(out@ + r1 =~= g_out + (el + r1));
                        } else {
                            assert(rest_lines(m.skip(i as int), indent as nat) == (seq![',', '\n']
                                + el) + r1);
                            assert(out@ =~= g_out + (seq![',', '\n'] + el));
                            assert(out@ + r1 =~= g_out + ((seq![',', '\n'] + el) + r1));
                        }
                    }
                    first = false;
                }
                proof {
                    if first {
                        assert(seq!['{', '\n'] + inner =~= out@ + first_then_rest(
                            m.skip(i as int + 1),
                            indent as nat,
                        ));
                    } else {
                        assert(seq!['{', '\n'] + inner =~= out@ + rest_lines(
                            m.skip(i as int + 1),
                            indent as nat,
                        ));
                    }
                }
                i += 1;
            }
            out.append("\n");
            let tail = spaces_string(indent);
            out.append(tail.as_str());
            out.append("}");
            proof {
                reveal_strlit("\n");
                reveal_strlit("}");
                assert(m.skip(n as int) =~= Seq::<(Seq<char>, Jv)>::empty());
                assert(out@ =~= seq!['{', '\n'] + inner + seq!['\n'] + spaces(indent as nat)
                    + seq!['}']);
            }
            out
        }
    }
}

/// Render a diff string: split an `old => new` pair at the first
/// separator, move a trailing `[+]` or `[-]` marker outside the quotes,
/// or simply quote the string.
fn format_marker_string(s: &String) -> (r: String)
    ensures
        r@ == format_string(s@),
{
    proof {
        reveal_strlit(" => ");
        reveal_strlit(" [+]");
        reveal_strlit(" [-]");
        reveal_strlit("\"");
        reveal_strlit("\" => \"");
        reveal_strlit("\" [+]");
        reveal_strlit("\" [-]");
    }
    let chars = str_chars(s.as_str());
    let n = chars.len();
    let mut sep_found = false;
    let mut sep_at: usize = 0;
    if n >= 4 {
        let mut p: usize = 0;
        while p <= n - 4
            invariant
                n == s@.len(),
                n >= 4,
                chars@ == s@,
                p <= n - 3,
                sep_found ==> sep_at + 4 <= n,
                first_sep_from(s@, 0) == if sep_found {
                    sep_at as int
                } else {
                    first_sep_from(s@, p as int)
                },
            decreases n - p,
        {
            proof {
                reveal_strlit(" => ");
            }
            if !sep_found {
                if chars[p] == ' ' && chars[p + 1] == '=' && chars[p + 2] == '>' && chars[p + 3]
                    == ' ' {
                    proof {
                        assert(s@.subrange(p as int, p as int + 4) =~= " => "@);
                    }
                    sep_found = true;
                    sep_at = p;
                } else {
                    proof {
                        assert(s@.subrange(p as int, p as int + 4) != " => "@) by {
                            if s@.subrange(p as int, p as int + 4) == " => "@ {
                                assert(s@.subrange(p as int, p as int + 4)[0] == s@[p as int]);
                                assert(s@.subrange(p as int, p as int + 4)[1] == s@[p as int + 1]);
                                assert(s@.subrange(p as int, p as int + 4)[2] == s@[p as int + 2]);
                                assert(s@.subrange(p as int, p as int + 4)[3] == s@[p as int + 3]);
                            }
                        }
                    }
                }
            }
            p += 1;
        }
        proof {
            assert(first_sep_from(s@, (n - 3) as int) == -1);
        }
    } else {
        proof {
            assert(first_sep_from(s@, 0) == -1);
        }
    }
    if sep_found {
        let before_part = s.as_str().substring_char(0, sep_at);
        let after_part = s.as_str().substring_char(sep_at + 4, n);
        let mut out = String::from_str("\"");
        out.append(before_part);
        out.append("\" => \"");
        out.append(after_part);
        out.append("\"");
        proof {
            assert("\" => \""@ =~= seq!['"'] + " => "@ + seq!['"']);
            assert(out@ =~= format_string(s@));
        }
        return out;
    }
    let mut is_add = false;
    let mut is_del = false;
    if n >= 4 {
        if chars[n - 4] == ' ' && chars[n - 3] == '[' && chars[n - 2] == '+' && chars[n - 1] == ']' {
            is_add = true;
            proof {
                assert(s@.subrange(n as int - 4, n as int) =~= " [+]"@);
            }
        } else if chars[n - 4] == ' ' && chars[n - 3] == '[' && chars[n - 2] == '-' && chars[n - 1]
            == ']' {
            is_del = true;
            proof {
                assert(s@.subrange(n as int - 4, n as int) =~= " [-]"@);
            }
        } else {
            proof {
                assert(!ends_with4(s@, " [+]"@)) by {
                    if ends_with4(s@, " [+]"@) {
                        assert(s@.subrange(n as int - 4, n as int)[0] == s@[n as int - 4]);
                        assert(s@.subrange(n as int - 4, n as int)[1] == s@[n as int - 3]);
                        assert(s@.subrange(n as int - 4, n as int)[2] == s@[n as int - 2]);
                        assert(s@.subrange(n as int - 4, n as int)[3] == s@[n as int - 1]);
                    }
                }
                assert(!ends_with4(s@, " [-]"@)) by {
                    if ends_with4(s@, " [-]"@) {
                        assert(s@.subrange(n as int - 4, n as int)[0] == s@[n as int - 4]);
                        assert(s@.subrange(n as int - 4, n as int)[1] == s@[n as int - 3]);
                        assert(s@.subrange(n as int - 4, n as int)[2] == s@[n as int - 2]);
                        assert(s@.subrange(n as int - 4, n as int)[3] == s@[n as int - 1]);
                    }
                }
            }
        }
    }
    if is_add {
        let base = s.as_str().substring_char(0, n - 4);
        let mut out = String::from_str("\"");
        out.append(base);
        out.append("\" [+]");
        proof {
            assert("\" [+]"@ =~= seq!['"'] + " [+]"@);
            assert(out@ =~= format_string(s@));
        }
        out
    } else if is_del {
        let base = s.as_str().substring_char(0, n - 4);
        let mut out = String::from_str("\"");
        out.append(base);
        out.append("\" [-]");
        proof {
            assert("\" [-]"@ =~= seq!['"'] + " [-]"@);
            assert(out@ =~= format_string(s@));
        }
        out
    } else {
        let mut out = String::from_str("\"");
        out.append(s.as_str());
        out.append("\"");
        proof {
            assert(out@ =~= format_string(s@));
        }
        out
    }
}

/// No ` => ` separator occurs in a string extended by a marker whose
/// first two characters are a space and an opening bracket, provided the
/// string itself contains no separator and does not end with a partial
/// one.
proof fn lemma_marked_no_sep(s: Seq<char>, m: Seq<char>, i: int)
    requires
        m.len() == 4,
        m[0] == ' ',
        m[1] == '[',
        forall|p: int| 0 <= p && p + 4 <= s.len() ==> #[trigger] s.subrange(p, p + 4) != crate::value::sep_seq(),
        !(s.len() >= 3 && s.subrange(s.len() - 3, s.len() as int) == " =>"@),
        0 <= i,
    ensures
        first_sep_from(s + m, i) == -1,
    decreases (s + m).len() - i,
{
    reveal_strlit(" => ");
    reveal_strlit(" =>");
    let t = s + m;
    let n = s.len() as int;
    if i + 4 <= t.len() {
        assert(t.subrange(i, i + 4) != crate::value::sep_seq()) by {
            if t.subrange(i, i + 4) == crate::value::sep_seq() {
                assert(t.subrange(i, i + 4)[0] == t[i]);
                assert(t.subrange(i, i + 4)[1] == t[i + 1]);
                assert(t.subrange(i, i + 4)[2] == t[i + 2]);
                assert(t.subrange(i, i + 4)[3] == t[i + 3]);
                assert(t[i] == ' ' && t[i + 1] == '=' && t[i + 2] == '>' && t[i + 3] == ' ');
                if i + 4 <= n {
                    assert(s.subrange(i, i + 4) =~= t.subrange(i, i + 4));
                    assert(s.subrange(i, i + 4) =~= crate::value::sep_seq());
                } else if i + 3 == n {
                    assert(s.subrange(n - 3, n) =~= " =>"@);
                } else if i + 2 == n {
                    assert(t[i + 2] == m[0]);
                } else if i + 1 == n {
                    assert(t[i + 1] == m[0]);
                } else {
                    assert(i == n);
                    assert(t[i + 1] == m[1]);
                }
            }
        }
        lemma_marked_no_sep(s, m, i + 1);
    }
}

/// Marker round trip: a string marked as added renders as the quoted
/// string followed by the bare `[+]` marker, and a string marked as
/// deleted renders likewise with `[-]`, for any string that contains no
/// ` => ` separator and does not end with the partial separator ` =>`.
pub proof fn lemma_marker_round_trip(s: Seq<char>, ind: nat)
    requires
        forall|p: int| 0 <= p && p + 4 <= s.len() ==> #[trigger] s.subrange(p, p + 4) != crate::value::sep_seq(),
        !(s.len() >= 3 && s.subrange(s.len() - 3, s.len() as int) == " =>"@),
    ensures
        spec_format(crate::value::mark_add(Jv::Str(s)), ind) == seq!['"'] + s + seq!['"']
            + crate::value::add_seq(),
        spec_format(crate::value::mark_del(Jv::Str(s)), ind) == seq!['"'] + s + seq!['"']
            + crate::value::del_seq(),
{
    reveal_strlit(" => ");
    reveal_strlit(" [+]");
    reveal_strlit(" [-]");
    let n = s.len() as int;
    let ta = s + crate::value::add_seq();
    let td = s + crate::value::del_seq();
    lemma_marked_no_sep(s, crate::value::add_seq(), 0);
    lemma_marked_no_sep(s, crate::value::del_seq(), 0);
    assert(ta.subrange(n, n + 4) =~= crate::value::add_seq());
    assert(ta.subrange(0, n) =~= s);
    assert(ends_with4(ta, crate::value::add_seq()));
    assert(spec_format(Jv::Str(ta), ind) == seq!['"'] + s + seq!['"'] + crate::value::add_seq());
    assert(td.subrange(n, n + 4) =~= crate::value::del_seq());
    assert(td.subrange(0, n) =~= s);
    assert(!ends_with4(td, crate::value::add_seq())) by {
        if ends_with4(td, crate::value::add_seq()) {
            assert(td.subrange(n, n + 4)[2] == td[n + 2]);
            assert(td[n + 2] == '-');
        }
    }
    assert(ends_with4(td, crate::value::del_seq()));
    assert(spec_format(Jv::Str(td), ind) == seq!['"'] + s + seq!['"'] + crate::value::del_seq());
}

} // verus!
