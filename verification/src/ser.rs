use crate::json::{model_arr, model_obj, JVal, JsonVal};
use crate::json::{lemma_model_arr, lemma_model_obj};
use crate::text::push_char;
use vstd::prelude::*;

verus! {

/// The hexadecimal digit characters, lower case.
pub open spec fn hex_char(d: nat) -> char {
    if d == 10 {
        'a'
    } else if d == 11 {
        'b'
    } else if d == 12 {
        'c'
    } else if d == 13 {
        'd'
    } else if d == 14 {
        'e'
    } else if d == 15 {
        'f'
    } else {
        crate::text::digit_char(d)
    }
}

/// JSON escape of one character inside a string literal.
pub open spec fn esc_char(c: char) -> Seq<char> {
    if c == '"' {
        seq!['\\', '"']
    } else if c == '\\' {
        seq!['\\', '\\']
    } else if c == '\u{8}' {
        seq!['\\', 'b']
    } else if c == '\u{c}' {
        seq!['\\', 'f']
    } else if c == '\n' {
        seq!['\\', 'n']
    } else if c == '\r' {
        seq!['\\', 'r']
    } else if c == '\t' {
        seq!['\\', 't']
    } else if (c as u32) < 32 {
        seq!['\\', 'u', '0', '0', hex_char((c as u32 / 16) as nat), hex_char((c as u32 % 16) as nat)]
    } else {
        seq![c]
    }
}

/// JSON escape of a whole character sequence.
pub open spec fn esc_seq(s: Seq<char>) -> Seq<char>
    decreases s.len(),
{
    if s.len() == 0 {
        Seq::empty()
    } else {
        esc_seq(s.drop_last()) + esc_char(s.last())
    }
}

/// JSON text of a string value, quotes included.
pub open spec fn ser_string(s: Seq<char>) -> Seq<char> {
    seq!['"'] + esc_seq(s) + seq!['"']
}

/// JSON text of one value.
pub open spec fn ser_val(v: JVal) -> Seq<char>
    decreases v,
{
    match v {
        JVal::Null => seq!['n', 'u', 'l', 'l'],
        JVal::Bool(b) => if b {
            seq!['t', 'r', 'u', 'e']
        } else {
            seq!['f', 'a', 'l', 's', 'e']
        },
        JVal::Num(t) => t,
        JVal::Str(s) => ser_string(s),
        JVal::Arr(es) => seq!['['] + ser_items(es) + seq![']'],
        JVal::Obj(es) => seq!['{'] + ser_entries(es) + seq!['}'],
    }
}

/// JSON text of the comma-separated values of an array.
pub open spec fn ser_items(es: Seq<JVal>) -> Seq<char>
    decreases es,
{
    if es.len() == 0 {
        Seq::empty()
    } else if es.len() == 1 {
        ser_val(es[0])
    } else {
        ser_items(es.drop_last()) + seq![','] + ser_val(es.last())
    }
}

/// JSON text of the comma-separated `"key":value` pairs of an object.
pub open spec fn ser_entries(es: Seq<(Seq<char>, JVal)>) -> Seq<char>
    decreases es,
{
    if es.len() == 0 {
        Seq::empty()
    } else if es.len() == 1 {
        ser_entry(es[0])
    } else {
        ser_entries(es.drop_last()) + seq![','] + ser_entry(es.last())
    }
}

/// JSON text of one `"key":value` pair.
pub open spec fn ser_entry(e: (Seq<char>, JVal)) -> Seq<char>
    decreases e,
{
    ser_string(e.0) + seq![':'] + ser_val(e.1)
}

/// JSON text of an object made of the given entries.
pub open spec fn ser_obj(es: Seq<(Seq<char>, JVal)>) -> Seq<char> {
    seq!['{'] + ser_entries(es) + seq!['}']
}

/// One hexadecimal digit, as a character.
fn hex_exec(d: u32) -> (c: char)
    requires
        d < 16,
    ensures
        c == hex_char(d as nat),
{
    if d == 10 {
        'a'
    } else if d == 11 {
        'b'
    } else if d == 12 {
        'c'
    } else if d == 13 {
        'd'
    } else if d == 14 {
        'e'
    } else if d == 15 {
        'f'
    } else if d == 0 {
        '0'
    } else if d == 1 {
        '1'
    } else if d == 2 {
        '2'
    } else if d == 3 {
        '3'
    } else if d == 4 {
        '4'
    } else if d == 5 {
        '5'
    } else if d == 6 {
        '6'
    } else if d == 7 {
        '7'
    } else if d == 8 {
        '8'
    } else {
        '9'
    }
}

/// Appends the escape of one character.
fn write_esc_char(out: &mut String, c: char)
    ensures
        final(out)@ == old(out)@ + esc_char(c),
{
    if c == '"' {
        push_char(out, '\\');
        push_char(out, '"');
    } else if c == '\\' {
        push_char(out, '\\');
        push_char(out, '\\');
    } else if c == '\u{8}' {
        push_char(out, '\\');
        push_char(out, 'b');
    } else if c == '\u{c}' {
        push_char(out, '\\');
        push_char(out, 'f');
    } else if c == '\n' {
        push_char(out, '\\');
        push_char(out, 'n');
    } else if c == '\r' {
        push_char(out, '\\');
        push_char(out, 'r');
    } else if c == '\t' {
        push_char(out, '\\');
        push_char(out, 't');
    } else if (c as u32) < 32 {
        let u = c as u32;
        push_char(out, '\\');
        push_char(out, 'u');
        push_char(out, '0');
        push_char(out, '0');
        push_char(out, hex_exec(u / 16));
        push_char(out, hex_exec(u % 16));
    } else {
        push_char(out, c);
    }
    proof {
        assert(final(out)@ =~= old(out)@ + esc_char(c));
    }
}

/// Appends a string value in JSON form, quotes and escapes included.
pub fn write_str(out: &mut String, s: &str)
    ensures
        final(out)@ == old(out)@ + ser_string(s@),
{
    let n = s.unicode_len();
    push_char(out, '"');
    let mut i: usize = 0;
    while i < n
        invariant
            n == s@.len(),
            i <= n,
            out@ == old(out)@ + seq!['"'] + esc_seq(s@.take(i as int)),
        decreases n - i,
    {
        let c = s.get_char(i);
        write_esc_char(out, c);
        i += 1;
        proof {
            assert(s@.take(i as int).drop_last() =~= s@.take(i - 1));
            assert(s@.take(i as int).last() == s@[i - 1]);
            assert(out@ =~= old(out)@ + seq!['"'] + esc_seq(s@.take(i as int)));
        }
    }
    push_char(out, '"');
    proof {
        assert(s@.take(n as int) =~= s@);
        assert(out@ =~= old(out)@ + ser_string(s@));
    }
}

/// Appends one value in JSON form.
pub fn write_val(out: &mut String, v: &JsonVal)
    ensures
        final(out)@ == old(out)@ + ser_val(v@),
    decreases v,
{
    match v {
        JsonVal::Null => {
            push_char(out, 'n');
            push_char(out, 'u');
            push_char(out, 'l');
            push_char(out, 'l');
            proof {
                assert(out@ =~= old(out)@ + ser_val(v@));
            }
        },
        JsonVal::Bool(b) => {
            if *b {
                push_char(out, 't');
                push_char(out, 'r');
                push_char(out, 'u');
                push_char(out, 'e');
            } else {
                push_char(out, 'f');
                push_char(out, 'a');
                push_char(out, 'l');
                push_char(out, 's');
                push_char(out, 'e');
            }
            proof {
                assert(out@ =~= old(out)@ + ser_val(v@));
            }
        },
        JsonVal::Num(t) => {
            out.append(t.as_str());
        },
        JsonVal::Str(s) => {
            write_str(out, s.as_str());
        },
        JsonVal::Arr(es) => {
            proof {
                assert(decreases_to!(*v => v->Arr_0));
            }
            write_arr(out, es);
        },
        JsonVal::Obj(es) => {
            proof {
                assert(decreases_to!(*v => v->Obj_0));
            }
            write_entries(out, es);
        },
    }
}

/// Appends an array in JSON form, brackets included.
pub fn write_arr(out: &mut String, es: &Vec<JsonVal>)
    ensures
        final(out)@ == old(out)@ + seq!['['] + ser_items(model_arr(es@)) + seq![']'],
    decreases es,
{
    let ghost ms = model_arr(es@);
    proof {
        lemma_model_arr(es@);
    }
    push_char(out, '[');
    let n = es.len();
    let mut i: usize = 0;
    while i < n
        invariant
            n == es@.len(),
            i <= n,
            ms == model_arr(es@),
            ms.len() == n,
            forall|k: int| 0 <= k < n ==> #[trigger] ms[k] == es@[k]@,
            out@ == old(out)@ + seq!['['] + ser_items(ms.take(i as int)),
        decreases n - i,
    {
        if i > 0 {
            push_char(out, ',');
        }
        proof {
            assert(decreases_to!(*es => es@));
            assert(decreases_to!(es@ => es@[i as int]));
        }
        write_val(out, &es[i]);
        i += 1;
        proof {
            assert(ms.take(i as int).drop_last() =~= ms.take(i - 1));
            if i == 1 {
                assert(ser_items(ms.take(1)) == ser_val(ms[0]));
            }
            assert(out@ =~= old(out)@ + seq!['['] + ser_items(ms.take(i as int)));
        }
    }
    push_char(out, ']');
    proof {
        assert(ms.take(n as int) =~= ms);
        assert(out@ =~= old(out)@ + seq!['['] + ser_items(ms) + seq![']']);
    }
}

/// Appends an object in JSON form, braces included.
pub fn write_entries(out: &mut String, es: &Vec<(String, JsonVal)>)
    ensures
        final(out)@ == old(out)@ + ser_obj(model_obj(es@)),
    decreases es,
{
    let ghost ms = model_obj(es@);
    proof {
        lemma_model_obj(es@);
    }
    push_char(out, '{');
    let n = es.len();
    let mut i: usize = 0;
    while i < n
        invariant
            n == es@.len(),
            i <= n,
            ms == model_obj(es@),
            ms.len() == n,
            forall|k: int| 0 <= k < n ==> #[trigger] ms[k] == (es@[k].0@, es@[k].1@),
            out@ == old(out)@ + seq!['{'] + ser_entries(ms.take(i as int)),
        decreases n - i,
    {
        if i > 0 {
            push_char(out, ',');
        }
        let kv = &es[i];
        write_str(out, kv.0.as_str());
        push_char(out, ':');
        proof {
            assert(decreases_to!(*es => es@));
            assert(decreases_to!(es@ => es@[i as int]));
            assert(decreases_to!(es@[i as int] => es@[i as int].1));
        }
        write_val(out, &kv.1);
        i += 1;
        proof {
            assert(ms.take(i as int).drop_last() =~= ms.take(i - 1));
            assert(ms.take(i as int).last() == ms[i - 1]);
            assert(ms[i - 1].0 == es@[i - 1].0@ && ms[i - 1].1 == es@[i - 1].1@);
            assert(ser_entry(ms[i - 1]) == ser_string(es@[i - 1].0@) + seq![':'] + ser_val(
                es@[i - 1].1@,
            ));
            if i == 1 {
                assert(ser_entries(ms.take(1)) == ser_entry(ms[0]));
            }
            assert(out@ =~= old(out)@ + seq!['{'] + ser_entries(ms.take(i as int)));
        }
    }
    push_char(out, '}');
    proof {
        assert(ms.take(n as int) =~= ms);
        assert(out@ =~= old(out)@ + ser_obj(ms));
    }
}

} // verus!
