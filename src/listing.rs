//! Text for a register dump: each value in hexadecimal and in decimal.
use vstd::prelude::*;
use vstd::string::StringExecFns;

verus! {

/// The digits used in hexadecimal and decimal text, in order.
pub open spec fn digit_chars() -> Seq<char> {
    seq!['0', '1', '2', '3', '4', '5', '6', '7', '8', '9', 'A', 'B', 'C', 'D', 'E', 'F']
}

/// `v` as four upper-case hexadecimal digits, most significant first.
pub open spec fn hex4(v: u16) -> Seq<char> {
    seq![
        digit_chars()[(v / 4096) as int],
        digit_chars()[((v / 256) % 16) as int],
        digit_chars()[((v / 16) % 16) as int],
        digit_chars()[(v % 16) as int],
    ]
}

/// `v` in decimal, without leading zeros.
pub open spec fn decimal(v: nat) -> Seq<char>
    decreases v,
{
    if v < 10 {
        seq![digit_chars()[v as int]]
    } else {
        decimal(v / 10).push(digit_chars()[(v % 10) as int])
    }
}

/// One line of a dump: the name padded to two columns, then
/// ` = 0x`, four hexadecimal digits, and the decimal value in parentheses.
pub open spec fn value_line(name: Seq<char>, v: u16) -> Seq<char> {
    name + seq![' ', '=', ' ', '0', 'x'] + hex4(v) + seq![' ', '('] + decimal(v as nat) + seq![')']
}

/// The single digit `d` as text.
fn digit_str(d: u16) -> (r: &'static str)
    requires
        d < 16,
    ensures
        r@ == seq![digit_chars()[d as int]],
{
    proof {
        reveal_strlit("0");
        reveal_strlit("1");
        reveal_strlit("2");
        reveal_strlit("3");
        reveal_strlit("4");
        reveal_strlit("5");
        reveal_strlit("6");
        reveal_strlit("7");
        reveal_strlit("8");
        reveal_strlit("9");
        reveal_strlit("A");
        reveal_strlit("B");
        reveal_strlit("C");
        reveal_strlit("D");
        reveal_strlit("E");
        reveal_strlit("F");
    }
    match d {
        0 => "0",
        1 => "1",
        2 => "2",
        3 => "3",
        4 => "4",
        5 => "5",
        6 => "6",
        7 => "7",
        8 => "8",
        9 => "9",
        10 => "A",
        11 => "B",
        12 => "C",
        13 => "D",
        14 => "E",
        _ => "F",
    }
}

/// Appends `v` in decimal to `out`.
fn append_decimal(out: &mut String, v: u16)
    ensures
        final(out)@ == old(out)@ + decimal(v as nat),
    decreases v,
{
    if v >= 10 {
        append_decimal(out, v / 10);
    }
    out.append(digit_str(v % 10));
    assert(out@ =~= old(out)@ + decimal(v as nat)) by {
        if v >= 10 {
            assert(decimal(v as nat) == decimal((v / 10) as nat).push(digit_chars()[(v % 10) as int]));
        }
    }
}

/// Appends one line of a dump for register `name` holding `v` to `out`.
pub fn append_value_line(out: &mut String, name: &str, v: u16)
    ensures
        final(out)@ == old(out)@ + value_line(name@, v),
{
    proof {
        reveal_strlit(" = 0x");
        reveal_strlit(" (");
        reveal_strlit(")");
    }
    out.append(name);
    out.append(" = 0x");
    out.append(digit_str(v / 4096));
    out.append(digit_str((v / 256) % 16));
    out.append(digit_str((v / 16) % 16));
    out.append(digit_str(v % 16));
    out.append(" (");
    append_decimal(out, v);
    out.append(")");
    assert(out@ =~= old(out)@ + value_line(name@, v));
}

} // verus!
