use vstd::prelude::*;

verus! {

pub open spec fn digit(d: int) -> char {
    if d == 0 { '0' }
    else if d == 1 { '1' }
    else if d == 2 { '2' }
    else if d == 3 { '3' }
    else if d == 4 { '4' }
    else if d == 5 { '5' }
    else if d == 6 { '6' }
    else if d == 7 { '7' }
    else if d == 8 { '8' }
    else { '9' }
}

/// Decimal digits of a natural number, most significant first.
pub open spec fn digits(n: nat) -> Seq<char>
    decreases n,
{
    if n < 10 {
        seq![digit(n as int)]
    } else {
        digits(n / 10).push(digit((n % 10) as int))
    }
}

/// Decimal text of an integer, with a leading `-` when negative.
pub open spec fn decimal(n: int) -> Seq<char> {
    if n < 0 {
        seq!['-'] + digits((-n) as nat)
    } else {
        digits(n as nat)
    }
}

pub fn digit_text(d: u64) -> (r: &'static str)
    requires
        d < 10,
    ensures
        r@ == seq![digit(d as int)],
{
    if d == 0 {
        proof { reveal_strlit("0"); }
        "0"
    } else if d == 1 {
        proof { reveal_strlit("1"); }
        "1"
    } else if d == 2 {
        proof { reveal_strlit("2"); }
        "2"
    } else if d == 3 {
        proof { reveal_strlit("3"); }
        "3"
    } else if d == 4 {
        proof { reveal_strlit("4"); }
        "4"
    } else if d == 5 {
        proof { reveal_strlit("5"); }
        "5"
    } else if d == 6 {
        proof { reveal_strlit("6"); }
        "6"
    } else if d == 7 {
        proof { reveal_strlit("7"); }
        "7"
    } else if d == 8 {
        proof { reveal_strlit("8"); }
        "8"
    } else {
        proof { reveal_strlit("9"); }
        "9"
    }
}

fn digits_text(n: u64) -> (r: String)
    ensures
        r@ == digits(n as nat),
    decreases n,
{
    if n < 10 {
        String::from_str(digit_text(n))
    } else {
        let mut s = digits_text(n / 10);
        s.append(digit_text(n % 10));
        s
    }
}

/// Writes `n` in decimal.
pub fn decimal_text(n: i32) -> (r: String)
    ensures
        r@ == decimal(n as int),
{
    if n < 0 {
        let m: i64 = -(n as i64);
        let mut s = String::from_str("-");
        proof { reveal_strlit("-"); }
        s.append(digits_text(m as u64).as_str());
        s
    } else {
        digits_text(n as u64)
    }
}

/// Whether std classifies `c` as numeric (`char::is_numeric`).
pub uninterp spec fn is_numeric_char(c: char) -> bool;

/// Relies on `char::is_numeric`: its answer depends on the character alone,
/// and the ASCII digits are numeric.
#[verifier::external_body]
fn numeric(c: char) -> (r: bool)
    ensures
        r == is_numeric_char(c),
        '0' <= c <= '9' ==> r,
{
    c.is_numeric()
}

/// `s` without its leading run of numeric characters.
pub open spec fn strip_numeric(s: Seq<char>) -> Seq<char>
    decreases s.len(),
{
    if s.len() > 0 && is_numeric_char(s[0]) {
        strip_numeric(s.drop_first())
    } else {
        s
    }
}

/// The name of a workspace without the number it starts with.
pub fn strip_numeric_prefix(s: &str) -> (r: String)
    ensures
        r@ == strip_numeric(s@),
{
    let len = s.unicode_len();
    let mut i: usize = 0;
    assert(s@.subrange(0, len as int) =~= s@);
    while i < len && numeric(s.get_char(i))
        invariant
            0 <= i <= len,
            len == s@.len(),
            strip_numeric(s@) == strip_numeric(s@.subrange(i as int, len as int)),
        decreases len - i,
    {
        proof {
            let t = s@.subrange(i as int, len as int);
            assert(t.drop_first() =~= s@.subrange(i + 1, len as int));
        }
        i = i + 1;
    }
    proof {
        let t = s@.subrange(i as int, len as int);
        if i < len {
            assert(t[0] == s@[i as int]);
        }
    }
    String::from_str(s.substring_char(i, len))
}

/// Commands joined with `; `, as one batch.
pub open spec fn join(cmds: Seq<Seq<char>>) -> Seq<char>
    decreases cmds.len(),
{
    if cmds.len() == 0 {
        Seq::empty()
    } else if cmds.len() == 1 {
        cmds[0]
    } else {
        join(cmds.drop_last()) + "; "@ + cmds.last()
    }
}

pub open spec fn views(v: Seq<String>) -> Seq<Seq<char>> {
    v.map_values(|s: String| s@)
}

/// Joins the commands into one batch, separated by `; `.
pub fn join_commands(cmds: &Vec<String>) -> (r: String)
    ensures
        r@ == join(views(cmds@)),
{
    let mut out = String::new();
    let mut i: usize = 0;
    while i < cmds.len()
        invariant
            0 <= i <= cmds@.len(),
            out@ == join(views(cmds@).take(i as int)),
        decreases cmds@.len() - i,
    {
        let ghost prefix = views(cmds@).take(i as int + 1);
        assert(prefix.drop_last() =~= views(cmds@).take(i as int));
        if i > 0 {
            out.append("; ");
        }
        out.append(cmds[i].as_str());
        proof {
            if i == 0 {
                assert(out@ =~= prefix[0]);
            }
        }
        i = i + 1;
    }
    assert(views(cmds@).take(cmds@.len() as int) =~= views(cmds@));
    out
}

} // verus!
