//! Character-level building blocks: decimal and hexadecimal rendering,
//! splitting and suffix handling on character sequences, and the escaping
//! rules the SOA and TXT lines use.

use vstd::prelude::*;
use vstd::string::StringExecFns;

verus! {

/// Relies on str::chars: it yields the string's characters in order, so the
/// collected vector holds exactly the view of the slice.
#[verifier::external_body]
pub(crate) fn str_chars(s: &str) -> (r: Vec<char>)
    ensures
        r@ == s@,
{
    s.chars().collect()
}

/// Relies on String's FromIterator<char> impl: collecting characters builds
/// the string of exactly those characters, in order.
#[verifier::external_body]
pub(crate) fn chars_to_string(v: &Vec<char>) -> (r: String)
    ensures
        r@ == v@,
{
    v.iter().collect()
}

/// The character for one decimal digit.
pub open spec fn spec_dec_digit(d: int) -> char {
    if d == 0 {
        '0'
    } else if d == 1 {
        '1'
    } else if d == 2 {
        '2'
    } else if d == 3 {
        '3'
    } else if d == 4 {
        '4'
    } else if d == 5 {
        '5'
    } else if d == 6 {
        '6'
    } else if d == 7 {
        '7'
    } else if d == 8 {
        '8'
    } else {
        '9'
    }
}

/// The shortest decimal rendering of a number: no sign, no leading zero
/// except for the number zero itself.
pub open spec fn spec_u32_dec(n: nat) -> Seq<char>
    decreases n,
{
    if n < 10 {
        seq![spec_dec_digit(n as int)]
    } else {
        spec_u32_dec(n / 10) + seq![spec_dec_digit((n % 10) as int)]
    }
}

/// The character for one hexadecimal digit, lower case.
pub open spec fn spec_hex_digit(d: int) -> char {
    if d < 10 {
        spec_dec_digit(d)
    } else if d == 10 {
        'a'
    } else if d == 11 {
        'b'
    } else if d == 12 {
        'c'
    } else if d == 13 {
        'd'
    } else if d == 14 {
        'e'
    } else {
        'f'
    }
}

fn dec_digit_str(d: u32) -> (r: &'static str)
    requires
        d < 10,
    ensures
        r@ == seq![spec_dec_digit(d as int)],
{
    proof {
        reveal_strlit("0");
        reveal_strlit("1");
        reveal_strlit("2");
        reveal_strlit("3");
        reveal_strlit("4");
        reveal_strlit("5");
        reveal_strlit("6");
        reveal_strlit("7");
        reveal_strlit("8");
        reveal_strlit("9");
    }
    let r = if d == 0 {
        "0"
    } else if d == 1 {
        "1"
    } else if d == 2 {
        "2"
    } else if d == 3 {
        "3"
    } else if d == 4 {
        "4"
    } else if d == 5 {
        "5"
    } else if d == 6 {
        "6"
    } else if d == 7 {
        "7"
    } else if d == 8 {
        "8"
    } else {
        "9"
    };
    proof {
        assert(r@ =~= seq![spec_dec_digit(d as int)]);
    }
    r
}

/// One hexadecimal digit as a character, lower case.
pub fn hex_digit_char(d: u16) -> (c: char)
    requires
        d < 16,
    ensures
        c == spec_hex_digit(d as int),
{
    if d == 0 {
        '0'
    } else if d == 1 {
        '1'
    } else if d == 2 {
        '2'
    } else if d == 3 {
        '3'
    } else if d == 4 {
        '4'
    } else if d == 5 {
        '5'
    } else if d == 6 {
        '6'
    } else if d == 7 {
        '7'
    } else if d == 8 {
        '8'
    } else if d == 9 {
        '9'
    } else if d == 10 {
        'a'
    } else if d == 11 {
        'b'
    } else if d == 12 {
        'c'
    } else if d == 13 {
        'd'
    } else if d == 14 {
        'e'
    } else {
        'f'
    }
}

/// The decimal rendering of a 32-bit number.
pub fn u32_to_string(n: u32) -> (s: String)
    ensures
        s@ == spec_u32_dec(n as nat),
    decreases n,
{
    if n < 10 {
        dec_digit_str(n).to_owned()
    } else {
        let mut s = u32_to_string(n / 10);
        s.append(dec_digit_str(n % 10));
        s
    }
}

/// The decimal rendering of a 16-bit number.
pub fn u16_to_string(n: u16) -> (s: String)
    ensures
        s@ == spec_u32_dec(n as nat),
{
    u32_to_string(n as u32)
}

/// Whether `suffix` closes `s`.
pub open spec fn ends_with(s: Seq<char>, suffix: Seq<char>) -> bool {
    s.len() >= suffix.len() && s.subrange(s.len() - suffix.len(), s.len() as int) == suffix
}

/// `s` with a closing `.<base>` removed when it is there, else `s` unchanged.
pub open spec fn strip_dot_suffix(s: Seq<char>, base: Seq<char>) -> Seq<char> {
    if ends_with(s, seq!['.'] + base) {
        s.subrange(0, s.len() - base.len() - 1)
    } else {
        s
    }
}

/// The position of the first `c` in `s`; `s.len()` when `s` has none.
pub open spec fn first_idx(s: Seq<char>, c: char) -> int
    decreases s.len(),
{
    if s.len() == 0 {
        0
    } else if s[0] == c {
        0
    } else {
        1 + first_idx(s.drop_first(), c)
    }
}

/// A position before which `c` never occurs, and which holds `c` unless it
/// is the end, is the first position of `c`.
pub proof fn lemma_first_idx_is(s: Seq<char>, c: char, j: int)
    requires
        0 <= j <= s.len(),
        forall|k: int| 0 <= k < j ==> s[k] != c,
        j < s.len() ==> s[j] == c,
    ensures
        first_idx(s, c) == j,
    decreases s.len(),
{
    if s.len() == 0 {
    } else if s[0] == c {
        if j > 0 {
            assert(s[0] != c);
        }
    } else {
        assert(j >= 1);
        assert(forall|k: int| 0 <= k < j - 1 ==> s.drop_first()[k] != c);
        lemma_first_idx_is(s.drop_first(), c, j - 1);
    }
}

/// How often `c` occurs in `s`.
pub open spec fn occurrences(s: Seq<char>, c: char) -> nat
    decreases s.len(),
{
    if s.len() == 0 {
        0
    } else {
        occurrences(s.drop_last(), c) + if s.last() == c {
            1nat
        } else {
            0nat
        }
    }
}

/// One character under the SOA local-part convention: a literal period
/// becomes `\.`, everything else stands as it is.
pub open spec fn esc_dot(c: char) -> Seq<char> {
    if c == '.' {
        seq!['\\', '.']
    } else {
        seq![c]
    }
}

/// A whole string under the SOA local-part convention.
pub open spec fn escape_dots(s: Seq<char>) -> Seq<char>
    decreases s.len(),
{
    if s.len() == 0 {
        seq![]
    } else {
        escape_dots(s.drop_last()) + esc_dot(s.last())
    }
}

/// One character under the TXT quoting convention: a newline becomes the two
/// characters `\n`, a double quote becomes `\"`, everything else stands.
pub open spec fn esc_txt(c: char) -> Seq<char> {
    if c == '\n' {
        seq!['\\', 'n']
    } else if c == '"' {
        seq!['\\', '"']
    } else {
        seq![c]
    }
}

/// A whole TXT value under the TXT quoting convention.
pub open spec fn txt_escape(s: Seq<char>) -> Seq<char>
    decreases s.len(),
{
    if s.len() == 0 {
        seq![]
    } else {
        txt_escape(s.drop_last()) + esc_txt(s.last())
    }
}

/// The reverse of the two TXT substitutions: `\n` back to a newline, `\"`
/// back to a double quote, anything else kept.
pub open spec fn txt_unescape(s: Seq<char>) -> Seq<char>
    decreases s.len(),
{
    if s.len() >= 2 && s[0] == '\\' && (s[1] == 'n' || s[1] == '"') {
        seq![
            if s[1] == 'n' {
                '\n'
            } else {
                '"'
            },
        ] + txt_unescape(s.subrange(2, s.len() as int))
    } else if s.len() >= 1 {
        seq![s[0]] + txt_unescape(s.subrange(1, s.len() as int))
    } else {
        seq![]
    }
}

/// TXT escaping handled from the front: the first character's escape comes
/// first, the rest of the string's escape after it.
pub proof fn lemma_txt_escape_first(s: Seq<char>)
    requires
        s.len() > 0,
    ensures
        txt_escape(s) == esc_txt(s[0]) + txt_escape(s.drop_first()),
    decreases s.len(),
{
    if s.len() == 1 {
        assert(s.drop_last() =~= Seq::<char>::empty());
        assert(s.drop_first() =~= Seq::<char>::empty());
        assert(txt_escape(s) =~= esc_txt(s[0]) + txt_escape(s.drop_first()));
    } else {
        lemma_txt_escape_first(s.drop_last());
        assert(s.drop_last().drop_first() =~= s.drop_first().drop_last());
        assert(s.drop_last()[0] == s[0]);
        assert(s.drop_first().last() == s.last());
        assert(txt_escape(s) =~= esc_txt(s[0]) + txt_escape(s.drop_first()));
    }
}

/// Law: TXT escaping round-trips. Unescaping an escaped value restores the
/// original exactly, for values without a literal backslash. (A value that
/// itself holds a backslash followed by `n` is the image of a newline, so
/// the reverse substitution maps it to that newline instead.)
pub proof fn lemma_txt_escape_round_trip(s: Seq<char>)
    requires
        forall|i: int| 0 <= i < s.len() ==> s[i] != '\\',
    ensures
        txt_unescape(txt_escape(s)) == s,
    decreases s.len(),
{
    if s.len() == 0 {
        assert(txt_escape(s) =~= Seq::<char>::empty());
    } else {
        lemma_txt_escape_first(s);
        assert(forall|i: int| 0 <= i < s.drop_first().len() ==> s.drop_first()[i] != '\\');
        lemma_txt_escape_round_trip(s.drop_first());
        let e = txt_escape(s);
        if s[0] == '\n' {
            assert(e.subrange(2, e.len() as int) =~= txt_escape(s.drop_first()));
            assert(txt_unescape(e) =~= seq![s[0]] + s.drop_first());
        } else if s[0] == '"' {
            assert(e.subrange(2, e.len() as int) =~= txt_escape(s.drop_first()));
            assert(txt_unescape(e) =~= seq![s[0]] + s.drop_first());
        } else {
            assert(e[0] == s[0]);
            assert(e.subrange(1, e.len() as int) =~= txt_escape(s.drop_first()));
            assert(txt_unescape(e) =~= seq![s[0]] + s.drop_first());
        }
        assert(seq![s[0]] + s.drop_first() =~= s);
    }
}

/// The TXT value as emitted between the quotes: newlines and double quotes
/// escaped, in one pass.
pub fn escape_txt_value(s: &str) -> (r: String)
    ensures
        r@ == txt_escape(s@),
{
    let cs = str_chars(s);
    let mut out: Vec<char> = Vec::new();
    proof {
        assert(out@ =~= txt_escape(cs@.subrange(0, 0)));
    }
    let mut i: usize = 0;
    while i < cs.len()
        invariant
            cs@ == s@,
            0 <= i <= cs.len(),
            out@ == txt_escape(cs@.subrange(0, i as int)),
        decreases cs.len() - i,
    {
        let c = cs[i];
        if c == '\n' {
            out.push('\\');
            out.push('n');
        } else if c == '"' {
            out.push('\\');
            out.push('"');
        } else {
            out.push(c);
        }
        proof {
            let pre1 = cs@.subrange(0, i as int + 1);
            assert(pre1.drop_last() =~= cs@.subrange(0, i as int));
            assert(pre1.last() == cs@[i as int]);
            assert(out@ =~= txt_escape(cs@.subrange(0, i as int)) + esc_txt(cs@[i as int]));
        }
        i += 1;
    }
    proof {
        assert(cs@.subrange(0, cs@.len() as int) =~= cs@);
    }
    chars_to_string(&out)
}

/// Appends `cs[0..to]` with its periods escaped as `\.`.
pub(crate) fn push_dot_escaped(out: &mut Vec<char>, cs: &Vec<char>, to: usize)
    requires
        to <= cs.len(),
    ensures
        final(out)@ == old(out)@ + escape_dots(cs@.subrange(0, to as int)),
{
    proof {
        assert(out@ =~= old(out)@ + escape_dots(cs@.subrange(0, 0)));
    }
    let mut i: usize = 0;
    while i < to
        invariant
            to <= cs.len(),
            0 <= i <= to,
            out@ == old(out)@ + escape_dots(cs@.subrange(0, i as int)),
        decreases to - i,
    {
        let c = cs[i];
        if c == '.' {
            out.push('\\');
            out.push('.');
        } else {
            out.push(c);
        }
        proof {
            let pre1 = cs@.subrange(0, i as int + 1);
            assert(pre1.drop_last() =~= cs@.subrange(0, i as int));
            assert(pre1.last() == cs@[i as int]);
            assert(out@ =~= old(out)@ + (escape_dots(cs@.subrange(0, i as int)) + esc_dot(
                cs@[i as int],
            )));
        }
        i += 1;
    }
}

/// The copy of `s[from..to]`.
pub(crate) fn subvec(s: &Vec<char>, from: usize, to: usize) -> (r: Vec<char>)
    requires
        from <= to <= s.len(),
    ensures
        r@ == s@.subrange(from as int, to as int),
{
    let mut r: Vec<char> = Vec::new();
    let mut i: usize = from;
    while i < to
        invariant
            from <= i <= to <= s.len(),
            r@ == s@.subrange(from as int, i as int),
        decreases to - i,
    {
        r.push(s[i]);
        proof {
            assert(s@.subrange(from as int, i as int + 1) =~= s@.subrange(
                from as int,
                i as int,
            ).push(s@[i as int]));
        }
        i += 1;
    }
    r
}

/// Whether `suffix` closes `s`, decided by comparing the tail characters.
pub(crate) fn ends_with_chars(s: &Vec<char>, suffix: &Vec<char>) -> (r: bool)
    ensures
        r == ends_with(s@, suffix@),
{
    if s.len() < suffix.len() {
        return false;
    }
    let start: usize = s.len() - suffix.len();
    let mut i: usize = 0;
    while i < suffix.len()
        invariant
            suffix.len() <= s.len(),
            start == s.len() - suffix.len(),
            0 <= i <= suffix.len(),
            forall|k: int| 0 <= k < i ==> s@[start + k] == suffix@[k],
        decreases suffix.len() - i,
    {
        if s[start + i] != suffix[i] {
            proof {
                assert(s@.subrange(s@.len() - suffix@.len(), s@.len() as int)[i as int] != suffix@[i as int]);
            }
            return false;
        }
        i += 1;
    }
    proof {
        assert(s@.subrange(s@.len() - suffix@.len(), s@.len() as int) =~= suffix@);
    }
    true
}

/// `s` with a closing `.<base>` removed when it is there.
pub(crate) fn strip_dot_suffix_chars(s: &Vec<char>, base: &Vec<char>) -> (r: Vec<char>)
    ensures
        r@ == strip_dot_suffix(s@, base@),
{
    let mut dotted: Vec<char> = Vec::new();
    dotted.push('.');
    let mut i: usize = 0;
    while i < base.len()
        invariant
            0 <= i <= base.len(),
            dotted@ == seq!['.'] + base@.subrange(0, i as int),
        decreases base.len() - i,
    {
        dotted.push(base[i]);
        proof {
            assert(seq!['.'] + base@.subrange(0, i as int + 1) =~= (seq!['.'] + base@.subrange(
                0,
                i as int,
            )).push(base@[i as int]));
        }
        i += 1;
    }
    proof {
        assert(base@.subrange(0, base@.len() as int) =~= base@);
    }
    if ends_with_chars(s, &dotted) {
        let r = subvec(s, 0, s.len() - dotted.len());
        proof {
            assert(r@ =~= strip_dot_suffix(s@, base@));
        }
        r
    } else {
        let r = subvec(s, 0, s.len());
        proof {
            assert(r@ =~= s@);
        }
        r
    }
}

} // verus!
