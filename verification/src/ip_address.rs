//! IPv4 and IPv6 literals, and the reverse-zone names derived from them.
//!
//! Addresses are modelled as plain octet and group values. The accepted
//! grammars are stated as specification functions over the character
//! sequence: dotted decimal with no leading zeros for IPv4, and colon-set
//! hexadecimal groups with at most one `::` gap (and no embedded dotted-quad
//! form) for IPv6.

use vstd::prelude::*;
use vstd::string::StringExecFns;
use crate::config::SynthesisError;
use crate::text::{
    chars_to_string, ends_with, ends_with_chars, hex_digit_char, spec_hex_digit, spec_u32_dec,
    str_chars, strip_dot_suffix, strip_dot_suffix_chars, subvec, u32_to_string,
};

verus! {

/// An IPv4 address as its four octets, most significant first.
pub struct Ipv4Address {
    pub octets: [u8; 4],
}

/// An IPv6 address as its eight 16-bit groups, most significant first.
pub struct Ipv6Address {
    pub groups: [u16; 8],
}

/// The four octet values of an IPv4 address.
pub open spec fn addr_octets(a: Ipv4Address) -> Seq<nat> {
    seq![
        a.octets@[0] as nat,
        a.octets@[1] as nat,
        a.octets@[2] as nat,
        a.octets@[3] as nat,
    ]
}

/// The eight group values of an IPv6 address.
pub open spec fn addr_groups(a: Ipv6Address) -> Seq<nat> {
    seq![
        a.groups@[0] as nat,
        a.groups@[1] as nat,
        a.groups@[2] as nat,
        a.groups@[3] as nat,
        a.groups@[4] as nat,
        a.groups@[5] as nat,
        a.groups@[6] as nat,
        a.groups@[7] as nat,
    ]
}

/// `s` cut at every `sep`: the pieces between separators, in order, with an
/// empty piece wherever two separators meet or one starts or ends `s`.
pub open spec fn spec_split(s: Seq<char>, sep: char) -> Seq<Seq<char>>
    decreases s.len(),
{
    if s.len() == 0 {
        seq![seq![]]
    } else if s[0] == sep {
        seq![seq![]] + spec_split(s.drop_first(), sep)
    } else {
        let rest = spec_split(s.drop_first(), sep);
        seq![seq![s[0]] + rest[0]] + rest.drop_first()
    }
}

/// Splitting always yields at least one piece.
pub proof fn lemma_split_nonempty(s: Seq<char>, sep: char)
    ensures
        spec_split(s, sep).len() >= 1,
    decreases s.len(),
{
    if s.len() == 0 {
    } else {
        lemma_split_nonempty(s.drop_first(), sep);
    }
}

/// Unfolds a split at its first separator: the piece before position `j`
/// (the first separator, or the end) comes first, the split of what follows
/// the separator after it.
pub proof fn lemma_split_step(s: Seq<char>, sep: char, j: int)
    requires
        0 <= j <= s.len(),
        forall|k: int| 0 <= k < j ==> s[k] != sep,
        j < s.len() ==> s[j] == sep,
    ensures
        j == s.len() ==> spec_split(s, sep) == seq![s],
        j < s.len() ==> spec_split(s, sep) == seq![s.subrange(0, j)] + spec_split(
            s.subrange(j + 1, s.len() as int),
            sep,
        ),
    decreases s.len(),
{
    if s.len() == 0 {
        assert(spec_split(s, sep) =~~= seq![s]);
    } else if s[0] == sep {
        assert(j == 0);
        assert(s.subrange(0, 0) =~= Seq::<char>::empty());
        assert(s.subrange(1, s.len() as int) =~= s.drop_first());
        assert(spec_split(s, sep) =~~= seq![s.subrange(0, j)] + spec_split(
            s.subrange(j + 1, s.len() as int),
            sep,
        ));
    } else {
        assert(j >= 1);
        let t = s.drop_first();
        assert(forall|k: int| 0 <= k < j - 1 ==> t[k] != sep);
        lemma_split_step(t, sep, j - 1);
        lemma_split_nonempty(t, sep);
        let rest = spec_split(t, sep);
        if j == s.len() {
            assert(rest == seq![t]);
            assert(seq![s[0]] + rest[0] =~= s);
            assert(spec_split(s, sep) =~~= seq![s]);
        } else {
            assert(rest == seq![t.subrange(0, j - 1)] + spec_split(
                t.subrange(j, t.len() as int),
                sep,
            ));
            assert(seq![s[0]] + rest[0] =~= s.subrange(0, j));
            assert(rest.drop_first() =~= spec_split(t.subrange(j, t.len() as int), sep));
            assert(t.subrange(j, t.len() as int) =~= s.subrange(j + 1, s.len() as int));
            assert(spec_split(s, sep) =~~= seq![s.subrange(0, j)] + spec_split(
                s.subrange(j + 1, s.len() as int),
                sep,
            ));
        }
    }
}

/// `s` cut at every `sep`, as a vector of pieces.
pub(crate) fn split_chars(s: &Vec<char>, sep: char) -> (r: Vec<Vec<char>>)
    ensures
        r@.len() == spec_split(s@, sep).len(),
        forall|i: int| 0 <= i < r@.len() ==> r@[i]@ == spec_split(s@, sep)[i],
{
    let ghost target = spec_split(s@, sep);
    let mut r: Vec<Vec<char>> = Vec::new();
    let mut p: usize = 0;
    proof {
        assert(s@.subrange(0, s@.len() as int) =~= s@);
        assert(target.subrange(0, target.len() as int) =~~= target);
    }
    loop
        invariant_except_break
            0 <= p <= s.len(),
            r@.len() <= target.len(),
            forall|i: int| 0 <= i < r@.len() ==> r@[i]@ == target[i],
            spec_split(s@.subrange(p as int, s@.len() as int), sep) == target.subrange(
                r@.len() as int,
                target.len() as int,
            ),
        ensures
            r@.len() == target.len(),
            forall|i: int| 0 <= i < r@.len() ==> r@[i]@ == target[i],
        decreases s.len() - p,
    {
        let ghost tail = s@.subrange(p as int, s@.len() as int);
        proof {
            lemma_split_nonempty(tail, sep);
        }
        let mut j: usize = p;
        while j < s.len() && s[j] != sep
            invariant
                p <= j <= s.len(),
                forall|k: int| p <= k < j ==> s@[k] != sep,
            decreases s.len() - j,
        {
            j += 1;
        }
        let piece = subvec(s, p, j);
        proof {
            assert(forall|k: int| 0 <= k < j - p ==> tail[k] != sep);
            lemma_split_step(tail, sep, j as int - p as int);
            assert(piece@ =~= tail.subrange(0, j as int - p as int));
        }
        r.push(piece);
        if j == s.len() {
            proof {
                assert(piece@ =~= tail);
                assert(j - p == tail.len());
                assert(spec_split(tail, sep) == seq![tail]);
                assert(spec_split(tail, sep) == target.subrange(r@.len() - 1, target.len() as int));
                assert(target.subrange(r@.len() - 1, target.len() as int) == seq![tail]);
                assert(target.subrange(r@.len() - 1, target.len() as int)[0] == tail);
                assert(target[r@.len() - 1] == tail);
            }
            break;
        }
        proof {
            let rlen = r@.len() as int;
            let n = target.len() as int;
            let newtail = tail.subrange(j as int - p as int + 1, tail.len() as int);
            let rest = spec_split(newtail, sep);
            assert(target.subrange(rlen - 1, n) == seq![tail.subrange(0, j as int - p as int)]
                + rest);
            assert(target.subrange(rlen - 1, n)[0] == tail.subrange(0, j as int - p as int));
            assert(target[rlen - 1] == tail.subrange(0, j as int - p as int));
            lemma_split_nonempty(newtail, sep);
            assert(rlen <= n);
            assert(target.subrange(rlen - 1, n).drop_first() =~~= target.subrange(rlen, n));
            assert((seq![tail.subrange(0, j as int - p as int)] + rest).drop_first() =~~= rest);
            assert(newtail =~= s@.subrange(j as int + 1, s@.len() as int));
            assert(spec_split(s@.subrange(j as int + 1, s@.len() as int), sep) == target.subrange(
                rlen,
                n,
            ));
        }
        p = j + 1;
    }
    r
}

/// Whether `c` is a decimal digit.
pub open spec fn is_dec_digit(c: char) -> bool {
    48 <= c as int <= 57
}

/// The value of one decimal digit.
pub open spec fn dec_digit_val(c: char) -> nat {
    (c as int - 48) as nat
}

/// The value of a decimal digit string, most significant first.
pub open spec fn dec_val(s: Seq<char>) -> nat
    decreases s.len(),
{
    if s.len() == 0 {
        0
    } else {
        dec_val(s.drop_last()) * 10 + dec_digit_val(s.last())
    }
}

/// An IPv4 octet as its text: one to three decimal digits, no leading zero
/// unless the octet is `0` itself, value at most 255.
pub open spec fn is_canonical_octet(s: Seq<char>) -> bool {
    &&& 1 <= s.len() <= 3
    &&& forall|i: int| 0 <= i < s.len() ==> is_dec_digit(#[trigger] s[i])
    &&& s.len() > 1 ==> s[0] != '0'
    &&& dec_val(s) <= 255
}

/// What an IPv4 literal means: four canonical octets joined by periods give
/// the four octet values; anything else is no IPv4 literal.
pub open spec fn spec_parse_ipv4(s: Seq<char>) -> Option<Seq<nat>> {
    let ps = spec_split(s, '.');
    if ps.len() == 4 && (forall|i: int| 0 <= i < ps.len() ==> is_canonical_octet(#[trigger] ps[i])) {
        Some(seq![dec_val(ps[0]), dec_val(ps[1]), dec_val(ps[2]), dec_val(ps[3])])
    } else {
        None
    }
}

fn dec_digit_of(c: char) -> (r: Option<u32>)
    ensures
        match r {
            Some(d) => is_dec_digit(c) && d < 10 && d as nat == dec_digit_val(c),
            None => !is_dec_digit(c),
        },
{
    match c {
        '0' => Some(0),
        '1' => Some(1),
        '2' => Some(2),
        '3' => Some(3),
        '4' => Some(4),
        '5' => Some(5),
        '6' => Some(6),
        '7' => Some(7),
        '8' => Some(8),
        '9' => Some(9),
        _ => None,
    }
}

fn check_octet(piece: &Vec<char>) -> (r: Option<u8>)
    ensures
        match r {
            Some(v) => is_canonical_octet(piece@) && v as nat == dec_val(piece@),
            None => !is_canonical_octet(piece@),
        },
{
    if piece.len() < 1 || piece.len() > 3 {
        return None;
    }
    if piece.len() > 1 && piece[0] == '0' {
        return None;
    }
    let mut v: u32 = 0;
    let mut i: usize = 0;
    while i < piece.len()
        invariant
            1 <= piece.len() <= 3,
            0 <= i <= piece.len(),
            v as nat == dec_val(piece@.subrange(0, i as int)),
            i <= 1 ==> v <= 9,
            i <= 2 ==> v <= 99,
            v <= 999,
            forall|k: int| 0 <= k < i ==> is_dec_digit(#[trigger] piece@[k]),
        decreases piece.len() - i,
    {
        let d: u32 = match dec_digit_of(piece[i]) {
            Some(d) => d,
            None => {
                return None;
            },
        };
        v = v * 10 + d;
        proof {
            let pre1 = piece@.subrange(0, i as int + 1);
            assert(pre1.drop_last() =~= piece@.subrange(0, i as int));
            assert(pre1.last() == piece@[i as int]);
        }
        i += 1;
    }
    proof {
        assert(piece@.subrange(0, piece@.len() as int) =~= piece@);
    }
    if v > 255 {
        None
    } else {
        Some(v as u8)
    }
}

/// Reads an IPv4 literal: exactly the dotted-decimal strings the grammar in
/// [`spec_parse_ipv4`] admits, and the octets they denote.
pub fn parse_ipv4(s: &str) -> (r: Option<Ipv4Address>)
    ensures
        match r {
            Some(a) => spec_parse_ipv4(s@) == Some(addr_octets(a)),
            None => spec_parse_ipv4(s@) is None,
        },
{
    let cs = str_chars(s);
    let ps = split_chars(&cs, '.');
    let ghost target = spec_split(s@, '.');
    if ps.len() != 4 {
        return None;
    }
    let o0 = match check_octet(&ps[0]) {
        Some(v) => v,
        None => {
            proof {
                assert(!is_canonical_octet(target[0]));
            }
            return None;
        },
    };
    let o1 = match check_octet(&ps[1]) {
        Some(v) => v,
        None => {
            proof {
                assert(!is_canonical_octet(target[1]));
            }
            return None;
        },
    };
    let o2 = match check_octet(&ps[2]) {
        Some(v) => v,
        None => {
            proof {
                assert(!is_canonical_octet(target[2]));
            }
            return None;
        },
    };
    let o3 = match check_octet(&ps[3]) {
        Some(v) => v,
        None => {
            proof {
                assert(!is_canonical_octet(target[3]));
            }
            return None;
        },
    };
    let a = Ipv4Address { octets: [o0, o1, o2, o3] };
    proof {
        assert(spec_parse_ipv4(s@) == Some(addr_octets(a))) by {
            assert(seq![dec_val(target[0]), dec_val(target[1]), dec_val(target[2]), dec_val(
                target[3],
            )] =~= addr_octets(a));
        };
    }
    Some(a)
}

/// Whether `c` is a hexadecimal digit, either case.
pub open spec fn is_hex_digit_char(c: char) -> bool {
    (48 <= c as int <= 57) || (97 <= c as int <= 102) || (65 <= c as int <= 70)
}

/// The value of one hexadecimal digit.
pub open spec fn hex_digit_val(c: char) -> nat {
    if 48 <= c as int <= 57 {
        (c as int - 48) as nat
    } else if 97 <= c as int <= 102 {
        (c as int - 87) as nat
    } else {
        (c as int - 55) as nat
    }
}

/// The value of a hexadecimal digit string, most significant first.
pub open spec fn hex_val(s: Seq<char>) -> nat
    decreases s.len(),
{
    if s.len() == 0 {
        0
    } else {
        hex_val(s.drop_last()) * 16 + hex_digit_val(s.last())
    }
}

/// An IPv6 group as its text: one to four hexadecimal digits.
pub open spec fn is_hex_group(s: Seq<char>) -> bool {
    1 <= s.len() <= 4 && forall|i: int| 0 <= i < s.len() ==> is_hex_digit_char(#[trigger] s[i])
}

/// Whether every piece is a hexadecimal group.
pub open spec fn all_hex_groups(gs: Seq<Seq<char>>) -> bool {
    forall|i: int| 0 <= i < gs.len() ==> is_hex_group(#[trigger] gs[i])
}

/// The values of a piece sequence read as hexadecimal groups.
pub open spec fn group_vals(gs: Seq<Seq<char>>) -> Seq<nat> {
    gs.map_values(|g: Seq<char>| hex_val(g))
}

/// The position of the first `::` in `s`; `s.len()` when `s` has none.
pub open spec fn first_dc(s: Seq<char>) -> int
    decreases s.len(),
{
    if s.len() < 2 {
        s.len() as int
    } else if s[0] == ':' && s[1] == ':' {
        0
    } else {
        1 + first_dc(s.drop_first())
    }
}

/// A position before which two colons never meet, and which starts `::`
/// unless it is the end, is the first position of `::`.
pub proof fn lemma_first_dc_is(s: Seq<char>, j: int)
    requires
        0 <= j <= s.len(),
        forall|k: int| 0 <= k < j ==> !((#[trigger] s[k]) == ':' && k + 1 < s.len() && s[k + 1] == ':'),
        j + 2 <= s.len() ==> (s[j] == ':' && s[j + 1] == ':'),
        j + 2 > s.len() ==> j == s.len(),
    ensures
        first_dc(s) == j,
    decreases s.len(),
{
    if s.len() < 2 {
    } else if s[0] == ':' && s[1] == ':' {
        if j > 0 {
            assert(!(s[0] == ':' && 1 < s.len() && s[1] == ':'));
        }
    } else {
        assert(j >= 1) by {
            if j == 0 {
                if j + 2 <= s.len() {
                    assert(s[0] == ':' && s[1] == ':');
                } else {
                    assert(j == s.len());
                }
            }
        };
        let t = s.drop_first();
        assert(forall|k: int| 0 <= k < j - 1 ==> !((#[trigger] t[k]) == ':' && k + 1 < t.len() && t[k + 1]
            == ':')) by {
            assert(forall|k: int| 0 <= k < j - 1 ==> !((#[trigger] s[k + 1]) == ':' && k + 2 < s.len() && s[k
                + 2] == ':'));
        };
        lemma_first_dc_is(t, j - 1);
    }
}

/// What an IPv6 literal means: eight hexadecimal groups joined by colons, or
/// fewer with one `::` standing for the missing zero groups; anything else
/// is no IPv6 literal. (The embedded dotted-quad form is not part of this
/// grammar.)
pub open spec fn spec_parse_ipv6(s: Seq<char>) -> Option<Seq<nat>> {
    let j = first_dc(s);
    if j + 2 <= s.len() {
        let left = s.subrange(0, j);
        let right = s.subrange(j + 2, s.len() as int);
        let lg: Seq<Seq<char>> = if left.len() == 0 {
            seq![]
        } else {
            spec_split(left, ':')
        };
        let rg: Seq<Seq<char>> = if right.len() == 0 {
            seq![]
        } else {
            spec_split(right, ':')
        };
        if lg.len() + rg.len() <= 7 && all_hex_groups(lg) && all_hex_groups(rg) {
            Some(
                group_vals(lg) + Seq::new((8 - lg.len() - rg.len()) as nat, |i: int| 0nat)
                    + group_vals(rg),
            )
        } else {
            None
        }
    } else {
        let ps = spec_split(s, ':');
        if ps.len() == 8 && all_hex_groups(ps) {
            Some(group_vals(ps))
        } else {
            None
        }
    }
}

fn hex_digit_of(c: char) -> (r: Option<u32>)
    ensures
        match r {
            Some(d) => is_hex_digit_char(c) && d < 16 && d as nat == hex_digit_val(c),
            None => !is_hex_digit_char(c),
        },
{
    match c {
        '0' => Some(0),
        '1' => Some(1),
        '2' => Some(2),
        '3' => Some(3),
        '4' => Some(4),
        '5' => Some(5),
        '6' => Some(6),
        '7' => Some(7),
        '8' => Some(8),
        '9' => Some(9),
        'a' | 'A' => Some(10),
        'b' | 'B' => Some(11),
        'c' | 'C' => Some(12),
        'd' | 'D' => Some(13),
        'e' | 'E' => Some(14),
        'f' | 'F' => Some(15),
        _ => None,
    }
}

fn check_hex_group(piece: &Vec<char>) -> (r: Option<u16>)
    ensures
        match r {
            Some(v) => is_hex_group(piece@) && v as nat == hex_val(piece@),
            None => !is_hex_group(piece@),
        },
{
    if piece.len() < 1 || piece.len() > 4 {
        return None;
    }
    let mut v: u32 = 0;
    let mut i: usize = 0;
    while i < piece.len()
        invariant
            1 <= piece.len() <= 4,
            0 <= i <= piece.len(),
            v as nat == hex_val(piece@.subrange(0, i as int)),
            i <= 1 ==> v <= 15,
            i <= 2 ==> v <= 255,
            i <= 3 ==> v <= 4095,
            v <= 65535,
            forall|k: int| 0 <= k < i ==> is_hex_digit_char(#[trigger] piece@[k]),
        decreases piece.len() - i,
    {
        let d: u32 = match hex_digit_of(piece[i]) {
            Some(d) => d,
            None => {
                return None;
            },
        };
        v = v * 16 + d;
        proof {
            let pre1 = piece@.subrange(0, i as int + 1);
            assert(pre1.drop_last() =~= piece@.subrange(0, i as int));
            assert(pre1.last() == piece@[i as int]);
        }
        i += 1;
    }
    proof {
        assert(piece@.subrange(0, piece@.len() as int) =~= piece@);
    }
    Some(v as u16)
}

fn find_dc(cs: &Vec<char>) -> (j: usize)
    ensures
        j as int == first_dc(cs@),
        j == cs.len() || j + 2 <= cs.len(),
{
    if cs.len() < 2 {
        proof {
            lemma_first_dc_is(cs@, cs@.len() as int);
        }
        return cs.len();
    }
    let mut k: usize = 0;
    while k < cs.len() - 1
        invariant
            cs@.len() >= 2,
            0 <= k <= cs.len() - 1,
            forall|t: int| 0 <= t < k ==> !((#[trigger] cs@[t]) == ':' && t + 1 < cs@.len() && cs@[t + 1]
                == ':'),
        decreases cs.len() - k,
    {
        if cs[k] == ':' && cs[k + 1] == ':' {
            proof {
                lemma_first_dc_is(cs@, k as int);
            }
            return k;
        }
        k += 1;
    }
    proof {
        assert(forall|t: int| 0 <= t < cs@.len() ==> !((#[trigger] cs@[t]) == ':' && t + 1 < cs@.len() && cs@[t
            + 1] == ':'));
        lemma_first_dc_is(cs@, cs@.len() as int);
    }
    cs.len()
}

fn check_groups(pieces: &Vec<Vec<char>>) -> (r: Option<Vec<u16>>)
    ensures
        match r {
            Some(v) => v@.len() == pieces@.len() && forall|i: int|
                0 <= i < pieces@.len() ==> is_hex_group(#[trigger] pieces@[i]@) && v@[i] as nat
                    == hex_val(pieces@[i]@),
            None => exists|i: int| 0 <= i < pieces@.len() && !is_hex_group(#[trigger] pieces@[i]@),
        },
{
    let mut v: Vec<u16> = Vec::new();
    let mut i: usize = 0;
    while i < pieces.len()
        invariant
            0 <= i <= pieces.len(),
            v@.len() == i,
            forall|k: int| 0 <= k < i ==> is_hex_group(#[trigger] pieces@[k]@) && v@[k] as nat
                == hex_val(pieces@[k]@),
        decreases pieces.len() - i,
    {
        match check_hex_group(&pieces[i]) {
            Some(g) => {
                v.push(g);
            },
            None => {
                return None;
            },
        }
        i += 1;
    }
    Some(v)
}

fn fill_groups(lvals: &Vec<u16>, rvals: &Vec<u16>) -> (gv: Vec<u16>)
    requires
        lvals@.len() + rvals@.len() <= 8,
    ensures
        gv@.len() == 8,
        gv@ == lvals@ + Seq::new((8 - lvals@.len() - rvals@.len()) as nat, |t: int| 0u16)
            + rvals@,
{
    let mut gv: Vec<u16> = Vec::new();
    let mut i: usize = 0;
    while i < lvals.len()
        invariant
            0 <= i <= lvals.len(),
            gv@ == lvals@.subrange(0, i as int),
        decreases lvals.len() - i,
    {
        gv.push(lvals[i]);
        proof {
            assert(lvals@.subrange(0, i as int + 1) =~= lvals@.subrange(0, i as int).push(
                lvals@[i as int],
            ));
        }
        i += 1;
    }
    let zeros: usize = 8 - lvals.len() - rvals.len();
    proof {
        assert(gv@ =~= lvals@ + Seq::new(0nat, |t: int| 0u16));
    }
    let mut z: usize = 0;
    while z < zeros
        invariant
            0 <= z <= zeros,
            gv@ == lvals@ + Seq::new(z as nat, |t: int| 0u16),
        decreases zeros - z,
    {
        gv.push(0u16);
        proof {
            assert(Seq::new(z as nat + 1, |t: int| 0u16) =~= Seq::new(z as nat, |t: int| 0u16)
                .push(0u16));
        }
        z += 1;
    }
    proof {
        assert(gv@ =~= lvals@ + Seq::new(zeros as nat, |t: int| 0u16) + rvals@.subrange(0, 0));
    }
    let mut k: usize = 0;
    while k < rvals.len()
        invariant
            0 <= k <= rvals.len(),
            zeros == 8 - lvals@.len() - rvals@.len(),
            gv@ == lvals@ + Seq::new(zeros as nat, |t: int| 0u16) + rvals@.subrange(0, k as int),
        decreases rvals.len() - k,
    {
        gv.push(rvals[k]);
        proof {
            assert(rvals@.subrange(0, k as int + 1) =~= rvals@.subrange(0, k as int).push(
                rvals@[k as int],
            ));
        }
        k += 1;
    }
    proof {
        assert(rvals@.subrange(0, rvals@.len() as int) =~= rvals@);
    }
    gv
}

/// Reads an IPv6 literal: exactly the colon-grouped hexadecimal strings the
/// grammar in [`spec_parse_ipv6`] admits, and the groups they denote.
#[verifier::rlimit(60)]
pub fn parse_ipv6(s: &str) -> (r: Option<Ipv6Address>)
    ensures
        match r {
            Some(a) => spec_parse_ipv6(s@) == Some(addr_groups(a)),
            None => spec_parse_ipv6(s@) is None,
        },
{
    let cs = str_chars(s);
    let j = find_dc(&cs);
    if j < cs.len() {
        // A `::` is present at position j.
        let left = subvec(&cs, 0, j);
        let right = subvec(&cs, j + 2, cs.len());
        proof {
            assert(left@ =~= s@.subrange(0, j as int));
            assert(right@ =~= s@.subrange(j as int + 2, s@.len() as int));
        }
        let ghost lg: Seq<Seq<char>> = if left@.len() == 0 {
            seq![]
        } else {
            spec_split(left@, ':')
        };
        let ghost rg: Seq<Seq<char>> = if right@.len() == 0 {
            seq![]
        } else {
            spec_split(right@, ':')
        };
        let lvals: Vec<u16> = if left.len() == 0 {
            Vec::new()
        } else {
            let lp = split_chars(&left, ':');
            match check_groups(&lp) {
                Some(v) => v,
                None => {
                    proof {
                        let bad = choose|i: int|
                            0 <= i < lp@.len() && !is_hex_group(lp@[i]@);
                        assert(lp@[bad]@ == lg[bad]);
                        assert(!is_hex_group(lg[bad]));
                        assert(!all_hex_groups(lg));
                    }
                    return None;
                },
            }
        };
        let rvals: Vec<u16> = if right.len() == 0 {
            Vec::new()
        } else {
            let rp = split_chars(&right, ':');
            match check_groups(&rp) {
                Some(v) => v,
                None => {
                    proof {
                        let bad = choose|i: int|
                            0 <= i < rp@.len() && !is_hex_group(rp@[i]@);
                        assert(rp@[bad]@ == rg[bad]);
                        assert(!is_hex_group(rg[bad]));
                        assert(!all_hex_groups(rg));
                    }
                    return None;
                },
            }
        };
        proof {
            assert(lvals@.len() == lg.len());
            assert(rvals@.len() == rg.len());
            assert(forall|m: int| 0 <= m < lg.len() ==> #[trigger] (lvals@[m] as nat) == hex_val(
                lg[m],
            ));
            assert(forall|m: int| 0 <= m < rg.len() ==> #[trigger] (rvals@[m] as nat) == hex_val(
                rg[m],
            ));
        }
        if lvals.len() > 7 || rvals.len() > 7 - lvals.len() {
            return None;
        }
        let gv = fill_groups(&lvals, &rvals);
        let a = Ipv6Address {
            groups: [gv[0], gv[1], gv[2], gv[3], gv[4], gv[5], gv[6], gv[7]],
        };
        proof {
            let whole = group_vals(lg) + Seq::new((8 - lg.len() - rg.len()) as nat, |i: int| 0nat)
                + group_vals(rg);
            assert(forall|m: int| 0 <= m < 8 ==> #[trigger] addr_groups(a)[m] == gv@[m] as nat);
            assert(addr_groups(a) =~= whole);
            assert(spec_parse_ipv6(s@) == Some(addr_groups(a)));
        }
        Some(a)
    } else {
        let ps = split_chars(&cs, ':');
        if ps.len() != 8 {
            return None;
        }
        let vals = match check_groups(&ps) {
            Some(v) => v,
            None => {
                proof {
                    let gs = spec_split(s@, ':');
                    let bad = choose|i: int|
                        0 <= i < ps@.len() && !is_hex_group(ps@[i]@);
                    assert(ps@[bad]@ == gs[bad]);
                    assert(!is_hex_group(gs[bad]));
                    assert(!all_hex_groups(gs));
                }
                return None;
            },
        };
        let a = Ipv6Address {
            groups: [vals[0], vals[1], vals[2], vals[3], vals[4], vals[5], vals[6], vals[7]],
        };
        proof {
            assert(addr_groups(a) =~= group_vals(spec_split(s@, ':')));
            assert(spec_parse_ipv6(s@) == Some(addr_groups(a)));
        }
        Some(a)
    }
}

/// The four nibble values of one group, most significant first.
pub open spec fn spec_group_nibbles(g: nat) -> Seq<nat> {
    seq![g / 4096 % 16, g / 256 % 16, g / 16 % 16, g % 16]
}

/// The nibble values of an address's groups in order, most significant
/// first: 32 of them for the eight groups.
pub open spec fn spec_addr_nibbles(gs: Seq<nat>) -> Seq<nat>
    decreases gs.len(),
{
    if gs.len() == 0 {
        seq![]
    } else {
        spec_group_nibbles(gs.first()) + spec_addr_nibbles(gs.drop_first())
    }
}

/// The nibbles rendered in reverse order, each as a hexadecimal digit
/// followed by a period.
pub open spec fn spec_rev_nibble_text(ns: Seq<nat>) -> Seq<char>
    decreases ns.len(),
{
    if ns.len() == 0 {
        seq![]
    } else {
        spec_rev_nibble_text(ns.drop_first()) + seq![spec_hex_digit(ns.first() as int), '.']
    }
}

/// The reverse-zone name an IPv6 address yields under a base domain: all 32
/// nibbles reversed and dot-joined before `ip6.arpa`, with the base domain's
/// own labels then stripped off the end.
pub open spec fn spec_rev6_name(gs: Seq<nat>, base: Seq<char>) -> Seq<char> {
    strip_dot_suffix(spec_rev_nibble_text(spec_addr_nibbles(gs)) + "ip6.arpa"@, base)
}

/// Reversing distributes over joining: the text for `a + b` is the text for
/// `b` followed by the text for `a`.
pub proof fn lemma_rev_text_concat(a: Seq<nat>, b: Seq<nat>)
    ensures
        spec_rev_nibble_text(a + b) == spec_rev_nibble_text(b) + spec_rev_nibble_text(a),
    decreases a.len(),
{
    if a.len() == 0 {
        assert(a + b =~= b);
        assert(spec_rev_nibble_text(a) =~= Seq::<char>::empty());
        assert(spec_rev_nibble_text(b) + spec_rev_nibble_text(a) =~= spec_rev_nibble_text(b));
    } else {
        assert((a + b).drop_first() =~= a.drop_first() + b);
        lemma_rev_text_concat(a.drop_first(), b);
        assert((a + b).first() == a.first());
        assert(spec_rev_nibble_text(a + b) =~= spec_rev_nibble_text(b) + spec_rev_nibble_text(a));
    }
}

proof fn lemma_rev_nibble_text4(ns: Seq<nat>)
    requires
        ns.len() == 4,
    ensures
        spec_rev_nibble_text(ns) == seq![
            spec_hex_digit(ns[3] as int),
            '.',
            spec_hex_digit(ns[2] as int),
            '.',
            spec_hex_digit(ns[1] as int),
            '.',
            spec_hex_digit(ns[0] as int),
            '.',
        ],
{
    let n1 = ns.drop_first();
    let n2 = n1.drop_first();
    let n3 = n2.drop_first();
    let n4 = n3.drop_first();
    assert(n4.len() == 0);
    assert(spec_rev_nibble_text(n4) =~= Seq::<char>::empty());
    assert(spec_rev_nibble_text(n3) =~= seq![spec_hex_digit(ns[3] as int), '.']);
    assert(spec_rev_nibble_text(n2) =~= seq![
        spec_hex_digit(ns[3] as int),
        '.',
        spec_hex_digit(ns[2] as int),
        '.',
    ]);
    assert(spec_rev_nibble_text(n1) =~= seq![
        spec_hex_digit(ns[3] as int),
        '.',
        spec_hex_digit(ns[2] as int),
        '.',
        spec_hex_digit(ns[1] as int),
        '.',
    ]);
    assert(spec_rev_nibble_text(ns) =~= seq![
        spec_hex_digit(ns[3] as int),
        '.',
        spec_hex_digit(ns[2] as int),
        '.',
        spec_hex_digit(ns[1] as int),
        '.',
        spec_hex_digit(ns[0] as int),
        '.',
    ]);
}

fn push_group_rev_text(out: &mut Vec<char>, g: u16)
    ensures
        final(out)@ == old(out)@ + spec_rev_nibble_text(spec_group_nibbles(g as nat)),
{
    out.push(hex_digit_char(g % 16));
    out.push('.');
    out.push(hex_digit_char(g / 16 % 16));
    out.push('.');
    out.push(hex_digit_char(g / 256 % 16));
    out.push('.');
    out.push(hex_digit_char(g / 4096 % 16));
    out.push('.');
    proof {
        let gn = spec_group_nibbles(g as nat);
        lemma_rev_nibble_text4(gn);
        assert(out@ =~= old(out)@ + spec_rev_nibble_text(gn));
    }
}

/// The reversed text of a whole group sequence, built group by group from
/// the last group backwards.
pub open spec fn spec_rev_groups_text(gs: Seq<nat>) -> Seq<char>
    decreases gs.len(),
{
    if gs.len() == 0 {
        seq![]
    } else {
        spec_rev_groups_text(gs.drop_first()) + spec_rev_nibble_text(spec_group_nibbles(gs.first()))
    }
}

/// Group-by-group reversal agrees with nibble-by-nibble reversal.
pub proof fn lemma_rev_groups_nibbles(gs: Seq<nat>)
    ensures
        spec_rev_groups_text(gs) == spec_rev_nibble_text(spec_addr_nibbles(gs)),
    decreases gs.len(),
{
    if gs.len() == 0 {
    } else {
        lemma_rev_groups_nibbles(gs.drop_first());
        lemma_rev_text_concat(spec_group_nibbles(gs.first()), spec_addr_nibbles(gs.drop_first()));
    }
}

fn rev_groups_text(address: &Ipv6Address) -> (out: Vec<char>)
    ensures
        out@ == spec_rev_nibble_text(spec_addr_nibbles(addr_groups(*address))),
{
    let ghost gs = addr_groups(*address);
    let mut out: Vec<char> = Vec::new();
    proof {
        assert(gs.skip(8) =~= Seq::<nat>::empty());
    }
    let mut k: usize = 8;
    while k > 0
        invariant
            0 <= k <= 8,
            gs == addr_groups(*address),
            out@ == spec_rev_groups_text(gs.skip(k as int)),
        decreases k,
    {
        k -= 1;
        push_group_rev_text(&mut out, address.groups[k]);
        proof {
            assert(gs.skip(k as int).drop_first() =~= gs.skip(k as int + 1));
            assert(gs.skip(k as int).first() == gs[k as int]);
            assert(gs[k as int] == address.groups@[k as int] as nat);
        }
    }
    proof {
        assert(gs.skip(0) =~= gs);
        lemma_rev_groups_nibbles(gs);
    }
    out
}

/// The record name for a reverse IPv6 entry. Fails with `InvalidReverseZone`
/// exactly when the base domain does not end in `.ip6.arpa`.
pub fn format_v6(address: &Ipv6Address, base_domain: &String) -> (r: Result<
    String,
    SynthesisError,
>)
    ensures
        match r {
            Ok(s) => ends_with(base_domain@, ".ip6.arpa"@) && s@ == spec_rev6_name(
                addr_groups(*address),
                base_domain@,
            ),
            Err(e) => !ends_with(base_domain@, ".ip6.arpa"@) && e
                == SynthesisError::InvalidReverseZone,
        },
{
    let base_cs = str_chars(base_domain.as_str());
    let suffix = str_chars(".ip6.arpa");
    if !ends_with_chars(&base_cs, &suffix) {
        return Err(SynthesisError::InvalidReverseZone);
    }
    let out = rev_groups_text(address);
    let mut name = chars_to_string(&out);
    name.append("ip6.arpa");
    let name_cs = str_chars(name.as_str());
    let stripped = strip_dot_suffix_chars(&name_cs, &base_cs);
    let result = chars_to_string(&stripped);
    Ok(result)
}

/// The reverse-zone name an IPv4 address yields under a base domain: the
/// octets reversed and dot-joined before `in-addr.arpa`, with the base
/// domain's own labels then stripped off the end.
pub open spec fn spec_rev4_name(oct: Seq<nat>, base: Seq<char>) -> Seq<char> {
    strip_dot_suffix(
        spec_u32_dec(oct[3]) + "."@ + spec_u32_dec(oct[2]) + "."@ + spec_u32_dec(oct[1]) + "."@
            + spec_u32_dec(oct[0]) + "."@ + "in-addr.arpa"@,
        base,
    )
}

/// The record name for a reverse IPv4 entry. Fails with `InvalidReverseZone`
/// exactly when the base domain does not end in `.in-addr.arpa`.
pub fn format_v4(address: &Ipv4Address, base_domain: &String) -> (r: Result<
    String,
    SynthesisError,
>)
    ensures
        match r {
            Ok(s) => ends_with(base_domain@, ".in-addr.arpa"@) && s@ == spec_rev4_name(
                addr_octets(*address),
                base_domain@,
            ),
            Err(e) => !ends_with(base_domain@, ".in-addr.arpa"@) && e
                == SynthesisError::InvalidReverseZone,
        },
{
    let base_cs = str_chars(base_domain.as_str());
    let suffix = str_chars(".in-addr.arpa");
    if !ends_with_chars(&base_cs, &suffix) {
        return Err(SynthesisError::InvalidReverseZone);
    }
    let mut name = u32_to_string(address.octets[3] as u32);
    name.append(".");
    let t2 = u32_to_string(address.octets[2] as u32);
    name.append(t2.as_str());
    name.append(".");
    let t1 = u32_to_string(address.octets[1] as u32);
    name.append(t1.as_str());
    name.append(".");
    let t0 = u32_to_string(address.octets[0] as u32);
    name.append(t0.as_str());
    name.append(".");
    name.append("in-addr.arpa");
    let name_cs = str_chars(name.as_str());
    let stripped = strip_dot_suffix_chars(&name_cs, &base_cs);
    let out = chars_to_string(&stripped);
    proof {
        let oct = addr_octets(*address);
        assert(name@ =~= spec_u32_dec(oct[3]) + "."@ + spec_u32_dec(oct[2]) + "."@ + spec_u32_dec(
            oct[1],
        ) + "."@ + spec_u32_dec(oct[0]) + "."@ + "in-addr.arpa"@);
    }
    Ok(out)
}

} // verus!
