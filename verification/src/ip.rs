use vstd::prelude::*;
use vstd::string::*;
use crate::text::{
    lemma_split_char_concat, lemma_split_char_whole, split_char, split_str, views_of,
};

verus! {

/// An IPv4 address as its four octets, most significant first.
#[derive(Clone, Copy, PartialEq, Eq, Structural, Debug)]
pub struct Ipv4Address {
    pub o0: u8,
    pub o1: u8,
    pub o2: u8,
    pub o3: u8,
}

/// An IPv6 address as its eight 16-bit groups, most significant first.
#[derive(Clone, Copy, PartialEq, Eq, Structural, Debug)]
pub struct Ipv6Address {
    pub g0: u16,
    pub g1: u16,
    pub g2: u16,
    pub g3: u16,
    pub g4: u16,
    pub g5: u16,
    pub g6: u16,
    pub g7: u16,
}

/// A public address of either family, immutable once obtained.
#[derive(Clone, Copy, PartialEq, Eq, Structural, Debug)]
pub enum IpAddress {
    V4(Ipv4Address),
    V6(Ipv6Address),
}

pub open spec fn is_dec_digit(c: char) -> bool {
    ('0' as u32) <= (c as u32) <= ('9' as u32)
}

pub open spec fn dec_digit_val(c: char) -> nat {
    ((c as u32) - ('0' as u32)) as nat
}

pub open spec fn is_hex_digit(c: char) -> bool {
    is_dec_digit(c) || ('a' as u32) <= (c as u32) <= ('f' as u32) || ('A' as u32) <= (c as u32)
        <= ('F' as u32)
}

pub open spec fn hex_digit_val(c: char) -> nat {
    if is_dec_digit(c) {
        dec_digit_val(c)
    } else if ('a' as u32) <= (c as u32) <= ('f' as u32) {
        ((c as u32) - ('a' as u32) + 10) as nat
    } else {
        ((c as u32) - ('A' as u32) + 10) as nat
    }
}

/// The value of a decimal digit string.
pub open spec fn dec_val(s: Seq<char>) -> nat
    decreases s.len(),
{
    if s.len() == 0 {
        0
    } else {
        dec_val(s.drop_last()) * 10 + dec_digit_val(s.last())
    }
}

/// The value of a hexadecimal digit string.
pub open spec fn hex_val(s: Seq<char>) -> nat
    decreases s.len(),
{
    if s.len() == 0 {
        0
    } else {
        hex_val(s.drop_last()) * 16 + hex_digit_val(s.last())
    }
}

pub open spec fn all_dec_digits(s: Seq<char>) -> bool {
    forall|i: int| 0 <= i < s.len() ==> is_dec_digit(#[trigger] s[i])
}

pub open spec fn all_hex_digits(s: Seq<char>) -> bool {
    forall|i: int| 0 <= i < s.len() ==> is_hex_digit(#[trigger] s[i])
}

/// A valid dotted-quad piece: one to three decimal digits, no leading zero
/// unless the piece is "0" itself, value at most 255.
pub open spec fn valid_octet_text(s: Seq<char>) -> bool {
    &&& 1 <= s.len() <= 3
    &&& all_dec_digits(s)
    &&& (s.len() > 1 ==> s[0] != '0')
    &&& dec_val(s) <= 255
}

/// A valid IPv6 group: one to four hexadecimal digits.
pub open spec fn valid_group_text(s: Seq<char>) -> bool {
    1 <= s.len() <= 4 && all_hex_digits(s)
}

pub open spec fn octet_of_text(s: Seq<char>) -> Option<u8> {
    if valid_octet_text(s) {
        Some(dec_val(s) as u8)
    } else {
        None
    }
}

pub open spec fn group_of_text(s: Seq<char>) -> Option<u16> {
    if valid_group_text(s) {
        Some(hex_val(s) as u16)
    } else {
        None
    }
}

fn dec_digit_of(c: char) -> (r: Option<u8>)
    ensures
        r is Some <==> is_dec_digit(c),
        r is Some ==> r == Some(dec_digit_val(c) as u8),
{
    let v = c as u32;
    if 48 <= v && v <= 57 {
        Some((v - 48) as u8)
    } else {
        None
    }
}

fn hex_digit_of(c: char) -> (r: Option<u8>)
    ensures
        r is Some <==> is_hex_digit(c),
        r is Some ==> r == Some(hex_digit_val(c) as u8),
{
    let v = c as u32;
    if 48 <= v && v <= 57 {
        Some((v - 48) as u8)
    } else if 97 <= v && v <= 102 {
        Some((v - 97 + 10) as u8)
    } else if 65 <= v && v <= 70 {
        Some((v - 65 + 10) as u8)
    } else {
        None
    }
}

/// Parses one dotted-quad piece.
fn parse_octet(s: &str) -> (r: Option<u8>)
    ensures
        r == octet_of_text(s@),
{
    let len: usize = s.unicode_len();
    if len == 0 || len > 3 {
        return None;
    }
    if len > 1 && s.get_char(0) == '0' {
        return None;
    }
    let mut v: u32 = 0;
    let mut i: usize = 0;
    proof {
        assert(s@.take(0) =~= Seq::<char>::empty());
    }
    while i < len
        invariant
            i <= len <= 3,
            len == s@.len(),
            all_dec_digits(s@.take(i as int)),
            v == dec_val(s@.take(i as int)),
            i == 0 ==> v == 0,
            i == 1 ==> v <= 9,
            i == 2 ==> v <= 99,
            i == 3 ==> v <= 999,
        decreases len - i,
    {
        let c = s.get_char(i);
        let d = match dec_digit_of(c) {
            Some(d) => d,
            None => {
                proof {
                    assert(!all_dec_digits(s@));
                }
                return None;
            },
        };
        proof {
            assert(s@.take(i as int + 1).drop_last() =~= s@.take(i as int));
            assert(s@.take(i as int + 1).last() == s@[i as int]);
        }
        v = v * 10 + (d as u32);
        i = i + 1;
    }
    proof {
        assert(s@.take(len as int) =~= s@);
    }
    if v > 255 {
        None
    } else {
        Some(v as u8)
    }
}

/// Parses one IPv6 group.
fn parse_group(s: &str) -> (r: Option<u16>)
    ensures
        r == group_of_text(s@),
{
    let len: usize = s.unicode_len();
    if len == 0 || len > 4 {
        return None;
    }
    let mut v: u32 = 0;
    let mut i: usize = 0;
    proof {
        assert(s@.take(0) =~= Seq::<char>::empty());
    }
    while i < len
        invariant
            i <= len <= 4,
            len == s@.len(),
            all_hex_digits(s@.take(i as int)),
            v == hex_val(s@.take(i as int)),
            i == 0 ==> v == 0,
            i == 1 ==> v <= 15,
            i == 2 ==> v <= 255,
            i == 3 ==> v <= 4095,
            i == 4 ==> v <= 65535,
        decreases len - i,
    {
        let c = s.get_char(i);
        let d = match hex_digit_of(c) {
            Some(d) => d,
            None => {
                proof {
                    assert(!all_hex_digits(s@));
                }
                return None;
            },
        };
        proof {
            assert(s@.take(i as int + 1).drop_last() =~= s@.take(i as int));
            assert(s@.take(i as int + 1).last() == s@[i as int]);
        }
        v = v * 16 + (d as u32);
        i = i + 1;
    }
    proof {
        assert(s@.take(len as int) =~= s@);
    }
    Some(v as u16)
}

/// The IPv4 address denoted by the pieces of the text split on '.'.
pub open spec fn v4_of_segs(segs: Seq<Seq<char>>) -> Option<Ipv4Address> {
    if segs.len() == 4 && valid_octet_text(segs[0]) && valid_octet_text(segs[1])
        && valid_octet_text(segs[2]) && valid_octet_text(segs[3]) {
        Some(
            (Ipv4Address {
                o0: dec_val(segs[0]) as u8,
                o1: dec_val(segs[1]) as u8,
                o2: dec_val(segs[2]) as u8,
                o3: dec_val(segs[3]) as u8,
            }),
        )
    } else {
        None
    }
}

pub open spec fn parse_ipv4_chars(s: Seq<char>) -> Option<Ipv4Address> {
    v4_of_segs(split_char(s, '.'))
}

/// Parses dotted-quad IPv4 text.
pub fn parse_ipv4(s: &str) -> (r: Option<Ipv4Address>)
    ensures
        r == parse_ipv4_chars(s@),
{
    let segs = split_str(s, '.');
    if segs.len() != 4 {
        return None;
    }
    proof {
        assert(views_of(segs@)[0] == segs@[0]@);
        assert(views_of(segs@)[1] == segs@[1]@);
        assert(views_of(segs@)[2] == segs@[2]@);
        assert(views_of(segs@)[3] == segs@[3]@);
    }
    let o0 = parse_octet(segs[0].as_str());
    let o1 = parse_octet(segs[1].as_str());
    let o2 = parse_octet(segs[2].as_str());
    let o3 = parse_octet(segs[3].as_str());
    match (o0, o1, o2, o3) {
        (Some(a), Some(b), Some(c), Some(d)) => Some(Ipv4Address { o0: a, o1: b, o2: c, o3: d }),
        _ => None,
    }
}

pub open spec fn all_groups(segs: Seq<Seq<char>>) -> bool {
    forall|i: int| 0 <= i < segs.len() ==> valid_group_text(#[trigger] segs[i])
}

pub open spec fn group_vals(segs: Seq<Seq<char>>) -> Seq<u16> {
    segs.map_values(|g: Seq<char>| (hex_val(g) as u16))
}

pub open spec fn zero_groups(n: nat) -> Seq<u16> {
    Seq::new(n, |i: int| 0u16)
}

/// A `::` gap between groups at position `p` of the pieces: the piece there
/// is empty and every piece on either side is a valid group.
pub open spec fn mid_gap_at(segs: Seq<Seq<char>>, p: int) -> bool {
    &&& 1 <= p <= segs.len() - 2
    &&& segs[p].len() == 0
    &&& all_groups(segs.take(p))
    &&& all_groups(segs.skip(p + 1))
}

/// The eight groups denoted by the pieces of an IPv6 text split on ':', if
/// the pieces form a valid address: either exactly eight groups, or one
/// `::` gap (leading, trailing, inner, or the whole text) standing for the
/// missing zero groups, of which there must be at least one.
pub open spec fn v6_groups_of_segs(segs: Seq<Seq<char>>) -> Option<Seq<u16>> {
    if segs.len() == 8 && all_groups(segs) {
        Some(group_vals(segs))
    } else if segs.len() == 3 && segs[0].len() == 0 && segs[1].len() == 0 && segs[2].len() == 0 {
        Some(zero_groups(8))
    } else if 3 <= segs.len() <= 9 && segs[0].len() == 0 && segs[1].len() == 0 && all_groups(
        segs.skip(2),
    ) {
        Some(zero_groups((8 - (segs.len() - 2)) as nat) + group_vals(segs.skip(2)))
    } else if 3 <= segs.len() <= 9 && segs[segs.len() - 1].len() == 0 && segs[segs.len()
        - 2].len() == 0 && all_groups(segs.take(segs.len() - 2)) {
        Some(group_vals(segs.take(segs.len() - 2)) + zero_groups((8 - (segs.len() - 2)) as nat))
    } else if segs.len() <= 8 && (exists|p: int| mid_gap_at(segs, p)) {
        let p = choose|p: int| mid_gap_at(segs, p);
        Some(
            group_vals(segs.take(p)) + zero_groups((8 - (segs.len() - 1)) as nat) + group_vals(
                segs.skip(p + 1),
            ),
        )
    } else {
        None
    }
}

pub proof fn lemma_mid_gap_unique(segs: Seq<Seq<char>>, p: int, q: int)
    requires
        mid_gap_at(segs, p),
        mid_gap_at(segs, q),
    ensures
        p == q,
{
    if p < q {
        assert(segs.skip(p + 1)[q - p - 1] == segs[q]);
        assert(valid_group_text(segs.skip(p + 1)[q - p - 1]));
    } else if q < p {
        assert(segs.skip(q + 1)[p - q - 1] == segs[p]);
        assert(valid_group_text(segs.skip(q + 1)[p - q - 1]));
    }
}

pub open spec fn v6_addr_of_groups(gs: Seq<u16>) -> Ipv6Address
    recommends
        gs.len() == 8,
{
    Ipv6Address {
        g0: gs[0],
        g1: gs[1],
        g2: gs[2],
        g3: gs[3],
        g4: gs[4],
        g5: gs[5],
        g6: gs[6],
        g7: gs[7],
    }
}

pub open spec fn parse_ipv6_chars(s: Seq<char>) -> Option<Ipv6Address> {
    match v6_groups_of_segs(split_char(s, ':')) {
        Some(gs) => Some(v6_addr_of_groups(gs)),
        None => None,
    }
}

/// Parses the hex groups of the pieces with indices `from..to`.
fn parse_segment_groups(segs: &Vec<String>, from: usize, to: usize) -> (r: Option<Vec<u16>>)
    requires
        from <= to <= segs@.len(),
    ensures
        match r {
            Some(gs) => {
                &&& all_groups(views_of(segs@).subrange(from as int, to as int))
                &&& gs@ == group_vals(views_of(segs@).subrange(from as int, to as int))
            },
            None => !all_groups(views_of(segs@).subrange(from as int, to as int)),
        },
{
    let ghost region = views_of(segs@).subrange(from as int, to as int);
    let mut gs: Vec<u16> = Vec::new();
    let mut i: usize = from;
    proof {
        assert(region.subrange(0, 0) =~= Seq::<Seq<char>>::empty());
        assert(gs@ =~= group_vals(region.subrange(0, 0)));
    }
    while i < to
        invariant
            from <= i <= to <= segs@.len(),
            region == views_of(segs@).subrange(from as int, to as int),
            all_groups(region.subrange(0, i - from)),
            gs@ == group_vals(region.subrange(0, i - from)),
        decreases to - i,
    {
        proof {
            assert(region[i - from] == segs@[i as int]@);
        }
        match parse_group(segs[i].as_str()) {
            Some(g) => {
                gs.push(g);
                proof {
                    let k = i - from;
                    assert(region.subrange(0, k + 1).drop_last() =~= region.subrange(0, k));
                    assert(region.subrange(0, k + 1).last() == region[k]);
                    assert(forall|j: int| 0 <= j < k + 1 ==> valid_group_text(
                        #[trigger] region.subrange(0, k + 1)[j],
                    ));
                    assert(gs@ =~= group_vals(region.subrange(0, k + 1)));
                }
            },
            None => {
                proof {
                    assert(!valid_group_text(region[i - from]));
                    assert(!all_groups(region));
                }
                return None;
            },
        }
        i = i + 1;
    }
    proof {
        assert(region.subrange(0, to - from) =~= region);
    }
    Some(gs)
}

/// The first empty piece, scanning from the front.
fn first_empty_seg(segs: &Vec<String>) -> (r: Option<usize>)
    ensures
        match r {
            Some(p) => {
                &&& 0 <= p < segs@.len()
                &&& segs@[p as int]@.len() == 0
                &&& forall|j: int| 0 <= j < p ==> segs@[j]@.len() > 0
            },
            None => forall|j: int| 0 <= j < segs@.len() ==> segs@[j]@.len() > 0,
        },
{
    let mut i: usize = 0;
    while i < segs.len()
        invariant
            i <= segs@.len(),
            forall|j: int| 0 <= j < i ==> segs@[j]@.len() > 0,
        decreases segs@.len() - i,
    {
        if segs[i].as_str().unicode_len() == 0 {
            return Some(i);
        }
        i = i + 1;
    }
    None
}

/// Builds the address from left groups, a run of zero groups, and right
/// groups, together eight.
fn assemble_v6(left: &Vec<u16>, right: &Vec<u16>) -> (r: Ipv6Address)
    requires
        left@.len() + right@.len() <= 8,
    ensures
        ({
            let gs = left@ + zero_groups((8 - left@.len() - right@.len()) as nat) + right@;
            r == v6_addr_of_groups(gs)
        }),
{
    let ghost gs = left@ + zero_groups((8 - left@.len() - right@.len()) as nat) + right@;
    proof {
        assert(gs.len() == 8);
    }
    let mut all: Vec<u16> = Vec::new();
    let mut i: usize = 0;
    while i < left.len()
        invariant
            i <= left@.len(),
            all@ == left@.subrange(0, i as int),
        decreases left@.len() - i,
    {
        all.push(left[i]);
        proof {
            assert(all@ =~= left@.subrange(0, i + 1));
        }
        i = i + 1;
    }
    let zeros: usize = 8 - left.len() - right.len();
    let mut z: usize = 0;
    while z < zeros
        invariant
            z <= zeros,
            zeros == 8 - left@.len() - right@.len(),
            all@ == left@.subrange(0, left@.len() as int) + zero_groups(z as nat),
        decreases zeros - z,
    {
        all.push(0u16);
        proof {
            assert(all@ =~= left@.subrange(0, left@.len() as int) + zero_groups(z as nat + 1));
        }
        z = z + 1;
    }
    let mut j: usize = 0;
    while j < right.len()
        invariant
            j <= right@.len(),
            zeros == 8 - left@.len() - right@.len(),
            all@ == left@.subrange(0, left@.len() as int) + zero_groups(zeros as nat)
                + right@.subrange(0, j as int),
        decreases right@.len() - j,
    {
        all.push(right[j]);
        proof {
            assert(all@ =~= left@.subrange(0, left@.len() as int) + zero_groups(zeros as nat)
                + right@.subrange(0, j + 1));
        }
        j = j + 1;
    }
    proof {
        assert(left@.subrange(0, left@.len() as int) =~= left@);
        assert(right@.subrange(0, right@.len() as int) =~= right@);
        assert(all@ =~= gs);
        assert(all@.len() == 8);
    }
    Ipv6Address {
        g0: all[0],
        g1: all[1],
        g2: all[2],
        g3: all[3],
        g4: all[4],
        g5: all[5],
        g6: all[6],
        g7: all[7],
    }
}

/// Parses IPv6 text: colon-separated hex groups with at most one `::` gap.
pub fn parse_ipv6(s: &str) -> (r: Option<Ipv6Address>)
    ensures
        r == parse_ipv6_chars(s@),
{
    let segs = split_str(s, ':');
    let ghost sv = views_of(segs@);
    let n: usize = segs.len();
    proof {
        assert(sv == split_char(s@, ':'));
        assert(sv.len() == segs@.len());
        assert(forall|j: int| 0 <= j < segs@.len() ==> sv[j] == #[trigger] segs@[j]@);
    }
    let first_empty = first_empty_seg(&segs);
    match first_empty {
        None => {
            // no `::` gap anywhere; only the eight-group form can apply
            proof {
                assert(forall|j: int| 0 <= j < sv.len() ==> #[trigger] sv[j].len() > 0);
                assert forall|q: int| !mid_gap_at(sv, q) by {
                    if 1 <= q <= sv.len() - 2 {
                        assert(sv[q].len() > 0);
                    }
                }
            }
            if n != 8 {
                return None;
            }
            match parse_segment_groups(&segs, 0, 8) {
                Some(gs) => {
                    proof {
                        assert(sv.subrange(0, 8) =~= sv);
                        assert(gs@.len() == 8);
                    }
                    Some(
                        Ipv6Address {
                            g0: gs[0],
                            g1: gs[1],
                            g2: gs[2],
                            g3: gs[3],
                            g4: gs[4],
                            g5: gs[5],
                            g6: gs[6],
                            g7: gs[7],
                        },
                    )
                },
                None => {
                    proof {
                        assert(sv.subrange(0, 8) =~= sv);
                    }
                    None
                },
            }
        },
        Some(p) => {
            if p == 0 {
                // a gap at the very front must be `::`
                proof {
                    assert(sv[0].len() == 0);
                    assert forall|q: int| !mid_gap_at(sv, q) by {
                        if 1 <= q <= sv.len() - 2 {
                            assert(sv.take(q)[0] == sv[0]);
                            assert(!valid_group_text(sv.take(q)[0]));
                            assert(!all_groups(sv.take(q)));
                        }
                    }
                }
                if n < 3 {
                    return None;
                }
                if segs[1].as_str().unicode_len() != 0 {
                    // a single leading ':' is not an address
                    proof {
                        if 3 <= sv.len() <= 9 && sv[sv.len() - 1].len() == 0 && sv[sv.len()
                            - 2].len() == 0 {
                            if sv.len() - 2 > 0 {
                                assert(sv.take(sv.len() - 2)[0].len() == 0);
                                assert(!all_groups(sv.take(sv.len() - 2)));
                            }
                        }
                    }
                    return None;
                }
                if n == 3 && segs[2].as_str().unicode_len() == 0 {
                    // the whole text is "::"
                    return Some(
                        Ipv6Address { g0: 0, g1: 0, g2: 0, g3: 0, g4: 0, g5: 0, g6: 0, g7: 0 },
                    );
                }
                if n > 9 {
                    return None;
                }
                match parse_segment_groups(&segs, 2, n) {
                    Some(gs) => {
                        proof {
                            assert(sv.subrange(2, sv.len() as int) =~= sv.skip(2));
                            assert(gs@.len() == sv.len() - 2);
                            assert(!(sv.len() == 3 && sv[2].len() == 0));
                            assert(!(sv.len() == 8 && all_groups(sv))) by {
                                assert(sv[0].len() == 0);
                            }
                        }
                        let empty_left: Vec<u16> = Vec::new();
                        let addr = assemble_v6(&empty_left, &gs);
                        proof {
                            assert(empty_left@ + zero_groups((8 - (sv.len() - 2)) as nat) + gs@
                                =~= zero_groups((8 - (sv.len() - 2)) as nat) + group_vals(
                                sv.skip(2),
                            ));
                        }
                        Some(addr)
                    },
                    None => {
                        proof {
                            assert(sv.subrange(2, sv.len() as int) =~= sv.skip(2));
                            assert(!all_groups(sv.skip(2)));
                            if sv.len() == 3 && sv[2].len() == 0 {
                                // would be "::", handled above
                                assert(sv.skip(2)[0].len() == 0);
                            }
                            if 3 <= sv.len() <= 9 && sv[sv.len() - 1].len() == 0 && sv[sv.len()
                                - 2].len() == 0 && sv.len() - 2 > 0 {
                                assert(sv.take(sv.len() - 2)[0].len() == 0);
                                assert(!all_groups(sv.take(sv.len() - 2)));
                            }
                        }
                        None
                    },
                }
            } else {
                // pieces before p are nonempty; a gap can only sit at p
                proof {
                    assert(sv[0].len() > 0);
                }
                if p == n - 2 {
                    let last_empty = segs[n - 1].as_str().unicode_len() == 0;
                    if last_empty {
                        // trailing "::"
                        if n > 9 {
                            return None;
                        }
                        match parse_segment_groups(&segs, 0, n - 2) {
                            Some(gs) => {
                                proof {
                                    assert(sv.subrange(0, sv.len() - 2) =~= sv.take(sv.len() - 2));
                                    assert(gs@.len() == sv.len() - 2);
                                    assert(1 <= gs@.len() <= 7);
                                    assert(!(sv.len() == 8 && all_groups(sv)));
                                    assert(!(sv.len() == 3 && sv[0].len() == 0));
                                    assert(sv[0].len() > 0);
                                }
                                let empty_right: Vec<u16> = Vec::new();
                                let addr = assemble_v6(&gs, &empty_right);
                                proof {
                                    assert(gs@ + zero_groups((8 - (sv.len() - 2)) as nat)
                                        + empty_right@ =~= group_vals(sv.take(sv.len() - 2))
                                        + zero_groups((8 - (sv.len() - 2)) as nat));
                                }
                                Some(addr)
                            },
                            None => {
                                proof {
                                    assert(sv.subrange(0, sv.len() - 2) =~= sv.take(sv.len() - 2));
                                    assert(!all_groups(sv.take(sv.len() - 2)));
                                    assert forall|q: int| !mid_gap_at(sv, q) by {
                                        if mid_gap_at(sv, q) {
                                            assert(sv[q].len() == 0);
                                            if q > p {
                                                assert(sv.take(q)[p as int] == sv[p as int]);
                                                assert(!valid_group_text(sv.take(q)[p as int]));
                                                assert(!all_groups(sv.take(q)));
                                            } else if q == p {
                                                assert(sv.take(p as int) =~= sv.take(
                                                    sv.len() - 2,
                                                ));
                                            }
                                        }
                                    }
                                }
                                None
                            },
                        }
                    } else {
                        // inner gap just before the last piece
                        parse_v6_inner_gap(segs, p, n)
                    }
                } else {
                    parse_v6_inner_gap(segs, p, n)
                }
            }
        },
    }
}

/// Parses the inner-gap form around the first empty piece `p`, which here
/// is neither leading nor a trailing `::`.
fn parse_v6_inner_gap(segs: Vec<String>, p: usize, n: usize) -> (r: Option<Ipv6Address>)
    requires
        n == segs@.len(),
        1 <= p < n,
        views_of(segs@)[p as int].len() == 0,
        forall|j: int| 0 <= j < p ==> views_of(segs@)[j].len() > 0,
        !(p + 2 == n && views_of(segs@)[n - 1].len() == 0),
    ensures
        r == match v6_groups_of_segs(views_of(segs@)) {
            Some(gs) => Some(v6_addr_of_groups(gs)),
            None => None,
        },
{
    let ghost sv = views_of(segs@);
    proof {
        // the eight-group form is out: piece p is empty
        assert(!(sv.len() == 8 && all_groups(sv)));
        assert(!(sv.len() == 3 && sv[0].len() == 0 && sv[1].len() == 0 && sv[2].len() == 0)) by {
            assert(sv[0].len() > 0);
        }
        assert(!(3 <= sv.len() <= 9 && sv[0].len() == 0 && sv[1].len() == 0)) by {
            assert(sv[0].len() > 0);
        }
        // the trailing form is out: either the end pieces are not both empty,
        // or an empty piece sits inside the front run
        if 3 <= sv.len() <= 9 && sv[sv.len() - 1].len() == 0 && sv[sv.len() - 2].len() == 0 {
            assert(p < sv.len() - 2 || p == sv.len() - 1 || p + 2 == sv.len());
            if (p as int) < sv.len() - 2 {
                assert(sv.take(sv.len() - 2)[p as int].len() == 0);
                assert(!all_groups(sv.take(sv.len() - 2)));
            } else if p + 1 == sv.len() {
                assert(sv[p - 1].len() > 0);
            } else {
                assert(false);
            }
        }
        // only p can carry a gap
        assert forall|q: int| mid_gap_at(sv, q) implies q == p as int by {
            assert(sv[q].len() == 0);
            if q > p {
                assert(sv.take(q)[p as int] == sv[p as int]);
                assert(!valid_group_text(sv.take(q)[p as int]));
                assert(!all_groups(sv.take(q)));
            }
        }
    }
    if n > 8 || p > n - 2 {
        proof {
            if p > n - 2 {
                assert(forall|q: int| !mid_gap_at(sv, q)) by {
                    assert(forall|q: int| mid_gap_at(sv, q) ==> q == p as int);
                }
            }
        }
        return None;
    }
    let left = match parse_segment_groups(&segs, 0, p) {
        Some(l) => l,
        None => {
            proof {
                assert(sv.subrange(0, p as int) =~= sv.take(p as int));
                assert(!all_groups(sv.take(p as int)));
                assert(forall|q: int| !mid_gap_at(sv, q));
            }
            return None;
        },
    };
    let right = match parse_segment_groups(&segs, p + 1, n) {
        Some(rg) => rg,
        None => {
            proof {
                assert(sv.subrange(p as int + 1, sv.len() as int) =~= sv.skip(p as int + 1));
                assert(!all_groups(sv.skip(p as int + 1)));
                assert(forall|q: int| !mid_gap_at(sv, q));
            }
            return None;
        },
    };
    proof {
        assert(sv.subrange(0, p as int) =~= sv.take(p as int));
        assert(sv.subrange(p as int + 1, sv.len() as int) =~= sv.skip(p as int + 1));
        assert(mid_gap_at(sv, p as int));
        let q = choose|q: int| mid_gap_at(sv, q);
        lemma_mid_gap_unique(sv, q, p as int);
        assert(left@.len() + right@.len() == sv.len() - 1);
    }
    let addr = assemble_v6(&left, &right);
    proof {
        assert(left@ + zero_groups((8 - (sv.len() - 1)) as nat) + right@ =~= group_vals(
            sv.take(p as int),
        ) + zero_groups((8 - (sv.len() - 1)) as nat) + group_vals(sv.skip(p as int + 1)));
    }
    Some(addr)
}

/// The address denoted by a trimmed response body: dotted-quad IPv4 when
/// that form fits, otherwise IPv6.
pub open spec fn parse_ip_chars(s: Seq<char>) -> Option<IpAddress> {
    match parse_ipv4_chars(s) {
        Some(a) => Some(IpAddress::V4(a)),
        None => match parse_ipv6_chars(s) {
            Some(a) => Some(IpAddress::V6(a)),
            None => None,
        },
    }
}

/// Parses address text of either family.
pub fn parse_ip(s: &str) -> (r: Option<IpAddress>)
    ensures
        r == parse_ip_chars(s@),
{
    match parse_ipv4(s) {
        Some(a) => Some(IpAddress::V4(a)),
        None => match parse_ipv6(s) {
            Some(a) => Some(IpAddress::V6(a)),
            None => None,
        },
    }
}

pub open spec fn dec_digit_char(d: nat) -> char {
    if d == 0 {
        '0'
    } else if d == 1 {
        '1'
    } else if d == 2 {
        '2'
    } else if d == 3 {
        '3'
    } else if d == 4 {
        '4'
    } else if d == 5 {
        '5'
    } else if d == 6 {
        '6'
    } else if d == 7 {
        '7'
    } else if d == 8 {
        '8'
    } else {
        '9'
    }
}

pub open spec fn hex_digit_char(d: nat) -> char {
    if d < 10 {
        dec_digit_char(d)
    } else if d == 10 {
        'a'
    } else if d == 11 {
        'b'
    } else if d == 12 {
        'c'
    } else if d == 13 {
        'd'
    } else if d == 14 {
        'e'
    } else {
        'f'
    }
}

/// The decimal text of an octet: one to three digits, no leading zeros.
pub open spec fn dec_chars_u8(v: nat) -> Seq<char> {
    if v < 10 {
        seq![dec_digit_char(v)]
    } else if v < 100 {
        seq![dec_digit_char(v / 10), dec_digit_char(v % 10)]
    } else {
        seq![dec_digit_char(v / 100), dec_digit_char((v / 10) % 10), dec_digit_char(v % 10)]
    }
}

/// The hexadecimal text of a group: lowercase, no leading zeros.
pub open spec fn hex_chars_u16(v: nat) -> Seq<char> {
    if v < 16 {
        seq![hex_digit_char(v)]
    } else if v < 256 {
        seq![hex_digit_char(v / 16), hex_digit_char(v % 16)]
    } else if v < 4096 {
        seq![hex_digit_char(v / 256), hex_digit_char((v / 16) % 16), hex_digit_char(v % 16)]
    } else {
        seq![
            hex_digit_char(v / 4096),
            hex_digit_char((v / 256) % 16),
            hex_digit_char((v / 16) % 16),
            hex_digit_char(v % 16),
        ]
    }
}

/// The dotted-quad text of an IPv4 address.
pub open spec fn render_ipv4_chars(a: Ipv4Address) -> Seq<char> {
    dec_chars_u8(a.o0 as nat) + seq!['.'] + dec_chars_u8(a.o1 as nat) + seq!['.'] + dec_chars_u8(
        a.o2 as nat,
    ) + seq!['.'] + dec_chars_u8(a.o3 as nat)
}

/// The text of an IPv6 address: all eight groups in lowercase hex, written
/// out in full rather than zero-compressed.
pub open spec fn render_ipv6_chars(a: Ipv6Address) -> Seq<char> {
    hex_chars_u16(a.g0 as nat) + seq![':'] + hex_chars_u16(a.g1 as nat) + seq![':']
        + hex_chars_u16(a.g2 as nat) + seq![':'] + hex_chars_u16(a.g3 as nat) + seq![':']
        + hex_chars_u16(a.g4 as nat) + seq![':'] + hex_chars_u16(a.g5 as nat) + seq![':']
        + hex_chars_u16(a.g6 as nat) + seq![':'] + hex_chars_u16(a.g7 as nat)
}

/// The text form of an address, family by family.
pub open spec fn render_ip_chars(ip: IpAddress) -> Seq<char> {
    match ip {
        IpAddress::V4(a) => render_ipv4_chars(a),
        IpAddress::V6(a) => render_ipv6_chars(a),
    }
}

fn dec_digit_str(d: u8) -> (r: &'static str)
    requires
        d < 10,
    ensures
        r@ == seq![dec_digit_char(d as nat)],
{
    let r: &'static str = if d == 0 {
        "0"
    } else if d == 1 {
        "1"
    } else if d == 2 {
        "2"
    } else if d == 3 {
        "3"
    } else if d == 4 {
        "4"
    } else if d == 5 {
        "5"
    } else if d == 6 {
        "6"
    } else if d == 7 {
        "7"
    } else if d == 8 {
        "8"
    } else {
        "9"
    };
    proof {
        reveal_strlit("0");
        reveal_strlit("1");
        reveal_strlit("2");
        reveal_strlit("3");
        reveal_strlit("4");
        reveal_strlit("5");
        reveal_strlit("6");
        reveal_strlit("7");
        reveal_strlit("8");
        reveal_strlit("9");
        assert(r@ =~= seq![dec_digit_char(d as nat)]);
    }
    r
}

fn hex_digit_str(d: u8) -> (r: &'static str)
    requires
        d < 16,
    ensures
        r@ == seq![hex_digit_char(d as nat)],
{
    if d < 10 {
        dec_digit_str(d)
    } else {
        let r: &'static str = if d == 10 {
            "a"
        } else if d == 11 {
            "b"
        } else if d == 12 {
            "c"
        } else if d == 13 {
            "d"
        } else if d == 14 {
            "e"
        } else {
            "f"
        };
        proof {
            reveal_strlit("a");
            reveal_strlit("b");
            reveal_strlit("c");
            reveal_strlit("d");
            reveal_strlit("e");
            reveal_strlit("f");
            assert(r@ =~= seq![hex_digit_char(d as nat)]);
        }
        r
    }
}

fn push_dec_u8(out: &mut String, v: u8)
    ensures
        final(out)@ == old(out)@ + dec_chars_u8(v as nat),
{
    if v < 10 {
        out.append(dec_digit_str(v));
        proof {
            assert(out@ =~= old(out)@ + dec_chars_u8(v as nat));
        }
    } else if v < 100 {
        out.append(dec_digit_str(v / 10));
        out.append(dec_digit_str(v % 10));
        proof {
            assert(out@ =~= old(out)@ + dec_chars_u8(v as nat));
        }
    } else {
        out.append(dec_digit_str(v / 100));
        out.append(dec_digit_str((v / 10) % 10));
        out.append(dec_digit_str(v % 10));
        proof {
            assert(out@ =~= old(out)@ + dec_chars_u8(v as nat));
        }
    }
}

fn push_hex_u16(out: &mut String, v: u16)
    ensures
        final(out)@ == old(out)@ + hex_chars_u16(v as nat),
{
    if v < 16 {
        out.append(hex_digit_str(v as u8));
        proof {
            assert(out@ =~= old(out)@ + hex_chars_u16(v as nat));
        }
    } else if v < 256 {
        out.append(hex_digit_str((v / 16) as u8));
        out.append(hex_digit_str((v % 16) as u8));
        proof {
            assert(out@ =~= old(out)@ + hex_chars_u16(v as nat));
        }
    } else if v < 4096 {
        out.append(hex_digit_str((v / 256) as u8));
        out.append(hex_digit_str(((v / 16) % 16) as u8));
        out.append(hex_digit_str((v % 16) as u8));
        proof {
            assert(out@ =~= old(out)@ + hex_chars_u16(v as nat));
        }
    } else {
        out.append(hex_digit_str((v / 4096) as u8));
        out.append(hex_digit_str(((v / 256) % 16) as u8));
        out.append(hex_digit_str(((v / 16) % 16) as u8));
        out.append(hex_digit_str((v % 16) as u8));
        proof {
            assert(out@ =~= old(out)@ + hex_chars_u16(v as nat));
        }
    }
}

/// Renders an address as text: dotted-quad for IPv4, and for IPv6 all
/// eight groups in lowercase hex separated by ':'.
pub fn render_ip(ip: &IpAddress) -> (r: String)
    ensures
        r@ == render_ip_chars(*ip),
{
    match *ip {
        IpAddress::V4(a) => {
            let mut out = String::new();
            push_dec_u8(&mut out, a.o0);
            out.append(".");
            push_dec_u8(&mut out, a.o1);
            out.append(".");
            push_dec_u8(&mut out, a.o2);
            out.append(".");
            push_dec_u8(&mut out, a.o3);
            proof {
                reveal_strlit(".");
                assert("."@ =~= seq!['.']);
                assert(out@ =~= render_ipv4_chars(a));
            }
            out
        },
        IpAddress::V6(a) => {
            let mut out = String::new();
            push_hex_u16(&mut out, a.g0);
            out.append(":");
            push_hex_u16(&mut out, a.g1);
            out.append(":");
            push_hex_u16(&mut out, a.g2);
            out.append(":");
            push_hex_u16(&mut out, a.g3);
            out.append(":");
            push_hex_u16(&mut out, a.g4);
            out.append(":");
            push_hex_u16(&mut out, a.g5);
            out.append(":");
            push_hex_u16(&mut out, a.g6);
            out.append(":");
            push_hex_u16(&mut out, a.g7);
            proof {
                reveal_strlit(":");
                assert(":"@ =~= seq![':']);
                assert(out@ =~= render_ipv6_chars(a));
            }
            out
        },
    }
}

proof fn lemma_dec_digit_roundtrip(d: nat)
    requires
        d < 10,
    ensures
        is_dec_digit(dec_digit_char(d)),
        dec_digit_val(dec_digit_char(d)) == d,
        d != 0 ==> dec_digit_char(d) != '0',
        (dec_digit_char(d) as u32) != ('.' as u32),
        (dec_digit_char(d) as u32) != (':' as u32),
{
}

proof fn lemma_hex_digit_roundtrip(d: nat)
    requires
        d < 16,
    ensures
        is_hex_digit(hex_digit_char(d)),
        hex_digit_val(hex_digit_char(d)) == d,
        (hex_digit_char(d) as u32) != ('.' as u32),
        (hex_digit_char(d) as u32) != (':' as u32),
{
}

proof fn lemma_dec_val_one(c0: char)
    ensures
        dec_val(seq![c0]) == dec_digit_val(c0),
{
    assert(seq![c0].drop_last() =~= Seq::<char>::empty());
    assert(seq![c0].last() == c0);
    assert(dec_val(Seq::<char>::empty()) == 0);
}

proof fn lemma_dec_val_two(c1: char, c0: char)
    ensures
        dec_val(seq![c1, c0]) == dec_digit_val(c1) * 10 + dec_digit_val(c0),
{
    lemma_dec_val_one(c1);
    assert(seq![c1, c0].drop_last() =~= seq![c1]);
    assert(seq![c1, c0].last() == c0);
}

proof fn lemma_dec_val_three(c2: char, c1: char, c0: char)
    ensures
        dec_val(seq![c2, c1, c0]) == (dec_digit_val(c2) * 10 + dec_digit_val(c1)) * 10
            + dec_digit_val(c0),
{
    lemma_dec_val_two(c2, c1);
    assert(seq![c2, c1, c0].drop_last() =~= seq![c2, c1]);
    assert(seq![c2, c1, c0].last() == c0);
}

proof fn lemma_hex_val_one(c0: char)
    ensures
        hex_val(seq![c0]) == hex_digit_val(c0),
{
    assert(seq![c0].drop_last() =~= Seq::<char>::empty());
    assert(seq![c0].last() == c0);
    assert(hex_val(Seq::<char>::empty()) == 0);
}

proof fn lemma_hex_val_two(c1: char, c0: char)
    ensures
        hex_val(seq![c1, c0]) == hex_digit_val(c1) * 16 + hex_digit_val(c0),
{
    lemma_hex_val_one(c1);
    assert(seq![c1, c0].drop_last() =~= seq![c1]);
    assert(seq![c1, c0].last() == c0);
}

proof fn lemma_hex_val_three(c2: char, c1: char, c0: char)
    ensures
        hex_val(seq![c2, c1, c0]) == (hex_digit_val(c2) * 16 + hex_digit_val(c1)) * 16
            + hex_digit_val(c0),
{
    lemma_hex_val_two(c2, c1);
    assert(seq![c2, c1, c0].drop_last() =~= seq![c2, c1]);
    assert(seq![c2, c1, c0].last() == c0);
}

proof fn lemma_hex_val_four(c3: char, c2: char, c1: char, c0: char)
    ensures
        hex_val(seq![c3, c2, c1, c0]) == ((hex_digit_val(c3) * 16 + hex_digit_val(c2)) * 16
            + hex_digit_val(c1)) * 16 + hex_digit_val(c0),
{
    lemma_hex_val_three(c3, c2, c1);
    assert(seq![c3, c2, c1, c0].drop_last() =~= seq![c3, c2, c1]);
    assert(seq![c3, c2, c1, c0].last() == c0);
}

proof fn lemma_dec_chars_value(v: nat)
    requires
        v <= 255,
    ensures
        valid_octet_text(dec_chars_u8(v)),
        dec_val(dec_chars_u8(v)) == v,
{
    let s = dec_chars_u8(v);
    if v < 10 {
        lemma_dec_digit_roundtrip(v);
        lemma_dec_val_one(dec_digit_char(v));
        assert(all_dec_digits(s));
    } else if v < 100 {
        lemma_dec_digit_roundtrip(v / 10);
        lemma_dec_digit_roundtrip(v % 10);
        lemma_dec_val_two(dec_digit_char(v / 10), dec_digit_char(v % 10));
        assert(dec_val(s) == (v / 10) * 10 + v % 10);
        assert(all_dec_digits(s));
        assert(v / 10 >= 1);
        assert(s[0] != '0');
    } else {
        lemma_dec_digit_roundtrip(v / 100);
        lemma_dec_digit_roundtrip((v / 10) % 10);
        lemma_dec_digit_roundtrip(v % 10);
        lemma_dec_val_three(
            dec_digit_char(v / 100),
            dec_digit_char((v / 10) % 10),
            dec_digit_char(v % 10),
        );
        let x = v / 10;
        vstd::arithmetic::div_mod::lemma_div_denominator(v as int, 10, 10);
        assert((v as int) / 100 == x as int / 10);
        assert(x == (x / 10) * 10 + x % 10);
        assert(dec_val(s) == ((v / 100) * 10 + (v / 10) % 10) * 10 + v % 10);
        assert(all_dec_digits(s));
        assert(v / 100 >= 1);
        assert(s[0] != '0');
    }
}

proof fn lemma_hex_chars_value(v: nat)
    requires
        v < 65536,
    ensures
        valid_group_text(hex_chars_u16(v)),
        hex_val(hex_chars_u16(v)) == v,
{
    let s = hex_chars_u16(v);
    if v < 16 {
        lemma_hex_digit_roundtrip(v);
        lemma_hex_val_one(hex_digit_char(v));
        assert(all_hex_digits(s));
    } else if v < 256 {
        lemma_hex_digit_roundtrip(v / 16);
        lemma_hex_digit_roundtrip(v % 16);
        lemma_hex_val_two(hex_digit_char(v / 16), hex_digit_char(v % 16));
        assert(hex_val(s) == (v / 16) * 16 + v % 16);
        assert(all_hex_digits(s));
    } else if v < 4096 {
        lemma_hex_digit_roundtrip(v / 256);
        lemma_hex_digit_roundtrip((v / 16) % 16);
        lemma_hex_digit_roundtrip(v % 16);
        lemma_hex_val_three(
            hex_digit_char(v / 256),
            hex_digit_char((v / 16) % 16),
            hex_digit_char(v % 16),
        );
        let x = v / 16;
        vstd::arithmetic::div_mod::lemma_div_denominator(v as int, 16, 16);
        assert((v as int) / 256 == x as int / 16);
        assert(x == (x / 16) * 16 + x % 16);
        assert(hex_val(s) == ((v / 256) * 16 + (v / 16) % 16) * 16 + v % 16);
        assert(all_hex_digits(s));
    } else {
        lemma_hex_digit_roundtrip(v / 4096);
        lemma_hex_digit_roundtrip((v / 256) % 16);
        lemma_hex_digit_roundtrip((v / 16) % 16);
        lemma_hex_digit_roundtrip(v % 16);
        lemma_hex_val_four(
            hex_digit_char(v / 4096),
            hex_digit_char((v / 256) % 16),
            hex_digit_char((v / 16) % 16),
            hex_digit_char(v % 16),
        );
        let x = v / 16;
        let y = v / 256;
        vstd::arithmetic::div_mod::lemma_div_denominator(v as int, 16, 16);
        assert((v as int) / 256 == x as int / 16);
        vstd::arithmetic::div_mod::lemma_div_denominator(v as int, 256, 16);
        assert((v as int) / 4096 == y as int / 16);
        assert(x == (x / 16) * 16 + x % 16);
        assert(y == (y / 16) * 16 + y % 16);
        assert(hex_val(s) == (((v / 4096) * 16 + (v / 256) % 16) * 16 + (v / 16) % 16) * 16 + v
            % 16);
        assert(all_hex_digits(s));
    }
}

proof fn lemma_dec_chars_dot_free(v: nat)
    requires
        v <= 255,
    ensures
        forall|i: int| 0 <= i < dec_chars_u8(v).len() ==> #[trigger] dec_chars_u8(v)[i] != '.',
{
    lemma_dec_chars_value(v);
    assert forall|i: int| 0 <= i < dec_chars_u8(v).len() implies #[trigger] dec_chars_u8(v)[i]
        != '.' by {
        assert(is_dec_digit(dec_chars_u8(v)[i]));
        assert(('.' as u32) < ('0' as u32));
    }
}

proof fn lemma_hex_chars_colon_free(v: nat)
    requires
        v < 65536,
    ensures
        forall|i: int| 0 <= i < hex_chars_u16(v).len() ==> #[trigger] hex_chars_u16(v)[i] != ':',
        forall|i: int| 0 <= i < hex_chars_u16(v).len() ==> #[trigger] hex_chars_u16(v)[i] != '.',
{
    lemma_hex_chars_value(v);
    assert forall|i: int|
        0 <= i < hex_chars_u16(v).len() implies #[trigger] hex_chars_u16(v)[i] != ':'
        && hex_chars_u16(v)[i] != '.' by {
        assert(is_hex_digit(hex_chars_u16(v)[i]));
        let c = hex_chars_u16(v)[i];
        assert((c as u32) != (':' as u32) && (c as u32) != ('.' as u32));
    }
}

/// Law (round trip): rendering an IPv4 address and parsing the text yields
/// the address back.
#[verifier::rlimit(100)]
#[verifier::spinoff_prover]
pub proof fn lemma_render_parse_v4(a: Ipv4Address)
    ensures
        parse_ipv4_chars(render_ipv4_chars(a)) == Some(a),
{
    let d0 = dec_chars_u8(a.o0 as nat);
    let d1 = dec_chars_u8(a.o1 as nat);
    let d2 = dec_chars_u8(a.o2 as nat);
    let d3 = dec_chars_u8(a.o3 as nat);
    lemma_dec_chars_value(a.o0 as nat);
    lemma_dec_chars_value(a.o1 as nat);
    lemma_dec_chars_value(a.o2 as nat);
    lemma_dec_chars_value(a.o3 as nat);
    lemma_dec_chars_dot_free(a.o0 as nat);
    lemma_dec_chars_dot_free(a.o1 as nat);
    lemma_dec_chars_dot_free(a.o2 as nat);
    lemma_dec_chars_dot_free(a.o3 as nat);
    let s = render_ipv4_chars(a);
    let rest1 = d1 + seq!['.'] + (d2 + seq!['.'] + d3);
    let rest2 = d2 + seq!['.'] + d3;
    assert(s =~= d0 + seq!['.'] + rest1);
    lemma_split_char_concat(d0, rest1, '.');
    lemma_split_char_concat(d1, rest2, '.');
    lemma_split_char_concat(d2, d3, '.');
    lemma_split_char_whole(d3, '.');
    let segs = split_char(s, '.');
    assert(segs =~= seq![d0, d1, d2, d3]);
    assert(segs[0] == d0 && segs[1] == d1 && segs[2] == d2 && segs[3] == d3);
    assert(v4_of_segs(segs) == Some(a));
}

/// Splitting eight separator-free pieces joined by the separator yields
/// the pieces back.
#[verifier::spinoff_prover]
proof fn lemma_split_eight(
    sep: char,
    g0: Seq<char>,
    g1: Seq<char>,
    g2: Seq<char>,
    g3: Seq<char>,
    g4: Seq<char>,
    g5: Seq<char>,
    g6: Seq<char>,
    g7: Seq<char>,
)
    requires
        forall|i: int| 0 <= i < g0.len() ==> g0[i] != sep,
        forall|i: int| 0 <= i < g1.len() ==> g1[i] != sep,
        forall|i: int| 0 <= i < g2.len() ==> g2[i] != sep,
        forall|i: int| 0 <= i < g3.len() ==> g3[i] != sep,
        forall|i: int| 0 <= i < g4.len() ==> g4[i] != sep,
        forall|i: int| 0 <= i < g5.len() ==> g5[i] != sep,
        forall|i: int| 0 <= i < g6.len() ==> g6[i] != sep,
        forall|i: int| 0 <= i < g7.len() ==> g7[i] != sep,
    ensures
        split_char(
            g0 + seq![sep] + g1 + seq![sep] + g2 + seq![sep] + g3 + seq![sep] + g4 + seq![sep] + g5
                + seq![sep] + g6 + seq![sep] + g7,
            sep,
        ) == seq![g0, g1, g2, g3, g4, g5, g6, g7],
{
    let s = g0 + seq![sep] + g1 + seq![sep] + g2 + seq![sep] + g3 + seq![sep] + g4 + seq![sep] + g5
        + seq![sep] + g6 + seq![sep] + g7;
    let r6 = g6 + seq![sep] + g7;
    let r5 = g5 + seq![sep] + r6;
    let r4 = g4 + seq![sep] + r5;
    let r3 = g3 + seq![sep] + r4;
    let r2 = g2 + seq![sep] + r3;
    let r1 = g1 + seq![sep] + r2;
    assert(s =~= g0 + seq![sep] + r1);
    lemma_split_char_concat(g0, r1, sep);
    lemma_split_char_concat(g1, r2, sep);
    lemma_split_char_concat(g2, r3, sep);
    lemma_split_char_concat(g3, r4, sep);
    lemma_split_char_concat(g4, r5, sep);
    lemma_split_char_concat(g5, r6, sep);
    lemma_split_char_concat(g6, g7, sep);
    lemma_split_char_whole(g7, sep);
    assert(split_char(s, sep) =~= seq![g0, g1, g2, g3, g4, g5, g6, g7]);
}

/// The pieces of rendered IPv6 text are exactly the eight group texts.
#[verifier::spinoff_prover]
proof fn lemma_render_v6_split(a: Ipv6Address)
    ensures
        split_char(render_ipv6_chars(a), ':') == seq![
            hex_chars_u16(a.g0 as nat),
            hex_chars_u16(a.g1 as nat),
            hex_chars_u16(a.g2 as nat),
            hex_chars_u16(a.g3 as nat),
            hex_chars_u16(a.g4 as nat),
            hex_chars_u16(a.g5 as nat),
            hex_chars_u16(a.g6 as nat),
            hex_chars_u16(a.g7 as nat),
        ],
{
    lemma_hex_chars_colon_free(a.g0 as nat);
    lemma_hex_chars_colon_free(a.g1 as nat);
    lemma_hex_chars_colon_free(a.g2 as nat);
    lemma_hex_chars_colon_free(a.g3 as nat);
    lemma_hex_chars_colon_free(a.g4 as nat);
    lemma_hex_chars_colon_free(a.g5 as nat);
    lemma_hex_chars_colon_free(a.g6 as nat);
    lemma_hex_chars_colon_free(a.g7 as nat);
    lemma_split_eight(
        ':',
        hex_chars_u16(a.g0 as nat),
        hex_chars_u16(a.g1 as nat),
        hex_chars_u16(a.g2 as nat),
        hex_chars_u16(a.g3 as nat),
        hex_chars_u16(a.g4 as nat),
        hex_chars_u16(a.g5 as nat),
        hex_chars_u16(a.g6 as nat),
        hex_chars_u16(a.g7 as nat),
    );
}

/// Law (round trip): rendering an IPv6 address and parsing the text yields
/// the address back.
#[verifier::rlimit(100)]
#[verifier::spinoff_prover]
pub proof fn lemma_render_parse_v6(a: Ipv6Address)
    ensures
        parse_ipv6_chars(render_ipv6_chars(a)) == Some(a),
{
    let g0 = hex_chars_u16(a.g0 as nat);
    let g1 = hex_chars_u16(a.g1 as nat);
    let g2 = hex_chars_u16(a.g2 as nat);
    let g3 = hex_chars_u16(a.g3 as nat);
    let g4 = hex_chars_u16(a.g4 as nat);
    let g5 = hex_chars_u16(a.g5 as nat);
    let g6 = hex_chars_u16(a.g6 as nat);
    let g7 = hex_chars_u16(a.g7 as nat);
    lemma_hex_chars_value(a.g0 as nat);
    lemma_hex_chars_value(a.g1 as nat);
    lemma_hex_chars_value(a.g2 as nat);
    lemma_hex_chars_value(a.g3 as nat);
    lemma_hex_chars_value(a.g4 as nat);
    lemma_hex_chars_value(a.g5 as nat);
    lemma_hex_chars_value(a.g6 as nat);
    lemma_hex_chars_value(a.g7 as nat);
    lemma_render_v6_split(a);
    let segs = split_char(render_ipv6_chars(a), ':');
    assert(segs[0] == g0 && segs[1] == g1 && segs[2] == g2 && segs[3] == g3 && segs[4] == g4
        && segs[5] == g5 && segs[6] == g6 && segs[7] == g7);
    assert(all_groups(segs)) by {
        assert(forall|i: int| 0 <= i < 8 ==> valid_group_text(#[trigger] segs[i]));
    }
    assert(v6_groups_of_segs(segs) == Some(group_vals(segs)));
    assert(group_vals(segs)[0] == a.g0 && group_vals(segs)[1] == a.g1 && group_vals(segs)[2]
        == a.g2 && group_vals(segs)[3] == a.g3 && group_vals(segs)[4] == a.g4 && group_vals(
        segs,
    )[5] == a.g5 && group_vals(segs)[6] == a.g6 && group_vals(segs)[7] == a.g7);
    assert(v6_addr_of_groups(group_vals(segs)) == a);
}

/// Law (round trip): rendering any address and parsing the text yields the
/// address back — the parser and the renderer agree with each other.
pub proof fn lemma_render_parse_ip(ip: IpAddress)
    ensures
        parse_ip_chars(render_ip_chars(ip)) == Some(ip),
{
    match ip {
        IpAddress::V4(a) => {
            lemma_render_parse_v4(a);
        },
        IpAddress::V6(a) => {
            lemma_render_parse_v6(a);
            let s = render_ipv6_chars(a);
            lemma_hex_chars_colon_free(a.g0 as nat);
            lemma_hex_chars_colon_free(a.g1 as nat);
            lemma_hex_chars_colon_free(a.g2 as nat);
            lemma_hex_chars_colon_free(a.g3 as nat);
            lemma_hex_chars_colon_free(a.g4 as nat);
            lemma_hex_chars_colon_free(a.g5 as nat);
            lemma_hex_chars_colon_free(a.g6 as nat);
            lemma_hex_chars_colon_free(a.g7 as nat);
            assert forall|i: int| 0 <= i < s.len() implies s[i] != '.' by {
                assert(s[i] == ':' || is_hex_digit(s[i])) by {
                    lemma_v6_text_shape(a, i);
                }
                assert((':' as u32) != ('.' as u32));
            }
            lemma_split_char_whole(s, '.');
            assert(split_char(s, '.') == seq![s]);
            assert(v4_of_segs(seq![s]) is None);
        },
    }
}

/// Every character of rendered IPv6 text is a hex digit or a ':'.
proof fn lemma_v6_text_shape(a: Ipv6Address, i: int)
    requires
        0 <= i < render_ipv6_chars(a).len(),
    ensures
        render_ipv6_chars(a)[i] == ':' || is_hex_digit(render_ipv6_chars(a)[i]),
{
    lemma_hex_chars_value(a.g0 as nat);
    lemma_hex_chars_value(a.g1 as nat);
    lemma_hex_chars_value(a.g2 as nat);
    lemma_hex_chars_value(a.g3 as nat);
    lemma_hex_chars_value(a.g4 as nat);
    lemma_hex_chars_value(a.g5 as nat);
    lemma_hex_chars_value(a.g6 as nat);
    lemma_hex_chars_value(a.g7 as nat);
}

} // verus!
