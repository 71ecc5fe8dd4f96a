//! The textual forms of IPv4 and IPv6 addresses.
use crate::text;
use vstd::prelude::*;
use vstd::string::*;

verus! {

/// A decimal digit.
pub open spec fn is_digit(c: char) -> bool {
    '0' <= c <= '9'
}

/// A hexadecimal digit.
pub open spec fn is_hex_digit(c: char) -> bool {
    is_digit(c) || 'a' <= c <= 'f' || 'A' <= c <= 'F'
}

/// The number that a run of decimal digits denotes.
pub open spec fn decimal(s: Seq<char>) -> nat
    decreases s.len(),
{
    if s.len() == 0 {
        0
    } else {
        10 * decimal(s.drop_last()) + (s.last() as u32 - '0' as u32) as nat
    }
}

/// A number from 0 to 255 in decimal, without leading zeros.
pub open spec fn is_octet(s: Seq<char>) -> bool {
    &&& 1 <= s.len() <= 3
    &&& forall|i: int| 0 <= i < s.len() ==> is_digit(#[trigger] s[i])
    &&& s.len() > 1 ==> s[0] != '0'
    &&& decimal(s) <= 255
}

/// `n` octets with dots between them.
pub open spec fn is_dotted(s: Seq<char>, n: nat) -> bool
    decreases n,
{
    let dot = text::first_index(s, '.');
    if n == 0 {
        false
    } else if n == 1 {
        is_octet(s)
    } else {
        &&& dot < s.len()
        &&& is_octet(s.take(dot))
        &&& is_dotted(s.skip(dot + 1), (n - 1) as nat)
    }
}

/// An IPv4 address: four octets with dots between them.
pub open spec fn is_ipv4(s: Seq<char>) -> bool {
    is_dotted(s, 4)
}

/// One to four hexadecimal digits.
pub open spec fn is_group(s: Seq<char>) -> bool {
    &&& 1 <= s.len() <= 4
    &&& forall|i: int| 0 <= i < s.len() ==> is_hex_digit(#[trigger] s[i])
}

/// How many groups of an IPv6 address the groups in `s` stand for, which have colons between
/// them; `tail` allows an IPv4 address, which stands for two, in place of the last one.
pub open spec fn group_count(s: Seq<char>, tail: bool) -> Option<nat>
    decreases s.len(),
{
    let colon = text::first_index(s, ':');
    if colon < 0 || colon >= s.len() {
        if is_group(s) {
            Some(1)
        } else if tail && is_ipv4(s) {
            Some(2)
        } else {
            None
        }
    } else if is_group(s.take(colon)) {
        match group_count(s.skip(colon + 1), tail) {
            Some(n) => Some(n + 1),
            None => None,
        }
    } else {
        None
    }
}

/// As `group_count`, where there may also be no group.
pub open spec fn side_count(s: Seq<char>, tail: bool) -> Option<nat> {
    if s.len() == 0 {
        Some(0)
    } else {
        group_count(s, tail)
    }
}

/// Where the first `::` in `s` is, or `s.len()` where there is none.
pub open spec fn first_double_colon(s: Seq<char>) -> int
    decreases s.len(),
{
    if s.len() < 2 {
        s.len() as int
    } else if s[0] == ':' && s[1] == ':' {
        0
    } else {
        1 + first_double_colon(s.drop_first())
    }
}

/// An IPv6 address: eight groups, or fewer with a `::` that stands for at least one.
pub open spec fn is_ipv6(s: Seq<char>) -> bool {
    let gap = first_double_colon(s);
    if gap >= s.len() {
        group_count(s, true) == Some(8nat)
    } else {
        match (side_count(s.take(gap), false), side_count(s.skip(gap + 2), true)) {
            (Some(n), Some(m)) => n + m <= 7,
            _ => false,
        }
    }
}

/// An IP address.
pub open spec fn is_ip(s: Seq<char>) -> bool {
    is_ipv4(s) || is_ipv6(s)
}

/// Whether `s` is a number from 0 to 255 in decimal, without leading zeros.
fn octet(s: &str) -> (r: bool)
    ensures
        r == is_octet(s@),
{
    let v: Vec<char> = text::chars_of(s);
    if v.len() < 1 || v.len() > 3 || (v.len() > 1 && v[0] == '0') {
        return false;
    }
    let mut n: u32 = 0;
    let mut i: usize = 0;
    while i < v.len()
        invariant
            v@ == s@,
            v@.len() <= 3,
            i <= v@.len(),
            forall|j: int| 0 <= j < i ==> is_digit(#[trigger] s@[j]),
            n == decimal(s@.take(i as int)),
            i == 0 ==> n == 0,
            i == 1 ==> n < 10,
            i == 2 ==> n < 100,
            i == 3 ==> n < 1000,
        decreases v@.len() - i,
    {
        let c: char = v[i];
        if c < '0' || c > '9' {
            proof {
                assert(!is_digit(s@[i as int]));
            }
            return false;
        }
        proof {
            assert(s@.take(i + 1).drop_last() =~= s@.take(i as int));
            assert(s@.take(i + 1).last() == c);
        }
        n = 10 * n + (c as u32 - '0' as u32);
        i += 1;
    }
    proof {
        assert(s@.take(i as int) =~= s@);
    }
    n <= 255
}

/// Whether `s` is an IPv4 address.
fn ipv4(s: &str) -> (r: bool)
    ensures
        r == is_ipv4(s@),
{
    let mut rest: &str = s;
    let mut n: usize = 4;
    while n > 1
        invariant
            1 <= n <= 4,
            is_ipv4(s@) == is_dotted(rest@, n as nat),
        decreases n,
    {
        match text::find_char(rest, '.') {
            None => {
                return false;
            },
            Some(dot) => {
                proof {
                    assert(rest@.subrange(0, dot as int) =~= rest@.take(dot as int));
                    assert(rest@.subrange(dot + 1, rest@.len() as int) =~= rest@.skip(dot + 1));
                }
                if !octet(rest.substring_char(0, dot)) {
                    return false;
                }
                rest = rest.substring_char(dot + 1, rest.unicode_len());
            },
        }
        n -= 1;
    }
    octet(rest)
}

/// Whether `s` is one to four hexadecimal digits.
fn group(s: &str) -> (r: bool)
    ensures
        r == is_group(s@),
{
    let v: Vec<char> = text::chars_of(s);
    if v.len() < 1 || v.len() > 4 {
        return false;
    }
    let mut i: usize = 0;
    while i < v.len()
        invariant
            v@ == s@,
            i <= v@.len(),
            forall|j: int| 0 <= j < i ==> is_hex_digit(#[trigger] s@[j]),
        decreases v@.len() - i,
    {
        let c: char = v[i];
        if !(('0' <= c && c <= '9') || ('a' <= c && c <= 'f') || ('A' <= c && c <= 'F')) {
            proof {
                assert(!is_hex_digit(s@[i as int]));
            }
            return false;
        }
        i += 1;
    }
    true
}

/// How many groups the groups in `s` stand for.
fn groups(s: &str, tail: bool) -> (r: Option<usize>)
    ensures
        r is Some <==> group_count(s@, tail) is Some,
        r matches Some(n) ==> group_count(s@, tail) == Some(n as nat),
{
    let mut rest: &str = s;
    let mut n: usize = 0;
    let total: usize = s.unicode_len();
    loop
        invariant
            total == s@.len(),
            n + rest@.len() <= total,
            group_count(s@, tail) == (match group_count(rest@, tail) {
                Some(m) => Some((n + m) as nat),
                None => None,
            }),
        decreases rest@.len(),
    {
        match text::find_char(rest, ':') {
            None => {
                if group(rest) {
                    return Some(n + 1);
                }
                if tail && ipv4(rest) {
                    proof {
                        lemma_ipv4_length(rest@);
                    }
                    return Some(n + 2);
                }
                return None;
            },
            Some(colon) => {
                proof {
                    assert(rest@.subrange(0, colon as int) =~= rest@.take(colon as int));
                    assert(rest@.subrange(colon + 1, rest@.len() as int) =~= rest@.skip(colon + 1));
                }
                if !group(rest.substring_char(0, colon)) {
                    return None;
                }
                rest = rest.substring_char(colon + 1, rest.unicode_len());
                n += 1;
            },
        }
    }
}

/// An IPv4 address is longer than one character.
proof fn lemma_ipv4_length(s: Seq<char>)
    requires
        is_ipv4(s),
    ensures
        s.len() >= 2,
{
    reveal_with_fuel(is_dotted, 3);
    text::lemma_first_index(s, '.');
}

/// As `groups`, where there may also be no group.
fn side(s: &str, tail: bool) -> (r: Option<usize>)
    ensures
        r is Some <==> side_count(s@, tail) is Some,
        r matches Some(n) ==> side_count(s@, tail) == Some(n as nat),
{
    if s.is_empty() {
        Some(0)
    } else {
        groups(s, tail)
    }
}

/// A `::` with none before it is the first one.
proof fn lemma_first_double_colon_is(s: Seq<char>, i: int)
    requires
        0 <= i <= s.len(),
        i < s.len() ==> i + 1 < s.len() && s[i] == ':' && s[i + 1] == ':',
        forall|j: int| 0 <= j < i && j + 1 < s.len() ==> !(#[trigger] s[j] == ':' && s[j + 1] == ':'),
    ensures
        first_double_colon(s) == i,
    decreases s.len(),
{
    if s.len() < 2 {
    } else if i > 0 {
        assert(!(s[0] == ':' && s[1] == ':'));
        let t = s.drop_first();
        assert forall|j: int| 0 <= j < i - 1 && j + 1 < t.len() implies !(#[trigger] t[j] == ':' && t[j
            + 1] == ':') by {
            assert(t[j] == s[j + 1] && t[j + 1] == s[j + 2]);
        }
        lemma_first_double_colon_is(t, i - 1);
    }
}

/// Where the first `::` in `s` is.
fn double_colon(s: &str) -> (r: Option<usize>)
    ensures
        r matches Some(i) ==> i == first_double_colon(s@) && i + 1 < s@.len(),
        r is None ==> first_double_colon(s@) == s@.len(),
{
    let v: Vec<char> = text::chars_of(s);
    let mut i: usize = 0;
    while i < v.len()
        invariant
            v@ == s@,
            i <= v@.len(),
            forall|j: int|
                0 <= j < i && j + 1 < s@.len() ==> !(#[trigger] s@[j] == ':' && s@[j + 1] == ':'),
        decreases v@.len() - i,
    {
        if i + 1 < v.len() && v[i] == ':' && v[i + 1] == ':' {
            proof {
                lemma_first_double_colon_is(s@, i as int);
            }
            return Some(i);
        }
        i += 1;
    }
    proof {
        lemma_first_double_colon_is(s@, i as int);
    }
    None
}

/// Whether `s` is an IP address.
pub fn ip_literal(s: &str) -> (r: bool)
    ensures
        r == is_ip(s@),
{
    if ipv4(s) {
        return true;
    }
    match double_colon(s) {
        None => match groups(s, true) {
            Some(n) => n == 8,
            None => false,
        },
        Some(gap) => {
            let len: usize = s.unicode_len();
            proof {
                assert(s@.subrange(0, gap as int) =~= s@.take(gap as int));
                assert(s@.subrange(gap + 2, len as int) =~= s@.skip(gap + 2));
            }
            match (side(s.substring_char(0, gap), false), side(s.substring_char(gap + 2, len), true)) {
                (Some(n), Some(m)) => n <= 7 && m <= 7 - n,
                _ => false,
            }
        },
    }
}

/// Octets with dots between them hold nothing but digits and dots, and start with a digit.
proof fn lemma_dotted_chars(s: Seq<char>, n: nat)
    requires
        is_dotted(s, n),
    ensures
        s.len() > 0,
        is_digit(s[0]),
        forall|i: int| 0 <= i < s.len() ==> is_digit(#[trigger] s[i]) || s[i] == '.',
    decreases n,
{
    if n > 1 {
        let dot = text::first_index(s, '.');
        text::lemma_first_index(s, '.');
        let head = s.take(dot);
        let rest = s.skip(dot + 1);
        lemma_dotted_chars(rest, (n - 1) as nat);
        assert(head[0] == s[0]);
        assert forall|i: int| 0 <= i < s.len() implies is_digit(#[trigger] s[i]) || s[i] == '.' by {
            if i < dot {
                assert(head[i] == s[i]);
            } else if i > dot {
                assert(rest[i - dot - 1] == s[i]);
            }
        }
    }
}

/// An IPv4 address holds no `:`.
pub proof fn lemma_ipv4_has_no_colon(s: Seq<char>)
    requires
        is_ipv4(s),
    ensures
        !s.contains(':'),
{
    lemma_dotted_chars(s, 4);
}

/// Groups start with a hexadecimal digit, and have colons between them.
proof fn lemma_groups_have_colons(s: Seq<char>, tail: bool)
    requires
        group_count(s, tail) is Some,
    ensures
        s.len() > 0,
        is_hex_digit(s[0]),
        text::occurrences(s, ':') + 2 >= group_count(s, tail)->0,
    decreases s.len(),
{
    let colon = text::first_index(s, ':');
    text::lemma_first_index(s, ':');
    if colon >= s.len() {
        if !is_group(s) {
            lemma_dotted_chars(s, 4);
        }
    } else {
        let head = s.take(colon);
        let rest = s.skip(colon + 1);
        lemma_groups_have_colons(rest, tail);
        assert(head[0] == s[0]);
        let first = s.take(colon + 1);
        assert(first.last() == ':');
        assert(s =~= first + rest);
        text::lemma_occurrences_add(first, rest, ':');
    }
}

/// At the first `::` there is one.
proof fn lemma_first_double_colon(s: Seq<char>)
    ensures
        0 <= first_double_colon(s) <= s.len(),
        first_double_colon(s) < s.len() ==> {
            &&& first_double_colon(s) + 1 < s.len()
            &&& s[first_double_colon(s)] == ':'
            &&& s[first_double_colon(s) + 1] == ':'
        },
    decreases s.len(),
{
    if s.len() >= 2 && !(s[0] == ':' && s[1] == ':') {
        lemma_first_double_colon(s.drop_first());
    }
}

/// An IPv6 address holds more than one `:`, and starts with one or with a digit.
pub proof fn lemma_ipv6_has_colons(s: Seq<char>)
    requires
        is_ipv6(s),
    ensures
        text::occurrences(s, ':') > 1,
        s.len() > 0,
        s[0] == ':' || is_hex_digit(s[0]),
{
    let gap = first_double_colon(s);
    lemma_first_double_colon(s);
    if gap >= s.len() {
        lemma_groups_have_colons(s, true);
    } else {
        let before = s.take(gap);
        let after = s.skip(gap + 2);
        let middle = s.subrange(gap, gap + 2);
        assert(middle.last() == ':');
        assert(middle.drop_last().last() == ':');
        reveal_with_fuel(text::occurrences, 3);
        assert(text::occurrences(middle, ':') == 2);
        assert(s =~= before + middle + after);
        text::lemma_occurrences_add(before, middle, ':');
        text::lemma_occurrences_add(before + middle, after, ':');
        if gap > 0 {
            lemma_groups_have_colons(before, false);
            assert(before[0] == s[0]);
        }
    }
}

/// The digits are the ten characters from `0` to `9`, and for hexadecimal numbers the letters from
/// `a` to `f` too, in either case.
pub proof fn lemma_digits(c: char)
    ensures
        is_digit(c) <==> "0123456789"@.contains(c),
        is_hex_digit(c) <==> "0123456789abcdefABCDEF"@.contains(c),
{
    reveal_strlit("0123456789");
    reveal_strlit("0123456789abcdefABCDEF");
    let d = "0123456789"@;
    let h = "0123456789abcdefABCDEF"@;
    if is_digit(c) {
        let i = c as int - '0' as int;
        assert(d[i] == c && h[i] == c);
    } else if is_hex_digit(c) {
        if 'a' <= c <= 'f' {
            assert(h[10 + (c as int - 'a' as int)] == c);
        } else {
            assert(h[16 + (c as int - 'A' as int)] == c);
        }
    }
    if d.contains(c) {
        let i = choose|i: int| 0 <= i < d.len() && d[i] == c;
        assert(is_digit(d[i]));
    }
    if h.contains(c) {
        let i = choose|i: int| 0 <= i < h.len() && h[i] == c;
        assert(is_hex_digit(h[i]));
    }
}

/// A number as it is written in decimal.
pub open spec fn written(n: nat) -> Seq<char>
    decreases n,
{
    if n < 10 {
        seq![('0' as int + n) as char]
    } else {
        written(n / 10).push(('0' as int + n % 10) as char)
    }
}

/// The octets are the numbers up to 255 as they are written in decimal.
pub proof fn lemma_octets_are_written_numbers(n: nat, s: Seq<char>)
    ensures
        n <= 255 ==> is_octet(written(n)),
        is_octet(s) ==> decimal(s) <= 255 && s == written(decimal(s)),
{
    reveal_with_fuel(written, 4);
    reveal_with_fuel(decimal, 4);
    if n <= 255 {
        let w = written(n);
        if n < 10 {
            assert(w.drop_last() =~= Seq::<char>::empty());
        } else if n < 100 {
            assert(w =~= seq![('0' as int + n / 10) as char, ('0' as int + n % 10) as char]);
            assert(w.drop_last() =~= seq![('0' as int + n / 10) as char]);
            assert(w.drop_last().drop_last() =~= Seq::<char>::empty());
        } else {
            assert(w =~= seq![
                ('0' as int + n / 100) as char,
                ('0' as int + n / 10 % 10) as char,
                ('0' as int + n % 10) as char,
            ]);
            assert(w.drop_last() =~= seq![
                ('0' as int + n / 100) as char,
                ('0' as int + n / 10 % 10) as char,
            ]);
            assert(w.drop_last().drop_last() =~= seq![('0' as int + n / 100) as char]);
            assert(w.drop_last().drop_last().drop_last() =~= Seq::<char>::empty());
        }
        assert(decimal(w) == n);
    }
    if is_octet(s) {
        assert(is_digit(s[0]));
        if s.len() == 1 {
            assert(s.drop_last() =~= Seq::<char>::empty());
            assert(decimal(s) == s[0] as int - '0' as int);
            assert(s =~= written(decimal(s)));
        } else if s.len() == 2 {
            assert(is_digit(s[1]));
            assert(s.drop_last().drop_last() =~= Seq::<char>::empty());
            assert(s.drop_last().last() == s[0]);
            assert(decimal(s) == 10 * (s[0] as int - '0' as int) + (s[1] as int - '0' as int));
            assert(s =~= written(decimal(s)));
        } else {
            assert(is_digit(s[1]) && is_digit(s[2]));
            assert(s.drop_last().drop_last().drop_last() =~= Seq::<char>::empty());
            assert(s.drop_last().last() == s[1]);
            assert(s.drop_last().drop_last().last() == s[0]);
            assert(decimal(s) == 100 * (s[0] as int - '0' as int) + 10 * (s[1] as int - '0' as int) + (
            s[2] as int - '0' as int));
            assert(s =~= written(decimal(s)));
        }
    }
}

/// An octet in front of octets with dots between them is one more of them.
proof fn lemma_dotted_step(octet: Seq<char>, rest: Seq<char>, n: nat)
    requires
        n >= 1,
    ensures
        is_octet(octet) ==> is_dotted(octet + "."@ + rest, n + 1) == is_dotted(rest, n),
{
    reveal_strlit(".");
    if is_octet(octet) {
        let s = octet + "."@ + rest;
        let k = octet.len() as int;
        assert(s[k] == '.');
        assert forall|j: int| 0 <= j < k implies s[j] != '.' by {
            assert(s[j] == octet[j]);
            assert(is_digit(octet[j]));
        }
        text::lemma_first_index_is(s, '.', k);
        assert(s.take(k) =~= octet);
        assert(s.skip(k + 1) =~= rest);
    }
}

/// The four numbers of an address as they are written.
pub open spec fn four_written(a: nat, b: nat, c: nat, d: nat) -> Seq<char> {
    written(a) + "."@ + (written(b) + "."@ + (written(c) + "."@ + written(d)))
}

/// The IPv4 addresses are four numbers up to 255, as they are written in decimal, with dots between
/// them.
pub proof fn lemma_ipv4_addresses(a: nat, b: nat, c: nat, d: nat, s: Seq<char>)
    ensures
        a <= 255 && b <= 255 && c <= 255 && d <= 255 ==> is_ipv4(four_written(a, b, c, d)),
        is_ipv4(s) ==> exists|p: nat, q: nat, r: nat, t: nat|
            p <= 255 && q <= 255 && r <= 255 && t <= 255 && s == #[trigger] four_written(p, q, r, t),
{
    reveal_strlit(".");
    if a <= 255 && b <= 255 && c <= 255 && d <= 255 {
        lemma_octets_are_written_numbers(a, Seq::empty());
        lemma_octets_are_written_numbers(b, Seq::empty());
        lemma_octets_are_written_numbers(c, Seq::empty());
        lemma_octets_are_written_numbers(d, Seq::empty());
        let w3 = written(c) + "."@ + written(d);
        let w2 = written(b) + "."@ + w3;
        lemma_dotted_step(written(c), written(d), 1);
        lemma_dotted_step(written(b), w3, 2);
        lemma_dotted_step(written(a), w2, 3);
        assert(is_dotted(written(d), 1));
    }
    if is_ipv4(s) {
        reveal_with_fuel(is_dotted, 5);
        let i = text::first_index(s, '.');
        text::lemma_first_index(s, '.');
        let s1 = s.skip(i + 1);
        let j = text::first_index(s1, '.');
        text::lemma_first_index(s1, '.');
        let s2 = s1.skip(j + 1);
        let k = text::first_index(s2, '.');
        text::lemma_first_index(s2, '.');
        let s3 = s2.skip(k + 1);
        lemma_octets_are_written_numbers(0, s.take(i));
        lemma_octets_are_written_numbers(0, s1.take(j));
        lemma_octets_are_written_numbers(0, s2.take(k));
        lemma_octets_are_written_numbers(0, s3);
        assert(s2 =~= s2.take(k) + "."@ + s3);
        assert(s1 =~= s1.take(j) + "."@ + s2);
        assert(s =~= s.take(i) + "."@ + s1);
        assert(s == four_written(
            decimal(s.take(i)),
            decimal(s1.take(j)),
            decimal(s2.take(k)),
            decimal(s3),
        ));
    }
}

/// Some groups, each followed by a colon, and then an end.
pub open spec fn groups_then(groups: Seq<Seq<char>>, end: Seq<char>) -> Seq<char>
    decreases groups.len(),
{
    if groups.len() == 0 {
        end
    } else {
        groups[0] + ":"@ + groups_then(groups.drop_first(), end)
    }
}

/// Whether some texts are groups: one to four hexadecimal digits each.
pub open spec fn all_groups(groups: Seq<Seq<char>>) -> bool {
    forall|i: int|
        0 <= i < groups.len() ==> {
            &&& 1 <= (#[trigger] groups[i]).len() <= 4
            &&& forall|j: int|
                0 <= j < groups[i].len() ==> "0123456789abcdefABCDEF"@.contains(
                    #[trigger] groups[i][j],
                )
        }
}

/// One of some groups is a group, without a colon.
proof fn lemma_one_group(groups: Seq<Seq<char>>, i: int)
    requires
        all_groups(groups),
        0 <= i < groups.len(),
    ensures
        is_group(groups[i]),
        !groups[i].contains(':'),
{
    let g = groups[i];
    assert forall|j: int| 0 <= j < g.len() implies is_hex_digit(#[trigger] g[j]) by {
        lemma_digits(g[j]);
    }
}

/// How many groups such a run stands for, and that it has no two colons in a row and none at either
/// of its ends.
proof fn lemma_groups_then(groups: Seq<Seq<char>>, end: Seq<char>, tail: bool)
    requires
        all_groups(groups),
        group_count(end, tail) is Some,
        !end.contains(':'),
    ensures
        group_count(groups_then(groups, end), tail) == Some(
            (groups.len() + group_count(end, tail)->0) as nat,
        ),
        ({
            let t = groups_then(groups, end);
            &&& t.len() > 0
            &&& t[0] != ':'
            &&& t.last() != ':'
            &&& forall|i: int| 0 <= i < t.len() - 1 ==> !(#[trigger] t[i] == ':' && t[i + 1] == ':')
        }),
    decreases groups.len(),
{
    reveal_strlit(":");
    let t = groups_then(groups, end);
    if groups.len() == 0 {
        lemma_groups_have_colons(end, tail);
        assert(!end.contains(':'));
        assert forall|i: int| 0 <= i < t.len() implies t[i] != ':' by {
            assert(end.contains(t[i]));
        }
    } else {
        let rest = groups_then(groups.drop_first(), end);
        let g = groups[0];
        assert forall|i: int| 0 <= i < groups.drop_first().len() implies {
            &&& 1 <= (#[trigger] groups.drop_first()[i]).len() <= 4
            &&& forall|j: int|
                0 <= j < groups.drop_first()[i].len() ==> "0123456789abcdefABCDEF"@.contains(
                    #[trigger] groups.drop_first()[i][j],
                )
        } by {
            assert(groups.drop_first()[i] == groups[i + 1]);
        }
        lemma_groups_then(groups.drop_first(), end, tail);
        lemma_one_group(groups, 0);
        let k = g.len() as int;
        assert(t[k] == ':');
        assert forall|j: int| 0 <= j < k implies t[j] != ':' by {
            assert(t[j] == g[j]);
            assert(g.contains(g[j]));
        }
        text::lemma_first_index_is(t, ':', k);
        assert(t.take(k) =~= g);
        assert(t.skip(k + 1) =~= rest);
        assert forall|i: int| 0 <= i < t.len() - 1 implies !(#[trigger] t[i] == ':' && t[i + 1] == ':') by {
            if i == k {
                assert(t[i + 1] == rest[0]);
            } else if i > k {
                assert(t[i] == rest[i - k - 1] && t[i + 1] == rest[i - k]);
            }
        }
        assert(t.last() == rest.last());
    }
}

/// Eight groups of hexadecimal digits with colons between them are an IPv6 address, and so are six
/// of them with an IPv4 address in place of the last two.
pub proof fn lemma_full_ipv6_addresses(groups: Seq<Seq<char>>, last: Seq<char>)
    requires
        all_groups(groups),
    ensures
        groups.len() == 7 && all_groups(seq![last]) ==> is_ipv6(groups_then(groups, last)),
        groups.len() == 6 && is_ipv4(last) ==> is_ipv6(groups_then(groups, last)),
{
    let t = groups_then(groups, last);
    if groups.len() == 7 && all_groups(seq![last]) {
        lemma_one_group(seq![last], 0);
        assert(seq![last][0] == last);
        text::lemma_first_index(last, ':');
        lemma_groups_then(groups, last, true);
        lemma_first_double_colon_is(t, t.len() as int);
    }
    if groups.len() == 6 && is_ipv4(last) {
        lemma_ipv4_has_no_colon(last);
        text::lemma_first_index(last, ':');
        lemma_dotted_chars(last, 4);
        lemma_ipv4_is_no_group(last);
        lemma_groups_then(groups, last, true);
        lemma_first_double_colon_is(t, t.len() as int);
    }
}

/// An IPv4 address is no group.
proof fn lemma_ipv4_is_no_group(s: Seq<char>)
    requires
        is_ipv4(s),
    ensures
        !is_group(s),
{
    text::lemma_first_index(s, '.');
    let dot = text::first_index(s, '.');
    assert(s[dot] == '.');
    if is_group(s) {
        assert(is_hex_digit(s[dot]));
    }
}

/// A `::` stands for the groups that are missing: what is in front of it and behind it is up to
/// seven groups in all, or none.
pub proof fn lemma_short_ipv6_addresses(
    before: Seq<Seq<char>>,
    front: Seq<char>,
    after: Seq<Seq<char>>,
    back: Seq<char>,
)
    requires
        all_groups(before),
        all_groups(after),
        all_groups(seq![front]),
        all_groups(seq![back]),
    ensures
        before.len() + 1 + after.len() + 1 <= 7 ==> is_ipv6(
            groups_then(before, front) + "::"@ + groups_then(after, back),
        ),
        before.len() + 1 <= 7 ==> is_ipv6(groups_then(before, front) + "::"@),
        after.len() + 1 <= 7 ==> is_ipv6("::"@ + groups_then(after, back)),
        is_ipv6("::"@),
{
    reveal_strlit("::");
    let l = groups_then(before, front);
    let r = groups_then(after, back);
    lemma_one_group(seq![front], 0);
    lemma_one_group(seq![back], 0);
    assert(seq![front][0] == front && seq![back][0] == back);
    text::lemma_first_index(front, ':');
    text::lemma_first_index(back, ':');
    lemma_groups_then(before, front, false);
    lemma_groups_then(after, back, true);
    let e = Seq::<char>::empty();
    lemma_gap(l, r);
    lemma_gap(l, e);
    lemma_gap(e, r);
    lemma_gap(e, e);
    assert(l + "::"@ + e =~= l + "::"@);
    assert(e + "::"@ + r =~= "::"@ + r);
    assert(e + "::"@ + e =~= "::"@);
}

/// The first `::` is behind a text that has none and does not end with a colon.
proof fn lemma_gap(l: Seq<char>, r: Seq<char>)
    requires
        l.len() > 0 ==> l.last() != ':',
        forall|i: int| 0 <= i < l.len() - 1 ==> !(#[trigger] l[i] == ':' && l[i + 1] == ':'),
    ensures
        first_double_colon(l + "::"@ + r) == l.len(),
        (l + "::"@ + r).take(l.len() as int) == l,
        (l + "::"@ + r).skip(l.len() + 2int) == r,
        (l + "::"@ + r).len() == l.len() + 2 + r.len(),
{
    reveal_strlit("::");
    let s = l + "::"@ + r;
    let n = l.len() as int;
    assert(s[n] == ':' && s[n + 1] == ':');
    assert forall|i: int| 0 <= i < n implies !(#[trigger] s[i] == ':' && s[i + 1] == ':') by {
        assert(s[i] == l[i]);
        if i + 1 < n {
            assert(s[i + 1] == l[i + 1]);
        }
    }
    lemma_first_double_colon_is(s, n);
    assert(s.take(n) =~= l);
    assert(s.skip(n + 2) =~= r);
}

/// Groups hold nothing but hexadecimal digits, colons and dots.
proof fn lemma_groups_chars(s: Seq<char>, tail: bool)
    requires
        group_count(s, tail) is Some,
    ensures
        forall|i: int|
            0 <= i < s.len() ==> is_hex_digit(#[trigger] s[i]) || s[i] == ':' || s[i] == '.',
    decreases s.len(),
{
    let colon = text::first_index(s, ':');
    text::lemma_first_index(s, ':');
    if colon >= s.len() {
        if !is_group(s) {
            lemma_dotted_chars(s, 4);
        }
    } else {
        let head = s.take(colon);
        let rest = s.skip(colon + 1);
        lemma_groups_chars(rest, tail);
        assert forall|i: int| 0 <= i < s.len() implies is_hex_digit(#[trigger] s[i]) || s[i] == ':'
            || s[i] == '.' by {
            if i < colon {
                assert(head[i] == s[i]);
            } else if i > colon {
                assert(rest[i - colon - 1] == s[i]);
            }
        }
    }
}

/// An IP address holds nothing but hexadecimal digits, colons and dots, and an IPv6 address more than
/// one colon: a name with any other character in it is never taken for one.
pub proof fn lemma_addresses_are_no_names(s: Seq<char>)
    requires
        is_ip(s),
    ensures
        forall|i: int|
            0 <= i < s.len() ==> "0123456789abcdefABCDEF:."@.contains(#[trigger] s[i]),
        is_ipv6(s) ==> text::occurrences(s, ':') > 1,
        s.len() > 0,
{
    reveal_strlit("0123456789abcdefABCDEF");
    reveal_strlit("0123456789abcdefABCDEF:.");
    let all = "0123456789abcdefABCDEF:."@;
    let hex = "0123456789abcdefABCDEF"@;
    if is_ipv6(s) {
        lemma_ipv6_has_colons(s);
    }
    if is_ipv4(s) {
        lemma_dotted_chars(s, 4);
    } else {
        let gap = first_double_colon(s);
        lemma_first_double_colon(s);
        if gap >= s.len() {
            lemma_groups_chars(s, true);
        } else {
            let l = s.take(gap);
            let r = s.skip(gap + 2);
            if l.len() > 0 {
                lemma_groups_chars(l, false);
            }
            if r.len() > 0 {
                lemma_groups_chars(r, true);
            }
            assert forall|i: int| 0 <= i < s.len() implies is_hex_digit(#[trigger] s[i]) || s[i]
                == ':' || s[i] == '.' by {
                if i < gap {
                    assert(l[i] == s[i]);
                } else if i >= gap + 2 {
                    assert(r[i - gap - 2] == s[i]);
                }
            }
        }
    }
    assert forall|i: int| 0 <= i < s.len() implies all.contains(#[trigger] s[i]) by {
        lemma_digits(s[i]);
        if is_hex_digit(s[i]) {
            let k = choose|k: int| 0 <= k < hex.len() && hex[k] == s[i];
            assert(all[k] == hex[k]);
        } else if s[i] == ':' {
            assert(all[22] == ':');
        } else {
            assert(all[23] == '.');
        }
    }
}

} // verus!
