use vstd::prelude::*;
use vstd::string::*;

verus! {

/// Why a port number was refused, as the standard library's parse of `u16` tells it.
#[derive(Debug, Clone, Copy, PartialEq, Eq, Structural)]
pub enum IntErrorKind {
    /// The text is empty.
    Empty,
    /// The text holds a character that is not a decimal digit where one is needed.
    InvalidDigit,
    /// The number is larger than `u16::MAX`.
    PosOverflow,
}

/// The text holds exactly one `:`.
pub open spec fn one_colon(s: Seq<char>) -> bool {
    exists|p: int|
        0 <= p < s.len() && s[p] == ':' && (forall|q: int|
            0 <= q < s.len() && q != p ==> #[trigger] s[q] != ':')
}

/// Splits an address written `IP:Port` at its colon. Gives `None` unless the text holds
/// exactly one `:`.
pub fn split_address(add_ip: &str) -> (r: Option<(String, String)>)
    ensures
        r is Some <==> one_colon(add_ip@),
        r matches Some((addr, port)) ==> {
            &&& add_ip@ == addr@ + seq![':'] + port@
            &&& !addr@.contains(':')
            &&& !port@.contains(':')
        },
{
    let n = add_ip.unicode_len();
    let mut count: usize = 0;
    let mut colon: usize = 0;
    let mut i: usize = 0;
    while i < n
        invariant
            n == add_ip@.len(),
            i <= n,
            count <= i,
            count == 0 ==> forall|q: int| 0 <= q < i ==> add_ip@[q] != ':',
            count >= 1 ==> colon < i && add_ip@[colon as int] == ':',
            count == 1 ==> forall|q: int| 0 <= q < i && q != colon ==> add_ip@[q] != ':',
            count >= 2 ==> exists|q: int| 0 <= q < i && q != colon && add_ip@[q] == ':',
        decreases n - i,
    {
        if add_ip.get_char(i) == ':' {
            if count == 0 {
                colon = i;
            }
            count = count + 1;
        }
        i = i + 1;
    }
    if count == 1 {
        let addr = add_ip.substring_char(0, colon).to_owned();
        let port = add_ip.substring_char(colon + 1, n).to_owned();
        proof {
            assert(add_ip@ =~= addr@ + seq![':'] + port@);
            assert(!addr@.contains(':')) by {
                if addr@.contains(':') {
                    let q = choose|q: int| 0 <= q < addr@.len() && addr@[q] == ':';
                    assert(add_ip@[q] == ':');
                }
            }
            assert(!port@.contains(':')) by {
                if port@.contains(':') {
                    let q = choose|q: int| 0 <= q < port@.len() && port@[q] == ':';
                    assert(add_ip@[colon + 1 + q] == ':');
                }
            }
        }
        Some((addr, port))
    } else {
        proof {
            if one_colon(add_ip@) {
                let p = choose|p: int|
                    0 <= p < add_ip@.len() && add_ip@[p] == ':' && (forall|q: int|
                        0 <= q < add_ip@.len() && q != p ==> #[trigger] add_ip@[q] != ':');
                if count == 0 {
                    assert(add_ip@[p] != ':');
                } else {
                    let q = choose|q: int| 0 <= q < i && q != colon && add_ip@[q] == ':';
                    assert(q == p || colon == p);
                    assert(add_ip@[q] != ':' || add_ip@[colon as int] != ':');
                }
            }
        }
        None
    }
}

/// Whether `c` is a decimal digit.
pub open spec fn is_digit(c: char) -> bool {
    '0' <= c && c <= '9'
}

/// The value of the decimal digit `c`.
pub open spec fn digit_value(c: char) -> nat {
    (c as nat - '0' as nat) as nat
}

/// Reading the digits `s` from left to right after the value `acc`: the first character that
/// is not a digit is an `InvalidDigit`, the first digit that takes the value past `u16::MAX`
/// is a `PosOverflow`.
pub open spec fn digits_value(acc: nat, s: Seq<char>) -> Result<nat, IntErrorKind>
    decreases s.len(),
{
    if s.len() == 0 {
        Ok(acc)
    } else if !is_digit(s[0]) {
        Err(IntErrorKind::InvalidDigit)
    } else if acc * 10 + digit_value(s[0]) > u16::MAX {
        Err(IntErrorKind::PosOverflow)
    } else {
        digits_value(acc * 10 + digit_value(s[0]), s.skip(1))
    }
}

/// What parsing `s` as a `u16` gives: an optional leading `+`, then at least one decimal digit.
pub open spec fn port_value(s: Seq<char>) -> Result<nat, IntErrorKind> {
    if s.len() == 0 {
        Err(IntErrorKind::Empty)
    } else if s.len() == 1 && (s[0] == '+' || s[0] == '-') {
        Err(IntErrorKind::InvalidDigit)
    } else if s[0] == '+' {
        digits_value(0, s.skip(1))
    } else {
        digits_value(0, s)
    }
}

proof fn lemma_digits_value_bounded(acc: nat, s: Seq<char>)
    requires
        acc <= u16::MAX,
    ensures
        digits_value(acc, s) matches Ok(v) ==> v <= u16::MAX,
    decreases s.len(),
{
    if s.len() > 0 && is_digit(s[0]) && acc * 10 + digit_value(s[0]) <= u16::MAX {
        lemma_digits_value_bounded(acc * 10 + digit_value(s[0]), s.skip(1));
    }
}

/// The decimal digit character of `d`.
pub open spec fn digit_char(d: nat) -> char {
    (48 + d) as char
}

/// The decimal text of `n`, with no leading zero, as `u16`'s `Display` writes it.
pub open spec fn decimal_text(n: nat) -> Seq<char>
    decreases n,
{
    if n < 10 {
        seq![digit_char(n)]
    } else {
        decimal_text(n / 10).push(digit_char(n % 10))
    }
}

proof fn lemma_digits_value_push(acc: nat, s: Seq<char>, c: char)
    ensures
        digits_value(acc, s.push(c)) == (match digits_value(acc, s) {
            Ok(m) => digits_value(m, seq![c]),
            Err(e) => Err(e),
        }),
    decreases s.len(),
{
    if s.len() == 0 {
        assert(s.push(c) =~= seq![c]);
    } else {
        assert(s.push(c)[0] == s[0]);
        assert(s.push(c).skip(1) =~= s.skip(1).push(c));
        if is_digit(s[0]) && acc * 10 + digit_value(s[0]) <= u16::MAX {
            lemma_digits_value_push(acc * 10 + digit_value(s[0]), s.skip(1), c);
        }
    }
}

proof fn lemma_decimal_text(n: nat)
    requires
        n <= u16::MAX,
    ensures
        decimal_text(n).len() >= 1,
        forall|i: int| 0 <= i < decimal_text(n).len() ==> is_digit(#[trigger] decimal_text(n)[i]),
        digits_value(0, decimal_text(n)) == Ok::<nat, IntErrorKind>(n),
    decreases n,
{
    let one = seq![digit_char(n % 10)];
    assert(one.skip(1) =~= Seq::<char>::empty());
    assert(digit_value(digit_char(n % 10)) == n % 10);
    assert(is_digit(digit_char(n % 10)));
    assert(digits_value((n / 10) * 10 + n % 10, one.skip(1)) == Ok::<nat, IntErrorKind>((n / 10) * 10 + n % 10));
    assert((n / 10) * 10 + n % 10 == n);
    assert(digits_value(n / 10, one) == Ok::<nat, IntErrorKind>(n));
    if n < 10 {
        assert(n % 10 == n);
        assert(n / 10 == 0);
        assert(decimal_text(n) == one);
    } else {
        lemma_decimal_text(n / 10);
        lemma_digits_value_push(0, decimal_text(n / 10), digit_char(n % 10));
        assert((n / 10) * 10 + n % 10 == n);
        let t = decimal_text(n);
        assert forall|i: int| 0 <= i < t.len() implies is_digit(#[trigger] t[i]) by {
            if i < t.len() - 1 {
                assert(t[i] == decimal_text(n / 10)[i]);
            }
        }
    }
}

/// An address written as an IP text with no `:`, a `:`, and the decimal text of a port splits
/// into exactly those two parts, and the port part parses back to the port.
pub proof fn law_address_round_trip(addr: Seq<char>, port: u16)
    requires
        !addr.contains(':'),
    ensures
        one_colon(addr + seq![':'] + decimal_text(port as nat)),
        forall|a2: Seq<char>, p2: Seq<char>|
            !a2.contains(':') && !p2.contains(':') && a2 + seq![':'] + p2 == addr + seq![':']
                + decimal_text(port as nat) ==> a2 == addr && p2 == decimal_text(port as nat),
        port_value(decimal_text(port as nat)) == Ok::<nat, IntErrorKind>(port as nat),
{
    let d = decimal_text(port as nat);
    lemma_decimal_text(port as nat);
    let text = addr + seq![':'] + d;
    let n = addr.len() as int;
    assert(!d.contains(':')) by {
        if d.contains(':') {
            let q = choose|q: int| 0 <= q < d.len() && d[q] == ':';
            assert(is_digit(d[q]));
        }
    }
    assert(text[n] == ':');
    assert forall|q: int| 0 <= q < text.len() && q != n implies #[trigger] text[q] != ':' by {
        if q < n {
            assert(text[q] == addr[q]);
            if addr[q] == ':' {
                assert(addr.contains(':'));
            }
        } else {
            assert(text[q] == d[q - n - 1]);
            if d[q - n - 1] == ':' {
                assert(d.contains(':'));
            }
        }
    }
    assert forall|a2: Seq<char>, p2: Seq<char>|
        !a2.contains(':') && !p2.contains(':') && a2 + seq![':'] + p2 == text implies a2 == addr
        && p2 == d by {
        let m = a2.len() as int;
        let t2 = a2 + seq![':'] + p2;
        assert(t2[m] == ':');
        if m < n {
            assert(text[m] == addr[m]);
            assert(addr.contains(':'));
        } else if m > n {
            assert(t2[n] == a2[n]);
            assert(a2.contains(':'));
        }
        assert(a2 =~= text.take(n));
        assert(addr =~= text.take(n));
        assert(p2 =~= text.skip(n + 1));
        assert(d =~= text.skip(n + 1));
    }
    assert(d[0] != '+' && d[0] != '-') by {
        assert(is_digit(d[0]));
    }
}

/// Parses the port of an address, as `str::parse::<u16>` does.
pub fn parse_port(s: &str) -> (r: Result<u16, IntErrorKind>)
    ensures
        match port_value(s@) {
            Ok(v) => r == Ok::<u16, IntErrorKind>(v as u16),
            Err(e) => r == Err::<u16, IntErrorKind>(e),
        },
{
    let n = s.unicode_len();
    if n == 0 {
        return Err(IntErrorKind::Empty);
    }
    let first = s.get_char(0);
    if n == 1 && (first == '+' || first == '-') {
        return Err(IntErrorKind::InvalidDigit);
    }
    let start: usize = if first == '+' {
        1
    } else {
        0
    };
    let ghost digits = s@.skip(start as int);
    assert(s@[0] == first);
    assert(s@.skip(0) =~= s@);
    assert(port_value(s@) == digits_value(0, digits));
    let mut acc: u32 = 0;
    let mut i: usize = start;
    while i < n
        invariant
            n == s@.len(),
            start <= i <= n,
            digits == s@.skip(start as int),
            port_value(s@) == digits_value(0, digits),
            acc <= u16::MAX,
            digits_value(0, digits) == digits_value(acc as nat, s@.skip(i as int)),
        decreases n - i,
    {
        let c = s.get_char(i);
        let ghost rest = s@.skip(i as int);
        assert(rest[0] == c);
        assert(rest.skip(1) =~= s@.skip(i as int + 1));
        if !('0' <= c && c <= '9') {
            return Err(IntErrorKind::InvalidDigit);
        }
        let d: u32 = (c as u32) - ('0' as u32);
        assert(d == digit_value(c));
        let next = acc * 10 + d;
        if next > 65535 {
            return Err(IntErrorKind::PosOverflow);
        }
        acc = next;
        i = i + 1;
    }
    assert(s@.skip(i as int).len() == 0);
    assert(digits_value(acc as nat, s@.skip(i as int)) == Ok::<nat, IntErrorKind>(acc as nat));
    proof {
        lemma_digits_value_bounded(0, digits);
    }
    Ok(acc as u16)
}

} // verus!
