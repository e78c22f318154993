//! IPv4 addresses as plain octets: numeric view, dotted-quad parsing and
//! rendering, and the allocation range for managed loopback addresses.

#![verifier::loop_isolation(false)]

use vstd::prelude::*;

verus! {

/// Lowest address the allocator may hand out: 127.8.0.1.
pub const MIN_ADDR_NUM: u32 = 0x7F08_0001;

/// Highest address the allocator may hand out: 127.8.255.255.
pub const MAX_ADDR_NUM: u32 = 0x7F08_FFFF;

/// An IPv4 address as four octets.
#[derive(Clone, Copy, PartialEq, Eq, Structural, Debug)]
pub struct Ipv4Addr {
    pub a: u8,
    pub b: u8,
    pub c: u8,
    pub d: u8,
}

impl Ipv4Addr {
    /// The address as a single number, most significant octet first.
    pub open spec fn spec_num(self) -> int {
        self.a * 0x100_0000 + self.b * 0x1_0000 + self.c * 0x100 + self.d
    }

    /// Whether the address lies in the managed range [127.8.0.1, 127.8.255.255].
    pub open spec fn spec_in_alloc_range(self) -> bool {
        self.a == 127 && self.b == 8 && !(self.c == 0 && self.d == 0)
    }

    pub fn new(a: u8, b: u8, c: u8, d: u8) -> (r: Ipv4Addr)
        ensures
            r == (Ipv4Addr { a, b, c, d }),
    {
        Ipv4Addr { a, b, c, d }
    }

    pub fn num(&self) -> (n: u32)
        ensures
            n as int == self.spec_num(),
    {
        (self.a as u32) * 0x100_0000 + (self.b as u32) * 0x1_0000 + (self.c as u32) * 0x100
            + (self.d as u32)
    }

    pub fn in_alloc_range(&self) -> (r: bool)
        ensures
            r == self.spec_in_alloc_range(),
    {
        self.a == 127 && self.b == 8 && !(self.c == 0 && self.d == 0)
    }
}

/// An address whose numeric view lies in the managed range has octets 127
/// and 8 in front and is not the zero of the range.
pub proof fn lemma_num_in_range_octets(ip: Ipv4Addr)
    requires
        MIN_ADDR_NUM <= ip.spec_num() <= MAX_ADDR_NUM,
    ensures
        ip.spec_in_alloc_range(),
{
    assert(ip.spec_in_alloc_range()) by (nonlinear_arith)
        requires
            MIN_ADDR_NUM <= ip.spec_num() <= MAX_ADDR_NUM,
            ip.a < 256 && ip.b < 256 && ip.c < 256 && ip.d < 256,
            ip.spec_num() == ip.a * 0x100_0000 + ip.b * 0x1_0000 + ip.c * 0x100 + ip.d,
    ;
}

// ---------------------------------------------------------------------------
// Decimal digits
// ---------------------------------------------------------------------------

pub open spec fn is_digit_char(c: char) -> bool {
    c == '0' || c == '1' || c == '2' || c == '3' || c == '4' || c == '5' || c == '6' || c == '7'
        || c == '8' || c == '9'
}

pub open spec fn spec_digit_val(c: char) -> int {
    if c == '0' {
        0
    } else if c == '1' {
        1
    } else if c == '2' {
        2
    } else if c == '3' {
        3
    } else if c == '4' {
        4
    } else if c == '5' {
        5
    } else if c == '6' {
        6
    } else if c == '7' {
        7
    } else if c == '8' {
        8
    } else {
        9
    }
}

pub open spec fn spec_digit_char(v: int) -> char {
    if v == 0 {
        '0'
    } else if v == 1 {
        '1'
    } else if v == 2 {
        '2'
    } else if v == 3 {
        '3'
    } else if v == 4 {
        '4'
    } else if v == 5 {
        '5'
    } else if v == 6 {
        '6'
    } else if v == 7 {
        '7'
    } else if v == 8 {
        '8'
    } else {
        '9'
    }
}

fn is_digit(c: char) -> (r: bool)
    ensures
        r == is_digit_char(c),
{
    c == '0' || c == '1' || c == '2' || c == '3' || c == '4' || c == '5' || c == '6' || c == '7'
        || c == '8' || c == '9'
}

fn digit_val(c: char) -> (v: u8)
    requires
        is_digit_char(c),
    ensures
        v as int == spec_digit_val(c),
        v < 10,
{
    if c == '0' {
        0
    } else if c == '1' {
        1
    } else if c == '2' {
        2
    } else if c == '3' {
        3
    } else if c == '4' {
        4
    } else if c == '5' {
        5
    } else if c == '6' {
        6
    } else if c == '7' {
        7
    } else if c == '8' {
        8
    } else {
        9
    }
}

fn digit_str(v: u8) -> (s: &'static str)
    requires
        v < 10,
    ensures
        s@ =~= seq![spec_digit_char(v as int)],
{
    proof {
        reveal_strlit("0");
        reveal_strlit("1");
        reveal_strlit("2");
        reveal_strlit("3");
        reveal_strlit("4");
        reveal_strlit("5");
        reveal_strlit("6");
        reveal_strlit("7");
        reveal_strlit("8");
        reveal_strlit("9");
    }
    if v == 0 {
        "0"
    } else if v == 1 {
        "1"
    } else if v == 2 {
        "2"
    } else if v == 3 {
        "3"
    } else if v == 4 {
        "4"
    } else if v == 5 {
        "5"
    } else if v == 6 {
        "6"
    } else if v == 7 {
        "7"
    } else if v == 8 {
        "8"
    } else {
        "9"
    }
}

// ---------------------------------------------------------------------------
// Decimal octets
// ---------------------------------------------------------------------------

/// Value of a digit string, most significant digit first.
pub open spec fn spec_seq_val(s: Seq<char>) -> int
    decreases s.len(),
{
    if s.len() == 0 {
        0
    } else {
        spec_seq_val(s.drop_last()) * 10 + spec_digit_val(s.last())
    }
}

pub open spec fn all_digits(s: Seq<char>) -> bool {
    forall|i: int| 0 <= i < s.len() ==> is_digit_char(s[i])
}

/// A canonical decimal octet: one to three digits, no leading zero, value at
/// most 255.
pub open spec fn is_dec_octet(s: Seq<char>) -> bool {
    1 <= s.len() <= 3 && all_digits(s) && (s.len() > 1 ==> s[0] != '0') && spec_seq_val(s) <= 255
}

/// Canonical decimal rendering of an octet value.
pub open spec fn spec_render_octet(v: int) -> Seq<char> {
    if v < 10 {
        seq![spec_digit_char(v)]
    } else if v < 100 {
        seq![spec_digit_char(v / 10), spec_digit_char(v % 10)]
    } else {
        seq![spec_digit_char(v / 100), spec_digit_char((v / 10) % 10), spec_digit_char(v % 10)]
    }
}

proof fn lemma_seq_val_unfold1(x: char)
    ensures
        spec_seq_val(seq![x]) == spec_digit_val(x),
{
    assert(seq![x].drop_last() =~= Seq::<char>::empty());
    assert(spec_seq_val(Seq::<char>::empty()) == 0);
    assert(spec_seq_val(seq![x]) == spec_seq_val(seq![x].drop_last()) * 10 + spec_digit_val(
        seq![x].last(),
    ));
}

proof fn lemma_seq_val_unfold2(x: char, y: char)
    ensures
        spec_seq_val(seq![x, y]) == spec_digit_val(x) * 10 + spec_digit_val(y),
{
    lemma_seq_val_unfold1(x);
    assert(seq![x, y].drop_last() =~= seq![x]);
    assert(spec_seq_val(seq![x, y]) == spec_seq_val(seq![x, y].drop_last()) * 10 + spec_digit_val(
        seq![x, y].last(),
    ));
}

proof fn lemma_seq_val_unfold3(x: char, y: char, z: char)
    ensures
        spec_seq_val(seq![x, y, z]) == spec_digit_val(x) * 100 + spec_digit_val(y) * 10
            + spec_digit_val(z),
{
    lemma_seq_val_unfold2(x, y);
    assert(seq![x, y, z].drop_last() =~= seq![x, y]);
    assert(spec_seq_val(seq![x, y, z]) == spec_seq_val(seq![x, y, z].drop_last()) * 10
        + spec_digit_val(seq![x, y, z].last()));
}

/// Rendering an octet value yields a canonical decimal octet with that value.
pub proof fn lemma_render_octet_valid(v: int)
    requires
        0 <= v <= 255,
    ensures
        is_dec_octet(spec_render_octet(v)),
        spec_seq_val(spec_render_octet(v)) == v,
{
    if v < 10 {
        lemma_seq_val_unfold1(spec_digit_char(v));
    } else if v < 100 {
        lemma_seq_val_unfold2(spec_digit_char(v / 10), spec_digit_char(v % 10));
        assert(v == (v / 10) * 10 + v % 10) by (nonlinear_arith);
        assert(1 <= v / 10 <= 9) by (nonlinear_arith)
            requires
                10 <= v < 100,
        ;
    } else {
        lemma_seq_val_unfold3(
            spec_digit_char(v / 100),
            spec_digit_char((v / 10) % 10),
            spec_digit_char(v % 10),
        );
        assert(v / 100 == (v / 10) / 10) by (nonlinear_arith);
        assert(v / 10 == ((v / 10) / 10) * 10 + (v / 10) % 10) by (nonlinear_arith);
        assert(v == (v / 10) * 10 + v % 10) by (nonlinear_arith);
        assert(1 <= v / 100 <= 2) by (nonlinear_arith)
            requires
                100 <= v <= 255,
        ;
    }
}

proof fn lemma_seq_val_nonneg(s: Seq<char>)
    ensures
        spec_seq_val(s) >= 0,
    decreases s.len(),
{
    if s.len() > 0 {
        lemma_seq_val_nonneg(s.drop_last());
    }
}

proof fn lemma_seq_val_small(s: Seq<char>)
    requires
        s.len() <= 3,
    ensures
        spec_seq_val(s) <= if s.len() == 0 {
            0int
        } else if s.len() == 1 {
            9int
        } else if s.len() == 2 {
            99int
        } else {
            999int
        },
    decreases s.len(),
{
    if s.len() > 0 {
        lemma_seq_val_small(s.drop_last());
        lemma_seq_val_nonneg(s.drop_last());
    }
}

fn octet_string(v: u8) -> (s: String)
    ensures
        s@ =~= spec_render_octet(v as int),
{
    if v < 10 {
        String::from_str(digit_str(v))
    } else if v < 100 {
        let mut s = String::from_str(digit_str(v / 10));
        s.append(digit_str(v % 10));
        s
    } else {
        let mut s = String::from_str(digit_str(v / 100));
        s.append(digit_str((v / 10) % 10));
        s.append(digit_str(v % 10));
        s
    }
}

} // verus!

verus! {

// ---------------------------------------------------------------------------
// Finding a character
// ---------------------------------------------------------------------------

/// Index of the first occurrence of `c` in `s`, or `s.len()` if absent.
pub open spec fn spec_find(s: Seq<char>, c: char) -> int
    decreases s.len(),
{
    if s.len() == 0 {
        0
    } else if s[0] == c {
        0
    } else {
        1 + spec_find(s.skip(1), c)
    }
}

pub proof fn lemma_spec_find(s: Seq<char>, c: char)
    ensures
        0 <= spec_find(s, c) <= s.len(),
        spec_find(s, c) < s.len() ==> s[spec_find(s, c)] == c,
        forall|i: int| 0 <= i < spec_find(s, c) ==> s[i] != c,
    decreases s.len(),
{
    if s.len() > 0 && s[0] != c {
        lemma_spec_find(s.skip(1), c);
        assert forall|i: int| 0 <= i < spec_find(s, c) implies s[i] != c by {
            if i > 0 {
                assert(s.skip(1)[i - 1] != c);
            }
        }
    }
}

/// A position with no occurrence before it and an occurrence at it (or the
/// end) is the first occurrence.
pub proof fn lemma_find_at(s: Seq<char>, c: char, k: int)
    requires
        0 <= k <= s.len(),
        forall|i: int| 0 <= i < k ==> s[i] != c,
        k < s.len() ==> s[k] == c,
    ensures
        spec_find(s, c) == k,
    decreases s.len(),
{
    if s.len() == 0 {
    } else if k == 0 {
    } else {
        assert(s[0] != c);
        assert(forall|i: int| 0 <= i < s.skip(1).len() ==> s.skip(1)[i] == s[i + 1]);
        lemma_find_at(s.skip(1), c, k - 1);
    }
}

/// First occurrence in `p + [c] + rest` when `p` is free of `c`.
pub proof fn lemma_find_concat(p: Seq<char>, rest: Seq<char>, c: char)
    requires
        forall|i: int| 0 <= i < p.len() ==> p[i] != c,
    ensures
        spec_find(p + seq![c] + rest, c) == p.len(),
{
    let s = p + seq![c] + rest;
    assert(forall|i: int| 0 <= i < p.len() ==> s[i] == p[i]);
    assert(s[p.len() as int] == c);
    lemma_find_at(s, c, p.len() as int);
}

/// Exact index of the first occurrence of `c` in `s` at or after `from`,
/// or the length of `s` if there is none.
pub fn find_char(s: &str, from: usize, c: char) -> (r: usize)
    requires
        from <= s@.len(),
    ensures
        from <= r <= s@.len(),
        r < s@.len() ==> s@[r as int] == c,
        forall|k: int| from <= k < r ==> s@[k] != c,
        spec_find(s@.skip(from as int), c) == r - from,
{
    let n = s.unicode_len();
    let mut i = from;
    while i < n
        invariant
            from <= i <= n,
            n == s@.len(),
            forall|k: int| from <= k < i ==> s@[k] != c,
        decreases n - i,
    {
        if s.get_char(i) == c {
            proof {
                assert(forall|k: int|
                    0 <= k < i - from ==> s@.skip(from as int)[k] == s@[k + from]);
                lemma_find_at(s@.skip(from as int), c, i - from);
            }
            return i;
        }
        i += 1;
    }
    proof {
        assert(forall|k: int| 0 <= k < n - from ==> s@.skip(from as int)[k] == s@[k + from]);
        lemma_find_at(s@.skip(from as int), c, n - from);
    }
    n
}

// ---------------------------------------------------------------------------
// Dotted-quad parsing and rendering
// ---------------------------------------------------------------------------

/// Parse a dotted quad of canonical decimal octets; `None` for any other
/// string.
pub open spec fn spec_parse_ipv4(t: Seq<char>) -> Option<Ipv4Addr> {
    let i = spec_find(t, '.');
    let r1 = t.skip(i + 1);
    let j = spec_find(r1, '.');
    let r2 = r1.skip(j + 1);
    let k = spec_find(r2, '.');
    let s0 = t.take(i);
    let s1 = r1.take(j);
    let s2 = r2.take(k);
    let s3 = r2.skip(k + 1);
    if i == t.len() || j == r1.len() || k == r2.len() || spec_find(s3, '.') != s3.len() {
        None
    } else if is_dec_octet(s0) && is_dec_octet(s1) && is_dec_octet(s2) && is_dec_octet(s3) {
        Some(
            Ipv4Addr {
                a: spec_seq_val(s0) as u8,
                b: spec_seq_val(s1) as u8,
                c: spec_seq_val(s2) as u8,
                d: spec_seq_val(s3) as u8,
            },
        )
    } else {
        None
    }
}

/// Canonical dotted-quad rendering.
pub open spec fn spec_render_ipv4(ip: Ipv4Addr) -> Seq<char> {
    spec_render_octet(ip.a as int) + seq!['.'] + spec_render_octet(ip.b as int) + seq!['.']
        + spec_render_octet(ip.c as int) + seq!['.'] + spec_render_octet(ip.d as int)
}

/// Parse the character range `[from, to)` of `s` as a canonical decimal
/// octet.
fn parse_octet_range(s: &str, from: usize, to: usize) -> (r: Option<u8>)
    requires
        from <= to <= s@.len(),
    ensures
        match r {
            Some(v) => is_dec_octet(s@.subrange(from as int, to as int)) && v as int
                == spec_seq_val(s@.subrange(from as int, to as int)),
            None => !is_dec_octet(s@.subrange(from as int, to as int)),
        },
{
    let ghost seg = s@.subrange(from as int, to as int);
    let len = to - from;
    if len < 1 || len > 3 {
        return None;
    }
    if len > 1 && s.get_char(from) == '0' {
        return None;
    }
    let mut val: u32 = 0;
    let mut i = from;
    while i < to
        invariant
            from <= i <= to <= s@.len(),
            seg == s@.subrange(from as int, to as int),
            to - from <= 3,
            all_digits(seg.take(i - from)),
            val as int == spec_seq_val(seg.take(i - from)),
            val <= 999,
        decreases to - i,
    {
        let c = s.get_char(i);
        assert(c == seg[i - from]);
        if !is_digit(c) {
            return None;
        }
        let d = digit_val(c);
        proof {
            assert(seg.take(i + 1 - from).drop_last() =~= seg.take(i - from));
            assert(seg.take(i + 1 - from).last() == c);
            lemma_seq_val_small(seg.take(i + 1 - from));
        }
        val = val * 10 + d as u32;
        i += 1;
    }
    assert(seg.take(to - from) =~= seg);
    if val > 255 {
        return None;
    }
    Some(val as u8)
}

/// Parse a whole string as a dotted-quad IPv4 address.
#[verifier::rlimit(50)]
pub fn parse_ipv4(t: &str) -> (r: Option<Ipv4Addr>)
    ensures
        r == spec_parse_ipv4(t@),
{
    let n = t.unicode_len();
    let ghost tv = t@;
    proof {
        assert(tv.skip(0) =~= tv);
    }
    let i = find_char(t, 0, '.');
    if i == n {
        return None;
    }
    let ghost r1 = tv.skip(i + 1);
    let j = find_char(t, i + 1, '.');
    proof {
        assert(spec_find(r1, '.') == j - (i + 1));
    }
    if j == n {
        assert(spec_find(r1, '.') == r1.len());
        return None;
    }
    let ghost r2 = r1.skip(j - i);
    proof {
        assert(r2 =~= tv.skip(j + 1));
    }
    let k = find_char(t, j + 1, '.');
    proof {
        assert(spec_find(r2, '.') == k - (j + 1));
    }
    if k == n {
        assert(spec_find(r2, '.') == r2.len());
        return None;
    }
    let ghost s3 = r2.skip(k - j);
    proof {
        assert(s3 =~= tv.skip(k + 1));
    }
    let m = find_char(t, k + 1, '.');
    proof {
        assert(spec_find(s3, '.') == m - (k + 1));
    }
    if m != n {
        assert(spec_find(s3, '.') != s3.len());
        return None;
    }
    assert(spec_find(s3, '.') == s3.len());
    proof {
        assert(tv.take(i as int) =~= tv.subrange(0, i as int));
        assert(r1.take(j - (i + 1)) =~= tv.subrange(i + 1, j as int));
        assert(r2.take(k - (j + 1)) =~= tv.subrange(j + 1, k as int));
        assert(s3 =~= tv.subrange(k + 1, n as int));
    }
    let oa = parse_octet_range(t, 0, i);
    let ob = parse_octet_range(t, i + 1, j);
    let oc = parse_octet_range(t, j + 1, k);
    let od = parse_octet_range(t, k + 1, n);
    match (oa, ob, oc, od) {
        (Some(a), Some(b), Some(c), Some(d)) => {
            proof {
                lemma_seq_val_nonneg(tv.take(i as int));
                lemma_seq_val_nonneg(r1.take(j - (i + 1)));
                lemma_seq_val_nonneg(r2.take(k - (j + 1)));
                lemma_seq_val_nonneg(s3);
            }
            Some(Ipv4Addr { a, b, c, d })
        },
        _ => None,
    }
}

/// Render an address as its canonical dotted quad.
pub fn render_ipv4(ip: &Ipv4Addr) -> (s: String)
    ensures
        s@ == spec_render_ipv4(*ip),
{
    let mut s = octet_string(ip.a);
    s.append(".");
    let sb = octet_string(ip.b);
    s.append(sb.as_str());
    s.append(".");
    let sc = octet_string(ip.c);
    s.append(sc.as_str());
    s.append(".");
    let sd = octet_string(ip.d);
    s.append(sd.as_str());
    proof {
        reveal_strlit(".");
        assert(s@ =~= spec_render_ipv4(*ip));
    }
    s
}

/// All characters of a canonical decimal octet are digits, hence not dots.
proof fn lemma_octet_no_dot(s: Seq<char>)
    requires
        all_digits(s),
    ensures
        forall|i: int| 0 <= i < s.len() ==> s[i] != '.',
{
    assert forall|i: int| 0 <= i < s.len() implies s[i] != '.' by {
        assert(is_digit_char(s[i]));
    }
}

/// Parsing the canonical rendering of an address gives the address back.
#[verifier::rlimit(100)]
pub proof fn lemma_parse_render_ipv4(ip: Ipv4Addr)
    ensures
        spec_parse_ipv4(spec_render_ipv4(ip)) == Some(ip),
{
    let oa = spec_render_octet(ip.a as int);
    let ob = spec_render_octet(ip.b as int);
    let oc = spec_render_octet(ip.c as int);
    let od = spec_render_octet(ip.d as int);
    lemma_render_octet_valid(ip.a as int);
    lemma_render_octet_valid(ip.b as int);
    lemma_render_octet_valid(ip.c as int);
    lemma_render_octet_valid(ip.d as int);
    lemma_octet_no_dot(oa);
    lemma_octet_no_dot(ob);
    lemma_octet_no_dot(oc);
    lemma_octet_no_dot(od);
    let t = spec_render_ipv4(ip);
    assert(t =~= oa + seq!['.'] + (ob + seq!['.'] + oc + seq!['.'] + od));
    lemma_find_concat(oa, ob + seq!['.'] + oc + seq!['.'] + od, '.');
    let i = spec_find(t, '.');
    assert(i == oa.len());
    let r1 = t.skip(i + 1);
    assert(r1 =~= ob + seq!['.'] + (oc + seq!['.'] + od));
    lemma_find_concat(ob, oc + seq!['.'] + od, '.');
    let j = spec_find(r1, '.');
    assert(j == ob.len());
    let r2 = r1.skip(j + 1);
    assert(r2 =~= oc + seq!['.'] + od);
    lemma_find_concat(oc, od, '.');
    let k = spec_find(r2, '.');
    assert(k == oc.len());
    let s3 = r2.skip(k + 1);
    assert(s3 =~= od);
    lemma_find_at(od, '.', od.len() as int);
    assert(t.take(i) =~= oa);
    assert(r1.take(j) =~= ob);
    assert(r2.take(k) =~= oc);
    assert(spec_parse_ipv4(t) == Some(ip));
}

} // verus!

verus! {

// ---------------------------------------------------------------------------
// Hexadecimal digits
// ---------------------------------------------------------------------------

pub open spec fn is_hex_digit_char(c: char) -> bool {
    is_digit_char(c) || c == 'a' || c == 'b' || c == 'c' || c == 'd' || c == 'e' || c == 'f'
        || c == 'A' || c == 'B' || c == 'C' || c == 'D' || c == 'E' || c == 'F'
}

pub open spec fn spec_hex_digit_val(c: char) -> int {
    if is_digit_char(c) {
        spec_digit_val(c)
    } else if c == 'a' || c == 'A' {
        10
    } else if c == 'b' || c == 'B' {
        11
    } else if c == 'c' || c == 'C' {
        12
    } else if c == 'd' || c == 'D' {
        13
    } else if c == 'e' || c == 'E' {
        14
    } else {
        15
    }
}

pub open spec fn spec_hex_char(v: int) -> char {
    if v < 10 {
        spec_digit_char(v)
    } else if v == 10 {
        'a'
    } else if v == 11 {
        'b'
    } else if v == 12 {
        'c'
    } else if v == 13 {
        'd'
    } else if v == 14 {
        'e'
    } else {
        'f'
    }
}

fn is_hex_digit(c: char) -> (r: bool)
    ensures
        r == is_hex_digit_char(c),
{
    is_digit(c) || c == 'a' || c == 'b' || c == 'c' || c == 'd' || c == 'e' || c == 'f' || c == 'A'
        || c == 'B' || c == 'C' || c == 'D' || c == 'E' || c == 'F'
}

fn hex_digit_val(c: char) -> (v: u16)
    requires
        is_hex_digit_char(c),
    ensures
        v as int == spec_hex_digit_val(c),
        v < 16,
{
    if is_digit(c) {
        digit_val(c) as u16
    } else if c == 'a' || c == 'A' {
        10
    } else if c == 'b' || c == 'B' {
        11
    } else if c == 'c' || c == 'C' {
        12
    } else if c == 'd' || c == 'D' {
        13
    } else if c == 'e' || c == 'E' {
        14
    } else {
        15
    }
}

fn hex_str(v: u16) -> (s: &'static str)
    requires
        v < 16,
    ensures
        s@ =~= seq![spec_hex_char(v as int)],
{
    proof {
        reveal_strlit("a");
        reveal_strlit("b");
        reveal_strlit("c");
        reveal_strlit("d");
        reveal_strlit("e");
        reveal_strlit("f");
    }
    if v < 10 {
        digit_str(v as u8)
    } else if v == 10 {
        "a"
    } else if v == 11 {
        "b"
    } else if v == 12 {
        "c"
    } else if v == 13 {
        "d"
    } else if v == 14 {
        "e"
    } else {
        "f"
    }
}

// ---------------------------------------------------------------------------
// Hexadecimal groups of an IPv6 address
// ---------------------------------------------------------------------------

/// Value of a hex-digit string, most significant digit first.
pub open spec fn spec_hex_group_val(s: Seq<char>) -> int
    decreases s.len(),
{
    if s.len() == 0 {
        0
    } else {
        spec_hex_group_val(s.drop_last()) * 16 + spec_hex_digit_val(s.last())
    }
}

pub open spec fn all_hex_digits(s: Seq<char>) -> bool {
    forall|i: int| 0 <= i < s.len() ==> is_hex_digit_char(s[i])
}

/// A textual group of an IPv6 address: one to four hex digits.
pub open spec fn is_hex_group(s: Seq<char>) -> bool {
    1 <= s.len() <= 4 && all_hex_digits(s)
}

proof fn lemma_hex_group_val_small(s: Seq<char>)
    requires
        s.len() <= 4,
    ensures
        0 <= spec_hex_group_val(s) <= if s.len() == 0 {
            0int
        } else if s.len() == 1 {
            0xfint
        } else if s.len() == 2 {
            0xffint
        } else if s.len() == 3 {
            0xfffint
        } else {
            0xffffint
        },
    decreases s.len(),
{
    if s.len() > 0 {
        lemma_hex_group_val_small(s.drop_last());
    }
}

/// Parse the character range `[from, to)` of `s` as a hex group.
fn parse_hex_range(s: &str, from: usize, to: usize) -> (r: Option<u16>)
    requires
        from <= to <= s@.len(),
    ensures
        match r {
            Some(v) => is_hex_group(s@.subrange(from as int, to as int)) && v as int
                == spec_hex_group_val(s@.subrange(from as int, to as int)),
            None => !is_hex_group(s@.subrange(from as int, to as int)),
        },
{
    let ghost seg = s@.subrange(from as int, to as int);
    let len = to - from;
    if len < 1 || len > 4 {
        return None;
    }
    let mut val: u16 = 0;
    let mut i = from;
    while i < to
        invariant
            from <= i <= to <= s@.len(),
            seg == s@.subrange(from as int, to as int),
            to - from <= 4,
            all_hex_digits(seg.take(i - from)),
            val as int == spec_hex_group_val(seg.take(i - from)),
            val <= 0xffff,
        decreases to - i,
    {
        let c = s.get_char(i);
        assert(c == seg[i - from]);
        if !is_hex_digit(c) {
            return None;
        }
        let d = hex_digit_val(c);
        proof {
            lemma_hex_group_val_small(seg.take(i - from));
            assert(seg.take(i + 1 - from).drop_last() =~= seg.take(i - from));
            assert(seg.take(i + 1 - from).last() == c);
            lemma_hex_group_val_small(seg.take(i + 1 - from));
        }
        val = val * 16 + d;
        i += 1;
    }
    assert(seg.take(to - from) =~= seg);
    Some(val)
}

} // verus!

verus! {

// ---------------------------------------------------------------------------
// IPv6 addresses
// ---------------------------------------------------------------------------

/// An IPv6 address as eight 16-bit groups.
#[derive(Clone, Copy, PartialEq, Eq, Structural, Debug)]
pub struct Ipv6Addr {
    pub s0: u16,
    pub s1: u16,
    pub s2: u16,
    pub s3: u16,
    pub s4: u16,
    pub s5: u16,
    pub s6: u16,
    pub s7: u16,
}

impl Ipv6Addr {
    /// The group at a position, most significant first.
    pub open spec fn spec_seg(self, i: int) -> int {
        if i == 0 {
            self.s0 as int
        } else if i == 1 {
            self.s1 as int
        } else if i == 2 {
            self.s2 as int
        } else if i == 3 {
            self.s3 as int
        } else if i == 4 {
            self.s4 as int
        } else if i == 5 {
            self.s5 as int
        } else if i == 6 {
            self.s6 as int
        } else {
            self.s7 as int
        }
    }

    pub fn seg(&self, i: usize) -> (v: u16)
        requires
            i < 8,
        ensures
            v as int == self.spec_seg(i as int),
    {
        if i == 0 {
            self.s0
        } else if i == 1 {
            self.s1
        } else if i == 2 {
            self.s2
        } else if i == 3 {
            self.s3
        } else if i == 4 {
            self.s4
        } else if i == 5 {
            self.s5
        } else if i == 6 {
            self.s6
        } else {
            self.s7
        }
    }
}

/// An address of either family, as a hosts-file entry carries it.
#[derive(Clone, Copy, PartialEq, Eq, Structural, Debug)]
pub enum HostAddr {
    V4(Ipv4Addr),
    V6(Ipv6Addr),
}

/// The address built from a sequence of exactly eight groups.
pub open spec fn ipv6_from_seq(gs: Seq<u16>) -> Ipv6Addr {
    Ipv6Addr {
        s0: gs[0],
        s1: gs[1],
        s2: gs[2],
        s3: gs[3],
        s4: gs[4],
        s5: gs[5],
        s6: gs[6],
        s7: gs[7],
    }
}

fn ipv6_from_segs(v: &Vec<u16>) -> (r: Ipv6Addr)
    requires
        v@.len() == 8,
    ensures
        r == ipv6_from_seq(v@),
{
    Ipv6Addr {
        s0: v[0],
        s1: v[1],
        s2: v[2],
        s3: v[3],
        s4: v[4],
        s5: v[5],
        s6: v[6],
        s7: v[7],
    }
}

// ---------------------------------------------------------------------------
// Finding the "::" marker
// ---------------------------------------------------------------------------

/// Index of the first "::" in `s`, or `s.len()` if absent.
pub open spec fn spec_find_dcolon(s: Seq<char>) -> int
    decreases s.len(),
{
    if s.len() < 2 {
        s.len() as int
    } else if s[0] == ':' && s[1] == ':' {
        0
    } else {
        1 + spec_find_dcolon(s.skip(1))
    }
}

proof fn lemma_find_dcolon_at(s: Seq<char>, k: int)
    requires
        0 <= k <= s.len(),
        forall|i: int| 0 <= i < k ==> !(#[trigger] s[i] == ':' && i + 1 < s.len() && s[i + 1] == ':'),
        k < s.len() ==> k + 1 < s.len() && s[k] == ':' && s[k + 1] == ':',
    ensures
        spec_find_dcolon(s) == k,
    decreases s.len(),
{
    if s.len() < 2 {
        assert(k == s.len()) by {
            if k < s.len() {
                assert(k + 1 < s.len());
            }
        }
    } else if k == 0 {
    } else {
        assert(!(s[0] == ':' && s[1] == ':'));
        assert(forall|i: int| 0 <= i < s.skip(1).len() ==> s.skip(1)[i] == s[i + 1]);
        lemma_find_dcolon_at(s.skip(1), k - 1);
    }
}

/// Exact index of the first "::" in `s`, or the length of `s` if absent.
fn find_dcolon(s: &str) -> (r: usize)
    ensures
        r as int == spec_find_dcolon(s@),
        r <= s@.len(),
        r < s@.len() ==> r + 2 <= s@.len() && s@[r as int] == ':' && s@[r + 1] == ':',
{
    let n = s.unicode_len();
    if n < 2 {
        proof {
            lemma_find_dcolon_at(s@, n as int);
        }
        return n;
    }
    let mut i: usize = 0;
    while i < n - 1
        invariant
            2 <= n == s@.len(),
            0 <= i <= n,
            forall|k: int| 0 <= k < i ==> !(#[trigger] s@[k] == ':' && k + 1 < n && s@[k + 1] == ':'),
        decreases n - i,
    {
        if s.get_char(i) == ':' && s.get_char(i + 1) == ':' {
            proof {
                lemma_find_dcolon_at(s@, i as int);
            }
            return i;
        }
        i += 1;
    }
    proof {
        lemma_find_dcolon_at(s@, n as int);
    }
    n
}

// ---------------------------------------------------------------------------
// Group lists
// ---------------------------------------------------------------------------

/// A non-empty colon-separated list of hex groups; when `v4last` holds, the
/// final piece may instead be a dotted quad, contributing two groups.
pub open spec fn spec_groups(t: Seq<char>, v4last: bool) -> Option<Seq<u16>>
    decreases t.len(),
{
    if t.len() == 0 {
        None
    } else {
        let j = spec_find(t, ':');
        if 0 <= j && j < t.len() {
            let piece = t.take(j);
            if is_hex_group(piece) {
                match spec_groups(t.skip(j + 1), v4last) {
                    Some(gs) => Some(seq![(spec_hex_group_val(piece) as u16)] + gs),
                    None => None,
                }
            } else {
                None
            }
        } else {
            if is_hex_group(t) {
                Some(seq![(spec_hex_group_val(t) as u16)])
            } else {
                match (if v4last {
                    spec_parse_ipv4(t)
                } else {
                    None
                }) {
                    Some(ip) => Some(
                        seq![
                            (((ip.a as int) * 256 + (ip.b as int)) as u16),
                            (((ip.c as int) * 256 + (ip.d as int)) as u16),
                        ],
                    ),
                    None => None,
                }
            }
        }
    }
}

/// Parse the character range `[from, to)` of `s` as a group list.
fn parse_groups(s: &str, from: usize, to: usize, v4last: bool) -> (r: Option<Vec<u16>>)
    requires
        from <= to <= s@.len(),
    ensures
        match r {
            Some(v) => spec_groups(s@.subrange(from as int, to as int), v4last) == Some(v@),
            None => spec_groups(s@.subrange(from as int, to as int), v4last) is None,
        },
{
    let ghost sub = s@.subrange(from as int, to as int);
    if from == to {
        return None;
    }
    let mut out: Vec<u16> = Vec::new();
    let mut pos = from;
    while pos < to
        invariant
            from <= pos <= to <= s@.len(),
            sub == s@.subrange(from as int, to as int),
            ({
                let rem = s@.subrange(pos as int, to as int);
                spec_groups(sub, v4last) == (match spec_groups(rem, v4last) {
                    Some(gs) => Some(out@ + gs),
                    None => None::<Seq<u16>>,
                })
            }),
        decreases to - pos,
    {
        let ghost rem = s@.subrange(pos as int, to as int);
        let j = find_char(s, pos, ':');
        proof {
            assert(forall|k: int| 0 <= k < rem.len() ==> rem[k] == s@[k + pos]);
            if j < to {
                lemma_find_at(rem, ':', j - pos);
            } else {
                lemma_find_at(rem, ':', rem.len() as int);
            }
        }
        if j >= to {
            // the last piece fills [pos, to)
            proof {
                assert(rem.take(rem.len() as int) =~= rem);
                assert(rem =~= s@.subrange(pos as int, to as int));
            }
            match parse_hex_range(s, pos, to) {
                Some(v) => {
                    out.push(v);
                    proof {
                        assert(out@ =~= out@.drop_last().push(v));
                        assert(out@.drop_last() + seq![(spec_hex_group_val(rem) as u16)] =~= out@);
                    }
                    return Some(out);
                },
                None => {
                    if v4last {
                        let piece = s.substring_char(pos, to);
                        match parse_ipv4(piece) {
                            Some(ip) => {
                                let hi = (ip.a as u16) * 256 + (ip.b as u16);
                                let lo = (ip.c as u16) * 256 + (ip.d as u16);
                                let ghost out0 = out@;
                                out.push(hi);
                                out.push(lo);
                                proof {
                                    assert(out@ =~= out0 + seq![hi, lo]);
                                }
                                return Some(out);
                            },
                            None => {
                                return None;
                            },
                        }
                    } else {
                        return None;
                    }
                },
            }
        } else {
            // a separator at j closes the piece [pos, j)
            proof {
                assert(rem.take(j - pos) =~= s@.subrange(pos as int, j as int));
            }
            match parse_hex_range(s, pos, j) {
                Some(v) => {
                    out.push(v);
                    proof {
                        assert(rem.skip(j - pos + 1) =~= s@.subrange(j + 1, to as int));
                        assert(out@ =~= out@.drop_last().push(v));
                        assert forall|gs: Seq<u16>|
                            out@.drop_last() + (seq![v] + gs) =~= out@ + gs by {}
                    }
                    pos = j + 1;
                },
                None => {
                    return None;
                },
            }
        }
    }
    // a trailing separator left an empty last piece
    proof {
        assert(s@.subrange(pos as int, to as int).len() == 0);
    }
    None
}

} // verus!

verus! {

// ---------------------------------------------------------------------------
// Parsing a whole IPv6 address
// ---------------------------------------------------------------------------

/// Parse textual IPv6: either exactly eight groups, or two group lists
/// around a single "::" standing for at least one zero group; a dotted
/// quad may close the address, contributing two groups.
pub open spec fn spec_parse_ipv6(t: Seq<char>) -> Option<Ipv6Addr> {
    let d = spec_find_dcolon(t);
    if d == t.len() {
        match spec_groups(t, true) {
            Some(gs) => if gs.len() == 8 {
                Some(ipv6_from_seq(gs))
            } else {
                None
            },
            None => None,
        }
    } else {
        let left = t.take(d);
        let right = t.skip(d + 2);
        if spec_find_dcolon(right) != right.len() {
            None
        } else {
            let lg = if left.len() == 0 {
                Some(Seq::<u16>::empty())
            } else {
                spec_groups(left, false)
            };
            let rg = if right.len() == 0 {
                Some(Seq::<u16>::empty())
            } else {
                spec_groups(right, true)
            };
            match (lg, rg) {
                (Some(l), Some(r)) => if l.len() + r.len() <= 7 {
                    Some(
                        ipv6_from_seq(
                            l + Seq::new((8 - l.len() - r.len()) as nat, |i: int| 0u16) + r,
                        ),
                    )
                } else {
                    None
                },
                _ => None,
            }
        }
    }
}

/// Parse a whole string as textual IPv6.
#[verifier::rlimit(100)]
pub fn parse_ipv6(t: &str) -> (r: Option<Ipv6Addr>)
    ensures
        r == spec_parse_ipv6(t@),
{
    let n = t.unicode_len();
    let d = find_dcolon(t);
    if d == n {
        proof {
            assert(t@.subrange(0, n as int) =~= t@);
        }
        match parse_groups(t, 0, n, true) {
            Some(v) => {
                if v.len() == 8 {
                    Some(ipv6_from_segs(&v))
                } else {
                    None
                }
            },
            None => None,
        }
    } else {
        let ghost right = t@.skip(d + 2);
        let right_s = t.substring_char(d + 2, n);
        proof {
            assert(right_s@ =~= right);
        }
        let d2 = find_dcolon(right_s);
        if d2 < right_s.unicode_len() {
            return None;
        }
        assert(spec_find_dcolon(right) == right.len());
        let lg: Option<Vec<u16>> = if d == 0 {
            Some(Vec::new())
        } else {
            parse_groups(t, 0, d, false)
        };
        let rg: Option<Vec<u16>> = if d + 2 == n {
            Some(Vec::new())
        } else {
            parse_groups(t, d + 2, n, true)
        };
        proof {
            assert(t@.take(d as int) =~= t@.subrange(0, d as int));
            assert(right =~= t@.subrange(d + 2, n as int));
        }
        match (lg, rg) {
            (Some(l), Some(r)) => {
                if l.len() <= 7 && r.len() <= 7 - l.len() {
                    let segs = assemble_segs(&l, &r);
                    Some(ipv6_from_segs(&segs))
                } else {
                    None
                }
            },
            _ => None,
        }
    }
}

/// The eight groups: the left list, then zeros, then the right list.
fn assemble_segs(l: &Vec<u16>, r: &Vec<u16>) -> (out: Vec<u16>)
    requires
        l@.len() + r@.len() <= 7,
    ensures
        out@ == l@ + Seq::new((8 - l@.len() - r@.len()) as nat, |i: int| 0u16) + r@,
        out@.len() == 8,
{
    let zeros = 8 - l.len() - r.len();
    let mut segs: Vec<u16> = Vec::new();
    let mut i: usize = 0;
    while i < l.len()
        invariant
            0 <= i <= l@.len(),
            segs@ =~= l@.take(i as int),
        decreases l@.len() - i,
    {
        segs.push(l[i]);
        i += 1;
    }
    let mut k: usize = 0;
    while k < zeros
        invariant
            0 <= k <= zeros,
            zeros == 8 - l@.len() - r@.len(),
            segs@ =~= l@.take(l@.len() as int) + Seq::new(k as nat, |i: int| 0u16),
        decreases zeros - k,
    {
        segs.push(0);
        k += 1;
    }
    let mut m: usize = 0;
    while m < r.len()
        invariant
            0 <= m <= r@.len(),
            zeros == 8 - l@.len() - r@.len(),
            segs@ =~= l@.take(l@.len() as int) + Seq::new(zeros as nat, |i: int| 0u16) + r@.take(
                m as int,
            ),
        decreases r@.len() - m,
    {
        segs.push(r[m]);
        m += 1;
    }
    proof {
        assert(l@.take(l@.len() as int) =~= l@);
        assert(r@.take(r@.len() as int) =~= r@);
        assert(segs@ =~= l@ + Seq::new((8 - l@.len() - r@.len()) as nat, |i: int| 0u16) + r@);
    }
    segs
}

// ---------------------------------------------------------------------------
// Rendering an IPv6 address
// ---------------------------------------------------------------------------

/// Length of the run of zero groups starting at a position.
pub open spec fn spec_run_len(a: Ipv6Addr, i: int) -> int
    decreases 8 - i,
{
    if i < 0 || i >= 8 {
        0
    } else if a.spec_seg(i) != 0 {
        0
    } else {
        1 + spec_run_len(a, i + 1)
    }
}

/// Start and length of the leftmost longest run of zero groups at or
/// after a position.
pub open spec fn spec_best_run(a: Ipv6Addr, i: int) -> (int, int)
    decreases 8 - i,
{
    if i >= 8 {
        (8, 0)
    } else {
        let cur = spec_run_len(a, i);
        let rest = spec_best_run(a, i + 1);
        if cur >= rest.1 {
            (i, cur)
        } else {
            rest
        }
    }
}

proof fn lemma_best_run_bounds(a: Ipv6Addr, i: int)
    requires
        0 <= i <= 8,
    ensures
        i <= spec_best_run(a, i).0 <= 8,
        0 <= spec_best_run(a, i).1,
        spec_best_run(a, i).0 + spec_best_run(a, i).1 <= 8,
    decreases 8 - i,
{
    if i < 8 {
        lemma_best_run_bounds(a, i + 1);
        lemma_run_len_bounds(a, i);
    }
}

proof fn lemma_run_len_bounds(a: Ipv6Addr, i: int)
    requires
        0 <= i <= 8,
    ensures
        0 <= spec_run_len(a, i) <= 8 - i,
    decreases 8 - i,
{
    if i < 8 {
        lemma_run_len_bounds(a, i + 1);
    }
}

/// The hex groups in `[from, to)`, joined by single colons; lowercase, no
/// leading zeros.
pub open spec fn spec_hex_list(a: Ipv6Addr, from: int, to: int) -> Seq<char>
    decreases to - from,
{
    if from >= to {
        Seq::<char>::empty()
    } else if to - from == 1 {
        spec_render_hex16(a.spec_seg(from))
    } else {
        spec_hex_list(a, from, to - 1) + seq![':'] + spec_render_hex16(a.spec_seg(to - 1))
    }
}

/// Canonical rendering of one group.
pub open spec fn spec_render_hex16(v: int) -> Seq<char> {
    if v < 16 {
        seq![spec_hex_char(v)]
    } else if v < 256 {
        seq![spec_hex_char(v / 16), spec_hex_char(v % 16)]
    } else if v < 4096 {
        seq![spec_hex_char(v / 256), spec_hex_char((v / 16) % 16), spec_hex_char(v % 16)]
    } else {
        seq![
            spec_hex_char(v / 4096),
            spec_hex_char((v / 256) % 16),
            spec_hex_char((v / 16) % 16),
            spec_hex_char(v % 16),
        ]
    }
}

pub open spec fn is_v4_mapped(a: Ipv6Addr) -> bool {
    a.s0 == 0 && a.s1 == 0 && a.s2 == 0 && a.s3 == 0 && a.s4 == 0 && a.s5 == 0xffff
}

pub open spec fn mapped_v4(a: Ipv6Addr) -> Ipv4Addr {
    Ipv4Addr {
        a: (a.s6 / 256) as u8,
        b: (a.s6 % 256) as u8,
        c: (a.s7 / 256) as u8,
        d: (a.s7 % 256) as u8,
    }
}

/// Canonical textual rendering: an IPv4-mapped address in mixed notation;
/// otherwise hex groups with the leftmost longest run of two or more zero
/// groups compressed to "::".
pub open spec fn spec_render_ipv6(a: Ipv6Addr) -> Seq<char> {
    if is_v4_mapped(a) {
        "::ffff:"@ + spec_render_ipv4(mapped_v4(a))
    } else {
        let br = spec_best_run(a, 0);
        if br.1 >= 2 {
            spec_hex_list(a, 0, br.0) + "::"@ + spec_hex_list(a, br.0 + br.1, 8)
        } else {
            spec_hex_list(a, 0, 8)
        }
    }
}

fn hex16_string(v: u16) -> (s: String)
    ensures
        s@ =~= spec_render_hex16(v as int),
{
    if v < 16 {
        String::from_str(hex_str(v))
    } else if v < 256 {
        let mut s = String::from_str(hex_str(v / 16));
        s.append(hex_str(v % 16));
        s
    } else if v < 4096 {
        let mut s = String::from_str(hex_str(v / 256));
        s.append(hex_str((v / 16) % 16));
        s.append(hex_str(v % 16));
        s
    } else {
        let mut s = String::from_str(hex_str(v / 4096));
        s.append(hex_str((v / 256) % 16));
        s.append(hex_str((v / 16) % 16));
        s.append(hex_str(v % 16));
        s
    }
}

fn hex_list_string(a: &Ipv6Addr, from: usize, to: usize) -> (s: String)
    requires
        from <= to <= 8,
    ensures
        s@ == spec_hex_list(*a, from as int, to as int),
{
    let mut s = String::new();
    let mut k = from;
    proof {
        assert(spec_hex_list(*a, from as int, from as int) =~= Seq::<char>::empty());
    }
    while k < to
        invariant
            from <= k <= to <= 8,
            s@ == spec_hex_list(*a, from as int, k as int),
        decreases to - k,
    {
        if k > from {
            s.append(":");
        }
        let g = hex16_string(a.seg(k));
        s.append(g.as_str());
        proof {
            reveal_strlit(":");
            if k == from {
                assert(s@ =~= spec_hex_list(*a, from as int, k + 1));
            } else {
                assert(s@ =~= spec_hex_list(*a, from as int, k + 1));
            }
        }
        k += 1;
    }
    s
}

/// Render an address in its canonical textual form.
pub fn render_ipv6(a: &Ipv6Addr) -> (s: String)
    ensures
        s@ == spec_render_ipv6(*a),
{
    if a.s0 == 0 && a.s1 == 0 && a.s2 == 0 && a.s3 == 0 && a.s4 == 0 && a.s5 == 0xffff {
        let v4 = Ipv4Addr {
            a: (a.s6 / 256) as u8,
            b: (a.s6 % 256) as u8,
            c: (a.s7 / 256) as u8,
            d: (a.s7 % 256) as u8,
        };
        let mut s = String::from_str("::ffff:");
        let q = render_ipv4(&v4);
        s.append(q.as_str());
        proof {
            assert(s@ =~= "::ffff:"@ + spec_render_ipv4(mapped_v4(*a)));
        }
        s
    } else {
        let mut bs: usize = 8;
        let mut bl: usize = 0;
        let mut run: usize = 0;
        let mut i: usize = 8;
        proof {
            lemma_run_len_bounds(*a, 0);
        }
        while i > 0
            invariant
                0 <= i <= 8,
                run as int == spec_run_len(*a, i as int),
                bs as int == spec_best_run(*a, i as int).0,
                bl as int == spec_best_run(*a, i as int).1,
                run <= 8,
                bs + bl <= 8,
            decreases i,
        {
            i -= 1;
            if a.seg(i) != 0 {
                run = 0;
            } else {
                proof {
                    lemma_run_len_bounds(*a, i + 1);
                }
                run = run + 1;
            }
            if run >= bl {
                proof {
                    lemma_run_len_bounds(*a, i as int);
                }
                bs = i;
                bl = run;
            }
        }
        if bl >= 2 {
            let mut s = hex_list_string(a, 0, bs);
            s.append("::");
            let tail = hex_list_string(a, bs + bl, 8);
            s.append(tail.as_str());
            proof {
                reveal_strlit("::");
                assert(s@ =~= spec_hex_list(*a, 0, bs as int) + "::"@ + spec_hex_list(
                    *a,
                    bs + bl,
                    8,
                ));
            }
            s
        } else {
            hex_list_string(a, 0, 8)
        }
    }
}

/// Canonical textual form of an address of either family.
pub open spec fn spec_render_addr(x: HostAddr) -> Seq<char> {
    match x {
        HostAddr::V4(v) => spec_render_ipv4(v),
        HostAddr::V6(v) => spec_render_ipv6(v),
    }
}

pub fn render_addr(x: &HostAddr) -> (s: String)
    ensures
        s@ == spec_render_addr(*x),
{
    match x {
        HostAddr::V4(v) => render_ipv4(v),
        HostAddr::V6(v) => render_ipv6(v),
    }
}

} // verus!
