//! The hosts-file database: an ordered sequence of lines, parsed from the
//! OS static-hosts file and serialized back.  Unmanaged lines are preserved
//! verbatim; entries between the two sentinel comment lines form the managed
//! region and are re-rendered canonically as `<ip> <name>`.

#![verifier::loop_isolation(false)]

use vstd::prelude::*;

use crate::addr::{
    parse_ipv4, parse_ipv6, render_addr, spec_parse_ipv4, spec_parse_ipv6, spec_render_addr,
    HostAddr, Ipv4Addr, MAX_ADDR_NUM, MIN_ADDR_NUM,
};

verus! {

/// Errors surfaced by hosts-file operations.
#[derive(Clone, Copy, Debug, PartialEq, Eq, Structural)]
pub enum HostsError {
    /// The requested name already appears on an unmanaged entry line.
    NameCollidesWithUnmanaged,
    /// More than one entry line carries the requested name.
    AmbiguousEntry,
    /// No free address is left in the managed range.
    AddressSpaceExhausted,
}

/// A parsed address line.  `raw` keeps the original text; unmanaged entries
/// are re-emitted from it.
#[derive(Debug)]
pub struct HostsEntry {
    /// The line's address, of either family.
    pub ip: HostAddr,
    pub names: Vec<String>,
    pub raw: String,
    pub managed: bool,
}

/// One line of the hosts file, in file order.
#[derive(Debug)]
pub enum HostsLine {
    Entry(HostsEntry),
    RawLine(String),
    ManagedStart,
    ManagedEnd,
}

/// Mathematical model of an entry line.
pub struct EntryModel {
    pub ip: HostAddr,
    pub names: Seq<Seq<char>>,
    pub raw: Seq<char>,
    pub managed: bool,
}

/// Mathematical model of a line.
pub enum LineModel {
    Entry(EntryModel),
    RawLine(Seq<char>),
    ManagedStart,
    ManagedEnd,
}

impl View for HostsEntry {
    type V = EntryModel;

    open spec fn view(&self) -> EntryModel {
        EntryModel {
            ip: self.ip,
            names: self.names.deep_view(),
            raw: self.raw@,
            managed: self.managed,
        }
    }
}

impl View for HostsLine {
    type V = LineModel;

    open spec fn view(&self) -> LineModel {
        match self {
            HostsLine::Entry(e) => LineModel::Entry(e@),
            HostsLine::RawLine(s) => LineModel::RawLine(s@),
            HostsLine::ManagedStart => LineModel::ManagedStart,
            HostsLine::ManagedEnd => LineModel::ManagedEnd,
        }
    }
}

/// Model of a sequence of lines.
pub open spec fn view_lines(v: Seq<HostsLine>) -> Seq<LineModel> {
    v.map_values(|l: HostsLine| l@)
}

/// The sentinel comment opening the managed region.
pub open spec fn managed_start_text() -> Seq<char> {
    "# START KUBETRANSPORT MANAGED"@
}

/// The sentinel comment closing the managed region.
pub open spec fn managed_end_text() -> Seq<char> {
    "# END KUBETRANSPORT MANAGED"@
}

// ---------------------------------------------------------------------------
// Tokens: fields of a line, split on spaces and tabs
// ---------------------------------------------------------------------------

pub open spec fn is_space_char(c: char) -> bool {
    c == ' ' || c == '\t'
}

pub open spec fn spec_tokens_acc(s: Seq<char>, cur: Seq<char>) -> Seq<Seq<char>>
    decreases s.len(),
{
    if s.len() == 0 {
        if cur.len() == 0 {
            seq![]
        } else {
            seq![cur]
        }
    } else if is_space_char(s[0]) {
        if cur.len() == 0 {
            spec_tokens_acc(s.skip(1), seq![])
        } else {
            seq![cur] + spec_tokens_acc(s.skip(1), seq![])
        }
    } else {
        spec_tokens_acc(s.skip(1), cur.push(s[0]))
    }
}

/// The whitespace-delimited fields of a line.
pub open spec fn spec_tokens(s: Seq<char>) -> Seq<Seq<char>> {
    spec_tokens_acc(s, seq![])
}

/// Unrolling `spec_tokens_acc` over a whole field: `m` characters that are
/// not spaces, followed by a space or the end.
proof fn lemma_tokens_word(s: Seq<char>, cur: Seq<char>, m: int)
    requires
        0 <= m <= s.len(),
        forall|i: int| 0 <= i < m ==> !is_space_char(s[i]),
        m < s.len() ==> is_space_char(s[m]),
    ensures
        m == s.len() && cur.len() + m == 0 ==> spec_tokens_acc(s, cur) == Seq::<Seq<char>>::empty(),
        m == s.len() && cur.len() + m > 0 ==> spec_tokens_acc(s, cur) == seq![cur + s],
        m < s.len() && cur.len() + m > 0 ==> spec_tokens_acc(s, cur) == seq![cur + s.take(m)]
            + spec_tokens_acc(s.skip(m + 1), Seq::<char>::empty()),
        m < s.len() && cur.len() + m == 0 ==> spec_tokens_acc(s, cur) == spec_tokens_acc(
            s.skip(1),
            Seq::<char>::empty(),
        ),
    decreases m,
{
    if m == 0 {
        if s.len() == 0 {
            assert(cur + s =~= cur);
        } else if is_space_char(s[0]) {
            assert(cur + s.take(0) =~= cur);
        } else {
            // m == 0 < s.len() means s[0] is a space, so nothing is left to show
        }
    } else {
        let s1 = s.skip(1);
        let cur1 = cur.push(s[0]);
        assert(forall|i: int| 0 <= i < m - 1 ==> s1[i] == s[i + 1]);
        assert(m - 1 < s1.len() ==> is_space_char(s1[m - 1]));
        lemma_tokens_word(s1, cur1, m - 1);
        assert(cur1 + s1.take(m - 1) =~= cur + s.take(m));
        assert(cur1 + s1 =~= cur + s);
        if m < s.len() {
            assert(s1.skip(m) =~= s.skip(m + 1));
        }
    }
}

/// Exact index of the first space character of `s` at or after `from`, or
/// the length of `s` if there is none.
fn find_space(s: &str, from: usize) -> (r: usize)
    requires
        from <= s@.len(),
    ensures
        from <= r <= s@.len(),
        r < s@.len() ==> is_space_char(s@[r as int]),
        forall|k: int| from <= k < r ==> !is_space_char(s@[k]),
{
    let n = s.unicode_len();
    let mut i = from;
    while i < n
        invariant
            from <= i <= n,
            n == s@.len(),
            forall|k: int| from <= k < i ==> !is_space_char(s@[k]),
        decreases n - i,
    {
        let c = s.get_char(i);
        if c == ' ' || c == '\t' {
            return i;
        }
        i += 1;
    }
    n
}

/// Split a line into its whitespace-delimited fields.
fn tokenize(line: &str) -> (toks: Vec<String>)
    ensures
        toks.deep_view() == spec_tokens(line@),
{
    let n = line.unicode_len();
    let mut toks: Vec<String> = Vec::new();
    let mut i: usize = 0;
    proof {
        assert(line@.skip(0) =~= line@);
    }
    while i < n
        invariant
            0 <= i <= n,
            n == line@.len(),
            spec_tokens(line@) == toks.deep_view() + spec_tokens_acc(
                line@.skip(i as int),
                Seq::<char>::empty(),
            ),
        decreases n - i,
    {
        let c = line.get_char(i);
        if c == ' ' || c == '\t' {
            proof {
                let rem = line@.skip(i as int);
                lemma_tokens_word(rem, Seq::<char>::empty(), 0);
                assert(rem.skip(1) =~= line@.skip(i + 1));
            }
            i += 1;
        } else {
            let j = find_space(line, i);
            let tok = String::from_str(line.substring_char(i, j));
            let ghost rem = line@.skip(i as int);
            let ghost m = j - i;
            proof {
                assert(forall|k: int| 0 <= k < m ==> rem[k] == line@[k + i]);
                assert(m < rem.len() ==> is_space_char(rem[m]));
                lemma_tokens_word(rem, Seq::<char>::empty(), m);
                assert(Seq::<char>::empty() + rem.take(m) =~= line@.subrange(i as int, j as int));
                assert(rem.take(m) == rem.take(rem.len() as int) ==> Seq::<char>::empty() + rem
                    =~= line@.subrange(i as int, j as int));
                assert(m == rem.len() ==> rem.take(m) == rem.take(rem.len() as int));
            }
            toks.push(tok);
            proof {
                assert(toks.deep_view() =~= toks.deep_view().take(toks.deep_view().len() - 1).push(
                    tok@,
                ));
            }
            if j == n {
                i = n;
                proof {
                    assert(spec_tokens_acc(line@.skip(n as int), Seq::<char>::empty())
                        =~= Seq::<Seq<char>>::empty());
                    assert(line@.skip(n as int) =~= Seq::<char>::empty());
                }
            } else {
                i = j + 1;
                proof {
                    assert(rem.skip(m + 1) =~= line@.skip(j + 1));
                }
            }
        }
    }
    proof {
        assert(line@.skip(n as int) =~= Seq::<char>::empty());
        assert(toks.deep_view() + spec_tokens_acc(Seq::<char>::empty(), Seq::<char>::empty())
            =~= toks.deep_view());
    }
    toks
}

} // verus!

verus! {

// ---------------------------------------------------------------------------
// Line classification
// ---------------------------------------------------------------------------

/// Whether two strings hold the same characters.
pub fn str_eq(a: &str, b: &str) -> (r: bool)
    ensures
        r == (a@ == b@),
{
    let n = a.unicode_len();
    let m = b.unicode_len();
    if n != m {
        return false;
    }
    let mut i: usize = 0;
    while i < n
        invariant
            0 <= i <= n,
            n == a@.len(),
            n == b@.len(),
            forall|k: int| 0 <= k < i ==> a@[k] == b@[k],
        decreases n - i,
    {
        if a.get_char(i) != b.get_char(i) {
            return false;
        }
        i += 1;
    }
    proof {
        assert(a@ =~= b@);
    }
    true
}

/// How one line of text is read: the two sentinels exactly; any other line
/// opening with `#` and any line with fewer than two fields raw; otherwise
/// an entry when the first field is valid IPv4 or IPv6 text, raw when it
/// is not.
pub open spec fn spec_classify(content: Seq<char>, managed: bool) -> LineModel {
    if content == managed_start_text() {
        LineModel::ManagedStart
    } else if content == managed_end_text() {
        LineModel::ManagedEnd
    } else if content.len() > 0 && content[0] == '#' {
        LineModel::RawLine(content)
    } else {
        let toks = spec_tokens(content);
        if toks.len() < 2 {
            LineModel::RawLine(content)
        } else {
            match spec_parse_ipv4(toks[0]) {
                Some(v4) => LineModel::Entry(
                    EntryModel {
                        ip: HostAddr::V4(v4),
                        names: toks.skip(1),
                        raw: content,
                        managed,
                    },
                ),
                None => match spec_parse_ipv6(toks[0]) {
                    Some(v6) => LineModel::Entry(
                        EntryModel {
                            ip: HostAddr::V6(v6),
                            names: toks.skip(1),
                            raw: content,
                            managed,
                        },
                    ),
                    None => LineModel::RawLine(content),
                },
            }
        }
    }
}

/// Read one line of text, stamping an entry with the given managed flag.
pub fn parse_line(line: &str, managed: bool) -> (l: HostsLine)
    ensures
        l@ == spec_classify(line@, managed),
{
    if str_eq(line, "# START KUBETRANSPORT MANAGED") {
        return HostsLine::ManagedStart;
    }
    if str_eq(line, "# END KUBETRANSPORT MANAGED") {
        return HostsLine::ManagedEnd;
    }
    let n = line.unicode_len();
    if n > 0 && line.get_char(0) == '#' {
        return HostsLine::RawLine(String::from_str(line));
    }
    let toks = tokenize(line);
    if toks.len() < 2 {
        return HostsLine::RawLine(String::from_str(line));
    }
    assert(toks.deep_view()[0] == toks@[0]@);
    let ip: HostAddr = match parse_ipv4(toks[0].as_str()) {
        Some(v4) => HostAddr::V4(v4),
        None => match parse_ipv6(toks[0].as_str()) {
            Some(v6) => HostAddr::V6(v6),
            None => {
                return HostsLine::RawLine(String::from_str(line));
            },
        },
    };
    let mut names: Vec<String> = Vec::new();
    let mut k: usize = 1;
    while k < toks.len()
        invariant
            1 <= k <= toks@.len(),
            names.deep_view() =~= toks.deep_view().subrange(1, k as int),
        decreases toks@.len() - k,
    {
        names.push(toks[k].clone());
        proof {
            assert(names.deep_view() =~= toks.deep_view().subrange(1, k + 1));
        }
        k += 1;
    }
    proof {
        assert(toks.deep_view().subrange(1, toks.deep_view().len() as int) =~= toks.deep_view()
            .skip(1));
    }
    HostsLine::Entry(
        HostsEntry { ip, names, raw: String::from_str(line), managed },
    )
}

// ---------------------------------------------------------------------------
// Parsing a whole file
// ---------------------------------------------------------------------------

/// A line as handed to classification: one trailing carriage return, if
/// any, is removed.
pub open spec fn strip_cr(l: Seq<char>) -> Seq<char> {
    if l.len() > 0 && l.last() == '\r' {
        l.drop_last()
    } else {
        l
    }
}

/// The managed-region flag after reading a line.
pub open spec fn spec_next_flag(content: Seq<char>, managed: bool) -> bool {
    if content == managed_start_text() {
        true
    } else if content == managed_end_text() {
        false
    } else {
        managed
    }
}

pub open spec fn spec_parse_acc(s: Seq<char>, cur: Seq<char>, managed: bool) -> Seq<LineModel>
    decreases s.len(),
{
    if s.len() == 0 {
        if cur.len() == 0 {
            seq![]
        } else {
            seq![spec_classify(strip_cr(cur), managed)]
        }
    } else if s[0] == '\n' {
        seq![spec_classify(strip_cr(cur), managed)] + spec_parse_acc(
            s.skip(1),
            Seq::<char>::empty(),
            spec_next_flag(strip_cr(cur), managed),
        )
    } else {
        spec_parse_acc(s.skip(1), cur.push(s[0]), managed)
    }
}

/// The hosts file's text as a sequence of line models.  The managed flag
/// starts out false and toggles at the sentinels.
pub open spec fn spec_parse(s: Seq<char>) -> Seq<LineModel> {
    spec_parse_acc(s, Seq::<char>::empty(), false)
}

/// Unrolling `spec_parse_acc` over a whole line: `m` characters without a
/// newline, followed by a newline or the end.
pub proof fn lemma_parse_acc_line(s: Seq<char>, cur: Seq<char>, managed: bool, m: int)
    requires
        0 <= m <= s.len(),
        forall|i: int| 0 <= i < m ==> s[i] != '\n',
        m < s.len() ==> s[m] == '\n',
    ensures
        m == s.len() && cur.len() + m == 0 ==> spec_parse_acc(s, cur, managed) == Seq::<
            LineModel,
        >::empty(),
        m == s.len() && cur.len() + m > 0 ==> spec_parse_acc(s, cur, managed) == seq![
            spec_classify(strip_cr(cur + s), managed),
        ],
        m < s.len() ==> spec_parse_acc(s, cur, managed) == seq![
            spec_classify(strip_cr(cur + s.take(m)), managed),
        ] + spec_parse_acc(
            s.skip(m + 1),
            Seq::<char>::empty(),
            spec_next_flag(strip_cr(cur + s.take(m)), managed),
        ),
    decreases m,
{
    if m == 0 {
        if s.len() == 0 {
            assert(cur + s =~= cur);
        } else {
            assert(cur + s.take(0) =~= cur);
        }
    } else {
        let s1 = s.skip(1);
        let cur1 = cur.push(s[0]);
        assert(forall|i: int| 0 <= i < m - 1 ==> s1[i] == s[i + 1]);
        lemma_parse_acc_line(s1, cur1, managed, m - 1);
        assert(cur1 + s1.take(m - 1) =~= cur + s.take(m));
        assert(cur1 + s1 =~= cur + s);
        if m < s.len() {
            assert(s1.skip(m) =~= s.skip(m + 1));
        }
    }
}

} // verus!

verus! {

/// The hosts file: its lines in order, plus a snapshot of the lines as they
/// stood before the last reset, used to hand a re-applied service the
/// address it had before.
#[derive(Debug)]
pub struct Hosts {
    pub entries: Vec<HostsLine>,
    pub prev_entries: Vec<HostsLine>,
}

impl Hosts {
    /// The current lines, as models.
    pub open spec fn lines(&self) -> Seq<LineModel> {
        view_lines(self.entries@)
    }

    /// The snapshot taken by the last reset, as models.
    pub open spec fn prev_lines(&self) -> Seq<LineModel> {
        view_lines(self.prev_entries@)
    }

    /// Parse a whole hosts file.
    #[verifier::rlimit(100)]
    pub fn from_str(s: &str) -> (h: Hosts)
        ensures
            h.lines() == spec_parse(s@),
            h.prev_lines() == Seq::<LineModel>::empty(),
    {
        let n = s.unicode_len();
        let mut entries: Vec<HostsLine> = Vec::new();
        let mut managed = false;
        let mut i: usize = 0;
        proof {
            assert(s@.skip(0) =~= s@);
            assert(view_lines(entries@) =~= Seq::<LineModel>::empty());
        }
        while i < n
            invariant
                0 <= i <= n,
                n == s@.len(),
                spec_parse(s@) == view_lines(entries@) + spec_parse_acc(
                    s@.skip(i as int),
                    Seq::<char>::empty(),
                    managed,
                ),
            decreases n - i,
        {
            let j = crate::addr::find_char(s, i, '\n');
            let mut e = j;
            if e > i && s.get_char(e - 1) == '\r' {
                e = e - 1;
            }
            let line = s.substring_char(i, e);
            let hl = parse_line(line, managed);
            let new_flag = match &hl {
                HostsLine::ManagedStart => true,
                HostsLine::ManagedEnd => false,
                _ => managed,
            };
            let ghost rem = s@.skip(i as int);
            let ghost m = j - i;
            proof {
                assert(forall|k: int| 0 <= k < rem.len() ==> rem[k] == s@[k + i]);
                lemma_parse_acc_line(rem, Seq::<char>::empty(), managed, m);
                assert(Seq::<char>::empty() + rem.take(m) =~= s@.subrange(i as int, j as int));
                assert(m == rem.len() ==> Seq::<char>::empty() + rem =~= s@.subrange(
                    i as int,
                    j as int,
                ));
                if e < j {
                    assert(s@.subrange(i as int, j as int).last() == '\r');
                    assert(s@.subrange(i as int, j as int).drop_last() =~= s@.subrange(
                        i as int,
                        e as int,
                    ));
                } else {
                    assert(s@.subrange(i as int, j as int).len() > 0 ==> s@.subrange(
                        i as int,
                        j as int,
                    ).last() == s@[j - 1]);
                }
                assert(line@ == strip_cr(s@.subrange(i as int, j as int)));
            }
            entries.push(hl);
            proof {
                assert(view_lines(entries@) =~= view_lines(entries@.drop_last()).push(hl@));
                if j < n {
                    assert(rem.skip(m + 1) =~= s@.skip(j + 1));
                } else {
                    assert(s@.skip(n as int) =~= Seq::<char>::empty());
                }
            }
            if j < n {
                i = j + 1;
            } else {
                i = n;
            }
            managed = new_flag;
        }
        proof {
            assert(s@.skip(n as int) =~= Seq::<char>::empty());
        }
        Hosts { entries, prev_entries: Vec::new() }
    }
}

// ---------------------------------------------------------------------------
// Encoding
// ---------------------------------------------------------------------------

/// Names of a managed entry joined by single spaces.
pub open spec fn spec_join_names(names: Seq<Seq<char>>) -> Seq<char>
    decreases names.len(),
{
    if names.len() == 0 {
        seq![]
    } else if names.len() == 1 {
        names[0]
    } else {
        names[0] + seq![' '] + spec_join_names(names.skip(1))
    }
}

/// The text a line model serializes to, without its newline.  Managed
/// entries are re-rendered canonically; every other line is emitted from
/// its preserved text.
pub open spec fn spec_encode_line(m: LineModel) -> Seq<char> {
    match m {
        LineModel::Entry(e) => if e.managed {
            spec_render_addr(e.ip) + seq![' '] + spec_join_names(e.names)
        } else {
            e.raw
        },
        LineModel::RawLine(t) => t,
        LineModel::ManagedStart => managed_start_text(),
        LineModel::ManagedEnd => managed_end_text(),
    }
}

/// The text a file of line models serializes to: each line followed by a
/// newline.
pub open spec fn spec_encode(ms: Seq<LineModel>) -> Seq<char>
    decreases ms.len(),
{
    if ms.len() == 0 {
        seq![]
    } else {
        spec_encode_line(ms[0]) + seq!['\n'] + spec_encode(ms.skip(1))
    }
}

proof fn lemma_join_snoc(names: Seq<Seq<char>>, x: Seq<char>)
    ensures
        spec_join_names(names.push(x)) == if names.len() == 0 {
            x
        } else {
            spec_join_names(names) + seq![' '] + x
        },
    decreases names.len(),
{
    let p = names.push(x);
    if names.len() == 0 {
        assert(p.len() == 1 && p[0] == x);
    } else if names.len() == 1 {
        assert(p.len() == 2 && p[0] == names[0]);
        assert(p.skip(1) =~= seq![x]);
        assert(spec_join_names(p.skip(1)) == x);
    } else {
        assert(p[0] == names[0]);
        assert(p.skip(1) =~= names.skip(1).push(x));
        lemma_join_snoc(names.skip(1), x);
        assert(names[0] + seq![' '] + (spec_join_names(names.skip(1)) + seq![' '] + x) =~= (names[0]
            + seq![' '] + spec_join_names(names.skip(1))) + seq![' '] + x);
    }
}

proof fn lemma_encode_snoc(ms: Seq<LineModel>, x: LineModel)
    ensures
        spec_encode(ms.push(x)) == spec_encode(ms) + spec_encode_line(x) + seq!['\n'],
    decreases ms.len(),
{
    let p = ms.push(x);
    if ms.len() == 0 {
        assert(p[0] == x);
        assert(p.skip(1) =~= Seq::<LineModel>::empty());
        assert(spec_encode(Seq::<LineModel>::empty()) == Seq::<char>::empty());
        assert(spec_encode(p) == spec_encode_line(x) + seq!['\n'] + Seq::<char>::empty());
        assert(spec_encode_line(x) + seq!['\n'] + Seq::<char>::empty() =~= Seq::<char>::empty()
            + spec_encode_line(x) + seq!['\n']);
    } else {
        assert(p[0] == ms[0]);
        assert(p.skip(1) =~= ms.skip(1).push(x));
        lemma_encode_snoc(ms.skip(1), x);
        assert(spec_encode_line(ms[0]) + seq!['\n'] + (spec_encode(ms.skip(1)) + spec_encode_line(x)
            + seq!['\n']) =~= (spec_encode_line(ms[0]) + seq!['\n'] + spec_encode(ms.skip(1)))
            + spec_encode_line(x) + seq!['\n']);
    }
}

impl HostsLine {
    /// Serialize one line, without its newline.
    pub fn encode(&self) -> (s: String)
        ensures
            s@ == spec_encode_line(self@),
    {
        match self {
            HostsLine::Entry(e) => {
                if e.managed {
                    let ip = e.ip;
                    let mut s = render_addr(&ip);
                    s.append(" ");
                    proof {
                        reveal_strlit(" ");
                        assert(s@ =~= spec_render_addr(ip) + seq![' ']);
                        assert(e.names.deep_view().take(0) =~= Seq::<Seq<char>>::empty());
                    }
                    let mut k: usize = 0;
                    while k < e.names.len()
                        invariant
                            0 <= k <= e.names@.len(),
                            s@ == spec_render_addr(ip) + seq![' '] + spec_join_names(
                                e.names.deep_view().take(k as int),
                            ),
                        decreases e.names@.len() - k,
                    {
                        if k > 0 {
                            s.append(" ");
                        }
                        s.append(e.names[k].as_str());
                        proof {
                            reveal_strlit(" ");
                            let ghost nk = e.names@[k as int]@;
                            lemma_join_snoc(e.names.deep_view().take(k as int), nk);
                            assert(e.names.deep_view().take(k + 1) =~= e.names.deep_view().take(
                                k as int,
                            ).push(e.names@[k as int]@));
                            if k > 0 {
                                assert(s@ =~= spec_render_addr(ip) + seq![' ']
                                    + spec_join_names(e.names.deep_view().take(k + 1)));
                            } else {
                                assert(s@ =~= spec_render_addr(ip) + seq![' ']
                                    + spec_join_names(e.names.deep_view().take(k + 1)));
                            }
                        }
                        k += 1;
                    }
                    proof {
                        assert(e.names.deep_view().take(e.names@.len() as int) =~= e
                            .names
                            .deep_view());
                    }
                    s
                } else {
                    e.raw.clone()
                }
            },
            HostsLine::RawLine(t) => t.clone(),
            HostsLine::ManagedStart => String::from_str("# START KUBETRANSPORT MANAGED"),
            HostsLine::ManagedEnd => String::from_str("# END KUBETRANSPORT MANAGED"),
        }
    }
}

impl Hosts {
    /// Serialize the whole file.
    pub fn encode(&self) -> (s: String)
        ensures
            s@ == spec_encode(self.lines()),
    {
        let mut s = String::new();
        let mut i: usize = 0;
        proof {
            assert(self.lines().take(0) =~= Seq::<LineModel>::empty());
        }
        while i < self.entries.len()
            invariant
                0 <= i <= self.entries@.len(),
                s@ == spec_encode(self.lines().take(i as int)),
            decreases self.entries@.len() - i,
        {
            let ls = self.entries[i].encode();
            s.append(ls.as_str());
            s.append("\n");
            proof {
                reveal_strlit("\n");
                lemma_encode_snoc(self.lines().take(i as int), self.lines()[i as int]);
                assert(self.lines().take(i + 1) =~= self.lines().take(i as int).push(
                    self.lines()[i as int],
                ));
                assert(s@ =~= spec_encode(self.lines().take(i as int)) + spec_encode_line(
                    self.lines()[i as int],
                ) + seq!['\n']);
            }
            i += 1;
        }
        proof {
            assert(self.lines().take(self.entries@.len() as int) =~= self.lines());
        }
        s
    }
}

} // verus!

verus! {

// ---------------------------------------------------------------------------
// Looking an entry up by name
// ---------------------------------------------------------------------------

/// Whether the line is an entry carrying this name.
pub open spec fn entry_has_name(m: LineModel, n: Seq<char>) -> bool {
    m matches LineModel::Entry(e) && e.names.contains(n)
}

pub open spec fn is_managed_entry(m: LineModel) -> bool {
    m matches LineModel::Entry(e) && e.managed
}

/// How many lines are entries carrying this name.
pub open spec fn spec_match_count(ms: Seq<LineModel>, n: Seq<char>) -> int
    decreases ms.len(),
{
    if ms.len() == 0 {
        0
    } else {
        spec_match_count(ms.drop_last(), n) + if entry_has_name(ms.last(), n) {
            1int
        } else {
            0int
        }
    }
}

/// Index of the first entry carrying this name.
pub open spec fn spec_first_match(ms: Seq<LineModel>, n: Seq<char>) -> int
    decreases ms.len(),
{
    if ms.len() == 0 {
        0
    } else if entry_has_name(ms[0], n) {
        0
    } else {
        1 + spec_first_match(ms.skip(1), n)
    }
}

pub proof fn lemma_first_match_at_pub(ms: Seq<LineModel>, n: Seq<char>, k: int)
    requires
        0 <= k <= ms.len(),
        forall|j: int| 0 <= j < k ==> !entry_has_name(ms[j], n),
        k < ms.len() ==> entry_has_name(ms[k], n),
    ensures
        spec_first_match(ms, n) == k,
{
    lemma_first_match_at(ms, n, k);
}

proof fn lemma_first_match_at(ms: Seq<LineModel>, n: Seq<char>, k: int)
    requires
        0 <= k <= ms.len(),
        forall|j: int| 0 <= j < k ==> !entry_has_name(ms[j], n),
        k < ms.len() ==> entry_has_name(ms[k], n),
    ensures
        spec_first_match(ms, n) == k,
    decreases ms.len(),
{
    if ms.len() == 0 {
    } else if k == 0 {
    } else {
        assert(forall|j: int| 0 <= j < ms.skip(1).len() ==> ms.skip(1)[j] == ms[j + 1]);
        lemma_first_match_at(ms.skip(1), n, k - 1);
    }
}

/// The result of looking a name up: no match, the single managed match, or
/// an error for an unmanaged or an ambiguous match.
pub open spec fn spec_lookup(ms: Seq<LineModel>, n: Seq<char>) -> Result<Option<int>, HostsError> {
    let c = spec_match_count(ms, n);
    if c == 0 {
        Ok(None)
    } else if c > 1 {
        Err(HostsError::AmbiguousEntry)
    } else if is_managed_entry(ms[spec_first_match(ms, n)]) {
        Ok(Some(spec_first_match(ms, n)))
    } else {
        Err(HostsError::NameCollidesWithUnmanaged)
    }
}

fn name_list_contains(names: &Vec<String>, n: &String) -> (b: bool)
    ensures
        b == names.deep_view().contains(n@),
{
    let mut i: usize = 0;
    while i < names.len()
        invariant
            0 <= i <= names@.len(),
            forall|k: int| 0 <= k < i ==> names.deep_view()[k] != n@,
        decreases names@.len() - i,
    {
        if str_eq(names[i].as_str(), n.as_str()) {
            assert(names.deep_view()[i as int] == n@);
            return true;
        }
        proof {
            assert(names.deep_view()[i as int] == names@[i as int]@);
        }
        i += 1;
    }
    false
}

/// Whether this line is an entry that carries the name.
fn line_has_name(l: &HostsLine, n: &String) -> (b: bool)
    ensures
        b == entry_has_name(l@, n@),
{
    match l {
        HostsLine::Entry(e) => name_list_contains(&e.names, n),
        _ => false,
    }
}

impl Hosts {
    /// Find the entry for a name: `Ok(None)` when no entry carries it, the
    /// index of the single managed entry that does, and an error when the
    /// single match is unmanaged or when several lines match.
    pub fn get_by_name(&self, name: &String) -> (r: Result<Option<usize>, HostsError>)
        ensures
            ({
                let l = spec_lookup(self.lines(), name@);
                match r {
                    Ok(None) => l == Ok::<Option<int>, HostsError>(None),
                    Ok(Some(i)) => l == Ok::<Option<int>, HostsError>(Some(i as int)),
                    Err(e) => l == Err::<Option<int>, HostsError>(e),
                }
            }),
            r matches Ok(Some(i)) ==> i < self.lines().len() && entry_has_name(
                self.lines()[i as int],
                name@,
            ) && is_managed_entry(self.lines()[i as int]),
    {
        lookup_in(&self.entries, name)
    }
}

/// The lookup shared by the current lines and the previous snapshot.
fn lookup_in(entries: &Vec<HostsLine>, name: &String) -> (r: Result<Option<usize>, HostsError>)
    ensures
        ({
            let l = spec_lookup(view_lines(entries@), name@);
            match r {
                Ok(None) => l == Ok::<Option<int>, HostsError>(None),
                Ok(Some(i)) => l == Ok::<Option<int>, HostsError>(Some(i as int)),
                Err(e) => l == Err::<Option<int>, HostsError>(e),
            }
        }),
        r matches Ok(Some(i)) ==> i < view_lines(entries@).len() && entry_has_name(
            view_lines(entries@)[i as int],
            name@,
        ) && is_managed_entry(view_lines(entries@)[i as int]),
{
    let ghost ms = view_lines(entries@);
    let mut count: usize = 0;
    let mut first: usize = 0;
    let mut i: usize = 0;
    proof {
        assert(ms.take(0) =~= Seq::<LineModel>::empty());
    }
    while i < entries.len()
        invariant
            0 <= i <= entries@.len(),
            ms == view_lines(entries@),
            count <= i,
            count as int == spec_match_count(ms.take(i as int), name@),
            count > 0 ==> 0 <= first < i && entry_has_name(ms[first as int], name@),
            count > 0 ==> forall|j: int| 0 <= j < first ==> !entry_has_name(ms[j], name@),
            count == 0 ==> forall|j: int| 0 <= j < i ==> !entry_has_name(ms[j], name@),
        decreases entries@.len() - i,
    {
        let has = line_has_name(&entries[i], name);
        proof {
            assert(ms.take(i + 1).drop_last() =~= ms.take(i as int));
            assert(ms.take(i + 1).last() == ms[i as int]);
        }
        if has {
            if count == 0 {
                first = i;
            }
            count += 1;
        }
        i += 1;
    }
    proof {
        assert(ms.take(entries@.len() as int) =~= ms);
    }
    if count == 0 {
        Ok(None)
    } else if count > 1 {
        Err(HostsError::AmbiguousEntry)
    } else {
        proof {
            lemma_first_match_at(ms, name@, first as int);
        }
        match &entries[first] {
            HostsLine::Entry(e) => {
                if e.managed {
                    Ok(Some(first))
                } else {
                    Err(HostsError::NameCollidesWithUnmanaged)
                }
            },
            _ => {
                proof {
                    assert(false);
                }
                Err(HostsError::AmbiguousEntry)
            },
        }
    }
}

} // verus!

verus! {

// ---------------------------------------------------------------------------
// Cloning lines
// ---------------------------------------------------------------------------

fn clone_strings(v: &Vec<String>) -> (r: Vec<String>)
    ensures
        r@ == v@,
{
    let mut r: Vec<String> = Vec::new();
    let mut i: usize = 0;
    while i < v.len()
        invariant
            0 <= i <= v@.len(),
            r@ =~= v@.take(i as int),
        decreases v@.len() - i,
    {
        r.push(v[i].clone());
        i += 1;
    }
    proof {
        assert(v@.take(v@.len() as int) =~= v@);
    }
    r
}

impl Clone for HostsEntry {
    /// A clone has the same model.
    fn clone(&self) -> (r: Self)
        ensures
            r@ == self@,
    {
        HostsEntry {
            ip: self.ip,
            names: clone_strings(&self.names),
            raw: self.raw.clone(),
            managed: self.managed,
        }
    }
}

impl Clone for HostsLine {
    /// A clone has the same model.
    fn clone(&self) -> (r: Self)
        ensures
            r@ == self@,
    {
        match self {
            HostsLine::Entry(e) => HostsLine::Entry(e.clone()),
            HostsLine::RawLine(s) => HostsLine::RawLine(s.clone()),
            HostsLine::ManagedStart => HostsLine::ManagedStart,
            HostsLine::ManagedEnd => HostsLine::ManagedEnd,
        }
    }
}

fn clone_lines(v: &Vec<HostsLine>) -> (r: Vec<HostsLine>)
    ensures
        view_lines(r@) == view_lines(v@),
{
    let mut r: Vec<HostsLine> = Vec::new();
    let mut i: usize = 0;
    while i < v.len()
        invariant
            0 <= i <= v@.len(),
            view_lines(r@) =~= view_lines(v@).take(i as int),
        decreases v@.len() - i,
    {
        r.push(v[i].clone());
        proof {
            assert(view_lines(r@) =~= view_lines(r@.drop_last()).push(r@.last()@));
        }
        i += 1;
    }
    proof {
        assert(view_lines(v@).take(v@.len() as int) =~= view_lines(v@));
    }
    r
}

// ---------------------------------------------------------------------------
// The managed region's sentinels
// ---------------------------------------------------------------------------

pub open spec fn spec_has_start(ms: Seq<LineModel>) -> bool {
    exists|i: int| 0 <= i < ms.len() && ms[i] is ManagedStart
}

/// Index of the first opening sentinel.
pub open spec fn spec_first_start(ms: Seq<LineModel>) -> int
    decreases ms.len(),
{
    if ms.len() == 0 {
        0
    } else if ms[0] is ManagedStart {
        0
    } else {
        1 + spec_first_start(ms.skip(1))
    }
}

proof fn lemma_first_start_at(ms: Seq<LineModel>, k: int)
    requires
        0 <= k <= ms.len(),
        forall|j: int| 0 <= j < k ==> !(ms[j] is ManagedStart),
        k < ms.len() ==> ms[k] is ManagedStart,
    ensures
        spec_first_start(ms) == k,
    decreases ms.len(),
{
    if ms.len() == 0 {
    } else if k == 0 {
    } else {
        assert(forall|j: int| 0 <= j < ms.skip(1).len() ==> ms.skip(1)[j] == ms[j + 1]);
        lemma_first_start_at(ms.skip(1), k - 1);
    }
}

/// The lines with a sentinel pair appended at the end when none is present.
pub open spec fn spec_with_sentinels(ms: Seq<LineModel>) -> Seq<LineModel> {
    if spec_has_start(ms) {
        ms
    } else {
        ms + seq![LineModel::ManagedStart, LineModel::ManagedEnd]
    }
}

impl Hosts {
    /// Index of the opening sentinel, appending the sentinel pair at the
    /// end of the file when it is absent.
    pub fn ensure_managed_idx(&mut self) -> (idx: usize)
        ensures
            final(self).prev_lines() == old(self).prev_lines(),
            final(self).lines() == spec_with_sentinels(old(self).lines()),
            idx as int == spec_first_start(final(self).lines()),
            idx < final(self).lines().len(),
    {
        let ghost ms = self.lines();
        let mut i: usize = 0;
        while i < self.entries.len()
            invariant
                0 <= i <= self.entries@.len(),
                ms == self.lines(),
                forall|j: int| 0 <= j < i ==> !(ms[j] is ManagedStart),
            decreases self.entries@.len() - i,
        {
            let found = match &self.entries[i] {
                HostsLine::ManagedStart => true,
                _ => false,
            };
            if found {
                proof {
                    lemma_first_start_at(ms, i as int);
                }
                return i;
            }
            i += 1;
        }
        let idx = self.entries.len();
        self.entries.push(HostsLine::ManagedStart);
        self.entries.push(HostsLine::ManagedEnd);
        proof {
            assert(!spec_has_start(ms));
            assert(self.lines() =~= ms + seq![LineModel::ManagedStart, LineModel::ManagedEnd]);
            lemma_first_start_at(self.lines(), idx as int);
        }
        idx
    }
}

// ---------------------------------------------------------------------------
// Writing an entry
// ---------------------------------------------------------------------------

/// The managed entry this library writes: one name, one address.
pub open spec fn new_entry_model(n: Seq<char>, ip: HostAddr) -> LineModel {
    LineModel::Entry(EntryModel { ip, names: seq![n], raw: Seq::<char>::empty(), managed: true })
}

/// Writing `name -> ip`: ensure the sentinel pair, then replace the single
/// managed entry for the name, or insert a fresh entry right after the
/// opening sentinel; an unmanaged or ambiguous match is an error.
pub open spec fn spec_set(ms: Seq<LineModel>, n: Seq<char>, ip: HostAddr) -> Result<
    Seq<LineModel>,
    HostsError,
> {
    let ms1 = spec_with_sentinels(ms);
    match spec_lookup(ms1, n) {
        Ok(None) => Ok(ms1.insert(spec_first_start(ms1) + 1, new_entry_model(n, ip))),
        Ok(Some(i)) => Ok(ms1.update(i, new_entry_model(n, ip))),
        Err(e) => Err(e),
    }
}

impl Hosts {
    /// Write `name -> ip` into the managed region.
    pub fn set(&mut self, name: &String, ip: HostAddr) -> (r: Result<(), HostsError>)
        ensures
            final(self).prev_lines() == old(self).prev_lines(),
            ({
                let s = spec_set(old(self).lines(), name@, ip);
                match r {
                    Ok(()) => s matches Ok(ms) && final(self).lines() == ms,
                    Err(e) => s == Err::<Seq<LineModel>, HostsError>(e) && final(self).lines()
                        == spec_with_sentinels(old(self).lines()),
                }
            }),
    {
        let idx = self.ensure_managed_idx();
        proof {
            assert(self.lines().len() == self.entries@.len());
        }
        let found = match self.get_by_name(name) {
            Ok(f) => f,
            Err(e) => {
                return Err(e);
            },
        };
        let mut names: Vec<String> = Vec::new();
        names.push(name.clone());
        let entry = HostsLine::Entry(HostsEntry { ip, names, raw: String::new(), managed: true });
        let ghost em = entry@;
        let ghost es1 = self.entries@;
        proof {
            assert(em matches LineModel::Entry(e) && e.names =~= seq![name@]);
            assert(em == new_entry_model(name@, ip));
        }
        match found {
            Some(i) => {
                self.entries.set(i, entry);
                proof {
                    assert(self.lines() =~= view_lines(es1).update(i as int, em));
                }
            },
            None => {
                let n = self.entries.len();
                assert(idx < n);
                self.entries.insert(idx + 1, entry);
                proof {
                    assert(self.lines() =~= view_lines(es1).insert(idx + 1, em));
                }
            },
        }
        Ok(())
    }
}

} // verus!

verus! {

// ---------------------------------------------------------------------------
// Deleting and resetting
// ---------------------------------------------------------------------------

/// A line that a reset keeps: everything but a managed entry.
pub open spec fn keep_on_reset(m: LineModel) -> bool {
    !(m matches LineModel::Entry(e) && e.managed)
}

impl Hosts {
    /// Remove the single managed entry for a name; absence is a no-op, an
    /// unmanaged or ambiguous match an error.
    pub fn delete(&mut self, name: &String) -> (r: Result<(), HostsError>)
        ensures
            final(self).prev_lines() == old(self).prev_lines(),
            ({
                let l = spec_lookup(old(self).lines(), name@);
                match l {
                    Ok(None) => r == Ok::<(), HostsError>(()) && final(self).lines() == old(
                        self,
                    ).lines(),
                    Ok(Some(i)) => r == Ok::<(), HostsError>(()) && final(self).lines() == old(
                        self,
                    ).lines().remove(i),
                    Err(e) => r == Err::<(), HostsError>(e) && final(self).lines() == old(
                        self,
                    ).lines(),
                }
            }),
    {
        let found = match self.get_by_name(name) {
            Ok(f) => f,
            Err(e) => {
                return Err(e);
            },
        };
        match found {
            Some(i) => {
                let ghost es = self.entries@;
                self.entries.remove(i);
                proof {
                    assert(self.lines() =~= view_lines(es).remove(i as int));
                }
                Ok(())
            },
            None => Ok(()),
        }
    }

    /// Snapshot the current lines and drop every managed entry, keeping
    /// sentinels and unmanaged lines in place.
    pub fn reset(&mut self)
        ensures
            final(self).lines() == old(self).lines().filter(|m: LineModel| keep_on_reset(m)),
            final(self).prev_lines() == old(self).lines(),
    {
        let ghost ms = self.lines();
        let mut kept: Vec<HostsLine> = Vec::new();
        let mut i: usize = 0;
        proof {
            assert(ms.take(0) =~= Seq::<LineModel>::empty());
            assert(Seq::<LineModel>::empty().filter(|m: LineModel| keep_on_reset(m))
                =~= Seq::<LineModel>::empty());
        }
        while i < self.entries.len()
            invariant
                0 <= i <= self.entries@.len(),
                ms == self.lines(),
                view_lines(kept@) == ms.take(i as int).filter(|m: LineModel| keep_on_reset(m)),
            decreases self.entries@.len() - i,
        {
            let keep = match &self.entries[i] {
                HostsLine::Entry(e) => !e.managed,
                _ => true,
            };
            proof {
                assert(ms.take(i + 1).drop_last() =~= ms.take(i as int));
                assert(ms.take(i + 1).last() == ms[i as int]);
                reveal_with_fuel(Seq::filter, 2);
            }
            if keep {
                let l = self.entries[i].clone();
                kept.push(l);
                proof {
                    assert(view_lines(kept@) =~= view_lines(kept@.drop_last()).push(kept@.last()@));
                }
            }
            i += 1;
        }
        proof {
            assert(ms.take(self.entries@.len() as int) =~= ms);
        }
        core::mem::swap(&mut self.entries, &mut kept);
        self.prev_entries = kept;
    }

    /// The previous snapshot as a hosts file of its own.
    pub fn previous(&self) -> (h: Hosts)
        ensures
            h.lines() == self.prev_lines(),
            h.prev_lines() == Seq::<LineModel>::empty(),
    {
        let entries = clone_lines(&self.prev_entries);
        proof {
            assert(view_lines(Seq::<HostsLine>::empty()) =~= Seq::<LineModel>::empty());
        }
        Hosts { entries, prev_entries: Vec::new() }
    }
}

// ---------------------------------------------------------------------------
// Allocation
// ---------------------------------------------------------------------------

/// Whether the line is a managed entry holding this in-range address.
pub open spec fn line_has_addr(m: LineModel, v: int) -> bool {
    m matches LineModel::Entry(e) && e.managed && (e.ip matches HostAddr::V4(ip)
        && ip.spec_in_alloc_range() && ip.spec_num() == v)
}

/// The set of addresses held by managed entries and lying in the managed
/// range.  Only these count for allocation; addresses on unmanaged lines
/// are ignored.
pub open spec fn managed_addr_set(ms: Seq<LineModel>) -> Set<int> {
    Set::new(|v: int| exists|i: int| 0 <= i < ms.len() && line_has_addr(ms[i], v))
}

/// What the allocator returns over a set of taken addresses: the lowest
/// address of the range when none is taken; otherwise the smallest
/// untaken successor of a taken address; exhaustion when every taken
/// address below the top has its successor taken as well.
pub open spec fn is_alloc_result(s: Set<int>, r: Result<Ipv4Addr, HostsError>) -> bool {
    match r {
        Ok(ip) => ip.spec_in_alloc_range() && !s.contains(ip.spec_num()) && (((forall|v: int|
            !s.contains(v)) && ip.spec_num() == MIN_ADDR_NUM) || (s.contains(ip.spec_num() - 1)
            && forall|y: int|
            #![trigger s.contains(y)]
            s.contains(y - 1) && !s.contains(y) && y <= MAX_ADDR_NUM ==> ip.spec_num() <= y)),
        Err(e) => e == HostsError::AddressSpaceExhausted && (exists|v: int| s.contains(v)) && (
        forall|a: int| #![trigger s.contains(a)]
            s.contains(a) && a != MAX_ADDR_NUM ==> s.contains(a + 1)),
    }
}

/// The successor address: the last octet plus one, carrying into the third
/// octet; exhaustion at the end of a /16.
pub fn next_ip(ip: Ipv4Addr) -> (r: Result<Ipv4Addr, HostsError>)
    ensures
        ip.c == 255 && ip.d == 255 ==> r == Err::<Ipv4Addr, HostsError>(
            HostsError::AddressSpaceExhausted,
        ),
        !(ip.c == 255 && ip.d == 255) ==> (r matches Ok(ip2) && ip2.spec_num() == ip.spec_num()
            + 1 && ip2.a == ip.a && ip2.b == ip.b),
{
    if ip.d < 255 {
        Ok(Ipv4Addr { a: ip.a, b: ip.b, c: ip.c, d: ip.d + 1 })
    } else if ip.c < 255 {
        Ok(Ipv4Addr { a: ip.a, b: ip.b, c: ip.c + 1, d: 0 })
    } else {
        Err(HostsError::AddressSpaceExhausted)
    }
}

fn contains_addr(v: &Vec<Ipv4Addr>, x: &Ipv4Addr) -> (b: bool)
    ensures
        b == exists|k: int| 0 <= k < v@.len() && v@[k].spec_num() == x.spec_num(),
{
    let mut i: usize = 0;
    while i < v.len()
        invariant
            0 <= i <= v@.len(),
            forall|k: int| 0 <= k < i ==> v@[k].spec_num() != x.spec_num(),
        decreases v@.len() - i,
    {
        if v[i].num() == x.num() {
            return true;
        }
        i += 1;
    }
    false
}

impl Hosts {
    /// The next free address: the first gap between taken managed
    /// addresses, in full 32-bit order, or the successor of the highest
    /// taken address; the lowest address of the range when nothing is
    /// taken.
    #[verifier::rlimit(100)]
    pub fn available_ip(&self) -> (r: Result<Ipv4Addr, HostsError>)
        ensures
            is_alloc_result(managed_addr_set(self.lines()), r),
    {
        let ghost ms = self.lines();
        let ghost s = managed_addr_set(ms);
        let mut addrs: Vec<Ipv4Addr> = Vec::new();
        let mut i: usize = 0;
        while i < self.entries.len()
            invariant
                0 <= i <= self.entries@.len(),
                ms == self.lines(),
                s == managed_addr_set(ms),
                forall|k: int| #![all_triggers]
                    0 <= k < addrs@.len() ==> addrs@[k].spec_in_alloc_range() && s.contains(
                        addrs@[k].spec_num(),
                    ),
                forall|j: int, v: int|
                    0 <= j < i && #[trigger] line_has_addr(ms[j], v) ==> exists|k: int|
                        0 <= k < addrs@.len() && addrs@[k].spec_num() == v,
            decreases self.entries@.len() - i,
        {
            let ghost addrs0 = addrs@;
            let ipo: Option<Ipv4Addr> = match &self.entries[i] {
                HostsLine::Entry(e) => {
                    if e.managed {
                        match e.ip {
                            HostAddr::V4(v4) => Some(v4),
                            HostAddr::V6(_) => None,
                        }
                    } else {
                        None
                    }
                },
                _ => None,
            };
            if let Some(ip) = ipo {
                if ip.in_alloc_range() {
                    proof {
                        assert(line_has_addr(ms[i as int], ip.spec_num()));
                        assert(s.contains(ip.spec_num()));
                    }
                    addrs.push(ip);
                }
            }
            proof {
                assert forall|j: int, v: int|
                    0 <= j < i + 1 && #[trigger] line_has_addr(ms[j], v) implies exists|k: int|
                    0 <= k < addrs@.len() && addrs@[k].spec_num() == v by {
                    if j < i {
                        let k0 = choose|k0: int|
                            0 <= k0 < addrs0.len() && addrs0[k0].spec_num() == v;
                        assert(addrs@[k0].spec_num() == v);
                    } else {
                        match ipo {
                            Some(ip) => {
                                if ip.spec_in_alloc_range() {
                                    assert(v == ip.spec_num());
                                    assert(addrs@[addrs@.len() - 1] == ip);
                                } else {
                                    assert(false);
                                }
                            },
                            None => {
                                assert(false);
                            },
                        }
                    }
                }
            }
            i += 1;
        }
        if addrs.len() == 0 {
            proof {
                assert forall|v: int| !s.contains(v) by {
                    if s.contains(v) {
                        let j = choose|j: int| 0 <= j < ms.len() && line_has_addr(ms[j], v);
                        assert(false);
                    }
                }
            }
            let ip = Ipv4Addr { a: 127, b: 8, c: 0, d: 1 };
            assert(ip.spec_num() == MIN_ADDR_NUM);
            return Ok(ip);
        }
        let mut best: Option<Ipv4Addr> = None;
        let mut k: usize = 0;
        while k < addrs.len()
            invariant
                0 <= k <= addrs@.len(),
                s == managed_addr_set(ms),
                forall|j: int| #![all_triggers]
                    0 <= j < addrs@.len() ==> addrs@[j].spec_in_alloc_range() && s.contains(
                        addrs@[j].spec_num(),
                    ),
                forall|v: int| #![trigger s.contains(v)]
                    s.contains(v) ==> exists|j: int|
                        0 <= j < addrs@.len() && addrs@[j].spec_num() == v,
                best matches Some(b) ==> b.spec_in_alloc_range() && s.contains(b.spec_num() - 1)
                    && !s.contains(b.spec_num()),
                forall|j: int| #![all_triggers]
                    0 <= j < k && addrs@[j].spec_num() != MAX_ADDR_NUM && !s.contains(
                        addrs@[j].spec_num() + 1,
                    ) ==> (best matches Some(b) && b.spec_num() <= addrs@[j].spec_num() + 1),
            decreases addrs@.len() - k,
        {
            let a = addrs[k];
            if !(a.c == 255 && a.d == 255) {
                let cand = match next_ip(a) {
                    Ok(c) => c,
                    Err(_) => {
                        proof {
                            assert(false);
                        }
                        a
                    },
                };
                proof {
                    assert(a.spec_num() < MAX_ADDR_NUM);
                    crate::addr::lemma_num_in_range_octets(cand);
                }
                if !contains_addr(&addrs, &cand) {
                    proof {
                        assert(!s.contains(cand.spec_num())) by {
                            if s.contains(cand.spec_num()) {
                                let j = choose|j: int|
                                    0 <= j < addrs@.len() && addrs@[j].spec_num()
                                        == cand.spec_num();
                                assert(false);
                            }
                        }
                    }
                    let take = match &best {
                        None => true,
                        Some(b) => cand.num() < b.num(),
                    };
                    if take {
                        best = Some(cand);
                    }
                }
            } else {
                proof {
                    assert(a.spec_num() == MAX_ADDR_NUM);
                }
            }
            k += 1;
        }
        match best {
            Some(b) => {
                proof {
                    assert forall|y: int|
                        #![trigger s.contains(y)]
                        s.contains(y - 1) && !s.contains(y) && y <= MAX_ADDR_NUM implies b
                        .spec_num() <= y by {
                        let j = choose|j: int|
                            0 <= j < addrs@.len() && addrs@[j].spec_num() == y - 1;
                        assert(addrs@[j].spec_num() != MAX_ADDR_NUM);
                    }
                }
                Ok(b)
            },
            None => {
                proof {
                    assert(s.contains(addrs@[0].spec_num()));
                    assert forall|a: int|
                        #![trigger s.contains(a)]
                        s.contains(a) && a != MAX_ADDR_NUM implies s.contains(a + 1) by {
                        let j = choose|j: int| 0 <= j < addrs@.len() && addrs@[j].spec_num() == a;
                    }
                }
                Err(HostsError::AddressSpaceExhausted)
            },
        }
    }
}

} // verus!

verus! {

// ---------------------------------------------------------------------------
// Allocate or look up the address for a name
// ---------------------------------------------------------------------------

/// The allocate-then-write tail of `get_or_create_ip`: a fresh address per
/// `is_alloc_result` over the managed addresses, written with `spec_set`;
/// an exhausted range leaves the lines unchanged.
pub open spec fn alloc_and_set(
    ms: Seq<LineModel>,
    n: Seq<char>,
    r: Result<HostAddr, HostsError>,
    ms2: Seq<LineModel>,
) -> bool {
    match r {
        Ok(a) => (a matches HostAddr::V4(ip) && is_alloc_result(managed_addr_set(ms), Ok(ip)))
            && spec_set(ms, n, a) == Ok::<Seq<LineModel>, HostsError>(ms2),
        Err(e) => is_alloc_result(managed_addr_set(ms), Err(e)) && ms2 == ms,
    }
}

/// What `get_or_create_ip` does, relating the lines before (`ms`, with the
/// snapshot `prev`) to the result and the lines after (`ms2`): a managed
/// entry's address is returned unchanged; an absent name is given the
/// address it had in the snapshot, or a freshly allocated one; lookup
/// errors propagate and leave the lines unchanged.
pub open spec fn is_get_or_create_result(
    ms: Seq<LineModel>,
    prev: Seq<LineModel>,
    n: Seq<char>,
    r: Result<HostAddr, HostsError>,
    ms2: Seq<LineModel>,
) -> bool {
    match spec_lookup(ms, n) {
        Err(e) => r == Err::<HostAddr, HostsError>(e) && ms2 == ms,
        Ok(Some(i)) => match ms[i] {
            LineModel::Entry(e) => r == Ok::<HostAddr, HostsError>(e.ip) && ms2 == ms,
            _ => false,
        },
        Ok(None) => match spec_lookup(prev, n) {
            Err(e) => r == Err::<HostAddr, HostsError>(e) && ms2 == ms,
            Ok(Some(pi)) => match prev[pi] {
                LineModel::Entry(e) => r == Ok::<HostAddr, HostsError>(e.ip) && spec_set(
                    ms,
                    n,
                    e.ip,
                ) == Ok::<Seq<LineModel>, HostsError>(ms2),
                _ => false,
            },
            Ok(None) => alloc_and_set(ms, n, r, ms2),
        },
    }
}

pub proof fn lemma_count_append_sentinels(ms: Seq<LineModel>, n: Seq<char>)
    ensures
        spec_match_count(spec_with_sentinels(ms), n) == spec_match_count(ms, n),
{
    if !spec_has_start(ms) {
        let p = ms + seq![LineModel::ManagedStart, LineModel::ManagedEnd];
        assert(p.drop_last().drop_last() =~= ms);
        assert(p.last() == LineModel::ManagedEnd);
        assert(p.drop_last().last() == LineModel::ManagedStart);
        assert(spec_match_count(p, n) == spec_match_count(p.drop_last(), n));
        assert(spec_match_count(p.drop_last(), n) == spec_match_count(ms, n));
        assert(spec_with_sentinels(ms) == p);
    }
}

impl Hosts {
    /// The address for a service name: an existing managed entry's address,
    /// or the one remembered in the snapshot, or a freshly allocated one,
    /// written as a managed entry.
    pub fn get_or_create_ip(&mut self, name: &String) -> (r: Result<HostAddr, HostsError>)
        ensures
            final(self).prev_lines() == old(self).prev_lines(),
            is_get_or_create_result(
                old(self).lines(),
                old(self).prev_lines(),
                name@,
                r,
                final(self).lines(),
            ),
    {
        let found = match self.get_by_name(name) {
            Ok(f) => f,
            Err(e) => {
                return Err(e);
            },
        };
        match found {
            Some(i) => {
                match &self.entries[i] {
                    HostsLine::Entry(e) => Ok(e.ip),
                    _ => {
                        proof {
                            assert(false);
                        }
                        Err(HostsError::AmbiguousEntry)
                    },
                }
            },
            None => {
                let prev = self.previous();
                let prev_ip: Option<HostAddr> = match prev.get_by_name(name) {
                    Err(e) => {
                        return Err(e);
                    },
                    Ok(Some(pi)) => {
                        match &prev.entries[pi] {
                            HostsLine::Entry(e) => Some(e.ip),
                            _ => {
                                proof {
                                    assert(false);
                                }
                                None
                            },
                        }
                    },
                    Ok(None) => None,
                };
                let ip: HostAddr = match prev_ip {
                    Some(ip) => ip,
                    None => match self.available_ip() {
                        Ok(v4) => HostAddr::V4(v4),
                        Err(e) => {
                            return Err(e);
                        },
                    },
                };
                proof {
                    lemma_count_append_sentinels(old(self).lines(), name@);
                }
                match self.set(name, ip) {
                    Ok(()) => Ok(ip),
                    Err(e) => {
                        proof {
                            assert(false);
                        }
                        Err(e)
                    },
                }
            },
        }
    }
}

} // verus!

verus! {

// ---------------------------------------------------------------------------
// The managed entries as locally mapped services
// ---------------------------------------------------------------------------

/// The services a list of names on one managed entry yields: each name
/// that reads as a service name, paired with the entry's address.
pub open spec fn names_services(names: Seq<Seq<char>>, ip: HostAddr) -> Seq<
    crate::service::LocalServiceModel,
>
    decreases names.len(),
{
    if names.len() == 0 {
        seq![]
    } else {
        let rest = names_services(names.drop_last(), ip);
        match crate::service::spec_parse_service_name(names.last()) {
            Ok(nm) => rest.push(crate::service::LocalServiceModel { name: nm, ip }),
            Err(_) => rest,
        }
    }
}

/// The services one line yields: those of a managed entry; nothing
/// otherwise.
pub open spec fn line_services(m: LineModel) -> Seq<crate::service::LocalServiceModel> {
    match m {
        LineModel::Entry(e) => if e.managed {
            names_services(e.names, e.ip)
        } else {
            seq![]
        },
        _ => seq![],
    }
}

/// The services of a whole file, in file order.
pub open spec fn spec_known_services(ms: Seq<LineModel>) -> Seq<crate::service::LocalServiceModel>
    decreases ms.len(),
{
    if ms.len() == 0 {
        seq![]
    } else {
        spec_known_services(ms.drop_last()) + line_services(ms.last())
    }
}

impl Hosts {
    /// Every managed entry name that reads as a service name, with its
    /// address.  Names in other shapes are skipped.
    pub fn get_known_services(&self) -> (r: Vec<crate::service::LocallyMappedService>)
        ensures
            r.deep_view() == spec_known_services(self.lines()),
    {
        let ghost ms = self.lines();
        let mut out: Vec<crate::service::LocallyMappedService> = Vec::new();
        let mut i: usize = 0;
        proof {
            assert(ms.take(0) =~= Seq::<LineModel>::empty());
            assert(out.deep_view() =~= Seq::<crate::service::LocalServiceModel>::empty());
        }
        while i < self.entries.len()
            invariant
                0 <= i <= self.entries@.len(),
                ms == self.lines(),
                out.deep_view() == spec_known_services(ms.take(i as int)),
            decreases self.entries@.len() - i,
        {
            proof {
                assert(ms.take(i + 1).drop_last() =~= ms.take(i as int));
                assert(ms.take(i + 1).last() == ms[i as int]);
            }
            match &self.entries[i] {
                HostsLine::Entry(e) => {
                    if e.managed {
                        {
                            let ip = e.ip;
                            let ghost names = e.names.deep_view();
                            let mut k: usize = 0;
                            proof {
                                assert(names.take(0) =~= Seq::<Seq<char>>::empty());
                            }
                            while k < e.names.len()
                                invariant
                                    0 <= k <= e.names@.len(),
                                    names == e.names.deep_view(),
                                    out.deep_view() == spec_known_services(ms.take(i as int))
                                        + names_services(names.take(k as int), ip),
                                decreases e.names@.len() - k,
                            {
                                proof {
                                    assert(names.take(k + 1).drop_last() =~= names.take(k as int));
                                    assert(names.take(k + 1).last() == names[k as int]);
                                }
                                match crate::service::ServiceName::from_string(
                                    e.names[k].as_str(),
                                ) {
                                    Ok(sn) => {
                                        let lms = crate::service::LocallyMappedService {
                                            service_name: sn,
                                            ip,
                                        };
                                        let ghost lmsm = lms@;
                                        out.push(lms);
                                        proof {
                                            assert(out.deep_view() =~= out.deep_view().take(
                                                out.deep_view().len() - 1,
                                            ).push(out@.last()@));
                                            assert(spec_known_services(ms.take(i as int))
                                                + names_services(names.take(k + 1), ip) =~= (
                                            spec_known_services(ms.take(i as int))
                                                + names_services(names.take(k as int), ip)).push(
                                                lmsm,
                                            ));
                                        }
                                    },
                                    Err(_) => {},
                                }
                                k += 1;
                            }
                            proof {
                                assert(names.take(e.names@.len() as int) =~= names);
                                assert(line_services(ms[i as int]) == names_services(names, ip));
                            }
                        }
                    }
                },
                _ => {},
            }
            i += 1;
        }
        proof {
            assert(ms.take(self.entries@.len() as int) =~= ms);
        }
        out
    }
}

} // verus!

verus! {

/// Whether the line is an entry holding exactly this address.
pub open spec fn entry_has_ip(m: LineModel, ip: HostAddr) -> bool {
    m matches LineModel::Entry(e) && e.ip == ip
}

impl Hosts {
    /// Index of the first entry line holding this address, if any.
    pub fn get_by_ip(&self, ip: HostAddr) -> (r: Option<usize>)
        ensures
            match r {
                Some(i) => i < self.lines().len() && entry_has_ip(self.lines()[i as int], ip)
                    && forall|j: int| 0 <= j < i ==> !entry_has_ip(#[trigger] self.lines()[j], ip),
                None => forall|j: int|
                    0 <= j < self.lines().len() ==> !entry_has_ip(#[trigger] self.lines()[j], ip),
            },
    {
        let mut i: usize = 0;
        while i < self.entries.len()
            invariant
                0 <= i <= self.entries@.len(),
                forall|j: int| 0 <= j < i ==> !entry_has_ip(#[trigger] self.lines()[j], ip),
            decreases self.entries@.len() - i,
        {
            let hit = match &self.entries[i] {
                HostsLine::Entry(e) => e.ip == ip,
                _ => false,
            };
            if hit {
                return Some(i);
            }
            i += 1;
        }
        None
    }
}

} // verus!
