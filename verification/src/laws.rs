//! The laws this library is built around, stated over the models and
//! proved: serialization round-trips, the sentinels appear exactly once,
//! allocated addresses are stable, deletion and reset behave as stated,
//! and selector matching is pointwise.

#![verifier::loop_isolation(false)]

use vstd::prelude::*;

use crate::addr::{lemma_spec_find, spec_find, spec_render_addr, HostAddr, Ipv4Addr, MAX_ADDR_NUM,
    MIN_ADDR_NUM};
use crate::hostsfile::{
    entry_has_name, is_alloc_result, is_get_or_create_result, is_managed_entry, keep_on_reset,
    lemma_parse_acc_line, new_entry_model, spec_classify, spec_encode, spec_encode_line,
    spec_first_match, spec_first_start, spec_has_start, spec_join_names, spec_lookup,
    spec_match_count, spec_parse, spec_parse_acc, spec_set, spec_with_sentinels, strip_cr,
    HostsError, LineModel,
};

verus! {

// ---------------------------------------------------------------------------
// Roundtrip
// ---------------------------------------------------------------------------

/// A managed entry whose preserved text is exactly its canonical
/// rendering; every other line is canonical by itself, since it is
/// re-emitted from its preserved text.
pub open spec fn canonical_managed_line(m: LineModel) -> bool {
    match m {
        LineModel::Entry(e) => e.managed ==> e.raw == spec_render_addr(e.ip) + seq![' ']
            + spec_join_names(e.names),
        _ => true,
    }
}

/// One line of text re-encodes to itself.
proof fn lemma_line_reencodes(content: Seq<char>, managed: bool)
    requires
        canonical_managed_line(spec_classify(content, managed)),
    ensures
        spec_encode_line(spec_classify(content, managed)) == content,
{
    let m = spec_classify(content, managed);
    match m {
        LineModel::Entry(e) => {},
        LineModel::RawLine(t) => {},
        LineModel::ManagedStart => {},
        LineModel::ManagedEnd => {},
    }
}

proof fn lemma_roundtrip_acc(s: Seq<char>, managed: bool)
    requires
        s.len() > 0 ==> s.last() == '\n',
        forall|i: int| 0 <= i < s.len() - 1 ==> !(#[trigger] s[i] == '\r' && s[i + 1] == '\n'),
        forall|i: int|
            0 <= i < spec_parse_acc(s, Seq::<char>::empty(), managed).len()
                ==> canonical_managed_line(
                #[trigger] spec_parse_acc(s, Seq::<char>::empty(), managed)[i],
            ),
    ensures
        spec_encode(spec_parse_acc(s, Seq::<char>::empty(), managed)) == s,
    decreases s.len(),
{
    let e = Seq::<char>::empty();
    if s.len() == 0 {
        assert(spec_parse_acc(s, e, managed) == Seq::<LineModel>::empty());
        assert(spec_encode(Seq::<LineModel>::empty()) == Seq::<char>::empty());
        assert(s =~= Seq::<char>::empty());
    } else {
        lemma_spec_find(s, '\n');
        let j = spec_find(s, '\n');
        assert(j < s.len()) by {
            if j == s.len() {
                assert(s[s.len() - 1] != '\n');
            }
        }
        let line = s.take(j);
        assert(strip_cr(line) == line) by {
            if line.len() > 0 && line.last() == '\r' {
                assert(s[j - 1] == '\r' && s[j] == '\n');
            }
        }
        lemma_parse_acc_line(s, e, managed, j);
        assert(e + line =~= line);
        let m0 = spec_classify(line, managed);
        let flag2 = crate::hostsfile::spec_next_flag(line, managed);
        let rest = s.skip(j + 1);
        let ps = spec_parse_acc(s, e, managed);
        let prest = spec_parse_acc(rest, e, flag2);
        assert(ps == seq![m0] + prest);
        assert(ps[0] == m0);
        assert(canonical_managed_line(m0));
        lemma_line_reencodes(line, managed);
        // conditions carry to the tail
        assert(rest.len() > 0 ==> rest.last() == '\n') by {
            if rest.len() > 0 {
                assert(rest.last() == s.last());
            }
        }
        assert(forall|i: int| 0 <= i < rest.len() - 1 ==> rest[i] == s[i + j + 1]);
        assert(forall|i: int|
            0 <= i < rest.len() - 1 ==> !(#[trigger] rest[i] == '\r' && rest[i + 1] == '\n'));
        assert(forall|i: int| 0 <= i < prest.len() ==> prest[i] == ps[i + 1]);
        assert(forall|i: int|
            0 <= i < prest.len() ==> canonical_managed_line(#[trigger] prest[i]));
        lemma_roundtrip_acc(rest, flag2);
        // assemble
        assert(ps.skip(1) =~= prest);
        assert(spec_encode(ps) == spec_encode_line(ps[0]) + seq!['\n'] + spec_encode(ps.skip(1)));
        assert(spec_encode(ps) =~= line + seq!['\n'] + rest);
        assert(line + seq!['\n'] + rest =~= s);
    }
}

/// ROUNDTRIP.  A hosts file whose lines are newline-terminated, free of
/// carriage returns before their newlines, and whose managed entries
/// stand in canonical `<ip> <name>` form, is reproduced byte for byte by
/// serializing its parse.
pub proof fn lemma_encode_parse_roundtrip(f: Seq<char>)
    requires
        f.len() > 0 ==> f.last() == '\n',
        forall|i: int| 0 <= i < f.len() - 1 ==> !(#[trigger] f[i] == '\r' && f[i + 1] == '\n'),
        forall|i: int|
            0 <= i < spec_parse(f).len() ==> canonical_managed_line(#[trigger] spec_parse(f)[i]),
    ensures
        spec_encode(spec_parse(f)) == f,
{
    assert(spec_parse(f) == spec_parse_acc(f, Seq::<char>::empty(), false));
    assert(forall|i: int|
        0 <= i < spec_parse_acc(f, Seq::<char>::empty(), false).len() ==> canonical_managed_line(
            #[trigger] spec_parse_acc(f, Seq::<char>::empty(), false)[i],
        ));
    lemma_roundtrip_acc(f, false);
}

} // verus!

verus! {

// ---------------------------------------------------------------------------
// Counting lines
// ---------------------------------------------------------------------------

/// How many lines satisfy a predicate.
pub open spec fn count_matching(ms: Seq<LineModel>, p: spec_fn(LineModel) -> bool) -> int
    decreases ms.len(),
{
    if ms.len() == 0 {
        0
    } else {
        count_matching(ms.drop_last(), p) + if p(ms.last()) {
            1int
        } else {
            0int
        }
    }
}

pub proof fn lemma_count_matching_nonneg(ms: Seq<LineModel>, p: spec_fn(LineModel) -> bool)
    ensures
        count_matching(ms, p) >= 0,
    decreases ms.len(),
{
    if ms.len() > 0 {
        lemma_count_matching_nonneg(ms.drop_last(), p);
    }
}

pub proof fn lemma_count_matching_pos(ms: Seq<LineModel>, p: spec_fn(LineModel) -> bool)
    ensures
        count_matching(ms, p) > 0 <==> exists|i: int| 0 <= i < ms.len() && p(#[trigger] ms[i]),
    decreases ms.len(),
{
    lemma_count_matching_nonneg(ms, p);
    if ms.len() > 0 {
        lemma_count_matching_pos(ms.drop_last(), p);
        lemma_count_matching_nonneg(ms.drop_last(), p);
        if p(ms.last()) {
            assert(p(ms[ms.len() - 1]));
        } else {
            if count_matching(ms, p) > 0 {
                let i = choose|i: int| 0 <= i < ms.drop_last().len() && p(#[trigger] ms.drop_last()[i]);
                assert(p(ms[i]));
            }
            if exists|i: int| 0 <= i < ms.len() && p(#[trigger] ms[i]) {
                let i = choose|i: int| 0 <= i < ms.len() && p(#[trigger] ms[i]);
                assert(i < ms.len() - 1);
                assert(p(ms.drop_last()[i]));
            }
        }
    }
}

pub proof fn lemma_count_matching_insert(
    ms: Seq<LineModel>,
    pos: int,
    m: LineModel,
    p: spec_fn(LineModel) -> bool,
)
    requires
        0 <= pos <= ms.len(),
    ensures
        count_matching(ms.insert(pos, m), p) == count_matching(ms, p) + if p(m) {
            1int
        } else {
            0int
        },
    decreases ms.len(),
{
    let q = ms.insert(pos, m);
    if pos == ms.len() {
        assert(q =~= ms.push(m));
        assert(q.drop_last() =~= ms);
        assert(q.last() == m);
    } else {
        assert(q.drop_last() =~= ms.drop_last().insert(pos, m));
        assert(q.last() == ms.last());
        lemma_count_matching_insert(ms.drop_last(), pos, m, p);
    }
}

pub proof fn lemma_count_matching_update(
    ms: Seq<LineModel>,
    i: int,
    m: LineModel,
    p: spec_fn(LineModel) -> bool,
)
    requires
        0 <= i < ms.len(),
    ensures
        count_matching(ms.update(i, m), p) == count_matching(ms, p) - (if p(ms[i]) {
            1int
        } else {
            0int
        }) + if p(m) {
            1int
        } else {
            0int
        },
    decreases ms.len(),
{
    let q = ms.update(i, m);
    if i == ms.len() - 1 {
        assert(q.drop_last() =~= ms.drop_last());
        assert(q.last() == m);
    } else {
        assert(q.drop_last() =~= ms.drop_last().update(i, m));
        assert(q.last() == ms.last());
        lemma_count_matching_update(ms.drop_last(), i, m, p);
    }
}

pub proof fn lemma_count_matching_append2(
    ms: Seq<LineModel>,
    x: LineModel,
    y: LineModel,
    p: spec_fn(LineModel) -> bool,
)
    ensures
        count_matching(ms + seq![x, y], p) == count_matching(ms, p) + (if p(x) {
            1int
        } else {
            0int
        }) + if p(y) {
            1int
        } else {
            0int
        },
{
    let q = ms + seq![x, y];
    assert(q.drop_last().drop_last() =~= ms);
    assert(q.last() == y);
    assert(q.drop_last().last() == x);
    assert(count_matching(q, p) == count_matching(q.drop_last(), p) + if p(y) {
        1int
    } else {
        0int
    });
    assert(count_matching(q.drop_last(), p) == count_matching(ms, p) + if p(x) {
        1int
    } else {
        0int
    });
}

/// The name-match count is a `count_matching`.
pub proof fn lemma_match_count_is_matching(ms: Seq<LineModel>, n: Seq<char>)
    ensures
        spec_match_count(ms, n) == count_matching(ms, |m: LineModel| entry_has_name(m, n)),
    decreases ms.len(),
{
    if ms.len() > 0 {
        lemma_match_count_is_matching(ms.drop_last(), n);
    }
}

/// With exactly one match, every matching index is the first one.
pub proof fn lemma_count_one_unique(ms: Seq<LineModel>, n: Seq<char>, k: int)
    requires
        spec_match_count(ms, n) == 1,
        0 <= k < ms.len(),
        entry_has_name(ms[k], n),
    ensures
        spec_first_match(ms, n) == k,
        forall|j: int| 0 <= j < ms.len() && entry_has_name(#[trigger] ms[j], n) ==> j == k,
{
    let p = |m: LineModel| entry_has_name(m, n);
    lemma_match_count_is_matching(ms, n);
    assert forall|j: int| 0 <= j < ms.len() && entry_has_name(#[trigger] ms[j], n) implies j
        == k by {
        if j != k {
            let lo = if j < k {
                j
            } else {
                k
            };
            let hi = if j < k {
                k
            } else {
                j
            };
            // two distinct matches give a count of at least two
            lemma_two_matches_count(ms, n, lo, hi);
        }
    }
    crate::hostsfile::lemma_first_match_at_pub(ms, n, k);
}

proof fn lemma_two_matches_count(ms: Seq<LineModel>, n: Seq<char>, lo: int, hi: int)
    requires
        0 <= lo < hi < ms.len(),
        entry_has_name(ms[lo], n),
        entry_has_name(ms[hi], n),
    ensures
        spec_match_count(ms, n) >= 2,
    decreases ms.len(),
{
    if hi == ms.len() - 1 {
        lemma_one_match_count(ms.drop_last(), n, lo);
    } else {
        lemma_two_matches_count(ms.drop_last(), n, lo, hi);
    }
}

proof fn lemma_one_match_count(ms: Seq<LineModel>, n: Seq<char>, i: int)
    requires
        0 <= i < ms.len(),
        entry_has_name(ms[i], n),
    ensures
        spec_match_count(ms, n) >= 1,
    decreases ms.len(),
{
    lemma_match_count_is_matching(ms, n);
    lemma_count_matching_nonneg(ms.drop_last(), |m: LineModel| entry_has_name(m, n));
    lemma_match_count_is_matching(ms.drop_last(), n);
    if i < ms.len() - 1 {
        lemma_one_match_count(ms.drop_last(), n, i);
    }
}

/// With no match, no line carries the name.
pub proof fn lemma_count_zero_no_match(ms: Seq<LineModel>, n: Seq<char>)
    requires
        spec_match_count(ms, n) == 0,
    ensures
        forall|j: int| 0 <= j < ms.len() ==> !entry_has_name(#[trigger] ms[j], n),
{
    assert forall|j: int| 0 <= j < ms.len() implies !entry_has_name(#[trigger] ms[j], n) by {
        if entry_has_name(ms[j], n) {
            lemma_one_match_count(ms, n, j);
        }
    }
}

} // verus!

verus! {

// ---------------------------------------------------------------------------
// What a successful write establishes
// ---------------------------------------------------------------------------

proof fn lemma_first_match_props(ms: Seq<LineModel>, n: Seq<char>)
    requires
        spec_match_count(ms, n) >= 1,
    ensures
        0 <= spec_first_match(ms, n) < ms.len(),
        entry_has_name(ms[spec_first_match(ms, n)], n),
        forall|j: int| 0 <= j < spec_first_match(ms, n) ==> !entry_has_name(#[trigger] ms[j], n),
    decreases ms.len(),
{
    lemma_match_count_is_matching(ms, n);
    lemma_count_matching_pos(ms, (|m: LineModel| entry_has_name(m, n)));
    let i0 = choose|i: int| 0 <= i < ms.len() && entry_has_name(#[trigger] ms[i], n);
    if entry_has_name(ms[0], n) {
    } else {
        assert(i0 >= 1);
        let tail = ms.skip(1);
        assert(forall|j: int| 0 <= j < tail.len() ==> tail[j] == ms[j + 1]);
        assert(entry_has_name(tail[i0 - 1], n));
        lemma_one_match_count(tail, n, i0 - 1);
        lemma_first_match_props(tail, n);
        assert forall|j: int| 0 <= j < spec_first_match(ms, n) implies !entry_has_name(
            #[trigger] ms[j],
            n,
        ) by {
            if j > 0 {
                assert(!entry_has_name(tail[j - 1], n));
            }
        }
    }
}

proof fn lemma_first_start_props(ms: Seq<LineModel>)
    requires
        spec_has_start(ms),
    ensures
        0 <= spec_first_start(ms) < ms.len(),
        ms[spec_first_start(ms)] is ManagedStart,
    decreases ms.len(),
{
    if ms[0] is ManagedStart {
    } else {
        let tail = ms.skip(1);
        assert(forall|j: int| 0 <= j < tail.len() ==> tail[j] == ms[j + 1]);
        let i0 = choose|i: int| 0 <= i < ms.len() && ms[i] is ManagedStart;
        assert(tail[i0 - 1] is ManagedStart);
        assert(spec_has_start(tail));
        lemma_first_start_props(tail);
    }
}

/// A successful write leaves exactly one entry for the name, a managed one
/// holding the written address; the sentinel pair is created only when it
/// was absent.
proof fn lemma_set_establishes(ms: Seq<LineModel>, n: Seq<char>, ip: HostAddr, ms2: Seq<LineModel>)
    requires
        spec_set(ms, n, ip) == Ok::<Seq<LineModel>, HostsError>(ms2),
    ensures
        spec_match_count(ms2, n) == 1,
        spec_lookup(ms2, n) == Ok::<Option<int>, HostsError>(Some(spec_first_match(ms2, n))),
        ms2[spec_first_match(ms2, n)] == new_entry_model(n, ip),
        spec_has_start(ms2),
        count_matching(ms2, (|m: LineModel| m is ManagedStart)) == count_matching(
            ms,
            (|m: LineModel| m is ManagedStart),
        ) + if spec_has_start(ms) {
            0int
        } else {
            1int
        },
        count_matching(ms2, (|m: LineModel| m is ManagedEnd)) == count_matching(
            ms,
            (|m: LineModel| m is ManagedEnd),
        ) + if spec_has_start(ms) {
            0int
        } else {
            1int
        },
{
    let ps = (|m: LineModel| m is ManagedStart);
    let pe = (|m: LineModel| m is ManagedEnd);
    let pn = (|m: LineModel| entry_has_name(m, n));
    let ms1 = spec_with_sentinels(ms);
    let ne = new_entry_model(n, ip);
    assert(entry_has_name(ne, n)) by {
        assert(seq![n][0] == n);
        assert(seq![n].contains(n));
    }
    assert(!(ne is ManagedStart) && !(ne is ManagedEnd));
    // the sentinel counts of ms1
    if !spec_has_start(ms) {
        lemma_count_matching_append2(ms, LineModel::ManagedStart, LineModel::ManagedEnd, ps);
        lemma_count_matching_append2(ms, LineModel::ManagedStart, LineModel::ManagedEnd, pe);
        crate::hostsfile::lemma_count_append_sentinels(ms, n);
        assert(spec_has_start(ms1)) by {
            assert(ms1[ms.len() as int] is ManagedStart);
        }
    }
    lemma_match_count_is_matching(ms1, n);
    lemma_match_count_is_matching(ms2, n);
    lemma_count_matching_nonneg(ms1, pn);
    lemma_first_start_props(ms1);
    let fs = spec_first_start(ms1);
    match spec_lookup(ms1, n) {
        Ok(None) => {
            assert(spec_match_count(ms1, n) == 0);
            assert(ms2 == ms1.insert(fs + 1, ne));
            ms1.insert_ensures(fs + 1, ne);
            lemma_count_matching_insert(ms1, fs + 1, ne, pn);
            lemma_count_matching_insert(ms1, fs + 1, ne, ps);
            lemma_count_matching_insert(ms1, fs + 1, ne, pe);
            assert(ms2[fs + 1] == ne);
            lemma_count_one_unique(ms2, n, fs + 1);
        },
        Ok(Some(i)) => {
            assert(spec_match_count(ms1, n) == 1);
            lemma_first_match_props(ms1, n);
            assert(i == spec_first_match(ms1, n));
            assert(entry_has_name(ms1[i], n));
            assert(!(ms1[i] is ManagedStart) && !(ms1[i] is ManagedEnd));
            assert(ms2 == ms1.update(i, ne));
            lemma_count_matching_update(ms1, i, ne, pn);
            lemma_count_matching_update(ms1, i, ne, ps);
            lemma_count_matching_update(ms1, i, ne, pe);
            assert(ms2[i] == ne);
            lemma_count_one_unique(ms2, n, i);
        },
        Err(_) => {
            assert(false);
        },
    }
    assert(spec_has_start(ms2)) by {
        lemma_count_matching_pos(ms1, ps);
        lemma_count_matching_pos(ms2, ps);
    }
}

// ---------------------------------------------------------------------------
// Sentinel idempotence
// ---------------------------------------------------------------------------

/// SENTINEL IDEMPOTENCE.  A successful `get_or_create_ip` adds exactly one
/// opening and one closing sentinel when the file has no opening sentinel,
/// and none otherwise; in particular, the first write to an empty file
/// creates exactly one pair, and later calls never add more.
pub proof fn lemma_sentinel_idempotence(
    ms: Seq<LineModel>,
    prev: Seq<LineModel>,
    n: Seq<char>,
    r: Result<HostAddr, HostsError>,
    ms2: Seq<LineModel>,
)
    requires
        is_get_or_create_result(ms, prev, n, r, ms2),
        r is Ok,
    ensures
        count_matching(ms2, (|m: LineModel| m is ManagedStart)) == count_matching(
            ms,
            (|m: LineModel| m is ManagedStart),
        ) + if spec_has_start(ms) || ms2 == ms {
            0int
        } else {
            1int
        },
        count_matching(ms2, (|m: LineModel| m is ManagedEnd)) == count_matching(
            ms,
            (|m: LineModel| m is ManagedEnd),
        ) + if spec_has_start(ms) || ms2 == ms {
            0int
        } else {
            1int
        },
        !(ms2 == ms) ==> spec_has_start(ms2),
{
    match spec_lookup(ms, n) {
        Err(_) => {},
        Ok(Some(i)) => {},
        Ok(None) => {
            match spec_lookup(prev, n) {
                Err(_) => {},
                Ok(Some(pi)) => {
                    match prev[pi] {
                        LineModel::Entry(e) => {
                            lemma_set_establishes(ms, n, e.ip, ms2);
                        },
                        _ => {
                            assert(false);
                        },
                    }
                },
                Ok(None) => {
                    let aip = match r {
                        Ok(aip) => aip,
                        Err(_) => ip_zero(),
                    };
                    lemma_set_establishes(ms, n, aip, ms2);
                },
            }
        },
    }
}

spec fn ip_zero() -> HostAddr {
    HostAddr::V4(Ipv4Addr { a: 0, b: 0, c: 0, d: 0 })
}

// ---------------------------------------------------------------------------
// Address stability, and one entry per name
// ---------------------------------------------------------------------------

/// IP STABILITY.  Once `get_or_create_ip` has handed out an address for a
/// name, a second call for the same name returns the same address and
/// leaves the file unchanged.
pub proof fn lemma_ip_stability(
    ms: Seq<LineModel>,
    prev: Seq<LineModel>,
    n: Seq<char>,
    ip: HostAddr,
    ms2: Seq<LineModel>,
    prev2: Seq<LineModel>,
    r2: Result<HostAddr, HostsError>,
    ms3: Seq<LineModel>,
)
    requires
        is_get_or_create_result(ms, prev, n, Ok(ip), ms2),
        is_get_or_create_result(ms2, prev2, n, r2, ms3),
    ensures
        r2 == Ok::<HostAddr, HostsError>(ip),
        ms3 == ms2,
{
    match spec_lookup(ms, n) {
        Err(_) => {
            assert(false);
        },
        Ok(Some(i)) => {},
        Ok(None) => {
            match spec_lookup(prev, n) {
                Err(_) => {
                    assert(false);
                },
                Ok(Some(pi)) => {
                    match prev[pi] {
                        LineModel::Entry(e) => {
                            assert(e.ip == ip);
                            lemma_set_establishes(ms, n, ip, ms2);
                        },
                        _ => {
                            assert(false);
                        },
                    }
                },
                Ok(None) => {
                    lemma_set_establishes(ms, n, ip, ms2);
                },
            }
        },
    }
}

/// NAME UNIQUENESS.  Writing the same name twice does not grow the line
/// list: the second write replaces the entry in place.
pub proof fn lemma_name_uniqueness(
    ms: Seq<LineModel>,
    n: Seq<char>,
    ip1: HostAddr,
    ms2: Seq<LineModel>,
    ip2: HostAddr,
    ms3: Seq<LineModel>,
)
    requires
        spec_set(ms, n, ip1) == Ok::<Seq<LineModel>, HostsError>(ms2),
        spec_set(ms2, n, ip2) == Ok::<Seq<LineModel>, HostsError>(ms3),
    ensures
        ms3.len() == ms2.len(),
{
    lemma_set_establishes(ms, n, ip1, ms2);
    assert(spec_with_sentinels(ms2) == ms2);
    lemma_first_match_props(ms2, n);
}

// ---------------------------------------------------------------------------
// Range bounds
// ---------------------------------------------------------------------------

/// RANGE EXHAUSTION.  When every address of the managed range is taken,
/// allocation fails.
pub proof fn lemma_alloc_exhausted(s: Set<int>, r: Result<Ipv4Addr, HostsError>)
    requires
        forall|y: int| MIN_ADDR_NUM <= y <= MAX_ADDR_NUM ==> s.contains(y),
        is_alloc_result(s, r),
    ensures
        r is Err,
{
    match r {
        Ok(ip) => {
            assert(MIN_ADDR_NUM <= ip.spec_num() <= MAX_ADDR_NUM);
            assert(s.contains(ip.spec_num()));
        },
        Err(_) => {},
    }
}

// ---------------------------------------------------------------------------
// Delete symmetry
// ---------------------------------------------------------------------------

/// DELETE SYMMETRY.  A name carried by exactly one entry, a managed one,
/// is looked up as that entry, so deleting it removes exactly one line;
/// an absent name is looked up as nothing, so deleting it is a no-op.
pub proof fn lemma_delete_symmetry(ms: Seq<LineModel>, n: Seq<char>)
    ensures
        spec_match_count(ms, n) == 1 && is_managed_entry(ms[spec_first_match(ms, n)]) ==> (
        spec_lookup(ms, n) == Ok::<Option<int>, HostsError>(Some(spec_first_match(ms, n)))
            && ms.remove(spec_first_match(ms, n)).len() == ms.len() - 1),
        spec_match_count(ms, n) == 0 ==> spec_lookup(ms, n) == Ok::<Option<int>, HostsError>(None),
{
    if spec_match_count(ms, n) == 1 && is_managed_entry(ms[spec_first_match(ms, n)]) {
        lemma_first_match_props(ms, n);
    }
}

// ---------------------------------------------------------------------------
// Reset preserves unmanaged lines
// ---------------------------------------------------------------------------

/// RESET PRESERVES UNMANAGED LINES.  After a reset no managed entry
/// remains, and every kept line of the old file is present; the reset
/// contract states the stronger fact that the new lines are exactly the
/// kept lines of the old file, in their original order.
pub open spec fn reset_kept(ms: Seq<LineModel>) -> Seq<LineModel> {
    ms.filter(|m: LineModel| keep_on_reset(m))
}

pub proof fn lemma_reset_preserves_unmanaged(ms: Seq<LineModel>)
    ensures
        forall|i: int|
            0 <= i < reset_kept(ms).len() ==> !is_managed_entry(#[trigger] reset_kept(ms)[i]),
        forall|i: int|
            0 <= i < ms.len() && keep_on_reset(#[trigger] ms[i]) ==> reset_kept(ms).contains(
                ms[i],
            ),
{
    let p = (|m: LineModel| keep_on_reset(m));
    assert forall|i: int| 0 <= i < reset_kept(ms).len() implies !is_managed_entry(
        #[trigger] reset_kept(ms)[i],
    ) by {
        ms.lemma_filter_pred(p, i);
    }
    assert forall|i: int| 0 <= i < ms.len() && keep_on_reset(#[trigger] ms[i]) implies reset_kept(
        ms,
    ).contains(ms[i]) by {
        ms.lemma_filter_contains(p, i);
    }
}

// ---------------------------------------------------------------------------
// Selector matching
// ---------------------------------------------------------------------------

/// SELECTOR MATCH.  A selector of two pairs matches a pod exactly when the
/// pod's labels contain both pairs; in particular a missing key or a
/// mismatched value fails the match.
pub proof fn lemma_selector_two_entries(
    k1: Seq<char>,
    v1: Seq<char>,
    k2: Seq<char>,
    v2: Seq<char>,
    labels: Seq<(Seq<char>, Seq<char>)>,
)
    ensures
        crate::service::spec_selector_matches(seq![(k1, v1), (k2, v2)], labels) <==> (
        labels.contains((k1, v1)) && labels.contains((k2, v2))),
{
    let sel = seq![(k1, v1), (k2, v2)];
    assert(sel[0] == (k1, v1));
    assert(sel[1] == (k2, v2));
    if labels.contains((k1, v1)) && labels.contains((k2, v2)) {
        assert forall|i: int| 0 <= i < sel.len() implies labels.contains(#[trigger] sel[i]) by {
            if i == 0 {
            } else {
                assert(i == 1);
            }
        }
    }
}

} // verus!

verus! {

// ---------------------------------------------------------------------------
// Address stability across a reset
// ---------------------------------------------------------------------------

/// IP STABILITY ACROSS A RESET.  Once `get_or_create_ip` has handed out an
/// address for a name, a reset followed by another call for the same name
/// hands out the same address: the snapshot remembers the assignment
/// within one process lifetime.  The kept (unmanaged) lines must not carry
/// the name themselves, or the later call fails with a collision instead.
pub proof fn lemma_ip_stability_across_reset(
    ms: Seq<LineModel>,
    prev: Seq<LineModel>,
    n: Seq<char>,
    ip: HostAddr,
    ms2: Seq<LineModel>,
    r3: Result<HostAddr, HostsError>,
    ms3: Seq<LineModel>,
)
    requires
        is_get_or_create_result(ms, prev, n, Ok(ip), ms2),
        spec_match_count(reset_kept(ms2), n) == 0,
        is_get_or_create_result(reset_kept(ms2), ms2, n, r3, ms3),
    ensures
        r3 == Ok::<HostAddr, HostsError>(ip),
{
    // after the first call the name is carried by exactly one entry of
    // ms2, a managed one holding ip
    assert(spec_lookup(ms2, n) matches Ok(oi) && (oi matches Some(fm) && (ms2[fm]
        matches LineModel::Entry(e) && e.ip == ip))) by {
        match spec_lookup(ms, n) {
            Err(_) => {
                assert(false);
            },
            Ok(Some(i)) => {},
            Ok(None) => {
                match spec_lookup(prev, n) {
                    Err(_) => {
                        assert(false);
                    },
                    Ok(Some(pi)) => {
                        match prev[pi] {
                            LineModel::Entry(e) => {
                                lemma_set_establishes(ms, n, e.ip, ms2);
                            },
                            _ => {
                                assert(false);
                            },
                        }
                    },
                    Ok(None) => {
                        lemma_set_establishes(ms, n, ip, ms2);
                    },
                }
            },
        }
    }
}

// ---------------------------------------------------------------------------
// Writing over an existing name replaces in place
// ---------------------------------------------------------------------------

/// NAME UNIQUENESS, IN PLACE.  In a file that already holds its sentinel
/// pair, writing a name that exactly one entry carries, a managed one,
/// replaces that entry where it stands: the line list keeps its length.
pub proof fn lemma_set_replaces_in_place(ms: Seq<LineModel>, n: Seq<char>, ip: HostAddr)
    requires
        spec_has_start(ms),
        spec_match_count(ms, n) == 1,
        is_managed_entry(ms[spec_first_match(ms, n)]),
    ensures
        spec_set(ms, n, ip) == Ok::<Seq<LineModel>, HostsError>(
            ms.update(spec_first_match(ms, n), new_entry_model(n, ip)),
        ),
        ms.update(spec_first_match(ms, n), new_entry_model(n, ip)).len() == ms.len(),
{
    lemma_first_match_props(ms, n);
    assert(spec_with_sentinels(ms) == ms);
}

} // verus!
